//! Disjoint-set (union-find) tree with union by size and path compression.

use vstd::prelude::*;

verus! {

/// Sum of a sequence of group sizes, as a mathematical integer.
pub open spec fn sum_sizes(s: Seq<usize>) -> int
    decreases s.len(),
{
    if s.len() == 0 {
        0
    } else {
        sum_sizes(s.drop_last()) + s.last()
    }
}

/// Number of indices `i < k` that are their own representative, i.e. the
/// number of groups among the first `k` elements.
pub open spec fn count_roots(rep: Seq<usize>, k: int) -> int
    decreases k,
{
    if k <= 0 {
        0
    } else {
        count_roots(rep, k - 1) + if rep[k - 1] as int == k - 1 {
            1int
        } else {
            0int
        }
    }
}

/// The representative map after the group rooted at `small` is absorbed into
/// the group rooted at `big`.
pub open spec fn merged_rep(rep: Seq<usize>, small: usize, big: usize) -> Seq<usize> {
    Seq::new(rep.len(), |i: int| if rep[i] == small { big } else { rep[i] })
}

/// The root that survives when the groups of `x` and `y` merge: the root of
/// the larger group, with ties going to `x`'s root.
pub open spec fn unite_big(rep: Seq<usize>, sizes: Seq<usize>, x: usize, y: usize) -> usize {
    if sizes[rep[x as int] as int] < sizes[rep[y as int] as int] {
        rep[y as int]
    } else {
        rep[x as int]
    }
}

/// The root that is absorbed when the groups of `x` and `y` merge.
pub open spec fn unite_small(rep: Seq<usize>, sizes: Seq<usize>, x: usize, y: usize) -> usize {
    if sizes[rep[x as int] as int] < sizes[rep[y as int] as int] {
        rep[x as int]
    } else {
        rep[y as int]
    }
}

/// The size table after the groups of `x` and `y` merge: the surviving root
/// holds the combined size and the absorbed root is cleared to zero.
pub open spec fn unite_sizes(rep: Seq<usize>, sizes: Seq<usize>, x: usize, y: usize) -> Seq<usize> {
    let big = unite_big(rep, sizes, x, y);
    let small = unite_small(rep, sizes, x, y);
    let combined = (sizes[rep[x as int] as int] + sizes[rep[y as int] as int]) as usize;
    sizes.update(big as int, combined).update(small as int, 0usize)
}

/// Disjoint-set structure over the elements `0 .. n`.
///
/// `rep` is the ghost abstraction of the partition: `rep@[i]` is the
/// representative (root) of `i`'s group.  `depth` assigns each element a rank
/// that strictly increases along parent links, which witnesses that every
/// parent chain terminates at a root.
pub struct UnionFind {
    pub parents: Vec<usize>,
    pub sizes: Vec<usize>,
    pub total: usize,
    pub rep: Ghost<Seq<usize>>,
    pub depth: Ghost<Seq<nat>>,
    pub max_depth: Ghost<nat>,
}

impl UnionFind {
    /// Number of elements.
    pub open spec fn n(self) -> int {
        self.parents@.len() as int
    }

    /// Internal invariant: parent links point inside the structure, agree with
    /// the ghost representative map, are acyclic (ranked by `depth`), the
    /// group sizes sum to `n`, and `total` counts the groups.
    pub open spec fn well_formed(self) -> bool {
        let n = self.parents@.len() as int;
        &&& self.sizes@.len() == n
        &&& self.rep@.len() == n
        &&& self.depth@.len() == n
        &&& forall|i: int| 0 <= i < n ==> (#[trigger] self.parents@[i]) < n
        &&& forall|i: int| 0 <= i < n ==> (#[trigger] self.rep@[i]) < n
        &&& forall|i: int|
            0 <= i < n ==> self.parents@[#[trigger] self.rep@[i] as int] == self.rep@[i]
        &&& forall|i: int|
            0 <= i < n ==> self.rep@[#[trigger] self.parents@[i] as int] == self.rep@[i]
        &&& forall|i: int|
            0 <= i < n && (#[trigger] self.parents@[i]) as int == i ==> self.rep@[i] as int == i
        &&& forall|i: int|
            0 <= i < n && (#[trigger] self.parents@[i]) as int != i ==> self.depth@[i]
                < self.depth@[self.parents@[i] as int]
        &&& forall|i: int| 0 <= i < n ==> (#[trigger] self.depth@[i]) <= self.max_depth@
        &&& sum_sizes(self.sizes@) == n
        &&& self.total == count_roots(self.rep@, n)
    }

    /// Create `n` singleton groups: every element is its own parent and root,
    /// every group has size 1, and there are `n` groups.
    pub fn new(n: usize) -> (uf: UnionFind)
        ensures
            uf.well_formed(),
            uf.n() == n,
            uf.total == n,
            forall|i: int| 0 <= i < n ==> (#[trigger] uf.rep@[i]) as int == i,
            forall|i: int| 0 <= i < n ==> (#[trigger] uf.sizes@[i]) == 1usize,
            uf.sizes@.len() == n,
    {
        let mut parents: Vec<usize> = Vec::new();
        let mut sizes: Vec<usize> = Vec::new();
        let mut i: usize = 0;
        while i < n
            invariant
                i <= n,
                parents@.len() == i,
                sizes@.len() == i,
                forall|j: int| 0 <= j < i ==> (#[trigger] parents@[j]) as int == j,
                forall|j: int| 0 <= j < i ==> (#[trigger] sizes@[j]) == 1usize,
            decreases n - i,
        {
            parents.push(i);
            sizes.push(1);
            i += 1;
        }
        let ghost rep0 = parents@;
        let ghost depth0 = Seq::new(n as nat, |j: int| 0nat);
        let uf = UnionFind {
            parents,
            sizes,
            total: n,
            rep: Ghost(rep0),
            depth: Ghost(depth0),
            max_depth: Ghost(0nat),
        };
        proof {
            lemma_sum_sizes_all_ones(uf.sizes@);
            lemma_count_roots_identity(uf.rep@, n as int);
        }
        uf
    }

    /// Return the representative (root) of `x`'s group, compressing the path
    /// from `x` to the root so later lookups are faster.  The partition
    /// itself, the size table and the group count are unchanged.
    pub fn find(&mut self, x: usize) -> (r: usize)
        requires
            old(self).well_formed(),
            x < old(self).n(),
        ensures
            final(self).well_formed(),
            final(self).n() == old(self).n(),
            final(self).rep@ == old(self).rep@,
            final(self).sizes@ == old(self).sizes@,
            final(self).total == old(self).total,
            r == old(self).rep@[x as int],
            r < old(self).n(),
    {
        let mut cur: usize = x;
        while self.parents[cur] != cur
            invariant
                self.well_formed(),
                *self == *old(self),
                (cur as int) < self.n(),
                self.rep@[cur as int] == self.rep@[x as int],
            decreases self.max_depth@ - self.depth@[cur as int],
        {
            cur = self.parents[cur];
        }
        let root = cur;
        proof {
            assert(self.rep@[root as int] as int == root as int);
        }
        let ghost bumped = self.max_depth@ + 1;
        let ghost new_depth = self.depth@.update(root as int, bumped);
        self.depth = Ghost(new_depth);
        self.max_depth = Ghost(bumped);
        proof {
            assert(self.well_formed());
            assert(forall|i: int|
                0 <= i < self.n() && i != root ==> self.depth@[i] < self.depth@[root as int]);
        }
        let mut cur: usize = x;
        while self.parents[cur] != cur
            invariant
                self.well_formed(),
                self.n() == old(self).n(),
                self.rep@ == old(self).rep@,
                self.sizes@ == old(self).sizes@,
                self.total == old(self).total,
                self.depth@ == new_depth,
                self.max_depth@ == bumped,
                (cur as int) < self.n(),
                (root as int) < self.n(),
                self.rep@[cur as int] == self.rep@[x as int],
                self.rep@[x as int] == root,
                self.parents@[root as int] as int == root as int,
                forall|i: int|
                    0 <= i < self.n() && i != root ==> self.depth@[i] < self.depth@[root as int],
            decreases self.depth@[root as int] - self.depth@[cur as int],
        {
            let next = self.parents[cur];
            proof {
                assert(cur != root);
                assert(self.depth@[cur as int] < self.depth@[next as int]);
            }
            self.parents[cur] = root;
            cur = next;
        }
        root
    }

    /// True exactly when `x` and `y` are in the same group.  May compress
    /// paths, but the partition is unchanged.
    pub fn is_same(&mut self, x: usize, y: usize) -> (same: bool)
        requires
            old(self).well_formed(),
            x < old(self).n(),
            y < old(self).n(),
        ensures
            final(self).well_formed(),
            final(self).n() == old(self).n(),
            final(self).rep@ == old(self).rep@,
            final(self).sizes@ == old(self).sizes@,
            final(self).total == old(self).total,
            same == (old(self).rep@[x as int] == old(self).rep@[y as int]),
    {
        let rx = self.find(x);
        let ry = self.find(y);
        rx == ry
    }

    /// Merge the groups of `x` and `y` by size: the smaller group's root is
    /// attached under the larger group's root (ties keep `x`'s root), the
    /// surviving root's size becomes the sum, the absorbed root's size is
    /// cleared, and the group count drops by one.  Returns `false`, changing
    /// nothing of the partition, when `x` and `y` were already together.
    pub fn unite(&mut self, x: usize, y: usize) -> (merged: bool)
        requires
            old(self).well_formed(),
            x < old(self).n(),
            y < old(self).n(),
        ensures
            final(self).well_formed(),
            final(self).n() == old(self).n(),
            merged == (old(self).rep@[x as int] != old(self).rep@[y as int]),
            !merged ==> final(self).rep@ == old(self).rep@ && final(self).sizes@ == old(
                self,
            ).sizes@ && final(self).total == old(self).total,
            merged ==> final(self).total == old(self).total - 1,
            merged ==> final(self).rep@ == merged_rep(
                old(self).rep@,
                unite_small(old(self).rep@, old(self).sizes@, x, y),
                unite_big(old(self).rep@, old(self).sizes@, x, y),
            ),
            merged ==> final(self).sizes@ == unite_sizes(old(self).rep@, old(self).sizes@, x, y),
    {
        let px = self.find(x);
        let py = self.find(y);
        if px == py {
            return false;
        }
        let n = self.parents.len();
        proof {
            lemma_sum_sizes_pair(self.sizes@, px as int, py as int);
            lemma_count_roots_root_exists(self.rep@, self.n(), px as int);
        }
        let (large, small) = if self.sizes[px] < self.sizes[py] {
            (py, px)
        } else {
            (px, py)
        };
        let combined = self.sizes[large] + self.sizes[small];
        let ghost old_rep = self.rep@;
        let ghost old_sizes = self.sizes@;
        self.parents[small] = large;
        self.sizes[large] = combined;
        self.sizes[small] = 0;
        self.total = self.total - 1;
        let ghost new_rep = merged_rep(old_rep, small, large);
        let ghost bumped = self.max_depth@ + 1;
        let ghost new_depth = self.depth@.update(large as int, bumped);
        self.rep = Ghost(new_rep);
        self.depth = Ghost(new_depth);
        self.max_depth = Ghost(bumped);
        proof {
            lemma_sum_sizes_update(old_sizes, large as int, combined);
            lemma_sum_sizes_update(
                old_sizes.update(large as int, combined),
                small as int,
                0usize,
            );
            lemma_count_roots_flip(old_rep, new_rep, small as int, self.n());
            assert(self.sizes@ == unite_sizes(old(self).rep@, old(self).sizes@, x, y));
            assert(self.well_formed());
        }
        true
    }
}

/// Law: the representative map is idempotent — a representative is its own
/// representative, so `find(find(x))` always equals `find(x)`.
pub proof fn lemma_repr_idempotent(uf: UnionFind, x: int)
    requires
        uf.well_formed(),
        0 <= x < uf.n(),
    ensures
        uf.rep@[uf.rep@[x] as int] == uf.rep@[x],
{
}

/// Law: after a successful merge of `x` and `y`, they share a representative.
pub proof fn lemma_unite_connects(rep: Seq<usize>, sizes: Seq<usize>, x: usize, y: usize)
    requires
        rep.len() == sizes.len(),
        (x as int) < rep.len(),
        (y as int) < rep.len(),
        (rep[x as int] as int) < sizes.len(),
        (rep[y as int] as int) < sizes.len(),
    ensures
        merged_rep(rep, unite_small(rep, sizes, x, y), unite_big(rep, sizes, x, y))[x as int]
            == merged_rep(rep, unite_small(rep, sizes, x, y), unite_big(rep, sizes, x, y))[y as int],
{
}

proof fn lemma_sum_sizes_all_ones(s: Seq<usize>)
    requires
        forall|j: int| 0 <= j < s.len() ==> (#[trigger] s[j]) == 1usize,
    ensures
        sum_sizes(s) == s.len(),
    decreases s.len(),
{
    if s.len() > 0 {
        lemma_sum_sizes_all_ones(s.drop_last());
    }
}

proof fn lemma_sum_sizes_nonneg(s: Seq<usize>)
    ensures
        sum_sizes(s) >= 0,
    decreases s.len(),
{
    if s.len() > 0 {
        lemma_sum_sizes_nonneg(s.drop_last());
    }
}

proof fn lemma_sum_sizes_elem(s: Seq<usize>, i: int)
    requires
        0 <= i < s.len(),
    ensures
        s[i] <= sum_sizes(s),
    decreases s.len(),
{
    if i == s.len() - 1 {
        lemma_sum_sizes_nonneg(s.drop_last());
    } else {
        lemma_sum_sizes_elem(s.drop_last(), i);
    }
}

proof fn lemma_sum_sizes_pair(s: Seq<usize>, i: int, j: int)
    requires
        0 <= i < s.len(),
        0 <= j < s.len(),
        i != j,
    ensures
        s[i] + s[j] <= sum_sizes(s),
    decreases s.len(),
{
    if i == s.len() - 1 {
        lemma_sum_sizes_elem(s.drop_last(), j);
    } else if j == s.len() - 1 {
        lemma_sum_sizes_elem(s.drop_last(), i);
    } else {
        lemma_sum_sizes_pair(s.drop_last(), i, j);
    }
}

proof fn lemma_sum_sizes_update(s: Seq<usize>, i: int, v: usize)
    requires
        0 <= i < s.len(),
    ensures
        sum_sizes(s.update(i, v)) == sum_sizes(s) - s[i] + v,
    decreases s.len(),
{
    if i == s.len() - 1 {
        assert(s.update(i, v).drop_last() =~= s.drop_last());
    } else {
        lemma_sum_sizes_update(s.drop_last(), i, v);
        assert(s.update(i, v).drop_last() =~= s.drop_last().update(i, v));
    }
}

proof fn lemma_count_roots_identity(rep: Seq<usize>, k: int)
    requires
        0 <= k <= rep.len(),
        forall|i: int| 0 <= i < rep.len() ==> (#[trigger] rep[i]) as int == i,
    ensures
        count_roots(rep, k) == k,
    decreases k,
{
    if k > 0 {
        lemma_count_roots_identity(rep, k - 1);
    }
}

pub(crate) proof fn lemma_count_roots_root_exists(rep: Seq<usize>, k: int, r: int)
    requires
        0 <= r < k <= rep.len(),
        rep[r] as int == r,
    ensures
        count_roots(rep, k) >= 1,
    decreases k,
{
    lemma_count_roots_nonneg(rep, k - 1);
    if r < k - 1 {
        lemma_count_roots_root_exists(rep, k - 1, r);
    }
}

proof fn lemma_count_roots_nonneg(rep: Seq<usize>, k: int)
    ensures
        count_roots(rep, k) >= 0,
    decreases k,
{
    if k > 0 {
        lemma_count_roots_nonneg(rep, k - 1);
    }
}

proof fn lemma_count_roots_flip(rep1: Seq<usize>, rep2: Seq<usize>, a: int, k: int)
    requires
        0 <= a < rep1.len(),
        rep1.len() == rep2.len(),
        k <= rep1.len(),
        rep1[a] as int == a,
        rep2[a] as int != a,
        forall|i: int|
            0 <= i < rep1.len() && i != a ==> (((#[trigger] rep1[i]) as int == i) <==> ((
            #[trigger] rep2[i]) as int == i)),
    ensures
        count_roots(rep2, k) == count_roots(rep1, k) - if a < k {
            1int
        } else {
            0int
        },
    decreases k,
{
    if k > 0 {
        lemma_count_roots_flip(rep1, rep2, a, k - 1);
    }
}

} // verus!
