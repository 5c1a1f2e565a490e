//! Minimum spanning forest of a weighted undirected graph via Kruskal's
//! greedy algorithm over a disjoint-set structure.

use vstd::prelude::*;

use crate::union_find::UnionFind;
use crate::union_find::lemma_count_roots_root_exists;
use crate::union_find::merged_rep;
use crate::union_find::unite_big;
use crate::union_find::unite_sizes;
use crate::union_find::unite_small;

verus! {

/// An undirected edge: two endpoints and a weight.
pub type Edge = (usize, usize, i64);

/// Weights never decrease along the sequence.
pub open spec fn sorted_by_weight(s: Seq<Edge>) -> bool {
    forall|k1: int, k2: int| 0 <= k1 < k2 < s.len() ==> (#[trigger] s[k1]).2 <= (#[trigger] s[k2]).2
}

/// Insert `e` into a weight-sorted sequence, after every element of equal
/// weight, so that repeated insertion is a stable sort.
pub open spec fn sorted_insert(s: Seq<Edge>, e: Edge) -> Seq<Edge>
    decreases s.len(),
{
    if s.len() == 0 {
        seq![e]
    } else if s.last().2 <= e.2 {
        s.push(e)
    } else {
        sorted_insert(s.drop_last(), e).push(s.last())
    }
}

/// Stable sort by weight: equal-weight edges keep their input order.
pub open spec fn stable_sort(s: Seq<Edge>) -> Seq<Edge>
    decreases s.len(),
{
    if s.len() == 0 {
        s
    } else {
        sorted_insert(stable_sort(s.drop_last()), s.last())
    }
}

/// Sum of the weights.
pub open spec fn sum_weights(s: Seq<Edge>) -> int
    decreases s.len(),
{
    if s.len() == 0 {
        0
    } else {
        sum_weights(s.drop_last()) + s.last().2
    }
}

pub open spec fn abs_w(w: int) -> int {
    if w < 0 {
        -w
    } else {
        w
    }
}

/// Sum of the absolute weights; a bound on it bounds every partial cost.
pub open spec fn sum_abs(s: Seq<Edge>) -> int
    decreases s.len(),
{
    if s.len() == 0 {
        0
    } else {
        sum_abs(s.drop_last()) + abs_w(s.last().2 as int)
    }
}

/// Both endpoints of every edge are valid vertex indices.
pub open spec fn valid_edges(s: Seq<Edge>, n: int) -> bool {
    forall|k: int|
        0 <= k < s.len() ==> ((#[trigger] s[k]).0 as int) < n && ((s[k]).1 as int) < n
}

/// Every element is its own representative: `n` singleton groups.
pub open spec fn identity_rep(n: int) -> Seq<usize> {
    Seq::new(n as nat, |i: int| i as usize)
}

/// Every singleton group has size one.
pub open spec fn singleton_sizes(n: int) -> Seq<usize> {
    Seq::new(n as nat, |i: int| 1usize)
}

/// Greedy edge selection from position `k` onward: an edge is accepted
/// exactly when its endpoints lie in different groups, which then merge by
/// size just as `UnionFind::unite` merges them.
pub open spec fn kruskal_select(
    rep: Seq<usize>,
    sizes: Seq<usize>,
    edges: Seq<Edge>,
    k: int,
) -> Seq<Edge>
    decreases edges.len() - k,
{
    if k < 0 || k >= edges.len() {
        Seq::empty()
    } else {
        let e = edges[k];
        if rep[e.0 as int] == rep[e.1 as int] {
            kruskal_select(rep, sizes, edges, k + 1)
        } else {
            let rep2 = merged_rep(
                rep,
                unite_small(rep, sizes, e.0, e.1),
                unite_big(rep, sizes, e.0, e.1),
            );
            let sizes2 = unite_sizes(rep, sizes, e.0, e.1);
            seq![e] + kruskal_select(rep2, sizes2, edges, k + 1)
        }
    }
}

/// The edges Kruskal's algorithm accepts: sort stably by weight, then select
/// greedily starting from `n` singleton groups.
pub open spec fn kruskal_spec(n: int, edges: Seq<Edge>) -> Seq<Edge> {
    kruskal_select(identity_rep(n), singleton_sizes(n), stable_sort(edges), 0)
}

/// Kruskal's minimum-spanning-forest computation: the vertex count, the
/// candidate edges (sorted in place by the run), the accepted edges in
/// acceptance order, and their total weight.
pub struct MinimumSpanningTree {
    pub n: usize,
    pub edges: Vec<Edge>,
    pub selected: Vec<Edge>,
    pub total_cost: i64,
}

impl MinimumSpanningTree {
    /// Store a copy of the candidate edge list; nothing is selected yet.
    pub fn new(n: usize, edges: &Vec<Edge>) -> (mst: MinimumSpanningTree)
        ensures
            mst.n == n,
            mst.edges@ == edges@,
            mst.selected@ == Seq::<Edge>::empty(),
            mst.total_cost == 0,
    {
        let mut copy: Vec<Edge> = Vec::new();
        let mut i: usize = 0;
        while i < edges.len()
            invariant
                i <= edges@.len(),
                copy@ == edges@.take(i as int),
            decreases edges@.len() - i,
        {
            copy.push(edges[i]);
            proof {
                assert(edges@.take(i as int).push(edges@[i as int]) =~= edges@.take(i as int + 1));
            }
            i += 1;
        }
        proof {
            assert(edges@.take(edges@.len() as int) =~= edges@);
        }
        MinimumSpanningTree { n, edges: copy, selected: Vec::new(), total_cost: 0 }
    }

    /// Run Kruskal's algorithm from scratch: sort the stored edges stably by
    /// weight, then accept each edge whose endpoints are not yet connected.
    /// Afterwards `selected` is exactly the greedy selection over the sorted
    /// list, `total_cost` is the sum of its weights, and at most `n - 1`
    /// edges are accepted.
    pub fn kruskal(&mut self)
        requires
            old(self).well_formed_input(),
        ensures
            final(self).n == old(self).n,
            final(self).edges@ == stable_sort(old(self).edges@),
            final(self).selected@ == kruskal_spec(old(self).n as int, old(self).edges@),
            final(self).total_cost as int == sum_weights(final(self).selected@),
            old(self).n >= 1 ==> final(self).selected@.len() <= old(self).n - 1,
    {
        let n = self.n;
        let ghost input = self.edges@;
        self.total_cost = 0;
        self.selected = Vec::new();

        let mut sorted_edges: Vec<Edge> = Vec::new();
        let mut idx: usize = 0;
        while idx < self.edges.len()
            invariant
                idx <= self.edges@.len(),
                self.edges@ == input,
                self.n == n,
                sorted_edges@ == stable_sort(input.take(idx as int)),
            decreases self.edges@.len() - idx,
        {
            let e = self.edges[idx];
            proof {
                lemma_stable_sort_props(input.take(idx as int), n as int);
            }
            let mut pos: usize = sorted_edges.len();
            while pos > 0 && sorted_edges[pos - 1].2 > e.2
                invariant
                    pos <= sorted_edges@.len(),
                    forall|b: int|
                        pos <= b < sorted_edges@.len() ==> (#[trigger] sorted_edges@[b]).2 > e.2,
                decreases pos,
            {
                pos -= 1;
            }
            proof {
                assert(sorted_by_weight(sorted_edges@));
                assert(forall|b: int|
                    0 <= b < pos ==> (#[trigger] sorted_edges@[b]).2 <= e.2);
                lemma_sorted_insert_at(sorted_edges@, e, pos as int);
                assert(input.take(idx as int + 1).drop_last() =~= input.take(idx as int));
                assert(input.take(idx as int + 1).last() == e);
            }
            sorted_edges.insert(pos, e);
            idx += 1;
        }
        proof {
            assert(input.take(input.len() as int) =~= input);
            lemma_stable_sort_props(input, n as int);
        }
        self.edges = sorted_edges;

        let mut uf = UnionFind::new(n);
        let ghost sorted_seq = self.edges@;
        proof {
            assert(uf.rep@ =~= identity_rep(n as int));
            assert(uf.sizes@ =~= singleton_sizes(n as int));
            assert(Seq::<Edge>::empty() + kruskal_select(uf.rep@, uf.sizes@, sorted_seq, 0)
                =~= kruskal_select(identity_rep(n as int), singleton_sizes(n as int), sorted_seq, 0));
        }
        let mut idx: usize = 0;
        while idx < self.edges.len()
            invariant
                uf.well_formed(),
                uf.n() == n,
                self.n == n,
                self.edges@ == sorted_seq,
                valid_edges(sorted_seq, n as int),
                sum_abs(sorted_seq) <= i64::MAX as int,
                idx <= sorted_seq.len(),
                self.selected@ + kruskal_select(uf.rep@, uf.sizes@, sorted_seq, idx as int)
                    == kruskal_select(
                    identity_rep(n as int),
                    singleton_sizes(n as int),
                    sorted_seq,
                    0,
                ),
                self.total_cost as int == sum_weights(self.selected@),
                -sum_abs(sorted_seq.take(idx as int)) <= self.total_cost as int,
                self.total_cost as int <= sum_abs(sorted_seq.take(idx as int)),
                self.selected@.len() + uf.total == n,
            decreases sorted_seq.len() - idx,
        {
            let (x, y, w) = self.edges[idx];
            let ghost rep_before = uf.rep@;
            let ghost sizes_before = uf.sizes@;
            let ghost selected_before = self.selected@;
            proof {
                assert(sorted_seq.take(idx as int + 1).drop_last() =~= sorted_seq.take(idx as int));
                assert(sorted_seq.take(idx as int + 1).last() == sorted_seq[idx as int]);
                lemma_sum_abs_take_le(sorted_seq, idx as int + 1);
            }
            if !uf.is_same(x, y) {
                uf.unite(x, y);
                self.selected.push((x, y, w));
                self.total_cost += w;
                proof {
                    assert(kruskal_select(rep_before, sizes_before, sorted_seq, idx as int)
                        == seq![(x, y, w)] + kruskal_select(
                        uf.rep@,
                        uf.sizes@,
                        sorted_seq,
                        idx as int + 1,
                    ));
                    assert(selected_before.push((x, y, w)) + kruskal_select(
                        uf.rep@,
                        uf.sizes@,
                        sorted_seq,
                        idx as int + 1,
                    ) =~= selected_before + (seq![(x, y, w)] + kruskal_select(
                        uf.rep@,
                        uf.sizes@,
                        sorted_seq,
                        idx as int + 1,
                    )));
                    assert(self.selected@.drop_last() =~= selected_before);
                }
            } else {
                proof {
                    assert(kruskal_select(rep_before, sizes_before, sorted_seq, idx as int)
                        == kruskal_select(uf.rep@, uf.sizes@, sorted_seq, idx as int + 1));
                }
            }
            idx += 1;
        }
        proof {
            assert(kruskal_select(uf.rep@, uf.sizes@, sorted_seq, sorted_seq.len() as int)
                =~= Seq::<Edge>::empty());
            assert(self.selected@ + Seq::<Edge>::empty() =~= self.selected@);
            if n >= 1 {
                lemma_count_roots_root_exists(uf.rep@, n as int, uf.rep@[0] as int);
            }
        }
    }

    /// The inputs `kruskal` needs: edge endpoints inside `0 .. n`, and total
    /// absolute weight small enough that no partial sum can overflow.
    pub open spec fn well_formed_input(self) -> bool {
        &&& valid_edges(self.edges@, self.n as int)
        &&& sum_abs(self.edges@) <= i64::MAX as int
    }
}

/// No two edges carry the same weight.
pub open spec fn distinct_weights(s: Seq<Edge>) -> bool {
    forall|k1: int, k2: int|
        0 <= k1 < k2 < s.len() ==> (#[trigger] s[k1]).2 != (#[trigger] s[k2]).2
}

/// `sorted_insert` adds exactly one copy of `e` to the sequence's contents.
proof fn lemma_sorted_insert_multiset(s: Seq<Edge>, e: Edge)
    ensures
        sorted_insert(s, e).to_multiset() == s.to_multiset().insert(e),
    decreases s.len(),
{
    broadcast use vstd::seq_lib::group_to_multiset_ensures;

    if s.len() == 0 {
        assert(seq![e] =~= Seq::<Edge>::empty().push(e));
        assert(Seq::<Edge>::empty().push(e).to_multiset() =~= Seq::<Edge>::empty().to_multiset()
            .insert(e));
        assert(Seq::<Edge>::empty().to_multiset() =~= vstd::multiset::Multiset::<Edge>::empty());
        assert(s.to_multiset() =~= vstd::multiset::Multiset::<Edge>::empty());
    } else if s.last().2 <= e.2 {
        assert(s.push(e).to_multiset() =~= s.to_multiset().insert(e));
    } else {
        lemma_sorted_insert_multiset(s.drop_last(), e);
        let inner = sorted_insert(s.drop_last(), e);
        assert(inner.push(s.last()).to_multiset() =~= inner.to_multiset().insert(s.last()));
        assert(s.drop_last().push(s.last()) =~= s);
        assert(s.to_multiset() =~= s.drop_last().to_multiset().insert(s.last()));
        assert(inner.to_multiset().insert(s.last()) =~= s.drop_last().to_multiset().insert(
            e,
        ).insert(s.last()));
        assert(s.drop_last().to_multiset().insert(e).insert(s.last())
            =~= s.drop_last().to_multiset().insert(s.last()).insert(e));
    }
}

/// The stable sort rearranges the edges without adding or losing any.
pub proof fn lemma_stable_sort_multiset(s: Seq<Edge>)
    ensures
        stable_sort(s).to_multiset() == s.to_multiset(),
    decreases s.len(),
{
    broadcast use vstd::seq_lib::group_to_multiset_ensures;

    if s.len() > 0 {
        lemma_stable_sort_multiset(s.drop_last());
        lemma_sorted_insert_multiset(stable_sort(s.drop_last()), s.last());
        assert(s.drop_last().push(s.last()) =~= s);
        assert(s.to_multiset() =~= s.drop_last().to_multiset().insert(s.last()));
    }
}

/// A sequence with the same contents as one whose weights are pairwise
/// distinct has pairwise-distinct weights itself.
proof fn lemma_distinct_weights_transfer(sa: Seq<Edge>, sb: Seq<Edge>)
    requires
        sa.to_multiset() == sb.to_multiset(),
        distinct_weights(sa),
    ensures
        distinct_weights(sb),
{
    broadcast use vstd::seq_lib::group_to_multiset_ensures;

    assert forall|k1: int, k2: int|
        0 <= k1 < k2 < sb.len() implies (#[trigger] sb[k1]).2 != (#[trigger] sb[k2]).2 by {
        let x = sb[k1];
        let y = sb[k2];
        if x.2 == y.2 {
            if x != y {
                assert(sb.contains(x) && sb.contains(y));
                assert(sa.to_multiset().count(x) > 0 && sa.to_multiset().count(y) > 0);
                assert(sa.contains(x) && sa.contains(y));
                let i1 = choose|i: int| 0 <= i < sa.len() && sa[i] == x;
                let i2 = choose|i: int| 0 <= i < sa.len() && sa[i] == y;
                assert(i1 != i2);
                assert(false);
            } else {
                assert(sb.remove(k1).to_multiset() == sb.to_multiset().remove(x));
                assert(sb.remove(k1)[k2 - 1] == y);
                assert(sb.remove(k1).contains(x));
                assert(sb.to_multiset().remove(x).count(x) > 0);
                assert(sa.to_multiset().count(x) >= 2);
                assert(sa.contains(x));
                let i1 = choose|i: int| 0 <= i < sa.len() && sa[i] == x;
                assert(sa.remove(i1).to_multiset() == sa.to_multiset().remove(x));
                assert(sa.remove(i1).to_multiset().count(x) > 0);
                assert(sa.remove(i1).contains(x));
                let j = choose|j: int| 0 <= j < sa.remove(i1).len() && sa.remove(i1)[j] == x;
                if j < i1 {
                    assert(sa[j] == x);
                    assert(false);
                } else {
                    assert(sa[j + 1] == x);
                    assert(false);
                }
            }
        }
    }
}

/// Two weight-sorted sequences with the same contents are identical when no
/// weight repeats.
proof fn lemma_sorted_multiset_unique(s1: Seq<Edge>, s2: Seq<Edge>)
    requires
        sorted_by_weight(s1),
        sorted_by_weight(s2),
        s1.to_multiset() == s2.to_multiset(),
        distinct_weights(s1),
    ensures
        s1 == s2,
    decreases s1.len(),
{
    broadcast use vstd::seq_lib::group_to_multiset_ensures;

    assert(s1.len() == s1.to_multiset().len());
    assert(s2.len() == s2.to_multiset().len());
    assert(s1.len() == s2.len());
    if s1.len() == 0 {
        assert(s1 =~= s2);
    } else {
        assert(s1.contains(s1[0]) && s2.contains(s2[0]));
        assert(s2.to_multiset().count(s1[0]) > 0);
        assert(s1.to_multiset().count(s2[0]) > 0);
        assert(s2.contains(s1[0]) && s1.contains(s2[0]));
        let j1 = choose|j: int| 0 <= j < s2.len() && s2[j] == s1[0];
        let j2 = choose|j: int| 0 <= j < s1.len() && s1[j] == s2[0];
        assert(s2[0].2 <= s2[j1].2);
        assert(s1[0].2 <= s1[j2].2);
        assert(s1[0].2 == s2[0].2);
        if j2 != 0 {
            assert(s1[j2].2 == s1[0].2);
            assert(false);
        }
        assert(s1[0] == s2[0]);
        assert(s1.remove(0).to_multiset() == s1.to_multiset().remove(s1[0]));
        assert(s2.remove(0).to_multiset() == s2.to_multiset().remove(s2[0]));
        assert(forall|k: int| 0 <= k < s1.remove(0).len() ==> #[trigger] s1.remove(0)[k] == s1[k
            + 1]);
        assert(forall|k: int| 0 <= k < s2.remove(0).len() ==> #[trigger] s2.remove(0)[k] == s2[k
            + 1]);
        lemma_sorted_multiset_unique(s1.remove(0), s2.remove(0));
        assert forall|k: int| 0 <= k < s1.len() implies s1[k] == s2[k] by {
            if k > 0 {
                assert(s1.remove(0)[k - 1] == s1[k]);
                assert(s2.remove(0)[k - 1] == s2[k]);
                assert(s1.remove(0)[k - 1] == s2.remove(0)[k - 1]);
            }
        }
        assert(s1 =~= s2);
    }
}

/// Law: when every edge weight is distinct, the whole outcome of `kruskal` is
/// independent of the order in which the edges were supplied: two inputs with
/// the same edges sort to the same sequence, so the selected edges and the
/// total cost coincide.
pub proof fn lemma_kruskal_order_invariant(e1: Seq<Edge>, e2: Seq<Edge>)
    requires
        e1.to_multiset() == e2.to_multiset(),
        distinct_weights(e1),
    ensures
        stable_sort(e1) == stable_sort(e2),
{
    lemma_stable_sort_multiset(e1);
    lemma_stable_sort_multiset(e2);
    lemma_stable_sort_props(e1, 0);
    lemma_stable_sort_props(e2, 0);
    lemma_distinct_weights_transfer(e1, stable_sort(e1));
    lemma_sorted_multiset_unique(stable_sort(e1), stable_sort(e2));
}

/// Law: sorting an already-sorted edge list changes nothing, so running
/// `kruskal` a second time on its own output reproduces the same selection
/// and total cost.
pub proof fn lemma_stable_sort_of_sorted(s: Seq<Edge>)
    requires
        sorted_by_weight(s),
    ensures
        stable_sort(s) == s,
    decreases s.len(),
{
    if s.len() > 0 {
        assert(forall|k: int|
            0 <= k < s.drop_last().len() ==> #[trigger] s.drop_last()[k] == s[k]);
        assert(sorted_by_weight(s.drop_last()));
        lemma_stable_sort_of_sorted(s.drop_last());
        if s.len() == 1 {
            assert(sorted_insert(s.drop_last(), s.last()) =~= s);
        } else {
            assert(s.drop_last().last().2 <= s.last().2);
            assert(s.drop_last().push(s.last()) =~= s);
        }
    }
}

proof fn lemma_sorted_insert_at(s: Seq<Edge>, e: Edge, pos: int)
    requires
        0 <= pos <= s.len(),
        forall|b: int| pos <= b < s.len() ==> (#[trigger] s[b]).2 > e.2,
        forall|b: int| 0 <= b < pos ==> (#[trigger] s[b]).2 <= e.2,
    ensures
        sorted_insert(s, e) == s.insert(pos, e),
    decreases s.len(),
{
    if pos == s.len() {
        if s.len() == 0 {
            assert(s.insert(pos, e) =~= seq![e]);
        } else {
            assert(s.insert(pos, e) =~= s.push(e));
        }
    } else {
        lemma_sorted_insert_at(s.drop_last(), e, pos);
        assert(s.insert(pos, e) =~= s.drop_last().insert(pos, e).push(s.last()));
    }
}

/// Structural facts about `sorted_insert`: it keeps the sequence sorted,
/// keeps endpoints valid, and adds exactly one edge's weight.
proof fn lemma_sorted_insert_props(s: Seq<Edge>, e: Edge, n: int)
    ensures
        sorted_insert(s, e).len() == s.len() + 1,
        sorted_by_weight(s) ==> sorted_by_weight(sorted_insert(s, e)),
        (valid_edges(s, n) && (e.0 as int) < n && (e.1 as int) < n) ==> valid_edges(
            sorted_insert(s, e),
            n,
        ),
        sum_abs(sorted_insert(s, e)) == sum_abs(s) + abs_w(e.2 as int),
        sum_weights(sorted_insert(s, e)) == sum_weights(s) + e.2,
    decreases s.len(),
{
    if s.len() == 0 {
        assert(seq![e].drop_last() =~= Seq::<Edge>::empty());
        assert(seq![e].last() == e);
        assert(sum_abs(Seq::<Edge>::empty()) == 0);
        assert(sum_weights(Seq::<Edge>::empty()) == 0);
        assert(sum_abs(seq![e]) == abs_w(e.2 as int));
        assert(sum_weights(seq![e]) == e.2 as int);
    } else if s.last().2 <= e.2 {
        assert(s.push(e).drop_last() =~= s);
        assert(s.push(e).last() == e);
        assert(sum_abs(s.push(e)) == sum_abs(s) + abs_w(e.2 as int));
        assert(sum_weights(s.push(e)) == sum_weights(s) + e.2);
    } else {
        lemma_sorted_insert_props(s.drop_last(), e, n);
        let inner = sorted_insert(s.drop_last(), e);
        assert(inner.push(s.last()).drop_last() =~= inner);
        assert(inner.push(s.last()).last() == s.last());
        assert(sum_abs(inner.push(s.last())) == sum_abs(inner) + abs_w(s.last().2 as int));
        assert(sum_weights(inner.push(s.last())) == sum_weights(inner) + s.last().2);
        if sorted_by_weight(s) {
            assert(forall|k: int|
                0 <= k < s.drop_last().len() ==> (#[trigger] s.drop_last()[k]).2 == s[k].2);
            assert(sorted_by_weight(s.drop_last()));
            lemma_sorted_insert_last_bound(s.drop_last(), e);
            assert(sorted_by_weight(inner.push(s.last())));
        }
    }
}

/// Every element of `sorted_insert(s, e)` is either `e` or an element of `s`,
/// so weights stay bounded by the largest of both.
proof fn lemma_sorted_insert_last_bound(s: Seq<Edge>, e: Edge)
    ensures
        forall|k: int|
            0 <= k < sorted_insert(s, e).len() ==> (exists|k2: int|
                0 <= k2 < s.len() && (#[trigger] sorted_insert(s, e)[k]).2 == s[k2].2)
                || sorted_insert(s, e)[k].2 == e.2,
    decreases s.len(),
{
    if s.len() == 0 {
    } else if s.last().2 <= e.2 {
    } else {
        lemma_sorted_insert_last_bound(s.drop_last(), e);
        assert forall|k: int| 0 <= k < sorted_insert(s, e).len() implies (exists|k2: int|
            0 <= k2 < s.len() && (#[trigger] sorted_insert(s, e)[k]).2 == s[k2].2)
            || sorted_insert(s, e)[k].2 == e.2 by {
            let inner = sorted_insert(s.drop_last(), e);
            if k < inner.len() {
                assert(sorted_insert(s, e)[k] == inner[k]);
                if exists|k2: int|
                    0 <= k2 < s.drop_last().len() && (#[trigger] inner[k]).2 == s.drop_last()[k2].2 {
                    let k2 = choose|k2: int|
                        0 <= k2 < s.drop_last().len() && (#[trigger] inner[k]).2
                            == s.drop_last()[k2].2;
                    assert(s[k2].2 == s.drop_last()[k2].2);
                }
            } else {
                assert(sorted_insert(s, e)[k] == s.last());
                assert(s[s.len() - 1].2 == s.last().2);
            }
        }
    }
}

/// Structural facts about `stable_sort`: sorted output, preserved validity,
/// preserved weight sums and length.
pub proof fn lemma_stable_sort_props(s: Seq<Edge>, n: int)
    ensures
        stable_sort(s).len() == s.len(),
        sorted_by_weight(stable_sort(s)),
        valid_edges(s, n) ==> valid_edges(stable_sort(s), n),
        sum_abs(stable_sort(s)) == sum_abs(s),
        sum_weights(stable_sort(s)) == sum_weights(s),
    decreases s.len(),
{
    if s.len() > 0 {
        lemma_stable_sort_props(s.drop_last(), n);
        lemma_sorted_insert_props(stable_sort(s.drop_last()), s.last(), n);
        if valid_edges(s, n) {
            assert(forall|k: int|
                0 <= k < s.drop_last().len() ==> #[trigger] s.drop_last()[k] == s[k]);
            assert(valid_edges(s.drop_last(), n));
            assert((s.last().0 as int) < n && (s.last().1 as int) < n);
        }
    }
}

proof fn lemma_sum_abs_take_le(s: Seq<Edge>, k: int)
    requires
        0 <= k <= s.len(),
    ensures
        sum_abs(s.take(k)) <= sum_abs(s),
    decreases s.len(),
{
    if k == s.len() {
        assert(s.take(k) =~= s);
    } else {
        assert(s.take(k) =~= s.drop_last().take(k));
        lemma_sum_abs_take_le(s.drop_last(), k);
    }
}

} // verus!
