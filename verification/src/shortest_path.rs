//! Shortest-path computations: Dijkstra's single-source search over an
//! adjacency list, and the Floyd-Warshall all-pairs computation over a dense
//! adjacency matrix.

use vstd::prelude::*;

verus! {

/// Deep view of an adjacency list: each vertex's outgoing `(target, weight)`
/// pairs as a sequence of sequences.
pub open spec fn deep(adj: Seq<Vec<(usize, usize)>>) -> Seq<Seq<(usize, usize)>> {
    adj.map_values(|row: Vec<(usize, usize)>| row@)
}

/// A walk is a sequence of `(target, weight)` steps; each step must be an
/// entry of the adjacency row of the vertex reached so far.
pub open spec fn walk_ok(adj: Seq<Seq<(usize, usize)>>, from: int, w: Seq<(usize, usize)>) -> bool
    decreases w.len(),
{
    if w.len() == 0 {
        true
    } else {
        &&& 0 <= from < adj.len()
        &&& adj[from].contains(w[0])
        &&& walk_ok(adj, w[0].0 as int, w.drop_first())
    }
}

/// The vertex where a walk that starts at `from` ends.
pub open spec fn walk_end(from: int, w: Seq<(usize, usize)>) -> int {
    if w.len() == 0 {
        from
    } else {
        w.last().0 as int
    }
}

/// Total weight of a walk.
pub open spec fn walk_cost(w: Seq<(usize, usize)>) -> int
    decreases w.len(),
{
    if w.len() == 0 {
        0
    } else {
        w[0].1 + walk_cost(w.drop_first())
    }
}

/// Some walk leads from `s` to `t`.
pub open spec fn reachable(adj: Seq<Seq<(usize, usize)>>, s: int, t: int) -> bool {
    exists|w: Seq<(usize, usize)>| walk_ok(adj, s, w) && walk_end(s, w) == t
}

/// Some walk of total weight `c` leads from `s` to `t`.
pub open spec fn has_dist(adj: Seq<Seq<(usize, usize)>>, s: int, t: int, c: int) -> bool {
    exists|w: Seq<(usize, usize)>|
        walk_ok(adj, s, w) && walk_end(s, w) == t && walk_cost(w) == c
}

/// Every edge target is a valid vertex index.
pub open spec fn valid_adjacency(adj: Seq<Seq<(usize, usize)>>) -> bool {
    forall|i: int, k: int|
        0 <= i < adj.len() && 0 <= k < adj[i].len() ==> ((#[trigger] adj[i][k]).0 as int)
            < adj.len()
}

/// Every edge weight is small enough that no sum of `n + 1` weights can reach
/// `usize::MAX`; this rules out overflow during relaxation and keeps
/// `usize::MAX` free to act as the "unreachable" sentinel.
pub open spec fn weights_bounded(adj: Seq<Seq<(usize, usize)>>) -> bool {
    forall|i: int, k: int|
        0 <= i < adj.len() && 0 <= k < adj[i].len() ==> ((#[trigger] adj[i][k]).1 as int) * (
        adj.len() + 1) < usize::MAX as int
}

/// Largest weight compatible with `weights_bounded` for `n` vertices.
pub open spec fn weight_cap(n: int) -> int {
    (usize::MAX as int - 1) / (n + 1)
}

/// Number of `true` entries among the first `k` entries.
spec fn count_true(s: Seq<bool>, k: int) -> int
    decreases k,
{
    if k <= 0 {
        0
    } else {
        count_true(s, k - 1) + if s[k - 1] {
            1int
        } else {
            0int
        }
    }
}

proof fn lemma_count_true_bound(s: Seq<bool>, k: int)
    requires
        k <= s.len(),
    ensures
        0 <= count_true(s, k) <= if k >= 0 {
            k
        } else {
            0
        },
    decreases k,
{
    if k > 0 {
        lemma_count_true_bound(s, k - 1);
    }
}

proof fn lemma_count_true_flip(s1: Seq<bool>, s2: Seq<bool>, a: int, k: int)
    requires
        0 <= a < s1.len(),
        s1.len() == s2.len(),
        k <= s1.len(),
        !s1[a],
        s2[a],
        forall|i: int| 0 <= i < s1.len() && i != a ==> s1[i] == s2[i],
    ensures
        count_true(s2, k) == count_true(s1, k) + if a < k {
            1int
        } else {
            0int
        },
    decreases k,
{
    if k > 0 {
        lemma_count_true_flip(s1, s2, a, k - 1);
    }
}

/// Extending a walk by one edge out of its end vertex.
proof fn lemma_walk_push(adj: Seq<Seq<(usize, usize)>>, s: int, w: Seq<(usize, usize)>, e: (usize, usize))
    requires
        walk_ok(adj, s, w),
        0 <= s < adj.len(),
        0 <= walk_end(s, w) < adj.len(),
        adj[walk_end(s, w)].contains(e),
    ensures
        walk_ok(adj, s, w.push(e)),
        walk_end(s, w.push(e)) == e.0 as int,
        walk_cost(w.push(e)) == walk_cost(w) + e.1,
    decreases w.len(),
{
    if w.len() == 0 {
        assert(w.push(e)[0] == e);
        assert(w.push(e).drop_first() =~= Seq::<(usize, usize)>::empty());
        assert(walk_end(s, w) == s);
        assert(adj[s].contains(e));
        assert(walk_ok(adj, e.0 as int, Seq::<(usize, usize)>::empty()));
        assert(walk_ok(adj, s, w.push(e)));
        assert(walk_cost(w.push(e)) == e.1 + walk_cost(w.push(e).drop_first()));
        assert(walk_cost(w.push(e)) == walk_cost(w) + e.1);
    } else {
        let s2 = w[0].0 as int;
        let tail = w.drop_first();
        assert(w.push(e).drop_first() =~= tail.push(e));
        if tail.len() == 0 {
            assert(walk_end(s, w) == s2);
        } else {
            assert(walk_ok(adj, s2, tail));
            assert(0 <= s2 < adj.len());
            assert(walk_end(s2, tail) == walk_end(s, w));
        }
        lemma_walk_push(adj, s2, tail, e);
        assert(w.push(e)[0] == w[0]);
        assert(walk_ok(adj, s, w.push(e)));
        assert(walk_cost(w.push(e)) == w[0].1 + walk_cost(tail.push(e)));
    }
}

/// Splitting the last edge off a nonempty walk.
proof fn lemma_walk_split_last(adj: Seq<Seq<(usize, usize)>>, s: int, w: Seq<(usize, usize)>)
    requires
        walk_ok(adj, s, w),
        0 <= s < adj.len(),
        w.len() >= 1,
    ensures
        walk_ok(adj, s, w.drop_last()),
        0 <= walk_end(s, w.drop_last()) < adj.len(),
        adj[walk_end(s, w.drop_last())].contains(w.last()),
        walk_cost(w) == walk_cost(w.drop_last()) + w.last().1,
    decreases w.len(),
{
    if w.len() == 1 {
        assert(w.drop_last() =~= Seq::<(usize, usize)>::empty());
        assert(w.drop_first() =~= Seq::<(usize, usize)>::empty());
        assert(w[0] == w.last());
        assert(walk_cost(w) == w[0].1 + walk_cost(w.drop_first()));
    } else {
        let tail = w.drop_first();
        assert(walk_ok(adj, w[0].0 as int, tail));
        assert(tail.len() >= 1);
        assert((w[0].0 as int) < adj.len());
        lemma_walk_split_last(adj, w[0].0 as int, tail);
        assert(w.drop_last()[0] == w[0]);
        assert(w.drop_last().drop_first() =~= tail.drop_last());
        assert(walk_ok(adj, s, w.drop_last()));
        assert(walk_end(w[0].0 as int, tail.drop_last()) == walk_end(s, w.drop_last()));
        assert(w.last() == tail.last());
    }
}

proof fn lemma_weight_le_cap(adj: Seq<Seq<(usize, usize)>>, i: int, k: int)
    requires
        weights_bounded(adj),
        0 <= i < adj.len(),
        0 <= k < adj[i].len(),
    ensures
        adj[i][k].1 as int <= weight_cap(adj.len() as int),
{
    let n = adj.len() as int;
    let c = adj[i][k].1 as int;
    let m = usize::MAX as int - 1;
    let q = m / (n + 1);
    vstd::arithmetic::div_mod::lemma_fundamental_div_mod(m, n + 1);
    vstd::arithmetic::div_mod::lemma_mod_bound(m, n + 1);
    assert(c <= q) by (nonlinear_arith)
        requires
            c * (n + 1) <= m,
            m == (n + 1) * q + m % (n + 1),
            0 <= m % (n + 1) < n + 1,
            n >= 0,
    ;
}

proof fn lemma_cap_total(n: int)
    requires
        n >= 0,
    ensures
        (n + 1) * weight_cap(n) <= usize::MAX as int - 1,
        weight_cap(n) >= 0,
{
    let m = usize::MAX as int - 1;
    vstd::arithmetic::div_mod::lemma_fundamental_div_mod(m, n + 1);
    vstd::arithmetic::div_mod::lemma_mod_bound(m, n + 1);
    vstd::arithmetic::div_mod::lemma_div_pos_is_pos(m, n + 1);
}

/// A walk that ends at an unvisited vertex costs at least the smallest
/// tentative distance among unvisited vertices; one that ends at a visited
/// vertex costs at least that vertex's tentative distance.
proof fn lemma_walk_lower_bound(
    adj: Seq<Seq<(usize, usize)>>,
    start: int,
    dist: Seq<usize>,
    visited: Seq<bool>,
    u: int,
    w: Seq<(usize, usize)>,
)
    requires
        dist.len() == adj.len(),
        visited.len() == adj.len(),
        valid_adjacency(adj),
        0 <= start < adj.len(),
        dist[start] == 0,
        0 <= u < adj.len(),
        !visited[u],
        forall|v: int| 0 <= v < adj.len() && !(#[trigger] visited[v]) ==> dist[u] <= dist[v],
        forall|a: int, k: int|
            0 <= a < adj.len() && visited[a] && 0 <= k < adj[a].len() ==> dist[(
            #[trigger] adj[a][k]).0 as int] as int <= dist[a] + adj[a][k].1,
        forall|a: int, b: int|
            0 <= a < adj.len() && 0 <= b < adj.len() && visited[a] && !visited[b]
                ==> #[trigger] dist[a] <= #[trigger] dist[b],
        walk_ok(adj, start, w),
    ensures
        0 <= walk_end(start, w) < adj.len(),
        visited[walk_end(start, w)] ==> walk_cost(w) >= dist[walk_end(start, w)],
        !visited[walk_end(start, w)] ==> walk_cost(w) >= dist[u],
    decreases w.len(),
{
    if w.len() == 0 {
    } else {
        lemma_walk_split_last(adj, start, w);
        let prefix = w.drop_last();
        let y = walk_end(start, prefix);
        let z = walk_end(start, w);
        let e = w.last();
        lemma_walk_lower_bound(adj, start, dist, visited, u, prefix);
        let k = choose|k: int| 0 <= k < adj[y].len() && adj[y][k] == e;
        assert(0 <= z < adj.len());
        if visited[y] {
            assert(dist[z] as int <= dist[y] + e.1);
        } else {
            assert(walk_cost(prefix) >= dist[u]);
        }
    }
}

/// At termination every vertex with an infinite label is truly unreachable:
/// any walk from the start ends at a vertex whose label is finite.
proof fn lemma_all_reached(
    adj: Seq<Seq<(usize, usize)>>,
    start: int,
    dist: Seq<usize>,
    visited: Seq<bool>,
    pops: int,
    w: Seq<(usize, usize)>,
)
    requires
        dist.len() == adj.len(),
        visited.len() == adj.len(),
        valid_adjacency(adj),
        weights_bounded(adj),
        0 <= start < adj.len(),
        dist[start] == 0,
        0 <= pops <= adj.len(),
        forall|v: int|
            0 <= v < adj.len() && (#[trigger] dist[v]) < usize::MAX ==> dist[v] as int <= pops
                * weight_cap(adj.len() as int),
        forall|a: int, k: int|
            0 <= a < adj.len() && visited[a] && 0 <= k < adj[a].len() ==> dist[(
            #[trigger] adj[a][k]).0 as int] as int <= dist[a] + adj[a][k].1,
        forall|v: int| 0 <= v < adj.len() && !(#[trigger] visited[v]) ==> dist[v] == usize::MAX,
        walk_ok(adj, start, w),
    ensures
        0 <= walk_end(start, w) < adj.len(),
        dist[walk_end(start, w)] < usize::MAX,
    decreases w.len(),
{
    let n = adj.len() as int;
    if w.len() == 0 {
        assert(dist[start] < usize::MAX);
    } else {
        lemma_walk_split_last(adj, start, w);
        let prefix = w.drop_last();
        let y = walk_end(start, prefix);
        let z = walk_end(start, w);
        let e = w.last();
        lemma_all_reached(adj, start, dist, visited, pops, prefix);
        assert(visited[y]);
        let k = choose|k: int| 0 <= k < adj[y].len() && adj[y][k] == e;
        lemma_weight_le_cap(adj, y, k);
        lemma_cap_total(n);
        assert(dist[z] as int <= dist[y] + e.1);
        assert(dist[y] as int + e.1 <= pops * weight_cap(n) + weight_cap(n));
        assert(pops * weight_cap(n) + weight_cap(n) <= (n + 1) * weight_cap(n)) by (nonlinear_arith)
            requires
                0 <= pops <= n,
                weight_cap(n) >= 0,
        ;
    }
}

/// Dijkstra's algorithm: the shortest distance from `start` to `goal` along
/// non-negative-weight edges, or `None` when no walk connects them.
///
/// `adj_list[v]` lists the `(target, weight)` edges leaving `v`.  On
/// `Some(d)`, some walk from `start` to `goal` costs exactly `d` and no walk
/// costs less.
pub fn dijkstra(adj_list: &Vec<Vec<(usize, usize)>>, start: usize, goal: usize) -> (r: Option<
    usize,
>)
    requires
        (start as int) < adj_list@.len(),
        (goal as int) < adj_list@.len(),
        valid_adjacency(deep(adj_list@)),
        weights_bounded(deep(adj_list@)),
    ensures
        match r {
            Some(d) => {
                &&& has_dist(deep(adj_list@), start as int, goal as int, d as int)
                &&& forall|w: Seq<(usize, usize)>|
                    walk_ok(deep(adj_list@), start as int, w) && walk_end(start as int, w)
                        == goal as int ==> walk_cost(w) >= d
            },
            None => !reachable(deep(adj_list@), start as int, goal as int),
        },
        r.is_some() == reachable(deep(adj_list@), start as int, goal as int),
        start == goal ==> r == Some(0usize),
{
    let ghost adj = deep(adj_list@);
    let n = adj_list.len();
    let mut dist: Vec<usize> = Vec::new();
    let mut visited: Vec<bool> = Vec::new();
    let mut i: usize = 0;
    while i < n
        invariant
            i <= n,
            dist@.len() == i,
            visited@.len() == i,
            forall|j: int| 0 <= j < i ==> (#[trigger] dist@[j]) == usize::MAX,
            forall|j: int| 0 <= j < i ==> !(#[trigger] visited@[j]),
        decreases n - i,
    {
        dist.push(usize::MAX);
        visited.push(false);
        i += 1;
    }
    dist[start] = 0;
    let mut pops: usize = 0;
    proof {
        lemma_count_true_bound(visited@, n as int);
        assert(count_true(visited@, n as int) == 0) by {
            lemma_count_all_false(visited@, n as int);
        }
        assert(has_dist(adj, start as int, start as int, 0)) by {
            let w0 = Seq::<(usize, usize)>::empty();
            assert(walk_ok(adj, start as int, w0));
            assert(walk_end(start as int, w0) == start as int);
            assert(walk_cost(w0) == 0);
        }
    }
    loop
        invariant
            n == adj.len(),
            adj == deep(adj_list@),
            (start as int) < n,
            (goal as int) < n,
            valid_adjacency(adj),
            weights_bounded(adj),
            dist@.len() == n,
            visited@.len() == n,
            dist@[start as int] == 0,
            !visited@[goal as int],
            pops == count_true(visited@, n as int),
            pops <= n,
            forall|v: int|
                0 <= v < n && (#[trigger] dist@[v]) < usize::MAX ==> dist@[v] as int <= pops
                    * weight_cap(n as int),
            forall|v: int| 0 <= v < n && (#[trigger] visited@[v]) ==> dist@[v] < usize::MAX,
            forall|v: int|
                0 <= v < n && (#[trigger] dist@[v]) < usize::MAX ==> has_dist(
                    adj,
                    start as int,
                    v,
                    dist@[v] as int,
                ),
            forall|a: int, k: int|
                0 <= a < n && visited@[a] && 0 <= k < adj[a].len() ==> dist@[(
                #[trigger] adj[a][k]).0 as int] as int <= dist@[a] + adj[a][k].1,
            forall|a: int, b: int|
                0 <= a < n && 0 <= b < n && visited@[a] && !visited@[b] ==> #[trigger] dist@[a]
                    <= #[trigger] dist@[b],
            forall|a: int, w: Seq<(usize, usize)>|
                0 <= a < n && #[trigger] visited@[a] && #[trigger] walk_ok(adj, start as int, w)
                    && walk_end(start as int, w) == a ==> walk_cost(w) >= dist@[a],
        decreases n - pops,
    {
        let mut best: usize = n;
        let mut v: usize = 0;
        while v < n
            invariant
                v <= n,
                n == adj.len(),
                dist@.len() == n,
                visited@.len() == n,
                best <= n,
                (best as int) < n ==> !visited@[best as int] && dist@[best as int] < usize::MAX,
                (best as int) < n ==> forall|j: int|
                    0 <= j < v && !(#[trigger] visited@[j]) ==> dist@[best as int] <= dist@[j],
                best == n ==> forall|j: int|
                    0 <= j < v && !(#[trigger] visited@[j]) ==> dist@[j] == usize::MAX,
            decreases n - v,
        {
            if !visited[v] && dist[v] < usize::MAX {
                if best == n || dist[v] < dist[best] {
                    best = v;
                }
            }
            v += 1;
        }
        if best == n {
            proof {
                assert(dist@[goal as int] == usize::MAX);
                if reachable(adj, start as int, goal as int) {
                    let w = choose|w: Seq<(usize, usize)>|
                        walk_ok(adj, start as int, w) && walk_end(start as int, w) == goal as int;
                    lemma_all_reached(adj, start as int, dist@, visited@, pops as int, w);
                }
            }
            return None;
        }
        let u = best;
        proof {
            assert forall|w: Seq<(usize, usize)>|
                walk_ok(adj, start as int, w) && walk_end(start as int, w) == u as int
                    implies walk_cost(w) >= dist@[u as int] by {
                lemma_walk_lower_bound(adj, start as int, dist@, visited@, u as int, w);
            }
        }
        if u == goal {
            return Some(dist[u]);
        }
        let ghost visited_before = visited@;
        visited[u] = true;
        proof {
            lemma_count_true_flip(visited_before, visited@, u as int, n as int);
            lemma_count_true_bound(visited@, n as int);
            assert(count_true(visited@, n as int) == pops + 1);
        }
        pops = pops + 1;
        proof {
            lemma_cap_total(n as int);
            assert((pops as int - 1) * weight_cap(n as int) <= pops as int * weight_cap(n as int))
                by (nonlinear_arith)
                requires
                    pops >= 1,
                    weight_cap(n as int) >= 0,
            ;
        }
        let du = dist[u];
        let row_len = adj_list[u].len();
        let mut e: usize = 0;
        while e < row_len
            invariant
                n == adj.len(),
                adj == deep(adj_list@),
                (start as int) < n,
                (goal as int) < n,
                valid_adjacency(adj),
                weights_bounded(adj),
                dist@.len() == n,
                visited@.len() == n,
                (u as int) < n,
                visited@[u as int],
                !visited@[goal as int],
                e <= row_len,
                row_len == adj[u as int].len(),
                dist@[u as int] == du,
                du < usize::MAX,
                du as int <= (pops - 1) * weight_cap(n as int),
                dist@[start as int] == 0,
                pops == count_true(visited@, n as int),
                1 <= pops <= n,
                forall|v2: int|
                    0 <= v2 < n && (#[trigger] dist@[v2]) < usize::MAX ==> dist@[v2] as int <= pops
                        * weight_cap(n as int),
                forall|v2: int| 0 <= v2 < n && (#[trigger] visited@[v2]) ==> dist@[v2] < usize::MAX,
                forall|v2: int|
                    0 <= v2 < n && (#[trigger] dist@[v2]) < usize::MAX ==> has_dist(
                        adj,
                        start as int,
                        v2,
                        dist@[v2] as int,
                    ),
                forall|a: int, k: int|
                    0 <= a < n && visited@[a] && a != u as int && 0 <= k < adj[a].len() ==> dist@[(
                    #[trigger] adj[a][k]).0 as int] as int <= dist@[a] + adj[a][k].1,
                forall|k: int|
                    0 <= k < e ==> dist@[(#[trigger] adj[u as int][k]).0 as int] as int <= du
                        + adj[u as int][k].1,
                forall|a: int|
                    0 <= a < n && (#[trigger] visited@[a]) ==> dist@[a] <= du,
                forall|a: int, b: int|
                    0 <= a < n && 0 <= b < n && visited@[a] && !visited@[b] ==> #[trigger] dist@[a]
                        <= #[trigger] dist@[b],
                forall|a: int, w: Seq<(usize, usize)>|
                    0 <= a < n && #[trigger] visited@[a] && #[trigger] walk_ok(adj, start as int, w)
                        && walk_end(start as int, w) == a ==> walk_cost(w) >= dist@[a],
            decreases row_len - e,
        {
            let (to, c) = adj_list[u][e];
            proof {
                assert(adj[u as int][e as int] == (to, c));
                lemma_weight_le_cap(adj, u as int, e as int);
                lemma_cap_total(n as int);
                assert((du as int) + (c as int) < usize::MAX) by (nonlinear_arith)
                    requires
                        (du as int) <= ((pops as int) - 1) * weight_cap(n as int),
                        (c as int) <= weight_cap(n as int),
                        1 <= (pops as int),
                        (pops as int) <= (n as int),
                        weight_cap(n as int) >= 0,
                        ((n as int) + 1) * weight_cap(n as int) <= (usize::MAX as int) - 1,
                ;
                assert((du as int) + (c as int) <= (pops as int) * weight_cap(n as int))
                    by (nonlinear_arith)
                    requires
                        (du as int) <= ((pops as int) - 1) * weight_cap(n as int),
                        (c as int) <= weight_cap(n as int),
                ;
            }
            let nd = du + c;
            if nd < dist[to] {
                let ghost dist_before = dist@;
                dist[to] = nd;
                proof {
                    assert((to as int) != u as int);
                    assert(!visited@[to as int]) by {
                        if visited@[to as int] {
                            assert(dist_before[to as int] <= du);
                        }
                    }
                    assert(has_dist(adj, start as int, to as int, nd as int)) by {
                        let wu = choose|w: Seq<(usize, usize)>|
                            walk_ok(adj, start as int, w) && walk_end(start as int, w) == u as int
                                && walk_cost(w) == du as int;
                        lemma_walk_push(adj, start as int, wu, (to, c));
                        assert(walk_ok(adj, start as int, wu.push((to, c))));
                        assert(walk_end(start as int, wu.push((to, c))) == to as int);
                        assert(walk_cost(wu.push((to, c))) == nd as int);
                    }
                }
            }
            e += 1;
        }
    }
}

/// Deep view of a dense adjacency matrix.
pub open spec fn mat_view(m: Seq<Vec<usize>>) -> Seq<Seq<usize>> {
    m.map_values(|row: Vec<usize>| row@)
}

/// Every row is as long as the matrix is tall.
pub open spec fn is_square(m: Seq<Seq<usize>>) -> bool {
    forall|i: int| 0 <= i < m.len() ==> (#[trigger] m[i]).len() == m.len()
}

/// Saturating addition: sums that would exceed `usize::MAX` stick there, so
/// the "unreachable" sentinel is never wrapped back into a small distance.
pub open spec fn sat_add(a: int, b: int) -> int {
    if a + b > usize::MAX as int {
        usize::MAX as int
    } else {
        a + b
    }
}

/// The distance matrix after shortest paths may use the intermediate
/// vertices `0 .. k`: each step relaxes every pair through one more vertex.
pub open spec fn fw(m: Seq<Seq<usize>>, k: int) -> Seq<Seq<usize>>
    decreases k,
{
    if k <= 0 {
        m
    } else {
        let p = fw(m, k - 1);
        Seq::new(
            m.len(),
            |i: int|
                Seq::new(
                    m.len(),
                    |j: int|
                        {
                            let via = sat_add(p[i][k - 1] as int, p[k - 1][j] as int);
                            if p[i][j] as int <= via {
                                p[i][j]
                            } else {
                                via as usize
                            }
                        },
                ),
        )
    }
}

proof fn lemma_fw_dims(m: Seq<Seq<usize>>, k: int)
    requires
        is_square(m),
        k >= 0,
    ensures
        fw(m, k).len() == m.len(),
        is_square(fw(m, k)),
    decreases k,
{
    if k > 0 {
        lemma_fw_dims(m, k - 1);
    }
}

/// Relaxing through vertex `k` never changes row `k` or column `k`, because
/// the diagonal entry only ever adds a non-negative amount.
proof fn lemma_fw_stable(m: Seq<Seq<usize>>, k: int)
    requires
        is_square(m),
        0 <= k < m.len(),
    ensures
        forall|i: int| 0 <= i < m.len() ==> #[trigger] fw(m, k + 1)[i][k] == fw(m, k)[i][k],
        forall|j: int| 0 <= j < m.len() ==> #[trigger] fw(m, k + 1)[k][j] == fw(m, k)[k][j],
{
    lemma_fw_dims(m, k);
    lemma_fw_dims(m, k + 1);
}

/// Floyd-Warshall: rewrite the dense matrix of direct distances into the
/// matrix of all-pairs shortest distances, in place.  `usize::MAX` marks a
/// missing edge; additions saturate so "unreachable" stays unreachable.
/// The result is exactly the triple-loop dynamic-programming recurrence
/// applied over every intermediate vertex.
pub fn warshall_floyd(adj_matrix: &mut Vec<Vec<usize>>)
    requires
        is_square(mat_view(old(adj_matrix)@)),
    ensures
        mat_view(final(adj_matrix)@) == fw(
            mat_view(old(adj_matrix)@),
            old(adj_matrix)@.len() as int,
        ),
        final(adj_matrix)@.len() == old(adj_matrix)@.len(),
{
    let ghost m0 = mat_view(old(adj_matrix)@);
    let n = adj_matrix.len();
    proof {
        assert forall|a: int| 0 <= a < n implies (#[trigger] adj_matrix@[a])@.len() == n by {
            assert(m0[a] == adj_matrix@[a]@);
        }
    }
    let mut k: usize = 0;
    while k < n
        invariant
            n == m0.len(),
            is_square(m0),
            k <= n,
            adj_matrix@.len() == n,
            forall|a: int| 0 <= a < n ==> (#[trigger] adj_matrix@[a])@.len() == n,
            mat_view(adj_matrix@) == fw(m0, k as int),
        decreases n - k,
    {
        proof {
            lemma_fw_dims(m0, k as int);
            lemma_fw_dims(m0, k as int + 1);
            lemma_fw_stable(m0, k as int);
        }
        let mut i: usize = 0;
        while i < n
            invariant
                n == m0.len(),
                is_square(m0),
                k < n,
                i <= n,
                adj_matrix@.len() == n,
                forall|a: int| 0 <= a < n ==> (#[trigger] adj_matrix@[a])@.len() == n,
                forall|a: int, b: int|
                    0 <= a < i && 0 <= b < n ==> (#[trigger] adj_matrix@[a]@[b]) == fw(
                        m0,
                        k as int + 1,
                    )[a][b],
                forall|a: int, b: int|
                    i <= a < n && 0 <= b < n ==> (#[trigger] adj_matrix@[a]@[b]) == fw(
                        m0,
                        k as int,
                    )[a][b],
            decreases n - i,
        {
            let mut j: usize = 0;
            while j < n
                invariant
                    n == m0.len(),
                    is_square(m0),
                    k < n,
                    i < n,
                    j <= n,
                    adj_matrix@.len() == n,
                    forall|a: int| 0 <= a < n ==> (#[trigger] adj_matrix@[a])@.len() == n,
                    forall|a: int, b: int|
                        0 <= a < i && 0 <= b < n ==> (#[trigger] adj_matrix@[a]@[b]) == fw(
                            m0,
                            k as int + 1,
                        )[a][b],
                    forall|b: int|
                        0 <= b < j ==> (#[trigger] adj_matrix@[i as int]@[b]) == fw(
                            m0,
                            k as int + 1,
                        )[i as int][b],
                    forall|b: int|
                        j <= b < n ==> (#[trigger] adj_matrix@[i as int]@[b]) == fw(
                            m0,
                            k as int,
                        )[i as int][b],
                    forall|a: int, b: int|
                        i < a < n && 0 <= b < n ==> (#[trigger] adj_matrix@[a]@[b]) == fw(
                            m0,
                            k as int,
                        )[a][b],
                decreases n - j,
            {
                let dik = adj_matrix[i][k];
                let dkj = adj_matrix[k][j];
                let dij = adj_matrix[i][j];
                proof {
                    assert(dik == fw(m0, k as int)[i as int][k as int]);
                    assert(dkj == fw(m0, k as int)[k as int][j as int]);
                }
                let via = if dik > usize::MAX - dkj {
                    usize::MAX
                } else {
                    dik + dkj
                };
                let ghost before = adj_matrix@;
                if via < dij {
                    adj_matrix[i][j] = via;
                }
                proof {
                    assert(adj_matrix@[i as int]@[j as int] == fw(m0, k as int + 1)[i as int][j as int]);
                    assert(forall|a: int, b: int|
                        0 <= a < n && 0 <= b < n && !(a == i as int && b == j as int)
                            ==> (#[trigger] adj_matrix@[a]@[b]) == before[a]@[b]);
                }
                j += 1;
            }
            i += 1;
        }
        proof {
            assert(mat_view(adj_matrix@) =~~= fw(m0, k as int + 1));
        }
        k += 1;
    }
    proof {
        assert(mat_view(adj_matrix@) == fw(m0, n as int));
    }
}

/// Law: a walk in a graph is still a walk after one more edge is added to
/// some adjacency row.
proof fn lemma_walk_in_supergraph(
    adj1: Seq<Seq<(usize, usize)>>,
    adj2: Seq<Seq<(usize, usize)>>,
    s: int,
    w: Seq<(usize, usize)>,
)
    requires
        adj1.len() == adj2.len(),
        forall|i: int| 0 <= i < adj1.len() ==> (#[trigger] adj2[i]).len() >= adj1[i].len(),
        forall|i: int, k: int|
            0 <= i < adj1.len() && 0 <= k < adj1[i].len() ==> (#[trigger] adj2[i][k]) == adj1[i][k],
        walk_ok(adj1, s, w),
    ensures
        walk_ok(adj2, s, w),
    decreases w.len(),
{
    if w.len() > 0 {
        assert(adj1[s].contains(w[0]));
        let k = choose|k: int| 0 <= k < adj1[s].len() && adj1[s][k] == w[0];
        assert(adj2[s][k] == w[0]);
        assert(adj2[s].contains(w[0]));
        lemma_walk_in_supergraph(adj1, adj2, w[0].0 as int, w.drop_first());
    }
}

/// Law: adding a non-negative-weight edge never increases the shortest
/// distance between any pair of vertices.  If `d1` is optimal from `s` to `t`
/// before row `i` gains the extra edge `e`, and `d2` is optimal afterwards,
/// then `d2 <= d1`.
pub proof fn lemma_added_edge_monotone(
    adj1: Seq<Seq<(usize, usize)>>,
    adj2: Seq<Seq<(usize, usize)>>,
    i: int,
    e: (usize, usize),
    s: int,
    t: int,
    d1: int,
    d2: int,
)
    requires
        0 <= i < adj1.len(),
        adj2 == adj1.update(i, adj1[i].push(e)),
        has_dist(adj1, s, t, d1),
        forall|w: Seq<(usize, usize)>|
            walk_ok(adj2, s, w) && walk_end(s, w) == t ==> walk_cost(w) >= d2,
    ensures
        d2 <= d1,
{
    let w1 = choose|w: Seq<(usize, usize)>|
        walk_ok(adj1, s, w) && walk_end(s, w) == t && walk_cost(w) == d1;
    assert forall|a: int| 0 <= a < adj1.len() implies (#[trigger] adj2[a]).len()
        >= adj1[a].len() by {
        if a == i {
            assert(adj2[a] == adj1[i].push(e));
        }
    }
    assert forall|a: int, k: int|
        0 <= a < adj1.len() && 0 <= k < adj1[a].len() implies (#[trigger] adj2[a][k])
            == adj1[a][k] by {
        if a == i {
            assert(adj2[a] == adj1[i].push(e));
        }
    }
    lemma_walk_in_supergraph(adj1, adj2, s, w1);
}

/// Law: the diagonal of the all-pairs distance matrix stays zero.
pub proof fn lemma_fw_diagonal_zero(m: Seq<Seq<usize>>, k: int)
    requires
        is_square(m),
        k >= 0,
        forall|d: int| 0 <= d < m.len() ==> (#[trigger] m[d][d]) == 0,
    ensures
        forall|d: int| 0 <= d < m.len() ==> (#[trigger] fw(m, k)[d][d]) == 0,
    decreases k,
{
    if k > 0 {
        lemma_fw_diagonal_zero(m, k - 1);
        lemma_fw_dims(m, k - 1);
    }
}

/// Law: for a symmetric (undirected) input matrix the all-pairs distance
/// matrix is symmetric as well.
pub proof fn lemma_fw_symmetric(m: Seq<Seq<usize>>, k: int)
    requires
        is_square(m),
        0 <= k <= m.len(),
        forall|a: int, b: int|
            0 <= a < m.len() && 0 <= b < m.len() ==> (#[trigger] m[a][b]) == m[b][a],
    ensures
        forall|a: int, b: int|
            0 <= a < m.len() && 0 <= b < m.len() ==> (#[trigger] fw(m, k)[a][b]) == fw(m, k)[b][a],
    decreases k,
{
    if k > 0 {
        lemma_fw_symmetric(m, k - 1);
        lemma_fw_dims(m, k - 1);
        let p = fw(m, k - 1);
        assert forall|a: int, b: int|
            0 <= a < m.len() && 0 <= b < m.len() implies (#[trigger] fw(m, k)[a][b]) == fw(
            m,
            k,
        )[b][a] by {
            assert(p[a][b] == p[b][a]);
            assert(p[a][k - 1] == p[k - 1][a]);
            assert(p[b][k - 1] == p[k - 1][b]);
        }
    }
}

/// Law: the triangle inequality holds of the computed distance matrix — no
/// pair of vertices is farther apart than any detour through a vertex the
/// computation has already considered.  With `k == m.len()` this covers every
/// possible intermediate vertex.
pub proof fn lemma_fw_triangle_inequality(m: Seq<Seq<usize>>, k: int)
    requires
        is_square(m),
        0 <= k <= m.len(),
    ensures
        forall|i: int, j: int, t: int|
            #![trigger fw(m, k)[i][t], fw(m, k)[t][j]]
            0 <= i < m.len() && 0 <= j < m.len() && 0 <= t < k ==> fw(m, k)[i][j] as int <= sat_add(
                fw(m, k)[i][t] as int,
                fw(m, k)[t][j] as int,
            ),
    decreases k,
{
    if k > 0 {
        lemma_fw_triangle_inequality(m, k - 1);
        lemma_fw_dims(m, k - 1);
        lemma_fw_dims(m, k);
        lemma_fw_stable(m, k - 1);
        let p = fw(m, k - 1);
        assert forall|i: int, j: int, t: int|
            #![trigger fw(m, k)[i][t], fw(m, k)[t][j]]
            0 <= i < m.len() && 0 <= j < m.len() && 0 <= t < k implies fw(m, k)[i][j] as int
                <= sat_add(fw(m, k)[i][t] as int, fw(m, k)[t][j] as int) by {
            if t == k - 1 {
                assert(fw(m, k)[i][t] == p[i][t]);
                assert(fw(m, k)[t][j] == p[t][j]);
                assert(fw(m, k)[i][j] as int <= sat_add(p[i][k - 1] as int, p[k - 1][j] as int));
            } else {
                assert(p[i][j] as int <= sat_add(p[i][t] as int, p[t][j] as int));
                assert(p[k - 1][j] as int <= sat_add(p[k - 1][t] as int, p[t][j] as int));
                assert(p[i][k - 1] as int <= sat_add(p[i][t] as int, p[t][k - 1] as int));
            }
        }
    }
}

proof fn lemma_count_all_false(s: Seq<bool>, k: int)
    requires
        k <= s.len(),
        forall|i: int| 0 <= i < s.len() ==> !(#[trigger] s[i]),
    ensures
        count_true(s, k) == 0,
    decreases k,
{
    if k > 0 {
        lemma_count_all_false(s, k - 1);
    }
}

} // verus!
