use algograph::minimum_spanning_tree::MinimumSpanningTree;

#[test]
fn kruskal_test() {
    let n = 4;
    let edges = vec![(0, 1, 1), (1, 2, 2), (2, 3, 1), (0, 1, 3), (1, 3, 5)];

    let mut mst = MinimumSpanningTree::new(n, &edges);
    mst.kruskal();

    assert_eq!(mst.selected, vec![(0, 1, 1), (2, 3, 1), (1, 2, 2),]);
    assert_eq!(mst.total_cost, 4);
}

/// https://atcoder.jp/contests/abc065/tasks/arc076_b
#[test]
fn solve_abc065_d() {
    let n = 6;
    let xy = vec![(8, 3), (4, 9), (12, 19), (18, 1), (13, 5), (7, 6)];

    let mut xyi = xy
        .into_iter()
        .enumerate()
        .map(|(i, (x, y))| (x, y, i))
        .collect::<Vec<(i64, i64, usize)>>();

    let mut edges = vec![];
    xyi.sort();
    for i in 0..(n - 1) {
        let dist = std::cmp::min(
            (xyi[i].0 - xyi[i + 1].0).abs(),
            (xyi[i].1 - xyi[i + 1].1).abs(),
        );
        edges.push((xyi[i].2, xyi[i + 1].2, dist));
    }
    xyi.sort_by_cached_key(|&(_, y, _)| y);
    for i in 0..(n - 1) {
        let dist = std::cmp::min(
            (xyi[i].0 - xyi[i + 1].0).abs(),
            (xyi[i].1 - xyi[i + 1].1).abs(),
        );
        edges.push((xyi[i].2, xyi[i + 1].2, dist));
    }

    let mut mst = MinimumSpanningTree::new(n, &edges);
    mst.kruskal();
    assert_eq!(mst.total_cost, 8);
}

#[test]
fn kruskal_cost_ignores_input_order_for_distinct_weights() {
    let n = 5;
    let edges = vec![(0, 1, 4), (1, 2, 7), (2, 3, 1), (3, 4, 9), (4, 0, 3), (1, 3, 2)];
    let mut shuffled = vec![(1, 3, 2), (4, 0, 3), (3, 4, 9), (0, 1, 4), (2, 3, 1), (1, 2, 7)];

    let mut mst1 = MinimumSpanningTree::new(n, &edges);
    mst1.kruskal();
    shuffled.reverse();
    let mut mst2 = MinimumSpanningTree::new(n, &shuffled);
    mst2.kruskal();

    assert_eq!(mst1.total_cost, mst2.total_cost);
    assert_eq!(mst1.selected, mst2.selected);
    assert!(mst1.selected.len() <= n - 1);
}

#[test]
fn kruskal_on_disconnected_graph() {
    let n = 4;
    let edges = vec![(0, 1, 5), (2, 3, 7)];
    let mut mst = MinimumSpanningTree::new(n, &edges);
    mst.kruskal();
    assert_eq!(mst.selected, vec![(0, 1, 5), (2, 3, 7)]);
    assert_eq!(mst.total_cost, 12);
}

#[test]
fn kruskal_without_edges() {
    let n = 3;
    let edges: Vec<(usize, usize, i64)> = vec![];
    let mut mst = MinimumSpanningTree::new(n, &edges);
    mst.kruskal();
    assert!(mst.selected.is_empty());
    assert_eq!(mst.total_cost, 0);
}

#[test]
fn kruskal_is_idempotent() {
    let n = 4;
    let edges = vec![(0, 1, 1), (1, 2, 2), (2, 3, 1), (0, 1, 3), (1, 3, 5)];
    let mut mst = MinimumSpanningTree::new(n, &edges);
    mst.kruskal();
    let first_selected = mst.selected.clone();
    let first_cost = mst.total_cost;
    mst.kruskal();
    assert_eq!(mst.selected, first_selected);
    assert_eq!(mst.total_cost, first_cost);
}
