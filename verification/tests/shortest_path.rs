use algograph::shortest_path::dijkstra;
use algograph::shortest_path::warshall_floyd;

#[test]
fn warshall_floyd_test() {
    let n = 4;
    let abt = vec![
        (1, 2, 1),
        (2, 3, 1),
        (3, 4, 1),
        (4, 1, 1),
        (1, 3, 1),
        (4, 2, 1),
    ];

    let mut adj_matrix = vec![vec![std::usize::MAX; n]; n];
    for (i, row) in adj_matrix.iter_mut().enumerate() {
        row[i] = 0;
    }
    for (a, b, t) in abt.into_iter() {
        adj_matrix[a - 1][b - 1] = t;
        adj_matrix[b - 1][a - 1] = t;
    }

    warshall_floyd(&mut adj_matrix);
    let ans = adj_matrix
        .into_iter()
        .map(|v| v.into_iter().max().unwrap())
        .min()
        .unwrap();
    assert_eq!(ans, 1);
}

#[test]
fn dijkstra_test() {
    let graph = vec![
        vec![(2, 10), (1, 1)],
        vec![(3, 2)],
        vec![(1, 1), (3, 3), (4, 1)],
        vec![(0, 7), (4, 2)],
        vec![],
    ];

    assert_eq!(dijkstra(&graph, 0, 1), Some(1));
    assert_eq!(dijkstra(&graph, 0, 3), Some(3));
    assert_eq!(dijkstra(&graph, 3, 0), Some(7));
    assert_eq!(dijkstra(&graph, 0, 4), Some(5));
    assert_eq!(dijkstra(&graph, 4, 0), None);
}

#[test]
fn dijkstra_start_equals_goal() {
    let graph = vec![vec![(1, 3)], vec![(0, 3)], vec![]];
    assert_eq!(dijkstra(&graph, 0, 0), Some(0));
    assert_eq!(dijkstra(&graph, 2, 2), Some(0));
}

#[test]
fn dijkstra_added_edge_never_increases_distance() {
    let before = vec![vec![(1, 4)], vec![(2, 4)], vec![], vec![]];
    let mut after = before.clone();
    after[0].push((2, 100));

    for goal in 0..3 {
        let d1 = dijkstra(&before, 0, goal);
        let d2 = dijkstra(&after, 0, goal);
        match (d1, d2) {
            (Some(a), Some(b)) => assert!(b <= a),
            (Some(_), None) => panic!("reachable vertex became unreachable"),
            _ => {}
        }
    }
    assert_eq!(dijkstra(&before, 0, 3), None);
    assert_eq!(dijkstra(&after, 0, 3), None);
}

#[test]
fn warshall_floyd_diagonal_and_symmetry() {
    let inf = std::usize::MAX;
    let mut m = vec![
        vec![0, 2, inf, inf],
        vec![2, 0, 3, inf],
        vec![inf, 3, 0, 1],
        vec![inf, inf, 1, 0],
    ];
    warshall_floyd(&mut m);
    for i in 0..4 {
        assert_eq!(m[i][i], 0);
        for j in 0..4 {
            assert_eq!(m[i][j], m[j][i]);
            for k in 0..4 {
                assert!(m[i][j] <= m[i][k].saturating_add(m[k][j]));
            }
        }
    }
    assert_eq!(m[0][3], 6);
}

#[test]
fn warshall_floyd_keeps_unreachable_pairs() {
    let inf = std::usize::MAX;
    let mut m = vec![vec![0, 1, inf], vec![inf, 0, inf], vec![inf, inf, 0]];
    warshall_floyd(&mut m);
    assert_eq!(m[0][1], 1);
    assert_eq!(m[0][2], inf);
    assert_eq!(m[1][0], inf);
}
