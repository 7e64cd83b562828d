use bfs::workload::{chain_graph, diagonal_starts, open_grid, strided_starts};
use bfs::{bfs, multi_bfs, multi_grid_bfs};

/// The chain with shortcuts, built edge by edge.
fn chain_by_hand(n: usize) -> Vec<Vec<i32>> {
    let mut adj: Vec<Vec<i32>> = vec![Vec::new(); n];
    for i in 0..n.saturating_sub(1) {
        adj[i].push((i + 1) as i32);
        adj[i + 1].push(i as i32);
        if i % 1000 == 0 && i + 100 < n {
            adj[i].push((i + 100) as i32);
            adj[i + 100].push(i as i32);
        }
    }
    adj
}

#[test]
fn chain_graph_of_few_nodes() {
    assert_eq!(chain_graph(0), Some(vec![]));
    assert_eq!(chain_graph(1), Some(vec![vec![]]));
    assert_eq!(chain_graph(2), Some(vec![vec![1], vec![0]]));
    assert_eq!(chain_graph(4), Some(vec![vec![1], vec![0, 2], vec![1, 3], vec![2]]));
}

#[test]
fn chain_graph_lists_each_edge_at_both_ends() {
    for n in [99, 100, 101, 102, 1000, 1001, 1100, 1101, 1102, 2500] {
        assert_eq!(chain_graph(n), Some(chain_by_hand(n)));
    }
    let adj = chain_graph(2500).unwrap();
    assert_eq!(adj[0], vec![1, 100]);
    assert_eq!(adj[100], vec![0, 99, 101]);
    assert_eq!(adj[1000], vec![999, 1001, 1100]);
    assert_eq!(adj[1100], vec![1000, 1099, 1101]);
    assert_eq!(adj[2000], vec![1999, 2001, 2100]);
    assert_eq!(adj[2499], vec![2498]);
}

#[test]
fn chain_graph_without_room_for_a_shortcut() {
    let adj = chain_graph(100).unwrap();
    assert_eq!(adj[0], vec![1]);
    assert_eq!(adj[99], vec![98]);
    let adj = chain_graph(101).unwrap();
    assert_eq!(adj[0], vec![1, 100]);
    assert_eq!(adj[100], vec![0, 99]);
}

#[test]
fn chain_graph_too_large_for_its_ids() {
    assert_eq!(chain_graph(i32::MAX as usize + 1), None);
    assert_eq!(chain_graph(usize::MAX), None);
}

#[test]
fn search_takes_the_shortcut() {
    let adj = chain_graph(300).unwrap();
    let dist = bfs(&adj, 0).unwrap();
    assert_eq!(dist[99], 2);
    assert_eq!(dist[100], 1);
    assert_eq!(dist[50], 50);
    assert_eq!(dist[51], 50);
    assert_eq!(dist[299], 200);
}

#[test]
fn strided_starts_are_multiples_of_the_stride() {
    assert_eq!(strided_starts(0, 5), Some(vec![]));
    assert_eq!(strided_starts(4, 1000), Some(vec![0, 1000, 2000, 3000]));
    assert_eq!(strided_starts(3, 0), Some(vec![0, 0, 0]));
    assert_eq!(strided_starts(1, usize::MAX), Some(vec![0]));
    assert_eq!(strided_starts(2, i32::MAX as usize), Some(vec![0, i32::MAX]));
}

#[test]
fn strided_starts_that_overflow() {
    assert_eq!(strided_starts(2, i32::MAX as usize + 1), None);
    assert_eq!(strided_starts(3, 1 << 30), None);
    assert_eq!(strided_starts(3, usize::MAX), None);
    assert_eq!(strided_starts(0, usize::MAX), Some(vec![]));
}

#[test]
fn diagonal_starts_run_down_the_diagonal() {
    assert_eq!(diagonal_starts(0), vec![]);
    assert_eq!(diagonal_starts(3), vec![(0, 0), (1, 1), (2, 2)]);
}

#[test]
fn open_grid_is_blank_and_well_formed() {
    let grid = open_grid(4, 3).unwrap();
    assert_eq!((grid.width, grid.height), (4, 3));
    assert_eq!(grid.data, vec![0; 12]);
    let none = open_grid(0, 7).unwrap();
    assert_eq!(none.data, vec![]);
    assert!(open_grid(usize::MAX, 2).is_none());
}

#[test]
fn small_stress_runs() {
    let grid = open_grid(20, 20).unwrap();
    let starts = diagonal_starts(20);
    let res = multi_grid_bfs(&grid, &starts).unwrap();
    assert_eq!(res.len(), 20);
    for (k, dist) in res.iter().enumerate() {
        assert_eq!(dist[grid.idx(k, k)], 0);
        assert_eq!(dist[grid.idx(0, 0)], 2 * k as i32);
    }
    let adj = chain_graph(5000).unwrap();
    let starts = strided_starts(5, 1000).unwrap();
    let res = multi_bfs(&adj, &starts).unwrap();
    assert_eq!(res.len(), 5);
    for (k, dist) in res.iter().enumerate() {
        assert_eq!(dist[1000 * k], 0);
        assert_eq!(dist[1000 * k + 100], 1);
        assert!(dist.iter().all(|d| *d >= 0));
    }
}
