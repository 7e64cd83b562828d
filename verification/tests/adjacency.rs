use bfs::{bfs, multi_bfs, multi_bfs_slots, BatchError, BfsError};

#[test]
pub fn test_basic_adj_bfs() {
    let adj = vec![vec![1, 2], vec![0, 3], vec![0, 3], vec![1, 2, 4], vec![3]];
    let starts = vec![0, 4];
    let res = multi_bfs(&adj, &starts);
    assert_eq!(
        res,
        Ok(vec![
            vec![0, 1, 1, 2, 3], // BFS from 0
            vec![3, 2, 2, 1, 0], // BFS from 4
        ]),
    );
}

#[test]
pub fn test_disconnected_graph() {
    let adj = vec![vec![1], vec![0], vec![3], vec![2]];
    let starts = vec![0, 2];
    let res = multi_bfs(&adj, &starts);
    assert_eq!(
        res,
        Ok(vec![
            vec![0, 1, -1, -1], // from 0, can't reach 2 or 3
            vec![-1, -1, 0, 1], // from 2, can't reach 0 or 1
        ])
    );
}

#[test]
pub fn test_single_node() {
    let adj = vec![vec![]];
    let starts = vec![0];
    let res = multi_bfs(&adj, &starts);
    assert_eq!(res, Ok(vec![vec![0]]));
}

#[test]
pub fn test_line_graph() {
    let adj = vec![vec![1], vec![0, 2], vec![1, 3], vec![2, 4], vec![3]];
    let starts = vec![0, 4];
    let res = multi_bfs(&adj, &starts);
    assert_eq!(
        res,
        Ok(vec![
            vec![0, 1, 2, 3, 4], // distances from 0
            vec![4, 3, 2, 1, 0], // distances from 4
        ])
    );
}

#[test]
pub fn test_complete_graph() {
    let adj = vec![vec![1, 2, 3], vec![0, 2, 3], vec![0, 1, 3], vec![0, 1, 2]];
    let starts = vec![0, 2];
    let res = multi_bfs(&adj, &starts);
    assert_eq!(
        res,
        Ok(vec![
            vec![0, 1, 1, 1], // from 0
            vec![1, 1, 0, 1], // from 2
        ])
    );
}

/// A small graph with a cycle, a chord, a pendant node and an isolated one.
fn sample() -> Vec<Vec<i32>> {
    vec![
        vec![1, 5],
        vec![0, 2],
        vec![1, 3, 5],
        vec![2, 4],
        vec![3, 5],
        vec![0, 2, 4, 6],
        vec![5],
        vec![],
    ]
}

/// Hop distances by repeated relaxation over all arcs, `-1` where none.
fn relaxed(adj: &[Vec<i32>], start: usize) -> Vec<i32> {
    let n = adj.len();
    let mut dist = vec![-1; n];
    dist[start] = 0;
    for _ in 0..n {
        for u in 0..n {
            if dist[u] < 0 {
                continue;
            }
            for &v in &adj[u] {
                let v = v as usize;
                if dist[v] < 0 || dist[v] > dist[u] + 1 {
                    dist[v] = dist[u] + 1;
                }
            }
        }
    }
    dist
}

#[test]
fn start_is_at_distance_zero() {
    let adj = sample();
    for s in 0..adj.len() {
        let dist = bfs(&adj, s as i32).unwrap();
        assert_eq!(dist[s], 0);
        for v in 0..adj.len() {
            if v != s {
                assert_ne!(dist[v], 0);
            }
        }
    }
}

#[test]
fn distances_match_relaxation() {
    let adj = sample();
    for s in 0..adj.len() {
        assert_eq!(bfs(&adj, s as i32), Ok(relaxed(&adj, s)));
    }
    assert_eq!(bfs(&adj, 0), Ok(vec![0, 1, 2, 3, 2, 1, 2, -1]));
    assert_eq!(bfs(&adj, 3), Ok(vec![3, 2, 1, 0, 1, 2, 3, -1]));
}

#[test]
fn neighbours_differ_by_at_most_one_layer() {
    let adj = sample();
    for s in 0..adj.len() {
        let dist = bfs(&adj, s as i32).unwrap();
        for u in 0..adj.len() {
            for &v in &adj[u] {
                let (du, dv) = (dist[u], dist[v as usize]);
                assert_eq!(du == -1, dv == -1);
                assert!((du - dv).abs() <= 1);
            }
        }
    }
}

#[test]
fn unreached_nodes_carry_minus_one() {
    let adj = sample();
    let dist = bfs(&adj, 0).unwrap();
    assert_eq!(dist[7], -1);
    assert_eq!(bfs(&adj, 7), Ok(vec![-1, -1, -1, -1, -1, -1, -1, 0]));
}

#[test]
fn one_way_arcs_are_followed_forward_only() {
    let adj = vec![vec![1], vec![2], vec![]];
    assert_eq!(bfs(&adj, 0), Ok(vec![0, 1, 2]));
    assert_eq!(bfs(&adj, 1), Ok(vec![-1, 0, 1]));
    assert_eq!(bfs(&adj, 2), Ok(vec![-1, -1, 0]));
}

#[test]
fn self_loops_and_repeated_arcs_change_nothing() {
    let adj = vec![vec![0, 1, 1, 0], vec![1, 2, 0, 2], vec![2, 2, 1]];
    assert_eq!(bfs(&adj, 0), Ok(vec![0, 1, 2]));
    assert_eq!(bfs(&adj, 2), Ok(vec![2, 1, 0]));
}

#[test]
fn shortest_of_two_ways_wins() {
    // 0 -> 1 -> 2 -> 3 and the shortcut 0 -> 3, listed last.
    let adj = vec![vec![1, 3], vec![2], vec![3], vec![4], vec![]];
    assert_eq!(bfs(&adj, 0), Ok(vec![0, 1, 2, 1, 2]));
}

#[test]
fn output_follows_the_order_of_the_starts() {
    let adj = vec![vec![1], vec![0, 2], vec![1, 3], vec![2, 4], vec![3]];
    let starts = vec![4, 0, 2, 0, 4, 4];
    let res = multi_bfs(&adj, &starts).unwrap();
    assert_eq!(res.len(), starts.len());
    for (k, s) in starts.iter().enumerate() {
        assert_eq!(Ok(res[k].clone()), bfs(&adj, *s));
        assert_eq!(res[k][*s as usize], 0);
    }
    assert_eq!(res[0], vec![4, 3, 2, 1, 0]);
    assert_eq!(res[1], vec![0, 1, 2, 3, 4]);
    assert_eq!(res[2], vec![2, 1, 0, 1, 2]);
    assert_eq!(res[3], res[1]);
    assert_eq!(res[4], res[0]);
    assert_eq!(res[5], res[0]);
}

#[test]
fn many_starts_keep_their_places() {
    let n = 300;
    let mut adj: Vec<Vec<i32>> = vec![Vec::new(); n];
    for i in 0..n - 1 {
        adj[i].push((i + 1) as i32);
        adj[i + 1].push(i as i32);
    }
    let starts: Vec<i32> = (0..n as i32).rev().collect();
    let res = multi_bfs(&adj, &starts).unwrap();
    assert_eq!(res.len(), n);
    for (k, s) in starts.iter().enumerate() {
        for v in 0..n as i32 {
            assert_eq!(res[k][v as usize], (v - s).abs());
        }
    }
}

#[test]
fn repeated_calls_agree() {
    let adj = sample();
    let starts = vec![0, 3, 7, 3];
    let first = multi_bfs(&adj, &starts);
    for _ in 0..5 {
        assert_eq!(multi_bfs(&adj, &starts), first);
    }
    assert_eq!(multi_bfs_slots(&adj, &starts), multi_bfs_slots(&adj, &starts));
}

#[test]
fn no_starts_give_no_vectors() {
    let adj = sample();
    assert_eq!(multi_bfs(&adj, &[]), Ok(vec![]));
    assert_eq!(multi_bfs_slots(&adj, &[]), vec![]);
    let none: Vec<Vec<i32>> = vec![];
    assert_eq!(multi_bfs(&none, &[]), Ok(vec![]));
}

#[test]
fn start_outside_the_graph_is_out_of_range() {
    let adj = vec![vec![1], vec![0]];
    assert_eq!(bfs(&adj, 2), Err(BfsError::OutOfRange));
    assert_eq!(bfs(&adj, -1), Err(BfsError::OutOfRange));
    assert_eq!(bfs(&adj, i32::MAX), Err(BfsError::OutOfRange));
    assert_eq!(bfs(&adj, i32::MIN), Err(BfsError::OutOfRange));
    assert_eq!(bfs(&adj, 1), Ok(vec![1, 0]));
    let none: Vec<Vec<i32>> = vec![];
    assert_eq!(bfs(&none, 0), Err(BfsError::OutOfRange));
}

#[test]
fn neighbour_outside_the_graph_is_malformed() {
    assert_eq!(bfs(&[vec![1], vec![2]], 0), Err(BfsError::MalformedGraph));
    assert_eq!(bfs(&[vec![1], vec![-1]], 0), Err(BfsError::MalformedGraph));
    // also where the search would never come to the offending list
    assert_eq!(bfs(&[vec![], vec![7]], 0), Err(BfsError::MalformedGraph));
    assert_eq!(bfs(&[vec![], vec![1]], 0), Ok(vec![0, -1]));
}

#[test]
fn out_of_range_is_reported_before_malformed() {
    assert_eq!(bfs(&[vec![5]], 1), Err(BfsError::OutOfRange));
    assert_eq!(bfs(&[vec![5]], 0), Err(BfsError::MalformedGraph));
}

#[test]
fn batch_fails_with_the_first_failing_start() {
    let adj = vec![vec![1], vec![0]];
    assert_eq!(
        multi_bfs(&adj, &[0, 9, 1, -3]),
        Err(BatchError { index: 1, error: BfsError::OutOfRange })
    );
    assert_eq!(
        multi_bfs(&adj, &[2]),
        Err(BatchError { index: 0, error: BfsError::OutOfRange })
    );
    let bad = vec![vec![1], vec![4]];
    assert_eq!(
        multi_bfs(&bad, &[0, 1]),
        Err(BatchError { index: 0, error: BfsError::MalformedGraph })
    );
    assert_eq!(
        multi_bfs(&bad, &[7, 1]),
        Err(BatchError { index: 0, error: BfsError::OutOfRange })
    );
    assert_eq!(multi_bfs(&bad, &[]), Ok(vec![]));
}

#[test]
fn a_failed_start_leaves_the_other_slots_alone() {
    let adj = vec![vec![1], vec![0, 2], vec![1]];
    assert_eq!(
        multi_bfs_slots(&adj, &[2, 3, 0, -1, 1]),
        vec![
            Ok(vec![2, 1, 0]),
            Err(BfsError::OutOfRange),
            Ok(vec![0, 1, 2]),
            Err(BfsError::OutOfRange),
            Ok(vec![1, 0, 1]),
        ]
    );
    let bad = vec![vec![3]];
    assert_eq!(
        multi_bfs_slots(&bad, &[0, 1]),
        vec![Err(BfsError::MalformedGraph), Err(BfsError::OutOfRange)]
    );
}
