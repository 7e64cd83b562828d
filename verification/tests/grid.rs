use bfs::{gather, grid_bfs, multi_grid_bfs, multi_grid_bfs_slots, BatchError, BfsError, Grid};

#[test]
pub fn test_grid_single_cell() {
    let grid = Grid {
        data: vec![1],
        width: 1,
        height: 1,
    };
    let starts = vec![(0, 0)];
    let res = multi_grid_bfs(&grid, &starts);
    assert_eq!(res, Ok(vec![vec![0]]));
}

#[test]
pub fn test_grid_line_horizontal() {
    let grid = Grid {
        data: vec![0, 0, 0, 0, 0],
        width: 5,
        height: 1,
    };
    let starts = vec![(0, 0)];
    let res = multi_grid_bfs(&grid, &starts);
    assert_eq!(res, Ok(vec![vec![0, 1, 2, 3, 4]]));
}

#[test]
pub fn test_grid_line_vertical() {
    let grid = Grid {
        data: vec![0, 0, 0, 0],
        width: 1,
        height: 4,
    };
    let starts = vec![(0, 0)];
    let res = multi_grid_bfs(&grid, &starts);
    assert_eq!(res, Ok(vec![vec![0, 1, 2, 3]]));
}

#[test]
pub fn test_grid_square() {
    let grid = Grid {
        data: vec![0, 0, 0, 0, 0, 0, 0, 0, 0],
        width: 3,
        height: 3,
    };
    let starts = vec![(1, 1)];
    let res = multi_grid_bfs(&grid, &starts);
    assert_eq!(res, Ok(vec![vec![2, 1, 2, 1, 0, 1, 2, 1, 2]]));
}

#[test]
pub fn test_grid_rectangle() {
    let grid = Grid {
        data: vec![
            0, 0, 0, 0, // row 0
            0, 0, 0, 0, // row 1
        ],
        width: 4,
        height: 2,
    };
    let starts = vec![(0, 0)];
    let res = multi_grid_bfs(&grid, &starts);
    assert_eq!(res, Ok(vec![vec![0, 1, 2, 3, 1, 2, 3, 4]]));
}

fn blank(width: usize, height: usize) -> Grid<i32> {
    Grid { data: vec![0; width * height], width, height }
}

#[test]
fn idx_is_row_major() {
    let grid = blank(4, 3);
    assert_eq!(grid.idx(0, 0), 0);
    assert_eq!(grid.idx(3, 0), 3);
    assert_eq!(grid.idx(0, 1), 4);
    assert_eq!(grid.idx(2, 1), 6);
    assert_eq!(grid.idx(3, 2), 11);
}

#[test]
fn in_bounds_rejects_what_lies_outside() {
    let grid = blank(4, 3);
    assert!(grid.in_bounds(0, 0));
    assert!(grid.in_bounds(3, 2));
    assert!(!grid.in_bounds(4, 0));
    assert!(!grid.in_bounds(0, 3));
    assert!(!grid.in_bounds(-1, 0));
    assert!(!grid.in_bounds(0, -1));
    assert!(!grid.in_bounds(i32::MIN, i32::MIN));
    assert!(!grid.in_bounds(i32::MAX, i32::MAX));
    let empty = blank(0, 5);
    assert!(!empty.in_bounds(0, 0));
}

#[test]
fn get_reads_and_get_mut_writes_one_cell() {
    let mut grid = Grid { data: vec![10, 11, 12, 13, 14, 15], width: 3, height: 2 };
    assert_eq!(*grid.get(0, 0), 10);
    assert_eq!(*grid.get(2, 0), 12);
    assert_eq!(*grid.get(0, 1), 13);
    assert_eq!(*grid.get(2, 1), 15);
    *grid.get_mut(1, 1) = 99;
    assert_eq!(grid.data, vec![10, 11, 12, 13, 99, 15]);
    assert_eq!((grid.width, grid.height), (3, 2));
    *grid.get_mut(0, 0) += 1;
    assert_eq!(*grid.get(0, 0), 11);
    let copy = grid.clone();
    assert_eq!(copy.data, grid.data);
    assert_eq!((copy.width, copy.height), (3, 2));
}

#[test]
fn grid_of_another_cell_type() {
    let mut grid = Grid { data: vec!['a', 'b', 'c', 'd'], width: 2, height: 2 };
    assert_eq!(*grid.get(1, 0), 'b');
    *grid.get_mut(0, 1) = 'z';
    assert_eq!(grid.data, vec!['a', 'b', 'z', 'd']);
}

#[test]
fn grid_distance_is_the_number_of_steps_apart() {
    let grid = blank(7, 5);
    for y0 in 0..5usize {
        for x0 in 0..7usize {
            let dist = grid_bfs(&grid, (x0, y0)).unwrap();
            assert_eq!(dist.len(), 35);
            assert_eq!(dist[grid.idx(x0, y0)], 0);
            for y in 0..5usize {
                for x in 0..7usize {
                    let steps = x.abs_diff(x0) + y.abs_diff(y0);
                    assert_eq!(dist[grid.idx(x, y)], steps as i32);
                }
            }
        }
    }
}

#[test]
fn grid_start_in_a_corner_and_on_an_edge() {
    let grid = blank(3, 2);
    assert_eq!(grid_bfs(&grid, (2, 1)), Ok(vec![3, 2, 1, 2, 1, 0]));
    assert_eq!(grid_bfs(&grid, (1, 0)), Ok(vec![1, 0, 1, 2, 1, 2]));
}

#[test]
fn grid_cell_values_play_no_part() {
    let plain = blank(3, 3);
    let marked = Grid { data: vec![1, -1, 7, 0, 9, -5, 3, 3, i32::MIN], width: 3, height: 3 };
    assert_eq!(grid_bfs(&marked, (0, 2)), grid_bfs(&plain, (0, 2)));
    assert_eq!(grid_bfs(&marked, (0, 2)), Ok(vec![2, 3, 4, 1, 2, 3, 0, 1, 2]));
}

#[test]
fn grid_neighbours_differ_by_exactly_one() {
    let grid = blank(6, 4);
    let dist = grid_bfs(&grid, (4, 1)).unwrap();
    for y in 0..4usize {
        for x in 0..6usize {
            assert!(dist[grid.idx(x, y)] >= 0);
            if x + 1 < 6 {
                assert_eq!((dist[grid.idx(x, y)] - dist[grid.idx(x + 1, y)]).abs(), 1);
            }
            if y + 1 < 4 {
                assert_eq!((dist[grid.idx(x, y)] - dist[grid.idx(x, y + 1)]).abs(), 1);
            }
        }
    }
}

#[test]
fn grid_output_follows_the_order_of_the_starts() {
    let grid = blank(2, 2);
    let starts = vec![(1, 1), (0, 0), (1, 1), (0, 1)];
    assert_eq!(
        multi_grid_bfs(&grid, &starts),
        Ok(vec![vec![2, 1, 1, 0], vec![0, 1, 1, 2], vec![2, 1, 1, 0], vec![1, 2, 0, 1]])
    );
    assert_eq!(multi_grid_bfs(&grid, &[]), Ok(vec![]));
}

#[test]
fn grid_repeated_calls_agree() {
    let grid = blank(9, 4);
    let starts: Vec<(usize, usize)> = (0..4).map(|i| (2 * i, i)).collect();
    let first = multi_grid_bfs(&grid, &starts);
    assert!(first.is_ok());
    for _ in 0..5 {
        assert_eq!(multi_grid_bfs(&grid, &starts), first);
    }
}

#[test]
fn grid_start_outside_is_out_of_range() {
    let grid = blank(3, 2);
    assert_eq!(grid_bfs(&grid, (3, 0)), Err(BfsError::OutOfRange));
    assert_eq!(grid_bfs(&grid, (0, 2)), Err(BfsError::OutOfRange));
    assert_eq!(grid_bfs(&grid, (usize::MAX, usize::MAX)), Err(BfsError::OutOfRange));
    assert_eq!(grid_bfs(&blank(0, 0), (0, 0)), Err(BfsError::OutOfRange));
    assert_eq!(grid_bfs(&blank(0, 3), (0, 1)), Err(BfsError::OutOfRange));
    assert_eq!(
        multi_grid_bfs(&grid, &[(0, 0), (2, 1), (2, 2), (9, 9)]),
        Err(BatchError { index: 2, error: BfsError::OutOfRange })
    );
}

#[test]
fn grid_with_wrong_data_length_is_malformed() {
    let short = Grid { data: vec![0; 5], width: 3, height: 2 };
    assert_eq!(grid_bfs(&short, (0, 0)), Err(BfsError::MalformedGraph));
    let long = Grid { data: vec![0; 7], width: 3, height: 2 };
    assert_eq!(grid_bfs(&long, (1, 1)), Err(BfsError::MalformedGraph));
    assert_eq!(grid_bfs(&long, (3, 1)), Err(BfsError::OutOfRange));
    assert_eq!(
        multi_grid_bfs(&long, &[(1, 1)]),
        Err(BatchError { index: 0, error: BfsError::MalformedGraph })
    );
}

#[test]
fn grid_whose_distances_overflow_is_too_large() {
    let wide = i32::MAX as usize + 2;
    let grid = Grid { data: vec![], width: wide, height: 1 };
    assert_eq!(grid_bfs(&grid, (0, 0)), Err(BfsError::TooLarge));
    assert_eq!(grid_bfs(&grid, (wide, 0)), Err(BfsError::OutOfRange));
    let tall = Grid { data: vec![], width: 3, height: i32::MAX as usize };
    assert_eq!(grid_bfs(&tall, (2, 5)), Err(BfsError::TooLarge));
    // the widest shape whose distances fit: here only the data is missing
    let edge = Grid { data: vec![], width: 2, height: i32::MAX as usize };
    assert_eq!(grid_bfs(&edge, (0, 0)), Err(BfsError::MalformedGraph));
    let huge = Grid { data: vec![], width: usize::MAX, height: usize::MAX };
    assert_eq!(grid_bfs(&huge, (1, 1)), Err(BfsError::TooLarge));
}

#[test]
fn grid_failed_start_leaves_the_other_slots_alone() {
    let grid = blank(2, 1);
    assert_eq!(
        multi_grid_bfs_slots(&grid, &[(1, 0), (2, 0), (0, 0)]),
        vec![Ok(vec![1, 0]), Err(BfsError::OutOfRange), Ok(vec![0, 1])]
    );
}

#[test]
fn gather_keeps_all_or_reports_the_first_failure() {
    assert_eq!(gather(vec![]), Ok(vec![]));
    assert_eq!(
        gather(vec![Ok(vec![0, 1]), Ok(vec![]), Ok(vec![-1])]),
        Ok(vec![vec![0, 1], vec![], vec![-1]])
    );
    assert_eq!(
        gather(vec![Ok(vec![0]), Err(BfsError::MalformedGraph), Err(BfsError::OutOfRange)]),
        Err(BatchError { index: 1, error: BfsError::MalformedGraph })
    );
    assert_eq!(
        gather(vec![Err(BfsError::TooLarge), Ok(vec![0])]),
        Err(BatchError { index: 0, error: BfsError::TooLarge })
    );
}
