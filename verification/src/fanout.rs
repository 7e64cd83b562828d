use crate::adjacency::{
    bfs_error, bfs_outcome, is_distances, lemma_distances_unique, lemma_start_at_zero,
    neighbors_valid, traverse,
};
use crate::error::{BatchError, BfsError};
use crate::grid::{cell_index, Grid};
use crate::grid_search::{
    grid_bfs, grid_bfs_error, grid_bfs_outcome, is_grid_distances,
    lemma_grid_distances_are_hop_distances, lemma_grid_distances_unique,
};
use rayon::iter::{IntoParallelRefIterator, ParallelIterator};
use vstd::prelude::*;

verus! {

/// Applies `task` to every item on rayon's current thread pool and collects
/// the results.
///
/// Calls `par_iter`, `copied`, `map` and `collect` of rayon. It is taken on
/// trust from rayon that `task` is called on nothing but the items, and that
/// collecting an indexed parallel iterator into a `Vec` keeps the order of
/// the items, whichever call ends first: the result has one entry per item,
/// and entry `k` is what a call of `task` on item `k` returned.
#[verifier::external_body]
fn par_map<T: Copy + Sync + Send, R: Send, F: Fn(T) -> R + Sync + Send>(items: &[T], task: F) -> (out:
    Vec<R>)
    requires
        forall|k: int| 0 <= k < items@.len() ==> call_requires(task, (#[trigger] items@[k],)),
    ensures
        out@.len() == items@.len(),
        forall|k: int|
            0 <= k < items@.len() ==> call_ensures(task, (items@[k],), #[trigger] out@[k]),
{
    items.par_iter().copied().map(task).collect()
}

/// `out` is what the results of the single searches, in the order of their
/// starts, are gathered into: all the distance vectors in that order where
/// every search succeeded, and otherwise the first failure with its place.
pub open spec fn gathered(
    slots: Seq<Result<Vec<i32>, BfsError>>,
    out: Result<Vec<Vec<i32>>, BatchError>,
) -> bool {
    match out {
        Ok(all) => {
            &&& all@.len() == slots.len()
            &&& forall|k: int|
                0 <= k < slots.len() ==> slots[k] == Ok::<Vec<i32>, BfsError>(#[trigger] all@[k])
        },
        Err(e) => {
            &&& e.index < slots.len()
            &&& slots[e.index as int] == Err::<Vec<i32>, BfsError>(e.error)
            &&& forall|k: int| 0 <= k < e.index ==> (#[trigger] slots[k]) is Ok
        },
    }
}

/// Gathers the results of single searches into the result of the batch.
///
/// The batch fails as soon as one search failed: with the error of the
/// first failed search in the order of the starts, and with its place in
/// that order.
pub fn gather(slots: Vec<Result<Vec<i32>, BfsError>>) -> (out: Result<Vec<Vec<i32>>, BatchError>)
    ensures
        gathered(slots@, out),
{
    let mut all: Vec<Vec<i32>> = Vec::with_capacity(slots.len());
    for slot in it: slots.into_iter()
        invariant
            it.seq() == slots@,
            all@.len() == it.index(),
            forall|k: int| 0 <= k < it.index() ==> (#[trigger] slots@[k]) is Ok,
            forall|k: int|
                0 <= k < it.index() ==> slots@[k] == Ok::<Vec<i32>, BfsError>(#[trigger] all@[k]),
    {
        match slot {
            Ok(dist) => {
                all.push(dist);
            },
            Err(error) => {
                return Err(BatchError { index: all.len(), error });
            },
        }
    }
    Ok(all)
}

/// What a batch of searches on `adj`, one from each of `starts`, returns.
pub open spec fn multi_bfs_outcome(
    adj: Seq<Vec<i32>>,
    starts: Seq<i32>,
    out: Result<Vec<Vec<i32>>, BatchError>,
) -> bool {
    match out {
        Ok(all) => {
            &&& all@.len() == starts.len()
            &&& forall|k: int| 0 <= k < starts.len() ==> bfs_error(adj, #[trigger] starts[k]) is None
            &&& forall|k: int|
                0 <= k < starts.len() ==> is_distances(adj, starts[k], (#[trigger] all@[k])@)
        },
        Err(e) => {
            &&& e.index < starts.len()
            &&& bfs_error(adj, starts[e.index as int]) == Some(e.error)
            &&& forall|k: int| 0 <= k < e.index ==> bfs_error(adj, #[trigger] starts[k]) is None
        },
    }
}

/// What a batch of searches on `grid`, one from each of `starts`, returns.
pub open spec fn multi_grid_bfs_outcome(
    grid: &Grid<i32>,
    starts: Seq<(usize, usize)>,
    out: Result<Vec<Vec<i32>>, BatchError>,
) -> bool {
    match out {
        Ok(all) => {
            &&& all@.len() == starts.len()
            &&& forall|k: int|
                0 <= k < starts.len() ==> grid_bfs_error(grid, #[trigger] starts[k]) is None
            &&& forall|k: int|
                0 <= k < starts.len() ==> is_grid_distances(
                    grid.width as int,
                    grid.height as int,
                    starts[k].0 as int,
                    starts[k].1 as int,
                    (#[trigger] all@[k])@,
                )
        },
        Err(e) => {
            &&& e.index < starts.len()
            &&& grid_bfs_error(grid, starts[e.index as int]) == Some(e.error)
            &&& forall|k: int|
                0 <= k < e.index ==> grid_bfs_error(grid, #[trigger] starts[k]) is None
        },
    }
}

/// One search on `adj` from each of `starts`, run in parallel: the result
/// of the search from `starts[k]`, distance vector or error, is entry `k`.
/// A failed search leaves the others as they are.
pub fn multi_bfs_slots(adj: &[Vec<i32>], starts: &[i32]) -> (slots: Vec<Result<Vec<i32>, BfsError>>)
    ensures
        slots@.len() == starts@.len(),
        forall|k: int|
            0 <= k < starts@.len() ==> bfs_outcome(adj@, starts@[k], #[trigger] slots@[k]),
{
    let sound = neighbors_valid(adj);
    let task = |start: i32| -> (r: Result<Vec<i32>, BfsError>)
        ensures
            bfs_outcome(adj@, start, r),
        {
            if start < 0 || start as usize >= adj.len() {
                Err(BfsError::OutOfRange)
            } else if !sound {
                Err(BfsError::MalformedGraph)
            } else {
                Ok(traverse(adj, start))
            }
        };
    par_map(starts, task)
}

/// One search on `grid` from each of `starts`, run in parallel: the result
/// of the search from `starts[k]`, distance vector or error, is entry `k`.
/// A failed search leaves the others as they are.
pub fn multi_grid_bfs_slots(grid: &Grid<i32>, starts: &[(usize, usize)]) -> (slots: Vec<
    Result<Vec<i32>, BfsError>,
>)
    ensures
        slots@.len() == starts@.len(),
        forall|k: int|
            0 <= k < starts@.len() ==> grid_bfs_outcome(grid, starts@[k], #[trigger] slots@[k]),
{
    let task = |start: (usize, usize)| -> (r: Result<Vec<i32>, BfsError>)
        ensures
            grid_bfs_outcome(grid, start, r),
        { grid_bfs(grid, start) };
    par_map(starts, task)
}

/// Run BFS from multiple start points on an adjacency list, in parallel.
/// Returns the distance vectors, one per start and in the order of the
/// starts, also where a start occurs more than once.
///
/// The batch fails if any single search fails, with the error of the first
/// such start in the order of `starts` and its place there. A caller who
/// would rather keep the other results calls `multi_bfs_slots`.
pub fn multi_bfs(adj: &[Vec<i32>], starts: &[i32]) -> (out: Result<Vec<Vec<i32>>, BatchError>)
    ensures
        multi_bfs_outcome(adj@, starts@, out),
        out is Ok ==> forall|k: int|
            0 <= k < starts@.len() ==> (#[trigger] out->Ok_0@[k])@[starts@[k] as int] == 0,
{
    let slots = multi_bfs_slots(adj, starts);
    let ghost held = slots@;
    let out = gather(slots);
    proof {
        if out is Ok {
            let all = out->Ok_0;
            assert forall|k: int| 0 <= k < starts@.len() implies bfs_error(
                adj@,
                #[trigger] starts@[k],
            ) is None && is_distances(adj@, starts@[k], all@[k]@) by {
                assert(bfs_outcome(adj@, starts@[k], held[k]));
                assert(held[k] == Ok::<Vec<i32>, BfsError>(all@[k]));
            }
            assert forall|k: int| 0 <= k < starts@.len() implies (#[trigger] all@[k])@[starts@[k] as int]
                == 0 by {
                assert(bfs_error(adj@, starts@[k]) is None);
                lemma_start_at_zero(adj@, starts@[k], all@[k]@);
            }
        } else {
            let e = out->Err_0;
            assert(bfs_outcome(adj@, starts@[e.index as int], held[e.index as int]));
            assert forall|k: int| 0 <= k < e.index implies bfs_error(adj@, #[trigger] starts@[k])
                is None by {
                assert(bfs_outcome(adj@, starts@[k], held[k]));
            }
        }
    }
    out
}

/// Run BFS from multiple start points on a grid, in parallel. Returns the
/// distance grids, flat and row-major, one per start and in the order of
/// the starts, also where a start occurs more than once.
///
/// The batch fails if any single search fails, with the error of the first
/// such start in the order of `starts` and its place there. A caller who
/// would rather keep the other results calls `multi_grid_bfs_slots`.
pub fn multi_grid_bfs(grid: &Grid<i32>, starts: &[(usize, usize)]) -> (out: Result<
    Vec<Vec<i32>>,
    BatchError,
>)
    ensures
        multi_grid_bfs_outcome(grid, starts@, out),
        out is Ok ==> forall|k: int|
            0 <= k < starts@.len() ==> (#[trigger] out->Ok_0@[k])@[cell_index(
                grid.width as int,
                starts@[k].0 as int,
                starts@[k].1 as int,
            )] == 0,
{
    let slots = multi_grid_bfs_slots(grid, starts);
    let ghost held = slots@;
    let out = gather(slots);
    proof {
        if out is Ok {
            let all = out->Ok_0;
            assert forall|k: int| 0 <= k < starts@.len() implies grid_bfs_error(
                grid,
                #[trigger] starts@[k],
            ) is None && is_grid_distances(
                grid.width as int,
                grid.height as int,
                starts@[k].0 as int,
                starts@[k].1 as int,
                all@[k]@,
            ) by {
                assert(grid_bfs_outcome(grid, starts@[k], held[k]));
                assert(held[k] == Ok::<Vec<i32>, BfsError>(all@[k]));
            }
            assert forall|k: int| 0 <= k < starts@.len() implies (#[trigger] all@[k])@[cell_index(
                grid.width as int,
                starts@[k].0 as int,
                starts@[k].1 as int,
            )] == 0 by {
                assert(grid_bfs_error(grid, starts@[k]) is None);
                lemma_grid_distances_are_hop_distances(
                    grid.width as int,
                    grid.height as int,
                    starts@[k].0 as int,
                    starts@[k].1 as int,
                    all@[k]@,
                );
            }
        } else {
            let e = out->Err_0;
            assert(grid_bfs_outcome(grid, starts@[e.index as int], held[e.index as int]));
            assert forall|k: int| 0 <= k < e.index implies grid_bfs_error(
                grid,
                #[trigger] starts@[k],
            ) is None by {
                assert(grid_bfs_outcome(grid, starts@[k], held[k]));
            }
        }
    }
    out
}

/// Running a batch twice on one graph and one list of starts gives the
/// same twice: the same failure, or as many distance vectors, equal place
/// by place and entry by entry.
pub proof fn lemma_multi_bfs_deterministic(
    adj: Seq<Vec<i32>>,
    starts: Seq<i32>,
    a: Result<Vec<Vec<i32>>, BatchError>,
    b: Result<Vec<Vec<i32>>, BatchError>,
)
    requires
        multi_bfs_outcome(adj, starts, a),
        multi_bfs_outcome(adj, starts, b),
    ensures
        a is Ok <==> b is Ok,
        a is Err ==> a->Err_0 == b->Err_0,
        a is Ok ==> a->Ok_0@.len() == b->Ok_0@.len() && forall|k: int|
            0 <= k < starts.len() ==> (#[trigger] a->Ok_0@[k])@ == b->Ok_0@[k]@,
{
    if a is Ok && b is Ok {
        assert forall|k: int| 0 <= k < starts.len() implies (#[trigger] a->Ok_0@[k])@
            == b->Ok_0@[k]@ by {
            assert(is_distances(adj, starts[k], b->Ok_0@[k]@));
            lemma_distances_unique(adj, starts[k], a->Ok_0@[k]@, b->Ok_0@[k]@);
        }
    } else if a is Ok {
        assert(bfs_error(adj, starts[b->Err_0.index as int]) is None);
    } else if b is Ok {
        assert(bfs_error(adj, starts[a->Err_0.index as int]) is None);
    } else {
        let i = a->Err_0.index as int;
        let j = b->Err_0.index as int;
        if i < j {
            assert(bfs_error(adj, starts[i]) is None);
        }
        if j < i {
            assert(bfs_error(adj, starts[j]) is None);
        }
    }
}

/// Running a batch twice on one grid and one list of starts gives the
/// same twice: the same failure, or as many distance vectors, equal place
/// by place and entry by entry.
pub proof fn lemma_multi_grid_bfs_deterministic(
    grid: &Grid<i32>,
    starts: Seq<(usize, usize)>,
    a: Result<Vec<Vec<i32>>, BatchError>,
    b: Result<Vec<Vec<i32>>, BatchError>,
)
    requires
        multi_grid_bfs_outcome(grid, starts, a),
        multi_grid_bfs_outcome(grid, starts, b),
    ensures
        a is Ok <==> b is Ok,
        a is Err ==> a->Err_0 == b->Err_0,
        a is Ok ==> a->Ok_0@.len() == b->Ok_0@.len() && forall|k: int|
            0 <= k < starts.len() ==> (#[trigger] a->Ok_0@[k])@ == b->Ok_0@[k]@,
{
    if a is Ok && b is Ok {
        assert forall|k: int| 0 <= k < starts.len() implies (#[trigger] a->Ok_0@[k])@
            == b->Ok_0@[k]@ by {
            assert(grid_bfs_error(grid, starts[k]) is None);
            assert(is_grid_distances(
                grid.width as int,
                grid.height as int,
                starts[k].0 as int,
                starts[k].1 as int,
                b->Ok_0@[k]@,
            ));
            lemma_grid_distances_unique(
                grid.width as int,
                grid.height as int,
                starts[k].0 as int,
                starts[k].1 as int,
                a->Ok_0@[k]@,
                b->Ok_0@[k]@,
            );
        }
    } else if a is Ok {
        assert(grid_bfs_error(grid, starts[b->Err_0.index as int]) is None);
    } else if b is Ok {
        assert(grid_bfs_error(grid, starts[a->Err_0.index as int]) is None);
    } else {
        let i = a->Err_0.index as int;
        let j = b->Err_0.index as int;
        if i < j {
            assert(grid_bfs_error(grid, starts[i]) is None);
        }
        if j < i {
            assert(grid_bfs_error(grid, starts[j]) is None);
        }
    }
}

} // verus!
