use crate::counting::lemma_distinct_bounded;
use crate::error::BfsError;
use crate::graph::Graph;
use crate::grid::{cell_index, lemma_cell_index_bound, lemma_cell_index_injective, Grid};
use std::collections::VecDeque;
use vstd::arithmetic::div_mod::lemma_fundamental_div_mod_converse;
use vstd::prelude::*;

verus! {

/// How far apart `a` and `b` lie.
pub open spec fn gap(a: int, b: int) -> int {
    if a <= b {
        b - a
    } else {
        a - b
    }
}

/// The number of axis-aligned unit steps from `(x0, y0)` to `(x, y)`.
pub open spec fn taxicab(x0: int, y0: int, x: int, y: int) -> int {
    gap(x0, x) + gap(y0, y)
}

/// The graph of a grid: its nodes are the cell indices, and each cell has an
/// arc to the cells one step to its left, right, top and bottom.
pub open spec fn grid_graph(width: int, height: int) -> Graph {
    Graph {
        size: (width * height) as nat,
        arcs: Set::new(
            |a: (int, int)|
                0 <= a.0 < width * height && 0 <= a.1 < width * height && taxicab(
                    a.0 % width,
                    a.0 / width,
                    a.1 % width,
                    a.1 / width,
                ) == 1,
        ),
    }
}

/// The error that a search on `grid` from `start` ends with, if any.
pub open spec fn grid_bfs_error(grid: &Grid<i32>, start: (usize, usize)) -> Option<BfsError> {
    if !grid.holds(start.0 as int, start.1 as int) {
        Some(BfsError::OutOfRange)
    } else if grid.width + grid.height - 2 > i32::MAX {
        Some(BfsError::TooLarge)
    } else if !grid.wf() {
        Some(BfsError::MalformedGraph)
    } else {
        None
    }
}

/// `dist` holds, for every cell of a `width` by `height` grid in row-major
/// order, the number of steps that it lies from `(x0, y0)`.
pub open spec fn is_grid_distances(width: int, height: int, x0: int, y0: int, dist: Seq<i32>) -> bool {
    &&& dist.len() == width * height
    &&& forall|x: int, y: int|
        0 <= x < width && 0 <= y < height ==> #[trigger] dist[cell_index(width, x, y)] == taxicab(
            x0,
            y0,
            x,
            y,
        )
}

/// `dist` holds, for every cell of a `width` by `height` grid in row-major
/// order, its hop distance from `(x0, y0)` in the graph of the grid.
pub open spec fn is_grid_hop_distances(
    width: int,
    height: int,
    x0: int,
    y0: int,
    dist: Seq<i32>,
) -> bool {
    &&& dist.len() == width * height
    &&& forall|x: int, y: int|
        0 <= x < width && 0 <= y < height ==> grid_graph(width, height).is_hop_distance(
            cell_index(width, x0, y0),
            cell_index(width, x, y),
            #[trigger] dist[cell_index(width, x, y)] as int,
        )
}

/// What a search on `grid` from `start` returns.
pub open spec fn grid_bfs_outcome(
    grid: &Grid<i32>,
    start: (usize, usize),
    r: Result<Vec<i32>, BfsError>,
) -> bool {
    match grid_bfs_error(grid, start) {
        Some(e) => r == Err::<Vec<i32>, BfsError>(e),
        None => r is Ok && is_grid_distances(
            grid.width as int,
            grid.height as int,
            start.0 as int,
            start.1 as int,
            r->Ok_0@,
        ),
    }
}

/// The steps from a cell to its four neighbours, in the order in which a
/// search visits them.
const DIRS: [(i32, i32); 4] = [(1, 0), (-1, 0), (0, 1), (0, -1)];

/// Breadth-first search on a grid from a single start cell: for every cell,
/// in row-major order, its hop distance from `start`. The cells' values play
/// no part: every cell can be walked on, so every cell is reached.
///
/// Fails with `OutOfRange` if `start` is no cell of the grid; otherwise with
/// `TooLarge` if the hop distance between two opposite corners,
/// `width + height - 2`, does not fit in an `i32`; otherwise with
/// `MalformedGraph` if the grid's data does not hold `width * height` cells.
pub fn grid_bfs(grid: &Grid<i32>, start: (usize, usize)) -> (r: Result<Vec<i32>, BfsError>)
    ensures
        grid_bfs_outcome(grid, start, r),
        r is Ok ==> r->Ok_0@[cell_index(grid.width as int, start.0 as int, start.1 as int)] == 0,
        r is Ok ==> is_grid_hop_distances(
            grid.width as int,
            grid.height as int,
            start.0 as int,
            start.1 as int,
            r->Ok_0@,
        ),
{
    if start.0 >= grid.width || start.1 >= grid.height {
        return Err(BfsError::OutOfRange);
    }
    if grid.width - 1 > i32::MAX as usize || grid.height - 1 > i32::MAX as usize - (grid.width - 1) {
        return Err(BfsError::TooLarge);
    }
    let sound = match grid.width.checked_mul(grid.height) {
        Some(cells) => cells == grid.data.len(),
        None => false,
    };
    if !sound {
        assert(grid.data@.len() == grid.data.len());
        return Err(BfsError::MalformedGraph);
    }
    let ghost w = grid.width as int;
    let ghost h = grid.height as int;
    let ghost x0 = start.0 as int;
    let ghost y0 = start.1 as int;
    proof {
        lemma_cell_index_bound(w, h, x0, y0);
    }

    let mut dist: Vec<i32> = vec![-1; grid.data.len()];
    let mut q: VecDeque<(usize, usize)> = VecDeque::new();

    let start_idx = grid.idx(start.0, start.1);
    dist[start_idx] = 0;
    q.push_back(start);

    let ghost mut hist: Seq<(usize, usize)> = seq![start];
    let ghost mut pos: Seq<int> = Seq::new((w * h) as nat, |c: int| 0int);
    let ghost mut head: int = 0;
    proof {
        assert(dist@ =~= Seq::new((w * h) as nat, |c: int| -1i32).update(start_idx as int, 0i32));
        assert(q@ =~= hist.subrange(0, 1));
        lemma_begin_sweep(w, h, start, dist@, hist);
    }

    while q.len() > 0
        invariant
            grid.wf(),
            w == grid.width,
            h == grid.height,
            w + h - 2 <= i32::MAX,
            dist@.len() == w * h,
            sweeping(w, h, x0, y0, dist@, hist, pos, head),
            0 <= head <= hist.len(),
            q@ == hist.subrange(head, hist.len() as int),
        decreases w * h - head,
    {
        proof {
            lemma_at_cell(w, h, x0, y0, dist@, hist, pos, head);
        }
        let (x, y) = q.pop_front().unwrap();
        proof {
            assert(hist.subrange(head, hist.len() as int)[0] == hist[head]);
            assert(q@ =~= hist.subrange(head + 1, hist.len() as int));
            assert(dist@.len() == dist.len());
        }
        let d = dist[grid.idx(x, y)];
        for k in 0..4usize
            invariant
                grid.wf(),
                w == grid.width,
                h == grid.height,
                w + h - 2 <= i32::MAX,
                dist@.len() == w * h,
                sweeping(w, h, x0, y0, dist@, hist, pos, head),
                0 <= head < hist.len(),
                hist[head] == (x, y),
                x < w,
                y < h,
                d == rank(x0, y0, hist[head]),
                q@ == hist.subrange(head + 1, hist.len() as int),
                forall|k2: int|
                    0 <= k2 < k ==> #[trigger] step_done(w, h, dist@, x as int, y as int, k2),
        {
            let (dx, dy) = DIRS[k];
            if let (Some(nx), Some(ny)) = ((x as i32).checked_add(dx), (y as i32).checked_add(dy)) {
                if grid.in_bounds(nx, ny) {
                    let (nxu, nyu) = (nx as usize, ny as usize);
                    proof {
                        lemma_cell_index_bound(w, h, nxu as int, nyu as int);
                        assert(dist@.len() == dist.len());
                    }
                    let idx = grid.idx(nxu, nyu);
                    if dist[idx] == -1 {
                        proof {
                            lemma_label_step(w, h, x0, y0, dist@, hist, pos, head, k as int, (nxu, nyu));
                            pos = pos.update(idx as int, hist.len() as int);
                            hist = hist.push((nxu, nyu));
                        }
                        dist[idx] = d + 1;
                        q.push_back((nxu, nyu));
                        assert(q@ =~= hist.subrange(head + 1, hist.len() as int));
                    } else {
                        proof {
                            lemma_labelled_already(
                                w,
                                h,
                                x0,
                                y0,
                                dist@,
                                hist,
                                pos,
                                head,
                                nxu as int,
                                nyu as int,
                            );
                        }
                    }
                }
            }
        }
        proof {
            assert(closed_at(w, h, dist@, x as int, y as int));
            lemma_advance(w, h, x0, y0, dist@, hist, pos, head);
            head = head + 1;
        }
    }
    proof {
        assert(head == hist.len()) by {
            assert(q@.len() == 0);
        }
        lemma_swept(w, h, x0, y0, dist@, hist, pos);
        lemma_grid_distances_are_hop_distances(w, h, x0, y0, dist@);
    }
    Ok(dist)
}

/// A cell's index gives back its coordinates.
pub proof fn lemma_cell_coordinates(width: int, height: int, x: int, y: int)
    requires
        0 <= x < width,
        0 <= y < height,
    ensures
        0 <= cell_index(width, x, y) < width * height,
        cell_index(width, x, y) % width == x,
        cell_index(width, x, y) / width == y,
{
    lemma_cell_index_bound(width, height, x, y);
    lemma_fundamental_div_mod_converse(cell_index(width, x, y), width, y, x);
}

/// An index below `width * height` is the index of a cell.
pub proof fn lemma_index_is_cell(width: int, height: int, c: int)
    requires
        0 <= c < width * height,
        0 < width,
    ensures
        0 <= c % width < width,
        0 <= c / width < height,
        cell_index(width, c % width, c / width) == c,
{
    vstd::arithmetic::div_mod::lemma_fundamental_div_mod(c, width);
    vstd::arithmetic::div_mod::lemma_mod_bound(c, width);
    let y = c / width;
    assert(width * y == y * width) by (nonlinear_arith);
    assert(0 <= y < height) by (nonlinear_arith)
        requires
            0 <= c < width * height,
            0 < width,
            c == y * width + c % width,
            0 <= c % width < width,
    ;
}

/// Every cell is reached from the start by a walk of as many arcs as the
/// two lie steps apart.
pub proof fn lemma_taxicab_walk(width: int, height: int, x0: int, y0: int, x: int, y: int)
    requires
        0 <= x0 < width,
        0 <= y0 < height,
        0 <= x < width,
        0 <= y < height,
    ensures
        grid_graph(width, height).reach_in(
            cell_index(width, x0, y0),
            cell_index(width, x, y),
            taxicab(x0, y0, x, y) as nat,
        ),
    decreases taxicab(x0, y0, x, y),
{
    let g = grid_graph(width, height);
    lemma_cell_coordinates(width, height, x0, y0);
    lemma_cell_coordinates(width, height, x, y);
    if taxicab(x0, y0, x, y) > 0 {
        let (px, py) = if x > x0 {
            (x - 1, y)
        } else if x < x0 {
            (x + 1, y)
        } else if y > y0 {
            (x, y - 1)
        } else {
            (x, y + 1)
        };
        lemma_taxicab_walk(width, height, x0, y0, px, py);
        lemma_cell_coordinates(width, height, px, py);
        assert(g.has_arc(cell_index(width, px, py), cell_index(width, x, y)));
    }
}

/// No walk from the start to a cell has fewer arcs than the two lie steps
/// apart.
pub proof fn lemma_walk_above_taxicab(width: int, height: int, x0: int, y0: int, v: int, k: nat)
    requires
        0 <= x0 < width,
        0 <= y0 < height,
        grid_graph(width, height).reach_in(cell_index(width, x0, y0), v, k),
    ensures
        taxicab(x0, y0, v % width, v / width) <= k,
    decreases k,
{
    let g = grid_graph(width, height);
    let s = cell_index(width, x0, y0);
    lemma_cell_coordinates(width, height, x0, y0);
    if k > 0 {
        let u = choose|u: int| g.reach_in(s, u, (k - 1) as nat) && #[trigger] g.has_arc(u, v);
        lemma_walk_above_taxicab(width, height, x0, y0, u, (k - 1) as nat);
    }
}

/// On a grid the hop distance between two cells is the number of steps
/// that they lie apart, and every cell is reached from every other.
pub proof fn lemma_taxicab_is_hop_distance(
    width: int,
    height: int,
    x0: int,
    y0: int,
    x: int,
    y: int,
)
    requires
        0 <= x0 < width,
        0 <= y0 < height,
        0 <= x < width,
        0 <= y < height,
    ensures
        grid_graph(width, height).is_hop_distance(
            cell_index(width, x0, y0),
            cell_index(width, x, y),
            taxicab(x0, y0, x, y),
        ),
{
    let g = grid_graph(width, height);
    let s = cell_index(width, x0, y0);
    let v = cell_index(width, x, y);
    lemma_taxicab_walk(width, height, x0, y0, x, y);
    lemma_cell_coordinates(width, height, x, y);
    assert forall|k: nat| k < taxicab(x0, y0, x, y) implies !g.reach_in(s, v, k) by {
        if g.reach_in(s, v, k) {
            lemma_walk_above_taxicab(width, height, x0, y0, v, k);
        }
    }
}

/// The distance vector of a grid holds the true hop distances: every cell
/// is reached from the start, by a shortest walk of as many arcs as its
/// entry says, and the start's own entry is 0.
pub proof fn lemma_grid_distances_are_hop_distances(
    width: int,
    height: int,
    x0: int,
    y0: int,
    dist: Seq<i32>,
)
    requires
        0 <= x0 < width,
        0 <= y0 < height,
        is_grid_distances(width, height, x0, y0, dist),
    ensures
        is_grid_hop_distances(width, height, x0, y0, dist),
        dist[cell_index(width, x0, y0)] == 0,
        forall|x: int, y: int|
            0 <= x < width && 0 <= y < height ==> #[trigger] dist[cell_index(width, x, y)] >= 0,
{
    assert forall|x: int, y: int| 0 <= x < width && 0 <= y < height implies grid_graph(
        width,
        height,
    ).is_hop_distance(
        cell_index(width, x0, y0),
        cell_index(width, x, y),
        #[trigger] dist[cell_index(width, x, y)] as int,
    ) by {
        lemma_taxicab_is_hop_distance(width, height, x0, y0, x, y);
    }
}

/// Between neighbouring cells the distance differs by exactly one.
pub proof fn lemma_grid_neighbors_one_apart(
    width: int,
    height: int,
    x0: int,
    y0: int,
    dist: Seq<i32>,
    x1: int,
    y1: int,
    x2: int,
    y2: int,
)
    requires
        is_grid_distances(width, height, x0, y0, dist),
        0 <= x1 < width,
        0 <= y1 < height,
        0 <= x2 < width,
        0 <= y2 < height,
        taxicab(x1, y1, x2, y2) == 1,
    ensures
        dist[cell_index(width, x1, y1)] - dist[cell_index(width, x2, y2)] == 1 || dist[cell_index(
            width,
            x2,
            y2,
        )] - dist[cell_index(width, x1, y1)] == 1,
{
}

/// A grid's shape and a start have one distance vector.
pub proof fn lemma_grid_distances_unique(
    width: int,
    height: int,
    x0: int,
    y0: int,
    d1: Seq<i32>,
    d2: Seq<i32>,
)
    requires
        0 < width,
        is_grid_distances(width, height, x0, y0, d1),
        is_grid_distances(width, height, x0, y0, d2),
    ensures
        d1 == d2,
{
    assert forall|c: int| 0 <= c < d1.len() implies d1[c] == d2[c] by {
        lemma_index_is_cell(width, height, c);
        let x = c % width;
        let y = c / width;
        assert(d1[cell_index(width, x, y)] == taxicab(x0, y0, x, y));
        assert(d2[cell_index(width, x, y)] == taxicab(x0, y0, x, y));
    }
    assert(d1 =~= d2);
}

/// Searching twice from one start on one grid gives the same twice: the
/// same error, or distance vectors that are equal entry by entry.
pub proof fn lemma_grid_bfs_deterministic(
    grid: &Grid<i32>,
    start: (usize, usize),
    r1: Result<Vec<i32>, BfsError>,
    r2: Result<Vec<i32>, BfsError>,
)
    requires
        grid_bfs_outcome(grid, start, r1),
        grid_bfs_outcome(grid, start, r2),
    ensures
        r1 is Ok <==> r2 is Ok,
        r1 is Err ==> r1->Err_0 == r2->Err_0,
        r1 is Ok ==> r1->Ok_0@ == r2->Ok_0@,
{
    if r1 is Ok {
        lemma_grid_distances_unique(
            grid.width as int,
            grid.height as int,
            start.0 as int,
            start.1 as int,
            r1->Ok_0@,
            r2->Ok_0@,
        );
    }
}

/// The `k`-th of the four steps.
spec fn offset(k: int) -> (int, int) {
    (DIRS[k].0 as int, DIRS[k].1 as int)
}

/// How many steps cell `c` lies from the start.
spec fn rank(x0: int, y0: int, c: (usize, usize)) -> int {
    taxicab(x0, y0, c.0 as int, c.1 as int)
}

/// The `k`-th neighbour of `(x, y)` is labelled, if the grid has it.
spec fn step_done(width: int, height: int, dist: Seq<i32>, x: int, y: int, k: int) -> bool {
    let nx = x + offset(k).0;
    let ny = y + offset(k).1;
    0 <= nx < width && 0 <= ny < height ==> dist[cell_index(width, nx, ny)] >= 0
}

/// All neighbours of `(x, y)` are labelled.
spec fn closed_at(width: int, height: int, dist: Seq<i32>, x: int, y: int) -> bool {
    forall|k: int| 0 <= k < 4 ==> #[trigger] step_done(width, height, dist, x, y, k)
}

/// What holds of the labels and of `hist`, the cells labelled so far in the
/// order in which they were labelled. `pos` gives each labelled cell's
/// place in `hist`.
spec fn wave_inv(
    width: int,
    height: int,
    x0: int,
    y0: int,
    dist: Seq<i32>,
    hist: Seq<(usize, usize)>,
    pos: Seq<int>,
) -> bool {
    &&& dist.len() == width * height && pos.len() == width * height
    &&& 0 <= x0 < width && 0 <= y0 < height
    &&& hist.len() >= 1 && hist[0].0 == x0 && hist[0].1 == y0
    &&& forall|i: int|
        0 <= i < hist.len() ==> {
            let c = #[trigger] hist[i];
            &&& c.0 < width && c.1 < height
            &&& dist[cell_index(width, c.0 as int, c.1 as int)] >= 0
            &&& pos[cell_index(width, c.0 as int, c.1 as int)] == i
        }
    &&& forall|x: int, y: int|
        0 <= x < width && 0 <= y < height ==> {
            let c = cell_index(width, x, y);
            let d = #[trigger] dist[cell_index(width, x, y)];
            d == -1 || (d == taxicab(x0, y0, x, y) && 0 <= pos[c] < hist.len() && hist[pos[c]].0
                == x && hist[pos[c]].1 == y)
        }
    &&& forall|i: int, j: int|
        0 <= i <= j < hist.len() ==> rank(x0, y0, #[trigger] hist[i]) <= rank(
            x0,
            y0,
            #[trigger] hist[j],
        )
}

/// No labelled cell lies more than one step farther out than the cell at
/// `head`.
spec fn one_step_ahead(x0: int, y0: int, hist: Seq<(usize, usize)>, head: int) -> bool {
    head < hist.len() ==> forall|j: int|
        0 <= j < hist.len() ==> rank(x0, y0, #[trigger] hist[j]) <= rank(x0, y0, hist[head]) + 1
}

/// Every cell no farther out than the cell at `head` is labelled.
spec fn ring_full(
    width: int,
    height: int,
    x0: int,
    y0: int,
    dist: Seq<i32>,
    hist: Seq<(usize, usize)>,
    head: int,
) -> bool {
    head < hist.len() ==> forall|x: int, y: int|
        0 <= x < width && 0 <= y < height && taxicab(x0, y0, x, y) <= rank(x0, y0, hist[head])
            ==> #[trigger] dist[cell_index(width, x, y)] >= 0
}

/// The cells before `head` have had all their neighbours labelled.
spec fn done_before(
    width: int,
    height: int,
    dist: Seq<i32>,
    hist: Seq<(usize, usize)>,
    head: int,
) -> bool {
    forall|i: int|
        0 <= i < head ==> closed_at(
            width,
            height,
            dist,
            (#[trigger] hist[i]).0 as int,
            hist[i].1 as int,
        )
}

/// The state of a search that has dealt with the first `head` cells of
/// its queue.
#[verifier::opaque]
spec fn sweeping(
    width: int,
    height: int,
    x0: int,
    y0: int,
    dist: Seq<i32>,
    hist: Seq<(usize, usize)>,
    pos: Seq<int>,
    head: int,
) -> bool {
    &&& wave_inv(width, height, x0, y0, dist, hist, pos)
    &&& 0 <= head <= hist.len()
    &&& one_step_ahead(x0, y0, hist, head)
    &&& ring_full(width, height, x0, y0, dist, hist, head)
    &&& done_before(width, height, dist, hist, head)
}

/// Every cell has its index within the data.
proof fn lemma_cells_in_data(width: int, height: int)
    ensures
        forall|x: int, y: int|
            0 <= x < width && 0 <= y < height ==> 0 <= #[trigger] cell_index(width, x, y) < width
                * height,
{
    assert forall|x: int, y: int| 0 <= x < width && 0 <= y < height implies 0
        <= #[trigger] cell_index(width, x, y) < width * height by {
        lemma_cell_index_bound(width, height, x, y);
    }
}

/// No other cell has the index of `(x, y)`.
proof fn lemma_cells_apart(width: int, height: int, x: int, y: int)
    requires
        0 <= x < width,
        0 <= y < height,
    ensures
        forall|a: int, b: int|
            0 <= a < width && 0 <= b < height && !(a == x && b == y) ==> #[trigger] cell_index(
                width,
                a,
                b,
            ) != cell_index(width, x, y),
{
    assert forall|a: int, b: int|
        0 <= a < width && 0 <= b < height && !(a == x && b == y) implies #[trigger] cell_index(
        width,
        a,
        b,
    ) != cell_index(width, x, y) by {
        if cell_index(width, a, b) == cell_index(width, x, y) {
            lemma_cell_index_injective(width, a, b, x, y);
        }
    }
}

/// No cell is labelled twice, so no more cells are labelled than the grid
/// has.
proof fn lemma_wave_bounded(
    width: int,
    height: int,
    x0: int,
    y0: int,
    dist: Seq<i32>,
    hist: Seq<(usize, usize)>,
    pos: Seq<int>,
)
    requires
        wave_inv(width, height, x0, y0, dist, hist, pos),
    ensures
        hist.len() <= width * height,
{
    let ids = Seq::new(hist.len(), |i: int| cell_index(width, hist[i].0 as int, hist[i].1 as int));
    assert forall|i: int, j: int| 0 <= i < j < ids.len() implies ids[i] != ids[j] by {
        assert(pos[cell_index(width, hist[i].0 as int, hist[i].1 as int)] == i);
        assert(pos[cell_index(width, hist[j].0 as int, hist[j].1 as int)] == j);
    }
    assert forall|i: int| 0 <= i < ids.len() implies 0 <= #[trigger] ids[i] < width * height by {
        lemma_cell_index_bound(width, height, hist[i].0 as int, hist[i].1 as int);
    }
    lemma_distinct_bounded(ids, width * height);
}

/// A search begins with the start alone labelled and queued.
proof fn lemma_begin_sweep(
    width: int,
    height: int,
    start: (usize, usize),
    dist: Seq<i32>,
    hist: Seq<(usize, usize)>,
)
    requires
        start.0 < width,
        start.1 < height,
        dist == Seq::new((width * height) as nat, |c: int| -1i32).update(
            cell_index(width, start.0 as int, start.1 as int),
            0i32,
        ),
        hist == seq![start],
    ensures
        sweeping(
            width,
            height,
            start.0 as int,
            start.1 as int,
            dist,
            hist,
            Seq::new((width * height) as nat, |c: int| 0int),
            0,
        ),
{
    reveal(sweeping);
    lemma_cells_in_data(width, height);
    lemma_cells_apart(width, height, start.0 as int, start.1 as int);
}

/// The cell at `head` is a labelled cell of the grid, and no more cells
/// are queued than the grid has.
proof fn lemma_at_cell(
    width: int,
    height: int,
    x0: int,
    y0: int,
    dist: Seq<i32>,
    hist: Seq<(usize, usize)>,
    pos: Seq<int>,
    head: int,
)
    requires
        sweeping(width, height, x0, y0, dist, hist, pos, head),
        head < hist.len(),
    ensures
        hist.len() <= width * height,
        hist[head].0 < width,
        hist[head].1 < height,
        0 <= cell_index(width, hist[head].0 as int, hist[head].1 as int) < width * height,
        dist[cell_index(width, hist[head].0 as int, hist[head].1 as int)] == rank(
            x0,
            y0,
            hist[head],
        ),
{
    reveal(sweeping);
    lemma_wave_bounded(width, height, x0, y0, dist, hist, pos);
    lemma_cells_in_data(width, height);
    let c = hist[head];
    assert(dist[cell_index(width, c.0 as int, c.1 as int)] >= 0);
}

/// A cell of the grid that does not carry `-1` is labelled.
proof fn lemma_labelled_already(
    width: int,
    height: int,
    x0: int,
    y0: int,
    dist: Seq<i32>,
    hist: Seq<(usize, usize)>,
    pos: Seq<int>,
    head: int,
    x: int,
    y: int,
)
    requires
        sweeping(width, height, x0, y0, dist, hist, pos, head),
        0 <= x < width,
        0 <= y < height,
        dist[cell_index(width, x, y)] != -1,
    ensures
        dist[cell_index(width, x, y)] >= 0,
{
    reveal(sweeping);
}

/// Where `later` labels every cell that `dist` labels, a neighbour that
/// was labelled is labelled still.
proof fn lemma_labels_kept(width: int, height: int, dist: Seq<i32>, later: Seq<i32>)
    requires
        dist.len() == width * height,
        later.len() == width * height,
        forall|c: int| 0 <= c < dist.len() && dist[c] >= 0 ==> #[trigger] later[c] >= 0,
    ensures
        forall|x: int, y: int, k: int|
            0 <= k < 4 && step_done(width, height, dist, x, y, k) ==> #[trigger] step_done(
                width,
                height,
                later,
                x,
                y,
                k,
            ),
        forall|x: int, y: int|
            closed_at(width, height, dist, x, y) ==> #[trigger] closed_at(width, height, later, x, y),
{
    lemma_cells_in_data(width, height);
    assert forall|x: int, y: int, k: int|
        0 <= k < 4 && step_done(width, height, dist, x, y, k) implies #[trigger] step_done(
        width,
        height,
        later,
        x,
        y,
        k,
    ) by {
        let nx = x + offset(k).0;
        let ny = y + offset(k).1;
        if 0 <= nx < width && 0 <= ny < height {
            assert(0 <= cell_index(width, nx, ny) < width * height);
        }
    }
    assert forall|x: int, y: int| closed_at(width, height, dist, x, y) implies #[trigger] closed_at(
        width,
        height,
        later,
        x,
        y,
    ) by {
        assert forall|k: int| 0 <= k < 4 implies #[trigger] step_done(
            width,
            height,
            later,
            x,
            y,
            k,
        ) by {
            assert(step_done(width, height, dist, x, y, k));
        }
    }
}

/// Labelling the unlabelled `k`-th neighbour of the cell at `head` one
/// step farther out than that cell, and queueing it, keeps what holds of
/// the search.
proof fn lemma_label_step(
    width: int,
    height: int,
    x0: int,
    y0: int,
    dist: Seq<i32>,
    hist: Seq<(usize, usize)>,
    pos: Seq<int>,
    head: int,
    k: int,
    next: (usize, usize),
)
    requires
        sweeping(width, height, x0, y0, dist, hist, pos, head),
        0 <= head < hist.len(),
        0 <= k < 4,
        next.0 == hist[head].0 + offset(k).0,
        next.1 == hist[head].1 + offset(k).1,
        next.0 < width,
        next.1 < height,
        dist[cell_index(width, next.0 as int, next.1 as int)] == -1,
        width + height - 2 <= i32::MAX,
    ensures
        rank(x0, y0, next) == rank(x0, y0, hist[head]) + 1,
        rank(x0, y0, next) <= i32::MAX,
        ({
            let c = cell_index(width, next.0 as int, next.1 as int);
            let later = dist.update(c, rank(x0, y0, next) as i32);
            &&& 0 <= c < width * height
            &&& sweeping(
                width,
                height,
                x0,
                y0,
                later,
                hist.push(next),
                pos.update(c, hist.len() as int),
                head,
            )
            &&& forall|x: int, y: int, k2: int|
                0 <= k2 < 4 && step_done(width, height, dist, x, y, k2) ==> #[trigger] step_done(
                    width,
                    height,
                    later,
                    x,
                    y,
                    k2,
                )
        }),
{
    reveal(sweeping);
    let c = cell_index(width, next.0 as int, next.1 as int);
    let d = rank(x0, y0, hist[head]);
    lemma_cells_in_data(width, height);
    lemma_cells_apart(width, height, next.0 as int, next.1 as int);
    assert(hist[head].0 < width && hist[head].1 < height);
    assert(rank(x0, y0, next) == d + 1) by {
        if taxicab(x0, y0, next.0 as int, next.1 as int) <= d {
            assert(dist[cell_index(width, next.0 as int, next.1 as int)] >= 0);
        }
    }
    let later = dist.update(c, rank(x0, y0, next) as i32);
    let queued = hist.push(next);
    let placed = pos.update(c, hist.len() as int);
    assert(forall|i: int| 0 <= i < hist.len() ==> queued[i] == hist[i]);
    assert forall|i: int| 0 <= i < queued.len() implies {
        let e = #[trigger] queued[i];
        &&& e.0 < width && e.1 < height
        &&& later[cell_index(width, e.0 as int, e.1 as int)] >= 0
        &&& placed[cell_index(width, e.0 as int, e.1 as int)] == i
    } by {
        if i < hist.len() {
            let e = hist[i];
            assert(dist[cell_index(width, e.0 as int, e.1 as int)] >= 0);
        }
    }
    assert forall|x: int, y: int| 0 <= x < width && 0 <= y < height implies {
        let e = cell_index(width, x, y);
        let v = #[trigger] later[cell_index(width, x, y)];
        v == -1 || (v == taxicab(x0, y0, x, y) && 0 <= placed[e] < queued.len() && queued[placed[e]].0
            == x && queued[placed[e]].1 == y)
    } by {
        if !(x == next.0 && y == next.1) {
            assert(later[cell_index(width, x, y)] == dist[cell_index(width, x, y)]);
        }
    }
    assert forall|i: int, j: int| 0 <= i <= j < queued.len() implies rank(
        x0,
        y0,
        #[trigger] queued[i],
    ) <= rank(x0, y0, #[trigger] queued[j]) by {
        if j < hist.len() {
            assert(rank(x0, y0, hist[i]) <= rank(x0, y0, hist[j]));
        } else if i < hist.len() {
            assert(rank(x0, y0, hist[i]) <= d + 1);
        }
    }
    assert(wave_inv(width, height, x0, y0, later, queued, placed));
    assert forall|j: int| 0 <= j < queued.len() implies rank(x0, y0, #[trigger] queued[j]) <= rank(
        x0,
        y0,
        queued[head],
    ) + 1 by {
        if j < hist.len() {
            assert(rank(x0, y0, hist[j]) <= d + 1);
        }
    }
    assert forall|x: int, y: int|
        0 <= x < width && 0 <= y < height && taxicab(x0, y0, x, y) <= rank(
            x0,
            y0,
            queued[head],
        ) implies #[trigger] later[cell_index(width, x, y)] >= 0 by {
        assert(dist[cell_index(width, x, y)] >= 0);
    }
    lemma_labels_kept(width, height, dist, later);
    assert forall|i: int| 0 <= i < head implies closed_at(
        width,
        height,
        later,
        (#[trigger] queued[i]).0 as int,
        queued[i].1 as int,
    ) by {
        assert(closed_at(width, height, dist, hist[i].0 as int, hist[i].1 as int));
    }
}

/// With the neighbours of the cell at `head` all labelled, the search
/// may go on to the next cell in the queue.
proof fn lemma_advance(
    width: int,
    height: int,
    x0: int,
    y0: int,
    dist: Seq<i32>,
    hist: Seq<(usize, usize)>,
    pos: Seq<int>,
    head: int,
)
    requires
        sweeping(width, height, x0, y0, dist, hist, pos, head),
        0 <= head < hist.len(),
        closed_at(width, height, dist, hist[head].0 as int, hist[head].1 as int),
    ensures
        sweeping(width, height, x0, y0, dist, hist, pos, head + 1),
{
    reveal(sweeping);
    assert(done_before(width, height, dist, hist, head + 1));
    if head + 1 < hist.len() {
        let d = rank(x0, y0, hist[head]);
        assert(rank(x0, y0, hist[head]) <= rank(x0, y0, hist[head + 1]));
        assert(rank(x0, y0, hist[head + 1]) <= d + 1);
        assert forall|j: int| 0 <= j < hist.len() implies rank(x0, y0, #[trigger] hist[j]) <= rank(
            x0,
            y0,
            hist[head + 1],
        ) + 1 by {
            assert(rank(x0, y0, hist[j]) <= d + 1);
        }
        assert forall|x: int, y: int|
            0 <= x < width && 0 <= y < height && taxicab(x0, y0, x, y) <= rank(
                x0,
                y0,
                hist[head + 1],
            ) implies #[trigger] dist[cell_index(width, x, y)] >= 0 by {
            if taxicab(x0, y0, x, y) > d {
                let k: int = if x > x0 {
                    0
                } else if x < x0 {
                    1
                } else if y > y0 {
                    2
                } else {
                    3
                };
                let px = x - offset(k).0;
                let py = y - offset(k).1;
                let c = cell_index(width, px, py);
                assert(taxicab(x0, y0, px, py) == d);
                assert(dist[c] >= 0);
                let i = pos[c];
                assert(hist[i].0 == px && hist[i].1 == py);
                assert(rank(x0, y0, hist[i]) == d);
                if i > head {
                    assert(rank(x0, y0, hist[head + 1]) <= rank(x0, y0, hist[i]));
                }
                assert(closed_at(width, height, dist, hist[i].0 as int, hist[i].1 as int));
                assert(step_done(width, height, dist, px, py, k));
            }
        }
    }
}

/// Once every labelled cell has had its neighbours labelled, every cell
/// is labelled.
proof fn lemma_all_labelled(
    width: int,
    height: int,
    x0: int,
    y0: int,
    dist: Seq<i32>,
    hist: Seq<(usize, usize)>,
    pos: Seq<int>,
    x: int,
    y: int,
)
    requires
        wave_inv(width, height, x0, y0, dist, hist, pos),
        done_before(width, height, dist, hist, hist.len() as int),
        0 <= x < width,
        0 <= y < height,
    ensures
        dist[cell_index(width, x, y)] >= 0,
    decreases taxicab(x0, y0, x, y),
{
    if x == x0 && y == y0 {
        assert(hist[0].0 == x0 && hist[0].1 == y0);
    } else {
        let k: int = if x > x0 {
            0
        } else if x < x0 {
            1
        } else if y > y0 {
            2
        } else {
            3
        };
        let px = x - offset(k).0;
        let py = y - offset(k).1;
        lemma_all_labelled(width, height, x0, y0, dist, hist, pos, px, py);
        let c = cell_index(width, px, py);
        assert(dist[c] >= 0);
        assert(hist[pos[c]].0 == px && hist[pos[c]].1 == py);
        assert(closed_at(width, height, dist, px, py));
        assert(step_done(width, height, dist, px, py, k));
    }
}

/// Once every labelled cell has had its neighbours labelled, the labels
/// are the distances.
proof fn lemma_swept(
    width: int,
    height: int,
    x0: int,
    y0: int,
    dist: Seq<i32>,
    hist: Seq<(usize, usize)>,
    pos: Seq<int>,
)
    requires
        sweeping(width, height, x0, y0, dist, hist, pos, hist.len() as int),
    ensures
        is_grid_distances(width, height, x0, y0, dist),
{
    reveal(sweeping);
    assert forall|x: int, y: int| 0 <= x < width && 0 <= y < height implies #[trigger] dist[cell_index(
        width,
        x,
        y,
    )] == taxicab(x0, y0, x, y) by {
        lemma_all_labelled(width, height, x0, y0, dist, hist, pos, x, y);
    }
}

} // verus!
