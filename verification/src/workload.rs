use crate::grid::Grid;
use vstd::prelude::*;

verus! {

/// In a chain with shortcuts, a shortcut leaves every node whose id is a
/// multiple of this.
pub const SHORTCUT_EVERY: usize = 1000;

/// In a chain with shortcuts, a shortcut joins two nodes this far apart.
pub const SHORTCUT_SPAN: usize = 100;

/// The one entry `x` where `present`, and none otherwise.
pub open spec fn entry_if(present: bool, x: int) -> Seq<i32> {
    if present {
        seq![x as i32]
    } else {
        Seq::empty()
    }
}

/// The adjacency list of node `v` in a chain of `n` nodes with shortcuts,
/// once the nodes before `done` have been joined to what follows them: the
/// shortcut back, the node before, the node after, the shortcut forward.
pub open spec fn chain_row_after(n: int, v: int, done: int) -> Seq<i32> {
    entry_if(
        v >= SHORTCUT_SPAN && (v - SHORTCUT_SPAN) % (SHORTCUT_EVERY as int) == 0 && v
            - SHORTCUT_SPAN < done,
        v - SHORTCUT_SPAN,
    ) + entry_if(v >= 1 && v - 1 < done, v - 1) + entry_if(v < done, v + 1) + entry_if(
        v < done && v % (SHORTCUT_EVERY as int) == 0 && v + SHORTCUT_SPAN < n,
        v + SHORTCUT_SPAN,
    )
}

/// The adjacency list of node `v` in a chain of `n` nodes with shortcuts.
pub open spec fn chain_row(n: int, v: int) -> Seq<i32> {
    entry_if(
        v >= SHORTCUT_SPAN && (v - SHORTCUT_SPAN) % (SHORTCUT_EVERY as int) == 0,
        v - SHORTCUT_SPAN,
    ) + entry_if(v >= 1, v - 1) + entry_if(v + 1 < n, v + 1) + entry_if(
        v % (SHORTCUT_EVERY as int) == 0 && v + SHORTCUT_SPAN < n,
        v + SHORTCUT_SPAN,
    )
}

/// A sparse graph of `n` nodes for measuring searches: the chain
/// `0 - 1 - ... - n-1`, and from every `SHORTCUT_EVERY`-th node an edge to
/// the node `SHORTCUT_SPAN` after it, each edge listed at both its ends.
/// `None` if the node ids would not fit in an `i32`.
pub fn chain_graph(n: usize) -> (r: Option<Vec<Vec<i32>>>)
    ensures
        r is Some <==> n <= i32::MAX,
        r is Some ==> r->Some_0@.len() == n && forall|v: int|
            0 <= v < n ==> (#[trigger] r->Some_0@[v])@ == chain_row(n as int, v),
{
    if n > i32::MAX as usize {
        return None;
    }
    let mut adj: Vec<Vec<i32>> = Vec::with_capacity(n);
    for v in 0..n
        invariant
            adj@.len() == v,
            forall|k: int| 0 <= k < v ==> (#[trigger] adj@[k])@ == Seq::<i32>::empty(),
    {
        adj.push(Vec::new());
    }
    assert forall|v: int| 0 <= v < n implies (#[trigger] adj@[v])@ == chain_row_after(
        n as int,
        v,
        0,
    ) by {
        assert(chain_row_after(n as int, v, 0) =~= Seq::<i32>::empty());
    }
    let mut i: usize = 0;
    while i + 1 < n
        invariant
            n <= i32::MAX,
            adj@.len() == n,
            i < n || i == 0,
            forall|v: int|
                0 <= v < n ==> (#[trigger] adj@[v])@ == chain_row_after(n as int, v, i as int),
        decreases n - i,
    {
        let ghost before = adj@;
        adj[i].push((i + 1) as i32);
        adj[i + 1].push(i as i32);
        if i % SHORTCUT_EVERY == 0 && i + SHORTCUT_SPAN < n {
            adj[i].push((i + SHORTCUT_SPAN) as i32);
            adj[i + SHORTCUT_SPAN].push(i as i32);
        }
        assert forall|v: int| 0 <= v < n implies (#[trigger] adj@[v])@ == chain_row_after(
            n as int,
            v,
            i + 1,
        ) by {
            assert(before[v]@ == chain_row_after(n as int, v, i as int));
            assert(adj@[v]@ =~= chain_row_after(n as int, v, i + 1));
        }
        i += 1;
    }
    assert forall|v: int| 0 <= v < n implies (#[trigger] adj@[v])@ == chain_row(n as int, v) by {
        assert(chain_row_after(n as int, v, i as int) =~= chain_row(n as int, v));
    }
    Some(adj)
}

/// The start nodes `0, stride, 2 * stride, ...`, `count` of them. `None`
/// if the last of them would not fit in an `i32`.
pub fn strided_starts(count: usize, stride: usize) -> (r: Option<Vec<i32>>)
    ensures
        r is Some <==> count == 0 || (count - 1) * stride <= i32::MAX,
        r is Some ==> r->Some_0@.len() == count && forall|k: int|
            0 <= k < count ==> #[trigger] r->Some_0@[k] == k * stride,
{
    let mut starts: Vec<i32> = Vec::with_capacity(count);
    for k in 0..count
        invariant
            starts@.len() == k,
            forall|j: int| 0 <= j < k ==> #[trigger] starts@[j] == j * stride,
            k > 0 ==> (k - 1) * stride <= i32::MAX,
    {
        let at = match k.checked_mul(stride) {
            Some(at) => at,
            None => {
                proof {
                    lemma_product_grows(k as int, count - 1, stride as int);
                }
                return None;
            },
        };
        if at > i32::MAX as usize {
            proof {
                lemma_product_grows(k as int, count - 1, stride as int);
            }
            return None;
        }
        starts.push(at as i32);
    }
    Some(starts)
}

/// A product grows with its first factor.
proof fn lemma_product_grows(a: int, b: int, c: int)
    requires
        0 <= a <= b,
        0 <= c,
    ensures
        a * c <= b * c,
{
    assert(a * c <= b * c) by (nonlinear_arith)
        requires
            0 <= a <= b,
            0 <= c,
    ;
}

/// The start cells `(0, 0), (1, 1), ...`, `count` of them.
pub fn diagonal_starts(count: usize) -> (starts: Vec<(usize, usize)>)
    ensures
        starts@.len() == count,
        forall|k: int| 0 <= k < count ==> #[trigger] starts@[k] == (k as usize, k as usize),
{
    let mut starts: Vec<(usize, usize)> = Vec::with_capacity(count);
    for k in 0..count
        invariant
            starts@.len() == k,
            forall|j: int| 0 <= j < k ==> #[trigger] starts@[j] == (j as usize, j as usize),
    {
        starts.push((k, k));
    }
    starts
}

/// A grid of the given shape with 0 in every cell. `None` if the number of
/// its cells does not fit in a `usize`.
pub fn open_grid(width: usize, height: usize) -> (r: Option<Grid<i32>>)
    ensures
        r is Some <==> width * height <= usize::MAX,
        r is Some ==> {
            let grid = r->Some_0;
            &&& grid.wf()
            &&& grid.width == width
            &&& grid.height == height
            &&& forall|c: int| 0 <= c < width * height ==> #[trigger] grid.data@[c] == 0
        },
{
    match width.checked_mul(height) {
        Some(cells) => Some(Grid { data: vec![0; cells], width, height }),
        None => None,
    }
}

} // verus!
