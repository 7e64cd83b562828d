use crate::counting::lemma_distinct_bounded;
use crate::error::BfsError;
use crate::graph::Graph;
use vstd::prelude::*;

verus! {

/// The graph that adjacency lists stand for: node `u` has an arc to every
/// node that `adj[u]` names.
pub open spec fn adj_graph(adj: Seq<Vec<i32>>) -> Graph {
    Graph {
        size: adj.len(),
        arcs: Set::new(
            |a: (int, int)|
                0 <= a.0 < adj.len() && exists|j: int|
                    0 <= j < adj[a.0]@.len() && #[trigger] adj[a.0]@[j] == a.1,
        ),
    }
}

/// Every adjacency list names nodes of the graph only.
pub open spec fn neighbors_in_range(adj: Seq<Vec<i32>>) -> bool {
    forall|u: int, j: int|
        0 <= u < adj.len() && 0 <= j < adj[u]@.len() ==> 0 <= #[trigger] adj[u]@[j] < adj.len()
}

/// The error that a search on `adj` from `start` ends with, if any.
pub open spec fn bfs_error(adj: Seq<Vec<i32>>, start: i32) -> Option<BfsError> {
    if !(0 <= start < adj.len()) {
        Some(BfsError::OutOfRange)
    } else if !neighbors_in_range(adj) {
        Some(BfsError::MalformedGraph)
    } else {
        None
    }
}

/// `dist` holds, for every node of `adj`, its hop distance from `start`.
pub open spec fn is_distances(adj: Seq<Vec<i32>>, start: i32, dist: Seq<i32>) -> bool {
    &&& dist.len() == adj.len()
    &&& forall|v: int|
        0 <= v < adj.len() ==> adj_graph(adj).is_hop_distance(
            start as int,
            v,
            #[trigger] dist[v] as int,
        )
}

/// What a search on `adj` from `start` returns.
pub open spec fn bfs_outcome(adj: Seq<Vec<i32>>, start: i32, r: Result<Vec<i32>, BfsError>) -> bool {
    match bfs_error(adj, start) {
        Some(e) => r == Err::<Vec<i32>, BfsError>(e),
        None => r is Ok && is_distances(adj, start, r->Ok_0@),
    }
}

/// Whether every adjacency list names nodes of the graph only.
pub fn neighbors_valid(adj: &[Vec<i32>]) -> (ok: bool)
    ensures
        ok == neighbors_in_range(adj@),
{
    let n = adj.len();
    for u in 0..n
        invariant
            n == adj@.len(),
            forall|a: int, j: int|
                0 <= a < u && 0 <= j < adj@[a]@.len() ==> 0 <= #[trigger] adj@[a]@[j] < n,
    {
        let row = &adj[u];
        for j in 0..row.len()
            invariant
                n == adj@.len(),
                0 <= u < n,
                row == adj@[u as int],
                forall|a: int, b: int|
                    0 <= a < u && 0 <= b < adj@[a]@.len() ==> 0 <= #[trigger] adj@[a]@[b] < n,
                forall|b: int| 0 <= b < j ==> 0 <= #[trigger] row@[b] < n,
        {
            let v = row[j];
            if v < 0 || v as usize >= n {
                return false;
            }
        }
    }
    true
}

/// Breadth-first search on adjacency lists from a single start: for every
/// node its hop distance from `start`, `-1` where it is not reached.
///
/// Fails with `OutOfRange` if `start` is no node of the graph, and otherwise
/// with `MalformedGraph` if any adjacency list names a node outside it.
pub fn bfs(adj: &[Vec<i32>], start: i32) -> (r: Result<Vec<i32>, BfsError>)
    ensures
        bfs_outcome(adj@, start, r),
        r is Ok ==> r->Ok_0@[start as int] == 0,
{
    if start < 0 || start as usize >= adj.len() {
        return Err(BfsError::OutOfRange);
    }
    if !neighbors_valid(adj) {
        return Err(BfsError::MalformedGraph);
    }
    let dist = traverse(adj, start);
    proof {
        adj_graph(adj@).lemma_start_distance(start as int, dist@[start as int] as int);
    }
    Ok(dist)
}

/// The distance vector of `start` on a graph that holds it and whose
/// adjacency lists name nodes of the graph only.
pub(crate) fn traverse(adj: &[Vec<i32>], start: i32) -> (dist: Vec<i32>)
    requires
        bfs_error(adj@, start) is None,
    ensures
        is_distances(adj@, start, dist@),
{
    let n = adj.len();
    let mut dist: Vec<i32> = vec![-1; n];
    let mut q: Vec<i32> = Vec::with_capacity(n);
    dist[start as usize] = 0;
    q.push(start);
    let ghost mut pos: Seq<int> = Seq::new(n as nat, |v: int| 0int);
    let ghost mut par: Seq<int> = Seq::new(n as nat, |v: int| 0int);
    proof {
        assert(dist@ =~= Seq::new(n as nat, |v: int| -1i32).update(start as int, 0i32));
        assert(q@ =~= seq![start]);
        lemma_begin(adj@, start, dist@, q@);
    }

    let mut head: usize = 0;
    while head < q.len()
        invariant
            n == adj@.len(),
            dist@.len() == n,
            pos.len() == n,
            par.len() == n,
            neighbors_in_range(adj@),
            searching(adj@, start, dist@, q@, pos, par, head as int),
            head <= q@.len(),
        decreases n - head,
    {
        proof {
            lemma_at_head(adj@, start, dist@, q@, pos, par, head as int);
        }
        let u = q[head];
        let d = dist[u as usize];
        let row = &adj[u as usize];
        for j in 0..row.len()
            invariant
                n == adj@.len(),
                dist@.len() == n,
                pos.len() == n,
                par.len() == n,
                neighbors_in_range(adj@),
                searching(adj@, start, dist@, q@, pos, par, head as int),
                head < q@.len(),
                0 <= u < n,
                u == q@[head as int],
                0 <= d == dist@[u as int],
                row == adj@[u as int],
                explored(adj@, dist@, u as int, j as int),
        {
            let v = row[j];
            if dist[v as usize] == -1 {
                proof {
                    lemma_label_neighbor(adj@, start, dist@, q@, pos, par, head as int, j as int);
                    pos = pos.update(v as int, q@.len() as int);
                    par = par.update(v as int, u as int);
                }
                dist[v as usize] = d + 1;
                q.push(v);
            } else {
                proof {
                    lemma_skip_neighbor(adj@, start, dist@, q@, pos, par, head as int, j as int);
                }
            }
        }
        proof {
            lemma_next_node(adj@, start, dist@, q@, pos, par, head as int);
        }
        head += 1;
    }
    proof {
        lemma_finished(adj@, start, dist@, q@, pos, par);
    }
    dist
}

/// The start of a search is at distance 0 from itself.
pub proof fn lemma_start_at_zero(adj: Seq<Vec<i32>>, start: i32, dist: Seq<i32>)
    requires
        0 <= start < adj.len(),
        is_distances(adj, start, dist),
    ensures
        dist[start as int] == 0,
{
    adj_graph(adj).lemma_start_distance(start as int, dist[start as int] as int);
}

/// A node carries `-1` where no walk leads to it from the start, and
/// nowhere else; every other entry of a distance vector is the length of a
/// shortest walk.
pub proof fn lemma_minus_one_iff_unreached(adj: Seq<Vec<i32>>, start: i32, dist: Seq<i32>, v: int)
    requires
        is_distances(adj, start, dist),
        0 <= v < adj.len(),
    ensures
        dist[v] >= -1,
        dist[v] == -1 <==> !adj_graph(adj).reachable(start as int, v),
        dist[v] >= 0 ==> adj_graph(adj).reach_in(start as int, v, dist[v] as nat),
        forall|k: nat| adj_graph(adj).reach_in(start as int, v, k) ==> dist[v] <= k,
{
    let g = adj_graph(adj);
    assert(g.is_hop_distance(start as int, v, dist[v] as int));
    if dist[v] >= 0 {
        assert(g.reachable(start as int, v));
    }
}

/// Along every arc out of a reached node the distance grows by at most
/// one, and the arc leads to a reached node.
pub proof fn lemma_distances_layered(
    adj: Seq<Vec<i32>>,
    start: i32,
    dist: Seq<i32>,
    u: int,
    j: int,
)
    requires
        is_distances(adj, start, dist),
        0 <= u < adj.len(),
        0 <= j < adj[u]@.len(),
        0 <= adj[u]@[j] < adj.len(),
        dist[u] >= 0,
    ensures
        0 <= dist[adj[u]@[j] as int] <= dist[u] + 1,
{
    let g = adj_graph(adj);
    let w = adj[u]@[j] as int;
    lemma_listed_is_arc(adj, u, j);
    assert(g.is_hop_distance(start as int, u, dist[u] as int));
    assert(g.is_hop_distance(start as int, w, dist[w] as int));
    g.lemma_arc_layering(start as int, u, w, dist[u] as int, dist[w] as int);
}

/// Two nodes that name each other in their adjacency lists are both
/// reached or both not, and if reached their distances differ by at most
/// one.
pub proof fn lemma_neighbors_one_apart(
    adj: Seq<Vec<i32>>,
    start: i32,
    dist: Seq<i32>,
    u: int,
    w: int,
)
    requires
        is_distances(adj, start, dist),
        0 <= u < adj.len(),
        0 <= w < adj.len(),
        exists|j: int| 0 <= j < adj[u]@.len() && #[trigger] adj[u]@[j] == w,
        exists|j: int| 0 <= j < adj[w]@.len() && #[trigger] adj[w]@[j] == u,
    ensures
        dist[u] == -1 <==> dist[w] == -1,
        -1 <= dist[u] - dist[w] <= 1,
{
    let ju = choose|j: int| 0 <= j < adj[u]@.len() && #[trigger] adj[u]@[j] == w;
    let jw = choose|j: int| 0 <= j < adj[w]@.len() && #[trigger] adj[w]@[j] == u;
    lemma_minus_one_iff_unreached(adj, start, dist, u);
    lemma_minus_one_iff_unreached(adj, start, dist, w);
    if dist[u] >= 0 {
        lemma_distances_layered(adj, start, dist, u, ju);
    }
    if dist[w] >= 0 {
        lemma_distances_layered(adj, start, dist, w, jw);
    }
}

/// A graph and a start have one distance vector.
pub proof fn lemma_distances_unique(adj: Seq<Vec<i32>>, start: i32, d1: Seq<i32>, d2: Seq<i32>)
    requires
        is_distances(adj, start, d1),
        is_distances(adj, start, d2),
    ensures
        d1 == d2,
{
    assert forall|v: int| 0 <= v < d1.len() implies d1[v] == d2[v] by {
        adj_graph(adj).lemma_hop_distance_unique(start as int, v, d1[v] as int, d2[v] as int);
    }
    assert(d1 =~= d2);
}

/// Searching twice from one start on one graph gives the same twice: the
/// same error, or distance vectors that are equal entry by entry.
pub proof fn lemma_bfs_deterministic(
    adj: Seq<Vec<i32>>,
    start: i32,
    r1: Result<Vec<i32>, BfsError>,
    r2: Result<Vec<i32>, BfsError>,
)
    requires
        bfs_outcome(adj, start, r1),
        bfs_outcome(adj, start, r2),
    ensures
        r1 is Ok <==> r2 is Ok,
        r1 is Err ==> r1->Err_0 == r2->Err_0,
        r1 is Ok ==> r1->Ok_0@ == r2->Ok_0@,
{
    if r1 is Ok {
        lemma_distances_unique(adj, start, r1->Ok_0@, r2->Ok_0@);
    }
}

/// Every node that an adjacency list names is at the end of an arc.
proof fn lemma_listed_is_arc(adj: Seq<Vec<i32>>, u: int, j: int)
    requires
        0 <= u < adj.len(),
        0 <= j < adj[u]@.len(),
        0 <= adj[u]@[j] < adj.len(),
    ensures
        adj_graph(adj).has_arc(u, adj[u]@[j] as int),
{
    let w = adj[u]@[j] as int;
    assert(0 <= j < adj[u]@.len() && adj[u]@[j] == w);
    assert(adj_graph(adj).arcs.contains((u, w)));
}

/// `adj[u]`'s first `upto` entries are labelled, none more than one layer
/// after `u`.
#[verifier::opaque]
spec fn explored(adj: Seq<Vec<i32>>, dist: Seq<i32>, u: int, upto: int) -> bool {
    forall|j: int|
        0 <= j < upto ==> 0 <= dist[#[trigger] adj[u]@[j] as int] <= dist[u] + 1
}

/// What holds of the labels and of the queue `q` of all nodes labelled so
/// far, in the order in which they were labelled. `pos` gives each labelled
/// node's place in `q`, and `par` the node from which it was labelled.
spec fn queue_inv(
    adj: Seq<Vec<i32>>,
    start: i32,
    dist: Seq<i32>,
    q: Seq<i32>,
    pos: Seq<int>,
    par: Seq<int>,
) -> bool {
    let n = adj.len();
    &&& dist.len() == n && pos.len() == n && par.len() == n
    &&& 0 <= start < n
    &&& q.len() >= 1 && q[0] == start && dist[start as int] == 0
    &&& forall|i: int|
        0 <= i < q.len() ==> 0 <= #[trigger] q[i] < n && 0 <= dist[q[i] as int] <= i && pos[q[i] as int]
            == i
    &&& forall|v: int| 0 <= v < n ==> #[trigger] dist[v] >= -1
    &&& forall|v: int|
        0 <= v < n && #[trigger] dist[v] >= 0 ==> 0 <= pos[v] < q.len() && q[pos[v]] == v
    &&& forall|v: int| 0 <= v < n && #[trigger] dist[v] == 0 ==> v == start
    &&& forall|v: int|
        0 <= v < n && #[trigger] dist[v] > 0 ==> adj_graph(adj).has_arc(par[v], v) && dist[par[v]]
            == dist[v] - 1
    &&& forall|i: int, j: int|
        0 <= i <= j < q.len() ==> dist[#[trigger] q[i] as int] <= dist[#[trigger] q[j] as int]
}

/// No labelled node lies more than one layer after the node at `head`.
spec fn one_layer_ahead(dist: Seq<i32>, q: Seq<i32>, head: int) -> bool {
    head < q.len() ==> forall|j: int|
        0 <= j < q.len() ==> dist[#[trigger] q[j] as int] <= dist[q[head] as int] + 1
}

/// The nodes before `head` have had all their neighbours labelled.
spec fn done_before(adj: Seq<Vec<i32>>, dist: Seq<i32>, q: Seq<i32>, head: int) -> bool {
    forall|i: int|
        0 <= i < head ==> explored(adj, dist, #[trigger] q[i] as int, adj[q[i] as int]@.len() as int)
}

/// The state of a search that has dealt with the first `head` nodes of
/// its queue.
#[verifier::opaque]
spec fn searching(
    adj: Seq<Vec<i32>>,
    start: i32,
    dist: Seq<i32>,
    q: Seq<i32>,
    pos: Seq<int>,
    par: Seq<int>,
    head: int,
) -> bool {
    &&& queue_inv(adj, start, dist, q, pos, par)
    &&& 0 <= head <= q.len()
    &&& one_layer_ahead(dist, q, head)
    &&& done_before(adj, dist, q, head)
}

/// A search begins with the start alone labelled and queued.
proof fn lemma_begin(adj: Seq<Vec<i32>>, start: i32, dist: Seq<i32>, q: Seq<i32>)
    requires
        0 <= start < adj.len(),
        dist == Seq::new(adj.len(), |v: int| -1i32).update(start as int, 0i32),
        q == seq![start],
    ensures
        searching(
            adj,
            start,
            dist,
            q,
            Seq::new(adj.len(), |v: int| 0int),
            Seq::new(adj.len(), |v: int| 0int),
            0,
        ),
{
    reveal(searching);
}

/// The node at `head` is a labelled node of the graph, and the queue is
/// no longer than the graph is large.
proof fn lemma_at_head(
    adj: Seq<Vec<i32>>,
    start: i32,
    dist: Seq<i32>,
    q: Seq<i32>,
    pos: Seq<int>,
    par: Seq<int>,
    head: int,
)
    requires
        searching(adj, start, dist, q, pos, par, head),
        head < q.len(),
    ensures
        q.len() <= adj.len(),
        dist.len() == adj.len(),
        0 <= q[head] < adj.len(),
        dist[q[head] as int] >= 0,
        explored(adj, dist, q[head] as int, 0),
{
    reveal(searching);
    reveal(explored);
    let ids = Seq::new(q.len(), |i: int| q[i] as int);
    assert forall|i: int, j: int| 0 <= i < j < ids.len() implies ids[i] != ids[j] by {
        assert(pos[q[i] as int] == i);
        assert(pos[q[j] as int] == j);
    }
    assert forall|i: int| 0 <= i < ids.len() implies 0 <= #[trigger] ids[i] < adj.len() by {
        assert(0 <= q[i] < adj.len());
    }
    lemma_distinct_bounded(ids, adj.len() as int);
    assert(0 <= q[head] < adj.len());
}

/// Labelling the unlabelled `j`-th neighbour of the node at `head` one
/// layer after that node, and queueing it, keeps what holds of the search.
proof fn lemma_label_neighbor(
    adj: Seq<Vec<i32>>,
    start: i32,
    dist: Seq<i32>,
    q: Seq<i32>,
    pos: Seq<int>,
    par: Seq<int>,
    head: int,
    j: int,
)
    requires
        neighbors_in_range(adj),
        searching(adj, start, dist, q, pos, par, head),
        0 <= head < q.len(),
        0 <= j < adj[q[head] as int]@.len(),
        explored(adj, dist, q[head] as int, j),
        dist[adj[q[head] as int]@[j] as int] == -1,
    ensures
        dist[q[head] as int] + 1 <= i32::MAX,
        ({
            let u = q[head];
            let v = adj[u as int]@[j];
            let later = dist.update(v as int, (dist[u as int] + 1) as i32);
            &&& searching(
                adj,
                start,
                later,
                q.push(v),
                pos.update(v as int, q.len() as int),
                par.update(v as int, u as int),
                head,
            )
            &&& explored(adj, later, u as int, j + 1)
        }),
{
    reveal(searching);
    let n = adj.len();
    let u = q[head];
    let v = adj[u as int]@[j];
    let d = dist[u as int];
    assert(0 <= u < n && 0 <= d <= head);
    assert(0 <= v < n);
    let queued = q.push(v);
    assert forall|i: int| 0 <= i < q.len() implies #[trigger] q[i] != v by {
        assert(dist[q[i] as int] >= 0);
    }
    // The queue with `v` holds no node twice, so it is no longer than
    // there are `i32` node ids.
    let ids = Seq::new(queued.len(), |i: int| queued[i] as int);
    assert forall|a: int, b: int| 0 <= a < b < ids.len() implies ids[a] != ids[b] by {
        assert(pos[q[a] as int] == a);
        if b < q.len() {
            assert(pos[q[b] as int] == b);
        } else {
            assert(q[a] != v);
        }
    }
    assert forall|a: int| 0 <= a < ids.len() implies 0 <= #[trigger] ids[a] < 0x8000_0000 by {
        if a < q.len() {
            assert(0 <= q[a] < n);
        }
    }
    lemma_distinct_bounded(ids, 0x8000_0000);
    assert(d + 1 <= i32::MAX);

    let later = dist.update(v as int, (d + 1) as i32);
    let placed = pos.update(v as int, q.len() as int);
    let traced = par.update(v as int, u as int);
    lemma_listed_is_arc(adj, u as int, j);
    assert(forall|i: int| 0 <= i < q.len() ==> queued[i] == q[i]);
    assert forall|i: int| 0 <= i < queued.len() implies 0 <= #[trigger] queued[i] < n && 0
        <= later[queued[i] as int] <= i && placed[queued[i] as int] == i by {
        if i < q.len() {
            assert(q[i] != v);
            assert(0 <= dist[q[i] as int] <= i);
        }
    }
    assert forall|w: int| 0 <= w < n && #[trigger] later[w] >= 0 implies 0 <= placed[w]
        < queued.len() && queued[placed[w]] == w by {
        if w != v {
            assert(dist[w] >= 0);
        }
    }
    assert forall|w: int| 0 <= w < n && #[trigger] later[w] > 0 implies adj_graph(adj).has_arc(
        traced[w],
        w,
    ) && later[traced[w]] == later[w] - 1 by {
        if w != v {
            assert(dist[w] > 0);
            assert(dist[par[w]] == dist[w] - 1);
        }
    }
    assert forall|a: int, b: int| 0 <= a <= b < queued.len() implies later[#[trigger] queued[a] as int]
        <= later[#[trigger] queued[b] as int] by {
        if b < q.len() {
            assert(dist[q[a] as int] <= dist[q[b] as int]);
        } else if a < q.len() {
            assert(dist[q[a] as int] <= d + 1);
        }
    }
    assert(queue_inv(adj, start, later, queued, placed, traced));
    assert forall|i: int| 0 <= i < queued.len() implies later[#[trigger] queued[i] as int]
        <= later[queued[head] as int] + 1 by {
        if i < q.len() {
            assert(dist[q[i] as int] <= d + 1);
        }
    }
    assert forall|i: int| 0 <= i < head implies explored(
        adj,
        later,
        #[trigger] queued[i] as int,
        adj[queued[i] as int]@.len() as int,
    ) by {
        assert(explored(adj, dist, q[i] as int, adj[q[i] as int]@.len() as int));
        lemma_explored_kept(adj, dist, later, q[i] as int, adj[q[i] as int]@.len() as int);
    }
    lemma_explored_kept(adj, dist, later, u as int, j);
    assert(explored(adj, later, u as int, j + 1)) by {
        reveal(explored);
    }
}

/// A `j`-th neighbour of the node at `head` that is labelled already lies
/// no more than one layer after that node.
proof fn lemma_skip_neighbor(
    adj: Seq<Vec<i32>>,
    start: i32,
    dist: Seq<i32>,
    q: Seq<i32>,
    pos: Seq<int>,
    par: Seq<int>,
    head: int,
    j: int,
)
    requires
        neighbors_in_range(adj),
        searching(adj, start, dist, q, pos, par, head),
        0 <= head < q.len(),
        0 <= j < adj[q[head] as int]@.len(),
        explored(adj, dist, q[head] as int, j),
        dist[adj[q[head] as int]@[j] as int] != -1,
    ensures
        explored(adj, dist, q[head] as int, j + 1),
{
    reveal(searching);
    reveal(explored);
    let u = q[head];
    let v = adj[u as int]@[j] as int;
    assert(0 <= u < adj.len());
    assert(0 <= v < adj.len());
    assert(dist[v] >= 0);
    assert(q[pos[v]] == v);
    assert(dist[q[pos[v]] as int] <= dist[q[head] as int] + 1);
}

/// Where `later` differs from `dist` only in labelling one more node,
/// what was explored is explored still.
proof fn lemma_explored_kept(adj: Seq<Vec<i32>>, dist: Seq<i32>, later: Seq<i32>, u: int, upto: int)
    requires
        neighbors_in_range(adj),
        dist.len() == adj.len(),
        later.len() == adj.len(),
        0 <= u < adj.len(),
        0 <= upto <= adj[u]@.len(),
        dist[u] >= 0,
        forall|w: int| 0 <= w < dist.len() && dist[w] >= 0 ==> #[trigger] later[w] == dist[w],
        explored(adj, dist, u, upto),
    ensures
        explored(adj, later, u, upto),
{
    reveal(explored);
    assert forall|j: int| 0 <= j < upto implies 0 <= later[#[trigger] adj[u]@[j] as int] <= later[u]
        + 1 by {
        let w = adj[u]@[j] as int;
        assert(0 <= w < adj.len());
        assert(0 <= dist[w] <= dist[u] + 1);
    }
}

/// With the neighbours of the node at `head` all labelled, the search may
/// go on to the next node in the queue.
proof fn lemma_next_node(
    adj: Seq<Vec<i32>>,
    start: i32,
    dist: Seq<i32>,
    q: Seq<i32>,
    pos: Seq<int>,
    par: Seq<int>,
    head: int,
)
    requires
        searching(adj, start, dist, q, pos, par, head),
        0 <= head < q.len(),
        explored(adj, dist, q[head] as int, adj[q[head] as int]@.len() as int),
    ensures
        searching(adj, start, dist, q, pos, par, head + 1),
{
    reveal(searching);
    if head + 1 < q.len() {
        assert(dist[q[head] as int] <= dist[q[head + 1] as int]);
        assert forall|j: int| 0 <= j < q.len() implies dist[#[trigger] q[j] as int] <= dist[q[head
            + 1] as int] + 1 by {
            assert(dist[q[j] as int] <= dist[q[head] as int] + 1);
        }
    }
}

/// Once every labelled node has had its neighbours labelled, the labels
/// are the distances.
proof fn lemma_finished(
    adj: Seq<Vec<i32>>,
    start: i32,
    dist: Seq<i32>,
    q: Seq<i32>,
    pos: Seq<int>,
    par: Seq<int>,
)
    requires
        neighbors_in_range(adj),
        searching(adj, start, dist, q, pos, par, q.len() as int),
    ensures
        is_distances(adj, start, dist),
{
    reveal(searching);
    reveal(explored);
    let g = adj_graph(adj);
    assert forall|v: int| g.has_node(v) && #[trigger] dist[v] > 0 implies exists|u: int|
        #[trigger] g.has_arc(u, v) && dist[u] == dist[v] - 1 by {
        assert(g.has_arc(par[v], v));
    }
    assert forall|u: int, w: int| #[trigger] g.has_arc(u, w) && dist[u] >= 0 implies 0 <= dist[w]
        <= dist[u] + 1 by {
        let j = choose|j: int| 0 <= j < adj[u]@.len() && #[trigger] adj[u]@[j] == w;
        assert(q[pos[u]] == u);
        assert(explored(adj, dist, q[pos[u]] as int, adj[q[pos[u]] as int]@.len() as int));
        assert(adj[u]@[j] == w);
    }
    assert(g.is_layering(start as int, dist));
    g.lemma_layering_is_distance(start as int, dist);
}

} // verus!
