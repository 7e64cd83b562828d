use vstd::prelude::*;

verus! {

/// A directed graph on the nodes `0..size`, as the set of its arcs.
pub struct Graph {
    pub size: nat,
    pub arcs: Set<(int, int)>,
}

impl Graph {
    pub open spec fn has_node(self, v: int) -> bool {
        0 <= v < self.size
    }

    /// There is an arc from `u` to `v`, and both are nodes.
    pub open spec fn has_arc(self, u: int, v: int) -> bool {
        self.has_node(u) && self.has_node(v) && self.arcs.contains((u, v))
    }

    /// Some walk of exactly `k` arcs leads from `s` to `v`.
    pub open spec fn reach_in(self, s: int, v: int, k: nat) -> bool
        decreases k,
    {
        if k == 0 {
            self.has_node(s) && v == s
        } else {
            exists|u: int| self.reach_in(s, u, (k - 1) as nat) && #[trigger] self.has_arc(u, v)
        }
    }

    /// Some walk leads from `s` to `v`.
    pub open spec fn reachable(self, s: int, v: int) -> bool {
        exists|k: nat| self.reach_in(s, v, k)
    }

    /// `d` is what a distance vector holds for `v` when the search starts at
    /// `s`: `-1` where no walk leads from `s` to `v`, and otherwise the
    /// number of arcs of a shortest one.
    pub open spec fn is_hop_distance(self, s: int, v: int, d: int) -> bool {
        if d == -1 {
            !self.reachable(s, v)
        } else {
            &&& d >= 0
            &&& self.reach_in(s, v, d as nat)
            &&& forall|k: nat| k < d ==> !self.reach_in(s, v, k)
        }
    }

    /// `label` assigns every node reached from `s` a layer, and `-1` to the
    /// others, such that `s` alone is in layer 0, every node of a later layer
    /// has an arc from the layer before it, and no arc leaves the labelled
    /// nodes or skips a layer going forward.
    pub open spec fn is_layering(self, s: int, label: Seq<i32>) -> bool {
        &&& label.len() == self.size
        &&& self.has_node(s)
        &&& label[s] == 0
        &&& forall|v: int| self.has_node(v) ==> #[trigger] label[v] >= -1
        &&& forall|v: int| self.has_node(v) && #[trigger] label[v] == 0 ==> v == s
        &&& forall|v: int|
            self.has_node(v) && #[trigger] label[v] > 0 ==> exists|u: int|
                #[trigger] self.has_arc(u, v) && label[u] == label[v] - 1
        &&& forall|u: int, w: int|
            #[trigger] self.has_arc(u, w) && label[u] >= 0 ==> 0 <= label[w] <= label[u] + 1
    }

    /// A layering never labels a node higher than the length of a walk to it.
    pub proof fn lemma_layer_below_walk(self, s: int, label: Seq<i32>, v: int, k: nat)
        requires
            self.is_layering(s, label),
            self.reach_in(s, v, k),
        ensures
            self.has_node(v),
            0 <= label[v] <= k,
        decreases k,
    {
        if k > 0 {
            let u = choose|u: int|
                self.reach_in(s, u, (k - 1) as nat) && #[trigger] self.has_arc(u, v);
            self.lemma_layer_below_walk(s, label, u, (k - 1) as nat);
        }
    }

    /// A node in layer `d` of a layering is reached by a walk of `d` arcs.
    pub proof fn lemma_layer_has_walk(self, s: int, label: Seq<i32>, v: int)
        requires
            self.is_layering(s, label),
            self.has_node(v),
            label[v] >= 0,
        ensures
            self.reach_in(s, v, label[v] as nat),
        decreases label[v],
    {
        if label[v] > 0 {
            let u = choose|u: int| #[trigger] self.has_arc(u, v) && label[u] == label[v] - 1;
            self.lemma_layer_has_walk(s, label, u);
        }
    }

    /// A layering holds the hop distance of every node.
    pub proof fn lemma_layering_is_distance(self, s: int, label: Seq<i32>)
        requires
            self.is_layering(s, label),
        ensures
            forall|v: int|
                self.has_node(v) ==> self.is_hop_distance(s, v, #[trigger] label[v] as int),
    {
        assert forall|v: int| self.has_node(v) implies self.is_hop_distance(
            s,
            v,
            #[trigger] label[v] as int,
        ) by {
            if label[v] == -1 {
                if self.reachable(s, v) {
                    let k = choose|k: nat| self.reach_in(s, v, k);
                    self.lemma_layer_below_walk(s, label, v, k);
                }
            } else {
                self.lemma_layer_has_walk(s, label, v);
                assert forall|k: nat| k < label[v] implies !self.reach_in(s, v, k) by {
                    if self.reach_in(s, v, k) {
                        self.lemma_layer_below_walk(s, label, v, k);
                    }
                }
            }
        }
    }

    /// A node has one hop distance from a given start, and no other.
    pub proof fn lemma_hop_distance_unique(self, s: int, v: int, d1: int, d2: int)
        requires
            self.is_hop_distance(s, v, d1),
            self.is_hop_distance(s, v, d2),
        ensures
            d1 == d2,
    {
    }

    /// The start is at distance 0 from itself.
    pub proof fn lemma_start_distance(self, s: int, d: int)
        requires
            self.has_node(s),
            self.is_hop_distance(s, s, d),
        ensures
            d == 0,
    {
        assert(self.reach_in(s, s, 0));
    }

    /// Along an arc the hop distance grows by at most one, and an arc out of
    /// a reached node leads to a reached node.
    pub proof fn lemma_arc_layering(self, s: int, u: int, w: int, du: int, dw: int)
        requires
            self.has_arc(u, w),
            self.is_hop_distance(s, u, du),
            self.is_hop_distance(s, w, dw),
            du >= 0,
        ensures
            0 <= dw <= du + 1,
    {
        assert(self.reach_in(s, w, (du + 1) as nat));
    }

    /// Between two reached nodes joined by arcs in both directions the hop
    /// distances differ by at most one.
    pub proof fn lemma_edge_layering(self, s: int, u: int, w: int, du: int, dw: int)
        requires
            self.has_arc(u, w),
            self.has_arc(w, u),
            self.is_hop_distance(s, u, du),
            self.is_hop_distance(s, w, dw),
            du >= 0,
            dw >= 0,
        ensures
            -1 <= du - dw <= 1,
    {
        self.lemma_arc_layering(s, u, w, du, dw);
        self.lemma_arc_layering(s, w, u, dw, du);
    }
}

} // verus!
