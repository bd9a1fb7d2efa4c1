use vstd::prelude::*;
use vstd::pervasive::VecAdditionalExecFns;

verus! {

/// Distance of a node that the last walk did not reach.
pub const INFINITE: usize = usize::MAX;

/// Per-node result of the last walk.
#[derive(Clone, Copy, Debug)]
pub struct Node {
    pub previous: Option<usize>,
    pub distance: usize,
}

/// Nodes are the indices `0..nodes.len()`; edges are undirected pairs kept in
/// insertion order; gateways are sinks that a walk never expands.
#[derive(Debug)]
pub struct Graph {
    pub nodes: Vec<Node>,
    pub connections: Vec<(usize, usize)>,
    pub gateways: Vec<usize>,
    pub start: Option<usize>,
}

/// Whether the edge `e` joins `a` and `b`, in either orientation.
pub open spec fn joins(e: (usize, usize), a: usize, b: usize) -> bool {
    e == (a, b) || e == (b, a)
}

/// Whether some edge of `conns` joins `a` and `b`.
pub open spec fn linked(conns: Seq<(usize, usize)>, a: usize, b: usize) -> bool {
    conns.contains((a, b)) || conns.contains((b, a))
}

/// The edges after adding `a`-`b`: unchanged if already linked, else appended.
pub open spec fn with_edge(conns: Seq<(usize, usize)>, a: usize, b: usize) -> Seq<(usize, usize)> {
    if linked(conns, a, b) {
        conns
    } else {
        conns.push((a, b))
    }
}

/// The edges after removing every edge that joins `a` and `b`; order is kept.
pub open spec fn without_edge(conns: Seq<(usize, usize)>, a: usize, b: usize) -> Seq<(usize, usize)>
    decreases conns.len(),
{
    if conns.len() == 0 {
        conns
    } else {
        let rest = without_edge(conns.drop_last(), a, b);
        if joins(conns.last(), a, b) {
            rest
        } else {
            rest.push(conns.last())
        }
    }
}

/// The gateways after marking `id`: unchanged if already marked, else appended.
pub open spec fn with_gateway(gws: Seq<usize>, id: usize) -> Seq<usize> {
    if gws.contains(id) {
        gws
    } else {
        gws.push(id)
    }
}

/// The far end of edge `e` seen from `node`, if `e` touches `node`.
pub open spec fn far_end(e: (usize, usize), node: usize) -> Option<usize> {
    if e.0 == node {
        Some(e.1)
    } else if e.1 == node {
        Some(e.0)
    } else {
        None
    }
}

/// The neighbours of `node`, one per touching edge, in edge order.
pub open spec fn neighbor_seq(conns: Seq<(usize, usize)>, node: usize) -> Seq<usize>
    decreases conns.len(),
{
    if conns.len() == 0 {
        Seq::empty()
    } else {
        let rest = neighbor_seq(conns.drop_last(), node);
        match far_end(conns.last(), node) {
            Some(w) => rest.push(w),
            None => rest,
        }
    }
}

/// The neighbours of `node` that are gateways, in edge order.
pub open spec fn gate_neighbor_seq(conns: Seq<(usize, usize)>, gws: Seq<usize>, node: usize) -> Seq<usize>
    decreases conns.len(),
{
    if conns.len() == 0 {
        Seq::empty()
    } else {
        let rest = gate_neighbor_seq(conns.drop_last(), gws, node);
        match far_end(conns.last(), node) {
            Some(w) => if gws.contains(w) {
                rest.push(w)
            } else {
                rest
            },
            None => rest,
        }
    }
}

proof fn lemma_neighbor_seq_contains(conns: Seq<(usize, usize)>, node: usize, w: usize)
    ensures
        neighbor_seq(conns, node).contains(w) <==> linked(conns, node, w),
    decreases conns.len(),
{
    if conns.len() > 0 {
        let init = conns.drop_last();
        lemma_neighbor_seq_contains(init, node, w);
        assert(conns == init.push(conns.last()));
        let rest = neighbor_seq(init, node);
        if linked(conns, node, w) {
            if !linked(init, node, w) {
                assert(joins(conns.last(), node, w)) by {
                    if conns.contains((node, w)) {
                        let i = choose|i: int| 0 <= i < conns.len() && conns[i] == (node, w);
                        if i < init.len() {
                            assert(init[i] == (node, w));
                        }
                    } else {
                        let i = choose|i: int| 0 <= i < conns.len() && conns[i] == (w, node);
                        if i < init.len() {
                            assert(init[i] == (w, node));
                        }
                    }
                }
                assert(neighbor_seq(conns, node) == rest.push(w));
                assert(neighbor_seq(conns, node)[rest.len() as int] == w);
            } else {
                let j = choose|j: int| 0 <= j < rest.len() && rest[j] == w;
                assert(neighbor_seq(conns, node)[j] == w);
            }
        } else {
            if neighbor_seq(conns, node).contains(w) {
                let j = choose|j: int| 0 <= j < neighbor_seq(conns, node).len() && neighbor_seq(conns, node)[j] == w;
                if j < rest.len() {
                    assert(rest[j] == w);
                    let i = choose|i: int| 0 <= i < init.len() && (init[i] == (node, w) || init[i] == (w, node));
                    assert(conns[i] == init[i]);
                } else {
                    assert(conns[init.len() as int] == conns.last());
                }
            }
        }
    }
}

proof fn lemma_remove_sorted(s: Seq<usize>, i: int)
    requires
        0 <= i < s.len(),
        forall|a: int, b: int| 0 <= a < b < s.len() ==> s[a] < s[b],
    ensures
        forall|a: int, b: int| 0 <= a < b < s.remove(i).len() ==> s.remove(i)[a] < s.remove(i)[b],
        forall|x: usize| #[trigger] s.remove(i).contains(x) <==> (s.contains(x) && x != s[i]),
        s.remove(i).len() == s.len() - 1,
        forall|a: int| 0 <= a < s.remove(i).len() ==> #[trigger] s.remove(i)[a] == if a < i { s[a] } else { s[a + 1] },
{
    let r = s.remove(i);
    assert forall|x: usize| #[trigger] r.contains(x) <==> (s.contains(x) && x != s[i]) by {
        if r.contains(x) {
            let a = choose|a: int| 0 <= a < r.len() && r[a] == x;
            if a < i {
                assert(s[a] == x);
            } else {
                assert(s[a + 1] == x);
            }
        }
        if s.contains(x) && x != s[i] {
            let a = choose|a: int| 0 <= a < s.len() && s[a] == x;
            if a < i {
                assert(r[a] == x);
            } else {
                assert(r[a - 1] == x);
            }
        }
    }
}

impl Graph {
    /// Whether `id` is marked as a gateway.
    pub open spec fn is_gateway_spec(&self, id: usize) -> bool {
        self.gateways@.contains(id)
    }

    /// Whether some edge joins `a` and `b`.
    pub open spec fn connected(&self, a: usize, b: usize) -> bool {
        linked(self.connections@, a, b)
    }

    /// The distance of `v` recorded by the last walk, `INFINITE` if unreached.
    pub open spec fn dist(&self, v: usize) -> usize {
        self.nodes@[v as int].distance
    }

    /// The predecessor of `v` recorded by the last walk.
    pub open spec fn prev(&self, v: usize) -> Option<usize> {
        self.nodes@[v as int].previous
    }

    /// The predecessor links of the last walk lead back to its start: a reached
    /// node other than the start has a reached predecessor one step closer.
    pub open spec fn links_consistent(&self) -> bool {
        match self.start {
            None => true,
            Some(s) => {
                &&& s < self.nodes@.len()
                &&& self.dist(s) == 0
                &&& forall|v: usize|
                    v < self.nodes@.len() && v != s && #[trigger] self.dist(v) != INFINITE ==> {
                        &&& self.prev(v) matches Some(p)
                        &&& p < self.nodes@.len()
                        &&& self.dist(p) != INFINITE
                        &&& self.dist(v) == self.dist(p) + 1
                    }
            },
        }
    }

    /// The state that `walk(start)` leaves: `start` at distance 0 with no
    /// predecessor, every other reached node linked to a reached non-gateway
    /// neighbour one step closer, unreached nodes without predecessor, and no
    /// edge out of a reached non-gateway node that could shorten a distance.
    /// Together these make each distance the length of a shortest route from
    /// `start` whose intermediate nodes are not gateways.
    pub open spec fn walk_result(&self, start: usize) -> bool {
        &&& self.start == Some(start)
        &&& start < self.nodes@.len()
        &&& self.dist(start) == 0
        &&& self.prev(start) is None
        &&& forall|v: usize|
            v < self.nodes@.len() && v != start && #[trigger] self.dist(v) != INFINITE ==> {
                &&& self.prev(v) matches Some(p)
                &&& p < self.nodes@.len()
                &&& !self.is_gateway_spec(p)
                &&& self.connected(p, v)
                &&& self.dist(p) != INFINITE
                &&& self.dist(v) == self.dist(p) + 1
            }
        &&& forall|v: usize|
            v < self.nodes@.len() && #[trigger] self.dist(v) == INFINITE ==> self.prev(v) is None
        &&& forall|u: usize, w: usize|
            u < self.nodes@.len() && w < self.nodes@.len() && !self.is_gateway_spec(u)
                && self.dist(u) != INFINITE && #[trigger] self.connected(u, w) ==> self.dist(w)
                != INFINITE && self.dist(w) <= self.dist(u) + 1
    }

    /// The route that predecessor links give from `v`, `k` links back, ending at `v`.
    pub open spec fn route_back(&self, v: usize, k: nat) -> Seq<usize>
        decreases k,
    {
        if k == 0 {
            seq![v]
        } else {
            match self.prev(v) {
                Some(p) => self.route_back(p, (k - 1) as nat).push(v),
                None => seq![v],
            }
        }
    }

    /// The route from the start of the last walk to `target`.
    pub open spec fn path_spec(&self, target: usize) -> Seq<usize> {
        self.route_back(target, self.dist(target) as nat)
    }

    /// Every edge names two nodes of the graph.
    pub open spec fn edges_in_range(&self) -> bool {
        forall|i: int|
            0 <= i < self.connections@.len() ==> (#[trigger] self.connections@[i]).0
                < self.nodes@.len() && self.connections@[i].1 < self.nodes@.len()
    }

    /// A graph of `nodes_n` unreached nodes, with no edges and no gateways.
    pub fn new(nodes_n: usize) -> (g: Graph)
        ensures
            g.nodes@.len() == nodes_n,
            forall|v: usize| v < nodes_n ==> #[trigger] g.dist(v) == INFINITE && g.prev(v) is None,
            g.connections@ == Seq::<(usize, usize)>::empty(),
            g.gateways@ == Seq::<usize>::empty(),
            g.start is None,
    {
        let mut nodes: Vec<Node> = Vec::new();
        let mut i: usize = 0;
        while i < nodes_n
            invariant
                i <= nodes_n,
                nodes@.len() == i,
                forall|v: int| 0 <= v < i ==> #[trigger] nodes@[v] == (Node { previous: None, distance: INFINITE }),
            decreases nodes_n - i,
        {
            nodes.push(Node { previous: None, distance: INFINITE });
            i += 1;
        }
        Graph { nodes, connections: Vec::new(), gateways: Vec::new(), start: None }
    }

    /// Whether `id` is marked as a gateway.
    pub fn is_gateway(&self, id: usize) -> (r: bool)
        ensures
            r == self.is_gateway_spec(id),
    {
        let mut i: usize = 0;
        while i < self.gateways.len()
            invariant
                i <= self.gateways@.len(),
                forall|j: int| 0 <= j < i ==> self.gateways@[j] != id,
            decreases self.gateways@.len() - i,
        {
            if self.gateways[i] == id {
                return true;
            }
            i += 1;
        }
        false
    }

    /// Marks `id` as a gateway; marking it twice changes nothing.
    pub fn add_gateway(&mut self, id: usize)
        ensures
            final(self).gateways@ == with_gateway(old(self).gateways@, id),
            final(self).nodes == old(self).nodes,
            final(self).connections == old(self).connections,
            final(self).start == old(self).start,
    {
        if !self.is_gateway(id) {
            self.gateways.push(id);
        }
    }

    /// Whether some edge joins `id1` and `id2`, in either orientation.
    pub fn is_connected(&self, id1: usize, id2: usize) -> (r: bool)
        ensures
            r == self.connected(id1, id2),
    {
        let mut i: usize = 0;
        while i < self.connections.len()
            invariant
                i <= self.connections@.len(),
                forall|j: int| 0 <= j < i ==> !joins(#[trigger] self.connections@[j], id1, id2),
            decreases self.connections@.len() - i,
        {
            let e = self.connections[i];
            if (e.0 == id1 && e.1 == id2) || (e.0 == id2 && e.1 == id1) {
                assert(self.connections@[i as int] == e);
                return true;
            }
            i += 1;
        }
        assert(!self.connected(id1, id2)) by {
            if self.connections@.contains((id1, id2)) {
                let j = choose|j: int| 0 <= j < self.connections@.len() && self.connections@[j] == (id1, id2);
                assert(joins(self.connections@[j], id1, id2));
            }
            if self.connections@.contains((id2, id1)) {
                let j = choose|j: int| 0 <= j < self.connections@.len() && self.connections@[j] == (id2, id1);
                assert(joins(self.connections@[j], id1, id2));
            }
        }
        false
    }

    /// Adds the undirected edge `id1`-`id2` unless it is present in either orientation.
    pub fn add_connection(&mut self, id1: usize, id2: usize)
        ensures
            final(self).connections@ == with_edge(old(self).connections@, id1, id2),
            final(self).nodes == old(self).nodes,
            final(self).gateways == old(self).gateways,
            final(self).start == old(self).start,
    {
        if !self.is_connected(id1, id2) {
            self.connections.push((id1, id2));
        }
    }

    /// Removes the undirected edge `id1`-`id2` in either orientation; nothing
    /// happens if no such edge exists.
    pub fn cut_connection(&mut self, id1: usize, id2: usize)
        ensures
            final(self).connections@ == without_edge(old(self).connections@, id1, id2),
            final(self).nodes == old(self).nodes,
            final(self).gateways == old(self).gateways,
            final(self).start == old(self).start,
    {
        let ghost conns = self.connections@;
        let mut kept: Vec<(usize, usize)> = Vec::new();
        let mut i: usize = 0;
        while i < self.connections.len()
            invariant
                conns == self.connections@,
                i <= conns.len(),
                kept@ == without_edge(conns.subrange(0, i as int), id1, id2),
            decreases conns.len() - i,
        {
            let e = self.connections[i];
            assert(conns.subrange(0, i + 1).drop_last() == conns.subrange(0, i as int));
            if !((e.0 == id1 && e.1 == id2) || (e.0 == id2 && e.1 == id1)) {
                kept.push(e);
            }
            i += 1;
        }
        assert(conns.subrange(0, conns.len() as int) == conns);
        self.connections = kept;
    }

    /// The position in `open` of the open node with the least distance; among
    /// equal distances, the one with the lowest node index.
    fn select_min(&self, open: &Vec<usize>) -> (ci: usize)
        requires
            open@.len() > 0,
            forall|j: int| 0 <= j < open@.len() ==> #[trigger] open@[j] < self.nodes@.len(),
        ensures
            ci < open@.len(),
            forall|j: int|
                0 <= j < open@.len() ==> self.dist(open@[ci as int]) < self.dist(#[trigger] open@[j])
                    || (self.dist(open@[ci as int]) == self.dist(open@[j]) && open@[ci as int]
                    <= open@[j]),
    {
        let mut best: usize = 0;
        let mut j: usize = 1;
        while j < open.len()
            invariant
                1 <= j <= open@.len(),
                best < j,
                forall|i: int| 0 <= i < open@.len() ==> #[trigger] open@[i] < self.nodes@.len(),
                forall|i: int|
                    0 <= i < j ==> self.dist(open@[best as int]) < self.dist(#[trigger] open@[i])
                        || (self.dist(open@[best as int]) == self.dist(open@[i]) && open@[best as int]
                        <= open@[i]),
            decreases open@.len() - j,
        {
            let d = self.nodes[open[j]].distance;
            let bd = self.nodes[open[best]].distance;
            if d < bd || (d == bd && open[j] < open[best]) {
                best = j;
            }
            j += 1;
        }
        best
    }

    spec fn closed_in(&self, open: Seq<usize>, u: usize) -> bool {
        u < self.nodes@.len() && !self.is_gateway_spec(u) && !open.contains(u)
    }

    spec fn tree_in(&self, start: usize, open: Seq<usize>) -> bool {
        forall|v: usize|
            v < self.nodes@.len() && v != start && #[trigger] self.dist(v) != INFINITE ==> {
                &&& self.prev(v) matches Some(p)
                &&& self.closed_in(open, p)
                &&& self.connected(p, v)
                &&& self.dist(p) != INFINITE
                &&& self.dist(v) == self.dist(p) + 1
            }
    }

    spec fn unreached_unlinked(&self) -> bool {
        forall|v: usize| v < self.nodes@.len() && #[trigger] self.dist(v) == INFINITE ==> self.prev(v) is None
    }

    spec fn dist_bounded(&self, k: int) -> bool {
        forall|v: usize| v < self.nodes@.len() && #[trigger] self.dist(v) != INFINITE ==> self.dist(v) <= k
    }

    spec fn ordered_in(&self, open: Seq<usize>) -> bool {
        forall|u: usize, x: usize|
            self.closed_in(open, u) && #[trigger] open.contains(x) ==> #[trigger] self.dist(u) <= self.dist(x)
    }

    spec fn closure_in(&self, open: Seq<usize>) -> bool {
        forall|u: usize, w: usize|
            self.closed_in(open, u) && w < self.nodes@.len() && self.dist(u) != INFINITE
                && #[trigger] self.connected(u, w) ==> self.dist(w) != INFINITE && self.dist(w) <= self.dist(u) + 1
    }

    /// Relaxes the edge from the closed node `c`, at distance `cd`, to `w`.
    fn relax_edge(&mut self, c: usize, cd: usize, w: usize, Ghost(open): Ghost<Seq<usize>>, Ghost(start): Ghost<usize>, Ghost(k): Ghost<int>)
        requires
            old(self).nodes@.len() < usize::MAX,
            w < old(self).nodes@.len(),
            old(self).closed_in(open, c),
            old(self).connected(c, w),
            old(self).dist(c) == cd,
            cd < k <= old(self).nodes@.len(),
            start < old(self).nodes@.len(),
            old(self).dist(start) == 0,
            old(self).prev(start) is None,
            forall|u: usize| old(self).closed_in(open, u) ==> #[trigger] old(self).dist(u) <= cd,
            old(self).dist_bounded(k),
            old(self).tree_in(start, open),
            old(self).unreached_unlinked(),
        ensures
            final(self).connections == old(self).connections,
            final(self).gateways == old(self).gateways,
            final(self).start == old(self).start,
            final(self).nodes@ == if old(self).dist(w) > cd + 1 {
                old(self).nodes@.update(w as int, Node { previous: Some(c), distance: (cd + 1) as usize })
            } else {
                old(self).nodes@
            },
            final(self).dist(start) == 0,
            final(self).prev(start) is None,
            final(self).dist_bounded(k),
            final(self).tree_in(start, open),
            final(self).unreached_unlinked(),
    {
        let n = self.nodes.len();
        if self.nodes[w].distance > cd + 1 {
            self.nodes.set(w, Node { previous: Some(c), distance: cd + 1 });
            proof {
                assert(w != c);
                assert(w != start);
                assert(!old(self).closed_in(open, w)) by {
                    if old(self).closed_in(open, w) {
                        assert(old(self).dist(w) <= cd);
                    }
                }
                assert forall|v: usize|
                    v < n && v != start && #[trigger] self.dist(v) != INFINITE implies {
                        &&& self.prev(v) matches Some(p)
                        &&& self.closed_in(open, p)
                        &&& self.connected(p, v)
                        &&& self.dist(p) != INFINITE
                        &&& self.dist(v) == self.dist(p) + 1
                    } by {
                    if v != w {
                        assert(old(self).dist(v) != INFINITE);
                        let p = old(self).prev(v).unwrap();
                        assert(old(self).closed_in(open, p));
                        assert(p != w);
                    }
                }
                assert forall|v: usize| v < n && #[trigger] self.dist(v) != INFINITE implies self.dist(v) <= k by {
                    if v != w {
                        assert(old(self).dist(v) != INFINITE);
                    }
                }
                assert forall|v: usize| v < n && #[trigger] self.dist(v) == INFINITE implies self.prev(v) is None by {
                    if v != w {
                        assert(old(self).dist(v) == INFINITE);
                    }
                }
            }
        }
    }

    /// Relaxes every neighbour of the just-closed node `c`, at distance `cd`.
    #[verifier::spinoff_prover]
    fn relax_neighbors(&mut self, c: usize, cd: usize, Ghost(open): Ghost<Seq<usize>>, Ghost(start): Ghost<usize>, Ghost(k): Ghost<int>)
        requires
            old(self).nodes@.len() < usize::MAX,
            old(self).edges_in_range(),
            old(self).closed_in(open, c),
            old(self).dist(c) == cd,
            cd < k <= old(self).nodes@.len(),
            start < old(self).nodes@.len(),
            old(self).dist(start) == 0,
            old(self).prev(start) is None,
            forall|u: usize| old(self).closed_in(open, u) ==> #[trigger] old(self).dist(u) <= cd,
            forall|x: usize| #[trigger] open.contains(x) ==> cd <= old(self).dist(x),
            forall|x: usize| #[trigger] open.contains(x) ==> x < old(self).nodes@.len(),
            old(self).dist_bounded(k),
            old(self).tree_in(start, open),
            old(self).unreached_unlinked(),
        ensures
            final(self).nodes@.len() == old(self).nodes@.len(),
            final(self).connections == old(self).connections,
            final(self).gateways == old(self).gateways,
            final(self).start == old(self).start,
            forall|v: usize| v < final(self).nodes@.len() ==> #[trigger] final(self).dist(v) <= old(self).dist(v),
            forall|u: usize|
                old(self).closed_in(open, u) ==> #[trigger] final(self).nodes@[u as int] == old(self).nodes@[u as int],
            forall|w: usize| w < final(self).nodes@.len() && #[trigger] final(self).connected(c, w) ==> final(self).dist(w) <= cd + 1,
            forall|x: usize| #[trigger] open.contains(x) ==> cd <= final(self).dist(x),
            final(self).dist(start) == 0,
            final(self).prev(start) is None,
            final(self).dist_bounded(k),
            final(self).tree_in(start, open),
            final(self).unreached_unlinked(),
    {
        let n = self.nodes.len();
        let nbs = self.neighbors_of(c);
        assert forall|w: usize| nbs@.contains(w) <==> #[trigger] linked(old(self).connections@, c, w) by {
            assert(nbs@.contains(w) <==> self.connected(c, w));
        }
        assert forall|a: int| 0 <= a < nbs@.len() implies #[trigger] nbs@[a] < n by {
            let w = nbs@[a];
            assert(nbs@.contains(w));
            assert(linked(old(self).connections@, c, w));
            if self.connections@.contains((c, w)) {
                let e = choose|e: int| 0 <= e < self.connections@.len() && self.connections@[e] == (c, w);
                assert(self.connections@[e].1 < n);
            } else {
                let e = choose|e: int| 0 <= e < self.connections@.len() && self.connections@[e] == (w, c);
                assert(self.connections@[e].0 < n);
            }
        }
        let mut j: usize = 0;
        while j < nbs.len()
            invariant
                self.nodes@.len() == n,
                n < usize::MAX,
                cd < n,
                old(self).nodes@.len() == n,
                old(self).closed_in(open, c),
                old(self).dist(c) == cd,
                cd < k <= n,
                forall|u: usize| old(self).closed_in(open, u) ==> #[trigger] old(self).dist(u) <= cd,
                start < n,
                self.connections == old(self).connections,
                self.gateways == old(self).gateways,
                self.start == old(self).start,
                self.edges_in_range(),
                forall|w: usize| nbs@.contains(w) <==> #[trigger] linked(old(self).connections@, c, w),
                j <= nbs@.len(),
                forall|a: int| 0 <= a < nbs@.len() ==> #[trigger] nbs@[a] < n,
                forall|a: int| 0 <= a < j ==> self.dist(#[trigger] nbs@[a]) <= cd + 1,
                forall|v: usize| v < n ==> #[trigger] self.dist(v) <= old(self).dist(v),
                forall|u: usize|
                    old(self).closed_in(open, u) ==> #[trigger] self.nodes@[u as int] == old(self).nodes@[u as int],
                forall|x: usize| #[trigger] open.contains(x) ==> cd <= self.dist(x),
                forall|x: usize| #[trigger] open.contains(x) ==> x < n,
                self.dist(start) == 0,
                self.prev(start) is None,
                self.dist_bounded(k),
                self.tree_in(start, open),
                self.unreached_unlinked(),
            decreases nbs@.len() - j,
        {
            let w = nbs[j];
            let ghost pre = self.nodes@;
            let ghost pre_g = *self;
            proof {
                assert(nbs@.contains(w));
                assert(linked(old(self).connections@, c, w));
                assert(self.connected(c, w));
                assert(self.nodes@[c as int] == old(self).nodes@[c as int]);
                assert forall|u: usize| self.closed_in(open, u) implies #[trigger] self.dist(u) <= cd by {
                    assert(self.nodes@[u as int] == old(self).nodes@[u as int]);
                    assert(old(self).dist(u) <= cd);
                }
            }
            self.relax_edge(c, cd, w, Ghost(open), Ghost(start), Ghost(k));
            proof {
                assert forall|u: usize|
                    old(self).closed_in(open, u) implies #[trigger] self.nodes@[u as int] == old(self).nodes@[u as int] by {
                    assert(pre[u as int] == old(self).nodes@[u as int]);
                    assert(pre_g.dist(u) <= cd);
                }
            }
            proof {
                assert(self.nodes@ == pre || self.nodes@ == pre.update(w as int, Node { previous: Some(c), distance: (cd + 1) as usize }));
                assert forall|v: usize| v < n implies #[trigger] self.dist(v) <= old(self).dist(v) by {
                    assert(pre_g.dist(v) <= old(self).dist(v));
                    if v != w {
                        assert(self.nodes@[v as int] == pre[v as int]);
                    }
                }
                assert forall|x: usize| #[trigger] open.contains(x) implies cd <= self.dist(x) by {
                    assert(cd <= pre_g.dist(x));
                    if x != w {
                        assert(self.nodes@[x as int] == pre[x as int]);
                    }
                }
                assert forall|a: int| 0 <= a < j + 1 implies self.dist(#[trigger] nbs@[a]) <= cd + 1 by {
                    let x = nbs@[a];
                    assert(self.nodes@ == pre || self.nodes@ == pre.update(w as int, Node { previous: Some(c), distance: (cd + 1) as usize }));
                    if a < j {
                        assert(pre[x as int].distance <= cd + 1);
                    }
                    if x != w {
                        assert(self.nodes@[x as int] == pre[x as int]);
                    }
                }
            }
            j += 1;
        }
    }

    /// Computes, from `start`, the distance in edges of every node and a
    /// predecessor on one shortest route, expanding only non-gateway nodes.
    /// Previous results are discarded.
    pub fn walk(&mut self, start: usize)
        requires
            start < old(self).nodes@.len(),
            old(self).nodes@.len() < usize::MAX,
            old(self).edges_in_range(),
        ensures
            final(self).walk_result(start),
            final(self).links_consistent(),
            final(self).nodes@.len() == old(self).nodes@.len(),
            final(self).connections == old(self).connections,
            final(self).gateways == old(self).gateways,
    {
        let n = self.nodes.len();
        self.start = Some(start);
        let mut i: usize = 0;
        while i < n
            invariant
                i <= n,
                self.nodes@.len() == n,
                self.start == Some(start),
                self.connections == old(self).connections,
                self.gateways == old(self).gateways,
                forall|v: int| 0 <= v < i ==> #[trigger] self.nodes@[v] == (Node { previous: None, distance: INFINITE }),
            decreases n - i,
        {
            self.nodes.set(i, Node { previous: None, distance: INFINITE });
            i += 1;
        }
        let mut open: Vec<usize> = Vec::new();
        i = 0;
        while i < n
            invariant
                i <= n,
                open@.len() <= i,
                forall|a: int| 0 <= a < open@.len() ==> #[trigger] open@[a] < i,
                forall|a: int, b: int| 0 <= a < b < open@.len() ==> open@[a] < open@[b],
                forall|a: int| 0 <= a < open@.len() ==> !self.is_gateway_spec(#[trigger] open@[a]),
                forall|v: usize| v < i && !self.is_gateway_spec(v) ==> #[trigger] open@.contains(v),
            decreases n - i,
        {
            let ghost before = open@;
            if !self.is_gate(i) {
                open.push(i);
                assert(open@[open@.len() - 1] == i);
            }
            assert forall|v: usize| v < i + 1 && !self.is_gateway_spec(v) implies #[trigger] open@.contains(v) by {
                if v < i {
                    assert(before.contains(v));
                    let a = choose|a: int| 0 <= a < before.len() && before[a] == v;
                    assert(open@[a] == v);
                }
            }
            i += 1;
        }
        self.nodes.set(start, Node { previous: None, distance: 0 });
        let ghost total = open@.len();
        let mut k: usize = 0;
        while open.len() > 0
            invariant
                self.nodes@.len() == n,
                n < usize::MAX,
                start < n,
                self.start == Some(start),
                self.connections == old(self).connections,
                self.gateways == old(self).gateways,
                self.edges_in_range(),
                k + open@.len() == total,
                total <= n,
                forall|a: int| 0 <= a < open@.len() ==> #[trigger] open@[a] < n,
                forall|a: int, b: int| 0 <= a < b < open@.len() ==> open@[a] < open@[b],
                forall|a: int| 0 <= a < open@.len() ==> !self.is_gateway_spec(#[trigger] open@[a]),
                self.dist_bounded(k as int),
                self.dist(start) == 0,
                self.prev(start) is None,
                self.tree_in(start, open@),
                self.unreached_unlinked(),
                self.ordered_in(open@),
                self.closure_in(open@),
            decreases open@.len(),
        {
            let ci = self.select_min(&open);
            let c = open[ci];
            let cd = self.nodes[c].distance;
            let ghost open_before = open@;
            open.remove(ci);
            proof {
                lemma_remove_sorted(open_before, ci as int);
                assert(open_before.contains(c));
                assert(self.closed_in(open@, c));
                assert forall|u: usize| self.closed_in(open@, u) implies #[trigger] self.dist(u) <= cd by {
                    if u != c {
                        assert(self.closed_in(open_before, u));
                    }
                }
                assert forall|x: usize| #[trigger] open@.contains(x) implies cd <= self.dist(x) by {
                    let a = choose|a: int| 0 <= a < open_before.len() && open_before[a] == x;
                    assert(open_before[a] == x);
                }
                assert forall|a: int| 0 <= a < open@.len() implies #[trigger] open@[a] < n && !self.is_gateway_spec(open@[a]) by {
                    if a < ci { assert(open@[a] == open_before[a]); } else { assert(open@[a] == open_before[a + 1]); }
                }
                assert forall|u: usize| self.closed_in(open_before, u) implies self.closed_in(open@, u) by {}
                assert forall|x: usize| #[trigger] open@.contains(x) implies x < n by {
                    let a = choose|a: int| 0 <= a < open@.len() && open@[a] == x;
                    assert(open@[a] < n);
                }
                if cd != INFINITE {
                    assert(self.dist(c) != INFINITE);
                }
            }
            k += 1;
            let ghost before = *self;
            if cd != INFINITE {
                self.relax_neighbors(c, cd, Ghost(open@), Ghost(start), Ghost(k as int));
            }
            proof {
                assert forall|u: usize, x: usize|
                    self.closed_in(open@, u) && #[trigger] open@.contains(x) implies #[trigger] self.dist(u) <= self.dist(x) by {
                    assert(before.dist(u) <= cd);
                    assert(self.nodes@[u as int] == before.nodes@[u as int]);
                }
                assert forall|u: usize, w: usize|
                    self.closed_in(open@, u) && w < n && self.dist(u) != INFINITE
                        && #[trigger] self.connected(u, w) implies self.dist(w) != INFINITE && self.dist(w) <= self.dist(u) + 1 by {
                    assert(self.nodes@[u as int] == before.nodes@[u as int]);
                    if u != c {
                        assert(before.closed_in(open_before, u));
                        assert(before.connected(u, w));
                        assert(self.dist(w) <= before.dist(w));
                    }
                }
            }
        }
        proof {
            assert forall|v: usize| v < n && v != start && #[trigger] self.dist(v) != INFINITE implies {
                &&& self.prev(v) matches Some(p)
                &&& p < self.nodes@.len()
                &&& !self.is_gateway_spec(p)
                &&& self.connected(p, v)
                &&& self.dist(p) != INFINITE
                &&& self.dist(v) == self.dist(p) + 1
            } by {}
            assert forall|u: usize, w: usize|
                u < n && w < n && !self.is_gateway_spec(u) && self.dist(u) != INFINITE
                    && #[trigger] self.connected(u, w) implies self.dist(w) != INFINITE && self.dist(w) <= self.dist(u) + 1 by {
                assert(self.closed_in(open@, u));
            }
        }
    }

    /// Shape of the route back from a reached node under consistent links:
    /// it starts at the walk's start, ends at `v`, its `j`-th node lies at
    /// distance `j`, and each node is the predecessor of the next.
    pub proof fn lemma_route_shape(&self, v: usize)
        requires
            self.links_consistent(),
            self.start is Some,
            v < self.nodes@.len(),
            self.dist(v) != INFINITE,
        ensures
            self.path_spec(v).len() == self.dist(v) + 1,
            self.path_spec(v)[0] == self.start.unwrap(),
            self.path_spec(v).last() == v,
            forall|j: int|
                0 <= j < self.path_spec(v).len() ==> #[trigger] self.path_spec(v)[j] < self.nodes@.len()
                    && self.dist(self.path_spec(v)[j]) == j,
            forall|j: int|
                0 < j < self.path_spec(v).len() ==> self.prev(#[trigger] self.path_spec(v)[j]) == Some(
                    self.path_spec(v)[j - 1],
                ) && self.path_spec(v)[j] != self.start.unwrap(),
        decreases self.dist(v),
    {
        let s = self.start.unwrap();
        if v == s {
            assert(self.path_spec(v) == seq![v]);
        } else {
            let p = self.prev(v).unwrap();
            self.lemma_route_shape(p);
            assert(self.path_spec(v) == self.path_spec(p).push(v));
        }
    }

    /// The route from the start of the last walk to `target`, both included,
    /// following predecessor links back from `target`; empty if no walk has run.
    pub fn path_to(&self, target: usize) -> (r: Vec<usize>)
        requires
            self.links_consistent(),
            self.start is Some ==> target < self.nodes@.len() && self.dist(target) != INFINITE,
        ensures
            self.start is None ==> r@ == Seq::<usize>::empty(),
            self.start is Some ==> {
                &&& r@ == self.path_spec(target)
                &&& r@.len() == self.dist(target) + 1
                &&& r@[0] == self.start.unwrap()
                &&& r@.last() == target
            },
    {
        let start = match self.start {
            None => {
                return Vec::new();
            },
            Some(s) => s,
        };
        proof {
            self.lemma_route_shape(target);
        }
        let ghost path = self.path_spec(target);
        let d = self.nodes[target].distance;
        let mut out: Vec<usize> = Vec::new();
        let mut i: usize = 0;
        while i <= d
            invariant
                d < usize::MAX,
                i <= d + 1,
                out@.len() == i,
                forall|j: int| 0 <= j < i ==> #[trigger] out@[j] == target,
            decreases d + 1 - i,
        {
            out.push(target);
            i += 1;
        }
        let mut current = target;
        let mut k = d;
        while k > 0
            invariant
                self.links_consistent(),
                self.start == Some(start),
                path == self.path_spec(target),
                path.len() == d + 1,
                out@.len() == d + 1,
                k <= d,
                current < self.nodes@.len(),
                current == path[k as int],
                self.dist(current) == k,
                forall|j: int| k <= j <= d ==> #[trigger] out@[j] == path[j],
                forall|j: int|
                    0 < j < path.len() ==> self.prev(#[trigger] path[j]) == Some(path[j - 1]),
                forall|j: int| 0 <= j < path.len() ==> #[trigger] path[j] < self.nodes@.len(),
            decreases k,
        {
            let p = match self.nodes[current].previous {
                Some(p) => p,
                None => {
                    proof {
                        assert(self.prev(path[k as int]) == Some(path[k - 1]));
                    }
                    current
                },
            };
            assert(p == path[k - 1]);
            k -= 1;
            current = p;
            out.set(k, p);
        }
        assert(out@ == path);
        out
    }

    /// Whether `node` is marked as a gateway.
    pub fn is_gate(&self, node: usize) -> (r: bool)
        ensures
            r == self.is_gateway_spec(node),
    {
        let mut found = false;
        let mut i: usize = 0;
        while i < self.gateways.len()
            invariant
                i <= self.gateways@.len(),
                found <==> exists|j: int| 0 <= j < i && self.gateways@[j] == node,
            decreases self.gateways@.len() - i,
        {
            if self.gateways[i] == node {
                found = true;
            }
            i += 1;
        }
        found
    }

    /// The nodes joined to `node` by an edge, one per edge, in the order the
    /// edges were added.
    pub fn neighbors_of(&self, node: usize) -> (r: Vec<usize>)
        ensures
            r@ == neighbor_seq(self.connections@, node),
            forall|w: usize| r@.contains(w) <==> #[trigger] self.connected(node, w),
    {
        let ghost conns = self.connections@;
        let mut out: Vec<usize> = Vec::new();
        let mut i: usize = 0;
        while i < self.connections.len()
            invariant
                conns == self.connections@,
                i <= conns.len(),
                out@ == neighbor_seq(conns.subrange(0, i as int), node),
            decreases conns.len() - i,
        {
            let e = self.connections[i];
            assert(conns.subrange(0, i + 1).drop_last() == conns.subrange(0, i as int));
            if e.0 == node {
                out.push(e.1);
            } else if e.1 == node {
                out.push(e.0);
            }
            i += 1;
        }
        assert(conns.subrange(0, conns.len() as int) == conns);
        proof {
            assert forall|w: usize| out@.contains(w) <==> #[trigger] self.connected(node, w) by {
                lemma_neighbor_seq_contains(conns, node, w);
            }
        }
        out
    }

    /// The neighbours of `node` that are gateways, in the order the edges were added.
    pub fn neighbors_gates_of(&self, node: usize) -> (r: Vec<usize>)
        ensures
            r@ == gate_neighbor_seq(self.connections@, self.gateways@, node),
    {
        let ghost conns = self.connections@;
        let mut out: Vec<usize> = Vec::new();
        let mut i: usize = 0;
        while i < self.connections.len()
            invariant
                conns == self.connections@,
                i <= conns.len(),
                out@ == gate_neighbor_seq(conns.subrange(0, i as int), self.gateways@, node),
            decreases conns.len() - i,
        {
            let e = self.connections[i];
            assert(conns.subrange(0, i + 1).drop_last() == conns.subrange(0, i as int));
            if e.0 == node {
                if self.is_gateway(e.1) {
                    out.push(e.1);
                }
            } else if e.1 == node {
                if self.is_gateway(e.0) {
                    out.push(e.0);
                }
            }
            i += 1;
        }
        assert(conns.subrange(0, conns.len() as int) == conns);
        out
    }
    /// The number of nodes.
    pub fn node_count(&self) -> (r: usize)
        ensures
            r == self.nodes@.len(),
    {
        self.nodes.len()
    }

    /// The distance of `v` found by the last walk; `None` if it was not reached.
    pub fn distance_of(&self, v: usize) -> (r: Option<usize>)
        requires
            v < self.nodes@.len(),
        ensures
            r == if self.dist(v) == INFINITE { None } else { Some(self.dist(v)) },
    {
        let d = self.nodes[v].distance;
        if d == INFINITE {
            None
        } else {
            Some(d)
        }
    }

    /// The predecessor of `v` on the route found by the last walk.
    pub fn previous_of(&self, v: usize) -> (r: Option<usize>)
        requires
            v < self.nodes@.len(),
        ensures
            r == self.prev(v),
    {
        self.nodes[v].previous
    }
}

} // verus!
