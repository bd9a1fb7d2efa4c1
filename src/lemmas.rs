use vstd::prelude::*;
use crate::graph::{Graph, INFINITE, linked, with_edge, with_gateway, without_edge, joins};

verus! {

/// After a walk from `start`, the route to any reached node `n` begins at
/// `start`, ends at `n`, and has one more node than the distance of `n`.
pub proof fn lemma_walk_path_shape(g: &Graph, start: usize, n: usize)
    requires
        g.walk_result(start),
        n < g.nodes@.len(),
        g.dist(n) != INFINITE,
    ensures
        g.path_spec(n).len() == g.dist(n) + 1,
        g.path_spec(n)[0] == start,
        g.path_spec(n).last() == n,
{
    g.lemma_route_shape(n);
}

/// After a walk from `start`, the route to any reached node `n` follows edges
/// of the graph, and no node on it but `n` itself is a gateway.
pub proof fn lemma_walk_path_avoids_gateways(g: &Graph, start: usize, n: usize)
    requires
        g.walk_result(start),
        n < g.nodes@.len(),
        g.dist(n) != INFINITE,
    ensures
        forall|j: int| 0 <= j < g.path_spec(n).len() - 1 ==> !g.is_gateway_spec(#[trigger] g.path_spec(n)[j]),
        forall|j: int|
            0 <= j < g.path_spec(n).len() - 1 ==> #[trigger] g.connected(g.path_spec(n)[j], g.path_spec(n)[j + 1]),
{
    g.lemma_route_shape(n);
    let path = g.path_spec(n);
    assert forall|j: int| 0 <= j < path.len() - 1 implies !g.is_gateway_spec(#[trigger] path[j]) by {
        assert(g.prev(path[j + 1]) == Some(path[j]));
        assert(g.dist(path[j + 1]) == j + 1);
    }
    assert forall|j: int| 0 <= j < path.len() - 1 implies #[trigger] g.connected(path[j], path[j + 1]) by {
        assert(g.prev(path[j + 1]) == Some(path[j]));
        assert(g.dist(path[j + 1]) == j + 1);
    }
}

/// After a walk from `start`, every route from `start` along edges whose nodes
/// before the last are not gateways reaches a node whose distance is at most
/// the route's number of edges: distances are those of shortest routes.
pub proof fn lemma_walk_distance_is_shortest(g: &Graph, start: usize, route: Seq<usize>)
    requires
        g.walk_result(start),
        route.len() >= 1,
        route[0] == start,
        forall|i: int| 0 <= i < route.len() ==> #[trigger] route[i] < g.nodes@.len(),
        forall|i: int| 0 <= i < route.len() - 1 ==> !g.is_gateway_spec(#[trigger] route[i]),
        forall|i: int| 0 <= i < route.len() - 1 ==> #[trigger] g.connected(route[i], route[i + 1]),
    ensures
        g.dist(route.last()) != INFINITE,
        g.dist(route.last()) <= route.len() - 1,
{
    lemma_route_bound(g, start, route);
}

proof fn lemma_route_bound(g: &Graph, start: usize, route: Seq<usize>)
    requires
        g.dist(start) == 0,
        forall|u: usize, w: usize|
            u < g.nodes@.len() && w < g.nodes@.len() && !g.is_gateway_spec(u) && g.dist(u) != INFINITE
                && #[trigger] g.connected(u, w) ==> g.dist(w) != INFINITE && g.dist(w) <= g.dist(u) + 1,
        route.len() >= 1,
        route[0] == start,
        forall|i: int| 0 <= i < route.len() ==> #[trigger] route[i] < g.nodes@.len(),
        forall|i: int| 0 <= i < route.len() - 1 ==> !g.is_gateway_spec(#[trigger] route[i]),
        forall|i: int| 0 <= i < route.len() - 1 ==> #[trigger] g.connected(route[i], route[i + 1]),
    ensures
        g.dist(route.last()) != INFINITE,
        g.dist(route.last()) <= route.len() - 1,
    decreases route.len(),
{
    if route.len() > 1 {
        let init = route.drop_last();
        assert forall|i: int| 0 <= i < init.len() - 1 implies !g.is_gateway_spec(#[trigger] init[i]) by {
            assert(init[i] == route[i]);
        }
        assert forall|i: int| 0 <= i < init.len() - 1 implies #[trigger] g.connected(init[i], init[i + 1]) by {
            assert(init[i] == route[i] && init[i + 1] == route[i + 1]);
            assert(g.connected(route[i], route[i + 1]));
        }
        assert forall|i: int| 0 <= i < init.len() implies #[trigger] init[i] < g.nodes@.len() by {
            assert(init[i] == route[i]);
        }
        lemma_route_bound(g, start, init);
        let i = route.len() - 2;
        assert(init.last() == route[i]);
        assert(!g.is_gateway_spec(route[i]));
        assert(g.connected(route[i], route[i + 1]));
        assert(route[i + 1] == route.last());
        assert(route[i] < g.nodes@.len() && route[i + 1] < g.nodes@.len());
    }
}

/// Adding the same edge twice leaves the same edges as adding it once.
pub proof fn lemma_add_connection_idempotent(conns: Seq<(usize, usize)>, a: usize, b: usize)
    ensures
        with_edge(with_edge(conns, a, b), a, b) == with_edge(conns, a, b),
        linked(with_edge(conns, a, b), a, b),
{
    if !linked(conns, a, b) {
        let added = conns.push((a, b));
        assert(added[conns.len() as int] == (a, b));
    }
}

/// Marking the same gateway twice leaves the same gateways as marking it once.
pub proof fn lemma_add_gateway_idempotent(gws: Seq<usize>, id: usize)
    ensures
        with_gateway(with_gateway(gws, id), id) == with_gateway(gws, id),
        with_gateway(gws, id).contains(id),
{
    if !gws.contains(id) {
        assert(gws.push(id)[gws.len() as int] == id);
    }
}

/// After cutting `a`-`b` no edge joins them, and cutting again changes nothing.
pub proof fn lemma_cut_connection_idempotent(conns: Seq<(usize, usize)>, a: usize, b: usize)
    ensures
        !linked(without_edge(conns, a, b), a, b),
        without_edge(without_edge(conns, a, b), a, b) == without_edge(conns, a, b),
{
    lemma_without_edge_members(conns, a, b);
    lemma_without_edge_none_joined(without_edge(conns, a, b), a, b);
    let cut = without_edge(conns, a, b);
    if linked(cut, a, b) {
        if cut.contains((a, b)) {
            let i = choose|i: int| 0 <= i < cut.len() && cut[i] == (a, b);
            assert(joins(cut[i], a, b));
        } else {
            let i = choose|i: int| 0 <= i < cut.len() && cut[i] == (b, a);
            assert(joins(cut[i], a, b));
        }
    }
}

proof fn lemma_without_edge_members(conns: Seq<(usize, usize)>, a: usize, b: usize)
    ensures
        forall|i: int| 0 <= i < without_edge(conns, a, b).len() ==> !joins(#[trigger] without_edge(conns, a, b)[i], a, b),
    decreases conns.len(),
{
    if conns.len() > 0 {
        let init = conns.drop_last();
        lemma_without_edge_members(init, a, b);
        let rest = without_edge(init, a, b);
        if !joins(conns.last(), a, b) {
            assert forall|i: int| 0 <= i < rest.push(conns.last()).len() implies !joins(
                #[trigger] rest.push(conns.last())[i],
                a,
                b,
            ) by {
                if i < rest.len() {
                    assert(rest.push(conns.last())[i] == rest[i]);
                }
            }
        }
    }
}

proof fn lemma_without_edge_none_joined(conns: Seq<(usize, usize)>, a: usize, b: usize)
    requires
        forall|i: int| 0 <= i < conns.len() ==> !joins(#[trigger] conns[i], a, b),
    ensures
        without_edge(conns, a, b) == conns,
    decreases conns.len(),
{
    if conns.len() > 0 {
        let init = conns.drop_last();
        assert forall|i: int| 0 <= i < init.len() implies !joins(#[trigger] init[i], a, b) by {
            assert(init[i] == conns[i]);
        }
        lemma_without_edge_none_joined(init, a, b);
        assert(!joins(conns[conns.len() - 1], a, b));
        assert(init.push(conns.last()) == conns);
    }
}

} // verus!
