//! Precedence among units: each unit's predecessors, and the lanes that run
//! units one after another.

use crate::graph::acyclic;
use crate::graph::acyclic_iff_nothing_precedes_itself;
use crate::graph::closed;
use crate::graph::graph_of;
use crate::graph::precedes;
use crate::graph::ranks;
use crate::graph::reaches;
use crate::graph::walk_is_complete_iff_acyclic;
use crate::graph::walk_nodes;
use crate::graph::Graph;
use crate::schedule::add_edge;
use crate::schedule::push_edge;
use crate::shape::lists_of;
use crate::validity::has_edge;
use crate::validity::lemma_add_edge;
use vstd::prelude::*;

verus! {

/// Whether every predecessor and every lane entry is a unit.
pub open spec fn units_known(lists: Seq<Seq<usize>>, n: nat) -> bool {
    forall|t: int, k: int| 0 <= t < lists.len() && 0 <= k < lists[t].len() ==> (#[trigger] lists[t][k]) < n
}

/// Whether a numbering of the units goes up from each predecessor to its unit
/// and along each lane.
pub open spec fn respects(preds: Seq<Seq<usize>>, lanes: Seq<Seq<usize>>, rank: Seq<nat>) -> bool {
    &&& rank.len() == preds.len()
    &&& forall|t: int, k: int|
        0 <= t < preds.len() && 0 <= k < preds[t].len() ==> rank[(#[trigger] preds[t][k]) as int] < rank[t]
    &&& forall|l: int, k: int|
        #![trigger lanes[l][k]]
        0 <= l < lanes.len() && 0 <= k < lanes[l].len() - 1 ==> rank[lanes[l][k] as int] < rank[lanes[l][k + 1] as int]
}

/// Whether the units can run in some order that keeps every predecessor before
/// its unit and every lane in its order.
pub open spec fn orderable(preds: Seq<Seq<usize>>, lanes: Seq<Seq<usize>>) -> bool {
    exists|rank: Seq<nat>| #[trigger] respects(preds, lanes, rank)
}

/// The graph with an edge from each of the first `n` listed units to `to`.
pub open spec fn add_sources(g: Graph, list: Seq<usize>, to: usize, n: nat) -> Graph
    decreases n,
{
    if n == 0 {
        g
    } else {
        add_edge(add_sources(g, list, to, (n - 1) as nat), list[n - 1] as int, to, 0)
    }
}

/// The graph with an edge from each predecessor of the first `n` units to its
/// unit.
pub open spec fn successors(preds: Seq<Seq<usize>>, n: nat) -> Graph
    decreases n,
{
    if n == 0 {
        Seq::new(preds.len(), |i: int| Seq::empty())
    } else {
        add_sources(successors(preds, (n - 1) as nat), preds[n - 1], (n - 1) as usize, preds[n - 1].len())
    }
}

/// The graph with an edge from each of the first `n` entries of a lane to the
/// next one.
pub open spec fn add_links(g: Graph, lane: Seq<usize>, n: nat) -> Graph
    decreases n,
{
    if n == 0 {
        g
    } else {
        add_edge(add_links(g, lane, (n - 1) as nat), lane[n - 1] as int, lane[n as int], 0)
    }
}

/// The graph with the order of the first `n` lanes in it.
pub open spec fn add_lanes(g: Graph, lanes: Seq<Seq<usize>>, n: nat) -> Graph
    decreases n,
{
    if n == 0 {
        g
    } else {
        let rest = add_lanes(g, lanes, (n - 1) as nat);
        if lanes[n - 1].len() == 0 {
            rest
        } else {
            add_links(rest, lanes[n - 1], (lanes[n - 1].len() - 1) as nat)
        }
    }
}

/// The successors of each unit.
pub open spec fn successor_graph(preds: Seq<Seq<usize>>) -> Graph {
    successors(preds, preds.len())
}

/// The precedence that predecessors and lanes impose together.
pub open spec fn lane_graph(preds: Seq<Seq<usize>>, lanes: Seq<Seq<usize>>) -> Graph {
    add_lanes(successor_graph(preds), lanes, lanes.len())
}

proof fn lemma_add_sources(g: Graph, list: Seq<usize>, to: usize, n: nat, a: int, b: int, lag: int)
    requires
        n <= list.len(),
        forall|k: int| 0 <= k < list.len() ==> (#[trigger] list[k]) < g.len(),
        0 <= a < g.len(),
    ensures
        add_sources(g, list, to, n).len() == g.len(),
        has_edge(add_sources(g, list, to, n), a, b, lag) <==> has_edge(g, a, b, lag) || (lag == 0 && b == to && exists|k: int|
            0 <= k < n && #[trigger] list[k] == a),
    decreases n,
{
    if n > 0 {
        lemma_add_sources(g, list, to, (n - 1) as nat, a, b, lag);
        assert(list[n - 1] < g.len());
        lemma_add_edge(add_sources(g, list, to, (n - 1) as nat), list[n - 1] as int, to, 0, a, b, lag);
    }
}

proof fn lemma_successors(preds: Seq<Seq<usize>>, n: nat, a: int, b: int, lag: int)
    requires
        n <= preds.len() <= usize::MAX,
        units_known(preds, preds.len()),
        0 <= a < preds.len(),
    ensures
        successors(preds, n).len() == preds.len(),
        has_edge(successors(preds, n), a, b, lag) <==> lag == 0 && 0 <= b < n && exists|k: int|
            0 <= k < preds[b].len() && #[trigger] preds[b][k] == a,
    decreases n,
{
    if n > 0 {
        let g = successors(preds, (n - 1) as nat);
        let list = preds[n - 1];
        lemma_successors(preds, (n - 1) as nat, a, b, lag);
        assert forall|k: int| 0 <= k < list.len() implies (#[trigger] list[k]) < g.len() by {
            assert(preds[n - 1][k] < preds.len());
        }
        lemma_add_sources(g, list, (n - 1) as usize, list.len(), a, b, lag);
    }
}

proof fn lemma_add_links(g: Graph, lane: Seq<usize>, n: nat, a: int, b: int, lag: int)
    requires
        n < lane.len() || n == 0,
        forall|k: int| 0 <= k < lane.len() ==> (#[trigger] lane[k]) < g.len(),
        0 <= a < g.len(),
    ensures
        add_links(g, lane, n).len() == g.len(),
        has_edge(add_links(g, lane, n), a, b, lag) <==> has_edge(g, a, b, lag) || (lag == 0 && exists|k: int|
            0 <= k < n && #[trigger] lane[k] == a && lane[k + 1] == b),
    decreases n,
{
    if n > 0 {
        lemma_add_links(g, lane, (n - 1) as nat, a, b, lag);
        assert(lane[n - 1] < g.len() && lane[n as int] < g.len());
        lemma_add_edge(add_links(g, lane, (n - 1) as nat), lane[n - 1] as int, lane[n as int], 0, a, b, lag);
        if lane[n - 1] == a && lane[n as int] == b {
            assert(lane[n - 1] == a && lane[n - 1 + 1] == b);
        }
    }
}

/// Whether unit `b` comes right after `a` in one of the first `n` lanes.
pub open spec fn linked(lanes: Seq<Seq<usize>>, n: int, a: int, b: int) -> bool {
    exists|l: int, k: int|
        0 <= l < n && 0 <= k < lanes[l].len() - 1 && #[trigger] lanes[l][k] == a && lanes[l][k + 1] == b
}

proof fn lemma_add_lanes(g: Graph, lanes: Seq<Seq<usize>>, n: nat, a: int, b: int, lag: int)
    requires
        n <= lanes.len(),
        units_known(lanes, g.len()),
        0 <= a < g.len(),
    ensures
        add_lanes(g, lanes, n).len() == g.len(),
        has_edge(add_lanes(g, lanes, n), a, b, lag) <==> has_edge(g, a, b, lag) || (lag == 0 && linked(lanes, n as int, a, b)),
    decreases n,
{
    if n > 0 {
        let rest = add_lanes(g, lanes, (n - 1) as nat);
        let lane = lanes[n - 1];
        lemma_add_lanes(g, lanes, (n - 1) as nat, a, b, lag);
        if lane.len() > 0 {
            assert forall|k: int| 0 <= k < lane.len() implies (#[trigger] lane[k]) < rest.len() by {
                assert(lanes[n - 1][k] < g.len());
            }
            lemma_add_links(rest, lane, (lane.len() - 1) as nat, a, b, lag);
            if exists|k: int| 0 <= k < lane.len() - 1 && #[trigger] lane[k] == a && lane[k + 1] == b {
                let k = choose|k: int| 0 <= k < lane.len() - 1 && #[trigger] lane[k] == a && lane[k + 1] == b;
                assert(lanes[n - 1][k] == a && lanes[n - 1][k + 1] == b);
            }
        }
        if linked(lanes, n - 1, a, b) {
            let (l, k) = choose|l: int, k: int|
                0 <= l < n - 1 && 0 <= k < lanes[l].len() - 1 && #[trigger] lanes[l][k] == a && lanes[l][k + 1] == b;
            assert(lanes[l][k] == a && lanes[l][k + 1] == b);
        }
        if linked(lanes, n as int, a, b) {
            let (l, k) = choose|l: int, k: int|
                0 <= l < n && 0 <= k < lanes[l].len() - 1 && #[trigger] lanes[l][k] == a && lanes[l][k + 1] == b;
            if l == n - 1 {
                assert(lane[k] == a && lane[k + 1] == b);
            } else {
                assert(lanes[l][k] == a && lanes[l][k + 1] == b);
                assert(linked(lanes, n - 1, a, b));
            }
        }
    }
}

/// The edges of the combined precedence.
pub proof fn lane_graph_edges(preds: Seq<Seq<usize>>, lanes: Seq<Seq<usize>>, a: int, b: int, lag: int)
    requires
        preds.len() <= usize::MAX,
        units_known(preds, preds.len()),
        units_known(lanes, preds.len()),
        0 <= a < preds.len(),
    ensures
        lane_graph(preds, lanes).len() == preds.len(),
        has_edge(lane_graph(preds, lanes), a, b, lag) <==> lag == 0 && ((0 <= b < preds.len() && exists|k: int|
            0 <= k < preds[b].len() && #[trigger] preds[b][k] == a) || linked(lanes, lanes.len() as int, a, b)),
{
    lemma_successors(preds, preds.len(), a, b, lag);
    lemma_add_lanes(successor_graph(preds), lanes, lanes.len(), a, b, lag);
}

/// The combined precedence leads to units only, over no cycles.
proof fn lemma_lane_graph_closed(preds: Seq<Seq<usize>>, lanes: Seq<Seq<usize>>)
    requires
        preds.len() <= usize::MAX,
        units_known(preds, preds.len()),
        units_known(lanes, preds.len()),
    ensures
        closed(lane_graph(preds, lanes)),
        lane_graph(preds, lanes).len() == preds.len(),
{
    let g = lane_graph(preds, lanes);
    if preds.len() > 0 {
        lane_graph_edges(preds, lanes, 0, 0, 0);
    } else {
        lemma_empty_lanes(successor_graph(preds), lanes, lanes.len());
    }
    assert forall|u: int, k: int| 0 <= u < g.len() && 0 <= k < g[u].len() implies (#[trigger] g[u][k]).0 < g.len() by {
        let to = g[u][k].0 as int;
        let lag = g[u][k].1 as int;
        assert(has_edge(g, u, to, lag));
        lane_graph_edges(preds, lanes, u, to, lag);
        if linked(lanes, lanes.len() as int, u, to) {
            let (l, i) = choose|l: int, i: int|
                0 <= l < lanes.len() && 0 <= i < lanes[l].len() - 1 && #[trigger] lanes[l][i] == u && lanes[l][i + 1]
                    == to;
            assert(lanes[l][i + 1] < preds.len());
        }
    }
}

proof fn lemma_empty_lanes(g: Graph, lanes: Seq<Seq<usize>>, n: nat)
    requires
        n <= lanes.len(),
        g.len() == 0,
        units_known(lanes, 0),
    ensures
        add_lanes(g, lanes, n) == g,
    decreases n,
{
    if n > 0 {
        lemma_empty_lanes(g, lanes, (n - 1) as nat);
        if lanes[n - 1].len() > 0 {
            assert(lanes[n - 1][0] < 0);
        }
    }
}

/// The combined precedence is free of cycles exactly when the units can run in
/// some order.
pub proof fn orderable_iff_acyclic(preds: Seq<Seq<usize>>, lanes: Seq<Seq<usize>>)
    requires
        preds.len() <= usize::MAX,
        units_known(preds, preds.len()),
        units_known(lanes, preds.len()),
    ensures
        orderable(preds, lanes) <==> acyclic(lane_graph(preds, lanes)),
{
    let g = lane_graph(preds, lanes);
    lemma_lane_graph_closed(preds, lanes);
    if orderable(preds, lanes) {
        let rank = choose|rank: Seq<nat>| #[trigger] respects(preds, lanes, rank);
        assert forall|u: int, k: int| 0 <= u < g.len() && 0 <= k < g[u].len() && (#[trigger] g[u][k]).1 == 0 implies rank[u]
            < rank[g[u][k].0 as int] by {
            let to = g[u][k].0 as int;
            assert(has_edge(g, u, to, 0));
            lane_graph_edges(preds, lanes, u, to, 0);
            if linked(lanes, lanes.len() as int, u, to) {
                let (l, i) = choose|l: int, i: int|
                    0 <= l < lanes.len() && 0 <= i < lanes[l].len() - 1 && #[trigger] lanes[l][i] == u && lanes[l][i + 1]
                        == to;
                assert(rank[lanes[l][i] as int] < rank[lanes[l][i + 1] as int]);
            }
        }
        assert(ranks(g, rank));
    }
    if acyclic(g) {
        let rank = choose|rank: Seq<nat>| #[trigger] ranks(g, rank);
        assert forall|t: int, k: int| 0 <= t < preds.len() && 0 <= k < preds[t].len() implies rank[(
        #[trigger] preds[t][k]) as int] < rank[t] by {
            let a = preds[t][k] as int;
            lane_graph_edges(preds, lanes, a, t, 0);
            assert(preds[t][k] == a);
            assert(has_edge(g, a, t, 0));
            let e = choose|e: int| 0 <= e < g[a].len() && (#[trigger] g[a][e]).0 == t && g[a][e].1 == 0;
            assert(rank[a] < rank[g[a][e].0 as int]);
        }
        assert forall|l: int, k: int|
            #![trigger lanes[l][k]]
            0 <= l < lanes.len() && 0 <= k < lanes[l].len() - 1 implies rank[lanes[l][k] as int] < rank[lanes[l][k
            + 1] as int] by {
            let a = lanes[l][k] as int;
            let b = lanes[l][k + 1] as int;
            lane_graph_edges(preds, lanes, a, b, 0);
            assert(linked(lanes, lanes.len() as int, a, b));
            let e = choose|e: int| 0 <= e < g[a].len() && (#[trigger] g[a][e]).0 == b && g[a][e].1 == 0;
            assert(rank[a] < rank[g[a][e].0 as int]);
        }
        assert(respects(preds, lanes, rank));
    }
}

/// The successors of each unit, as adjacency lists.
pub fn successor_edges(preds: &Vec<Vec<usize>>) -> (edges: Vec<Vec<(usize, u32)>>)
    requires
        units_known(lists_of(preds@), preds@.len()),
    ensures
        graph_of(edges@) == successor_graph(lists_of(preds@)),
        edges@.len() == preds@.len(),
        closed(graph_of(edges@)),
{
    let n: usize = preds.len();
    let ghost lists = lists_of(preds@);
    let mut edges: Vec<Vec<(usize, u32)>> = Vec::new();
    while edges.len() < n
        invariant
            edges@.len() <= n,
            forall|i: int| 0 <= i < edges@.len() ==> (#[trigger] edges@[i])@.len() == 0,
        decreases n - edges@.len(),
    {
        edges.push(Vec::new());
    }
    proof {
        assert forall|i: int| 0 <= i < n implies graph_of(edges@)[i] == Seq::<(usize, u32)>::empty() by {
            assert(edges@[i]@ =~= Seq::empty());
        }
        assert(graph_of(edges@) =~= successors(lists, 0));
    }
    let mut t: usize = 0;
    while t < n
        invariant
            t <= n,
            n == preds@.len(),
            lists == lists_of(preds@),
            units_known(lists, n as nat),
            edges@.len() == n,
            closed(graph_of(edges@)),
            graph_of(edges@) == successors(lists, t as nat),
        decreases n - t,
    {
        let list: &Vec<usize> = &preds[t];
        let ghost before = graph_of(edges@);
        let mut k: usize = 0;
        while k < list.len()
            invariant
                k <= list@.len(),
                t < n,
                n == preds@.len(),
                list@ == lists[t as int],
                units_known(lists, n as nat),
                lists.len() == n,
                edges@.len() == n,
                closed(graph_of(edges@)),
                graph_of(edges@) == add_sources(before, list@, t, k as nat),
            decreases list@.len() - k,
        {
            assert(lists[t as int][k as int] < n);
            push_edge(&mut edges, list[k], t, 0);
            k = k + 1;
        }
        t = t + 1;
    }
    edges
}

/// Add the order of the lanes.
fn link_lanes(edges: &mut Vec<Vec<(usize, u32)>>, lanes: &Vec<Vec<usize>>)
    requires
        closed(graph_of(old(edges)@)),
        units_known(lists_of(lanes@), old(edges)@.len()),
    ensures
        graph_of(final(edges)@) == add_lanes(graph_of(old(edges)@), lists_of(lanes@), lanes@.len()),
        final(edges)@.len() == old(edges)@.len(),
        closed(graph_of(final(edges)@)),
{
    let ghost lists = lists_of(lanes@);
    let ghost start = graph_of(edges@);
    let n: usize = lanes.len();
    let mut l: usize = 0;
    while l < n
        invariant
            l <= n,
            n == lanes@.len(),
            lists == lists_of(lanes@),
            edges@.len() == start.len(),
            units_known(lists, edges@.len()),
            closed(graph_of(edges@)),
            graph_of(edges@) == add_lanes(start, lists, l as nat),
        decreases n - l,
    {
        let lane: &Vec<usize> = &lanes[l];
        let len: usize = lane.len();
        let ghost before = graph_of(edges@);
        if len > 0 {
            let mut k: usize = 1;
            while k < len
                invariant
                    1 <= k <= len,
                    len == lane@.len(),
                    l < n,
                    n == lists.len(),
                    lane@ == lists[l as int],
                    edges@.len() == start.len(),
                    units_known(lists, edges@.len()),
                    closed(graph_of(edges@)),
                    graph_of(edges@) == add_links(before, lane@, (k - 1) as nat),
                decreases len - k,
            {
                assert(lists[l as int][k - 1] < edges@.len() && lists[l as int][k as int] < edges@.len());
                push_edge(edges, lane[k - 1], lane[k], 0);
                k = k + 1;
            }
        }
        l = l + 1;
    }
}

/// Whether the units can run in some order that keeps every predecessor before
/// its unit and every lane in its order.
pub fn can_run(preds: &Vec<Vec<usize>>, lanes: &Vec<Vec<usize>>) -> (r: bool)
    requires
        units_known(lists_of(preds@), preds@.len()),
        units_known(lists_of(lanes@), preds@.len()),
    ensures
        r == orderable(lists_of(preds@), lists_of(lanes@)),
{
    let n: usize = preds.len();
    let mut edges: Vec<Vec<(usize, u32)>> = successor_edges(preds);
    link_lanes(&mut edges, lanes);
    let order: Vec<usize> = walk_nodes(&edges);
    proof {
        orderable_iff_acyclic(lists_of(preds@), lists_of(lanes@));
        walk_is_complete_iff_acyclic(graph_of(edges@));
    }
    order.len() == n
}

pub proof fn lemma_successor_graph_closed(preds: Seq<Seq<usize>>)
    requires
        preds.len() <= usize::MAX,
        units_known(preds, preds.len()),
    ensures
        closed(successor_graph(preds)),
        successor_graph(preds).len() == preds.len(),
{
    let g = successor_graph(preds);
    if preds.len() > 0 {
        lemma_successors(preds, preds.len(), 0, 0, 0);
    }
    assert forall|u: int, k: int| 0 <= u < g.len() && 0 <= k < g[u].len() implies (#[trigger] g[u][k]).0 < g.len() by {
        let to = g[u][k].0 as int;
        let lag = g[u][k].1 as int;
        assert(has_edge(g, u, to, lag));
        lemma_successors(preds, preds.len(), u, to, lag);
    }
}

/// Whether a unit lies on a cycle: it waits for itself.
pub open spec fn on_a_cycle(preds: Seq<Seq<usize>>, u: int) -> bool {
    0 <= u < preds.len() && precedes(successor_graph(preds), u, u, 0)
}

/// The first unit that lies on a cycle.
pub fn first_unit_on_a_cycle(preds: &Vec<Vec<usize>>) -> (r: Option<usize>)
    requires
        units_known(lists_of(preds@), preds@.len()),
    ensures
        match r {
            Some(u) => {
                &&& on_a_cycle(lists_of(preds@), u as int)
                &&& forall|v: int| v < u ==> !#[trigger] on_a_cycle(lists_of(preds@), v)
            },
            None => forall|v: int| !#[trigger] on_a_cycle(lists_of(preds@), v),
        },
        r is None <==> acyclic(successor_graph(lists_of(preds@))),
{
    let n: usize = preds.len();
    let ghost lists = lists_of(preds@);
    let edges: Vec<Vec<(usize, u32)>> = successor_edges(preds);
    let ghost g = graph_of(edges@);
    proof {
        lemma_successor_graph_closed(lists);
        acyclic_iff_nothing_precedes_itself(g);
    }
    let mut u: usize = 0;
    while u < n
        invariant
            u <= n,
            n == lists.len(),
            n == edges@.len(),
            g == graph_of(edges@),
            g == successor_graph(lists),
            lists == lists_of(preds@),
            closed(g),
            acyclic(g) <==> forall|u: int| 0 <= u < g.len() ==> !#[trigger] precedes(g, u, u, 0),
            forall|v: int| v < u ==> !#[trigger] on_a_cycle(lists, v),
        decreases n - u,
    {
        if reaches(&edges, u, u, 0) {
            assert(on_a_cycle(lists, u as int));
            return Some(u);
        }
        u = u + 1;
    }
    proof {
        assert forall|v: int| 0 <= v < g.len() implies !#[trigger] precedes(g, v, v, 0) by {
            assert(!on_a_cycle(lists, v));
        }
    }
    None
}

/// A numbering that the successor graph goes up in goes up from each
/// predecessor to its unit.
pub(crate) proof fn lemma_pred_rank(preds: Seq<Seq<usize>>, rank: Seq<nat>, t: int, k: int)
    requires
        preds.len() <= usize::MAX,
        units_known(preds, preds.len()),
        ranks(successor_graph(preds), rank),
        0 <= t < preds.len(),
        0 <= k < preds[t].len(),
    ensures
        rank[preds[t][k] as int] < rank[t],
{
    let g = successor_graph(preds);
    let a = preds[t][k] as int;
    lemma_successors(preds, preds.len(), a, t, 0);
    assert(preds[t][k] == a);
    assert(has_edge(g, a, t, 0));
    let e = choose|e: int| 0 <= e < g[a].len() && (#[trigger] g[a][e]).0 == t && g[a][e].1 == 0;
    assert(rank[a] < rank[g[a][e].0 as int]);
}

proof fn lemma_sources_appended(g: Graph, list: Seq<usize>, to: usize, n: nat, u: int)
    requires
        n <= list.len(),
        units_known(seq![list], g.len()),
        0 <= u < g.len(),
    ensures
        add_sources(g, list, to, n).len() == g.len(),
        g[u].len() <= add_sources(g, list, to, n)[u].len(),
        forall|k: int| 0 <= k < g[u].len() ==> #[trigger] add_sources(g, list, to, n)[u][k] == g[u][k],
        forall|k: int|
            g[u].len() <= k < add_sources(g, list, to, n)[u].len() ==> #[trigger] add_sources(g, list, to, n)[u][k] == (
                to,
                0u32,
            ),
    decreases n,
{
    if n > 0 {
        lemma_sources_appended(g, list, to, (n - 1) as nat, u);
        let rest = add_sources(g, list, to, (n - 1) as nat);
        assert(seq![list][0][n - 1] < g.len());
        lemma_sources_appended(g, list, to, (n - 1) as nat, list[n - 1] as int);
        let all = add_sources(g, list, to, n);
        assert(all == add_edge(rest, list[n - 1] as int, to, 0));
    }
}

/// The successors of a unit are listed in ascending order, all without a lag.
pub proof fn successors_are_listed_in_order(preds: Seq<Seq<usize>>, n: nat, u: int)
    requires
        n <= preds.len() <= usize::MAX,
        units_known(preds, preds.len()),
        0 <= u < preds.len(),
    ensures
        successors(preds, n).len() == preds.len(),
        forall|k: int|
            0 <= k < successors(preds, n)[u].len() ==> (#[trigger] successors(preds, n)[u][k]).0 < n
                && successors(preds, n)[u][k].1 == 0,
        forall|k: int, l: int|
            0 <= k < l < successors(preds, n)[u].len() ==> (#[trigger] successors(preds, n)[u][k]).0 <= (
            #[trigger] successors(preds, n)[u][l]).0,
    decreases n,
{
    if n > 0 {
        successors_are_listed_in_order(preds, (n - 1) as nat, u);
        let rest = successors(preds, (n - 1) as nat);
        let list = preds[n - 1];
        assert(units_known(seq![list], rest.len())) by {
            assert forall|t: int, k: int| 0 <= t < seq![list].len() && 0 <= k < seq![list][t].len() implies (
            #[trigger] seq![list][t][k]) < rest.len() by {
                assert(preds[n - 1][k] < preds.len());
            }
        }
        lemma_sources_appended(rest, list, (n - 1) as usize, list.len(), u);
        let row = successors(preds, n)[u];
        assert forall|k: int| 0 <= k < row.len() implies (#[trigger] row[k]).0 < n && row[k].1 == 0 by {
            if k < rest[u].len() {
                assert(row[k] == rest[u][k]);
            }
        }
        assert forall|k: int, l: int| 0 <= k < l < row.len() implies (#[trigger] row[k]).0 <= (#[trigger] row[l]).0 by {
            if l < rest[u].len() {
                assert(row[k] == rest[u][k] && row[l] == rest[u][l]);
            } else if k < rest[u].len() {
                assert(row[k] == rest[u][k]);
            }
        }
    }
}

} // verus!
