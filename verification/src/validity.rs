//! What a valid schedule is, and that validation accepts exactly those.

use crate::graph::acyclic;
use crate::graph::closed;
use crate::graph::edge_precedes;
use crate::graph::precedence_follows_ranks;
use crate::graph::precedence_is_transitive;
use crate::graph::precedes;
use crate::graph::ranks;
use crate::graph::walk_order;
use crate::graph::walk_order_ranks;
use crate::graph::Graph;
use crate::schedule::add_chain;
use crate::schedule::add_edge;
use crate::schedule::lemma_entries;
use crate::schedule::lemma_inventory;
use crate::schedule::lemma_inventory_full;
use crate::schedule::lemma_lanes;
use crate::schedule::pool_threads;
use crate::schedule::CuPlanDependency;
use crate::schedule::PlacementModel;
use crate::schedule::PlanModel;
use crate::schedule::ShapeModel;
use crate::schedule::ThreadPool;
use vstd::prelude::*;

verus! {

/// Every process step occurs exactly once per CopperList offset.
pub open spec fn complete_inventory(p: PlanModel, shape: ShapeModel) -> bool {
    &&& p.copperlists_per_cycle > 0
    &&& p.steps.len() == shape.keys.len() * p.copperlists_per_cycle as nat
    &&& forall|i: int|
        0 <= i < p.steps.len() ==> shape.keys.contains((#[trigger] p.steps[i]).key) && p.steps[i].copperlist
            < p.copperlists_per_cycle
    &&& forall|i: int, j: int|
        0 <= i < j < p.steps.len() ==> (#[trigger] p.steps[i]).key != (#[trigger] p.steps[j]).key
            || p.steps[i].copperlist != p.steps[j].copperlist
    &&& forall|k: int, c: int|
        0 <= k < shape.keys.len() && 0 <= c < p.copperlists_per_cycle ==> #[trigger] p.is_step(
            p.occurrence(shape.keys[k], c),
            shape.keys[k],
            c,
        )
}

/// Whether a placement names the main context or a worker of a configured pool.
pub open spec fn placed(pools: Seq<ThreadPool>, placement: PlacementModel) -> bool {
    match placement {
        PlacementModel::Main => true,
        PlacementModel::Worker { pool, index } => pool_threads(pools, pool) matches Some(threads) && index < threads,
    }
}

/// The lanes have distinct, configured placements, and every occurrence is in
/// exactly one place of one lane.
pub open spec fn complete_lanes(p: PlanModel, pools: Seq<ThreadPool>) -> bool {
    &&& p.lanes.len() > 0
    &&& forall|l: int|
        0 <= l < p.lanes.len() ==> placed(pools, (#[trigger] p.lanes[l]).placement) && p.lanes[l].steps.len() > 0
    &&& forall|l: int, m: int|
        0 <= l < m < p.lanes.len() ==> (#[trigger] p.lanes[l]).placement != (#[trigger] p.lanes[m]).placement
    &&& forall|a: int, b: int, index: int| #[trigger] p.lists(a, b, index) ==> index < p.steps.len()
    &&& forall|a: int, b: int, c: int, d: int, index: int| #[trigger]
        p.lists(a, b, index) && #[trigger] p.lists(c, d, index) ==> a == c && b == d
    &&& forall|i: int| 0 <= i < p.steps.len() ==> #[trigger] p.listed(i)
}

/// Dependencies name occurrences.
pub open spec fn known_dependencies(p: PlanModel) -> bool {
    forall|d: int|
        0 <= d < p.dependencies.len() ==> (#[trigger] p.dependencies[d]).from < p.steps.len() && p.dependencies[d].to
            < p.steps.len()
}

/// Whether `b` waits for `a` within a cycle.
pub open spec fn before(p: PlanModel, a: int, b: int) -> bool {
    precedes(p.graph(), a, b, 0)
}

/// In every CopperList each required pair of steps is ordered.
pub open spec fn required_ordered(p: PlanModel, shape: ShapeModel) -> bool {
    forall|r: int, c: int|
        #![trigger shape.required[r], p.occurrence(shape.keys[shape.required[r].0 as int], c)]
        0 <= r < shape.required.len() && 0 <= c < p.copperlists_per_cycle ==> before(
            p,
            p.occurrence(shape.keys[shape.required[r].0 as int], c),
            p.occurrence(shape.keys[shape.required[r].1 as int], c),
        )
}

/// The occurrence of step `i` of a component in CopperList `c`.
pub open spec fn call(p: PlanModel, shape: ShapeModel, component: Seq<usize>, i: int, c: int) -> int {
    p.occurrence(shape.keys[component[i] as int], c)
}

/// The calls of a component never overlap: any two calls of one CopperList are
/// ordered one way or the other, all calls of a CopperList come before all
/// calls of the next, and all calls of a cycle's last CopperList come before
/// all calls of the next cycle's first.
pub open spec fn exclusive(p: PlanModel, shape: ShapeModel, component: Seq<usize>) -> bool {
    let last = p.copperlists_per_cycle - 1;
    &&& forall|i: int, j: int, c: int|
        #![trigger call(p, shape, component, i, c), call(p, shape, component, j, c)]
        0 <= i < component.len() && 0 <= j < component.len() && i != j && 0 <= c <= last ==> before(
            p,
            call(p, shape, component, i, c),
            call(p, shape, component, j, c),
        ) || before(p, call(p, shape, component, j, c), call(p, shape, component, i, c))
    &&& forall|i: int, j: int, c: int, d: int|
        #![trigger call(p, shape, component, i, c), call(p, shape, component, j, d)]
        0 <= i < component.len() && 0 <= j < component.len() && 0 <= c < last && d == c + 1 ==> before(
            p,
            call(p, shape, component, i, c),
            call(p, shape, component, j, d),
        )
    &&& forall|i: int, j: int|
        #![trigger call(p, shape, component, i, last), call(p, shape, component, j, 0)]
        0 <= i < component.len() && 0 <= j < component.len() ==> precedes(
            p.graph(),
            call(p, shape, component, i, last),
            call(p, shape, component, j, 0),
            1,
        )
}

/// A valid schedule of the steps in `shape` on the configured pools.
pub open spec fn valid(p: PlanModel, pools: Seq<ThreadPool>, shape: ShapeModel) -> bool {
    &&& complete_inventory(p, shape)
    &&& complete_lanes(p, pools)
    &&& known_dependencies(p)
    &&& acyclic(p.graph())
    &&& required_ordered(p, shape)
    &&& forall|k: int| 0 <= k < shape.components.len() ==> exclusive(p, shape, #[trigger] shape.components[k])
}

// ---------------------------------------------------------------------------
// Inventory and lanes
// ---------------------------------------------------------------------------

proof fn lemma_inventory_none(p: PlanModel, keys: Seq<Seq<char>>, n: nat)
    requires
        forall|i: int| 0 <= i < n ==> (#[trigger] p.step_failure(keys, i)) is None,
    ensures
        p.inventory_failure(keys, n) is None,
    decreases n,
{
    if n > 0 {
        lemma_inventory_none(p, keys, (n - 1) as nat);
        assert(p.step_failure(keys, n - 1) is None);
    }
}

proof fn lemma_complete_inventory(p: PlanModel, shape: ShapeModel)
    requires
        p.copperlists_per_cycle > 0,
        p.steps.len() == shape.keys.len() * p.copperlists_per_cycle as nat,
        p.steps.len() <= usize::MAX,
        shape.keys.len() <= usize::MAX,
    ensures
        p.inventory_failure(shape.keys, p.steps.len()) is None <==> complete_inventory(p, shape),
{
    let keys = shape.keys;
    if p.inventory_failure(keys, p.steps.len()) is None {
        assert forall|i: int| 0 <= i < p.steps.len() implies keys.contains((#[trigger] p.steps[i]).key)
            && p.steps[i].copperlist < p.copperlists_per_cycle by {
            lemma_inventory(p, keys, p.steps.len(), i);
        }
        assert forall|i: int, j: int| 0 <= i < j < p.steps.len() implies (#[trigger] p.steps[i]).key != (
        #[trigger] p.steps[j]).key || p.steps[i].copperlist != p.steps[j].copperlist by {
            lemma_inventory(p, keys, p.steps.len(), j);
            if p.steps[i].key == p.steps[j].key && p.steps[i].copperlist == p.steps[j].copperlist {
                assert(p.is_step(i, p.steps[j].key, p.steps[j].copperlist as int));
            }
        }
        assert forall|k: int, c: int| 0 <= k < shape.keys.len() && 0 <= c < p.copperlists_per_cycle implies #[trigger] p.is_step(
            p.occurrence(shape.keys[k], c),
            shape.keys[k],
            c,
        ) by {
            lemma_inventory_full(p, shape.keys, k, c);
        }
    }
    if complete_inventory(p, shape) {
        assert forall|i: int| 0 <= i < p.steps.len() implies (#[trigger] p.step_failure(keys, i)) is None by {
            let step = p.steps[i];
            assert(keys.contains(step.key));
            assert forall|j: int| j < i implies !#[trigger] p.is_step(j, step.key, step.copperlist as int) by {
                if p.is_step(j, step.key, step.copperlist as int) {
                    assert(p.steps[j].key != step.key || p.steps[j].copperlist != step.copperlist);
                }
            }
        }
        lemma_inventory_none(p, keys, p.steps.len());
    }
}

proof fn lemma_entries_none(p: PlanModel, l: int, n: nat)
    requires
        forall|k: int| 0 <= k < n ==> (#[trigger] p.entry_failure(l, k)) is None,
    ensures
        p.entries_failure(l, n) is None,
    decreases n,
{
    if n > 0 {
        lemma_entries_none(p, l, (n - 1) as nat);
        assert(p.entry_failure(l, n - 1) is None);
    }
}

proof fn lemma_lanes_none(p: PlanModel, pools: Seq<ThreadPool>, n: nat)
    requires
        forall|l: int| 0 <= l < n ==> (#[trigger] p.lane_failure(pools, l)) is None,
    ensures
        p.lanes_failure(pools, n) is None,
    decreases n,
{
    if n > 0 {
        lemma_lanes_none(p, pools, (n - 1) as nat);
        assert(p.lane_failure(pools, n - 1) is None);
    }
}

proof fn lemma_complete_lanes(p: PlanModel, pools: Seq<ThreadPool>)
    requires
        p.lanes.len() > 0,
    ensures
        (p.lanes_failure(pools, p.lanes.len()) is None && p.assignment_failure() is None) <==> complete_lanes(p, pools),
{
    if p.lanes_failure(pools, p.lanes.len()) is None && p.assignment_failure() is None {
        assert forall|l: int| 0 <= l < p.lanes.len() implies placed(pools, (#[trigger] p.lanes[l]).placement)
            && p.lanes[l].steps.len() > 0 by {
            lemma_lanes(p, pools, p.lanes.len(), l);
        }
        assert forall|l: int, m: int| 0 <= l < m < p.lanes.len() implies (#[trigger] p.lanes[l]).placement != (#[trigger] p.lanes[m]).placement by {
            lemma_lanes(p, pools, p.lanes.len(), m);
        }
        assert forall|a: int, b: int, index: int| #[trigger] p.lists(a, b, index) implies index < p.steps.len() by {
            lemma_lanes(p, pools, p.lanes.len(), a);
            lemma_entries(p, a, p.lanes[a].steps.len(), b);
        }
        assert forall|a: int, b: int, c: int, d: int, index: int| #[trigger]
            p.lists(a, b, index) && #[trigger] p.lists(c, d, index) implies a == c && b == d by {
            lemma_lanes(p, pools, p.lanes.len(), a);
            lemma_entries(p, a, p.lanes[a].steps.len(), b);
            lemma_lanes(p, pools, p.lanes.len(), c);
            lemma_entries(p, c, p.lanes[c].steps.len(), d);
            if a < c || (a == c && b < d) {
                assert(p.listed_before(c, d, index));
            } else if c < a || (c == a && d < b) {
                assert(p.listed_before(a, b, index));
            }
        }
    }
    if complete_lanes(p, pools) {
        assert forall|l: int| 0 <= l < p.lanes.len() implies (#[trigger] p.lane_failure(pools, l)) is None by {
            assert(placed(pools, p.lanes[l].placement));
            assert forall|k: int| 0 <= k < p.lanes[l].steps.len() implies (#[trigger] p.entry_failure(l, k)) is None by {
                let index = p.lanes[l].steps[k] as int;
                assert(p.lists(l, k, index));
                if p.listed_before(l, k, index) {
                    let (a, b) = choose|a: int, b: int| #[trigger]
                        p.lists(a, b, index) && (a < l || (a == l && b < k));
                    assert(p.lists(a, b, index));
                }
            }
            lemma_entries_none(p, l, p.lanes[l].steps.len());
        }
        lemma_lanes_none(p, pools, p.lanes.len());
    }
}

// ---------------------------------------------------------------------------
// Precedence
// ---------------------------------------------------------------------------

proof fn lemma_add_edge_closed(g: Graph, from: int, to: usize, lag: u32)
    requires
        closed(g),
        0 <= from < g.len(),
        to < g.len(),
    ensures
        closed(add_edge(g, from, to, lag)),
        add_edge(g, from, to, lag).len() == g.len(),
{
    let h = add_edge(g, from, to, lag);
    assert forall|u: int, k: int| 0 <= u < h.len() && 0 <= k < h[u].len() implies (#[trigger] h[u][k]).0 < h.len() by {
        if u != from || k < g[u].len() {
            assert(h[u][k] == g[u][k]);
        }
    }
}

proof fn lemma_add_chain_closed(g: Graph, steps: Seq<u32>, n: nat)
    requires
        closed(g),
        n < steps.len() || n == 0,
        forall|k: int| 0 <= k < steps.len() ==> (#[trigger] steps[k]) < g.len(),
    ensures
        closed(add_chain(g, steps, n)),
        add_chain(g, steps, n).len() == g.len(),
    decreases n,
{
    if n > 0 {
        lemma_add_chain_closed(g, steps, (n - 1) as nat);
        assert(steps[n - 1] < g.len() && steps[n as int] < g.len());
        lemma_add_edge_closed(add_chain(g, steps, (n - 1) as nat), steps[n - 1] as int, steps[n as int] as usize, 0);
    }
}

proof fn lemma_lanes_closed(p: PlanModel, n: nat)
    requires
        n <= p.lanes.len(),
        forall|a: int, b: int, index: int| #[trigger] p.lists(a, b, index) ==> index < p.steps.len(),
    ensures
        closed(p.lanes_graph(n)),
        p.lanes_graph(n).len() == p.steps.len(),
    decreases n,
{
    if n > 0 {
        lemma_lanes_closed(p, (n - 1) as nat);
        let g = p.lanes_graph((n - 1) as nat);
        let steps = p.lanes[n - 1].steps;
        assert forall|k: int| 0 <= k < steps.len() implies (#[trigger] steps[k]) < g.len() by {
            assert(p.lists(n - 1, k, steps[k] as int));
        }
        if steps.len() > 0 {
            lemma_add_chain_closed(g, steps, (steps.len() - 1) as nat);
            assert(steps[0] < g.len() && steps[steps.len() - 1] < g.len());
            lemma_add_edge_closed(
                add_chain(g, steps, (steps.len() - 1) as nat),
                steps.last() as int,
                steps[0] as usize,
                1,
            );
        }
    }
}

proof fn lemma_graph_closed(p: PlanModel, n: nat)
    requires
        n <= p.dependencies.len(),
        known_dependencies(p),
        forall|a: int, b: int, index: int| #[trigger] p.lists(a, b, index) ==> index < p.steps.len(),
    ensures
        closed(p.dependencies_graph(n)),
        p.dependencies_graph(n).len() == p.steps.len(),
    decreases n,
{
    if n == 0 {
        lemma_lanes_closed(p, p.lanes.len());
    } else {
        lemma_graph_closed(p, (n - 1) as nat);
        let d = p.dependencies[n - 1];
        lemma_add_edge_closed(p.dependencies_graph((n - 1) as nat), d.from as int, d.to as usize, d.cycle_lag);
    }
}

proof fn lemma_pairs(p: PlanModel, shape: ShapeModel, cl: int, n: nat)
    requires
        n <= shape.required.len(),
    ensures
        p.pairs_failure(shape, cl, n) is None <==> forall|r: int|
            0 <= r < n ==> before(
                p,
                p.occurrence(shape.keys[(#[trigger] shape.required[r]).0 as int], cl),
                p.occurrence(shape.keys[shape.required[r].1 as int], cl),
            ),
    decreases n,
{
    if n > 0 {
        lemma_pairs(p, shape, cl, (n - 1) as nat);
        let (from, to) = shape.required[n - 1];
        assert(p.pairs_failure(shape, cl, n) is None <==> p.pairs_failure(shape, cl, (n - 1) as nat) is None && before(
            p,
            p.occurrence(shape.keys[from as int], cl),
            p.occurrence(shape.keys[to as int], cl),
        ));
    }
}

proof fn lemma_required(p: PlanModel, shape: ShapeModel, n: nat)
    ensures
        p.required_failure(shape, n) is None <==> forall|c: int|
            0 <= c < n ==> (#[trigger] p.pairs_failure(shape, c, shape.required.len())) is None,
    decreases n,
{
    if n > 0 {
        lemma_required(p, shape, (n - 1) as nat);
    }
}

proof fn lemma_required_ordered(p: PlanModel, shape: ShapeModel)
    ensures
        p.required_failure(shape, p.copperlists_per_cycle as nat) is None <==> required_ordered(p, shape),
{
    let n = p.copperlists_per_cycle as nat;
    lemma_required(p, shape, n);
    if p.required_failure(shape, n) is None {
        assert forall|r: int, c: int|
            #![trigger shape.required[r], p.occurrence(shape.keys[shape.required[r].0 as int], c)]
            0 <= r < shape.required.len() && 0 <= c < n implies before(
            p,
            p.occurrence(shape.keys[shape.required[r].0 as int], c),
            p.occurrence(shape.keys[shape.required[r].1 as int], c),
        ) by {
            assert(p.pairs_failure(shape, c, shape.required.len()) is None);
            lemma_pairs(p, shape, c, shape.required.len());
        }
    }
    if required_ordered(p, shape) {
        assert forall|c: int| 0 <= c < n implies (#[trigger] p.pairs_failure(shape, c, shape.required.len())) is None by {
            lemma_pairs(p, shape, c, shape.required.len());
        }
    }
}

// ---------------------------------------------------------------------------
// Components
// ---------------------------------------------------------------------------

/// Whether the entries of `s` are ordered by place.
spec fn ranked(p: PlanModel, s: Seq<usize>) -> bool {
    forall|i: int, j: int| 0 <= i < j < s.len() ==> p.rank(#[trigger] s[i] as int) <= p.rank(#[trigger] s[j] as int)
}

proof fn lemma_insert_ranked(p: PlanModel, s: Seq<usize>, x: usize)
    requires
        ranked(p, s),
    ensures
        ranked(p, p.insert_ranked(s, x)),
        p.insert_ranked(s, x).len() == s.len() + 1,
        forall|v: usize| #[trigger] p.insert_ranked(s, x).contains(v) <==> s.contains(v) || v == x,
        s.no_duplicates() && !s.contains(x) ==> p.insert_ranked(s, x).no_duplicates(),
    decreases s.len(),
{
    let t = p.insert_ranked(s, x);
    if s.len() == 0 {
        assert(t[0] == x);
    } else if p.rank(s.last() as int) <= p.rank(x as int) {
        assert(t == s.push(x));
        assert(t[s.len() as int] == x);
        assert forall|v: usize| #[trigger] t.contains(v) <==> s.contains(v) || v == x by {
            if s.contains(v) {
                let i = s.index_of(v);
                assert(t[i] == v);
            }
        }
        assert forall|i: int, j: int| 0 <= i < j < t.len() implies p.rank(#[trigger] t[i] as int) <= p.rank(
            #[trigger] t[j] as int,
        ) by {
            if j == s.len() {
                assert(p.rank(s[i] as int) <= p.rank(s[s.len() - 1] as int));
            }
        }
    } else {
        let r = s.drop_last();
        assert forall|i: int, j: int| 0 <= i < j < r.len() implies p.rank(#[trigger] r[i] as int) <= p.rank(
            #[trigger] r[j] as int,
        ) by {
            assert(r[i] == s[i] && r[j] == s[j]);
        }
        lemma_insert_ranked(p, r, x);
        let u = p.insert_ranked(r, x);
        assert(t == u.push(s.last()));
        assert forall|v: usize| #[trigger] t.contains(v) <==> s.contains(v) || v == x by {
            if t.contains(v) {
                let i = t.index_of(v);
                if i < u.len() {
                    assert(u[i] == v);
                    assert(u.contains(v));
                    if r.contains(v) {
                        assert(s[r.index_of(v)] == v);
                    }
                }
            }
            if s.contains(v) {
                let i = s.index_of(v);
                if i < r.len() {
                    assert(r[i] == v);
                    assert(r.contains(v));
                    assert(u.contains(v));
                    assert(t[u.index_of(v)] == v);
                } else {
                    assert(t[u.len() as int] == v);
                }
            }
            if v == x {
                assert(u.contains(v));
                assert(t[u.index_of(v)] == v);
            }
        }
        assert forall|i: int, j: int| 0 <= i < j < t.len() implies p.rank(#[trigger] t[i] as int) <= p.rank(
            #[trigger] t[j] as int,
        ) by {
            if j == u.len() {
                assert(u.contains(u[i]));
                if u[i] != x {
                    assert(r.contains(u[i]));
                    let k = r.index_of(u[i]);
                    assert(s[k] == u[i]);
                    assert(p.rank(s[k] as int) <= p.rank(s[s.len() - 1] as int));
                }
            } else {
                assert(t[i] == u[i] && t[j] == u[j]);
            }
        }
        if s.no_duplicates() && !s.contains(x) {
            assert(r.no_duplicates());
            assert(!r.contains(x)) by {
                if r.contains(x) {
                    assert(s[r.index_of(x)] == x);
                }
            }
            assert(!u.contains(s.last())) by {
                if u.contains(s.last()) {
                    if r.contains(s.last()) {
                        assert(s[r.index_of(s.last())] == s[s.len() - 1]);
                    } else {
                        assert(s.contains(s[s.len() - 1]));
                    }
                }
            }
            assert forall|i: int, j: int| 0 <= i < t.len() && 0 <= j < t.len() && i != j implies t[i] != t[j] by {
                if i < u.len() && j < u.len() {
                    assert(u[i] != u[j]);
                } else if i < u.len() {
                    assert(u.contains(u[i]));
                } else {
                    assert(u.contains(u[j]));
                }
            }
        }
    }
}

/// What the component checks go by.
spec fn component_context(p: PlanModel, shape: ShapeModel, component: Seq<usize>) -> bool {
    &&& complete_inventory(p, shape)
    &&& p.inventory_failure(shape.keys, p.steps.len()) is None
    &&& p.steps.len() <= usize::MAX
    &&& shape.keys.len() <= usize::MAX
    &&& component.no_duplicates()
    &&& component.len() > 0
    &&& forall|i: int| 0 <= i < component.len() ==> (#[trigger] component[i]) < shape.keys.len()
    &&& closed(p.graph())
    &&& p.graph().len() == p.steps.len()
    &&& acyclic(p.graph())
}

proof fn lemma_call(p: PlanModel, shape: ShapeModel, component: Seq<usize>, i: int, c: int)
    requires
        component_context(p, shape, component),
        0 <= i < component.len(),
        0 <= c < p.copperlists_per_cycle,
    ensures
        0 <= call(p, shape, component, i, c) < p.steps.len(),
        forall|j: int|
            0 <= j < component.len() && j != i ==> #[trigger] call(p, shape, component, j, c) != call(
                p,
                shape,
                component,
                i,
                c,
            ),
{
    lemma_inventory_full(p, shape.keys, component[i] as int, c);
    assert forall|j: int| 0 <= j < component.len() && j != i implies #[trigger] call(p, shape, component, j, c) != call(
        p,
        shape,
        component,
        i,
        c,
    ) by {
        lemma_inventory_full(p, shape.keys, component[j] as int, c);
        assert(component[i] != component[j]);
    }
}

proof fn lemma_calls(p: PlanModel, shape: ShapeModel, component: Seq<usize>, c: int, n: nat)
    requires
        component_context(p, shape, component),
        0 <= c < p.copperlists_per_cycle,
        n <= component.len(),
    ensures
        ranked(p, p.calls_of(shape, component, c, n)),
        p.calls_of(shape, component, c, n).len() == n,
        p.calls_of(shape, component, c, n).no_duplicates(),
        forall|v: usize| #[trigger]
            p.calls_of(shape, component, c, n).contains(v) <==> exists|i: int|
                0 <= i < n && #[trigger] call(p, shape, component, i, c) == v,
    decreases n,
{
    let s = p.calls_of(shape, component, c, n);
    if n > 0 {
        let r = p.calls_of(shape, component, c, (n - 1) as nat);
        let x = call(p, shape, component, n - 1, c) as usize;
        lemma_calls(p, shape, component, c, (n - 1) as nat);
        lemma_call(p, shape, component, n - 1, c);
        lemma_insert_ranked(p, r, x);
        assert(!r.contains(x));
        assert forall|v: usize| #[trigger] s.contains(v) <==> exists|i: int|
            0 <= i < n && #[trigger] call(p, shape, component, i, c) == v by {
            if s.contains(v) && v == x {
                assert(call(p, shape, component, n - 1, c) == v);
            }
        }
    }
}

proof fn lemma_chain(p: PlanModel, s: Seq<usize>, n: nat)
    requires
        n < s.len() || n == 0,
    ensures
        p.chain_failure(s, n) is None ==> forall|i: int, j: int|
            0 <= i < j <= n ==> before(p, #[trigger] s[i] as int, #[trigger] s[j] as int),
        (forall|i: int, j: int| 0 <= i < j <= n && j == i + 1 ==> before(p, #[trigger] s[i] as int, #[trigger] s[j] as int))
            ==> p.chain_failure(s, n) is None,
    decreases n,
{
    if n > 0 {
        lemma_chain(p, s, (n - 1) as nat);
        if p.chain_failure(s, n) is None {
            assert forall|i: int, j: int| 0 <= i < j <= n implies before(
                p,
                #[trigger] s[i] as int,
                #[trigger] s[j] as int,
            ) by {
                if j == n && i < n - 1 {
                    precedence_is_transitive(p.graph(), s[i] as int, s[n - 1] as int, s[n as int] as int, 0, 0);
                }
            }
        }
        if forall|i: int, j: int| 0 <= i < j <= n && j == i + 1 ==> before(p, #[trigger] s[i] as int, #[trigger] s[j] as int) {
            assert(before(p, s[n - 1] as int, s[n as int] as int));
        }
    }
}

proof fn lemma_within(p: PlanModel, shape: ShapeModel, component: Seq<usize>, n: nat)
    ensures
        p.within_failure(shape, component, n) is None <==> forall|c: int|
            0 <= c < n ==> p.chain_failure(
                #[trigger] p.calls(shape, component, c),
                (component.len() - 1) as nat,
            ) is None,
    decreases n,
{
    if n > 0 {
        lemma_within(p, shape, component, (n - 1) as nat);
    }
}

proof fn lemma_between(p: PlanModel, shape: ShapeModel, component: Seq<usize>, n: nat)
    ensures
        p.between_failure(shape, component, n) is None <==> forall|c: int, d: int|
            0 <= c < n && d == c + 1 ==> before(
                p,
                (#[trigger] p.calls(shape, component, c)).last() as int,
                (#[trigger] p.calls(shape, component, d))[0] as int,
            ),
    decreases n,
{
    if n > 0 {
        lemma_between(p, shape, component, (n - 1) as nat);
        assert(p.between_failure(shape, component, n) is None <==> p.between_failure(shape, component, (n - 1) as nat)
            is None && before(
            p,
            p.calls(shape, component, n - 1).last() as int,
            p.calls(shape, component, n as int)[0] as int,
        ));
    }
}

/// The place of a call in the ordered calls of its CopperList.
proof fn lemma_call_place(p: PlanModel, shape: ShapeModel, component: Seq<usize>, i: int, c: int) -> (a: int)
    requires
        component_context(p, shape, component),
        0 <= i < component.len(),
        0 <= c < p.copperlists_per_cycle,
    ensures
        0 <= a < p.calls(shape, component, c).len() == component.len(),
        p.calls(shape, component, c)[a] == call(p, shape, component, i, c),
{
    lemma_calls(p, shape, component, c, component.len());
    lemma_call(p, shape, component, i, c);
    let s = p.calls(shape, component, c);
    let v = call(p, shape, component, i, c) as usize;
    assert(s.contains(v));
    s.index_of(v)
}

/// The step whose call stands at a place of the ordered calls.
proof fn lemma_place_call(p: PlanModel, shape: ShapeModel, component: Seq<usize>, a: int, c: int) -> (i: int)
    requires
        component_context(p, shape, component),
        0 <= a < component.len(),
        0 <= c < p.copperlists_per_cycle,
    ensures
        0 <= i < component.len(),
        p.calls(shape, component, c).len() == component.len(),
        p.calls(shape, component, c)[a] == call(p, shape, component, i, c),
{
    lemma_calls(p, shape, component, c, component.len());
    let s = p.calls(shape, component, c);
    assert(s.contains(s[a]));
    choose|i: int| 0 <= i < component.len() && #[trigger] call(p, shape, component, i, c) == s[a]
}

/// In ordered calls the last one follows, or is, every call, and every call
/// follows, or is, the first one.
proof fn lemma_ends(p: PlanModel, shape: ShapeModel, component: Seq<usize>, i: int, c: int)
    requires
        component_context(p, shape, component),
        0 <= i < component.len(),
        0 <= c < p.copperlists_per_cycle,
        p.chain_failure(p.calls(shape, component, c), (component.len() - 1) as nat) is None,
    ensures
        p.calls(shape, component, c).len() == component.len(),
        call(p, shape, component, i, c) == p.calls(shape, component, c).last() || before(
            p,
            call(p, shape, component, i, c),
            p.calls(shape, component, c).last() as int,
        ),
        call(p, shape, component, i, c) == p.calls(shape, component, c)[0] || before(
            p,
            p.calls(shape, component, c)[0] as int,
            call(p, shape, component, i, c),
        ),
{
    let s = p.calls(shape, component, c);
    let a = lemma_call_place(p, shape, component, i, c);
    lemma_chain(p, s, (component.len() - 1) as nat);
    if a < s.len() - 1 {
        assert(before(p, s[a] as int, s[s.len() - 1] as int));
    }
    if a > 0 {
        assert(before(p, s[0] as int, s[a] as int));
    }
}

proof fn lemma_bridge(p: PlanModel, a: int, x: int, y: int, b: int, lag: int)
    requires
        a == x || before(p, a, x),
        precedes(p.graph(), x, y, lag),
        y == b || before(p, y, b),
    ensures
        precedes(p.graph(), a, b, lag),
{
    if a != x {
        precedence_is_transitive(p.graph(), a, x, y, 0, lag);
    }
    if y != b {
        precedence_is_transitive(p.graph(), a, y, b, lag, 0);
    }
}

proof fn lemma_ordered_component(p: PlanModel, shape: ShapeModel, component: Seq<usize>)
    requires
        component_context(p, shape, component),
        p.component_failure(shape, component) is None,
    ensures
        exclusive(p, shape, component),
{
    let cls = p.copperlists_per_cycle as int;
    let last = cls - 1;
    let m = (component.len() - 1) as nat;
    lemma_within(p, shape, component, cls as nat);
    lemma_between(p, shape, component, last as nat);
    assert forall|c: int| 0 <= c < cls implies p.chain_failure(#[trigger] p.calls(shape, component, c), m) is None by {}
    assert forall|i: int, j: int, c: int|
        #![trigger call(p, shape, component, i, c), call(p, shape, component, j, c)]
        0 <= i < component.len() && 0 <= j < component.len() && i != j && 0 <= c <= last implies before(
        p,
        call(p, shape, component, i, c),
        call(p, shape, component, j, c),
    ) || before(p, call(p, shape, component, j, c), call(p, shape, component, i, c)) by {
        let s = p.calls(shape, component, c);
        let a = lemma_call_place(p, shape, component, i, c);
        let b = lemma_call_place(p, shape, component, j, c);
        lemma_call(p, shape, component, i, c);
        lemma_chain(p, s, m);
        if a < b {
            assert(before(p, s[a] as int, s[b] as int));
        } else {
            assert(before(p, s[b] as int, s[a] as int));
        }
    }
    assert forall|i: int, j: int, c: int, d: int|
        #![trigger call(p, shape, component, i, c), call(p, shape, component, j, d)]
        0 <= i < component.len() && 0 <= j < component.len() && 0 <= c < last && d == c + 1 implies before(
        p,
        call(p, shape, component, i, c),
        call(p, shape, component, j, d),
    ) by {
        lemma_ends(p, shape, component, i, c);
        lemma_ends(p, shape, component, j, d);
        lemma_bridge(
            p,
            call(p, shape, component, i, c),
            p.calls(shape, component, c).last() as int,
            p.calls(shape, component, d)[0] as int,
            call(p, shape, component, j, d),
            0,
        );
    }
    assert forall|i: int, j: int|
        #![trigger call(p, shape, component, i, last), call(p, shape, component, j, 0)]
        0 <= i < component.len() && 0 <= j < component.len() implies precedes(
        p.graph(),
        call(p, shape, component, i, last),
        call(p, shape, component, j, 0),
        1,
    ) by {
        lemma_ends(p, shape, component, i, last);
        lemma_ends(p, shape, component, j, 0);
        lemma_bridge(
            p,
            call(p, shape, component, i, last),
            p.calls(shape, component, last).last() as int,
            p.calls(shape, component, 0)[0] as int,
            call(p, shape, component, j, 0),
            1,
        );
    }
}

proof fn lemma_exclusive_component(p: PlanModel, shape: ShapeModel, component: Seq<usize>)
    requires
        component_context(p, shape, component),
        exclusive(p, shape, component),
    ensures
        p.component_failure(shape, component) is None,
{
    let g = p.graph();
    let cls = p.copperlists_per_cycle as int;
    let last = cls - 1;
    let m = (component.len() - 1) as nat;
    lemma_within(p, shape, component, cls as nat);
    lemma_between(p, shape, component, last as nat);
    walk_order_ranks(g);
    let rank = Seq::new(g.len(), |v: int| walk_order(g).index_of(v as usize) as nat);
    assert forall|c: int| 0 <= c < cls implies p.chain_failure(#[trigger] p.calls(shape, component, c), m) is None by {
        let s = p.calls(shape, component, c);
        lemma_calls(p, shape, component, c, component.len());
        assert forall|i: int, j: int| 0 <= i < j <= m && j == i + 1 implies before(
            p,
            #[trigger] s[i] as int,
            #[trigger] s[j] as int,
        ) by {
            let a = lemma_place_call(p, shape, component, i, c);
            let b = lemma_place_call(p, shape, component, j, c);
            assert(s[i] != s[j]);
            lemma_call(p, shape, component, a, c);
            lemma_call(p, shape, component, b, c);
            let x = call(p, shape, component, a, c);
            let y = call(p, shape, component, b, c);
            if before(p, y, x) {
                precedence_follows_ranks(g, rank, y, x);
                assert(walk_order(g).contains(x as usize) && walk_order(g).contains(y as usize));
                assert(rank[x] == p.rank(x) && rank[y] == p.rank(y));
            }
        }
        lemma_chain(p, s, m);
    }
    assert forall|c: int, d: int| 0 <= c < last && d == c + 1 implies before(
        p,
        (#[trigger] p.calls(shape, component, c)).last() as int,
        (#[trigger] p.calls(shape, component, d))[0] as int,
    ) by {
        let i = lemma_place_call(p, shape, component, m as int, c);
        let j = lemma_place_call(p, shape, component, 0, d);
        assert(before(p, call(p, shape, component, i, c), call(p, shape, component, j, d)));
    }
    let i = lemma_place_call(p, shape, component, m as int, last);
    let j = lemma_place_call(p, shape, component, 0, 0);
    assert(precedes(g, call(p, shape, component, i, last), call(p, shape, component, j, 0), 1));
}

proof fn lemma_components(p: PlanModel, shape: ShapeModel, n: nat)
    ensures
        p.components_failure(shape, n) is None <==> forall|k: int|
            0 <= k < n ==> p.component_failure(shape, #[trigger] shape.components[k]) is None,
    decreases n,
{
    if n > 0 {
        lemma_components(p, shape, (n - 1) as nat);
    }
}

/// Validation finds nothing wrong with exactly the valid schedules.
pub proof fn validation_accepts_exactly_the_valid_plans(p: PlanModel, pools: Seq<ThreadPool>, shape: ShapeModel)
    requires
        shape.wf(),
        p.steps.len() <= usize::MAX,
        shape.keys.len() <= usize::MAX,
    ensures
        p.failure(pools, shape) is None <==> valid(p, pools, shape),
{
    let keys = shape.keys;
    if p.copperlists_per_cycle > 0 && p.steps.len() == shape.keys.len() * p.copperlists_per_cycle as nat {
        lemma_complete_inventory(p, shape);
        if p.lanes.len() > 0 && complete_inventory(p, shape) {
            lemma_complete_lanes(p, pools);
            if complete_lanes(p, pools) && known_dependencies(p) && acyclic(p.graph()) {
                lemma_graph_closed(p, p.dependencies.len());
                lemma_required_ordered(p, shape);
                lemma_components(p, shape, shape.components.len());
                assert forall|k: int| 0 <= k < shape.components.len() implies (p.component_failure(
                    shape,
                    #[trigger] shape.components[k],
                ) is None <==> exclusive(p, shape, shape.components[k])) by {
                    let component = shape.components[k];
                    if component.len() > 0 {
                        assert forall|i: int| 0 <= i < component.len() implies (#[trigger] component[i]) < shape.keys.len() by {
                            assert(shape.components[k][i] < shape.keys.len());
                        }
                        if p.component_failure(shape, component) is None {
                            lemma_ordered_component(p, shape, component);
                        }
                        if exclusive(p, shape, component) {
                            lemma_exclusive_component(p, shape, component);
                        }
                    }
                }
            }
        }
    }
}

// ---------------------------------------------------------------------------
// The edges of a plan
// ---------------------------------------------------------------------------

/// Whether the graph has that edge.
pub open spec fn has_edge(g: Graph, from: int, to: int, lag: int) -> bool {
    exists|k: int| 0 <= k < g[from].len() && (#[trigger] g[from][k]).0 == to && g[from][k].1 == lag
}

/// Whether entry `k + 1` of lane `l` is `to` and the entry before it `from`.
pub open spec fn lane_follows(p: PlanModel, l: int, k: int, from: int, to: int) -> bool {
    &&& 0 <= l < p.lanes.len()
    &&& 0 <= k < p.lanes[l].steps.len() - 1
    &&& p.lanes[l].steps[k] == from
    &&& p.lanes[l].steps[k + 1] == to
}

/// Whether lane `l` starts with `to` and ends with `from`.
pub open spec fn lane_wraps(p: PlanModel, l: int, from: int, to: int) -> bool {
    &&& 0 <= l < p.lanes.len()
    &&& p.lanes[l].steps.len() > 0
    &&& p.lanes[l].steps.last() == from
    &&& p.lanes[l].steps[0] == to
}

/// Whether one of the first `n` dependencies is that edge.
pub open spec fn depends(p: PlanModel, n: int, from: int, to: int, lag: int) -> bool {
    exists|d: int|
        0 <= d < n && (#[trigger] p.dependencies[d]).from == from && p.dependencies[d].to == to
            && p.dependencies[d].cycle_lag == lag
}

pub(crate) proof fn lemma_add_edge(g: Graph, f: int, t: usize, l: u32, from: int, to: int, lag: int)
    requires
        0 <= f < g.len(),
        0 <= from < g.len(),
    ensures
        has_edge(add_edge(g, f, t, l), from, to, lag) <==> has_edge(g, from, to, lag) || (from == f && to == t && lag == l),
{
    let h = add_edge(g, f, t, l);
    if has_edge(g, from, to, lag) {
        let k = choose|k: int| 0 <= k < g[from].len() && (#[trigger] g[from][k]).0 == to && g[from][k].1 == lag;
        assert(h[from][k] == g[from][k]);
    }
    if from == f && to == t && lag == l {
        assert(h[from][g[from].len() as int] == (t, l));
    }
    if has_edge(h, from, to, lag) && !(from == f && to == t && lag == l) {
        let k = choose|k: int| 0 <= k < h[from].len() && (#[trigger] h[from][k]).0 == to && h[from][k].1 == lag;
        assert(g[from][k] == h[from][k]);
    }
}

proof fn lemma_add_chain(g: Graph, steps: Seq<u32>, n: nat, from: int, to: int, lag: int)
    requires
        n < steps.len() || n == 0,
        forall|k: int| 0 <= k < steps.len() ==> (#[trigger] steps[k]) < g.len(),
        0 <= from < g.len(),
    ensures
        add_chain(g, steps, n).len() == g.len(),
        has_edge(add_chain(g, steps, n), from, to, lag) <==> has_edge(g, from, to, lag) || (lag == 0 && exists|k: int|
            0 <= k < n && #[trigger] steps[k] == from && steps[k + 1] == to),
    decreases n,
{
    if n > 0 {
        let h = add_chain(g, steps, (n - 1) as nat);
        lemma_add_chain(g, steps, (n - 1) as nat, from, to, lag);
        assert(steps[n - 1] < g.len() && steps[n as int] < g.len());
        lemma_add_edge(h, steps[n - 1] as int, steps[n as int] as usize, 0, from, to, lag);
        if has_edge(add_chain(g, steps, n), from, to, lag) && !has_edge(h, from, to, lag) {
            assert(steps[n - 1] == from && steps[n - 1 + 1] == to);
        }
    }
}

proof fn lemma_lanes_edges(p: PlanModel, n: nat, from: int, to: int, lag: int)
    requires
        n <= p.lanes.len(),
        forall|a: int, b: int, index: int| #[trigger] p.lists(a, b, index) ==> index < p.steps.len(),
        0 <= from < p.steps.len(),
    ensures
        p.lanes_graph(n).len() == p.steps.len(),
        has_edge(p.lanes_graph(n), from, to, lag) <==> {
            ||| lag == 0 && exists|l: int, k: int| l < n && #[trigger] lane_follows(p, l, k, from, to)
            ||| lag == 1 && exists|l: int| l < n && #[trigger] lane_wraps(p, l, from, to)
        },
    decreases n,
{
    if n > 0 {
        let g = p.lanes_graph((n - 1) as nat);
        let steps = p.lanes[n - 1].steps;
        lemma_lanes_edges(p, (n - 1) as nat, from, to, lag);
        assert forall|k: int| 0 <= k < steps.len() implies (#[trigger] steps[k]) < g.len() by {
            assert(p.lists(n - 1, k, steps[k] as int));
        }
        if steps.len() > 0 {
            let m = (steps.len() - 1) as nat;
            lemma_add_chain(g, steps, m, from, to, lag);
            assert(steps[m as int] < g.len() && steps[0] < g.len());
            lemma_add_edge(add_chain(g, steps, m), steps.last() as int, steps[0] as usize, 1, from, to, lag);
            if exists|k: int| 0 <= k < m && #[trigger] steps[k] == from && steps[k + 1] == to {
                let k = choose|k: int| 0 <= k < m && #[trigger] steps[k] == from && steps[k + 1] == to;
                assert(lane_follows(p, n - 1, k, from, to));
            }
            if steps.last() == from && steps[0] == to {
                assert(lane_wraps(p, n - 1, from, to));
            }
            if exists|l: int, k: int| l < n && #[trigger] lane_follows(p, l, k, from, to) {
                let (l, k) = choose|l: int, k: int| l < n && #[trigger] lane_follows(p, l, k, from, to);
                if l == n - 1 {
                    assert(steps[k] == from && steps[k + 1] == to);
                }
            }
        }
    }
}

proof fn lemma_dependency_edges(p: PlanModel, n: nat, from: int, to: int, lag: int)
    requires
        n <= p.dependencies.len(),
        known_dependencies(p),
        forall|a: int, b: int, index: int| #[trigger] p.lists(a, b, index) ==> index < p.steps.len(),
        0 <= from < p.steps.len(),
    ensures
        p.dependencies_graph(n).len() == p.steps.len(),
        has_edge(p.dependencies_graph(n), from, to, lag) <==> has_edge(
            p.lanes_graph(p.lanes.len()),
            from,
            to,
            lag,
        ) || depends(p, n as int, from, to, lag),
    decreases n,
{
    if n == 0 {
        lemma_lanes_edges(p, p.lanes.len(), from, to, lag);
    } else {
        lemma_dependency_edges(p, (n - 1) as nat, from, to, lag);
        let d = p.dependencies[n - 1];
        lemma_add_edge(p.dependencies_graph((n - 1) as nat), d.from as int, d.to as usize, d.cycle_lag, from, to, lag);
        if depends(p, n as int, from, to, lag) && !depends(p, n - 1, from, to, lag) {
            let i = choose|i: int|
                0 <= i < n && (#[trigger] p.dependencies[i]).from == from && p.dependencies[i].to == to
                    && p.dependencies[i].cycle_lag == lag;
            assert(i == n - 1);
        }
    }
}

/// A plan's precedence is exactly its lane order, the end of each lane before
/// its start in the next cycle, and its dependencies.
pub proof fn plan_edges(p: PlanModel, from: int, to: int, lag: int)
    requires
        known_dependencies(p),
        forall|a: int, b: int, index: int| #[trigger] p.lists(a, b, index) ==> index < p.steps.len(),
        0 <= from < p.steps.len(),
    ensures
        p.graph().len() == p.steps.len(),
        has_edge(p.graph(), from, to, lag) <==> {
            ||| lag == 0 && exists|l: int, k: int| #[trigger] lane_follows(p, l, k, from, to)
            ||| lag == 1 && exists|l: int| #[trigger] lane_wraps(p, l, from, to)
            ||| depends(p, p.dependencies.len() as int, from, to, lag)
        },
{
    lemma_dependency_edges(p, p.dependencies.len(), from, to, lag);
    lemma_lanes_edges(p, p.lanes.len(), from, to, lag);
    if exists|l: int, k: int| #[trigger] lane_follows(p, l, k, from, to) {
        let (l, k) = choose|l: int, k: int| #[trigger] lane_follows(p, l, k, from, to);
        assert(l < p.lanes.len() && lane_follows(p, l, k, from, to));
    }
    if exists|l: int| #[trigger] lane_wraps(p, l, from, to) {
        let l = choose|l: int| #[trigger] lane_wraps(p, l, from, to);
        assert(l < p.lanes.len() && lane_wraps(p, l, from, to));
    }
}

/// The turn of occurrence `i` in a cycle, when each cycle takes its occurrences
/// in the order of the graph's topological walk.
pub open spec fn turn(p: PlanModel, cycle: nat, i: int) -> nat {
    cycle * p.steps.len() + walk_order(p.graph()).index_of(i as usize) as nat
}

/// A valid schedule never gets stuck: the occurrences of all cycles can take
/// turns so that whatever an occurrence waits for, in its lane, in the cycle
/// before or by a dependency, has had its turn.
pub proof fn valid_plan_never_gets_stuck(
    p: PlanModel,
    pools: Seq<ThreadPool>,
    shape: ShapeModel,
    from: int,
    to: int,
    lag: nat,
    cycle: nat,
)
    requires
        valid(p, pools, shape),
        p.steps.len() <= usize::MAX,
        0 <= from < p.steps.len(),
        has_edge(p.graph(), from, to, lag as int),
        lag <= cycle,
    ensures
        turn(p, (cycle - lag) as nat, from) < turn(p, cycle, to),
{
    let g = p.graph();
    let n = p.steps.len();
    plan_edges(p, from, to, lag as int);
    lemma_graph_closed(p, p.dependencies.len());
    let k = choose|k: int| 0 <= k < g[from].len() && (#[trigger] g[from][k]).0 == to && g[from][k].1 == lag;
    assert(0 <= to < n);
    walk_order_ranks(g);
    let order = walk_order(g);
    assert(order.contains(from as usize) && order.contains(to as usize));
    let a = order.index_of(from as usize);
    let b = order.index_of(to as usize);
    if lag == 0 {
        let rank = Seq::new(g.len(), |v: int| order.index_of(v as usize) as nat);
        assert(rank[from] < rank[g[from][k].0 as int]);
    } else {
        assert((cycle - lag) * n + n <= cycle * n) by (nonlinear_arith)
            requires
                0 < lag <= cycle,
                0 <= n,
        ;
    }
}

// ---------------------------------------------------------------------------
// Serial schedules
// ---------------------------------------------------------------------------

/// Whether the steps of `shape` can run in the order of `keys`: the keys are
/// those of its steps, each once, and required pairs point forward.
pub open spec fn runs_in(shape: ShapeModel, keys: Seq<Seq<char>>) -> bool {
    &&& keys.no_duplicates()
    &&& keys.len() == shape.keys.len()
    &&& shape.keys.no_duplicates()
    &&& forall|k: int| 0 <= k < shape.keys.len() ==> keys.contains(#[trigger] shape.keys[k])
    &&& forall|i: int| 0 <= i < keys.len() ==> shape.keys.contains(#[trigger] keys[i])
    &&& forall|r: int|
        0 <= r < shape.required.len() ==> keys.index_of(shape.keys[(#[trigger] shape.required[r]).0 as int])
            < keys.index_of(shape.keys[shape.required[r].1 as int])
}

/// Whether required pairs point forward.
pub open spec fn points_forward(shape: ShapeModel) -> bool {
    forall|r: int| 0 <= r < shape.required.len() ==> (#[trigger] shape.required[r]).0 < shape.required[r].1
}

proof fn lemma_serial_lists(p: PlanModel, shape: ShapeModel)
    requires
        shape.wf(),
        shape.is_serial(p),
    ensures
        forall|a: int, b: int, index: int| #[trigger] p.lists(a, b, index) ==> a == 0 && b == index && index < p.steps.len(),
        known_dependencies(p),
{
    assert forall|d: int| 0 <= d < p.dependencies.len() implies (#[trigger] p.dependencies[d]).from < p.steps.len()
        && p.dependencies[d].to < p.steps.len() by {
        let link = p.dependencies[d];
        assert(p.dependencies.contains(link));
        assert(shape.spells_out(link));
        lemma_spelled_range(shape, link);
    }
}

pub(crate) proof fn lemma_spelled_range(shape: ShapeModel, d: CuPlanDependency)
    requires
        shape.wf(),
        shape.spells_out(d),
    ensures
        d.from < shape.keys.len(),
        d.to < shape.keys.len(),
        d.cycle_lag == 0 && points_forward(shape) ==> d.from < d.to,
{
    if d.cycle_lag == 0 && shape.required.contains((d.from as usize, d.to as usize)) {
        let r = shape.required.index_of((d.from as usize, d.to as usize));
        assert(shape.required[r] == (d.from as usize, d.to as usize));
    } else if d.cycle_lag == 0 {
        let (c, i) = choose|c: int, i: int| #[trigger] shape.state_follows(c, i, d.from as int, d.to as int);
        assert(shape.components[c][i] < shape.components[c][i + 1]);
        assert(shape.components[c][i + 1] < shape.keys.len());
    } else {
        let c = choose|c: int| #[trigger] shape.state_spans(c, d.to as int, d.from as int);
        assert(shape.components[c][0] < shape.keys.len());
        assert(shape.components[c][shape.components[c].len() - 1] < shape.keys.len());
    }
}

proof fn lemma_serial_chain(p: PlanModel, shape: ShapeModel, i: int, j: int)
    requires
        shape.wf(),
        shape.is_serial(p),
        0 <= i < j < p.steps.len(),
    ensures
        before(p, i, j),
    decreases j - i,
{
    lemma_serial_lists(p, shape);
    assert(lane_follows(p, 0, j - 1, j - 1, j));
    plan_edges(p, j - 1, j, 0);
    let g = p.graph();
    let k = choose|k: int| 0 <= k < g[j - 1].len() && (#[trigger] g[j - 1][k]).0 == j && g[j - 1][k].1 == 0;
    edge_precedes(g, j - 1, k);
    if i < j - 1 {
        lemma_serial_chain(p, shape, i, j - 1);
        precedence_is_transitive(g, i, j - 1, j, 0, 0);
    }
}

proof fn lemma_serial_wrap(p: PlanModel, shape: ShapeModel, i: int, j: int)
    requires
        shape.wf(),
        shape.is_serial(p),
        0 <= i < p.steps.len(),
        0 <= j < p.steps.len(),
    ensures
        precedes(p.graph(), i, j, 1),
{
    let n = p.steps.len() as int;
    lemma_serial_lists(p, shape);
    assert(lane_wraps(p, 0, n - 1, 0));
    plan_edges(p, n - 1, 0, 1);
    let g = p.graph();
    let k = choose|k: int| 0 <= k < g[n - 1].len() && (#[trigger] g[n - 1][k]).0 == 0 && g[n - 1][k].1 == 1;
    edge_precedes(g, n - 1, k);
    if i < n - 1 {
        lemma_serial_chain(p, shape, i, n - 1);
    }
    if j > 0 {
        lemma_serial_chain(p, shape, 0, j);
    }
    lemma_bridge(p, i, n - 1, 0, j, 1);
}

proof fn lemma_serial_acyclic(p: PlanModel, shape: ShapeModel)
    requires
        shape.wf(),
        shape.is_serial(p),
        points_forward(shape),
    ensures
        acyclic(p.graph()),
{
    let g = p.graph();
    lemma_serial_lists(p, shape);
    lemma_graph_closed(p, p.dependencies.len());
    let rank = Seq::new(g.len(), |v: int| v as nat);
    assert forall|u: int, k: int| 0 <= u < g.len() && 0 <= k < g[u].len() && (#[trigger] g[u][k]).1 == 0 implies rank[u]
        < rank[g[u][k].0 as int] by {
        let to = g[u][k].0 as int;
        assert(has_edge(g, u, to, 0));
        plan_edges(p, u, to, 0);
        if exists|l: int, i: int| #[trigger] lane_follows(p, l, i, u, to) {
            let (l, i) = choose|l: int, i: int| #[trigger] lane_follows(p, l, i, u, to);
            assert(p.lists(l, i, u) && p.lists(l, i + 1, to));
        } else {
            let d = choose|d: int|
                0 <= d < p.dependencies.len() && (#[trigger] p.dependencies[d]).from == u && p.dependencies[d].to == to
                    && p.dependencies[d].cycle_lag == 0;
            assert(p.dependencies.contains(p.dependencies[d]));
            lemma_spelled_range(shape, p.dependencies[d]);
        }
    }
    assert(ranks(g, rank));
}

/// The serial schedule of `own` is valid for the steps of `shape` when they can
/// run in the order of `own`, whatever pools are configured.
pub proof fn serial_plan_is_valid(p: PlanModel, own: ShapeModel, shape: ShapeModel, pools: Seq<ThreadPool>)
    requires
        own.wf(),
        shape.wf(),
        own.is_serial(p),
        points_forward(own),
        runs_in(shape, own.keys),
        0 < own.keys.len() <= usize::MAX,
    ensures
        valid(p, pools, shape),
        p.failure(pools, shape) is None,
{
    let keys = own.keys;
    let n = keys.len();
    lemma_serial_lists(p, own);
    lemma_serial_acyclic(p, own);
    assert forall|k: int, c: int| 0 <= k < n && 0 <= c < p.copperlists_per_cycle implies #[trigger] p.occurrence(
        shape.keys[k],
        c,
    ) == keys.index_of(shape.keys[k]) && 0 <= keys.index_of(shape.keys[k]) < n && p.is_step(
        keys.index_of(shape.keys[k]),
        shape.keys[k],
        c,
    ) by {
        assert(keys.contains(shape.keys[k]));
        let at = keys.index_of(shape.keys[k]);
        assert(p.is_step(at, shape.keys[k], c));
        let i = p.occurrence(shape.keys[k], c);
        assert(p.is_step(i, shape.keys[k], c));
        assert(keys[i] == keys[at]);
    }
    assert forall|i: int| 0 <= i < p.steps.len() implies shape.keys.contains((#[trigger] p.steps[i]).key) by {
        assert(keys[i] == p.steps[i].key);
    }
    assert forall|i: int, j: int| 0 <= i < j < p.steps.len() implies (#[trigger] p.steps[i]).key != (
    #[trigger] p.steps[j]).key by {
        assert(keys[i] != keys[j]);
    }
    assert forall|i: int| 0 <= i < p.steps.len() implies #[trigger] p.listed(i) by {
        assert(p.lists(0, i, i));
    }
    assert forall|r: int, c: int|
        #![trigger shape.required[r], p.occurrence(shape.keys[shape.required[r].0 as int], c)]
        0 <= r < shape.required.len() && 0 <= c < p.copperlists_per_cycle implies before(
        p,
        p.occurrence(shape.keys[shape.required[r].0 as int], c),
        p.occurrence(shape.keys[shape.required[r].1 as int], c),
    ) by {
        let (a, b) = shape.required[r];
        let x = p.occurrence(shape.keys[a as int], c);
        let y = p.occurrence(shape.keys[b as int], c);
        assert(x == keys.index_of(shape.keys[a as int]) && y == keys.index_of(shape.keys[b as int]));
        lemma_serial_chain(p, own, x, y);
    }
    assert forall|k: int| 0 <= k < shape.components.len() implies exclusive(p, shape, #[trigger] shape.components[k]) by {
        let component = shape.components[k];
        assert forall|i: int, j: int| 0 <= i < component.len() && 0 <= j < component.len() implies {
            let x = #[trigger] call(p, shape, component, i, 0);
            let y = #[trigger] call(p, shape, component, j, 0);
            &&& 0 <= x < n
            &&& 0 <= y < n
            &&& i != j ==> x != y
        } by {
            assert(shape.components[k][i] < n && shape.components[k][j] < n);
            let a = component[i] as int;
            let b = component[j] as int;
            assert(p.occurrence(shape.keys[a], 0) == keys.index_of(shape.keys[a]));
            assert(p.occurrence(shape.keys[b], 0) == keys.index_of(shape.keys[b]));
            assert(keys.contains(shape.keys[a]) && keys.contains(shape.keys[b]));
            if i != j {
                assert(component[i] != component[j]) by {
                    if i < j {
                        assert(component[i] < component[j]);
                    } else {
                        assert(component[j] < component[i]);
                    }
                }
                assert(shape.keys[a] != shape.keys[b]);
            }
        }
        assert forall|i: int, j: int, c: int|
            #![trigger call(p, shape, component, i, c), call(p, shape, component, j, c)]
            0 <= i < component.len() && 0 <= j < component.len() && i != j && 0 <= c <= 0 implies before(
            p,
            call(p, shape, component, i, c),
            call(p, shape, component, j, c),
        ) || before(p, call(p, shape, component, j, c), call(p, shape, component, i, c)) by {
            let x = call(p, shape, component, i, 0);
            let y = call(p, shape, component, j, 0);
            if x < y {
                lemma_serial_chain(p, own, x, y);
            } else {
                lemma_serial_chain(p, own, y, x);
            }
        }
        assert forall|i: int, j: int|
            #![trigger call(p, shape, component, i, 0), call(p, shape, component, j, 0)]
            0 <= i < component.len() && 0 <= j < component.len() implies precedes(
            p.graph(),
            call(p, shape, component, i, 0),
            call(p, shape, component, j, 0),
            1,
        ) by {
            lemma_serial_wrap(p, own, call(p, shape, component, i, 0), call(p, shape, component, j, 0));
        }
    }
    assert(valid(p, pools, shape));
    validation_accepts_exactly_the_valid_plans(p, pools, shape);
}

/// The serial schedule executes exactly the steps it was made of, in order.
pub proof fn serial_plan_keeps_order(p: PlanModel, shape: ShapeModel)
    requires
        shape.wf(),
        shape.is_serial(p),
    ensures
        p.serial_failure() is None,
        forall|k: int|
            0 <= k < shape.keys.len() ==> p.steps[#[trigger] p.lanes[0].steps[k] as int].key == shape.keys[k],
{
}

} // verus!
