//! A local search over which worker runs each unit and in which order.

use crate::graph::lemma_distinct_bound;
use crate::graph::nodes_are_taken_as_they_become_free;
use crate::graph::takes_turn;
use crate::graph::walk_is_complete_iff_acyclic;
use crate::graph::walk_nodes;
use crate::graph::walk_order;
use crate::graph::walk_order_is_topological;
use crate::graph::walk_order_ranks;
use crate::lexical::better;
use crate::lexical::better_score;
use crate::lexical::lemma_better_irreflexive;
use crate::lexical::lemma_better_total;
use crate::lexical::lemma_better_transitive;
use crate::lexical::lemma_lists_total;
use crate::lexical::lemma_lists_transitive;
use crate::lexical::list_less;
use crate::lexical::lists_before;
use crate::lexical::lists_less;
use crate::lexical::lists_of_lists_are_ordered_by_the_first_difference;
use crate::lexical::same_lists;
use crate::lexical::same_until;
use crate::model::total_cost;
use crate::model::Model;
use crate::order::lemma_pred_rank;
use crate::order::lemma_successor_graph_closed;
use crate::order::orderable;
use crate::order::respects;
use crate::order::successor_edges;
use crate::order::successor_graph;
use crate::shape::lists_of;
use crate::sums::lemma_sum_empty;
use crate::sums::lemma_sum_push;
use crate::sums::places;
use crate::sums::sum;
use crate::timeline::complete;
use crate::timeline::in_lanes;
use crate::timeline::lane_cost;
use crate::timeline::lemma_lane_cost;
use crate::timeline::unit_costs;
use crate::timeline::Assignment;
use crate::timeline::Evaluation;
use crate::timeline::EvaluationModel;
use vstd::prelude::*;

verus! {

/// Moves without improvement before a restart jumps back to its best plan.
pub const PATIENCE: usize = 120;

/// Unconditional moves applied after such a jump.
pub const KICK: usize = 3;

// ---------------------------------------------------------------------------
// Pseudo-random numbers
// ---------------------------------------------------------------------------

/// A deterministic pseudo-random sequence for the search (splitmix64).
#[derive(Clone, Copy, Debug, PartialEq, Eq)]
pub struct Rng {
    pub state: u64,
}

/// The state after `state`.
pub open spec fn rng_step(state: u64) -> u64 {
    state.wrapping_add(0x9e37_79b9_7f4a_7c15)
}

/// The number that the step from `state` gives.
pub open spec fn rng_value(state: u64) -> u64 {
    let z = rng_step(state);
    let y = (z ^ (z >> 30)).wrapping_mul(0xbf58_476d_1ce4_e5b9);
    let x = (y ^ (y >> 27)).wrapping_mul(0x94d0_49bb_1331_11eb);
    x ^ (x >> 31)
}

/// The number below `n` that the step from `state` gives, 0 when there is none.
pub open spec fn rng_below(state: u64, n: nat) -> int {
    (rng_value(state) as nat % (if n == 0 { 1 } else { n })) as int
}

impl Rng {
    /// The next number.
    pub fn next(&mut self) -> (value: u64)
        ensures
            value == rng_value(old(self).state),
            final(self).state == rng_step(old(self).state),
    {
        self.state = self.state.wrapping_add(0x9e37_79b9_7f4a_7c15);
        let z: u64 = self.state;
        let y: u64 = (z ^ (z >> 30)).wrapping_mul(0xbf58_476d_1ce4_e5b9);
        let x: u64 = (y ^ (y >> 27)).wrapping_mul(0x94d0_49bb_1331_11eb);
        x ^ (x >> 31)
    }

    /// The next number below `n`, 0 when there is none.
    pub fn below(&mut self, n: usize) -> (value: usize)
        ensures
            value == rng_below(old(self).state, n as nat),
            n > 0 ==> value < n,
            final(self).state == rng_step(old(self).state),
    {
        let limit: u64 = if n == 0 {
            1
        } else {
            n as u64
        };
        let value: u64 = self.next() % limit;
        value as usize
    }
}

// ---------------------------------------------------------------------------
// The start: a list schedule
// ---------------------------------------------------------------------------

/// The first of the first `n` lanes with the least load.
pub open spec fn least_loaded(load: Seq<nat>, n: nat) -> int
    decreases n,
{
    if n <= 1 {
        0
    } else {
        let best = least_loaded(load, (n - 1) as nat);
        if load[n - 1] < load[best] {
            n - 1
        } else {
            best
        }
    }
}

/// Lanes and their loads.
pub struct Lanes {
    pub lanes: Seq<Seq<usize>>,
    pub load: Seq<nat>,
}

/// The first `n` units of `order`, each placed on the lane that was least
/// loaded.
pub open spec fn place(cost: Seq<u64>, order: Seq<usize>, width: nat, n: nat) -> Lanes
    decreases n,
{
    if n == 0 {
        Lanes { lanes: Seq::new(width, |l: int| Seq::empty()), load: Seq::new(width, |l: int| 0nat) }
    } else {
        let rest = place(cost, order, width, (n - 1) as nat);
        let u = order[n - 1];
        let l = least_loaded(rest.load, width);
        Lanes {
            lanes: rest.lanes.update(l, rest.lanes[l].push(u)),
            load: rest.load.update(l, rest.load[l] + cost[u as int] as nat),
        }
    }
}

/// The start: units in a topological order, each placed on the least loaded CPU.
pub open spec fn list_schedule(model: Model) -> Seq<Seq<usize>> {
    let order = walk_order(successor_graph(lists_of(model.preds@)));
    place(model.cost@, order, model.cpus@.len(), order.len()).lanes
}

proof fn lemma_least_loaded(load: Seq<nat>, n: nat)
    requires
        0 < n <= load.len(),
    ensures
        0 <= least_loaded(load, n) < n,
    decreases n,
{
    if n > 1 {
        lemma_least_loaded(load, (n - 1) as nat);
    }
}

/// What placing the first `n` units keeps: they are in the lanes in order, each
/// once, and no load is more than their costs together.
#[verifier::opaque]
spec fn placed_inv(cost: Seq<u64>, order: Seq<usize>, width: nat, n: nat) -> bool {
    let p = place(cost, order, width, n);
    &&& p.lanes.len() == width
    &&& p.load.len() == width
    &&& forall|l: int, k: int|
        0 <= l < width && 0 <= k < p.lanes[l].len() ==> exists|i: int|
            0 <= i < n && order[i] == #[trigger] p.lanes[l][k]
    &&& forall|l: int, k: int, j: int|
        #![trigger p.lanes[l][k], p.lanes[l][j]]
        0 <= l < width && 0 <= k < j < p.lanes[l].len() ==> order.index_of(p.lanes[l][k]) < order.index_of(
            p.lanes[l][j],
        )
    &&& forall|l: int, k: int, m: int, j: int|
        #![trigger p.lanes[l][k], p.lanes[m][j]]
        0 <= l < width && 0 <= k < p.lanes[l].len() && 0 <= m < width && 0 <= j < p.lanes[m].len() && p.lanes[l][k]
            == p.lanes[m][j] ==> l == m && k == j
    &&& forall|i: int| 0 <= i < n ==> in_lanes(p.lanes, #[trigger] order[i] as int)
}

proof fn lemma_placed(cost: Seq<u64>, order: Seq<usize>, width: nat, n: nat)
    requires
        order.no_duplicates(),
        n <= order.len(),
        width > 0,
    ensures
        placed_inv(cost, order, width, n),
    decreases n,
{
    reveal(placed_inv);
    let p = place(cost, order, width, n);
    if n > 0 {
        lemma_placed(cost, order, width, (n - 1) as nat);
        let rest = place(cost, order, width, (n - 1) as nat);
        let u = order[n - 1];
        lemma_least_loaded(rest.load, width);
        let x = least_loaded(rest.load, width);
        let at = rest.lanes[x].len() as int;
        assert forall|l: int, k: int| 0 <= l < width && 0 <= k < p.lanes[l].len() implies (if l == x && k == at {
            p.lanes[l][k] == u
        } else {
            k < rest.lanes[l].len() && p.lanes[l][k] == rest.lanes[l][k]
        }) by {}
        assert forall|l: int, k: int| 0 <= l < width && 0 <= k < rest.lanes[l].len() implies #[trigger] rest.lanes[l][k]
            != u by {
            let i = choose|i: int| 0 <= i < n - 1 && order[i] == rest.lanes[l][k];
            assert(order[i] != order[n - 1]);
        }
        assert forall|l: int, k: int| 0 <= l < width && 0 <= k < p.lanes[l].len() implies exists|i: int|
            0 <= i < n && order[i] == #[trigger] p.lanes[l][k] by {
            if l == x && k == at {
                assert(order[n - 1] == p.lanes[l][k]);
            } else {
                let i = choose|i: int| 0 <= i < n - 1 && order[i] == rest.lanes[l][k];
                assert(order[i] == p.lanes[l][k]);
            }
        }
        assert forall|l: int, k: int, j: int|
            #![trigger p.lanes[l][k], p.lanes[l][j]]
            0 <= l < width && 0 <= k < j < p.lanes[l].len() implies order.index_of(p.lanes[l][k]) < order.index_of(
            p.lanes[l][j],
        ) by {
            if l == x && j == at {
                let i = choose|i: int| 0 <= i < n - 1 && order[i] == rest.lanes[l][k];
                lemma_index(order, i);
                lemma_index(order, n - 1);
            } else {
                assert(order.index_of(rest.lanes[l][k]) < order.index_of(rest.lanes[l][j]));
            }
        }
        assert forall|l: int, k: int, m: int, j: int|
            #![trigger p.lanes[l][k], p.lanes[m][j]]
            0 <= l < width && 0 <= k < p.lanes[l].len() && 0 <= m < width && 0 <= j < p.lanes[m].len()
                && p.lanes[l][k] == p.lanes[m][j] implies l == m && k == j by {
            if !(l == x && k == at) && !(m == x && j == at) {
                assert(rest.lanes[l][k] == rest.lanes[m][j]);
            } else if !(l == x && k == at) {
                assert(rest.lanes[l][k] != u);
            } else if !(m == x && j == at) {
                assert(rest.lanes[m][j] != u);
            }
        }
        assert forall|i: int| 0 <= i < n implies in_lanes(p.lanes, #[trigger] order[i] as int) by {
            if i == n - 1 {
                assert(p.lanes[x][at] == u);
            } else {
                assert(in_lanes(rest.lanes, order[i] as int));
                let (l, k) = choose|l: int, k: int|
                    0 <= l < rest.lanes.len() && 0 <= k < rest.lanes[l].len() && #[trigger] rest.lanes[l][k]
                        == order[i] as int;
                assert(p.lanes[l][k] == order[i]);
            }
        }
    }
}

proof fn lemma_index(order: Seq<usize>, i: int)
    requires
        order.no_duplicates(),
        0 <= i < order.len(),
    ensures
        order.index_of(order[i]) == i,
{
    let j = order.index_of(order[i]);
    assert(order.contains(order[i]));
    assert(order[j] == order[i]);
}

proof fn lemma_placed_complete(cost: Seq<u64>, order: Seq<usize>, width: nat, n: nat)
    requires
        placed_inv(cost, order, width, order.len()),
        forall|i: int| 0 <= i < order.len() ==> (#[trigger] order[i]) < n,
        forall|v: usize| v < n ==> #[trigger] order.contains(v),
        n <= usize::MAX,
    ensures
        complete(place(cost, order, width, order.len()).lanes, n),
{
    reveal(placed_inv);
    let lanes = place(cost, order, width, order.len()).lanes;
    assert forall|l: int, k: int| 0 <= l < lanes.len() && 0 <= k < lanes[l].len() implies (#[trigger] lanes[l][k]) < n by {
        let i = choose|i: int| 0 <= i < order.len() && order[i] == lanes[l][k];
        assert(order[i] < n);
    }
    assert forall|u: int| 0 <= u < n implies #[trigger] in_lanes(lanes, u) by {
        assert(order.contains(u as usize));
        let i = choose|i: int| 0 <= i < order.len() && order[i] == u as usize;
        assert(in_lanes(lanes, order[i] as int));
    }
}

proof fn lemma_placed_ranks(cost: Seq<u64>, order: Seq<usize>, width: nat, n: nat, rank: Seq<nat>, l: int, k: int)
    requires
        placed_inv(cost, order, width, order.len()),
        complete(place(cost, order, width, order.len()).lanes, n),
        forall|v: usize| v < n ==> #[trigger] order.contains(v),
        rank == Seq::new(n, |v: int| order.index_of(v as usize) as nat),
        0 <= l < width,
        0 <= k < place(cost, order, width, order.len()).lanes[l].len() - 1,
    ensures
        ({
            let lanes = place(cost, order, width, order.len()).lanes;
            rank[lanes[l][k] as int] < rank[lanes[l][k + 1] as int]
        }),
{
    reveal(placed_inv);
    let lanes = place(cost, order, width, order.len()).lanes;
    assert(lanes[l][k] < n && lanes[l][k + 1] < n);
    assert(order.index_of(lanes[l][k]) < order.index_of(lanes[l][k + 1]));
    assert(order.contains(lanes[l][k]) && order.contains(lanes[l][k + 1]));
}

/// The list schedule holds every unit once and can run.
pub proof fn list_schedule_can_run(model: Model)
    requires
        model.wf(),
        model.units@.len() <= usize::MAX,
        model.cpus@.len() > 0,
    ensures
        complete(list_schedule(model), model.units@.len()),
        orderable(lists_of(model.preds@), list_schedule(model)),
        list_schedule(model).len() == model.cpus@.len(),
{
    let preds = lists_of(model.preds@);
    let n = model.units@.len();
    let g = successor_graph(preds);
    let order = walk_order(g);
    let lanes = list_schedule(model);
    let width = model.cpus@.len();
    lemma_successor_graph_closed(preds);
    walk_order_is_topological(g);
    walk_order_ranks(g);
    lemma_placed(model.cost@, order, width, order.len());
    lemma_placed_complete(model.cost@, order, width, n);
    assert(lanes.len() == width) by {
        reveal(placed_inv);
    }
    let rank = Seq::new(n, |v: int| order.index_of(v as usize) as nat);
    assert(respects(preds, lanes, rank)) by {
        assert forall|t: int, k: int| 0 <= t < preds.len() && 0 <= k < preds[t].len() implies rank[(
        #[trigger] preds[t][k]) as int] < rank[t] by {
            lemma_pred_rank(preds, rank, t, k);
        }
        assert forall|l: int, k: int|
            #![trigger lanes[l][k]]
            0 <= l < lanes.len() && 0 <= k < lanes[l].len() - 1 implies rank[lanes[l][k] as int] < rank[lanes[l][k
            + 1] as int] by {
            lemma_placed_ranks(model.cost@, order, width, n, rank, l, k);
        }
    }
}

proof fn lemma_load(cost: Seq<u64>, order: Seq<usize>, width: nat, n: nat)
    requires
        n <= order.len(),
        width > 0,
    ensures
        place(cost, order, width, n).load.len() == width,
        place(cost, order, width, n).lanes.len() == width,
        forall|l: int| 0 <= l < width ==> (#[trigger] place(cost, order, width, n).load[l]) <= lane_cost(cost, order, n),
    decreases n,
{
    if n > 0 {
        lemma_load(cost, order, width, (n - 1) as nat);
        lemma_least_loaded(place(cost, order, width, (n - 1) as nat).load, width);
    }
}

proof fn lemma_order_cost(cost: Seq<u64>, order: Seq<usize>, n: nat)
    requires
        order.no_duplicates(),
        forall|i: int| 0 <= i < order.len() ==> (#[trigger] order[i]) < cost.len(),
        forall|v: usize| v < cost.len() ==> #[trigger] order.contains(v),
        cost.len() <= usize::MAX,
        n <= order.len(),
    ensures
        lane_cost(cost, order, n) <= total_cost(cost, cost.len()),
{
    let lanes = seq![order];
    assert forall|u: int| 0 <= u < cost.len() implies #[trigger] in_lanes(lanes, u) by {
        assert(order.contains(u as usize));
        let i = choose|i: int| 0 <= i < order.len() && order[i] == u as usize;
        assert(lanes[0][i] == u);
    }
    assert forall|l: int, k: int| 0 <= l < lanes.len() && 0 <= k < lanes[l].len() implies (#[trigger] lanes[l][k])
        < cost.len() by {
        assert(order[k] < cost.len());
    }
    assert(complete(lanes, cost.len()));
    lemma_lane_cost(cost, lanes, 0, n);
}

impl Model {
    /// The start: occurrences in a topological order of the inventory, each
    /// placed on the least loaded CPU.
    pub fn start_plan(&self) -> (r: Assignment)
        requires
            self.wf(),
            self.fits(),
            self.cpus@.len() > 0,
        ensures
            r@ == list_schedule(*self),
            complete(r@, self.units@.len()),
            orderable(lists_of(self.preds@), r@),
            r@.len() == self.cpus@.len(),
    {
        let n: usize = self.units.len();
        let width: usize = self.cpus.len();
        let ghost cost = self.cost@;
        let ghost preds = lists_of(self.preds@);
        let edges: Vec<Vec<(usize, u32)>> = successor_edges(&self.preds);
        let order: Vec<usize> = walk_nodes(&edges);
        proof {
            let g = successor_graph(preds);
            lemma_successor_graph_closed(preds);
            walk_order_is_topological(g);
            walk_order_ranks(g);
            list_schedule_can_run(*self);
        }
        let mut lanes: Vec<Vec<usize>> = Vec::new();
        let mut load: Vec<u64> = Vec::new();
        while lanes.len() < width
            invariant
                lanes@.len() <= width,
                load@.len() == lanes@.len(),
                forall|l: int| 0 <= l < lanes@.len() ==> (#[trigger] lanes@[l])@.len() == 0,
                forall|l: int| 0 <= l < lanes@.len() ==> #[trigger] load@[l] == 0,
            decreases width - lanes@.len(),
        {
            lanes.push(Vec::new());
            load.push(0);
        }
        proof {
            assert forall|l: int| 0 <= l < width implies lists_of(lanes@)[l] == Seq::<usize>::empty() by {
                assert(lanes@[l]@ =~= Seq::empty());
            }
            assert(lists_of(lanes@) =~= place(cost, order@, width as nat, 0).lanes);
        }
        let mut i: usize = 0;
        while i < order.len()
            invariant
                i <= order@.len(),
                self.wf(),
                self.fits(),
                n == self.units@.len(),
                cost == self.cost@,
                width > 0,
                order@.no_duplicates(),
                forall|i: int| 0 <= i < order@.len() ==> (#[trigger] order@[i]) < n,
                forall|v: usize| v < n ==> #[trigger] order@.contains(v),
                lanes@.len() == width,
                load@.len() == width,
                lists_of(lanes@) == place(cost, order@, width as nat, i as nat).lanes,
                forall|l: int| 0 <= l < width ==> #[trigger] load@[l] == place(cost, order@, width as nat, i as nat).load[l],
            decreases order@.len() - i,
        {
            let ghost before = place(cost, order@, width as nat, i as nat);
            proof {
                lemma_load(cost, order@, width as nat, i as nat);
                lemma_order_cost(cost, order@, (i + 1) as nat);
                lemma_least_loaded(before.load, width as nat);
            }
            let mut best: usize = 0;
            let mut l: usize = 1;
            while l < width
                invariant
                    1 <= l <= width,
                    load@.len() == width,
                    before.load.len() == width,
                    forall|l: int| 0 <= l < width ==> #[trigger] load@[l] == before.load[l],
                    best < l,
                    best == least_loaded(before.load, l as nat),
                decreases width - l,
            {
                assert(load@[l as int] == before.load[l as int] && load@[best as int] == before.load[best as int]);
                if load[l] < load[best] {
                    best = l;
                }
                l = l + 1;
            }
            assert(order@[i as int] < n);
            let u: usize = order[i];
            assert(load@[best as int] == before.load[best as int]);
            assert(before.load[best as int] <= lane_cost(cost, order@, i as nat));
            let ghost lanes_before = lists_of(lanes@);
            lanes[best].push(u);
            let sum: u64 = load[best] + self.cost[u];
            load.set(best, sum);
            proof {
                assert(lists_of(lanes@) =~= lanes_before.update(best as int, lanes_before[best as int].push(u)));
            }
            i = i + 1;
        }
        let r = Assignment { lanes };
        r
    }
}

// ---------------------------------------------------------------------------
// Moves
// ---------------------------------------------------------------------------

/// Those of the first `n` lanes that hold more than `least` units.
pub open spec fn lanes_above(lanes: Seq<Seq<usize>>, least: nat, n: nat) -> Seq<usize>
    decreases n,
{
    if n == 0 {
        Seq::empty()
    } else if lanes[n - 1].len() > least {
        lanes_above(lanes, least, (n - 1) as nat).push((n - 1) as usize)
    } else {
        lanes_above(lanes, least, (n - 1) as nat)
    }
}

/// The lanes with the unit at `at` of lane `from` put at `position` of lane `to`.
pub open spec fn move_unit(lanes: Seq<Seq<usize>>, from: int, at: int, to: int, position: int) -> Seq<Seq<usize>> {
    let rest = lanes.update(from, lanes[from].remove(at));
    rest.update(to, rest[to].insert(position, lanes[from][at]))
}

/// The lanes with the units at `at` and `at + 1` of a lane swapped.
pub open spec fn swap_units(lanes: Seq<Seq<usize>>, lane: int, at: int) -> Seq<Seq<usize>> {
    lanes.update(lane, lanes[lane].update(at, lanes[lane][at + 1]).update(at + 1, lanes[lane][at]))
}

/// One random move from `lanes`, and the state of the random sequence after it:
/// a unit moved to another lane and position, or two neighbours on one lane
/// swapped.
pub open spec fn random_move(lanes: Seq<Seq<usize>>, state: u64) -> (Seq<Seq<usize>>, u64) {
    let occupied = lanes_above(lanes, 0, lanes.len());
    if occupied.len() == 0 {
        (lanes, state)
    } else {
        let s1 = rng_step(state);
        if rng_below(state, 2) == 0 || lanes.len() == 1 {
            let from = occupied[rng_below(s1, occupied.len())] as int;
            let s2 = rng_step(s1);
            let at = rng_below(s2, lanes[from].len());
            let s3 = rng_step(s2);
            let to = rng_below(s3, lanes.len());
            let s4 = rng_step(s3);
            let room = lanes.update(from, lanes[from].remove(at))[to].len() + 1;
            (move_unit(lanes, from, at, to, rng_below(s4, room)), rng_step(s4))
        } else {
            let wide = lanes_above(lanes, 1, lanes.len());
            if wide.len() == 0 {
                (lanes, s1)
            } else {
                let lane = wide[rng_below(s1, wide.len())] as int;
                let s2 = rng_step(s1);
                let at = rng_below(s2, (lanes[lane].len() - 1) as nat);
                (swap_units(lanes, lane, at), rng_step(s2))
            }
        }
    }
}

proof fn lemma_lanes_above(lanes: Seq<Seq<usize>>, least: nat, n: nat)
    requires
        n <= lanes.len() <= usize::MAX,
    ensures
        forall|i: int|
            0 <= i < lanes_above(lanes, least, n).len() ==> (#[trigger] lanes_above(lanes, least, n)[i]) < n
                && lanes[lanes_above(lanes, least, n)[i] as int].len() > least,
    decreases n,
{
    if n > 0 {
        lemma_lanes_above(lanes, least, (n - 1) as nat);
        let rest = lanes_above(lanes, least, (n - 1) as nat);
        let all = lanes_above(lanes, least, n);
        assert forall|i: int| 0 <= i < all.len() implies (#[trigger] all[i]) < n && lanes[all[i] as int].len() > least by {
            if i < rest.len() {
                assert(all[i] == rest[i]);
            }
        }
    }
}

/// Moving a unit keeps every unit in exactly one place.
proof fn lemma_move_complete(lanes: Seq<Seq<usize>>, n: nat, from: int, at: int, to: int, position: int)
    requires
        complete(lanes, n),
        0 <= from < lanes.len(),
        0 <= at < lanes[from].len(),
        0 <= to < lanes.len(),
        0 <= position <= lanes.update(from, lanes[from].remove(at))[to].len(),
    ensures
        complete(move_unit(lanes, from, at, to, position), n),
        move_unit(lanes, from, at, to, position).len() == lanes.len(),
{
    let rest = lanes.update(from, lanes[from].remove(at));
    let next = move_unit(lanes, from, at, to, position);
    let o = lanes[from][at];
    assert forall|l: int, k: int| 0 <= l < lanes.len() && 0 <= k < rest[l].len() implies #[trigger] rest[l][k]
        == lanes[l][old_place(from, at, l, k)] && 0 <= old_place(from, at, l, k) < lanes[l].len() by {}
    assert forall|l: int, k: int| 0 <= l < lanes.len() && 0 <= k < next[l].len() implies (if l == to && k == position {
        next[l][k] == o
    } else {
        0 <= new_place(to, position, l, k) < rest[l].len() && next[l][k] == rest[l][new_place(to, position, l, k)]
    }) by {}
    assert forall|l: int, k: int| 0 <= l < next.len() && 0 <= k < next[l].len() implies (#[trigger] next[l][k]) < n by {
        if !(l == to && k == position) {
            let j = new_place(to, position, l, k);
            assert(rest[l][j] == lanes[l][old_place(from, at, l, j)]);
        }
        assert(lanes[from][at] < n);
    }
    assert forall|l: int, k: int, m: int, j: int|
        #![trigger next[l][k], next[m][j]]
        0 <= l < next.len() && 0 <= k < next[l].len() && 0 <= m < next.len() && 0 <= j < next[m].len() && next[l][k]
            == next[m][j] implies l == m && k == j by {
        let a = new_place(to, position, l, k);
        let b = new_place(to, position, m, j);
        if l == to && k == position {
            if !(m == to && j == position) {
                assert(rest[m][b] == lanes[m][old_place(from, at, m, b)]);
                assert(lanes[from][at] == lanes[m][old_place(from, at, m, b)]);
            }
        } else if m == to && j == position {
            assert(rest[l][a] == lanes[l][old_place(from, at, l, a)]);
            assert(lanes[from][at] == lanes[l][old_place(from, at, l, a)]);
        } else {
            assert(rest[l][a] == lanes[l][old_place(from, at, l, a)]);
            assert(rest[m][b] == lanes[m][old_place(from, at, m, b)]);
            assert(lanes[l][old_place(from, at, l, a)] == lanes[m][old_place(from, at, m, b)]);
        }
    }
    assert forall|u: int| 0 <= u < n implies #[trigger] in_lanes(next, u) by {
        assert(in_lanes(lanes, u));
        let (l, k) = choose|l: int, k: int|
            0 <= l < lanes.len() && 0 <= k < lanes[l].len() && #[trigger] lanes[l][k] == u;
        if l == from && k == at {
            assert(next[to][position] == u);
        } else {
            let j = if l == from && k > at {
                k - 1
            } else {
                k
            };
            assert(rest[l][j] == lanes[l][old_place(from, at, l, j)]);
            let i = if l == to && j >= position {
                j + 1
            } else {
                j
            };
            assert(next[l][i] == u);
        }
    }
}

/// Where the unit at place `k` of lane `l` was before one was taken out.
spec fn old_place(from: int, at: int, l: int, k: int) -> int {
    if l == from && k >= at {
        k + 1
    } else {
        k
    }
}

/// Where the unit at place `k` of lane `l` was before one was put in.
spec fn new_place(to: int, position: int, l: int, k: int) -> int {
    if l == to && k > position {
        k - 1
    } else {
        k
    }
}

/// Swapping two units keeps every unit in exactly one place.
proof fn lemma_swap_complete(lanes: Seq<Seq<usize>>, n: nat, lane: int, at: int)
    requires
        complete(lanes, n),
        0 <= lane < lanes.len(),
        0 <= at < lanes[lane].len() - 1,
    ensures
        complete(swap_units(lanes, lane, at), n),
        swap_units(lanes, lane, at).len() == lanes.len(),
{
    let next = swap_units(lanes, lane, at);
    assert forall|l: int, k: int| 0 <= l < next.len() && 0 <= k < next[l].len() implies #[trigger] next[l][k]
        == lanes[l][swapped_place(lane, at, l, k)] && 0 <= swapped_place(lane, at, l, k) < lanes[l].len() by {}
    assert forall|l: int, k: int| 0 <= l < next.len() && 0 <= k < next[l].len() implies (#[trigger] next[l][k]) < n by {
        assert(lanes[l][swapped_place(lane, at, l, k)] < n);
    }
    assert forall|l: int, k: int, m: int, j: int|
        #![trigger next[l][k], next[m][j]]
        0 <= l < next.len() && 0 <= k < next[l].len() && 0 <= m < next.len() && 0 <= j < next[m].len() && next[l][k]
            == next[m][j] implies l == m && k == j by {
        assert(lanes[l][swapped_place(lane, at, l, k)] == lanes[m][swapped_place(lane, at, m, j)]);
    }
    assert forall|u: int| 0 <= u < n implies #[trigger] in_lanes(next, u) by {
        assert(in_lanes(lanes, u));
        let (l, k) = choose|l: int, k: int|
            0 <= l < lanes.len() && 0 <= k < lanes[l].len() && #[trigger] lanes[l][k] == u;
        assert(next[l][swapped_place(lane, at, l, k)] == u);
    }
}

/// Where the unit at place `k` of lane `l` was before the swap.
spec fn swapped_place(lane: int, at: int, l: int, k: int) -> int {
    if l == lane && k == at {
        at + 1
    } else if l == lane && k == at + 1 {
        at
    } else {
        k
    }
}

/// A random move keeps every unit in exactly one place.
pub proof fn random_move_keeps_units(lanes: Seq<Seq<usize>>, n: nat, state: u64)
    requires
        complete(lanes, n),
        lanes.len() <= usize::MAX,
    ensures
        complete(random_move(lanes, state).0, n),
        random_move(lanes, state).0.len() == lanes.len(),
{
    let occupied = lanes_above(lanes, 0, lanes.len());
    lemma_lanes_above(lanes, 0, lanes.len());
    if occupied.len() > 0 {
        let s1 = rng_step(state);
        if rng_below(state, 2) == 0 || lanes.len() == 1 {
            let from = occupied[rng_below(s1, occupied.len())] as int;
            let s2 = rng_step(s1);
            let at = rng_below(s2, lanes[from].len());
            let s3 = rng_step(s2);
            let to = rng_below(s3, lanes.len());
            let s4 = rng_step(s3);
            let room = lanes.update(from, lanes[from].remove(at))[to].len() + 1;
            lemma_move_complete(lanes, n, from, at, to, rng_below(s4, room));
        } else {
            let wide = lanes_above(lanes, 1, lanes.len());
            lemma_lanes_above(lanes, 1, lanes.len());
            if wide.len() > 0 {
                let lane = wide[rng_below(s1, wide.len())] as int;
                let s2 = rng_step(s1);
                let at = rng_below(s2, (lanes[lane].len() - 1) as nat);
                lemma_swap_complete(lanes, n, lane, at);
            }
        }
    }
}

/// A lane without one of the units has room for it.
proof fn lemma_lane_room(lanes: Seq<Seq<usize>>, n: nat, from: int, at: int, to: int)
    requires
        complete(lanes, n),
        n <= usize::MAX,
        0 <= from < lanes.len(),
        0 <= at < lanes[from].len(),
        0 <= to < lanes.len(),
    ensures
        lanes.update(from, lanes[from].remove(at))[to].len() < n,
{
    if to == from {
        assert forall|k: int| 0 <= k < lanes[to].len() implies (#[trigger] lanes[to][k]) < n by {}
        assert(lanes[to].no_duplicates());
        lemma_distinct_bound(lanes[to], n);
    } else {
        let list = lanes[to].push(lanes[from][at]);
        assert forall|k: int| 0 <= k < list.len() implies (#[trigger] list[k]) < n by {
            if k < lanes[to].len() {
                assert(lanes[to][k] < n);
            } else {
                assert(lanes[from][at] < n);
            }
        }
        assert forall|k: int, j: int| 0 <= k < list.len() && 0 <= j < list.len() && k != j implies list[k] != list[j] by {
            if k < lanes[to].len() && j < lanes[to].len() {
                assert(lanes[to][k] != lanes[to][j]);
            } else if k < lanes[to].len() {
                assert(lanes[to][k] != lanes[from][at]);
            } else {
                assert(lanes[to][j] != lanes[from][at]);
            }
        }
        lemma_distinct_bound(list, n);
    }
}

/// Those lanes that hold more than `least` units.
fn collect_above(lanes: &Vec<Vec<usize>>, least: usize) -> (r: Vec<usize>)
    ensures
        r@ == lanes_above(lists_of(lanes@), least as nat, lanes@.len()),
        forall|i: int| 0 <= i < r@.len() ==> (#[trigger] r@[i]) < lanes@.len() && lanes@[r@[i] as int]@.len() > least,
{
    let n: usize = lanes.len();
    let mut r: Vec<usize> = Vec::new();
    let mut l: usize = 0;
    while l < n
        invariant
            l <= n,
            n == lanes@.len(),
            r@ == lanes_above(lists_of(lanes@), least as nat, l as nat),
            forall|i: int| 0 <= i < r@.len() ==> (#[trigger] r@[i]) < n && lanes@[r@[i] as int]@.len() > least,
        decreases n - l,
    {
        assert(lists_of(lanes@)[l as int] == lanes@[l as int]@);
        if lanes[l].len() > least {
            r.push(l);
        }
        l = l + 1;
    }
    r
}

impl Model {
    /// One random move: an occurrence moved to another lane and position, or
    /// two neighbours on one lane swapped. Invalid results are rejected by
    /// the caller through `is_valid`.
    pub fn neighbour(&self, assignment: &Assignment, rng: &mut Rng) -> (r: Assignment)
        requires
            complete(assignment@, self.units@.len()),
        ensures
            r@ == random_move(assignment@, old(rng).state).0,
            final(rng).state == random_move(assignment@, old(rng).state).1,
            complete(r@, self.units@.len()),
            r@.len() == assignment@.len(),
    {
        let ghost lanes = assignment@;
        let n: usize = self.units.len();
        let width: usize = assignment.lanes.len();
        proof {
            random_move_keeps_units(lanes, self.units@.len(), rng.state);
        }
        let occupied: Vec<usize> = collect_above(&assignment.lanes, 0);
        if occupied.len() == 0 {
            return assignment.clone();
        }
        let coin: usize = rng.below(2);
        if coin == 0 || width == 1 {
            let pick: usize = rng.below(occupied.len());
            let from: usize = occupied[pick];
            assert(lanes[from as int] == assignment.lanes@[from as int]@);
            let at: usize = rng.below(assignment.lanes[from].len());
            let mut r: Assignment = assignment.clone();
            assert(r@[from as int] == r.lanes@[from as int]@);
            assert(r.lanes@.len() == lists_of(r.lanes@).len());
            let o: usize = r.lanes[from].remove(at);
            let ghost rest = lanes.update(from as int, lanes[from as int].remove(at as int));
            assert(r@ =~= rest);
            let to: usize = rng.below(width);
            assert(r@[to as int] == r.lanes@[to as int]@);
            let len: usize = r.lanes[to].len();
            proof {
                lemma_lane_room(lanes, n as nat, from as int, at as int, to as int);
            }
            let position: usize = rng.below(len + 1);
            r.lanes[to].insert(position, o);
            assert(r@ =~= rest.update(to as int, rest[to as int].insert(position as int, o)));
            r
        } else {
            let wide: Vec<usize> = collect_above(&assignment.lanes, 1);
            if wide.len() == 0 {
                return assignment.clone();
            }
            let pick: usize = rng.below(wide.len());
            let lane: usize = wide[pick];
            assert(lanes[lane as int] == assignment.lanes@[lane as int]@);
            let at: usize = rng.below(assignment.lanes[lane].len() - 1);
            let mut r: Assignment = assignment.clone();
            assert(r@[lane as int] == r.lanes@[lane as int]@);
            assert(r.lanes@.len() == lists_of(r.lanes@).len());
            let first: usize = r.lanes[lane][at];
            let second: usize = r.lanes[lane][at + 1];
            r.lanes[lane].set(at, second);
            r.lanes[lane].set(at + 1, first);
            assert(r@ =~= swap_units(lanes, lane as int, at as int));
            r
        }
    }
}

// ---------------------------------------------------------------------------
// Hill climbing
// ---------------------------------------------------------------------------

/// How an evaluation is scored: tiers, smaller is better.
pub type ScoreFn = spec_fn(EvaluationModel) -> Seq<u64>;

/// Number of tiers of a score.
pub open spec fn tiers(deadline_objective: bool) -> nat {
    if deadline_objective {
        5
    } else {
        3
    }
}

/// Whether `score` scores as `f` says.
pub open spec fn agrees<F: Fn(&Evaluation) -> Vec<u64>>(score: F, f: ScoreFn) -> bool {
    forall|e: Evaluation, s: Vec<u64>| #[trigger] call_ensures(score, (&e,), s) ==> s@ == f(e@)
}

/// Whether `score` takes every evaluation and gives as many tiers as the objective
/// has.
pub open spec fn scores<F: Fn(&Evaluation) -> Vec<u64>>(deadline_objective: bool, score: F) -> bool {
    &&& forall|e: Evaluation| #[trigger] call_requires(score, (&e,))
    &&& forall|e: Evaluation, s: Vec<u64>| #[trigger] call_ensures(score, (&e,), s) ==> s@.len() == tiers(
        deadline_objective,
    )
}

/// The score of an assignment, nothing when it cannot run.
pub open spec fn score_of(model: Model, f: ScoreFn, lanes: Seq<Seq<usize>>) -> Option<Seq<u64>> {
    if orderable(lists_of(model.preds@), lanes) {
        Some(f(model.evaluation(lanes)))
    } else {
        None
    }
}

/// Whether score `a` is an improvement on `b`.
pub open spec fn improves(a: Option<Seq<u64>>, b: Option<Seq<u64>>) -> bool {
    match (a, b) {
        (Some(x), Some(y)) => better(x, y),
        (Some(_), None) => true,
        _ => false,
    }
}

/// Where `n` random moves lead, those taken that can run.
pub open spec fn wander(model: Model, lanes: Seq<Seq<usize>>, state: u64, n: nat) -> (Seq<Seq<usize>>, u64)
    decreases n,
{
    if n == 0 {
        (lanes, state)
    } else {
        let (at, s) = wander(model, lanes, state, (n - 1) as nat);
        let (next, t) = random_move(at, s);
        if orderable(lists_of(model.preds@), next) {
            (next, t)
        } else {
            (at, t)
        }
    }
}

/// Where a climb stands.
pub struct Climb {
    /// State of the random sequence.
    pub rng: u64,
    pub current: Seq<Seq<usize>>,
    /// The best assignment of this climb.
    pub best: Seq<Seq<usize>>,
    /// Moves since the last improvement.
    pub stall: nat,
    /// Every assignment scored so far.
    pub seen: Set<Seq<Seq<usize>>>,
}

/// One move of a climb: a random move is taken when it is an improvement; after
/// too many moves without one, the climb goes back to its best assignment and
/// takes a few random moves.
pub open spec fn climb_step(model: Model, f: ScoreFn, c: Climb) -> Climb {
    let (candidate, s) = random_move(c.current, c.rng);
    let seen = c.seen.insert(candidate);
    let score = score_of(model, f, candidate);
    if improves(score, score_of(model, f, c.current)) {
        let best = if improves(score, score_of(model, f, c.best)) {
            candidate
        } else {
            c.best
        };
        Climb { rng: s, current: candidate, best, stall: 0, seen }
    } else if c.stall + 1 >= PATIENCE {
        let (kicked, t) = wander(model, c.best, s, KICK as nat);
        Climb { rng: t, current: kicked, best: c.best, stall: 0, seen: seen.insert(kicked) }
    } else {
        Climb { rng: s, current: c.current, best: c.best, stall: c.stall + 1, seen }
    }
}

/// A climb after `n` moves.
pub open spec fn climb(model: Model, f: ScoreFn, c: Climb, n: nat) -> Climb
    decreases n,
{
    if n == 0 {
        c
    } else {
        climb_step(model, f, climb(model, f, c, (n - 1) as nat))
    }
}

/// Where attempt `k` starts: the first at the list schedule, the others at a
/// seeded random place.
pub open spec fn attempt_place(model: Model, seed: u64, k: nat) -> (Seq<Seq<usize>>, u64) {
    let state = seed.wrapping_add(k as u64);
    if k == 0 {
        (list_schedule(model), state)
    } else {
        wander(model, list_schedule(model), state, model.units@.len() * 2)
    }
}

/// The climb of attempt `k` before its first move.
pub open spec fn attempt(model: Model, seed: u64, k: nat, seen: Set<Seq<Seq<usize>>>) -> Climb {
    let (lanes, state) = attempt_place(model, seed, k);
    Climb { rng: state, current: lanes, best: lanes, stall: 0, seen: seen.insert(lanes) }
}

/// Every assignment scored in the first `n` attempts of so many moves.
pub open spec fn explored(model: Model, f: ScoreFn, seed: u64, moves: nat, n: nat) -> Set<Seq<Seq<usize>>>
    decreases n,
{
    if n == 0 {
        Set::empty()
    } else {
        let seen = explored(model, f, seed, moves, (n - 1) as nat);
        climb(model, f, attempt(model, seed, (n - 1) as nat, seen), moves).seen
    }
}

proof fn lemma_wander_join(model: Model, lanes: Seq<Seq<usize>>, state: u64, a: nat, b: nat)
    ensures
        wander(model, wander(model, lanes, state, a).0, wander(model, lanes, state, a).1, b) == wander(
            model,
            lanes,
            state,
            a + b,
        ),
    decreases b,
{
    if b > 0 {
        lemma_wander_join(model, lanes, state, a, (b - 1) as nat);
        assert((a + b - 1) as nat == a + (b - 1) as nat);
    }
}

/// The score as a value of the specification.
pub open spec fn score_view(score: Option<Vec<u64>>) -> Option<Seq<u64>> {
    match score {
        Some(s) => Some(s@),
        None => None,
    }
}

/// Whether score `a` is an improvement on `b`.
fn is_improvement(a: &Option<Vec<u64>>, b: &Option<Vec<u64>>) -> (r: bool)
    ensures
        r == improves(score_view(*a), score_view(*b)),
{
    match (a, b) {
        (Some(x), Some(y)) => better_score(x, y),
        (Some(_), None) => true,
        _ => false,
    }
}

/// A copy of a score.
fn copy_score(score: &Option<Vec<u64>>) -> (r: Option<Vec<u64>>)
    ensures
        score_view(r) == score_view(*score),
{
    match score {
        Some(s) => {
            let t: Vec<u64> = s.clone();
            assert(t@ =~= s@);
            Some(t)
        },
        None => None,
    }
}

/// The assignments scored so far.
struct Seen {
    entries: Vec<(Assignment, Option<Vec<u64>>)>,
}

impl Seen {
    spec fn keys(self) -> Set<Seq<Seq<usize>>> {
        Set::new(|lanes: Seq<Seq<usize>>| self.has(lanes))
    }

    spec fn has(self, lanes: Seq<Seq<usize>>) -> bool {
        exists|i: int| 0 <= i < self.entries@.len() && (#[trigger] self.entries@[i]).0@ == lanes
    }

    /// Whether each assignment occurs once, with its score.
    spec fn ok<F: Fn(&Evaluation) -> Vec<u64>>(self, model: Model, score: F) -> bool {
        &&& forall|i: int, j: int|
            0 <= i < j < self.entries@.len() ==> (#[trigger] self.entries@[i]).0@ != (#[trigger] self.entries@[j]).0@
        &&& forall|i: int| 0 <= i < self.entries@.len() ==> #[trigger] entry_ok(model, score, self.entries@[i])
    }
}

/// Whether an entry is an assignment of the model's units with its score.
spec fn entry_ok<F: Fn(&Evaluation) -> Vec<u64>>(model: Model, score: F, entry: (Assignment, Option<Vec<u64>>)) -> bool {
    &&& complete(entry.0@, model.units@.len())
    &&& entry.0@.len() == model.cpus@.len()
    &&& entry.1 is Some <==> orderable(lists_of(model.preds@), entry.0@)
    &&& entry.1 matches Some(s) ==> s@.len() == tiers(model.deadline_objective)
    &&& forall|f: ScoreFn| #[trigger] agrees(score, f) ==> score_view(entry.1) == score_of(model, f, entry.0@)
}

impl Model {
    /// The score of an assignment, computed once.
    fn score<F: Fn(&Evaluation) -> Vec<u64>>(&self, assignment: &Assignment, seen: &mut Seen, score: &F) -> (r: Option<
        Vec<u64>,
    >)
        requires
            self.wf(),
            self.fits(),
            scores(self.deadline_objective, *score),
            complete(assignment@, self.units@.len()),
            assignment@.len() == self.cpus@.len(),
            old(seen).ok(*self, *score),
        ensures
            final(seen).ok(*self, *score),
            final(seen).keys() == old(seen).keys().insert(assignment@),
            r is Some <==> orderable(lists_of(self.preds@), assignment@),
            forall|f: ScoreFn| #[trigger] agrees(*score, f) ==> score_view(r) == score_of(*self, f, assignment@),
    {
        let mut i: usize = 0;
        while i < seen.entries.len()
            invariant
                i <= seen.entries@.len(),
                seen.ok(*self, *score),
                *seen == *old(seen),
                forall|j: int| 0 <= j < i ==> (#[trigger] seen.entries@[j]).0@ != assignment@,
            decreases seen.entries@.len() - i,
        {
            if same_lists(&seen.entries[i].0.lanes, &assignment.lanes) {
                assert(seen.entries@[i as int].0@ == assignment@);
                assert(entry_ok(*self, *score, seen.entries@[i as int]));
                assert(seen.has(assignment@));
                assert(seen.keys() =~= old(seen).keys().insert(assignment@));
                return copy_score(&seen.entries[i].1);
            }
            i = i + 1;
        }
        let value: Option<Vec<u64>> = match self.evaluate(assignment) {
            Some(evaluation) => {
                let s: Vec<u64> = score(&evaluation);
                assert(call_ensures(*score, (&evaluation,), s));
                Some(s)
            },
            None => None,
        };
        let kept: Option<Vec<u64>> = copy_score(&value);
        let key: Assignment = assignment.clone();
        let ghost before = *seen;
        let ghost entry = (key, kept);
        seen.entries.push((key, kept));
        proof {
            assert(entry_ok(*self, *score, entry));
            assert forall|i: int| 0 <= i < seen.entries@.len() implies #[trigger] entry_ok(
                *self,
                *score,
                seen.entries@[i],
            ) by {
                if i < before.entries@.len() {
                    assert(entry_ok(*self, *score, before.entries@[i]));
                }
            }
            assert forall|lanes: Seq<Seq<usize>>| #[trigger] seen.has(lanes) <==> before.has(lanes) || lanes == assignment@ by {
                if before.has(lanes) {
                    let i = choose|i: int| 0 <= i < before.entries@.len() && (#[trigger] before.entries@[i]).0@ == lanes;
                    assert(seen.entries@[i].0@ == lanes);
                }
                if lanes == assignment@ {
                    assert(seen.entries@[before.entries@.len() as int].0@ == lanes);
                }
                if seen.has(lanes) && lanes != assignment@ {
                    let i = choose|i: int| 0 <= i < seen.entries@.len() && (#[trigger] seen.entries@[i]).0@ == lanes;
                    assert(before.entries@[i].0@ == lanes);
                }
            }
            assert(seen.keys() =~= before.keys().insert(assignment@));
        }
        value
    }

    /// `n` random moves, those taken that can run.
    fn wander(&self, from: &Assignment, rng: &mut Rng, n: usize) -> (r: Assignment)
        requires
            self.wf(),
            complete(from@, self.units@.len()),
        ensures
            r@ == wander(*self, from@, old(rng).state, n as nat).0,
            final(rng).state == wander(*self, from@, old(rng).state, n as nat).1,
            complete(r@, self.units@.len()),
            r@.len() == from@.len(),
    {
        let ghost state = rng.state;
        let mut at: Assignment = from.clone();
        let mut i: usize = 0;
        while i < n
            invariant
                i <= n,
                self.wf(),
                complete(at@, self.units@.len()),
                at@.len() == from@.len(),
                at@ == wander(*self, from@, state, i as nat).0,
                rng.state == wander(*self, from@, state, i as nat).1,
            decreases n - i,
        {
            let next: Assignment = self.neighbour(&at, rng);
            if self.is_valid(&next) {
                at = next;
            }
            i = i + 1;
        }
        at
    }
}

// ---------------------------------------------------------------------------
// Ranking
// ---------------------------------------------------------------------------

/// An assignment with its score.
pub open spec fn ranked_view(entry: (Vec<u64>, Assignment)) -> (Seq<u64>, Seq<Seq<usize>>) {
    (entry.0@, entry.1@)
}

/// Whether entry `a` ranks before `b`: by score, then by assignment.
pub open spec fn ranks_before(a: (Seq<u64>, Seq<Seq<usize>>), b: (Seq<u64>, Seq<Seq<usize>>)) -> bool {
    better(a.0, b.0) || (!better(b.0, a.0) && lists_less(a.1, b.1))
}

/// Whether a list is in ranking order.
pub open spec fn in_ranking_order(list: Seq<(Vec<u64>, Assignment)>) -> bool {
    forall|i: int, j: int|
        0 <= i < j < list.len() ==> ranks_before(ranked_view(#[trigger] list[i]), ranked_view(#[trigger] list[j]))
}

pub(crate) proof fn lemma_ranks_transitive(
    a: (Seq<u64>, Seq<Seq<usize>>),
    b: (Seq<u64>, Seq<Seq<usize>>),
    c: (Seq<u64>, Seq<Seq<usize>>),
)
    requires
        a.0.len() == b.0.len(),
        b.0.len() == c.0.len(),
        ranks_before(a, b),
        ranks_before(b, c),
    ensures
        ranks_before(a, c),
{
    lemma_better_total(a.0, b.0);
    lemma_better_total(b.0, c.0);
    if better(a.0, b.0) {
        if better(b.0, c.0) {
            lemma_better_transitive(a.0, b.0, c.0);
        }
    } else {
        assert(a.0 == b.0);
        if !better(b.0, c.0) {
            lemma_lists_transitive(a.1, b.1, c.1);
        }
    }
}

pub(crate) proof fn lemma_ranks_total(a: (Seq<u64>, Seq<Seq<usize>>), b: (Seq<u64>, Seq<Seq<usize>>))
    requires
        a.0.len() == b.0.len(),
        a.1 != b.1,
        !ranks_before(a, b),
    ensures
        ranks_before(b, a),
{
    lemma_better_total(a.0, b.0);
    lemma_lists_total(a.1, b.1);
    lemma_better_irreflexive(a.0);
}

/// Put an entry where it ranks.
fn insert_ranked(list: &mut Vec<(Vec<u64>, Assignment)>, score: Vec<u64>, assignment: Assignment)
    requires
        in_ranking_order(old(list)@),
        forall|i: int| 0 <= i < old(list)@.len() ==> (#[trigger] old(list)@[i]).0@.len() == score@.len(),
        forall|i: int| 0 <= i < old(list)@.len() ==> (#[trigger] old(list)@[i]).1@ != assignment@,
    ensures
        in_ranking_order(final(list)@),
        exists|at: int| 0 <= at <= old(list)@.len() && final(list)@ == old(list)@.insert(at, (score, assignment)),
{
    let ghost before = list@;
    let ghost entry = (score, assignment);
    let ghost x = ranked_view(entry);
    let mut at: usize = list.len();
    while at > 0 && (better_score(&score, &list[at - 1].0) || (!better_score(&list[at - 1].0, &score) && lists_before(
        &assignment.lanes,
        &list[at - 1].1.lanes,
    )))
        invariant
            at <= list@.len(),
            list@ == before,
            x == ranked_view((score, assignment)),
            forall|i: int| at <= i < list@.len() ==> ranks_before(x, ranked_view(#[trigger] list@[i])),
        decreases at,
    {
        assert(ranks_before(x, ranked_view(list@[at - 1])));
        at = at - 1;
    }
    proof {
        assert forall|i: int| 0 <= i < at implies ranks_before(ranked_view(#[trigger] before[i]), x) by {
            assert(before[at - 1].0@.len() == score@.len());
            lemma_ranks_total(x, ranked_view(before[at - 1]));
            if i < at - 1 {
                assert(before[i].0@.len() == score@.len());
                lemma_ranks_transitive(ranked_view(before[i]), ranked_view(before[at - 1]), x);
            }
        }
    }
    list.insert(at, (score, assignment));
    proof {
        assert(list@ == before.insert(at as int, entry));
        assert forall|i: int, j: int| 0 <= i < j < list@.len() implies ranks_before(
            ranked_view(#[trigger] list@[i]),
            ranked_view(#[trigger] list@[j]),
        ) by {
            if i < at && j > at {
                assert(list@[i] == before[i] && list@[j] == before[j - 1]);
            } else if j < at {
                assert(list@[i] == before[i] && list@[j] == before[j]);
            } else if i > at {
                assert(list@[i] == before[i - 1] && list@[j] == before[j - 1]);
            } else if i == at {
                assert(list@[j] == before[j - 1]);
            } else {
                assert(list@[i] == before[i]);
            }
        }
    }
}

/// Whether a ranked list holds an assignment.
pub open spec fn is_ranked(list: Seq<(Vec<u64>, Assignment)>, lanes: Seq<Seq<usize>>) -> bool {
    exists|i: int| 0 <= i < list.len() && (#[trigger] list[i]).1@ == lanes
}

/// Whether a list ranks assignments of the model's units that can run.
pub open spec fn ranks_runnable(model: Model, list: Seq<(Vec<u64>, Assignment)>) -> bool {
    &&& in_ranking_order(list)
    &&& forall|i: int|
        0 <= i < list.len() ==> {
            &&& complete((#[trigger] list[i]).1@, model.units@.len())
            &&& list[i].1@.len() == model.cpus@.len()
            &&& orderable(lists_of(model.preds@), list[i].1@)
            &&& list[i].0@.len() == tiers(model.deadline_objective)
        }
    &&& forall|i: int, j: int| 0 <= i < j < list.len() ==> (#[trigger] list[i]).1@ != (#[trigger] list[j]).1@
}

/// Whether a list ranks, by the scores of `f`, exactly the assignments explored
/// that can run.
pub open spec fn ranks_explored(model: Model, f: ScoreFn, list: Seq<(Vec<u64>, Assignment)>, explored: Set<Seq<Seq<usize>>>) -> bool {
    &&& forall|lanes: Seq<Seq<usize>>| #[trigger]
        is_ranked(list, lanes) <==> explored.contains(lanes) && orderable(lists_of(model.preds@), lanes)
    &&& forall|i: int| 0 <= i < list.len() ==> (#[trigger] list[i]).0@ == f(model.evaluation(list[i].1@))
}

/// Whether the exact values are where attempt `k` stands after `i` moves,
/// whatever scoring function the executable one agrees with.
spec fn stands<F: Fn(&Evaluation) -> Vec<u64>>(
    model: Model,
    score: F,
    seed: u64,
    moves: nat,
    k: nat,
    i: nat,
    now: Climb,
) -> bool {
    forall|f: ScoreFn| #[trigger]
        agrees(score, f) ==> climb(model, f, attempt(model, seed, k, explored(model, f, seed, moves, k)), i) == now
}

impl Model {
    /// Where attempt `k` starts.
    fn begin(&self, start: &Assignment, rng: &mut Rng, k: usize) -> (r: Assignment)
        requires
            self.wf(),
            start@ == list_schedule(*self),
            complete(start@, self.units@.len()),
        ensures
            k == 0 ==> r@ == start@ && final(rng).state == old(rng).state,
            k > 0 ==> (r@, final(rng).state) == wander(*self, start@, old(rng).state, self.units@.len() * 2),
            complete(r@, self.units@.len()),
            r@.len() == start@.len(),
    {
        if k == 0 {
            return start.clone();
        }
        let n: usize = self.units.len();
        let ghost state = rng.state;
        let half: Assignment = self.wander(start, rng, n);
        let whole: Assignment = self.wander(&half, rng, n);
        proof {
            lemma_wander_join(*self, start@, state, n as nat, n as nat);
            assert(n as nat + n as nat == n * 2);
        }
        whole
    }

    /// One hill climb of so many moves from `start`.
    fn climb<F: Fn(&Evaluation) -> Vec<u64>>(
        &self,
        start: Assignment,
        rng: Rng,
        moves: usize,
        seen: &mut Seen,
        score: &F,
        Ghost(seed): Ghost<u64>,
        Ghost(k): Ghost<nat>,
    )
        requires
            self.wf(),
            self.fits(),
            scores(self.deadline_objective, *score),
            complete(start@, self.units@.len()),
            start@.len() == self.cpus@.len(),
            old(seen).ok(*self, *score),
            (start@, rng.state) == attempt_place(*self, seed, k),
            forall|f: ScoreFn| #[trigger]
                agrees(*score, f) ==> old(seen).keys() == explored(*self, f, seed, moves as nat, k),
        ensures
            final(seen).ok(*self, *score),
            forall|f: ScoreFn| #[trigger]
                agrees(*score, f) ==> final(seen).keys() == explored(*self, f, seed, moves as nat, k + 1),
            old(seen).keys().subset_of(final(seen).keys()),
            final(seen).keys().contains(start@),
    {
        let ghost first = start@;
        let mut rng: Rng = rng;
        let mut current: Assignment = start;
        let mut current_score: Option<Vec<u64>> = self.score(&current, seen, score);
        let mut best: Assignment = current.clone();
        let mut best_score: Option<Vec<u64>> = copy_score(&current_score);
        let mut stall: usize = 0;
        let mut i: usize = 0;
        while i < moves
            invariant
                i <= moves,
                self.wf(),
                self.fits(),
                scores(self.deadline_objective, *score),
                complete(current@, self.units@.len()),
                current@.len() == self.cpus@.len(),
                complete(best@, self.units@.len()),
                best@.len() == self.cpus@.len(),
                seen.ok(*self, *score),
                old(seen).keys().subset_of(seen.keys()),
                seen.keys().contains(first),
                stall < PATIENCE,
                forall|f: ScoreFn| #[trigger]
                    agrees(*score, f) ==> score_view(current_score) == score_of(*self, f, current@),
                forall|f: ScoreFn| #[trigger] agrees(*score, f) ==> score_view(best_score) == score_of(*self, f, best@),
                stands(
                    *self,
                    *score,
                    seed,
                    moves as nat,
                    k,
                    i as nat,
                    (Climb { rng: rng.state, current: current@, best: best@, stall: stall as nat, seen: seen.keys() }),
                ),
            decreases moves - i,
        {
            let ghost before = Climb {
                rng: rng.state,
                current: current@,
                best: best@,
                stall: stall as nat,
                seen: seen.keys(),
            };
            let candidate: Assignment = self.neighbour(&current, &mut rng);
            let candidate_score: Option<Vec<u64>> = self.score(&candidate, seen, score);
            let improved: bool = is_improvement(&candidate_score, &current_score);
            if improved {
                if is_improvement(&candidate_score, &best_score) {
                    best = candidate.clone();
                    best_score = copy_score(&candidate_score);
                }
                current = candidate;
                current_score = candidate_score;
                stall = 0;
            } else {
                stall = stall + 1;
                if stall >= PATIENCE {
                    current = self.wander(&best, &mut rng, KICK);
                    current_score = self.score(&current, seen, score);
                    stall = 0;
                }
            }
            proof {
                let now = Climb {
                    rng: rng.state,
                    current: current@,
                    best: best@,
                    stall: stall as nat,
                    seen: seen.keys(),
                };
                assert forall|f: ScoreFn| #[trigger] agrees(*score, f) implies climb(
                    *self,
                    f,
                    attempt(*self, seed, k, explored(*self, f, seed, moves as nat, k)),
                    (i + 1) as nat,
                ) == now by {
                    assert(climb(
                        *self,
                        f,
                        attempt(*self, seed, k, explored(*self, f, seed, moves as nat, k)),
                        i as nat,
                    ) == before);
                    assert(climb_step(*self, f, before) == now);
                }
            }
            i = i + 1;
        }
    }

    /// Hill climbing from the list schedule and from seeded random starts;
    /// every valid assignment evaluated is kept for the final ranking.
    ///
    /// `score` gives the tiers of an evaluation; the same evaluation must
    /// always get the same tiers.
    pub fn search<F: Fn(&Evaluation) -> Vec<u64>>(&self, seed: u64, moves: usize, restarts: usize, score: F) -> (r: Vec<
        (Vec<u64>, Assignment),
    >)
        requires
            self.wf(),
            self.fits(),
            self.cpus@.len() > 0,
            scores(self.deadline_objective, score),
        ensures
            ranks_runnable(*self, r@),
            is_ranked(r@, list_schedule(*self)),
            forall|f: ScoreFn| #[trigger]
                agrees(score, f) ==> ranks_explored(
                    *self,
                    f,
                    r@,
                    explored(*self, f, seed, moves as nat, if restarts == 0 { 1 } else { restarts as nat }),
                ),
    {
        let start: Assignment = self.start_plan();
        let attempts: usize = if restarts == 0 {
            1
        } else {
            restarts
        };
        let mut seen: Seen = Seen { entries: Vec::new() };
        assert(seen.keys() =~= Set::empty());
        let mut k: usize = 0;
        while k < attempts
            invariant
                k <= attempts,
                self.wf(),
                self.fits(),
                scores(self.deadline_objective, score),
                start@ == list_schedule(*self),
                complete(start@, self.units@.len()),
                start@.len() == self.cpus@.len(),
                seen.ok(*self, score),
                forall|f: ScoreFn| #[trigger]
                    agrees(score, f) ==> seen.keys() == explored(*self, f, seed, moves as nat, k as nat),
                k > 0 ==> seen.keys().contains(start@),
            decreases attempts - k,
        {
            let mut rng: Rng = Rng { state: seed.wrapping_add(k as u64) };
            let first: Assignment = self.begin(&start, &mut rng, k);
            self.climb(first, rng, moves, &mut seen, &score, Ghost(seed), Ghost(k as nat));
            k = k + 1;
        }
        self.rank(&seen, &score)
    }

    /// The assignments that can run, best first.
    fn rank<F: Fn(&Evaluation) -> Vec<u64>>(&self, seen: &Seen, score: &F) -> (r: Vec<(Vec<u64>, Assignment)>)
        requires
            seen.ok(*self, *score),
        ensures
            ranks_runnable(*self, r@),
            forall|lanes: Seq<Seq<usize>>| #[trigger]
                is_ranked(r@, lanes) <==> seen.keys().contains(lanes) && orderable(lists_of(self.preds@), lanes),
            forall|f: ScoreFn| #[trigger] agrees(*score, f) ==> ranks_explored(*self, f, r@, seen.keys()),
    {
        let mut list: Vec<(Vec<u64>, Assignment)> = Vec::new();
        let mut i: usize = 0;
        while i < seen.entries.len()
            invariant
                i <= seen.entries@.len(),
                seen.ok(*self, *score),
                ranks_runnable(*self, list@),
                forall|lanes: Seq<Seq<usize>>| #[trigger]
                    is_ranked(list@, lanes) <==> exists|j: int|
                        0 <= j < i && (#[trigger] seen.entries@[j]).0@ == lanes && seen.entries@[j].1 is Some,
                forall|f: ScoreFn| #[trigger]
                    agrees(*score, f) ==> forall|j: int|
                        0 <= j < list@.len() ==> (#[trigger] list@[j]).0@ == f(self.evaluation(list@[j].1@)),
            decreases seen.entries@.len() - i,
        {
            let ghost entry = seen.entries@[i as int];
            assert(entry_ok(*self, *score, entry));
            let ghost before = list@;
            if let Some(s) = &seen.entries[i].1 {
                let tiers: Vec<u64> = s.clone();
                assert(tiers@ =~= s@);
                let lanes: Assignment = seen.entries[i].0.clone();
                proof {
                    if is_ranked(before, lanes@) {
                        let j = choose|j: int|
                            0 <= j < i && (#[trigger] seen.entries@[j]).0@ == lanes@ && seen.entries@[j].1 is Some;
                        assert(seen.entries@[j].0@ != seen.entries@[i as int].0@);
                    }
                    assert forall|j: int| 0 <= j < before.len() implies (#[trigger] before[j]).1@ != lanes@ by {
                        if before[j].1@ == lanes@ {
                            assert(is_ranked(before, lanes@));
                        }
                    }
                }
                let ghost item = (tiers, lanes);
                insert_ranked(&mut list, tiers, lanes);
                proof {
                    let at = choose|at: int| 0 <= at <= before.len() && list@ == before.insert(at, item);
                    self.lemma_ranked_push(before, list@, at, item);
                }
            }
            proof {
                assert forall|lanes: Seq<Seq<usize>>| #[trigger] is_ranked(list@, lanes) <==> exists|j: int|
                    0 <= j < i + 1 && (#[trigger] seen.entries@[j]).0@ == lanes && seen.entries@[j].1 is Some by {
                    if exists|j: int|
                        0 <= j < i && (#[trigger] seen.entries@[j]).0@ == lanes && seen.entries@[j].1 is Some {
                        assert(is_ranked(before, lanes));
                    }
                    if entry.0@ == lanes && entry.1 is Some {
                        assert(seen.entries@[i as int].0@ == lanes);
                    }
                }
            }
            i = i + 1;
        }
        proof {
            assert forall|lanes: Seq<Seq<usize>>| #[trigger] is_ranked(list@, lanes) <==> seen.keys().contains(lanes)
                && orderable(lists_of(self.preds@), lanes) by {
                if is_ranked(list@, lanes) {
                    let j = choose|j: int|
                        0 <= j < i && (#[trigger] seen.entries@[j]).0@ == lanes && seen.entries@[j].1 is Some;
                    assert(entry_ok(*self, *score, seen.entries@[j]));
                    assert(seen.has(lanes));
                }
                if seen.keys().contains(lanes) && orderable(lists_of(self.preds@), lanes) {
                    assert(seen.has(lanes));
                    let j = choose|j: int| 0 <= j < seen.entries@.len() && (#[trigger] seen.entries@[j]).0@ == lanes;
                    assert(entry_ok(*self, *score, seen.entries@[j]));
                }
            }
        }
        list
    }

    proof fn lemma_ranked_push(
        self,
        before: Seq<(Vec<u64>, Assignment)>,
        after: Seq<(Vec<u64>, Assignment)>,
        at: int,
        item: (Vec<u64>, Assignment),
    )
        requires
            ranks_runnable(self, before),
            in_ranking_order(after),
            0 <= at <= before.len(),
            after == before.insert(at, item),
            complete(item.1@, self.units@.len()),
            item.1@.len() == self.cpus@.len(),
            orderable(lists_of(self.preds@), item.1@),
            item.0@.len() == tiers(self.deadline_objective),
            forall|j: int| 0 <= j < before.len() ==> (#[trigger] before[j]).1@ != item.1@,
        ensures
            ranks_runnable(self, after),
            forall|lanes: Seq<Seq<usize>>| #[trigger] is_ranked(after, lanes) <==> is_ranked(before, lanes) || lanes == item.1@,
            forall|j: int| 0 <= j < after.len() ==> (#[trigger] after[j]) == item || before.contains(after[j]),
    {
        assert forall|j: int| 0 <= j < after.len() implies (#[trigger] after[j]) == (if j < at {
            before[j]
        } else if j == at {
            item
        } else {
            before[j - 1]
        }) by {}
        assert forall|lanes: Seq<Seq<usize>>| #[trigger] is_ranked(after, lanes) <==> is_ranked(before, lanes) || lanes
            == item.1@ by {
            if is_ranked(before, lanes) {
                let j = choose|j: int| 0 <= j < before.len() && (#[trigger] before[j]).1@ == lanes;
                assert(after[if j < at { j } else { j + 1 }].1@ == lanes);
            }
            if lanes == item.1@ {
                assert(after[at].1@ == lanes);
            }
            if is_ranked(after, lanes) && lanes != item.1@ {
                let j = choose|j: int| 0 <= j < after.len() && (#[trigger] after[j]).1@ == lanes;
                assert(before[if j < at { j } else { j - 1 }].1@ == lanes);
            }
        }
        assert forall|i: int, j: int| 0 <= i < j < after.len() implies (#[trigger] after[i]).1@ != (
        #[trigger] after[j]).1@ by {
            if i != at && j != at {
                let a = if i < at { i } else { i - 1 };
                let b = if j < at { j } else { j - 1 };
                assert(before[a].1@ != before[b].1@);
            }
        }
    }
}

proof fn lemma_climb_grows(model: Model, f: ScoreFn, c: Climb, n: nat, lanes: Seq<Seq<usize>>)
    requires
        c.seen.contains(lanes),
    ensures
        climb(model, f, c, n).seen.contains(lanes),
    decreases n,
{
    if n > 0 {
        lemma_climb_grows(model, f, c, (n - 1) as nat, lanes);
    }
}

/// Whatever the search explores, it explores the list schedule.
pub proof fn list_schedule_is_explored(model: Model, f: ScoreFn, seed: u64, moves: nat, n: nat)
    requires
        n > 0,
    ensures
        explored(model, f, seed, moves, n).contains(list_schedule(model)),
    decreases n,
{
    let seen = explored(model, f, seed, moves, (n - 1) as nat);
    let c = attempt(model, seed, (n - 1) as nat, seen);
    if n > 1 {
        list_schedule_is_explored(model, f, seed, moves, (n - 1) as nat);
    }
    lemma_climb_grows(model, f, c, moves, list_schedule(model));
}

/// The best-ranked assignment is never worse than the list schedule.
pub proof fn search_never_does_worse(
    model: Model,
    f: ScoreFn,
    list: Seq<(Vec<u64>, Assignment)>,
    seed: u64,
    moves: nat,
    n: nat,
)
    requires
        model.wf(),
        model.units@.len() <= usize::MAX,
        model.cpus@.len() > 0,
        n > 0,
        ranks_runnable(model, list),
        ranks_explored(model, f, list, explored(model, f, seed, moves, n)),
    ensures
        list.len() > 0,
        !better(f(model.evaluation(list_schedule(model))), list[0].0@),
{
    let start = list_schedule(model);
    list_schedule_can_run(model);
    list_schedule_is_explored(model, f, seed, moves, n);
    assert(is_ranked(list, start));
    let i = choose|i: int| 0 <= i < list.len() && (#[trigger] list[i]).1@ == start;
    assert(list[i].0@ == f(model.evaluation(list[i].1@)));
    if i == 0 {
        lemma_better_irreflexive(list[0].0@);
    } else {
        assert(ranks_before(ranked_view(list[0]), ranked_view(list[i])));
        if better(list[0].0@, list[i].0@) && better(list[i].0@, list[0].0@) {
            lemma_better_transitive(list[0].0@, list[i].0@, list[0].0@);
            lemma_better_irreflexive(list[0].0@);
        }
    }
}

proof fn lemma_least_loaded_first(load: Seq<nat>, n: nat)
    requires
        0 < n <= load.len(),
    ensures
        0 <= least_loaded(load, n) < n,
        forall|l: int| 0 <= l < n ==> load[least_loaded(load, n)] <= #[trigger] load[l],
        forall|l: int| 0 <= l < least_loaded(load, n) ==> load[least_loaded(load, n)] < #[trigger] load[l],
    decreases n,
{
    if n > 1 {
        lemma_least_loaded_first(load, (n - 1) as nat);
    }
}

proof fn lemma_place_loads(cost: Seq<u64>, order: Seq<usize>, width: nat, n: nat)
    requires
        width > 0,
        n <= order.len(),
    ensures
        place(cost, order, width, n).lanes.len() == width,
        place(cost, order, width, n).load.len() == width,
        forall|l: int|
            0 <= l < width ==> #[trigger] place(cost, order, width, n).load[l] == sum(
                unit_costs(cost, place(cost, order, width, n).lanes[l]),
            ),
    decreases n,
{
    let p = place(cost, order, width, n);
    if n == 0 {
        assert forall|l: int| 0 <= l < width implies #[trigger] p.load[l] == sum(unit_costs(cost, p.lanes[l])) by {
            assert(unit_costs(cost, p.lanes[l]) =~= Seq::<nat>::empty());
            lemma_sum_empty();
        }
    } else {
        lemma_place_loads(cost, order, width, (n - 1) as nat);
        let rest = place(cost, order, width, (n - 1) as nat);
        lemma_least_loaded(rest.load, width);
        let x = least_loaded(rest.load, width);
        let u = order[n - 1];
        assert forall|l: int| 0 <= l < width implies #[trigger] p.load[l] == sum(unit_costs(cost, p.lanes[l])) by {
            assert(rest.load[l] == sum(unit_costs(cost, rest.lanes[l])));
            if l == x {
                assert(unit_costs(cost, p.lanes[l]) =~= unit_costs(cost, rest.lanes[l]).push(cost[u as int] as nat));
                lemma_sum_push(unit_costs(cost, rest.lanes[l]), cost[u as int] as nat);
            }
        }
    }
}

/// The list schedule takes the units in a topological order, and each goes
/// behind what the first of the least loaded lanes holds so far; the others
/// stay as they are.
pub proof fn list_schedule_fills_the_least_loaded(cost: Seq<u64>, order: Seq<usize>, width: nat, n: nat) -> (l: int)
    requires
        width > 0,
        n < order.len(),
    ensures
        ({
            let before = place(cost, order, width, n).lanes;
            let after = place(cost, order, width, n + 1).lanes;
            &&& before.len() == width
            &&& after.len() == width
            &&& 0 <= l < width
            &&& after[l] == before[l].push(order[n as int])
            &&& forall|m: int| 0 <= m < width && m != l ==> #[trigger] after[m] == before[m]
            &&& forall|m: int|
                0 <= m < width ==> sum(unit_costs(cost, before[l])) <= sum(unit_costs(cost, #[trigger] before[m]))
            &&& forall|m: int|
                0 <= m < l ==> sum(unit_costs(cost, before[l])) < sum(unit_costs(cost, #[trigger] before[m]))
        }),
        forall|m: int| 0 <= m < width ==> (#[trigger] place(cost, order, width, 0).lanes[m]).len() == 0,
{
    lemma_place_loads(cost, order, width, n);
    let p = place(cost, order, width, n);
    lemma_least_loaded_first(p.load, width);
    let l = least_loaded(p.load, width);
    assert forall|m: int| 0 <= m < width implies sum(unit_costs(cost, p.lanes[l])) <= sum(
        unit_costs(cost, #[trigger] p.lanes[m]),
    ) by {
        assert(p.load[m] == sum(unit_costs(cost, p.lanes[m])));
        assert(p.load[l] == sum(unit_costs(cost, p.lanes[l])));
    }
    assert forall|m: int| 0 <= m < l implies sum(unit_costs(cost, p.lanes[l])) < sum(
        unit_costs(cost, #[trigger] p.lanes[m]),
    ) by {
        assert(p.load[m] == sum(unit_costs(cost, p.lanes[m])));
        assert(p.load[l] == sum(unit_costs(cost, p.lanes[l])));
    }
    l
}

/// Whether `after` is `before` with the unit at `at` of lane `from` taken out
/// and put at `position` of lane `to`.
pub open spec fn moved(
    before: Seq<Seq<usize>>,
    after: Seq<Seq<usize>>,
    from: int,
    at: int,
    to: int,
    position: int,
) -> bool {
    &&& 0 <= from < before.len()
    &&& 0 <= at < before[from].len()
    &&& 0 <= to < before.len()
    &&& after.len() == before.len()
    &&& forall|l: int| 0 <= l < before.len() && l != from && l != to ==> #[trigger] after[l] == before[l]
    &&& from != to ==> 0 <= position <= before[to].len() && after[from] == before[from].remove(at) && after[to]
        == before[to].insert(position, before[from][at])
    &&& from == to ==> 0 <= position < before[to].len() && after[to] == before[from].remove(at).insert(
        position,
        before[from][at],
    )
}

/// Whether `after` is `before` with two neighbours of one lane swapped.
pub open spec fn swapped(before: Seq<Seq<usize>>, after: Seq<Seq<usize>>, lane: int, at: int) -> bool {
    &&& 0 <= lane < before.len()
    &&& 0 <= at < before[lane].len() - 1
    &&& after.len() == before.len()
    &&& forall|l: int| 0 <= l < before.len() && l != lane ==> #[trigger] after[l] == before[l]
    &&& after[lane].len() == before[lane].len()
    &&& after[lane][at] == before[lane][at + 1]
    &&& after[lane][at + 1] == before[lane][at]
    &&& forall|k: int|
        0 <= k < before[lane].len() && k != at && k != at + 1 ==> #[trigger] after[lane][k] == before[lane][k]
}

/// A random move takes one unit to another place, or swaps two neighbours of a
/// lane; where there is nothing to move or to swap, it changes nothing.
pub proof fn random_moves_move_or_swap(lanes: Seq<Seq<usize>>, state: u64)
    requires
        lanes.len() <= usize::MAX,
    ensures
        ({
            let next = random_move(lanes, state).0;
            ||| exists|from: int, at: int, to: int, position: int| #[trigger] moved(lanes, next, from, at, to, position)
            ||| exists|lane: int, at: int| #[trigger] swapped(lanes, next, lane, at)
            ||| next == lanes && forall|l: int| 0 <= l < lanes.len() ==> (#[trigger] lanes[l]).len() <= 1
        }),
{
    let next = random_move(lanes, state).0;
    let occupied = lanes_above(lanes, 0, lanes.len());
    lemma_lanes_above(lanes, 0, lanes.len());
    lemma_lanes_above_all(lanes, 0, lanes.len());
    if occupied.len() > 0 {
        let s1 = rng_step(state);
        if rng_below(state, 2) == 0 || lanes.len() == 1 {
            let from = occupied[rng_below(s1, occupied.len())] as int;
            let s2 = rng_step(s1);
            let at = rng_below(s2, lanes[from].len());
            let s3 = rng_step(s2);
            let to = rng_below(s3, lanes.len());
            let s4 = rng_step(s3);
            let rest = lanes.update(from, lanes[from].remove(at));
            let position = rng_below(s4, rest[to].len() + 1);
            assert(next == move_unit(lanes, from, at, to, position));
            if from != to {
                assert(rest[to] == lanes[to]);
            }
            assert(moved(lanes, next, from, at, to, position));
        } else {
            let wide = lanes_above(lanes, 1, lanes.len());
            lemma_lanes_above(lanes, 1, lanes.len());
            lemma_lanes_above_all(lanes, 1, lanes.len());
            if wide.len() > 0 {
                let lane = wide[rng_below(s1, wide.len())] as int;
                let s2 = rng_step(s1);
                let at = rng_below(s2, (lanes[lane].len() - 1) as nat);
                assert(next == swap_units(lanes, lane, at));
                assert(swapped(lanes, next, lane, at));
            }
        }
    }
}

proof fn lemma_lanes_above_all(lanes: Seq<Seq<usize>>, least: nat, n: nat)
    requires
        n <= lanes.len(),
    ensures
        lanes_above(lanes, least, n).len() == 0 ==> forall|l: int| 0 <= l < n ==> (#[trigger] lanes[l]).len() <= least,
    decreases n,
{
    if n > 0 {
        lemma_lanes_above_all(lanes, least, (n - 1) as nat);
    }
}

/// The ranked assignments are those explored that can run, with their scores,
/// the better ones first: nothing explored that can run is better than the
/// first, and none is better than one ranked before it.
pub proof fn better_assignments_rank_first(
    model: Model,
    f: ScoreFn,
    list: Seq<(Vec<u64>, Assignment)>,
    found: Set<Seq<Seq<usize>>>,
)
    requires
        ranks_runnable(model, list),
        ranks_explored(model, f, list, found),
    ensures
        forall|i: int, j: int| 0 <= i < j < list.len() ==> !better((#[trigger] list[j]).0@, (#[trigger] list[i]).0@),
        forall|i: int| 0 <= i < list.len() ==> (#[trigger] list[i]).0@ == f(model.evaluation(list[i].1@)),
        forall|i: int| 0 <= i < list.len() ==> found.contains((#[trigger] list[i]).1@),
        forall|lanes: Seq<Seq<usize>>| #[trigger]
            found.contains(lanes) && orderable(lists_of(model.preds@), lanes) ==> list.len() > 0 && !better(
                f(model.evaluation(lanes)),
                list[0].0@,
            ),
{
    assert forall|i: int, j: int| 0 <= i < j < list.len() implies !better(
        (#[trigger] list[j]).0@,
        (#[trigger] list[i]).0@,
    ) by {
        assert(ranks_before(ranked_view(list[i]), ranked_view(list[j])));
        if better(list[i].0@, list[j].0@) && better(list[j].0@, list[i].0@) {
            lemma_better_transitive(list[i].0@, list[j].0@, list[i].0@);
            lemma_better_irreflexive(list[i].0@);
        }
    }
    assert forall|i: int| 0 <= i < list.len() implies found.contains((#[trigger] list[i]).1@) by {
        assert(is_ranked(list, list[i].1@));
    }
    assert forall|lanes: Seq<Seq<usize>>| #[trigger]
        found.contains(lanes) && orderable(lists_of(model.preds@), lanes) implies list.len() > 0 && !better(
        f(model.evaluation(lanes)),
        list[0].0@,
    ) by {
        assert(is_ranked(list, lanes));
        let i = choose|i: int| 0 <= i < list.len() && (#[trigger] list[i]).1@ == lanes;
        assert(list[i].0@ == f(model.evaluation(list[i].1@)));
        if i == 0 {
            lemma_better_irreflexive(list[0].0@);
        }
    }
}

/// More attempts explore more.
pub proof fn more_attempts_explore_more(model: Model, f: ScoreFn, seed: u64, moves: nat, n: nat, lanes: Seq<Seq<usize>>)
    requires
        explored(model, f, seed, moves, n).contains(lanes),
    ensures
        explored(model, f, seed, moves, n + 1).contains(lanes),
{
    let seen = explored(model, f, seed, moves, n);
    lemma_climb_grows(model, f, attempt(model, seed, n, seen), moves, lanes);
}

/// A move of a climb is taken only when it is an improvement; the best
/// assignment of a climb is never given up for one that is no improvement.
pub proof fn climbs_only_improve(model: Model, f: ScoreFn, c: Climb)
    ensures
        climb_step(model, f, c).best == c.best || improves(
            score_of(model, f, climb_step(model, f, c).best),
            score_of(model, f, c.best),
        ),
        c.seen.contains(c.best) ==> climb_step(model, f, c).seen.contains(climb_step(model, f, c).best),
        forall|lanes: Seq<Seq<usize>>| #[trigger] c.seen.contains(lanes) ==> climb_step(model, f, c).seen.contains(lanes),
        c.stall + 1 < PATIENCE ==> climb_step(model, f, c).current == c.current || improves(
            score_of(model, f, climb_step(model, f, c).current),
            score_of(model, f, c.current),
        ),
{
}

/// A random number comes from the state after a step: two rounds of folding the
/// upper bits in and multiplying, and a last folding, all modulo `2^64`.
pub proof fn random_numbers_are_mixed_twice(state: u64, z: u64, y: u64, x: u64)
    requires
        z == (state + 0x9e37_79b9_7f4a_7c15) % 0x1_0000_0000_0000_0000,
        y == ((z ^ (z >> 30)) * 0xbf58_476d_1ce4_e5b9) % 0x1_0000_0000_0000_0000,
        x == ((y ^ (y >> 27)) * 0x94d0_49bb_1331_11eb) % 0x1_0000_0000_0000_0000,
    ensures
        rng_step(state) == z,
        rng_value(state) == x ^ (x >> 31),
        forall|n: nat| n > 0 ==> #[trigger] rng_below(state, n) == (x ^ (x >> 31)) as nat % n,
{
}

/// Whether a lane holds more than `least` units.
pub open spec fn holds_more(lanes: Seq<Seq<usize>>, least: nat) -> spec_fn(int) -> bool {
    |l: int| lanes[l].len() > least
}

proof fn lemma_lanes_above_filter(lanes: Seq<Seq<usize>>, least: nat, n: nat)
    requires
        n <= lanes.len() <= usize::MAX,
    ensures
        lanes_above(lanes, least, n).len() == places(n).filter(holds_more(lanes, least)).len(),
        forall|i: int|
            0 <= i < lanes_above(lanes, least, n).len() ==> #[trigger] lanes_above(lanes, least, n)[i] == places(n).filter(
                holds_more(lanes, least),
            )[i],
    decreases n,
{
    reveal(Seq::filter);
    if n > 0 {
        lemma_lanes_above_filter(lanes, least, (n - 1) as nat);
        assert(places(n).drop_last() =~= places((n - 1) as nat));
        assert(places(n).last() == n - 1);
    }
}

/// A random move goes by the random sequence: an even number, or one lane only,
/// moves a unit, and then the next four choose among the lanes that hold units,
/// the units of that lane, all lanes, and the places there; an odd one swaps, and
/// then the next two choose among the lanes that hold two units or more, and the
/// neighbours there.
pub proof fn random_moves_follow_the_random_sequence(lanes: Seq<Seq<usize>>, state: u64)
    requires
        0 < lanes.len() <= usize::MAX,
        exists|l: int| 0 <= l < lanes.len() && (#[trigger] lanes[l]).len() > 0,
    ensures
        ({
            let (next, after) = random_move(lanes, state);
            let some = places(lanes.len()).filter(holds_more(lanes, 0));
            let wide = places(lanes.len()).filter(holds_more(lanes, 1));
            let s1 = rng_step(state);
            let s2 = rng_step(s1);
            let s3 = rng_step(s2);
            let s4 = rng_step(s3);
            if rng_value(state) % 2 == 0 || lanes.len() == 1 {
                let from = some[rng_value(s1) as int % some.len() as int];
                let at = rng_value(s2) as int % lanes[from].len() as int;
                let to = rng_value(s3) as int % lanes.len() as int;
                let room = if to == from {
                    lanes[to].len() as int
                } else {
                    lanes[to].len() as int + 1
                };
                &&& moved(lanes, next, from, at, to, rng_value(s4) as int % room)
                &&& after == rng_step(s4)
            } else if wide.len() > 0 {
                let lane = wide[rng_value(s1) as int % wide.len() as int];
                &&& swapped(lanes, next, lane, rng_value(s2) as int % (lanes[lane].len() - 1))
                &&& after == rng_step(s2)
            } else {
                next == lanes && after == s1
            }
        }),
{
    let occupied = lanes_above(lanes, 0, lanes.len());
    lemma_lanes_above(lanes, 0, lanes.len());
    lemma_lanes_above_all(lanes, 0, lanes.len());
    lemma_lanes_above_filter(lanes, 0, lanes.len());
    lemma_lanes_above(lanes, 1, lanes.len());
    lemma_lanes_above_filter(lanes, 1, lanes.len());
    let l = choose|l: int| 0 <= l < lanes.len() && (#[trigger] lanes[l]).len() > 0;
    assert(occupied.len() > 0);
    let s1 = rng_step(state);
    let s2 = rng_step(s1);
    let s3 = rng_step(s2);
    let s4 = rng_step(s3);
    let next = random_move(lanes, state).0;
    assert(rng_below(state, 2) == rng_value(state) % 2);
    if rng_value(state) % 2 == 0 || lanes.len() == 1 {
        let pick = rng_below(s1, occupied.len());
        assert(0 <= pick < occupied.len());
        let from = occupied[pick] as int;
        assert(lanes[from].len() > 0);
        let at = rng_below(s2, lanes[from].len());
        let to = rng_below(s3, lanes.len());
        let rest = lanes.update(from, lanes[from].remove(at));
        let room = rest[to].len() + 1;
        let position = rng_below(s4, room);
        assert(next == move_unit(lanes, from, at, to, position));
        assert(moved(lanes, next, from, at, to, position));
    } else {
        let wide = lanes_above(lanes, 1, lanes.len());
        if wide.len() > 0 {
            let pick = rng_below(s1, wide.len());
            assert(0 <= pick < wide.len());
            let lane = wide[pick] as int;
            assert(lanes[lane].len() > 1);
            let at = rng_below(s2, (lanes[lane].len() - 1) as nat);
            assert(next == swap_units(lanes, lane, at));
            assert(swapped(lanes, next, lane, at));
        }
    }
}

/// A random walk only takes moves that can run.
pub proof fn random_walks_keep_to_what_can_run(model: Model, lanes: Seq<Seq<usize>>, state: u64, n: nat)
    requires
        orderable(lists_of(model.preds@), lanes),
    ensures
        orderable(lists_of(model.preds@), wander(model, lanes, state, n).0),
        ({
            let (at, s) = wander(model, lanes, state, n);
            let (next, t) = random_move(at, s);
            let (after, u) = wander(model, lanes, state, n + 1);
            &&& u == t
            &&& orderable(lists_of(model.preds@), next) ==> after == next
            &&& !orderable(lists_of(model.preds@), next) ==> after == at
        }),
    decreases n,
{
    if n > 0 {
        random_walks_keep_to_what_can_run(model, lanes, state, (n - 1) as nat);
    }
}

/// A climb takes every move that is an improvement, and keeps it as the best when
/// it improves on that too. Otherwise it stays, until it has looked in vain 120
/// times in a row: then it goes on three random moves away from the best one.
/// Everything it looks at counts as explored.
pub proof fn climbs_take_every_improvement(model: Model, f: ScoreFn, c: Climb)
    ensures
        ({
            let (candidate, s) = random_move(c.current, c.rng);
            let next = climb_step(model, f, c);
            let taken = improves(score_of(model, f, candidate), score_of(model, f, c.current));
            &&& next.seen.contains(candidate)
            &&& next.seen.contains(next.current) || next.current == c.current
            &&& taken ==> next.current == candidate && next.stall == 0 && next.rng == s
            &&& taken && improves(score_of(model, f, candidate), score_of(model, f, c.best)) ==> next.best == candidate
            &&& taken && !improves(score_of(model, f, candidate), score_of(model, f, c.best)) ==> next.best == c.best
            &&& !taken ==> next.best == c.best
            &&& !taken && c.stall < 119 ==> next.current == c.current && next.stall == c.stall + 1 && next.rng == s
            &&& !taken && c.stall >= 119 ==> next.stall == 0 && (next.current, next.rng) == wander(model, c.best, s, 3)
        }),
{
}

/// The first attempt starts at the list schedule; a later one starts twice as
/// many random moves away as there are units, and so differs by its number as it
/// would by the seed.
pub proof fn attempts_start_apart(model: Model, seed: u64, k: nat, seen: Set<Seq<Seq<usize>>>)
    requires
        seed + k <= u64::MAX,
    ensures
        attempt(model, seed, 0, seen).current == list_schedule(model),
        k > 0 ==> (attempt(model, seed, k, seen).current, attempt(model, seed, k, seen).rng) == wander(
            model,
            list_schedule(model),
            (seed + k) as u64,
            2 * model.units@.len(),
        ),
        k == 0 ==> attempt(model, seed, k, seen).rng == seed,
        attempt(model, seed, k, seen).best == attempt(model, seed, k, seen).current,
        attempt(model, seed, k, seen).seen == seen.insert(attempt(model, seed, k, seen).current),
{
}

/// Of assignments with the same score, the lexicographically smaller one ranks
/// first.
pub proof fn equal_scores_rank_by_assignment(list: Seq<(Vec<u64>, Assignment)>, i: int, j: int)
    requires
        in_ranking_order(list),
        0 <= i < j < list.len(),
        list[i].0@ == list[j].0@,
    ensures
        exists|k: int| #[trigger]
            same_until(list[i].1@, list[j].1@, k) && k < list[j].1@.len() && (k == list[i].1@.len() || list_less(
                list[i].1@[k],
                list[j].1@[k],
            )),
{
    assert(ranks_before(ranked_view(list[i]), ranked_view(list[j])));
    lemma_better_irreflexive(list[i].0@);
    lists_of_lists_are_ordered_by_the_first_difference(list[i].1@, list[j].1@);
}

/// The list schedule places every unit once, in an order that takes units as they
/// become free: those that wait for nothing in ascending order, then each as soon
/// as the last unit that it waits for is placed.
pub proof fn list_schedule_goes_by_what_is_free(model: Model) -> (order: Seq<usize>)
    requires
        model.wf(),
        model.units@.len() <= usize::MAX,
    ensures
        list_schedule(model) == place(model.cost@, order, model.cpus@.len(), model.units@.len()).lanes,
        order.len() == model.units@.len(),
        order.no_duplicates(),
        forall|i: int| 0 <= i < order.len() ==> (#[trigger] order[i]) < model.units@.len(),
        forall|i: int, j: int|
            0 <= i < j < order.len() ==> takes_turn(
                successor_graph(lists_of(model.preds@)),
                order,
                #[trigger] order[i],
                #[trigger] order[j],
            ),
{
    let g = successor_graph(lists_of(model.preds@));
    let order = walk_order(g);
    lemma_successor_graph_closed(lists_of(model.preds@));
    walk_is_complete_iff_acyclic(g);
    walk_order_is_topological(g);
    assert forall|i: int, j: int| 0 <= i < j < order.len() implies takes_turn(
        g,
        order,
        #[trigger] order[i],
        #[trigger] order[j],
    ) by {
        nodes_are_taken_as_they_become_free(g, i, j);
    }
    order
}

/// Before any attempt nothing is explored. Each attempt starts with what the ones
/// before it explored and makes so many moves, one after the other.
pub proof fn attempts_make_so_many_moves(model: Model, f: ScoreFn, seed: u64, moves: nat, n: nat, c: Climb)
    ensures
        explored(model, f, seed, moves, 0) == Set::<Seq<Seq<usize>>>::empty(),
        explored(model, f, seed, moves, n + 1) == climb(
            model,
            f,
            attempt(model, seed, n, explored(model, f, seed, moves, n)),
            moves,
        ).seen,
        climb(model, f, c, 0) == c,
        climb(model, f, c, n + 1) == climb_step(model, f, climb(model, f, c, n)),
{
}

proof fn lemma_climb_seen_bound(model: Model, f: ScoreFn, c: Climb, n: nat)
    requires
        c.seen.finite(),
    ensures
        climb(model, f, c, n).seen.finite(),
        climb(model, f, c, n).seen.len() <= c.seen.len() + 2 * n,
    decreases n,
{
    if n > 0 {
        lemma_climb_seen_bound(model, f, c, (n - 1) as nat);
    }
}

/// A search explores no more than its attempts and their moves allow: a move looks
/// at one assignment, and at one more when the climb is set back.
pub proof fn searches_are_bounded(model: Model, f: ScoreFn, seed: u64, moves: nat, n: nat)
    ensures
        explored(model, f, seed, moves, n).finite(),
        explored(model, f, seed, moves, n).len() <= n * (2 * moves + 1),
    decreases n,
{
    if n > 0 {
        let m = (n - 1) as nat;
        searches_are_bounded(model, f, seed, moves, m);
        let seen = explored(model, f, seed, moves, m);
        lemma_climb_seen_bound(model, f, attempt(model, seed, m, seen), moves);
        assert((m + 1) * (2 * moves + 1) == m * (2 * moves + 1) + 2 * moves + 1) by (nonlinear_arith);
    } else {
        assert(0 * (2 * moves + 1) == 0) by (nonlinear_arith);
    }
}

} // verus!
