//! Response times and the timeline of one schedule cycle.

use crate::model::total_cost;
use crate::model::Model;
use crate::order::can_run;
use crate::order::orderable;
use crate::order::respects;
use crate::order::units_known;
use crate::shape::lists_of;
use crate::sums::lemma_sum_empty;
use crate::sums::lemma_sum_push;
use crate::sums::sum;
use vstd::prelude::*;

verus! {

/// Response times past this many periods count as unbounded.
pub const RESPONSE_CAP_PERIODS: u64 = 20;

/// `a / b`, rounded up.
pub open spec fn ceil_div(a: nat, b: nat) -> nat {
    a / b + (if a % b == 0 { 0nat } else { 1nat })
}

/// What the first `n` of `hp` take of an interval of `x` plus slack `g`: each
/// its cost once per begun period.
pub open spec fn interference(hp: Seq<(u64, u64)>, g: nat, x: nat, n: nat) -> nat
    decreases n,
{
    if n == 0 {
        0
    } else {
        let (cost, period) = hp[n - 1];
        interference(hp, g, x, (n - 1) as nat) + ceil_div(x + g, if period == 0 { 1 } else { period as nat }) * cost as nat
    }
}

/// The time that `c` needs in an interval of `x` under the interference of `hp`.
pub open spec fn demand(c: nat, hp: Seq<(u64, u64)>, g: nat, x: nat) -> nat {
    c + interference(hp, g, x, hp.len())
}

proof fn lemma_ceil_div(a: nat, b: nat, d: nat)
    requires
        a <= b,
        d > 0,
    ensures
        ceil_div(a, d) <= ceil_div(b, d),
{
    let (q, r) = (a / d, a % d);
    let (s, t) = (b / d, b % d);
    vstd::arithmetic::div_mod::lemma_fundamental_div_mod(a as int, d as int);
    vstd::arithmetic::div_mod::lemma_fundamental_div_mod(b as int, d as int);
    vstd::arithmetic::div_mod::lemma_div_is_ordered(a as int, b as int, d as int);
    if q == s && t == 0 {
        assert(r == 0);
    }
}

proof fn lemma_interference(hp: Seq<(u64, u64)>, g: nat, x: nat, y: nat, n: nat)
    requires
        x <= y,
        n <= hp.len(),
    ensures
        interference(hp, g, x, n) <= interference(hp, g, y, n),
    decreases n,
{
    if n > 0 {
        lemma_interference(hp, g, x, y, (n - 1) as nat);
        let (cost, period) = hp[n - 1];
        let d = if period == 0 { 1 } else { period as nat };
        lemma_ceil_div(x + g, y + g, d);
        vstd::arithmetic::mul::lemma_mul_inequality(
            ceil_div(x + g, d) as int,
            ceil_div(y + g, d) as int,
            cost as int,
        );
    }
}

proof fn lemma_interference_part(hp: Seq<(u64, u64)>, g: nat, x: nat, m: nat, n: nat)
    requires
        m <= n <= hp.len(),
    ensures
        interference(hp, g, x, m) <= interference(hp, g, x, n),
    decreases n,
{
    if m < n {
        lemma_interference_part(hp, g, x, m, (n - 1) as nat);
    }
}

/// The time that `c` needs in an interval of `x` under the interference of
/// `hp`; `None` past `cap`.
fn demand_within(c: u64, hp: &Vec<(u64, u64)>, g: u64, x: u64, cap: u64) -> (r: Option<u64>)
    requires
        c <= cap,
    ensures
        match r {
            Some(next) => next <= cap && next == demand(c as nat, hp@, g as nat, x as nat),
            None => demand(c as nat, hp@, g as nat, x as nat) > cap,
        },
{
    let span: u128 = (x as u128) + (g as u128);
    let mut next: u64 = c;
    let mut i: usize = 0;
    while i < hp.len()
        invariant
            i <= hp@.len(),
            span == x + g,
            next <= cap,
            next == c + interference(hp@, g as nat, x as nat, i as nat),
        decreases hp@.len() - i,
    {
        let (cost, period) = hp[i];
        let d: u128 = if period == 0 { 1 } else { period as u128 };
        proof {
            lemma_begun(span, d);
            lemma_interference_part(hp@, g as nat, x as nat, (i + 1) as nat, hp@.len());
        }
        let begun: u128 = if span % d == 0 { span / d } else { span / d + 1 };
        assert(begun == ceil_div((x + g) as nat, d as nat));
        if cost > 0 {
            if begun > cap as u128 {
                assert(begun * cost >= begun) by (nonlinear_arith)
                    requires
                        cost > 0,
                        begun >= 0,
                ;
                return None;
            }
            assert(begun * cost <= 0xffff_ffff_ffff_ffff * 0xffff_ffff_ffff_ffff) by (nonlinear_arith)
                requires
                    begun <= 0xffff_ffff_ffff_ffff,
                    cost <= 0xffff_ffff_ffff_ffff,
            ;
            let total: u128 = (next as u128) + begun * (cost as u128);
            if total > cap as u128 {
                return None;
            }
            next = total as u64;
        } else {
            assert(begun * cost == 0) by (nonlinear_arith)
                requires
                    cost == 0,
            ;
        }
        i = i + 1;
    }
    Some(next)
}

/// Smallest `x = c + sum ceil((x + g) / T) C` over `hp`; `None` past `cap`.
pub fn fixpoint(c: u64, hp: &Vec<(u64, u64)>, g: u64, cap: u64) -> (r: Option<u64>)
    ensures
        match r {
            Some(x) => {
                &&& x <= cap
                &&& demand(c as nat, hp@, g as nat, x as nat) == x
                &&& forall|y: nat| #[trigger] demand(c as nat, hp@, g as nat, y) == y ==> x <= y
            },
            None => forall|y: nat| y <= cap ==> #[trigger] demand(c as nat, hp@, g as nat, y) != y,
        },
{
    if c > cap {
        return None;
    }
    let mut x: u64 = c;
    loop
        invariant
            c <= x <= cap,
            x <= demand(c as nat, hp@, g as nat, x as nat),
            forall|y: nat| #[trigger] demand(c as nat, hp@, g as nat, y) == y ==> x <= y,
        decreases cap - x,
    {
        proof {
            assert forall|y: nat| #[trigger] demand(c as nat, hp@, g as nat, y) == y implies demand(
                c as nat,
                hp@,
                g as nat,
                x as nat,
            ) <= y by {
                lemma_interference(hp@, g as nat, x as nat, y, hp@.len());
            }
        }
        let next: u64 = match demand_within(c, hp, g, x, cap) {
            Some(next) => next,
            None => {
                return None;
            },
        };
        if next == x {
            return Some(x);
        }
        proof {
            lemma_interference(hp@, g as nat, x as nat, next as nat, hp@.len());
        }
        x = next;
    }
}

proof fn lemma_begun(span: u128, d: u128)
    requires
        d > 0,
        span <= 0x1_ffff_ffff_ffff_fffe,
    ensures
        span / d + 1 <= u128::MAX,
{
    assert(span / d <= span) by (nonlinear_arith)
        requires
            d > 0,
    ;
}

/// Whether each of `n` units is in exactly one place of one lane.
pub open spec fn complete(lanes: Seq<Seq<usize>>, n: nat) -> bool {
    &&& units_known(lanes, n)
    &&& forall|l: int, k: int, m: int, j: int|
        #![trigger lanes[l][k], lanes[m][j]]
        0 <= l < lanes.len() && 0 <= k < lanes[l].len() && 0 <= m < lanes.len() && 0 <= j < lanes[m].len() && lanes[l][k]
            == lanes[m][j] ==> l == m && k == j
    &&& forall|u: int| 0 <= u < n ==> #[trigger] in_lanes(lanes, u)
}

/// Whether a lane holds unit `u`.
pub open spec fn in_lanes(lanes: Seq<Seq<usize>>, u: int) -> bool {
    exists|l: int, k: int| 0 <= l < lanes.len() && 0 <= k < lanes[l].len() && #[trigger] lanes[l][k] == u
}

/// Sum of the costs of the first `n` entries of a lane.
pub open spec fn lane_cost(cost: Seq<u64>, lane: Seq<usize>, n: nat) -> nat
    decreases n,
{
    if n == 0 {
        0
    } else {
        lane_cost(cost, lane, (n - 1) as nat) + cost[lane[n - 1] as int] as nat
    }
}

/// The greatest of the ends of the first `n` listed units, 0 for none.
pub open spec fn latest(ends: Seq<u64>, list: Seq<usize>, n: nat) -> u64
    decreases n,
{
    if n == 0 {
        0
    } else {
        let rest = latest(ends, list, (n - 1) as nat);
        if ends[list[n - 1] as int] > rest {
            ends[list[n - 1] as int]
        } else {
            rest
        }
    }
}

/// When the lane of the unit at place `k` is free for it: when the unit before
/// it has ended.
pub open spec fn lane_free(ends: Seq<u64>, lane: Seq<usize>, k: int) -> u64 {
    if k == 0 {
        0
    } else {
        ends[lane[k - 1] as int]
    }
}

/// Whether the unit at place `k` of lane `l` starts when its lane is free and
/// every predecessor has ended, and takes its cost.
pub open spec fn timed(
    cost: Seq<u64>,
    preds: Seq<Seq<usize>>,
    lanes: Seq<Seq<usize>>,
    starts: Seq<u64>,
    ends: Seq<u64>,
    l: int,
    k: int,
) -> bool {
    let u = lanes[l][k] as int;
    let free = lane_free(ends, lanes[l], k);
    let release = latest(ends, preds[u], preds[u].len());
    &&& starts[u] == (if release > free {
        release
    } else {
        free
    })
    &&& ends[u] == starts[u] + cost[u]
}

/// Whether `starts` and `ends` are the timeline of a cycle: each lane runs its
/// units in order; a unit starts when its lane is free and every predecessor
/// has ended.
pub open spec fn is_timeline(
    cost: Seq<u64>,
    preds: Seq<Seq<usize>>,
    lanes: Seq<Seq<usize>>,
    starts: Seq<u64>,
    ends: Seq<u64>,
) -> bool {
    &&& starts.len() == preds.len()
    &&& ends.len() == preds.len()
    &&& forall|l: int, k: int|
        0 <= l < lanes.len() && 0 <= k < lanes[l].len() ==> #[trigger] timed(cost, preds, lanes, starts, ends, l, k)
}

/// The latency of a chain: the longest time from the start of its source to
/// the end of its sink, over the first `n` offsets.
pub open spec fn chain_latency(starts: Seq<u64>, ends: Seq<u64>, pairs: Seq<(usize, usize)>, n: nat) -> u64
    decreases n,
{
    if n == 0 {
        0
    } else {
        let rest = chain_latency(starts, ends, pairs, (n - 1) as nat);
        let (source, sink) = pairs[n - 1];
        let span = if ends[sink as int] >= starts[source as int] {
            (ends[sink as int] - starts[source as int]) as u64
        } else {
            0
        };
        if span > rest {
            span
        } else {
            rest
        }
    }
}

/// The greatest of the first `n` values, 0 for none.
pub open spec fn greatest(values: Seq<u64>, n: nat) -> u64
    decreases n,
{
    if n == 0 {
        0
    } else {
        let rest = greatest(values, (n - 1) as nat);
        if values[n - 1] > rest {
            values[n - 1]
        } else {
            rest
        }
    }
}

/// What the model predicts of an assignment, before it is scored.
#[derive(Debug, PartialEq, Eq)]
pub struct Evaluation {
    /// Cost of each lane per cycle.
    pub lane_cost: Vec<u64>,
    /// Response time of each lane, `None` when it does not converge.
    pub response: Vec<Option<u64>>,
    /// Start of each unit in the cycle.
    pub starts: Vec<u64>,
    /// End of each unit in the cycle.
    pub ends: Vec<u64>,
    /// Latency of each chain.
    pub latency: Vec<u64>,
    /// End of the last unit.
    pub makespan: u64,
}

/// What an evaluation says.
pub struct EvaluationModel {
    pub lane_cost: Seq<u64>,
    pub response: Seq<Option<u64>>,
    pub starts: Seq<u64>,
    pub ends: Seq<u64>,
    pub latency: Seq<u64>,
    pub makespan: u64,
}

impl View for Evaluation {
    type V = EvaluationModel;

    open spec fn view(&self) -> EvaluationModel {
        EvaluationModel {
            lane_cost: self.lane_cost@,
            response: self.response@,
            starts: self.starts@,
            ends: self.ends@,
            latency: self.latency@,
            makespan: self.makespan,
        }
    }
}

impl Model {
    /// Whether the arithmetic of the model stays within the number range.
    pub open spec fn fits(self) -> bool {
        &&& total_cost(self.cost@, self.cost@.len()) + self.copperlist_ns / 2 <= u64::MAX
        &&& self.response_cap() <= u64::MAX
    }

    /// The longest response time that counts as bounded.
    pub open spec fn response_cap(self) -> int {
        RESPONSE_CAP_PERIODS * self.cycle_ns
    }

    /// Whether `e` is what the model predicts of `lanes`.
    pub open spec fn predicts(self, lanes: Seq<Seq<usize>>, e: EvaluationModel) -> bool {
        is_evaluation(self.cost@, lists_of(self.preds@), pairs_of(self.chains@), self.response_cap(), lanes, e)
    }

    /// What the model predicts of `lanes`.
    pub open spec fn evaluation(self, lanes: Seq<Seq<usize>>) -> EvaluationModel {
        evaluation_of(self.cost@, lists_of(self.preds@), pairs_of(self.chains@), self.response_cap(), lanes)
    }
}

/// The lists of pairs as sequences.
pub open spec fn pairs_of(lists: Seq<Vec<(usize, usize)>>) -> Seq<Seq<(usize, usize)>> {
    Seq::new(lists.len(), |i: int| lists[i]@)
}

/// The response time of a lane that costs so much and has its CPU to itself:
/// its cost, `None` past `cap`.
pub open spec fn response_of(cost: u64, cap: int) -> Option<u64> {
    if cost <= cap {
        Some(cost)
    } else {
        None
    }
}

/// Whether `e` evaluates `lanes`: what each lane costs and when it responds, the
/// timeline of the units, and the latency of each chain.
pub open spec fn is_evaluation(
    cost: Seq<u64>,
    preds: Seq<Seq<usize>>,
    chains: Seq<Seq<(usize, usize)>>,
    cap: int,
    lanes: Seq<Seq<usize>>,
    e: EvaluationModel,
) -> bool {
    &&& e.lane_cost.len() == lanes.len()
    &&& e.response.len() == lanes.len()
    &&& forall|l: int| 0 <= l < lanes.len() ==> #[trigger] e.lane_cost[l] == lane_cost(cost, lanes[l], lanes[l].len())
    &&& forall|l: int| 0 <= l < lanes.len() ==> #[trigger] e.response[l] == response_of(e.lane_cost[l], cap)
    &&& is_timeline(cost, preds, lanes, e.starts, e.ends)
    &&& e.latency.len() == chains.len()
    &&& forall|c: int|
        0 <= c < chains.len() ==> #[trigger] e.latency[c] == chain_latency(e.starts, e.ends, chains[c], chains[c].len())
    &&& e.makespan == greatest(e.ends, e.ends.len())
}

/// The evaluation of `lanes`.
pub open spec fn evaluation_of(
    cost: Seq<u64>,
    preds: Seq<Seq<usize>>,
    chains: Seq<Seq<(usize, usize)>>,
    cap: int,
    lanes: Seq<Seq<usize>>,
) -> EvaluationModel {
    choose|e: EvaluationModel| is_evaluation(cost, preds, chains, cap, lanes, e)
}

/// Sum of the costs of those of the first `n` units that are done.
spec fn done_cost(cost: Seq<u64>, done: Seq<bool>, n: nat) -> nat
    decreases n,
{
    if n == 0 {
        0
    } else {
        done_cost(cost, done, (n - 1) as nat) + (if done[n - 1] { cost[n - 1] as nat } else { 0nat })
    }
}

/// How many of the first `n` units are not done.
spec fn open_count(done: Seq<bool>, n: nat) -> nat
    decreases n,
{
    if n == 0 {
        0
    } else {
        open_count(done, (n - 1) as nat) + (if done[n - 1] { 0nat } else { 1nat })
    }
}

proof fn lemma_done(cost: Seq<u64>, done: Seq<bool>, n: nat, u: int)
    requires
        done.len() == cost.len(),
        n <= cost.len(),
        0 <= u < cost.len(),
        !done[u],
    ensures
        done_cost(cost, done.update(u, true), n) == done_cost(cost, done, n) + (if u < n { cost[u] as nat } else { 0nat }),
        open_count(done.update(u, true), n) + (if u < n { 1nat } else { 0nat }) == open_count(done, n),
        done_cost(cost, done.update(u, true), n) <= total_cost(cost, n),
    decreases n,
{
    if n > 0 {
        lemma_done(cost, done, (n - 1) as nat, u);
    }
}

proof fn lemma_open(done: Seq<bool>, n: nat, u: int)
    requires
        n <= done.len(),
        open_count(done, n) == 0,
        0 <= u < n,
    ensures
        done[u],
    decreases n,
{
    if u + 1 < n {
        lemma_open(done, (n - 1) as nat, u);
    }
}

proof fn lemma_none_done(cost: Seq<u64>, done: Seq<bool>, n: nat)
    requires
        n <= done.len(),
        forall|u: int| 0 <= u < n ==> !#[trigger] done[u],
    ensures
        done_cost(cost, done, n) == 0,
        open_count(done, n) == n,
    decreases n,
{
    if n > 0 {
        lemma_none_done(cost, done, (n - 1) as nat);
    }
}

pub(crate) proof fn lemma_lane_cost(cost: Seq<u64>, lanes: Seq<Seq<usize>>, l: int, n: nat)
    requires
        complete(lanes, cost.len()),
        0 <= l < lanes.len(),
        n <= lanes[l].len(),
    ensures
        lane_cost(cost, lanes[l], n) <= total_cost(cost, cost.len()),
{
    let done = Seq::new(cost.len(), |u: int| exists|k: int| 0 <= k < n && #[trigger] lanes[l][k] == u);
    lemma_lane_done(cost, lanes, l, n);
    lemma_done_total(cost, done, cost.len());
}

proof fn lemma_done_total(cost: Seq<u64>, done: Seq<bool>, n: nat)
    requires
        n <= cost.len(),
        done.len() == cost.len(),
    ensures
        done_cost(cost, done, n) <= total_cost(cost, n),
    decreases n,
{
    if n > 0 {
        lemma_done_total(cost, done, (n - 1) as nat);
    }
}

proof fn lemma_lane_done(cost: Seq<u64>, lanes: Seq<Seq<usize>>, l: int, n: nat)
    requires
        complete(lanes, cost.len()),
        0 <= l < lanes.len(),
        n <= lanes[l].len(),
    ensures
        done_cost(
            cost,
            Seq::new(cost.len(), |u: int| exists|k: int| 0 <= k < n && #[trigger] lanes[l][k] == u),
            cost.len(),
        ) == lane_cost(cost, lanes[l], n),
    decreases n,
{
    let done = Seq::new(cost.len(), |u: int| exists|k: int| 0 <= k < n && #[trigger] lanes[l][k] == u);
    if n == 0 {
        assert forall|u: int| 0 <= u < cost.len() implies !#[trigger] done[u] by {}
        lemma_none_done(cost, done, cost.len());
    } else {
        lemma_lane_done(cost, lanes, l, (n - 1) as nat);
        let before = Seq::new(cost.len(), |u: int| exists|k: int| 0 <= k < n - 1 && #[trigger] lanes[l][k] == u);
        let u = lanes[l][n - 1] as int;
        assert(lanes[l][n - 1] < cost.len());
        assert(!before[u]) by {
            if before[u] {
                let k = choose|k: int| 0 <= k < n - 1 && #[trigger] lanes[l][k] == u;
                assert(lanes[l][k] == lanes[l][n - 1]);
            }
        }
        lemma_done(cost, before, cost.len(), u);
        assert(done =~= before.update(u, true)) by {
            assert forall|v: int| 0 <= v < cost.len() implies #[trigger] done[v] == before.update(u, true)[v] by {
                if v != u && done[v] {
                    let k = choose|k: int| 0 <= k < n && #[trigger] lanes[l][k] == v;
                    assert(k < n - 1);
                }
                if before[v] {
                    let k = choose|k: int| 0 <= k < n - 1 && #[trigger] lanes[l][k] == v;
                    assert(lanes[l][k] == v);
                }
            }
        }
    }
}

proof fn lemma_latest(ends: Seq<u64>, next: Seq<u64>, list: Seq<usize>, n: nat)
    requires
        n <= list.len(),
        forall|k: int| 0 <= k < list.len() ==> ends[(#[trigger] list[k]) as int] == next[list[k] as int],
    ensures
        latest(ends, list, n) == latest(next, list, n),
    decreases n,
{
    if n > 0 {
        lemma_latest(ends, next, list, (n - 1) as nat);
        assert(ends[list[n - 1] as int] == next[list[n - 1] as int]);
    }
}

proof fn lemma_latest_bound(ends: Seq<u64>, list: Seq<usize>, n: nat, bound: nat)
    requires
        n <= list.len(),
        forall|k: int| 0 <= k < list.len() ==> ends[(#[trigger] list[k]) as int] <= bound,
    ensures
        latest(ends, list, n) <= bound,
    decreases n,
{
    if n > 0 {
        lemma_latest_bound(ends, list, (n - 1) as nat, bound);
        assert(ends[list[n - 1] as int] <= bound);
    }
}

/// Where running the lanes stands: how far each lane is, which units are done,
/// when they started and ended, and in which order they were done.
struct Run {
    pos: Seq<usize>,
    done: Seq<bool>,
    starts: Seq<u64>,
    ends: Seq<u64>,
    stamp: Seq<nat>,
    count: nat,
}

/// Whether the units before `u` in its lane and the predecessors of `u` are
/// done, and were done before it.
spec fn settled(preds: Seq<Seq<usize>>, lanes: Seq<Seq<usize>>, r: Run, l: int, k: int) -> bool {
    let u = lanes[l][k] as int;
    &&& r.stamp[u] < r.count
    &&& forall|i: int|
        0 <= i < preds[u].len() ==> r.done[(#[trigger] preds[u][i]) as int] && r.stamp[preds[u][i] as int] < r.stamp[u]
    &&& k > 0 ==> r.stamp[lanes[l][k - 1] as int] < r.stamp[u]
}

spec fn run_inv(cost: Seq<u64>, preds: Seq<Seq<usize>>, lanes: Seq<Seq<usize>>, r: Run) -> bool {
    let n = cost.len();
    &&& r.pos.len() == lanes.len()
    &&& r.done.len() == n
    &&& r.starts.len() == n
    &&& r.ends.len() == n
    &&& r.stamp.len() == n
    &&& forall|l: int| 0 <= l < lanes.len() ==> (#[trigger] r.pos[l]) <= lanes[l].len()
    &&& forall|l: int, k: int|
        0 <= l < lanes.len() && 0 <= k < lanes[l].len() ==> r.done[(#[trigger] lanes[l][k]) as int] == (k < r.pos[l])
    &&& forall|l: int, k: int|
        0 <= l < lanes.len() && 0 <= k < r.pos[l] ==> #[trigger] timed(cost, preds, lanes, r.starts, r.ends, l, k)
    &&& forall|l: int, k: int| 0 <= l < lanes.len() && 0 <= k < r.pos[l] ==> #[trigger] settled(preds, lanes, r, l, k)
    &&& forall|u: int| 0 <= u < n && #[trigger] r.done[u] ==> r.ends[u] <= done_cost(cost, r.done, n)
}

/// The run after the next unit of lane `l` is done.
spec fn advance(cost: Seq<u64>, preds: Seq<Seq<usize>>, lanes: Seq<Seq<usize>>, r: Run, l: int) -> Run {
    let u = lanes[l][r.pos[l] as int] as int;
    let free = lane_free(r.ends, lanes[l], r.pos[l] as int);
    let release = latest(r.ends, preds[u], preds[u].len());
    let start = if release > free {
        release
    } else {
        free
    };
    Run {
        pos: r.pos.update(l, (r.pos[l] + 1) as usize),
        done: r.done.update(u, true),
        starts: r.starts.update(u, start),
        ends: r.ends.update(u, (start + cost[u]) as u64),
        stamp: r.stamp.update(u, r.count),
        count: r.count + 1,
    }
}

proof fn lemma_advance(cost: Seq<u64>, preds: Seq<Seq<usize>>, lanes: Seq<Seq<usize>>, r: Run, l: int)
    requires
        complete(lanes, cost.len()),
        preds.len() == cost.len(),
        units_known(preds, cost.len()),
        total_cost(cost, cost.len()) <= u64::MAX,
        run_inv(cost, preds, lanes, r),
        0 <= l < lanes.len(),
        r.pos[l] < lanes[l].len(),
        lanes[l].len() <= usize::MAX,
        forall|i: int|
            0 <= i < preds[lanes[l][r.pos[l] as int] as int].len() ==> r.done[(
            #[trigger] preds[lanes[l][r.pos[l] as int] as int][i]) as int],
    ensures
        run_inv(cost, preds, lanes, advance(cost, preds, lanes, r, l)),
        ({
            let u = lanes[l][r.pos[l] as int] as int;
            let free = lane_free(r.ends, lanes[l], r.pos[l] as int);
            let release = latest(r.ends, preds[u], preds[u].len());
            &&& free + cost[u] <= u64::MAX
            &&& release + cost[u] <= u64::MAX
            &&& open_count(advance(cost, preds, lanes, r, l).done, cost.len()) + 1 == open_count(r.done, cost.len())
        }),
{
    let n = cost.len();
    let k = r.pos[l] as int;
    let u = lanes[l][k] as int;
    let next = advance(cost, preds, lanes, r, l);
    assert(lanes[l][k] < n);
    assert(!r.done[u]);
    lemma_done(cost, r.done, n, u);
    let bound = done_cost(cost, r.done, n);
    assert forall|i: int| 0 <= i < preds[u].len() implies r.ends[(#[trigger] preds[u][i]) as int] <= bound by {
        assert(r.done[preds[u][i] as int]);
        assert(preds[u][i] < n);
    }
    lemma_latest_bound(r.ends, preds[u], preds[u].len(), bound);
    if k > 0 {
        assert(r.done[lanes[l][k - 1] as int]);
        assert(lanes[l][k - 1] < n);
    }
    assert forall|m: int, j: int| 0 <= m < lanes.len() && 0 <= j < lanes[m].len() implies next.done[(
    #[trigger] lanes[m][j]) as int] == (j < next.pos[m]) by {
        assert(lanes[m][j] < n);
        assert(r.done[lanes[m][j] as int] == (j < r.pos[m]));
        if lanes[m][j] == lanes[l][k] {
            assert(m == l && j == k);
        }
    }
    assert forall|m: int, j: int| 0 <= m < lanes.len() && 0 <= j < next.pos[m] implies #[trigger] timed(
        cost,
        preds,
        lanes,
        next.starts,
        next.ends,
        m,
        j,
    ) by {
        let v = lanes[m][j] as int;
        assert(lanes[m][j] < n);
        if m == l && j == k {
            lemma_latest_same(preds, r, next, u, u);
        } else {
            assert(j < r.pos[m]);
            assert(timed(cost, preds, lanes, r.starts, r.ends, m, j));
            assert(settled(preds, lanes, r, m, j));
            assert(r.done[v]);
            lemma_latest_same(preds, r, next, u, v);
            if j > 0 {
                assert(r.done[lanes[m][j - 1] as int]);
            }
        }
    }
    assert forall|m: int, j: int| 0 <= m < lanes.len() && 0 <= j < next.pos[m] implies #[trigger] settled(
        preds,
        lanes,
        next,
        m,
        j,
    ) by {
        let v = lanes[m][j] as int;
        assert(lanes[m][j] < n);
        if m == l && j == k {
            assert forall|i: int| 0 <= i < preds[v].len() implies next.done[(#[trigger] preds[v][i]) as int]
                && next.stamp[preds[v][i] as int] < next.stamp[v] by {
                lemma_stamped(cost, preds, lanes, r, preds[u][i] as int);
            }
            if k > 0 {
                assert(settled(preds, lanes, r, l, k - 1));
                assert(lanes[l][k - 1] != lanes[l][k]) by {
                    if lanes[l][k - 1] == lanes[l][k] {
                        assert(k - 1 == k);
                    }
                }
            }
        } else {
            assert(settled(preds, lanes, r, m, j));
            assert(r.done[v]);
            assert forall|i: int| 0 <= i < preds[v].len() implies next.done[(#[trigger] preds[v][i]) as int]
                && next.stamp[preds[v][i] as int] < next.stamp[v] by {
                assert(r.done[preds[v][i] as int]);
                assert(preds[v][i] < n);
            }
            if j > 0 {
                assert(r.done[lanes[m][j - 1] as int]);
            }
        }
    }
    assert forall|v: int| 0 <= v < n && #[trigger] next.done[v] implies next.ends[v] <= done_cost(cost, next.done, n) by {
        if v != u {
            assert(r.done[v]);
        }
    }
}

proof fn lemma_latest_same(preds: Seq<Seq<usize>>, r: Run, next: Run, u: int, v: int)
    requires
        0 <= v < preds.len(),
        r.done.len() == preds.len(),
        r.ends.len() == preds.len(),
        0 <= u < preds.len(),
        units_known(preds, preds.len()),
        !r.done[u],
        forall|i: int| 0 <= i < preds[v].len() ==> r.done[(#[trigger] preds[v][i]) as int],
        next.ends == r.ends.update(u, next.ends[u]),
    ensures
        latest(next.ends, preds[v], preds[v].len()) == latest(r.ends, preds[v], preds[v].len()),
{
    assert forall|i: int| 0 <= i < preds[v].len() implies r.ends[(#[trigger] preds[v][i]) as int]
        == next.ends[preds[v][i] as int] by {
        assert(r.done[preds[v][i] as int]);
        assert(preds[v][i] < preds.len());
    }
    lemma_latest(r.ends, next.ends, preds[v], preds[v].len());
}

proof fn lemma_stamped(cost: Seq<u64>, preds: Seq<Seq<usize>>, lanes: Seq<Seq<usize>>, r: Run, u: int)
    requires
        complete(lanes, cost.len()),
        run_inv(cost, preds, lanes, r),
        0 <= u < cost.len(),
        r.done[u],
    ensures
        r.stamp[u] < r.count,
{
    assert(in_lanes(lanes, u));
    let (l, k) = choose|l: int, k: int| 0 <= l < lanes.len() && 0 <= k < lanes[l].len() && #[trigger] lanes[l][k] == u;
    assert(r.done[lanes[l][k] as int] == (k < r.pos[l]));
    assert(settled(preds, lanes, r, l, k));
}

/// Whether lane `l` cannot go on: it is finished, or its next unit waits for a
/// predecessor.
spec fn stuck(preds: Seq<Seq<usize>>, lanes: Seq<Seq<usize>>, pos: Seq<usize>, done: Seq<bool>, l: int) -> bool {
    ||| pos[l] >= lanes[l].len()
    ||| exists|i: int|
        0 <= i < preds[lanes[l][pos[l] as int] as int].len() && !done[(
        #[trigger] preds[lanes[l][pos[l] as int] as int][i]) as int]
}

/// In a stuck run, units that are not done have ever higher ranks.
proof fn lemma_stuck_ranks(
    cost: Seq<u64>,
    preds: Seq<Seq<usize>>,
    lanes: Seq<Seq<usize>>,
    r: Run,
    rank: Seq<nat>,
    bound: nat,
    u: int,
)
    requires
        complete(lanes, cost.len()),
        preds.len() == cost.len(),
        units_known(preds, cost.len()),
        run_inv(cost, preds, lanes, r),
        respects(preds, lanes, rank),
        forall|l: int| 0 <= l < lanes.len() ==> #[trigger] stuck(preds, lanes, r.pos, r.done, l),
        0 <= u < cost.len(),
        !r.done[u],
    ensures
        rank[u] >= bound,
    decreases bound,
{
    if bound > 0 {
        assert(in_lanes(lanes, u));
        let (l, k) = choose|l: int, k: int|
            0 <= l < lanes.len() && 0 <= k < lanes[l].len() && #[trigger] lanes[l][k] == u;
        assert(r.done[lanes[l][k] as int] == (k < r.pos[l]));
        let p = r.pos[l] as int;
        lemma_lane_ranks(preds, lanes, rank, l, p, k);
        assert(stuck(preds, lanes, r.pos, r.done, l));
        let v = lanes[l][p] as int;
        assert(lanes[l][p] < cost.len());
        let i = choose|i: int| 0 <= i < preds[v].len() && !r.done[(#[trigger] preds[v][i]) as int];
        assert(preds[v][i] < cost.len());
        lemma_stuck_ranks(cost, preds, lanes, r, rank, (bound - 1) as nat, preds[v][i] as int);
        assert(rank[preds[v][i] as int] < rank[v]);
    }
}

proof fn lemma_lane_ranks(preds: Seq<Seq<usize>>, lanes: Seq<Seq<usize>>, rank: Seq<nat>, l: int, i: int, j: int)
    requires
        respects(preds, lanes, rank),
        0 <= l < lanes.len(),
        0 <= i <= j < lanes[l].len(),
    ensures
        rank[lanes[l][i] as int] <= rank[lanes[l][j] as int],
    decreases j - i,
{
    if i < j {
        lemma_lane_ranks(preds, lanes, rank, l, i, j - 1);
        assert(rank[lanes[l][j - 1] as int] < rank[lanes[l][j - 1 + 1] as int]);
    }
}

proof fn lemma_stuck(cost: Seq<u64>, preds: Seq<Seq<usize>>, lanes: Seq<Seq<usize>>, r: Run)
    requires
        complete(lanes, cost.len()),
        preds.len() == cost.len(),
        units_known(preds, cost.len()),
        run_inv(cost, preds, lanes, r),
        forall|l: int| 0 <= l < lanes.len() ==> #[trigger] stuck(preds, lanes, r.pos, r.done, l),
        open_count(r.done, cost.len()) > 0,
    ensures
        !orderable(preds, lanes),
{
    if orderable(preds, lanes) {
        let rank = choose|rank: Seq<nat>| #[trigger] respects(preds, lanes, rank);
        let u = lemma_some_open(r.done, cost.len());
        lemma_stuck_ranks(cost, preds, lanes, r, rank, rank[u] + 1, u);
    }
}

proof fn lemma_some_open(done: Seq<bool>, n: nat) -> (u: int)
    requires
        n <= done.len(),
        open_count(done, n) > 0,
    ensures
        0 <= u < n,
        !done[u],
    decreases n,
{
    if done[n - 1] {
        lemma_some_open(done, (n - 1) as nat)
    } else {
        n - 1
    }
}

proof fn lemma_finished(cost: Seq<u64>, preds: Seq<Seq<usize>>, lanes: Seq<Seq<usize>>, r: Run)
    requires
        complete(lanes, cost.len()),
        preds.len() == cost.len(),
        units_known(preds, cost.len()),
        run_inv(cost, preds, lanes, r),
        open_count(r.done, cost.len()) == 0,
    ensures
        orderable(preds, lanes),
        is_timeline(cost, preds, lanes, r.starts, r.ends),
{
    let n = cost.len();
    assert forall|l: int, k: int| 0 <= l < lanes.len() && 0 <= k < lanes[l].len() implies k < r.pos[l] && (
    #[trigger] lanes[l][k]) < n by {
        lemma_open(r.done, n, lanes[l][k] as int);
        assert(r.done[lanes[l][k] as int] == (k < r.pos[l]));
    }
    assert forall|t: int, i: int| 0 <= t < preds.len() && 0 <= i < preds[t].len() implies r.stamp[(
    #[trigger] preds[t][i]) as int] < r.stamp[t] by {
        assert(in_lanes(lanes, t));
        let (l, k) = choose|l: int, k: int|
            0 <= l < lanes.len() && 0 <= k < lanes[l].len() && #[trigger] lanes[l][k] == t;
        assert(settled(preds, lanes, r, l, k));
    }
    assert forall|l: int, k: int|
        #![trigger lanes[l][k]]
        0 <= l < lanes.len() && 0 <= k < lanes[l].len() - 1 implies r.stamp[lanes[l][k] as int] < r.stamp[lanes[l][k
        + 1] as int] by {
        assert(lanes[l][k + 1] < n);
        assert(settled(preds, lanes, r, l, k + 1));
    }
    assert(respects(preds, lanes, r.stamp));
    assert forall|l: int, k: int| 0 <= l < lanes.len() && 0 <= k < lanes[l].len() implies #[trigger] timed(
        cost,
        preds,
        lanes,
        r.starts,
        r.ends,
        l,
        k,
    ) by {
        assert(lanes[l][k] < n);
    }
}

impl Model {
    /// Whether all predecessors of a unit are done, and when the last one ended.
    fn release_of(&self, u: usize, done: &Vec<bool>, ends: &Vec<u64>) -> (r: Option<u64>)
        requires
            self.wf(),
            u < self.units@.len(),
            done@.len() == self.units@.len(),
            ends@.len() == self.units@.len(),
        ensures
            match r {
                Some(release) => {
                    let list = lists_of(self.preds@)[u as int];
                    &&& forall|i: int| 0 <= i < list.len() ==> done@[(#[trigger] list[i]) as int]
                    &&& release == latest(ends@, list, list.len())
                },
                None => exists|i: int|
                    0 <= i < lists_of(self.preds@)[u as int].len() && !done@[(
                    #[trigger] lists_of(self.preds@)[u as int][i]) as int],
            },
    {
        let list: &Vec<usize> = &self.preds[u];
        let ghost view = lists_of(self.preds@)[u as int];
        let mut release: u64 = 0;
        let mut i: usize = 0;
        while i < list.len()
            invariant
                i <= list@.len(),
                self.wf(),
                u < self.units@.len(),
                view == lists_of(self.preds@)[u as int],
                list@ == view,
                done@.len() == self.units@.len(),
                ends@.len() == self.units@.len(),
                forall|j: int| 0 <= j < i ==> done@[(#[trigger] view[j]) as int],
                release == latest(ends@, view, i as nat),
            decreases list@.len() - i,
        {
            assert(lists_of(self.preds@)[u as int][i as int] < self.units@.len());
            let p: usize = list[i];
            if !done[p] {
                assert(!done@[view[i as int] as int]);
                return None;
            }
            if ends[p] > release {
                release = ends[p];
            }
            i = i + 1;
        }
        Some(release)
    }

    /// Run the lanes through one cycle. `None` when some units wait for each
    /// other.
    fn run_lanes(&self, lanes: &Vec<Vec<usize>>) -> (r: Option<(Vec<u64>, Vec<u64>)>)
        requires
            self.wf(),
            self.fits(),
            complete(lists_of(lanes@), self.units@.len()),
        ensures
            r is Some <==> orderable(lists_of(self.preds@), lists_of(lanes@)),
            r matches Some((starts, ends)) ==> is_timeline(
                self.cost@,
                lists_of(self.preds@),
                lists_of(lanes@),
                starts@,
                ends@,
            ),
    {
        let n: usize = self.units.len();
        let width: usize = lanes.len();
        let ghost cost = self.cost@;
        let ghost preds = lists_of(self.preds@);
        let ghost lists = lists_of(lanes@);
        let mut starts: Vec<u64> = Vec::new();
        let mut ends: Vec<u64> = Vec::new();
        let mut done: Vec<bool> = Vec::new();
        while done.len() < n
            invariant
                done@.len() <= n,
                starts@.len() == done@.len(),
                ends@.len() == done@.len(),
                forall|u: int| 0 <= u < done@.len() ==> !#[trigger] done@[u],
            decreases n - done@.len(),
        {
            starts.push(0);
            ends.push(0);
            done.push(false);
        }
        let mut pos: Vec<usize> = Vec::new();
        while pos.len() < width
            invariant
                pos@.len() <= width,
                forall|l: int| 0 <= l < pos@.len() ==> #[trigger] pos@[l] == 0,
            decreases width - pos@.len(),
        {
            pos.push(0);
        }
        let ghost mut run = Run {
            pos: pos@,
            done: done@,
            starts: starts@,
            ends: ends@,
            stamp: Seq::new(n as nat, |u: int| 0nat),
            count: 0,
        };
        proof {
            lemma_none_done(cost, done@, n as nat);
            assert forall|l: int, k: int| 0 <= l < lists.len() && 0 <= k < lists[l].len() implies run.done[(
            #[trigger] lists[l][k]) as int] == (k < run.pos[l]) by {
                assert(lists[l][k] < n);
            }
            assert(run_inv(cost, preds, lists, run));
        }
        let mut progressed: bool = true;
        let mut remaining: usize = n;
        while remaining > 0 && progressed
            invariant
                self.wf(),
                self.fits(),
                n == self.units@.len(),
                cost == self.cost@,
                preds == lists_of(self.preds@),
                lists == lists_of(lanes@),
                width == lanes@.len(),
                complete(lists, n as nat),
                run_inv(cost, preds, lists, run),
                run.pos == pos@,
                run.done == done@,
                run.starts == starts@,
                run.ends == ends@,
                remaining == open_count(done@, n as nat),
                !progressed ==> forall|l: int| 0 <= l < width ==> #[trigger] stuck(preds, lists, pos@, done@, l),
            decreases remaining, (if progressed { 1int } else { 0int }),
        {
            progressed = false;
            let ghost before = remaining;
            let mut l: usize = 0;
            while l < width
                invariant
                    l <= width,
                    self.wf(),
                    self.fits(),
                    n == self.units@.len(),
                    cost == self.cost@,
                    preds == lists_of(self.preds@),
                    lists == lists_of(lanes@),
                    width == lanes@.len(),
                    complete(lists, n as nat),
                    run_inv(cost, preds, lists, run),
                    run.pos == pos@,
                    run.done == done@,
                    run.starts == starts@,
                    run.ends == ends@,
                    remaining == open_count(done@, n as nat),
                    progressed ==> remaining < before,
                    !progressed ==> remaining == before,
                    !progressed ==> forall|m: int| 0 <= m < l ==> #[trigger] stuck(preds, lists, pos@, done@, m),
                decreases width - l,
            {
                let lane: &Vec<usize> = &lanes[l];
                assert(lists[l as int] == lane@);
                assert(run.pos[l as int] <= lists[l as int].len());
                let k: usize = pos[l];
                if k < lane.len() {
                    assert(lists[l as int][k as int] < n);
                    let u: usize = lane[k];
                    match self.release_of(u, &done, &ends) {
                        None => {
                            assert(stuck(preds, lists, pos@, done@, l as int));
                        },
                        Some(release) => {
                            proof {
                                lemma_advance(cost, preds, lists, run, l as int);
                                run = advance(cost, preds, lists, run, l as int);
                            }
                            let free: u64 = if k == 0 {
                                0
                            } else {
                                assert(lists[l as int][k - 1] < n);
                                ends[lane[k - 1]]
                            };
                            let start: u64 = if release > free {
                                release
                            } else {
                                free
                            };
                            starts.set(u, start);
                            ends.set(u, start + self.cost[u]);
                            done.set(u, true);
                            pos.set(l, k + 1);
                            remaining = remaining - 1;
                            progressed = true;
                        },
                    }
                } else {
                    assert(stuck(preds, lists, pos@, done@, l as int));
                }
                l = l + 1;
            }
        }
        if remaining > 0 {
            proof {
                lemma_stuck(cost, preds, lists, run);
            }
            return None;
        }
        proof {
            lemma_finished(cost, preds, lists, run);
        }
        Some((starts, ends))
    }
}

/// A candidate under search: each worker is one CPU with an ordered list of
/// units.
#[derive(Debug, PartialEq, Eq, PartialOrd, Ord, Hash)]
pub struct Assignment {
    pub lanes: Vec<Vec<usize>>,
}

impl View for Assignment {
    type V = Seq<Seq<usize>>;

    open spec fn view(&self) -> Seq<Seq<usize>> {
        lists_of(self.lanes@)
    }
}

impl Clone for Assignment {
    fn clone(&self) -> (r: Self)
        ensures
            r@ == self@,
    {
        let mut lanes: Vec<Vec<usize>> = Vec::new();
        let mut l: usize = 0;
        while l < self.lanes.len()
            invariant
                l <= self.lanes@.len(),
                lanes@.len() == l,
                forall|m: int| 0 <= m < l ==> (#[trigger] lanes@[m])@ == self.lanes@[m]@,
            decreases self.lanes@.len() - l,
        {
            let lane: Vec<usize> = self.lanes[l].clone();
            assert(lane@ =~= self.lanes@[l as int]@);
            lanes.push(lane);
            l = l + 1;
        }
        let r = Assignment { lanes };
        assert(r@ =~= self@);
        r
    }
}

impl Model {
    /// Whether a lane order respects every zero-lag edge among its own
    /// occurrences and the whole cycle graph stays acyclic.
    pub fn is_valid(&self, assignment: &Assignment) -> (r: bool)
        requires
            self.wf(),
            units_known(assignment@, self.units@.len()),
        ensures
            r == orderable(lists_of(self.preds@), assignment@),
    {
        can_run(&self.preds, &assignment.lanes)
    }

    /// Response-time analysis per worker, then the cycle's timeline composed
    /// along dependencies. `None` when some units wait for each other.
    pub fn evaluate(&self, assignment: &Assignment) -> (r: Option<Evaluation>)
        requires
            self.wf(),
            self.fits(),
            complete(assignment@, self.units@.len()),
        ensures
            r is Some <==> orderable(lists_of(self.preds@), assignment@),
            r matches Some(e) ==> self.predicts(assignment@, e@) && e@ == self.evaluation(assignment@),
    {
        let lanes: &Vec<Vec<usize>> = &assignment.lanes;
        let ghost lists = assignment@;
        let cap: u64 = RESPONSE_CAP_PERIODS * self.cycle_ns;
        // One worker per CPU in this search: no higher-priority lanes share a
        // CPU, so the response is the lane's own cost plus dispatch slack.
        let mut costs: Vec<u64> = Vec::new();
        let mut response: Vec<Option<u64>> = Vec::new();
        let mut l: usize = 0;
        while l < lanes.len()
            invariant
                l <= lanes@.len(),
                self.wf(),
                self.fits(),
                lists == lists_of(lanes@),
                complete(lists, self.units@.len()),
                costs@.len() == l,
                response@.len() == l,
                forall|m: int|
                    0 <= m < l ==> #[trigger] costs@[m] == lane_cost(self.cost@, lists[m], lists[m].len())
                        && response@[m] == response_of(costs@[m], cap as int),
            decreases lanes@.len() - l,
        {
            let lane: &Vec<usize> = &lanes[l];
            assert(lists[l as int] == lane@);
            let mut sum: u64 = 0;
            let mut k: usize = 0;
            while k < lane.len()
                invariant
                    k <= lane@.len(),
                    l < lists.len(),
                    self.wf(),
                    self.fits(),
                    complete(lists, self.units@.len()),
                    lists[l as int] == lane@,
                    sum == lane_cost(self.cost@, lane@, k as nat),
                decreases lane@.len() - k,
            {
                assert(lists[l as int][k as int] < self.units@.len());
                proof {
                    lemma_lane_cost(self.cost@, lists, l as int, (k + 1) as nat);
                }
                sum = sum + self.cost[lane[k]];
                k = k + 1;
            }
            let none: Vec<(u64, u64)> = Vec::new();
            let r: Option<u64> = fixpoint(sum, &none, self.copperlist_ns, cap);
            proof {
                assert(demand(sum as nat, none@, self.copperlist_ns as nat, sum as nat) == sum);
            }
            costs.push(sum);
            response.push(r);
            l = l + 1;
        }
        let (starts, ends) = match self.run_lanes(lanes) {
            None => {
                return None;
            },
            Some(times) => times,
        };
        let mut latency: Vec<u64> = Vec::new();
        let mut c: usize = 0;
        while c < self.chains.len()
            invariant
                c <= self.chains@.len(),
                self.wf(),
                starts@.len() == self.units@.len(),
                ends@.len() == self.units@.len(),
                latency@.len() == c,
                forall|d: int|
                    0 <= d < c ==> #[trigger] latency@[d] == chain_latency(
                        starts@,
                        ends@,
                        self.chains@[d]@,
                        self.chains@[d]@.len(),
                    ),
            decreases self.chains@.len() - c,
        {
            let pairs: &Vec<(usize, usize)> = &self.chains[c];
            let mut longest: u64 = 0;
            let mut k: usize = 0;
            while k < pairs.len()
                invariant
                    k <= pairs@.len(),
                    c < self.chains@.len(),
                    self.wf(),
                    *pairs == self.chains@[c as int],
                    starts@.len() == self.units@.len(),
                    ends@.len() == self.units@.len(),
                    longest == chain_latency(starts@, ends@, pairs@, k as nat),
                decreases pairs@.len() - k,
            {
                let (source, sink) = pairs[k];
                assert(self.chains@[c as int]@[k as int].0 < self.units@.len());
                let span: u64 = if ends[sink] >= starts[source] {
                    ends[sink] - starts[source]
                } else {
                    0
                };
                if span > longest {
                    longest = span;
                }
                k = k + 1;
            }
            latency.push(longest);
            c = c + 1;
        }
        let mut makespan: u64 = 0;
        let mut u: usize = 0;
        while u < ends.len()
            invariant
                u <= ends@.len(),
                makespan == greatest(ends@, u as nat),
            decreases ends@.len() - u,
        {
            if ends[u] > makespan {
                makespan = ends[u];
            }
            u = u + 1;
        }
        let e = Evaluation { lane_cost: costs, response, starts, ends, latency, makespan };
        proof {
            assert(self.predicts(lists, e@));
            evaluation_is_unique(*self, lists, e@);
        }
        Some(e)
    }

    /// The deadline of a chain in milliseconds.
    pub fn contract_deadline(&self, chain: usize) -> (ms: u32)
        requires
            chain < self.chain_deadlines@.len(),
        ensures
            ms == self.chain_deadlines@[chain as int],
    {
        self.chain_deadlines[chain]
    }
}

proof fn lemma_times_agree(
    cost: Seq<u64>,
    preds: Seq<Seq<usize>>,
    lanes: Seq<Seq<usize>>,
    rank: Seq<nat>,
    s1: Seq<u64>,
    e1: Seq<u64>,
    s2: Seq<u64>,
    e2: Seq<u64>,
    u: int,
)
    requires
        complete(lanes, preds.len()),
        units_known(preds, preds.len()),
        respects(preds, lanes, rank),
        is_timeline(cost, preds, lanes, s1, e1),
        is_timeline(cost, preds, lanes, s2, e2),
        0 <= u < preds.len(),
    ensures
        s1[u] == s2[u],
        e1[u] == e2[u],
    decreases rank[u],
{
    assert(in_lanes(lanes, u));
    let (l, k) = choose|l: int, k: int| 0 <= l < lanes.len() && 0 <= k < lanes[l].len() && #[trigger] lanes[l][k] == u;
    assert(timed(cost, preds, lanes, s1, e1, l, k));
    assert(timed(cost, preds, lanes, s2, e2, l, k));
    if k > 0 {
        let v = lanes[l][k - 1] as int;
        assert(lanes[l][k - 1] < preds.len());
        assert(rank[lanes[l][k - 1] as int] < rank[lanes[l][k - 1 + 1] as int]);
        lemma_times_agree(cost, preds, lanes, rank, s1, e1, s2, e2, v);
    }
    assert forall|i: int| 0 <= i < preds[u].len() implies e1[(#[trigger] preds[u][i]) as int] == e2[preds[u][i] as int] by {
        assert(preds[u][i] < preds.len());
        assert(rank[preds[u][i] as int] < rank[u]);
        lemma_times_agree(cost, preds, lanes, rank, s1, e1, s2, e2, preds[u][i] as int);
    }
    lemma_latest(e1, e2, preds[u], preds[u].len());
}

/// An assignment that can run has one timeline.
pub proof fn timeline_is_unique(
    cost: Seq<u64>,
    preds: Seq<Seq<usize>>,
    lanes: Seq<Seq<usize>>,
    s1: Seq<u64>,
    e1: Seq<u64>,
    s2: Seq<u64>,
    e2: Seq<u64>,
)
    requires
        complete(lanes, preds.len()),
        units_known(preds, preds.len()),
        orderable(preds, lanes),
        is_timeline(cost, preds, lanes, s1, e1),
        is_timeline(cost, preds, lanes, s2, e2),
    ensures
        s1 == s2,
        e1 == e2,
{
    let rank = choose|rank: Seq<nat>| #[trigger] respects(preds, lanes, rank);
    assert forall|u: int| 0 <= u < preds.len() implies s1[u] == s2[u] && e1[u] == e2[u] by {
        lemma_times_agree(cost, preds, lanes, rank, s1, e1, s2, e2, u);
    }
    assert(s1 =~= s2);
    assert(e1 =~= e2);
}

/// The model predicts one thing of an assignment that can run.
pub proof fn evaluation_is_unique(model: Model, lanes: Seq<Seq<usize>>, e: EvaluationModel)
    requires
        model.wf(),
        complete(lanes, model.units@.len()),
        orderable(lists_of(model.preds@), lanes),
        model.predicts(lanes, e),
    ensures
        model.evaluation(lanes) == e,
{
    let other = model.evaluation(lanes);
    let preds = lists_of(model.preds@);
    timeline_is_unique(model.cost@, preds, lanes, e.starts, e.ends, other.starts, other.ends);
    assert(e.lane_cost =~= other.lane_cost);
    assert(e.response =~= other.response);
    assert(e.latency =~= other.latency);
}

proof fn lemma_latest_member(ends: Seq<u64>, list: Seq<usize>, n: nat, i: int)
    requires
        0 <= i < n <= list.len(),
    ensures
        ends[list[i] as int] <= latest(ends, list, n),
    decreases n,
{
    if i + 1 < n {
        lemma_latest_member(ends, list, (n - 1) as nat, i);
    }
}

/// No unit starts before its predecessors and the unit before it in its lane
/// have ended.
pub proof fn timeline_keeps_precedence(
    cost: Seq<u64>,
    preds: Seq<Seq<usize>>,
    lanes: Seq<Seq<usize>>,
    starts: Seq<u64>,
    ends: Seq<u64>,
    l: int,
    k: int,
)
    requires
        is_timeline(cost, preds, lanes, starts, ends),
        0 <= l < lanes.len(),
        0 <= k < lanes[l].len(),
        units_known(lanes, preds.len()),
    ensures
        forall|i: int|
            0 <= i < preds[lanes[l][k] as int].len() ==> ends[(#[trigger] preds[lanes[l][k] as int][i]) as int]
                <= starts[lanes[l][k] as int],
        k > 0 ==> ends[lanes[l][k - 1] as int] <= starts[lanes[l][k] as int],
{
    let u = lanes[l][k] as int;
    assert(timed(cost, preds, lanes, starts, ends, l, k));
    assert forall|i: int| 0 <= i < preds[u].len() implies ends[(#[trigger] preds[u][i]) as int] <= starts[u] by {
        lemma_latest_member(ends, preds[u], preds[u].len(), i);
    }
}

proof fn lemma_latest_reached(ends: Seq<u64>, list: Seq<usize>, n: nat)
    requires
        n <= list.len(),
    ensures
        latest(ends, list, n) == 0 || exists|i: int|
            0 <= i < n && ends[(#[trigger] list[i]) as int] == latest(ends, list, n),
    decreases n,
{
    if n > 0 {
        lemma_latest_reached(ends, list, (n - 1) as nat);
        let rest = latest(ends, list, (n - 1) as nat);
        if latest(ends, list, n) == rest {
            if rest != 0 {
                let i = choose|i: int| 0 <= i < n - 1 && ends[(#[trigger] list[i]) as int] == rest;
                assert(ends[list[i] as int] == latest(ends, list, n));
            }
        } else {
            assert(ends[list[n - 1] as int] == latest(ends, list, n));
        }
    }
}

/// Every unit takes its cost, and starts at once when it can: at the start of
/// the cycle, or when the unit before it in its lane or one of its predecessors
/// ends.
pub proof fn units_start_as_early_as_they_can(model: Model, lanes: Seq<Seq<usize>>, e: EvaluationModel, l: int, k: int)
    requires
        model.predicts(lanes, e),
        0 <= l < lanes.len(),
        0 <= k < lanes[l].len(),
        units_known(lanes, model.preds@.len()),
    ensures
        e.ends[lanes[l][k] as int] == e.starts[lanes[l][k] as int] + model.cost@[lanes[l][k] as int],
        k > 0 ==> e.ends[lanes[l][k - 1] as int] <= e.starts[lanes[l][k] as int],
        forall|i: int|
            0 <= i < model.preds@[lanes[l][k] as int]@.len() ==> e.ends[(
            #[trigger] model.preds@[lanes[l][k] as int]@[i]) as int] <= e.starts[lanes[l][k] as int],
        e.starts[lanes[l][k] as int] == 0 || (k > 0 && e.starts[lanes[l][k] as int] == e.ends[lanes[l][k - 1] as int])
            || exists|i: int|
            0 <= i < model.preds@[lanes[l][k] as int]@.len() && e.ends[(
            #[trigger] model.preds@[lanes[l][k] as int]@[i]) as int] == e.starts[lanes[l][k] as int],
{
    let preds = lists_of(model.preds@);
    let u = lanes[l][k] as int;
    assert(lanes[l][k] < model.preds@.len());
    assert(preds[u] == model.preds@[u]@);
    timeline_keeps_precedence(model.cost@, preds, lanes, e.starts, e.ends, l, k);
    assert(timed(model.cost@, preds, lanes, e.starts, e.ends, l, k));
    assert forall|i: int| 0 <= i < model.preds@[u]@.len() implies e.ends[(#[trigger] model.preds@[u]@[i]) as int]
        <= e.starts[u] by {
        assert(preds[u][i] == model.preds@[u]@[i]);
    }
    lemma_latest_reached(e.ends, preds[u], preds[u].len());
    let release = latest(e.ends, preds[u], preds[u].len());
    if release > lane_free(e.ends, lanes[l], k) {
        let i = choose|i: int| 0 <= i < preds[u].len() && e.ends[(#[trigger] preds[u][i]) as int] == release;
        assert(e.ends[model.preds@[u]@[i] as int] == e.starts[u]);
    }
}

/// The time from the start of `source` to the end of `sink`.
pub open spec fn span(starts: Seq<u64>, ends: Seq<u64>, source: int, sink: int) -> int {
    if ends[sink] >= starts[source] {
        ends[sink] - starts[source]
    } else {
        0
    }
}

proof fn lemma_chain_latency(starts: Seq<u64>, ends: Seq<u64>, pairs: Seq<(usize, usize)>, n: nat)
    requires
        n <= pairs.len(),
    ensures
        forall|k: int|
            0 <= k < n ==> span(starts, ends, (#[trigger] pairs[k]).0 as int, pairs[k].1 as int) <= chain_latency(
                starts,
                ends,
                pairs,
                n,
            ),
        n == 0 ==> chain_latency(starts, ends, pairs, n) == 0,
        n > 0 ==> exists|k: int|
            0 <= k < n && span(starts, ends, (#[trigger] pairs[k]).0 as int, pairs[k].1 as int) == chain_latency(
                starts,
                ends,
                pairs,
                n,
            ),
    decreases n,
{
    if n > 0 {
        lemma_chain_latency(starts, ends, pairs, (n - 1) as nat);
        let rest = chain_latency(starts, ends, pairs, (n - 1) as nat);
        let own = span(starts, ends, pairs[n - 1].0 as int, pairs[n - 1].1 as int);
        if own > rest || n == 1 {
            assert(span(starts, ends, pairs[n - 1].0 as int, pairs[n - 1].1 as int) == chain_latency(starts, ends, pairs, n));
        } else {
            let k = choose|k: int|
                0 <= k < n - 1 && span(starts, ends, (#[trigger] pairs[k]).0 as int, pairs[k].1 as int) == rest;
            assert(span(starts, ends, pairs[k].0 as int, pairs[k].1 as int) == chain_latency(starts, ends, pairs, n));
        }
    }
}

/// The latency of a chain is the longest time from the start of its source to
/// the end of its sink over the CopperLists of a cycle: at no offset does it
/// take longer, and at one it takes that long.
pub proof fn chains_take_the_longest_offset(model: Model, lanes: Seq<Seq<usize>>, e: EvaluationModel, c: int)
    requires
        model.predicts(lanes, e),
        0 <= c < model.chains@.len(),
    ensures
        forall|k: int|
            0 <= k < model.chains@[c]@.len() ==> e.ends[(#[trigger] model.chains@[c]@[k]).1 as int]
                - e.starts[model.chains@[c]@[k].0 as int] <= e.latency[c],
        model.chains@[c]@.len() == 0 ==> e.latency[c] == 0,
        model.chains@[c]@.len() > 0 ==> exists|k: int|
            0 <= k < model.chains@[c]@.len() && e.latency[c] == span(
                e.starts,
                e.ends,
                (#[trigger] model.chains@[c]@[k]).0 as int,
                model.chains@[c]@[k].1 as int,
            ),
{
    let chains = pairs_of(model.chains@);
    assert(chains[c] == model.chains@[c]@);
    assert(e.latency[c] == chain_latency(e.starts, e.ends, chains[c], chains[c].len()));
    lemma_chain_latency(e.starts, e.ends, chains[c], chains[c].len());
    assert forall|k: int| 0 <= k < model.chains@[c]@.len() implies e.ends[(#[trigger] model.chains@[c]@[k]).1 as int]
        - e.starts[model.chains@[c]@[k].0 as int] <= e.latency[c] by {
        let pair = chains[c][k];
        assert(span(e.starts, e.ends, pair.0 as int, pair.1 as int) <= e.latency[c]);
    }
    if chains[c].len() > 0 {
        let k = choose|k: int|
            0 <= k < chains[c].len() && span(e.starts, e.ends, (#[trigger] chains[c][k]).0 as int, chains[c][k].1 as int)
                == e.latency[c];
        assert(model.chains@[c]@[k] == chains[c][k]);
    }
}

proof fn lemma_greatest(values: Seq<u64>, n: nat)
    requires
        n <= values.len(),
    ensures
        forall|i: int| 0 <= i < n ==> #[trigger] values[i] <= greatest(values, n),
        n == 0 ==> greatest(values, n) == 0,
        n > 0 ==> exists|i: int| 0 <= i < n && #[trigger] values[i] == greatest(values, n),
    decreases n,
{
    if n > 0 {
        lemma_greatest(values, (n - 1) as nat);
        let rest = greatest(values, (n - 1) as nat);
        if values[n - 1] > rest || n == 1 {
            assert(values[n - 1] == greatest(values, n));
        } else {
            let i = choose|i: int| 0 <= i < n - 1 && #[trigger] values[i] == rest;
            assert(values[i] == greatest(values, n));
        }
    }
}

/// A cycle ends when its last unit does.
pub proof fn makespan_is_the_last_end(model: Model, lanes: Seq<Seq<usize>>, e: EvaluationModel)
    requires
        model.predicts(lanes, e),
    ensures
        forall|u: int| 0 <= u < e.ends.len() ==> #[trigger] e.ends[u] <= e.makespan,
        e.ends.len() == 0 ==> e.makespan == 0,
        e.ends.len() > 0 ==> exists|u: int| 0 <= u < e.ends.len() && #[trigger] e.ends[u] == e.makespan,
{
    lemma_greatest(e.ends, e.ends.len());
}

/// The costs of the units of a lane.
pub open spec fn unit_costs(cost: Seq<u64>, lane: Seq<usize>) -> Seq<nat> {
    Seq::new(lane.len(), |k: int| cost[lane[k] as int] as nat)
}

proof fn lemma_lane_cost_sum(cost: Seq<u64>, lane: Seq<usize>, n: nat)
    requires
        n <= lane.len(),
    ensures
        lane_cost(cost, lane, n) == sum(unit_costs(cost, lane).take(n as int)),
    decreases n,
{
    let all = unit_costs(cost, lane);
    if n == 0 {
        assert(all.take(0) =~= Seq::<nat>::empty());
        lemma_sum_empty();
    } else {
        lemma_lane_cost_sum(cost, lane, (n - 1) as nat);
        assert(all.take(n as int) =~= all.take(n - 1).push(all[n - 1]));
        lemma_sum_push(all.take(n - 1), all[n - 1]);
    }
}

/// A lane costs what its units cost together; it responds after that time, and
/// counts as unbounded when that is more than so many periods.
pub proof fn lanes_cost_what_their_units_do(model: Model, lanes: Seq<Seq<usize>>, e: EvaluationModel, l: int)
    requires
        model.predicts(lanes, e),
        0 <= l < lanes.len(),
    ensures
        e.lane_cost[l] == sum(unit_costs(model.cost@, lanes[l])),
        e.lane_cost[l] <= 20 * model.cycle_ns ==> e.response[l] == Some(e.lane_cost[l]),
        e.lane_cost[l] > 20 * model.cycle_ns ==> e.response[l] is None,
{
    lemma_lane_cost_sum(model.cost@, lanes[l], lanes[l].len());
    let all = unit_costs(model.cost@, lanes[l]);
    assert(all.take(all.len() as int) =~= all);
    assert(e.response[l] == response_of(e.lane_cost[l], model.response_cap()));
}

/// `a / b` rounded up is the least number of `b`s that reach `a`.
pub proof fn rounding_up_reaches(a: nat, b: nat, q: nat)
    requires
        b > 0,
    ensures
        ceil_div(a, b) * b >= a,
        q * b >= a ==> ceil_div(a, b) <= q,
{
    let (d, m) = (a / b, a % b);
    vstd::arithmetic::div_mod::lemma_fundamental_div_mod(a as int, b as int);
    assert(b * d == d * b) by (nonlinear_arith);
    if m == 0 {
        if q < d {
            assert(q * b < d * b) by (nonlinear_arith)
                requires
                    q < d,
                    b > 0,
            ;
        }
    } else {
        assert((d + 1) * b == d * b + b) by (nonlinear_arith);
        if q <= d {
            assert(q * b <= d * b) by (nonlinear_arith)
                requires
                    q <= d,
                    b > 0,
            ;
        }
    }
}

/// What the interference of each lane adds.
pub open spec fn interferences(hp: Seq<(u64, u64)>, g: nat, x: nat) -> Seq<nat> {
    Seq::new(
        hp.len(),
        |i: int| ceil_div(x + g, if hp[i].1 == 0 { 1 } else { hp[i].1 as nat }) * hp[i].0 as nat,
    )
}

proof fn lemma_interference_sum(hp: Seq<(u64, u64)>, g: nat, x: nat, n: nat)
    requires
        n <= hp.len(),
    ensures
        interference(hp, g, x, n) == sum(interferences(hp, g, x).take(n as int)),
    decreases n,
{
    let all = interferences(hp, g, x);
    if n == 0 {
        assert(all.take(0) =~= Seq::<nat>::empty());
        lemma_sum_empty();
    } else {
        lemma_interference_sum(hp, g, x, (n - 1) as nat);
        assert(all.take(n as int) =~= all.take(n - 1).push(all[n - 1]));
        lemma_sum_push(all.take(n - 1), all[n - 1]);
    }
}

/// The demand of an interval is the own cost and what every lane of higher
/// priority adds, its cost once per begun period.
pub proof fn demand_adds_up(c: nat, hp: Seq<(u64, u64)>, g: nat, x: nat)
    ensures
        demand(c, hp, g, x) == c + sum(interferences(hp, g, x)),
{
    lemma_interference_sum(hp, g, x, hp.len());
    let all = interferences(hp, g, x);
    assert(all.take(all.len() as int) =~= all);
}

} // verus!
