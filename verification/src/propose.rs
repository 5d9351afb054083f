//! Candidate plans from a profile and a contract: the response-time model with
//! the worker as its unit, the contract's objective, and a local search over
//! which worker runs each occurrence and in which order.

use crate::error::failure_text;
use crate::error::CuError;
use crate::error::CuResult;
use crate::inventory::CuInventory;
use crate::inventory::InventoryModel;
use crate::model::period_ns;
use crate::model::total_cost;
use crate::model::CuContract;
use crate::model::CuPlanThread;
use crate::model::CuProfile;
use crate::model::Model;
use crate::order::orderable;
use crate::order::units_known;
use crate::schedule::or_else;
use crate::schedule::CuMissionPlan;
use crate::schedule::CuPlanLane;
use crate::schedule::CuPlanPlacement;
use crate::schedule::LaneModel;
use crate::schedule::PlacementModel;
use crate::schedule::PlanModel;
use crate::schedule::PlanShape;
use crate::schedule::ThreadPool;
use crate::search::agrees;
use crate::search::explored;
use crate::search::ranks_explored;
use crate::search::ranks_runnable;
use crate::search::scores;
use crate::search::tiers;
use crate::search::ScoreFn;
use crate::shape::lists_of;
use crate::strmap::StrMap;
use crate::sums::sum;
use crate::text::dec;
use crate::text::decimals_stand_for_their_number;
use crate::text::push_dec;
use crate::text::same_str;
use crate::timeline::complete;
use crate::timeline::lane_cost;
use crate::timeline::lanes_cost_what_their_units_do;
use crate::timeline::lemma_lane_cost;
use crate::timeline::unit_costs;
use crate::timeline::Assignment;
use crate::timeline::Evaluation;
use crate::timeline::EvaluationModel;
use crate::timeline::RESPONSE_CAP_PERIODS;
use crate::validity::valid;
use crate::validity::validation_accepts_exactly_the_valid_plans;
use vstd::prelude::*;

verus! {

/// One worker of a plan: a thread that runs its steps in order.
#[derive(Debug, PartialEq, Eq)]
pub struct CuPlanWorker {
    pub id: String,
    pub placement: CuPlanThread,
    /// Inventory indices in the order this worker executes them each cycle.
    pub steps: Vec<u32>,
}

/// A plan for one mission: its inventory, and the workers that run it.
#[derive(Debug, PartialEq, Eq)]
pub struct CuWorkerPlan {
    pub inventory: CuInventory,
    /// CopperLists in flight at once, at least one cycle's worth.
    pub max_in_flight: u32,
    pub workers: Vec<CuPlanWorker>,
    pub dispatcher: Option<CuPlanThread>,
}

/// What a worker says.
pub struct WorkerModel {
    pub id: Seq<char>,
    pub placement: CuPlanThread,
    pub steps: Seq<u32>,
}

impl View for CuPlanWorker {
    type V = WorkerModel;

    open spec fn view(&self) -> WorkerModel {
        WorkerModel { id: self.id@, placement: self.placement, steps: self.steps@ }
    }
}

/// What a list of workers says.
pub open spec fn workers_of(workers: Seq<CuPlanWorker>) -> Seq<WorkerModel> {
    Seq::new(workers.len(), |i: int| workers[i]@)
}

/// A non-negative number as a quotient.
#[derive(Clone, Copy, Debug, PartialEq, Eq, Structural)]
pub struct Fraction {
    pub num: u128,
    pub den: u128,
}

/// Whether `a` is less than `b`.
pub open spec fn fraction_less(a: Fraction, b: Fraction) -> bool {
    a.num * b.den < b.num * a.den
}

/// A chain's predicted latency and its deadline.
#[derive(Clone, Copy, Debug, PartialEq, Eq, Structural)]
pub struct CuChainPrediction {
    pub latency_ns: u64,
    pub deadline_ns: u64,
}

/// What is predicted of one worker.
#[derive(Clone, Copy, Debug, PartialEq, Eq, Structural)]
pub struct CuWorkerPrediction {
    pub cpu: usize,
    /// Cost per cycle over the cycle period.
    pub load: Fraction,
    /// Response time of one cycle, `None` when it does not converge.
    pub response_ns: Option<u64>,
    /// Delivered fraction of cycles.
    pub rate: Fraction,
}

/// The model's prediction for one plan of one mission.
#[derive(Debug)]
pub struct CuPrediction {
    pub chains: StrMap<CuChainPrediction>,
    pub workers: StrMap<CuWorkerPrediction>,
    /// Predicted delivered fraction per contract source.
    pub sources: StrMap<Fraction>,
}

/// One candidate: its plan, its score, and what the model predicts for it.
#[derive(Debug)]
pub struct CuCandidate {
    pub plan: CuWorkerPlan,
    /// The objective's tiers, smallest first is better.
    pub score: Vec<u64>,
    pub prediction: CuPrediction,
}

// ---------------------------------------------------------------------------
// Plans
// ---------------------------------------------------------------------------

/// The occurrences of a unit as inventory indices.
pub open spec fn indices(unit: Seq<usize>) -> Seq<u32> {
    Seq::new(unit.len(), |i: int| unit[i] as u32)
}

/// The occurrences of the first `n` units of a lane, unit after unit.
pub open spec fn lane_steps(units: Seq<Seq<usize>>, lane: Seq<usize>, n: nat) -> Seq<u32>
    decreases n,
{
    if n == 0 {
        Seq::empty()
    } else {
        lane_steps(units, lane, (n - 1) as nat) + indices(units[lane[n - 1] as int])
    }
}

/// The id of the worker on a CPU.
pub open spec fn worker_id(cpu: usize) -> Seq<char> {
    "cpu"@ + dec(cpu as nat)
}

/// The workers of the first `n` lanes, idle ones left out.
pub open spec fn lane_workers(model: Model, lanes: Seq<Seq<usize>>, n: nat) -> Seq<WorkerModel>
    decreases n,
{
    if n == 0 {
        Seq::empty()
    } else {
        let rest = lane_workers(model, lanes, (n - 1) as nat);
        let lane = lanes[n - 1];
        if lane.len() == 0 {
            rest
        } else {
            rest.push(
                WorkerModel {
                    id: worker_id(model.cpus@[n - 1]),
                    placement: CuPlanThread { cpu: Some(model.cpus@[n - 1]), policy: model.policy },
                    steps: lane_steps(lists_of(model.units@), lane, lane.len()),
                },
            )
        }
    }
}

/// The schedule of an inventory whose workers are those of a pool, in order.
pub open spec fn pooled(inventory: InventoryModel, workers: Seq<WorkerModel>, pool: Seq<char>) -> PlanModel {
    PlanModel {
        copperlists_per_cycle: inventory.copperlists_per_cycle,
        steps: inventory.steps,
        lanes: Seq::new(
            workers.len(),
            |w: int|
                LaneModel {
                    placement: PlacementModel::Worker { pool, index: w as u32 },
                    steps: workers[w].steps,
                },
        ),
        dependencies: inventory.dependencies,
    }
}

/// Where the occurrences of the unit at place `k` of a lane begin among the
/// steps of its worker.
pub open spec fn unit_offset(units: Seq<Seq<usize>>, lane: Seq<usize>, k: nat) -> nat {
    lane_steps(units, lane, k).len()
}

/// The occurrences of a unit stay together, in phase order, on one worker.
pub proof fn phases_stay_together(units: Seq<Seq<usize>>, lane: Seq<usize>, k: int, n: nat)
    requires
        0 <= k < n <= lane.len(),
    ensures
        ({
            let at = unit_offset(units, lane, k as nat) as int;
            let unit = indices(units[lane[k] as int]);
            &&& at + unit.len() <= lane_steps(units, lane, n).len()
            &&& lane_steps(units, lane, n).subrange(at, at + unit.len()) == unit
        }),
    decreases n,
{
    let at = unit_offset(units, lane, k as nat) as int;
    let unit = indices(units[lane[k] as int]);
    let all = lane_steps(units, lane, n);
    if k + 1 == n {
        assert(all.subrange(at, at + unit.len()) =~= unit);
    } else {
        phases_stay_together(units, lane, k, (n - 1) as nat);
        let rest = lane_steps(units, lane, (n - 1) as nat);
        assert(all.subrange(at, at + unit.len()) =~= rest.subrange(at, at + unit.len()));
    }
}

impl Model {
    /// The plan an assignment describes, with the contract's placement.
    pub fn materialize(&self, assignment: &Assignment, max_in_flight: u32, dispatcher: Option<CuPlanThread>) -> (r:
        CuWorkerPlan)
        requires
            self.wf(),
            units_known(assignment@, self.units@.len()),
            assignment@.len() == self.cpus@.len(),
        ensures
            r.inventory@ == self.inventory@,
            r.max_in_flight == (if max_in_flight >= self.inventory.copperlists_per_cycle {
                max_in_flight
            } else {
                self.inventory.copperlists_per_cycle
            }),
            workers_of(r.workers@) == lane_workers(*self, assignment@, assignment@.len()),
            r.dispatcher == dispatcher,
    {
        let inventory: CuInventory = self.inventory.clone();
        let per_cycle: u32 = self.inventory.copperlists_per_cycle;
        let width: usize = assignment.lanes.len();
        let ghost lanes = assignment@;
        let ghost units = lists_of(self.units@);
        let mut workers: Vec<CuPlanWorker> = Vec::new();
        let mut l: usize = 0;
        while l < width
            invariant
                l <= width,
                width == assignment.lanes@.len(),
                lanes == assignment@,
                units == lists_of(self.units@),
                self.wf(),
                units_known(lanes, self.units@.len()),
                width == self.cpus@.len(),
                workers_of(workers@) == lane_workers(*self, lanes, l as nat),
            decreases width - l,
        {
            let lane: &Vec<usize> = &assignment.lanes[l];
            assert(lanes[l as int] == lane@);
            if lane.len() > 0 {
                let mut steps: Vec<u32> = Vec::new();
                let mut k: usize = 0;
                while k < lane.len()
                    invariant
                        k <= lane@.len(),
                        l < width,
                        width == lanes.len(),
                        lanes[l as int] == lane@,
                        units == lists_of(self.units@),
                        units_known(lanes, self.units@.len()),
                        steps@ == lane_steps(units, lane@, k as nat),
                    decreases lane@.len() - k,
                {
                    assert(lanes[l as int][k as int] < self.units@.len());
                    let unit: &Vec<usize> = &self.units[lane[k]];
                    assert(units[lane@[k as int] as int] == unit@);
                    let ghost before = steps@;
                    let mut i: usize = 0;
                    assert(before + indices(unit@).take(0) =~= before);
                    while i < unit.len()
                        invariant
                            i <= unit@.len(),
                            steps@ == before + indices(unit@).take(i as int),
                        decreases unit@.len() - i,
                    {
                        steps.push(unit[i] as u32);
                        assert(steps@ =~= before + indices(unit@).take(i + 1));
                        i = i + 1;
                    }
                    assert(indices(unit@).take(i as int) =~= indices(unit@));
                    k = k + 1;
                }
                let cpu: usize = self.cpus[l];
                let mut id: String = "cpu".to_owned();
                push_dec(&mut id, cpu as u64);
                let ghost before = workers_of(workers@);
                workers.push(CuPlanWorker { id, placement: CuPlanThread { cpu: Some(cpu), policy: self.policy }, steps });
                assert(workers_of(workers@) =~= before.push(workers@[workers@.len() - 1]@));
            }
            l = l + 1;
        }
        CuWorkerPlan {
            inventory,
            max_in_flight: if max_in_flight >= per_cycle {
                max_in_flight
            } else {
                per_cycle
            },
            workers,
            dispatcher,
        }
    }
}

proof fn lemma_worker_count(model: Model, lanes: Seq<Seq<usize>>, n: nat)
    ensures
        lane_workers(model, lanes, n).len() <= n,
    decreases n,
{
    if n > 0 {
        lemma_worker_count(model, lanes, (n - 1) as nat);
    }
}

impl CuWorkerPlan {
    /// The schedule whose workers are those of a pool, in order.
    pub fn on_pool(&self, pool: &str) -> (r: CuMissionPlan)
        requires
            self.workers@.len() <= u32::MAX,
        ensures
            r@ == pooled(self.inventory@, workers_of(self.workers@), pool@),
    {
        let ghost goal = pooled(self.inventory@, workers_of(self.workers@), pool@);
        let mut lanes: Vec<CuPlanLane> = Vec::new();
        let mut w: usize = 0;
        while w < self.workers.len()
            invariant
                w <= self.workers@.len() <= u32::MAX,
                goal == pooled(self.inventory@, workers_of(self.workers@), pool@),
                lanes@.len() == w,
                forall|k: int| 0 <= k < w ==> (#[trigger] lanes@[k])@ == goal.lanes[k],
            decreases self.workers@.len() - w,
        {
            let steps: Vec<u32> = self.workers[w].steps.clone();
            assert(steps@ =~= self.workers@[w as int].steps@);
            lanes.push(
                CuPlanLane {
                    placement: CuPlanPlacement::Worker { pool: pool.to_owned(), index: w as u32 },
                    steps,
                },
            );
            w = w + 1;
        }
        let inventory: CuInventory = self.inventory.clone();
        let r = CuMissionPlan {
            copperlists_per_cycle: inventory.copperlists_per_cycle,
            steps: inventory.steps,
            lanes,
            dependencies: inventory.dependencies,
        };
        assert(r@.lanes =~= goal.lanes);
        assert(r@.steps =~= self.inventory@.steps);
        r
    }
}

// ---------------------------------------------------------------------------
// Predictions
// ---------------------------------------------------------------------------

/// The delivered fraction of cycles of a lane that costs so much: all of them
/// within the period, none past what counts as bounded.
pub open spec fn rate_of(model: Model, cost: u64) -> Fraction {
    if cost <= model.cycle_ns {
        Fraction { num: 1, den: 1 }
    } else if cost <= model.response_cap() {
        Fraction { num: model.cycle_ns as u128, den: (cost + model.copperlist_ns / 2) as u128 }
    } else {
        Fraction { num: 0, den: 1 }
    }
}

/// What is predicted of the first `n` chains.
pub open spec fn chain_predictions(contract: CuContract, e: EvaluationModel, n: nat) -> Map<Seq<char>, CuChainPrediction>
    decreases n,
{
    if n == 0 {
        Map::empty()
    } else {
        chain_predictions(contract, e, (n - 1) as nat).insert(
            contract.chains@[n - 1].id@,
            CuChainPrediction {
                latency_ns: e.latency[n - 1],
                deadline_ns: (contract.chains@[n - 1].deadline_ms * 1_000_000) as u64,
            },
        )
    }
}

/// What is predicted of the workers of the first `n` lanes, idle ones left out.
pub open spec fn worker_predictions(model: Model, lanes: Seq<Seq<usize>>, e: EvaluationModel, n: nat) -> Map<
    Seq<char>,
    CuWorkerPrediction,
>
    decreases n,
{
    if n == 0 {
        Map::empty()
    } else {
        let rest = worker_predictions(model, lanes, e, (n - 1) as nat);
        if lanes[n - 1].len() == 0 {
            rest
        } else {
            rest.insert(
                worker_id(model.cpus@[n - 1]),
                CuWorkerPrediction {
                    cpu: model.cpus@[n - 1],
                    load: Fraction { num: e.lane_cost[n - 1] as u128, den: model.cycle_ns as u128 },
                    response_ns: e.response[n - 1],
                    rate: rate_of(model, e.lane_cost[n - 1]),
                },
            )
        }
    }
}

/// The least delivered fraction of the first `n` lanes, idle ones left out.
pub open spec fn least_rate(model: Model, lanes: Seq<Seq<usize>>, e: EvaluationModel, n: nat) -> Fraction
    decreases n,
{
    if n == 0 {
        Fraction { num: 1, den: 1 }
    } else {
        let rest = least_rate(model, lanes, e, (n - 1) as nat);
        let rate = rate_of(model, e.lane_cost[n - 1]);
        if lanes[n - 1].len() > 0 && fraction_less(rate, rest) {
            rate
        } else {
            rest
        }
    }
}

/// CopperLists per cycle, at least one.
pub open spec fn per_cycle(model: Model) -> int {
    if model.inventory@.copperlists_per_cycle == 0 {
        1
    } else {
        model.inventory@.copperlists_per_cycle as int
    }
}

/// The delivered fraction that the critical path of a cycle allows: all cycles
/// when as many fit in flight as the path is long.
pub open spec fn path_rate(model: Model, makespan: u64) -> Fraction {
    if makespan * per_cycle(model) <= model.cycle_ns * model.max_in_flight {
        Fraction { num: 1, den: 1 }
    } else {
        Fraction {
            num: (2 * model.cycle_ns * model.max_in_flight) as u128,
            den: (2 * makespan * per_cycle(model) + model.copperlist_ns * model.max_in_flight) as u128,
        }
    }
}

/// The delivered fraction of cycles. Admission is gated by the whole cycle: the
/// slowest lane throttles every source, wherever the source itself runs, and
/// so does the cycle's critical path when fewer cycles than its length fit in
/// flight.
pub open spec fn cycle_rate(model: Model, lanes: Seq<Seq<usize>>, e: EvaluationModel) -> Fraction {
    let least = least_rate(model, lanes, e, lanes.len());
    let path = path_rate(model, e.makespan);
    if fraction_less(path, least) {
        path
    } else {
        least
    }
}

/// What is predicted of the first `n` sources, which all have the same rate.
pub open spec fn source_predictions(contract: CuContract, rate: Fraction, n: nat) -> Map<Seq<char>, Fraction>
    decreases n,
{
    if n == 0 {
        Map::empty()
    } else {
        source_predictions(contract, rate, (n - 1) as nat).insert(contract.sources@[n - 1].task@, rate)
    }
}

/// Whether `p` is what the model predicts of an assignment for a contract.
pub open spec fn is_prediction(model: Model, contract: CuContract, lanes: Seq<Seq<usize>>, p: CuPrediction) -> bool {
    let e = model.evaluation(lanes);
    &&& p.chains.map() == chain_predictions(contract, e, contract.chains@.len())
    &&& p.workers.map() == worker_predictions(model, lanes, e, lanes.len())
    &&& p.sources.map() == source_predictions(contract, cycle_rate(model, lanes, e), contract.sources@.len())
}

/// Whether `a` is less than `b`.
fn is_less(a: Fraction, b: Fraction) -> (r: bool)
    requires
        a.num <= u64::MAX,
        a.den <= u64::MAX,
        b.num <= u64::MAX,
        b.den <= u64::MAX,
    ensures
        r == fraction_less(a, b),
{
    proof {
        assert(a.num * b.den <= u128::MAX) by (nonlinear_arith)
            requires
                0 <= a.num <= u64::MAX,
                0 <= b.den <= u64::MAX,
        ;
        assert(b.num * a.den <= u128::MAX) by (nonlinear_arith)
            requires
                0 <= b.num <= u64::MAX,
                0 <= a.den <= u64::MAX,
        ;
    }
    a.num * b.den < b.num * a.den
}

/// What a rate of a lane looks like: all cycles, none, or the period over a
/// longer time.
spec fn is_lane_rate(model: Model, rate: Fraction) -> bool {
    ||| rate == (Fraction { num: 1, den: 1 })
    ||| rate == (Fraction { num: 0, den: 1 })
    ||| rate.num == model.cycle_ns && model.cycle_ns < rate.den <= u64::MAX
}

/// A quotient is compared with one by its terms; none is less than zero.
proof fn lemma_fraction_one(a: Fraction, b: Fraction)
    requires
        b.den == 1,
    ensures
        b.num == 1 ==> fraction_less(b, a) == (a.den < a.num),
        b.num == 1 ==> fraction_less(a, b) == (a.num < a.den),
        b.num == 0 ==> !fraction_less(a, b),
{
    let (num, den) = (a.num as int, a.den as int);
    assert(a.num * b.den == num) by (nonlinear_arith)
        requires
            b.den == 1,
            num == a.num,
    ;
    assert(b.num == 1 ==> b.num * a.den == den) by (nonlinear_arith)
        requires
            den == a.den,
    ;
    assert(b.num == 0 ==> b.num * a.den == 0) by (nonlinear_arith);
}

/// The terms of the critical path's rate fit, and the path's rate is less than
/// a lane's exactly when its terms over twice the CopperLists in flight are.
proof fn lemma_path_rate(period: int, g: int, span: int, k: int, flight: int, rate: Fraction)
    requires
        0 <= period <= u64::MAX,
        0 <= g <= u64::MAX,
        0 <= span <= u64::MAX,
        1 <= k <= u32::MAX,
        0 <= flight <= u32::MAX,
        rate.den <= u64::MAX,
    ensures
        0 <= span * k <= u64::MAX * u32::MAX,
        0 <= period * flight <= u64::MAX * u32::MAX,
        0 <= g * flight <= u64::MAX * u32::MAX,
        0 <= flight * rate.den <= u64::MAX * u32::MAX,
        rate.num == period && period > 0 ==> ((2 * period * flight) * rate.den < rate.num * (2 * span * k + g * flight)
            <==> 2 * (flight * rate.den) < 2 * (span * k) + g * flight),
        2 * period * flight == 2 * (period * flight),
        2 * span * k == 2 * (span * k),
{
    let den = rate.den as int;
    assert(0 <= span * k <= u64::MAX * u32::MAX) by (nonlinear_arith)
        requires
            0 <= span <= u64::MAX,
            1 <= k <= u32::MAX,
    ;
    assert(0 <= period * flight <= u64::MAX * u32::MAX) by (nonlinear_arith)
        requires
            0 <= period <= u64::MAX,
            0 <= flight <= u32::MAX,
    ;
    assert(0 <= g * flight <= u64::MAX * u32::MAX) by (nonlinear_arith)
        requires
            0 <= g <= u64::MAX,
            0 <= flight <= u32::MAX,
    ;
    assert(0 <= flight * den <= u64::MAX * u32::MAX) by (nonlinear_arith)
        requires
            0 <= den <= u64::MAX,
            0 <= flight <= u32::MAX,
    ;
    assert(2 * period * flight == 2 * (period * flight)) by (nonlinear_arith);
    assert(2 * span * k == 2 * (span * k)) by (nonlinear_arith);
    if period > 0 {
        let (a, b) = (2 * (flight * den), 2 * (span * k) + g * flight);
        assert((2 * period * flight) * den == period * a) by (nonlinear_arith)
            requires
                a == 2 * (flight * den),
        ;
        assert((period * a < period * b) == (a < b)) by (nonlinear_arith)
            requires
                period > 0,
        ;
    }
}

impl Model {
    /// The delivered fraction of cycles of a lane that costs so much.
    fn rate(&self, cost: u64) -> (r: Fraction)
        requires
            cost + self.copperlist_ns / 2 <= u64::MAX,
        ensures
            r == rate_of(*self, cost),
            is_lane_rate(*self, r),
    {
        if cost <= self.cycle_ns {
            Fraction { num: 1, den: 1 }
        } else if (cost as u128) <= (RESPONSE_CAP_PERIODS as u128) * (self.cycle_ns as u128) {
            Fraction { num: self.cycle_ns as u128, den: (cost + self.copperlist_ns / 2) as u128 }
        } else {
            Fraction { num: 0, den: 1 }
        }
    }

    /// The delivered fraction of cycles, given the least of the lanes.
    fn throttled(&self, least: Fraction, makespan: u64) -> (r: Fraction)
        requires
            is_lane_rate(*self, least),
        ensures
            ({
                let path = path_rate(*self, makespan);
                r == (if fraction_less(path, least) {
                    path
                } else {
                    least
                })
            }),
    {
        let k: u128 = if self.inventory.copperlists_per_cycle == 0 { 1 } else {
            self.inventory.copperlists_per_cycle as u128
        };
        let period: u128 = self.cycle_ns as u128;
        let flight: u128 = self.max_in_flight as u128;
        let span: u128 = makespan as u128;
        let g: u128 = self.copperlist_ns as u128;
        proof {
            lemma_path_rate(period as int, g as int, span as int, k as int, flight as int, least);
        }
        if span * k <= period * flight {
            proof {
                lemma_fraction_one(least, path_rate(*self, makespan));
            }
            return least;
        }
        let path = Fraction { num: 2 * (period * flight), den: 2 * (span * k) + g * flight };
        assert(path == path_rate(*self, makespan));
        proof {
            if least.den == 1 {
                lemma_fraction_one(path, least);
            } else if period == 0 {
                assert(least.num * path.den == 0) by (nonlinear_arith)
                    requires
                        least.num == 0,
                ;
                assert(path.num * least.den >= 0) by (nonlinear_arith);
            }
        }
        let slower: bool = if least.den == 1 {
            // All cycles or none: the path allows some, but not all.
            least.num == 1
        } else {
            period > 0 && 2 * (flight * least.den) < path.den
        };
        if slower {
            path
        } else {
            least
        }
    }

    /// What the model predicts of an assignment that can run.
    pub fn prediction(&self, assignment: &Assignment, contract: &CuContract) -> (p: CuPrediction)
        requires
            self.wf(),
            self.fits(),
            complete(assignment@, self.units@.len()),
            assignment@.len() == self.cpus@.len(),
            orderable(lists_of(self.preds@), assignment@),
            self.chains@.len() == contract.chains@.len(),
        ensures
            is_prediction(*self, *contract, assignment@, p),
    {
        let ghost lanes = assignment@;
        let e: Evaluation = self.evaluate(assignment).unwrap();
        let ghost ev = e@;
        let mut chains: StrMap<CuChainPrediction> = StrMap::new();
        let mut c: usize = 0;
        while c < contract.chains.len()
            invariant
                c <= contract.chains@.len(),
                self.chains@.len() == contract.chains@.len(),
                ev == e@,
                e.latency@.len() == self.chains@.len(),
                chains.map() == chain_predictions(*contract, ev, c as nat),
            decreases contract.chains@.len() - c,
        {
            let chain = &contract.chains[c];
            let deadline_ns: u64 = (chain.deadline_ms as u64) * 1_000_000;
            chains.insert(chain.id.clone(), CuChainPrediction { latency_ns: e.latency[c], deadline_ns });
            c = c + 1;
        }
        let width: usize = assignment.lanes.len();
        let mut workers: StrMap<CuWorkerPrediction> = StrMap::new();
        let mut least = Fraction { num: 1, den: 1 };
        let mut l: usize = 0;
        while l < width
            invariant
                l <= width,
                width == assignment.lanes@.len(),
                lanes == assignment@,
                width == self.cpus@.len(),
                self.wf(),
                self.fits(),
                complete(lanes, self.units@.len()),
                ev == e@,
                self.predicts(lanes, ev),
                workers.map() == worker_predictions(*self, lanes, ev, l as nat),
                is_lane_rate(*self, least),
                least == least_rate(*self, lanes, ev, l as nat),
            decreases width - l,
        {
            assert(lanes[l as int] == assignment.lanes@[l as int]@);
            if assignment.lanes[l].len() > 0 {
                let cpu: usize = self.cpus[l];
                let mut id: String = "cpu".to_owned();
                push_dec(&mut id, cpu as u64);
                let cost: u64 = e.lane_cost[l];
                proof {
                    assert(ev.lane_cost[l as int] == lane_cost(self.cost@, lanes[l as int], lanes[l as int].len()));
                    lemma_lane_cost(self.cost@, lanes, l as int, lanes[l as int].len());
                }
                let rate: Fraction = self.rate(cost);
                workers.insert(
                    id,
                    CuWorkerPrediction {
                        cpu,
                        load: Fraction { num: cost as u128, den: self.cycle_ns as u128 },
                        response_ns: e.response[l],
                        rate,
                    },
                );
                if is_less(rate, least) {
                    least = rate;
                }
            }
            l = l + 1;
        }
        let rate: Fraction = self.throttled(least, e.makespan);
        let mut sources: StrMap<Fraction> = StrMap::new();
        let mut s: usize = 0;
        while s < contract.sources.len()
            invariant
                s <= contract.sources@.len(),
                sources.map() == source_predictions(*contract, rate, s as nat),
            decreases contract.sources@.len() - s,
        {
            sources.insert(contract.sources[s].task.clone(), rate);
            s = s + 1;
        }
        CuPrediction { chains, workers, sources }
    }
}

/// What is at least `b` is at least what is less than `b`.
proof fn lemma_less(a: Fraction, b: Fraction, c: Fraction)
    requires
        b.den > 0,
        fraction_less(a, b),
        !fraction_less(c, b),
    ensures
        !fraction_less(c, a),
{
    let (an, ad, bn, bd, cn, cd) = (a.num as int, a.den as int, b.num as int, b.den as int, c.num as int, c.den as int);
    assert(an * cd <= cn * ad) by (nonlinear_arith)
        requires
            an * bd < bn * ad,
            bn * cd <= cn * bd,
            bd > 0,
            ad >= 0,
            cd >= 0,
    {
        assert(an * bd * cd <= bn * ad * cd) by (nonlinear_arith)
            requires
                an * bd < bn * ad,
                cd >= 0,
        ;
        assert(bn * cd * ad <= cn * bd * ad) by (nonlinear_arith)
            requires
                bn * cd <= cn * bd,
                ad >= 0,
        ;
        assert(bn * ad * cd == bn * cd * ad) by (nonlinear_arith);
        assert(an * bd * cd == (an * cd) * bd) by (nonlinear_arith);
        assert(cn * bd * ad == (cn * ad) * bd) by (nonlinear_arith);
        assert(an * cd <= cn * ad) by (nonlinear_arith)
            requires
                (an * cd) * bd <= (cn * ad) * bd,
                bd > 0,
        ;
    }
}

proof fn lemma_least_rate(model: Model, lanes: Seq<Seq<usize>>, e: EvaluationModel, n: nat)
    ensures
        least_rate(model, lanes, e, n).den > 0,
        forall|l: int|
            0 <= l < n && (#[trigger] lanes[l]).len() > 0 ==> !fraction_less(
                rate_of(model, e.lane_cost[l]),
                least_rate(model, lanes, e, n),
            ),
    decreases n,
{
    if n > 0 {
        lemma_least_rate(model, lanes, e, (n - 1) as nat);
        let rest = least_rate(model, lanes, e, (n - 1) as nat);
        let rate = rate_of(model, e.lane_cost[n - 1]);
        assert forall|l: int| 0 <= l < n && (#[trigger] lanes[l]).len() > 0 implies !fraction_less(
            rate_of(model, e.lane_cost[l]),
            least_rate(model, lanes, e, n),
        ) by {
            if l < n - 1 && lanes[n - 1].len() > 0 && fraction_less(rate, rest) {
                lemma_less(rate, rest, rate_of(model, e.lane_cost[l]));
            }
        }
    }
}

/// Every worker told of has the rate of a busy lane.
proof fn lemma_worker_lane(model: Model, lanes: Seq<Seq<usize>>, e: EvaluationModel, n: nat, worker: Seq<char>) -> (l: int)
    requires
        worker_predictions(model, lanes, e, n).dom().contains(worker),
    ensures
        0 <= l < n,
        lanes[l].len() > 0,
        worker_predictions(model, lanes, e, n)[worker].rate == rate_of(model, e.lane_cost[l]),
    decreases n,
{
    if n == 0 {
        0
    } else if lanes[n - 1].len() > 0 && worker == worker_id(model.cpus@[n - 1]) {
        n - 1
    } else {
        lemma_worker_lane(model, lanes, e, (n - 1) as nat, worker)
    }
}

proof fn lemma_source_rate(contract: CuContract, rate: Fraction, n: nat, source: Seq<char>)
    requires
        source_predictions(contract, rate, n).dom().contains(source),
    ensures
        source_predictions(contract, rate, n)[source] == rate,
    decreases n,
{
    if n > 0 && source != contract.sources@[n - 1].task@ {
        lemma_source_rate(contract, rate, (n - 1) as nat, source);
    }
}

/// No source is predicted to deliver more than any worker does, wherever the
/// source itself runs, nor more than the cycle's critical path allows.
pub proof fn no_source_outpaces_a_worker(
    model: Model,
    contract: CuContract,
    lanes: Seq<Seq<usize>>,
    p: CuPrediction,
    source: Seq<char>,
    worker: Seq<char>,
)
    requires
        is_prediction(model, contract, lanes, p),
        p.sources.map().dom().contains(source),
        p.workers.map().dom().contains(worker),
    ensures
        !fraction_less(p.workers.map()[worker].rate, p.sources.map()[source]),
        !fraction_less(path_rate(model, model.evaluation(lanes).makespan), p.sources.map()[source]),
{
    let e = model.evaluation(lanes);
    let n = lanes.len();
    let least = least_rate(model, lanes, e, n);
    let path = path_rate(model, e.makespan);
    let rate = cycle_rate(model, lanes, e);
    lemma_source_rate(contract, rate, contract.sources@.len(), source);
    let l = lemma_worker_lane(model, lanes, e, n, worker);
    lemma_least_rate(model, lanes, e, n);
    let own = rate_of(model, e.lane_cost[l]);
    assert(!fraction_less(own, least)) by {
        assert(lanes[l].len() > 0);
    }
    if fraction_less(path, least) {
        lemma_less(path, least, own);
    }
}

// ---------------------------------------------------------------------------
// Proposals
// ---------------------------------------------------------------------------

/// What the proposer is asked to do.
#[derive(Debug)]
pub struct ProposeRequest<'a> {
    pub mission: &'a str,
    /// Signature of the mission's graph.
    pub signature: &'a str,
    /// The mission's exported occurrences, `None` when there is no such mission.
    pub inventory: Option<&'a CuInventory>,
    /// What a schedule of the mission has to respect.
    pub shape: &'a PlanShape,
    /// The configured pools, with a worker in `pool` for every CPU.
    pub pools: &'a Vec<ThreadPool>,
    /// The pool that the workers of a plan belong to.
    pub pool: &'a str,
    pub contract: &'a CuContract,
    pub profile: &'a CuProfile,
    /// The CopperList rate that the configuration asks for.
    pub rate_target_hz: Option<u64>,
    /// How many distinct candidates to return.
    pub candidates: usize,
    pub seed: u64,
    pub moves: usize,
    pub restarts: usize,
}

/// Whether two scores count as the same candidate.
pub type SameFn = spec_fn(Seq<u64>, Seq<u64>) -> bool;

/// Whether `same` decides as `g` says.
pub open spec fn decides<G: Fn(&Vec<u64>, &Vec<u64>) -> bool>(same: G, g: SameFn) -> bool {
    forall|a: Vec<u64>, b: Vec<u64>, r: bool| #[trigger] call_ensures(same, (&a, &b), r) ==> r == g(a@, b@)
}

/// Those of the first `n` ranked entries that are chosen: the best ones first,
/// none that counts as one chosen before, and no more than `limit`.
pub open spec fn pick(g: SameFn, list: Seq<(Vec<u64>, Assignment)>, limit: nat, n: nat) -> Seq<int>
    decreases n,
{
    if n == 0 {
        Seq::empty()
    } else {
        let rest = pick(g, list, limit, (n - 1) as nat);
        if rest.len() >= limit || exists|i: int|
            0 <= i < rest.len() && g(list[n - 1].0@, list[#[trigger] rest[i]].0@) {
            rest
        } else {
            rest.push(n - 1)
        }
    }
}

impl ProposeRequest<'_> {
    /// What stops plans from being searched for.
    pub open spec fn refusal(self) -> Option<Seq<char>> {
        if self.profile.config_signature@ != self.signature@ {
            Some(
                "The profile was recorded on another graph ("@ + self.profile.config_signature@
                    + "); this config's mission '"@ + self.mission@ + "' is "@ + self.signature@,
            )
        } else {
            match self.inventory {
                None => Some("Unknown mission '"@ + self.mission@ + "'"@),
                Some(inventory) => or_else(
                    inventory@.model_failure(*self.contract, *self.profile),
                    if self.candidates == 0 {
                        Some("No valid plan was found on this contract's CPUs"@)
                    } else {
                        None
                    },
                ),
            }
        }
    }

    /// Whether the inventory is sound, there is a CPU, and the arithmetic of the
    /// model stays within the number range.
    pub open spec fn wf(self) -> bool {
        &&& 0 < self.contract.cpus@.len() <= u32::MAX
        &&& self.shape@.wf()
        &&& self.inventory matches Some(inventory) ==> {
            let m = inventory@;
            let period = period_ns(self.rate_target_hz, *self.profile);
            let costs = Seq::new(m.unit_count(), |u: int| m.unit_cost(self.profile.costs.map(), u as nat));
            &&& m.wf()
            &&& total_cost(costs, costs.len()) + period / 2 <= u64::MAX
            &&& RESPONSE_CAP_PERIODS * (period * m.copperlists_per_cycle) <= u64::MAX
        }
    }

    /// The schedule of a ranked entry.
    pub open spec fn schedule(self, model: Model, entry: (Vec<u64>, Assignment)) -> PlanModel {
        pooled(self.inventory->0@, lane_workers(model, entry.1@, entry.1@.len()), self.pool@)
    }

    /// Whether the answer is what was asked for: the best distinct ones among
    /// the assignments explored, each with a valid plan, its score and its
    /// prediction; or what is wrong with the first plan that is not valid.
    pub open spec fn answers<F: Fn(&Evaluation) -> Vec<u64>, G: Fn(&Vec<u64>, &Vec<u64>) -> bool>(
        self,
        score: F,
        same: G,
        r: CuResult<Vec<CuCandidate>>,
    ) -> bool {
        exists|model: Model, list: Seq<(Vec<u64>, Assignment)>, chosen: Seq<int>| #[trigger]
            self.chooses(score, same, model, list, chosen) && match r {
                Ok(candidates) => candidates@.len() == chosen.len() && forall|i: int|
                    0 <= i < chosen.len() ==> #[trigger]
                        self.is_candidate(model, list[chosen[i]], candidates@[i]),
                Err(e) => exists|i: int|
                    0 <= i < chosen.len() && #[trigger] self.fails_at(model, list, chosen, i, e@),
            }
    }

    /// Whether the plan of entry `i` is the first one that is not valid.
    pub open spec fn fails_at(
        self,
        model: Model,
        list: Seq<(Vec<u64>, Assignment)>,
        chosen: Seq<int>,
        i: int,
        text: Seq<char>,
    ) -> bool {
        &&& self.schedule(model, list[chosen[i]]).failure(self.pools@, self.shape@) == Some(text)
        &&& forall|j: int| 0 <= j < i ==> valid(self.schedule(model, list[#[trigger] chosen[j]]), self.pools@, self.shape@)
    }

    /// Whether `list` ranks what the search explores and `chosen` picks from it.
    pub open spec fn chooses<F: Fn(&Evaluation) -> Vec<u64>, G: Fn(&Vec<u64>, &Vec<u64>) -> bool>(
        self,
        score: F,
        same: G,
        model: Model,
        list: Seq<(Vec<u64>, Assignment)>,
        chosen: Seq<int>,
    ) -> bool {
        let attempts: nat = if self.restarts == 0 {
            1
        } else {
            self.restarts as nat
        };
        &&& model.wf()
        &&& model.models(self.inventory->0@, *self.contract, *self.profile, self.rate_target_hz)
        &&& ranks_runnable(model, list)
        &&& forall|f: ScoreFn| #[trigger]
            agrees(score, f) ==> ranks_explored(
                model,
                f,
                list,
                explored(model, f, self.seed, self.moves as nat, attempts),
            )
        &&& forall|i: int| 0 <= i < chosen.len() ==> 0 <= (#[trigger] chosen[i]) < list.len()
        &&& forall|i: int, j: int| 0 <= i < j < chosen.len() ==> #[trigger] chosen[i] < #[trigger] chosen[j]
        &&& 0 < chosen.len() <= self.candidates
        &&& chosen[0] == 0
        &&& forall|g: SameFn| #[trigger] decides(same, g) ==> chosen == pick(g, list, self.candidates as nat, list.len())
    }

    /// Whether a candidate is that of a ranked entry.
    pub open spec fn is_candidate(self, model: Model, entry: (Vec<u64>, Assignment), candidate: CuCandidate) -> bool {
        let lanes = entry.1@;
        &&& candidate.score@ == entry.0@
        &&& candidate.plan.inventory@ == self.inventory->0@
        &&& candidate.plan.max_in_flight == model.max_in_flight
        &&& workers_of(candidate.plan.workers@) == lane_workers(model, lanes, lanes.len())
        &&& candidate.plan.dispatcher == self.contract.dispatcher
        &&& valid(self.schedule(model, entry), self.pools@, self.shape@)
        &&& is_prediction(model, *self.contract, lanes, candidate.prediction)
    }
}

/// The entries of a ranked list that are chosen.
fn choose_entries<G: Fn(&Vec<u64>, &Vec<u64>) -> bool>(list: &Vec<(Vec<u64>, Assignment)>, limit: usize, same: &G) -> (r: Vec<
    usize,
>)
    requires
        forall|a: Vec<u64>, b: Vec<u64>| #[trigger] call_requires(*same, (&a, &b)),
    ensures
        r@.len() <= limit,
        forall|i: int| 0 <= i < r@.len() ==> (#[trigger] r@[i]) < list@.len(),
        forall|i: int, j: int| 0 <= i < j < r@.len() ==> #[trigger] r@[i] < #[trigger] r@[j],
        limit > 0 && list@.len() > 0 ==> r@.len() > 0 && r@[0] == 0,
        forall|g: SameFn| #[trigger]
            decides(*same, g) ==> pick(g, list@, limit as nat, list@.len()) == Seq::new(r@.len(), |i: int| r@[i] as int),
{
    let mut r: Vec<usize> = Vec::new();
    let mut n: usize = 0;
    proof {
        assert forall|g: SameFn| #[trigger] decides(*same, g) implies pick(g, list@, limit as nat, 0) == Seq::new(
            r@.len(),
            |i: int| r@[i] as int,
        ) by {
            assert(pick(g, list@, limit as nat, 0) =~= Seq::new(r@.len(), |i: int| r@[i] as int));
        }
    }
    while n < list.len()
        invariant
            n <= list@.len(),
            forall|a: Vec<u64>, b: Vec<u64>| #[trigger] call_requires(*same, (&a, &b)),
            r@.len() <= limit,
            forall|i: int| 0 <= i < r@.len() ==> (#[trigger] r@[i]) < n,
            forall|i: int, j: int| 0 <= i < j < r@.len() ==> #[trigger] r@[i] < #[trigger] r@[j],
            limit > 0 && n > 0 ==> r@.len() > 0 && r@[0] == 0,
            forall|g: SameFn| #[trigger]
                decides(*same, g) ==> pick(g, list@, limit as nat, n as nat) == Seq::new(r@.len(), |i: int| r@[i] as int),
        decreases list@.len() - n,
    {
        let ghost before = r@;
        let ghost names = Seq::new(r@.len(), |i: int| r@[i] as int);
        let mut known: bool = r.len() >= limit;
        let ghost full = known;
        let mut i: usize = 0;
        while i < r.len() && !known
            invariant
                i <= r@.len(),
                n < list@.len(),
                r@ == before,
                names == Seq::new(r@.len(), |i: int| r@[i] as int),
                forall|a: Vec<u64>, b: Vec<u64>| #[trigger] call_requires(*same, (&a, &b)),
                forall|i: int| 0 <= i < r@.len() ==> (#[trigger] r@[i]) < n,
                full == (r@.len() >= limit),
                full ==> known,
                known && !full ==> forall|g: SameFn| #[trigger]
                    decides(*same, g) ==> exists|j: int|
                        0 <= j < names.len() && g(list@[n as int].0@, list@[#[trigger] names[j]].0@),
                !known ==> forall|g: SameFn, j: int|
                    #![trigger decides(*same, g), names[j]]
                    decides(*same, g) && 0 <= j < i ==> !g(list@[n as int].0@, list@[names[j]].0@),
                known && !full ==> r@.len() > 0,
            decreases r@.len() - i,
        {
            assert(r@[i as int] < n);
            let hit: bool = same(&list[n].0, &list[r[i]].0);
            assert(call_ensures(*same, (&list@[n as int].0, &list@[r@[i as int] as int].0), hit));
            assert(names[i as int] == r@[i as int]);
            if hit {
                known = true;
            }
            i = i + 1;
        }
        if !known {
            r.push(n);
        }
        proof {
            assert forall|g: SameFn| #[trigger] decides(*same, g) implies pick(g, list@, limit as nat, (n + 1) as nat)
                == Seq::new(r@.len(), |i: int| r@[i] as int) by {
                let rest = pick(g, list@, limit as nat, n as nat);
                assert(rest == names);
                assert(Seq::new(r@.len(), |i: int| r@[i] as int) =~= (if known {
                    names
                } else {
                    names.push(n as int)
                }));
                if !known {
                    assert forall|j: int| 0 <= j < rest.len() implies !g(list@[n as int].0@, list@[#[trigger] rest[j]].0@) by {
                        assert(names[j] == rest[j]);
                    }
                }
            }
        }
        n = n + 1;
    }
    r
}

impl ProposeRequest<'_> {
    /// The candidate of a ranked entry.
    fn candidate(&self, model: &Model, entry: &(Vec<u64>, Assignment)) -> (r: CuResult<CuCandidate>)
        requires
            self.wf(),
            model.wf(),
            model.fits(),
            self.inventory is Some,
            model.models(self.inventory->0@, *self.contract, *self.profile, self.rate_target_hz),
            complete(entry.1@, model.units@.len()),
            entry.1@.len() == model.cpus@.len(),
            orderable(lists_of(model.preds@), entry.1@),
        ensures
            failure_text(r) == self.schedule(*model, *entry).failure(self.pools@, self.shape@),
            r matches Ok(candidate) ==> self.is_candidate(*model, *entry, candidate),
    {
        let contract: &CuContract = self.contract;
        let ghost lanes = entry.1@;
        assert(units_known(lanes, model.units@.len()));
        let plan: CuWorkerPlan = model.materialize(&entry.1, contract.max_in_flight, contract.dispatcher);
        proof {
            lemma_worker_count(*model, lanes, lanes.len());
            assert(plan.workers@.len() == workers_of(plan.workers@).len());
        }
        let mission: CuMissionPlan = plan.on_pool(self.pool);
        match mission.validate(self.pools, self.shape) {
            Ok(_) => {},
            Err(e) => {
                return Err(e);
            },
        }
        proof {
            assert(mission.steps@.len() == mission@.steps.len());
            assert(mission.steps.len() == mission.steps@.len());
            assert(self.shape.keys.len() == self.shape.keys@.len());
            validation_accepts_exactly_the_valid_plans(mission@, self.pools@, self.shape@);
        }
        let prediction: CuPrediction = model.prediction(&entry.1, contract);
        let tiers: Vec<u64> = entry.0.clone();
        assert(tiers@ =~= entry.0@);
        Ok(CuCandidate { plan, score: tiers, prediction })
    }
}

/// Proposes up to `request.candidates` distinct plans for one mission.
///
/// The inventory is the config's exported plan, so every required edge is
/// present whatever the placement; the search only chooses which CPU runs each
/// occurrence and in which order. Every returned plan passes
/// `CuMissionPlan::validate`. `score` gives the objective's tiers of an
/// evaluation, and `same` whether a score counts as one that is already chosen.
pub fn propose<F: Fn(&Evaluation) -> Vec<u64>, G: Fn(&Vec<u64>, &Vec<u64>) -> bool>(
    request: &ProposeRequest<'_>,
    score: F,
    same: G,
) -> (r: CuResult<Vec<CuCandidate>>)
    requires
        request.wf(),
        scores(request.contract.deadline_objective, score),
        forall|a: Vec<u64>, b: Vec<u64>| #[trigger] call_requires(same, (&a, &b)),
    ensures
        request.refusal() is Some ==> failure_text(r) == request.refusal(),
        request.refusal() is None ==> request.answers(score, same, r),
{
    if !same_str(request.profile.config_signature.as_str(), request.signature) {
        let mut m: String = "The profile was recorded on another graph (".to_owned();
        m.append(request.profile.config_signature.as_str());
        m.append("); this config's mission '");
        m.append(request.mission);
        m.append("' is ");
        m.append(request.signature);
        return Err(CuError::new(m));
    }
    let inventory: &CuInventory = match request.inventory {
        Some(inventory) => inventory,
        None => {
            let mut m: String = "Unknown mission '".to_owned();
            m.append(request.mission);
            m.append("'");
            return Err(CuError::new(m));
        },
    };
    let contract: &CuContract = request.contract;
    let model: Model = match Model::new(inventory.clone(), contract, request.profile, request.rate_target_hz) {
        Ok(model) => model,
        Err(e) => {
            return Err(e);
        },
    };
    let list: Vec<(Vec<u64>, Assignment)> = model.search(request.seed, request.moves, request.restarts, score);
    let chosen: Vec<usize> = choose_entries(&list, request.candidates, &same);
    if chosen.len() == 0 {
        return Err(CuError::of("No valid plan was found on this contract's CPUs"));
    }
    let ghost names = Seq::new(chosen@.len(), |i: int| chosen@[i] as int);
    assert(request.chooses(score, same, model, list@, names));
    let mut candidates: Vec<CuCandidate> = Vec::new();
    let mut i: usize = 0;
    while i < chosen.len()
        invariant
            i <= chosen@.len(),
            model.wf(),
            model.fits(),
            request.wf(),
            request.refusal() is None,
            request.inventory is Some,
            model.models(request.inventory->0@, *request.contract, *request.profile, request.rate_target_hz),
            ranks_runnable(model, list@),
            request.chooses(score, same, model, list@, names),
            names == Seq::new(chosen@.len(), |i: int| chosen@[i] as int),
            forall|i: int| 0 <= i < chosen@.len() ==> (#[trigger] chosen@[i]) < list@.len(),
            candidates@.len() == i,
            forall|j: int| 0 <= j < i ==> #[trigger] request.is_candidate(model, list@[names[j]], candidates@[j]),
        decreases chosen@.len() - i,
    {
        assert(chosen@[i as int] < list@.len());
        let entry: &(Vec<u64>, Assignment) = &list[chosen[i]];
        assert(*entry == list@[names[i as int]]);
        match request.candidate(&model, entry) {
            Ok(candidate) => {
                candidates.push(candidate);
            },
            Err(e) => {
                proof {
                    assert forall|j: int| 0 <= j < i implies valid(
                        request.schedule(model, list@[#[trigger] names[j]]),
                        request.pools@,
                        request.shape@,
                    ) by {
                        assert(request.is_candidate(model, list@[names[j]], candidates@[j]));
                    }
                    assert(request.fails_at(model, list@, names, i as int, e@));
                }
                return Err(e);
            },
        }
        i = i + 1;
    }
    Ok(candidates)
}

/// What is chosen is ascending; no chosen entry counts as an earlier one; and an
/// entry that is left out counts as an earlier one, or came when all were chosen.
pub proof fn pick_takes_the_distinct_ones(g: SameFn, list: Seq<(Vec<u64>, Assignment)>, limit: nat, n: nat)
    ensures
        pick(g, list, limit, n).len() <= limit,
        forall|i: int| 0 <= i < pick(g, list, limit, n).len() ==> 0 <= #[trigger] pick(g, list, limit, n)[i] < n,
        forall|i: int, j: int|
            #![trigger pick(g, list, limit, n)[i], pick(g, list, limit, n)[j]]
            0 <= i < j < pick(g, list, limit, n).len() ==> pick(g, list, limit, n)[i] < pick(g, list, limit, n)[j] && !g(
                list[pick(g, list, limit, n)[j]].0@,
                list[pick(g, list, limit, n)[i]].0@,
            ),
        forall|k: int|
            0 <= k < n && !(#[trigger] pick(g, list, limit, n).contains(k)) ==> {
                ||| counts_as_earlier(g, list, pick(g, list, limit, n), k)
                ||| all_earlier(pick(g, list, limit, n), k) && pick(g, list, limit, n).len() == limit
            },
    decreases n,
{
    let all = pick(g, list, limit, n);
    if n > 0 {
        pick_takes_the_distinct_ones(g, list, limit, (n - 1) as nat);
        let rest = pick(g, list, limit, (n - 1) as nat);
        assert forall|i: int, j: int|
            #![trigger all[i], all[j]]
            0 <= i < j < all.len() implies all[i] < all[j] && !g(list[all[j]].0@, list[all[i]].0@) by {
            assert(all[i] == rest[i]);
            if j < rest.len() {
                assert(all[j] == rest[j]);
            }
        }
        assert forall|k: int| 0 <= k < n && !(#[trigger] all.contains(k)) implies {
            ||| counts_as_earlier(g, list, all, k)
            ||| all_earlier(all, k) && all.len() == limit
        } by {
            if k < n - 1 {
                if rest.contains(k) {
                    let i = rest.index_of(k);
                    assert(all[i] == k);
                }
                if counts_as_earlier(g, list, rest, k) {
                    let i = choose|i: int|
                        0 <= i < rest.len() && rest[i] < k && g(list[k].0@, list[#[trigger] rest[i]].0@);
                    assert(all[i] == rest[i]);
                }
            } else if all != rest {
                assert(all[rest.len() as int] == k);
            } else if rest.len() < limit {
                let i = choose|i: int| 0 <= i < rest.len() && g(list[k].0@, list[#[trigger] rest[i]].0@);
                assert(all[i] < k);
            }
        }
    }
}

/// Whether entry `k` counts as a chosen one before it.
pub open spec fn counts_as_earlier(g: SameFn, list: Seq<(Vec<u64>, Assignment)>, chosen: Seq<int>, k: int) -> bool {
    exists|i: int| 0 <= i < chosen.len() && chosen[i] < k && g(list[k].0@, list[#[trigger] chosen[i]].0@)
}

/// Whether all that is chosen comes before entry `k`.
pub open spec fn all_earlier(chosen: Seq<int>, k: int) -> bool {
    forall|i: int| 0 <= i < chosen.len() ==> #[trigger] chosen[i] < k
}

/// No two candidates of an answer count as the same, and there are no more of
/// them than were asked for.
pub proof fn candidates_are_distinct<F: Fn(&Evaluation) -> Vec<u64>, G: Fn(&Vec<u64>, &Vec<u64>) -> bool>(
    request: ProposeRequest<'_>,
    score: F,
    same: G,
    g: SameFn,
    r: CuResult<Vec<CuCandidate>>,
)
    requires
        decides(same, g),
        request.answers(score, same, r),
    ensures
        r matches Ok(candidates) ==> {
            &&& 0 < candidates@.len() <= request.candidates
            &&& forall|i: int, j: int|
                0 <= i < j < candidates@.len() ==> !g(
                    (#[trigger] candidates@[j]).score@,
                    (#[trigger] candidates@[i]).score@,
                )
        },
{
    if r is Ok {
        let candidates = r->Ok_0;
        let (model, list, chosen) = choose|model: Model, list: Seq<(Vec<u64>, Assignment)>, chosen: Seq<int>| #[trigger]
            request.chooses(score, same, model, list, chosen) && candidates@.len() == chosen.len() && forall|i: int|
                0 <= i < chosen.len() ==> #[trigger] request.is_candidate(model, list[chosen[i]], candidates@[i]);
        pick_takes_the_distinct_ones(g, list, request.candidates as nat, list.len());
        assert(chosen == pick(g, list, request.candidates as nat, list.len()));
        assert forall|i: int, j: int| 0 <= i < j < candidates@.len() implies !g(
            (#[trigger] candidates@[j]).score@,
            (#[trigger] candidates@[i]).score@,
        ) by {
            assert(request.is_candidate(model, list[chosen[i]], candidates@[i]));
            assert(request.is_candidate(model, list[chosen[j]], candidates@[j]));
        }
    }
}

/// A ranked entry that is not chosen counts as a chosen one before it, unless
/// all that was asked for comes before it.
pub proof fn entries_left_out_are_known<F: Fn(&Evaluation) -> Vec<u64>, G: Fn(&Vec<u64>, &Vec<u64>) -> bool>(
    request: ProposeRequest<'_>,
    score: F,
    same: G,
    g: SameFn,
    model: Model,
    list: Seq<(Vec<u64>, Assignment)>,
    chosen: Seq<int>,
    k: int,
)
    requires
        decides(same, g),
        request.chooses(score, same, model, list, chosen),
        0 <= k < list.len(),
        !chosen.contains(k),
        chosen.len() < request.candidates || chosen.last() > k,
    ensures
        exists|i: int| 0 <= i < chosen.len() && chosen[i] < k && g(list[k].0@, list[#[trigger] chosen[i]].0@),
{
    pick_takes_the_distinct_ones(g, list, request.candidates as nat, list.len());
    assert(chosen == pick(g, list, request.candidates as nat, list.len()));
    if all_earlier(chosen, k) && chosen.len() == request.candidates {
        assert(chosen[chosen.len() - 1] < k);
    }
    assert(counts_as_earlier(g, list, chosen, k));
}

/// Whether lane `l` runs anything.
pub open spec fn is_busy(lanes: Seq<Seq<usize>>, l: int) -> bool {
    0 <= l < lanes.len() && lanes[l].len() > 0
}

/// What the units of a lane hold, unit by unit.
pub open spec fn unit_steps(units: Seq<Seq<usize>>) -> spec_fn(usize) -> Seq<u32> {
    |u: usize| units[u as int].map_values(|i: usize| i as u32)
}

proof fn lemma_lane_steps_flat(units: Seq<Seq<usize>>, lane: Seq<usize>, n: nat)
    requires
        n <= lane.len(),
    ensures
        lane_steps(units, lane, n) == lane.take(n as int).map_values(unit_steps(units)).flatten(),
    decreases n,
{
    let all = lane.take(n as int).map_values(unit_steps(units));
    if n == 0 {
        assert(all =~= Seq::<Seq<u32>>::empty());
    } else {
        lemma_lane_steps_flat(units, lane, (n - 1) as nat);
        let rest = lane.take(n - 1).map_values(unit_steps(units));
        let unit = units[lane[n - 1] as int];
        assert(indices(unit) =~= unit.map_values(|i: usize| i as u32));
        assert(all =~= rest.push(indices(unit)));
        rest.lemma_flatten_push(indices(unit));
    }
}

/// Whether `w` is the worker of lane `l`: on the lane's CPU, under the contract's
/// policy, with what the lane's units hold, unit after unit.
pub open spec fn runs_lane(model: Model, lanes: Seq<Seq<usize>>, w: WorkerModel, l: int) -> bool {
    &&& w.id == "cpu"@ + dec(model.cpus@[l] as nat)
    &&& w.placement.cpu == Some(model.cpus@[l])
    &&& w.placement.policy == model.policy
    &&& w.steps == lanes[l].map_values(unit_steps(lists_of(model.units@))).flatten()
}

proof fn lemma_lane_workers(model: Model, lanes: Seq<Seq<usize>>, n: nat) -> (of: Seq<int>)
    requires
        n <= lanes.len(),
    ensures
        of.len() == lane_workers(model, lanes, n).len(),
        forall|w: int|
            0 <= w < of.len() ==> 0 <= #[trigger] of[w] < n && is_busy(lanes, of[w]) && runs_lane(
                model,
                lanes,
                lane_workers(model, lanes, n)[w],
                of[w],
            ),
        forall|v: int, w: int| 0 <= v < w < of.len() ==> #[trigger] of[v] < #[trigger] of[w],
        forall|l: int| 0 <= l < n && #[trigger] is_busy(lanes, l) ==> of.contains(l),
    decreases n,
{
    if n == 0 {
        Seq::empty()
    } else {
        let rest = lemma_lane_workers(model, lanes, (n - 1) as nat);
        let lane = lanes[n - 1];
        if lane.len() == 0 {
            rest
        } else {
            lemma_lane_steps_flat(lists_of(model.units@), lane, lane.len());
            assert(lane.take(lane.len() as int) =~= lane);
            let of = rest.push(n - 1);
            assert(runs_lane(model, lanes, lane_workers(model, lanes, n).last(), n - 1));
            assert forall|l: int| 0 <= l < n && #[trigger] is_busy(lanes, l) implies of.contains(l) by {
                if l == n - 1 {
                    assert(of[rest.len() as int] == l);
                } else {
                    let w = choose|w: int| 0 <= w < rest.len() && rest[w] == l;
                    assert(of[w] == l);
                }
            }
            of
        }
    }
}

/// There is one worker for each busy lane, in the order of the lanes.
pub proof fn workers_run_the_busy_lanes(model: Model, lanes: Seq<Seq<usize>>) -> (of: Seq<int>)
    ensures
        of.len() == lane_workers(model, lanes, lanes.len()).len(),
        forall|w: int|
            0 <= w < of.len() ==> is_busy(lanes, #[trigger] of[w]) && runs_lane(
                model,
                lanes,
                lane_workers(model, lanes, lanes.len())[w],
                of[w],
            ),
        forall|v: int, w: int| 0 <= v < w < of.len() ==> #[trigger] of[v] < #[trigger] of[w],
        forall|l: int| #[trigger] is_busy(lanes, l) ==> of.contains(l),
{
    lemma_lane_workers(model, lanes, lanes.len())
}

/// A pool's schedule keeps the occurrences and what they depend on; its lanes
/// are the pool's workers from the first, each with a worker's steps.
pub proof fn pools_take_the_workers_in_order(inventory: InventoryModel, workers: Seq<WorkerModel>, pool: Seq<char>)
    requires
        workers.len() <= u32::MAX,
    ensures
        pooled(inventory, workers, pool).steps == inventory.steps,
        pooled(inventory, workers, pool).dependencies == inventory.dependencies,
        pooled(inventory, workers, pool).copperlists_per_cycle == inventory.copperlists_per_cycle,
        pooled(inventory, workers, pool).lanes.len() == workers.len(),
        forall|w: int|
            0 <= w < workers.len() ==> (#[trigger] pooled(inventory, workers, pool).lanes[w]).steps == workers[w].steps
                && match pooled(inventory, workers, pool).lanes[w].placement {
                PlacementModel::Worker { pool: on, index } => on == pool && index == w,
                _ => false,
            },
{
}

/// Whether no chain behind `c` has its id.
pub open spec fn last_of_its_id(contract: CuContract, c: int) -> bool {
    &&& 0 <= c < contract.chains@.len()
    &&& forall|d: int| c < d < contract.chains@.len() ==> (#[trigger] contract.chains@[d]).id@ != contract.chains@[c].id@
}

/// Whether a chain has that id.
pub open spec fn is_chain(contract: CuContract, id: Seq<char>) -> bool {
    exists|c: int| 0 <= c < contract.chains@.len() && (#[trigger] contract.chains@[c]).id@ == id
}

proof fn lemma_chain_predictions(contract: CuContract, e: EvaluationModel, n: nat, c: int)
    requires
        0 <= c < n <= contract.chains@.len(),
        forall|d: int| c < d < n ==> (#[trigger] contract.chains@[d]).id@ != contract.chains@[c].id@,
    ensures
        chain_predictions(contract, e, n).dom().contains(contract.chains@[c].id@),
        chain_predictions(contract, e, n)[contract.chains@[c].id@].latency_ns == e.latency[c],
        chain_predictions(contract, e, n)[contract.chains@[c].id@].deadline_ns == (contract.chains@[c].deadline_ms
            * 1_000_000) as u64,
    decreases n,
{
    if c < n - 1 {
        lemma_chain_predictions(contract, e, (n - 1) as nat, c);
    }
}

proof fn lemma_chains_told(contract: CuContract, e: EvaluationModel, n: nat, id: Seq<char>)
    requires
        n <= contract.chains@.len(),
        chain_predictions(contract, e, n).dom().contains(id),
    ensures
        is_chain(contract, id),
    decreases n,
{
    if n > 0 {
        if contract.chains@[n - 1].id@ != id {
            lemma_chains_told(contract, e, (n - 1) as nat, id);
        }
    }
}

/// Every chain of the contract is told of, and nothing else: with its latency in
/// the timeline, and its deadline in nanoseconds. Where two chains share an id,
/// the last one is told of.
pub proof fn chains_are_told_of(
    model: Model,
    contract: CuContract,
    lanes: Seq<Seq<usize>>,
    p: CuPrediction,
    c: int,
    id: Seq<char>,
)
    requires
        is_prediction(model, contract, lanes, p),
        last_of_its_id(contract, c),
    ensures
        p.chains.map().dom().contains(id) ==> is_chain(contract, id),
        p.chains.map().dom().contains(contract.chains@[c].id@),
        p.chains.map()[contract.chains@[c].id@].latency_ns == model.evaluation(lanes).latency[c],
        contract.chains@[c].deadline_ms * 1_000_000 <= u64::MAX ==> p.chains.map()[contract.chains@[c].id@].deadline_ns
            == contract.chains@[c].deadline_ms * 1_000_000,
{
    let e = model.evaluation(lanes);
    lemma_chain_predictions(contract, e, contract.chains@.len(), c);
    if p.chains.map().dom().contains(id) {
        lemma_chains_told(contract, e, contract.chains@.len(), id);
    }
}

/// Whether no busy lane behind `l` is on the same CPU.
pub open spec fn last_on_its_cpu(model: Model, lanes: Seq<Seq<usize>>, l: int) -> bool {
    &&& is_busy(lanes, l)
    &&& forall|m: int| l < m && #[trigger] is_busy(lanes, m) ==> model.cpus@[m] != model.cpus@[l]
}

proof fn lemma_worker_predictions(model: Model, lanes: Seq<Seq<usize>>, e: EvaluationModel, n: nat, l: int)
    requires
        0 <= l < n <= lanes.len(),
        is_busy(lanes, l),
        forall|m: int| l < m < n && #[trigger] is_busy(lanes, m) ==> model.cpus@[m] != model.cpus@[l],
    ensures
        worker_predictions(model, lanes, e, n).dom().contains(worker_id(model.cpus@[l])),
        ({
            let w = worker_predictions(model, lanes, e, n)[worker_id(model.cpus@[l])];
            &&& w.cpu == model.cpus@[l]
            &&& w.load.num == e.lane_cost[l]
            &&& w.load.den == model.cycle_ns
            &&& w.response_ns == e.response[l]
            &&& w.rate == rate_of(model, e.lane_cost[l])
        }),
    decreases n,
{
    if l < n - 1 {
        lemma_worker_predictions(model, lanes, e, (n - 1) as nat, l);
        if lanes[n - 1].len() > 0 {
            assert(is_busy(lanes, n - 1));
            let (a, b) = (model.cpus@[n - 1], model.cpus@[l]);
            if worker_id(a) == worker_id(b) {
                assert(worker_id(a).skip("cpu"@.len() as int) =~= dec(a as nat));
                assert(worker_id(b).skip("cpu"@.len() as int) =~= dec(b as nat));
                decimals_stand_for_their_number(a as nat);
                decimals_stand_for_their_number(b as nat);
            }
        }
    }
}

/// Every busy lane is told of under the id of its worker: its cost over the cycle
/// period, the time it takes, and the fraction of cycles that it delivers. That
/// is all of them within the period, none past twenty periods, and otherwise the
/// period over the cost and half a CopperList period.
pub proof fn busy_lanes_are_told_of(
    model: Model,
    contract: CuContract,
    lanes: Seq<Seq<usize>>,
    e: EvaluationModel,
    p: CuPrediction,
    l: int,
)
    requires
        is_prediction(model, contract, lanes, p),
        e == model.evaluation(lanes),
        model.predicts(lanes, e),
        last_on_its_cpu(model, lanes, l),
    ensures
        p.workers.map().dom().contains("cpu"@ + dec(model.cpus@[l] as nat)),
        ({
            let w = p.workers.map()["cpu"@ + dec(model.cpus@[l] as nat)];
            let cost = sum(unit_costs(model.cost@, lanes[l]));
            &&& w.cpu == model.cpus@[l]
            &&& w.load.num == cost
            &&& w.load.den == model.cycle_ns
            &&& w.response_ns is Some <==> cost <= 20 * model.cycle_ns
            &&& w.response_ns is Some ==> w.response_ns->0 == cost
            &&& cost <= model.cycle_ns ==> w.rate.num == w.rate.den && w.rate.den > 0
            &&& cost > 20 * model.cycle_ns ==> w.rate.num == 0 && w.rate.den > 0
            &&& model.cycle_ns < cost <= 20 * model.cycle_ns ==> w.rate.num == model.cycle_ns && w.rate.den == cost
                + model.copperlist_ns / 2
        }),
{
    lemma_worker_predictions(model, lanes, e, lanes.len(), l);
    lanes_cost_what_their_units_do(model, lanes, e, l);
}

/// Every worker told of runs a busy lane.
pub proof fn idle_lanes_are_not_told_of(
    model: Model,
    contract: CuContract,
    lanes: Seq<Seq<usize>>,
    p: CuPrediction,
    worker: Seq<char>,
)
    requires
        is_prediction(model, contract, lanes, p),
        p.workers.map().dom().contains(worker),
    ensures
        exists|l: int| #[trigger] is_busy(lanes, l) && worker == "cpu"@ + dec(model.cpus@[l] as nat),
{
    lemma_workers_told(model, lanes, model.evaluation(lanes), lanes.len(), worker);
}

proof fn lemma_workers_told(model: Model, lanes: Seq<Seq<usize>>, e: EvaluationModel, n: nat, worker: Seq<char>)
    requires
        n <= lanes.len(),
        worker_predictions(model, lanes, e, n).dom().contains(worker),
    ensures
        exists|l: int| #[trigger] is_busy(lanes, l) && worker == "cpu"@ + dec(model.cpus@[l] as nat),
    decreases n,
{
    if n > 0 {
        if lanes[n - 1].len() > 0 && worker == worker_id(model.cpus@[n - 1]) {
            assert(is_busy(lanes, n - 1));
        } else {
            lemma_workers_told(model, lanes, e, (n - 1) as nat, worker);
        }
    }
}

/// Whether the contract names that source.
pub open spec fn is_source(contract: CuContract, task: Seq<char>) -> bool {
    exists|s: int| 0 <= s < contract.sources@.len() && (#[trigger] contract.sources@[s]).task@ == task
}

proof fn lemma_sources_told(contract: CuContract, rate: Fraction, n: nat, task: Seq<char>)
    requires
        n <= contract.sources@.len(),
    ensures
        source_predictions(contract, rate, n).dom().contains(task) <==> exists|s: int|
            0 <= s < n && (#[trigger] contract.sources@[s]).task@ == task,
    decreases n,
{
    if n > 0 {
        lemma_sources_told(contract, rate, (n - 1) as nat, task);
        assert(contract.sources@[n - 1].task@ == contract.sources@[n - 1].task@);
    }
}

proof fn lemma_least_is_one(model: Model, lanes: Seq<Seq<usize>>, e: EvaluationModel, n: nat)
    requires
        n <= lanes.len(),
    ensures
        least_rate(model, lanes, e, n) == (Fraction { num: 1, den: 1 }) || exists|l: int| #[trigger]
            is_busy(lanes, l) && least_rate(model, lanes, e, n) == rate_of(model, e.lane_cost[l]),
    decreases n,
{
    if n > 0 {
        lemma_least_is_one(model, lanes, e, (n - 1) as nat);
        if lanes[n - 1].len() > 0 {
            assert(is_busy(lanes, n - 1));
        }
    }
}

/// The fraction that the cycle's critical path allows, by the formula: all
/// cycles while the path is no longer than what is in flight, and otherwise what
/// is in flight over the path and half a CopperList period.
pub proof fn long_paths_throttle(model: Model, makespan: u64)
    requires
        model.cycle_ns > 0,
        model.max_in_flight > 0,
        2 * model.cycle_ns * model.max_in_flight <= u128::MAX,
        2 * makespan * per_cycle(model) + model.copperlist_ns * model.max_in_flight <= u128::MAX,
    ensures
        ({
            let k = if model.inventory.copperlists_per_cycle == 0 {
                1int
            } else {
                model.inventory.copperlists_per_cycle as int
            };
            let flight = model.cycle_ns * model.max_in_flight;
            let rate = path_rate(model, makespan);
            &&& k * makespan <= flight ==> rate.num == rate.den && rate.den > 0
            &&& k * makespan > flight ==> rate.num == 2 * flight && rate.den == 2 * (k * makespan) + model.copperlist_ns
                * model.max_in_flight
        }),
{
    let k = per_cycle(model);
    assert(makespan * k == k * makespan) by (nonlinear_arith);
    assert(2 * makespan * k == 2 * (k * makespan)) by (nonlinear_arith);
    assert(2 * model.cycle_ns * model.max_in_flight == 2 * (model.cycle_ns * model.max_in_flight)) by (nonlinear_arith);
    let flight = model.cycle_ns * model.max_in_flight;
    assert(flight >= 0) by (nonlinear_arith)
        requires
            flight == model.cycle_ns * model.max_in_flight,
    ;
    assert(model.copperlist_ns * model.max_in_flight >= 0) by (nonlinear_arith);
}

/// The contract's sources are told of, and nothing else; a source delivers as
/// much as something that throttles it: all cycles, or what a busy lane delivers,
/// or what the critical path allows.
pub proof fn sources_deliver_what_throttles_them(
    model: Model,
    contract: CuContract,
    lanes: Seq<Seq<usize>>,
    p: CuPrediction,
    task: Seq<char>,
)
    requires
        is_prediction(model, contract, lanes, p),
    ensures
        p.sources.map().dom().contains(task) <==> is_source(contract, task),
        is_source(contract, task) ==> ({
            let rate = p.sources.map()[task];
            let e = model.evaluation(lanes);
            ||| rate.num == 1 && rate.den == 1
            ||| rate == path_rate(model, e.makespan)
            ||| exists|l: int| #[trigger] is_busy(lanes, l) && rate == rate_of(model, e.lane_cost[l])
        }),
{
    let e = model.evaluation(lanes);
    let rate = cycle_rate(model, lanes, e);
    lemma_sources_told(contract, rate, contract.sources@.len(), task);
    lemma_least_is_one(model, lanes, e, lanes.len());
    if is_source(contract, task) {
        lemma_source_rate(contract, rate, contract.sources@.len(), task);
    }
}

/// A lane that costs more never delivers more.
pub proof fn costlier_lanes_deliver_less(model: Model, a: u64, b: u64)
    requires
        a <= b,
    ensures
        !fraction_less(rate_of(model, a), rate_of(model, b)),
{
    let (x, y) = (rate_of(model, a), rate_of(model, b));
    let c = model.cycle_ns as int;
    let h = (model.copperlist_ns / 2) as int;
    if a > model.cycle_ns && b <= model.response_cap() {
        assert(x.num * y.den >= y.num * x.den) by (nonlinear_arith)
            requires
                x.num == c,
                y.num == c,
                x.den == a + h,
                y.den == b + h,
                a <= b,
                c >= 0,
        ;
    } else if a <= model.cycle_ns && b > model.cycle_ns && b <= model.response_cap() {
        assert(x.num * y.den >= y.num * x.den) by (nonlinear_arith)
            requires
                x.num == 1,
                x.den == 1,
                y.num == c,
                y.den == b + h,
                b > c,
                h >= 0,
        ;
    } else if b > model.response_cap() {
        assert(y.num * x.den == 0) by (nonlinear_arith)
            requires
                y.num == 0,
        ;
        assert(x.num * y.den >= 0) by (nonlinear_arith);
    }
}

/// Plans are searched for exactly when the profile is of this graph, the mission
/// exists and can be modelled, and a candidate is asked for.
pub proof fn what_is_searched_for(request: ProposeRequest)
    ensures
        request.refusal() is None <==> {
            &&& request.profile.config_signature@ == request.signature@
            &&& request.inventory is Some
            &&& request.inventory->0@.model_failure(*request.contract, *request.profile) is None
            &&& request.candidates > 0
        },
{
}

/// Fractions of the same denominator are ordered by their numerators, those of the
/// same numerator by their denominators, the other way round.
pub proof fn fractions_are_ordered_by_value(a: Fraction, b: Fraction)
    ensures
        a.den == b.den && a.den > 0 ==> (fraction_less(a, b) <==> a.num < b.num),
        a.num == b.num && a.num > 0 ==> (fraction_less(a, b) <==> b.den < a.den),
        a.num == 0 && a.den > 0 && b.num > 0 ==> fraction_less(a, b),
{
    if a.den == b.den && a.den > 0 {
        assert(a.num * a.den < b.num * a.den <==> a.num < b.num) by (nonlinear_arith)
            requires
                a.den > 0,
        ;
    }
    if a.num == b.num && a.num > 0 {
        assert(a.num * b.den < a.num * a.den <==> b.den < a.den) by (nonlinear_arith)
            requires
                a.num > 0,
        ;
    }
    if a.num == 0 && a.den > 0 && b.num > 0 {
        assert(0 * b.den == 0 && b.num * a.den > 0) by (nonlinear_arith)
            requires
                a.den > 0,
                b.num > 0,
        ;
    }
}

/// A candidate carries the exported occurrences, the dispatcher of the contract, a
/// plan that is valid on the pool, and the score and the prediction of the
/// assignment that the plan runs.
pub proof fn candidates_carry_their_plan<F: Fn(&Evaluation) -> Vec<u64>, G: Fn(&Vec<u64>, &Vec<u64>) -> bool>(
    request: ProposeRequest,
    score: F,
    same: G,
    f: ScoreFn,
    model: Model,
    list: Seq<(Vec<u64>, Assignment)>,
    chosen: Seq<int>,
    i: int,
    candidate: CuCandidate,
)
    requires
        request.chooses(score, same, model, list, chosen),
        agrees(score, f),
        0 <= i < chosen.len(),
        request.is_candidate(model, list[chosen[i]], candidate),
    ensures
        ({
            let lanes = list[chosen[i]].1@;
            &&& complete(lanes, model.units@.len())
            &&& orderable(lists_of(model.preds@), lanes)
            &&& candidate.score@ == f(model.evaluation(lanes))
            &&& candidate.plan.inventory@ == request.inventory->0@
            &&& candidate.plan.dispatcher == request.contract.dispatcher
            &&& candidate.plan.max_in_flight == model.max_in_flight
            &&& valid(
                pooled(candidate.plan.inventory@, workers_of(candidate.plan.workers@), request.pool@),
                request.pools@,
                request.shape@,
            )
            &&& is_prediction(model, *request.contract, lanes, candidate.prediction)
        }),
{
    assert(0 <= chosen[i] < list.len());
    let attempts: nat = if request.restarts == 0 {
        1
    } else {
        request.restarts as nat
    };
    assert(ranks_explored(
        model,
        f,
        list,
        explored(model, f, request.seed, request.moves as nat, attempts),
    ));
}

/// When no candidates are given, what is told is what is wrong with the plan of
/// one of the chosen assignments, and those of all better ones are valid.
pub proof fn the_first_invalid_plan_is_told<F: Fn(&Evaluation) -> Vec<u64>, G: Fn(&Vec<u64>, &Vec<u64>) -> bool>(
    request: ProposeRequest,
    score: F,
    same: G,
    e: CuError,
) -> (r: (Model, Seq<(Vec<u64>, Assignment)>, Seq<int>, int))
    requires
        request.answers(score, same, Err(e)),
    ensures
        ({
            let (model, list, chosen, i) = r;
            &&& request.chooses(score, same, model, list, chosen)
            &&& 0 <= i < chosen.len()
            &&& request.schedule(model, list[chosen[i]]).failure(request.pools@, request.shape@) == Some(e@)
            &&& forall|j: int|
                0 <= j < i ==> valid(
                    request.schedule(model, list[#[trigger] chosen[j]]),
                    request.pools@,
                    request.shape@,
                )
        }),
{
    let (model, list, chosen) = choose|model: Model, list: Seq<(Vec<u64>, Assignment)>, chosen: Seq<int>| #[trigger]
        request.chooses(score, same, model, list, chosen) && exists|i: int|
            0 <= i < chosen.len() && #[trigger] request.fails_at(model, list, chosen, i, e@);
    let i = choose|i: int| 0 <= i < chosen.len() && #[trigger] request.fails_at(model, list, chosen, i, e@);
    (model, list, chosen, i)
}

} // verus!
