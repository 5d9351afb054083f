//! Portable, exact process schedules and their build-time enforcement.

use crate::assembled::execution_keys;
use crate::assembled::AssembledPlan;
use crate::assembled::CuExecutionLoop;
use crate::assembled::CuExecutionUnit;
use crate::assembled::CuStepPhase;
use crate::assembled::NodeId;
use crate::error::failure_text;
use crate::error::CuError;
use crate::error::CuResult;
use crate::schedule::index_keys;
use crate::schedule::index_map;
use crate::schedule::lemma_index_map;
use crate::schedule::or_else;
use crate::schedule::texts;
use crate::schedule::CuMissionPlan;
use crate::schedule::PlanModel;
use crate::schedule::PlanShape;
use crate::schedule::ThreadPool;
use crate::shape::shape_exists;
use crate::strmap::ascending;
use crate::strmap::StrMap;
use crate::text::dec;
use crate::text::push_dec;
use crate::validity::valid;
use crate::validity::validation_accepts_exactly_the_valid_plans;
use vstd::prelude::*;

verus! {

/// The plan format that this library reads and writes.
pub const PLAN_VERSION: u32 = 1;

/// An experimental, portable process schedule for every mission in an app.
///
/// Version 1 represents serial and multicore schedules, including schedules
/// spanning several CopperLists. Each mission has a step inventory, execution
/// lanes, and precedence constraints across lanes and repeating cycles.
/// Entries retain existing error handling and anytime budget/skip semantics;
/// fixing their order does not force optional refinements to run.
#[derive(Debug, PartialEq, Eq)]
pub struct CuPlan {
    /// Format version. Unsupported versions are rejected before use.
    pub version: u32,
    /// Schedule indexed by mission id (`default` without named missions).
    pub missions: StrMap<CuMissionPlan>,
}

/// What a plan file says: its version, and the missions by ascending id.
pub struct PlanFile {
    pub version: u32,
    pub ids: Seq<Seq<char>>,
    pub missions: Seq<PlanModel>,
}

impl View for CuPlan {
    type V = PlanFile;

    open spec fn view(&self) -> PlanFile {
        PlanFile {
            version: self.version,
            ids: self.missions.keys(),
            missions: Seq::new(self.missions.values().len(), |i: int| self.missions.values()[i]@),
        }
    }
}

impl Clone for CuPlan {
    fn clone(&self) -> (r: Self)
        ensures
            r@ == self@,
    {
        let r = CuPlan { version: self.version, missions: self.missions.clone() };
        assert(r@.missions =~= self@.missions) by {
            assert forall|i: int| 0 <= i < self.missions.values().len() implies r.missions.values()[i]@
                == self.missions.values()[i]@ by {
                assert(cloned::<CuMissionPlan>(self.missions.values()[i], r.missions.values()[i]));
            }
        }
        r
    }
}

/// A configured mission: its process plan under the configured planner, and
/// under the canonical one that enumerates the legal steps.
#[derive(Debug, PartialEq, Eq)]
pub struct Mission {
    pub id: String,
    pub effective: CuResult<AssembledPlan>,
    pub canonical: CuResult<AssembledPlan>,
}

/// What planning reads of an app's configuration.
#[derive(Debug, PartialEq, Eq)]
pub struct CuConfig {
    pub thread_pools: Vec<ThreadPool>,
    pub missions: Vec<Mission>,
    /// The plan that the configuration prescribes, if any.
    pub fixed: Option<CuPlan>,
}

impl CuConfig {
    /// Whether every step of every plan calls a node of it.
    pub open spec fn wf(self) -> bool {
        forall|i: int|
            0 <= i < self.missions@.len() ==> {
                &&& (#[trigger] self.missions@[i]).effective matches Ok(plan) ==> plan.wf()
                &&& self.missions@[i].canonical matches Ok(plan) ==> plan.wf()
            }
    }

    /// The ids of the missions.
    pub open spec fn ids(self) -> Seq<Seq<char>> {
        Seq::new(self.missions@.len(), |i: int| self.missions@[i].id@)
    }
}

impl PlanFile {
    /// What is wrong with the format version.
    pub open spec fn version_failure(self) -> Option<Seq<char>> {
        if self.version != PLAN_VERSION {
            Some(
                "Unsupported execution plan version "@ + dec(self.version as nat) + "; expected "@ + dec(PLAN_VERSION as nat),
            )
        } else {
            None
        }
    }

    /// What is wrong with mission `i`.
    pub open spec fn mission_failure(self, config: CuConfig, i: int) -> Option<Seq<char>> {
        let mission = config.missions@[i];
        match mission.canonical {
            Err(e) => Some(e@),
            Ok(plan) => if plan.shape_failure() is Some {
                plan.shape_failure()
            } else {
                match self.missions[i].failure(config.thread_pools@, plan.shape(mission.id@)) {
                    None => None,
                    Some(text) => Some("Plan for mission '"@ + mission.id@ + "': "@ + text),
                }
            },
        }
    }

    /// What is wrong with the first `n` missions.
    pub open spec fn missions_failure(self, config: CuConfig, n: nat) -> Option<Seq<char>>
        decreases n,
    {
        if n == 0 {
            None
        } else {
            or_else(self.missions_failure(config, (n - 1) as nat), self.mission_failure(config, n - 1))
        }
    }

    /// The first thing that is wrong with a plan for a configuration.
    pub open spec fn failure(self, config: CuConfig) -> Option<Seq<char>> {
        or_else(
            self.version_failure(),
            if self.ids != config.ids() {
                Some("Execution plan must contain exactly the configured missions"@)
            } else {
                self.missions_failure(config, config.missions@.len())
            },
        )
    }
}

proof fn lemma_missions_later(f: PlanFile, config: CuConfig, i: nat, n: nat)
    requires
        f.missions_failure(config, i) is Some,
        i <= n,
    ensures
        f.missions_failure(config, n) == f.missions_failure(config, i),
    decreases n,
{
    if i < n {
        lemma_missions_later(f, config, i, (n - 1) as nat);
    }
}

impl CuPlan {
    /// Reject other format versions.
    pub fn check_version(&self) -> (r: CuResult<()>)
        ensures
            failure_text(r) == self@.version_failure(),
    {
        if self.version != PLAN_VERSION {
            let mut m: String = "Unsupported execution plan version ".to_owned();
            push_dec(&mut m, self.version as u64);
            m.append("; expected ");
            push_dec(&mut m, PLAN_VERSION as u64);
            return Err(CuError::new(m));
        }
        Ok(())
    }

    /// Check that the plan holds exactly the configured missions.
    fn check_missions(&self, config: &CuConfig) -> (same: bool)
        ensures
            same == (self@.ids == config.ids()),
    {
        let n: usize = config.missions.len();
        if self.missions.len() != n {
            return false;
        }
        let mut i: usize = 0;
        while i < n
            invariant
                i <= n,
                n == config.missions@.len(),
                self@.ids.len() == n,
                forall|j: int| 0 <= j < i ==> #[trigger] self@.ids[j] == config.ids()[j],
            decreases n - i,
        {
            if *self.missions.key_at(i) != config.missions[i].id {
                assert(self@.ids[i as int] != config.ids()[i as int]);
                return false;
            }
            i = i + 1;
        }
        assert(self@.ids =~= config.ids());
        true
    }

    /// Validate inventory, lane placement, acyclic precedence, message
    /// dependencies, anytime phases, and mutable task/bridge state order
    /// within and across CopperLists. This does not select an executor.
    ///
    /// CPU availability, runtime memory sizing, execution times, and deadline
    /// feasibility are not properties checked by this structural validator.
    pub fn validate(&self, config: &CuConfig) -> (r: CuResult<()>)
        requires
            config.wf(),
        ensures
            failure_text(r) == self@.failure(*config),
    {
        match self.check_version() {
            Err(e) => {
                return Err(e);
            },
            Ok(_) => {},
        }
        if !self.check_missions(config) {
            return Err(CuError::of("Execution plan must contain exactly the configured missions"));
        }
        let n: usize = config.missions.len();
        let plans: usize = self.missions.len();
        let mut i: usize = 0;
        while i < n
            invariant
                i <= n,
                n == config.missions@.len(),
                plans == n,
                plans == self.missions.values().len(),
                config.wf(),
                self@.version_failure() is None,
                self@.ids == config.ids(),
                self@.missions_failure(*config, i as nat) is None,
            decreases n - i,
        {
            let mission: &Mission = &config.missions[i];
            proof {
                if self@.mission_failure(*config, i as int) is Some {
                    lemma_missions_later(self@, *config, (i + 1) as nat, n as nat);
                }
            }
            match &mission.canonical {
                Err(e) => {
                    return Err(e.clone());
                },
                Ok(plan) => {
                    let shape: PlanShape = match PlanShape::new(plan, mission.id.as_str()) {
                        Ok(shape) => shape,
                        Err(e) => {
                            return Err(e);
                        },
                    };
                    match self.missions.value_at(i).validate(&config.thread_pools, &shape) {
                        Ok(_) => {},
                        Err(e) => {
                            let mut m: String = "Plan for mission '".to_owned();
                            m.append(mission.id.as_str());
                            m.append("': ");
                            m.append(e.message());
                            return Err(CuError::new(m));
                        },
                    }
                },
            }
            i = i + 1;
        }
        Ok(())
    }
}

// ---------------------------------------------------------------------------
// Export
// ---------------------------------------------------------------------------

/// What stops a mission's effective plan from being exported.
pub open spec fn export_mission_failure(mission: Mission) -> Option<Seq<char>> {
    match mission.effective {
        Err(e) => Some(e@),
        Ok(plan) => or_else(
            plan.shape_failure(),
            if plan.execution.steps@.len() > 0x1_0000_0000 {
                Some("Execution plan has too many steps"@)
            } else {
                None
            },
        ),
    }
}

/// What stops the first `n` missions from being exported.
pub open spec fn export_missions_failure(config: CuConfig, n: nat) -> Option<Seq<char>>
    decreases n,
{
    if n == 0 {
        None
    } else {
        or_else(export_missions_failure(config, (n - 1) as nat), export_mission_failure(config.missions@[n - 1]))
    }
}

/// What stops a configuration's plan from being exported.
pub open spec fn export_failure(config: CuConfig) -> Option<Seq<char>> {
    match config.fixed {
        Some(plan) => plan@.failure(config),
        None => export_missions_failure(config, config.missions@.len()),
    }
}

/// Whether no mission among the first `n` after `i` has the id of mission `i`.
pub open spec fn last_of_id(config: CuConfig, i: int, n: int) -> bool {
    &&& 0 <= i < n
    &&& forall|j: int| i < j < n ==> #[trigger] config.ids()[j] != config.ids()[i]
}

/// Whether the plans are the serial schedules of the first `n` missions, the
/// last mission of an id counting.
pub open spec fn exports(config: CuConfig, plans: Map<Seq<char>, CuMissionPlan>, n: int) -> bool {
    &&& forall|id: Seq<char>| #[trigger] plans.dom().contains(id) <==> config.ids().take(n).contains(id)
    &&& forall|i: int| #[trigger]
        last_of_id(config, i, n) ==> {
            let mission = config.missions@[i];
            mission.effective matches Ok(plan) && plan.shape(mission.id@).is_serial(plans[mission.id@]@)
        }
}

proof fn lemma_export_later(config: CuConfig, i: nat, n: nat)
    requires
        export_missions_failure(config, i) is Some,
        i <= n,
    ensures
        export_missions_failure(config, n) == export_missions_failure(config, i),
    decreases n,
{
    if i < n {
        lemma_export_later(config, i, (n - 1) as nat);
    }
}

proof fn lemma_exports_push(
    config: CuConfig,
    before: Map<Seq<char>, CuMissionPlan>,
    plan: CuMissionPlan,
    n: int,
)
    requires
        0 <= n < config.missions@.len(),
        exports(config, before, n),
        config.missions@[n].effective matches Ok(p) && p.shape(config.missions@[n].id@).is_serial(plan@),
    ensures
        exports(config, before.insert(config.missions@[n].id@, plan), n + 1),
{
    let id = config.missions@[n].id@;
    let after = before.insert(id, plan);
    let short = config.ids().take(n);
    let long = config.ids().take(n + 1);
    assert(long =~= short.push(id));
    assert forall|t: Seq<char>| #[trigger] after.dom().contains(t) <==> long.contains(t) by {
        assert(before.dom().contains(t) <==> short.contains(t));
        if short.contains(t) {
            assert(long[short.index_of(t)] == t);
        }
        if t == id {
            assert(long[n] == t);
        }
        if long.contains(t) && t != id {
            let k = long.index_of(t);
            assert(short[k] == t);
        }
    }
    assert forall|i: int| #[trigger] last_of_id(config, i, n + 1) implies {
        let mission = config.missions@[i];
        mission.effective matches Ok(plan) && plan.shape(mission.id@).is_serial(after[mission.id@]@)
    } by {
        if i < n {
            assert(config.ids()[n] != config.ids()[i]);
            assert(last_of_id(config, i, n));
        }
    }
}

impl CuPlan {
    /// Export the effective generated schedule, including any baked custom
    /// planner order or fixed plan already present in `config`.
    pub fn from_config(config: &CuConfig) -> (r: CuResult<Self>)
        requires
            config.wf(),
        ensures
            failure_text(r) == export_failure(*config),
            r matches Ok(plan) ==> match config.fixed {
                Some(fixed) => plan@ == fixed@,
                None => plan.version == PLAN_VERSION && exports(
                    *config,
                    plan.missions.map(),
                    config.missions@.len() as int,
                ),
            },
    {
        if let Some(plan) = &config.fixed {
            match plan.validate(config) {
                Err(e) => {
                    return Err(e);
                },
                Ok(_) => {
                    return Ok(plan.clone());
                },
            }
        }
        let n: usize = config.missions.len();
        let mut missions: StrMap<CuMissionPlan> = StrMap::new();
        let mut i: usize = 0;
        assert(config.ids().take(0) =~= Seq::empty());
        while i < n
            invariant
                i <= n,
                n == config.missions@.len(),
                config.wf(),
                config.fixed is None,
                export_missions_failure(*config, i as nat) is None,
                exports(*config, missions.map(), i as int),
            decreases n - i,
        {
            let mission: &Mission = &config.missions[i];
            proof {
                if export_mission_failure(*mission) is Some {
                    lemma_export_later(*config, (i + 1) as nat, n as nat);
                }
            }
            match &mission.effective {
                Err(e) => {
                    return Err(e.clone());
                },
                Ok(plan) => {
                    let shape: PlanShape = match PlanShape::new(plan, mission.id.as_str()) {
                        Ok(shape) => shape,
                        Err(e) => {
                            return Err(e);
                        },
                    };
                    assert(shape@.keys.len() == plan.execution.steps@.len());
                    match shape.serial_plan() {
                        Err(e) => {
                            return Err(e);
                        },
                        Ok(serial) => {
                            proof {
                                lemma_exports_push(*config, missions.map(), serial, i as int);
                            }
                            missions.insert(mission.id.clone(), serial);
                        },
                    }
                },
            }
            i = i + 1;
        }
        Ok(CuPlan { version: PLAN_VERSION, missions })
    }
}

// ---------------------------------------------------------------------------
// Enforcement
// ---------------------------------------------------------------------------

/// Enforce an exact saved process schedule during runtime generation.
///
/// No bridge placement or anytime scheduling heuristic is applied to the
/// supplied sequence. Invalid plans are errors, never hints. There is no
/// runtime dispatcher, file I/O, or serialization on the execution path.
/// Multicore plans may be validated and embedded, but runtime generation
/// rejects them until an executor implements their placement and dependencies.
#[derive(Debug)]
pub struct Fixed {
    plan: CuPlan,
}

impl View for Fixed {
    type V = PlanFile;

    closed spec fn view(&self) -> PlanFile {
        self.plan@
    }
}

impl Fixed {
    /// Take ownership of a saved plan. Its graph constraints are validated
    /// when it is applied or consumed during runtime generation.
    pub fn new(plan: CuPlan) -> (r: CuResult<Self>)
        ensures
            failure_text(r) == plan@.version_failure(),
            r matches Ok(fixed) ==> fixed@ == plan@,
    {
        match plan.check_version() {
            Err(e) => Err(e),
            Ok(_) => Ok(Fixed { plan }),
        }
    }

    /// Validate all missions and select this fixed plan in `config`.
    ///
    /// Serialize the resulting config and compile the app against it. Changing
    /// a deployed app's startup config cannot change its compiled schedule.
    /// The config is left untouched if validation fails.
    pub fn apply(&self, config: &mut CuConfig) -> (r: CuResult<()>)
        requires
            old(config).wf(),
        ensures
            failure_text(r) == self@.failure(*old(config)),
            r is Err ==> *final(config) == *old(config),
            r is Ok ==> {
                &&& final(config).thread_pools == old(config).thread_pools
                &&& final(config).missions == old(config).missions
                &&& final(config).fixed matches Some(plan) && plan@ == self@
            },
    {
        match self.plan.validate(config) {
            Err(e) => {
                return Err(e);
            },
            Ok(_) => {},
        }
        config.fixed = Some(self.plan.clone());
        Ok(())
    }
}

/// Selecting a valid plan makes it the one that the configuration exports.
pub proof fn applied_plan_is_exported(plan: PlanFile, before: CuConfig, after: CuConfig)
    requires
        plan.failure(before) is None,
        after.thread_pools == before.thread_pools,
        after.missions == before.missions,
        after.fixed matches Some(fixed) && fixed@ == plan,
    ensures
        export_failure(after) is None,
{
    lemma_failure_ignores_fixed(plan, before, after, before.missions@.len());
}

proof fn lemma_failure_ignores_fixed(plan: PlanFile, before: CuConfig, after: CuConfig, n: nat)
    requires
        after.thread_pools == before.thread_pools,
        after.missions == before.missions,
    ensures
        plan.missions_failure(after, n) == plan.missions_failure(before, n),
    decreases n,
{
    if n > 0 {
        lemma_failure_ignores_fixed(plan, before, after, (n - 1) as nat);
    }
}

// ---------------------------------------------------------------------------
// Materialization
// ---------------------------------------------------------------------------

/// The keys of a plan's steps.
pub open spec fn plan_keys(plan: AssembledPlan, mission: Seq<char>) -> Seq<Seq<char>> {
    Seq::new(plan.execution.steps@.len(), |i: int| plan.key(mission, i))
}

/// The step of a plan that has that key.
pub open spec fn step_index(plan: AssembledPlan, mission: Seq<char>, key: Seq<char>) -> int {
    index_map(plan_keys(plan, mission), plan.execution.steps@.len())[key] as int
}

/// The keys of a serial schedule in execution order.
pub open spec fn requested_keys(p: PlanModel) -> Seq<Seq<char>> {
    Seq::new(p.lanes[0].steps.len(), |k: int| p.steps[p.lanes[0].steps[k] as int].key)
}

/// What is wrong with the first `n` requested keys.
pub open spec fn request_failure(plan: AssembledPlan, mission: Seq<char>, keys: Seq<Seq<char>>, n: nat) -> Option<Seq<char>>
    decreases n,
{
    if n == 0 {
        None
    } else {
        or_else(
            request_failure(plan, mission, keys, (n - 1) as nat),
            if plan_keys(plan, mission).contains(keys[n - 1]) {
                None
            } else {
                Some("Unknown process step '"@ + keys[n - 1] + "'"@)
            },
        )
    }
}

/// The nodes of the first `n` requested keys, refinements left out.
pub open spec fn base_nodes(plan: AssembledPlan, mission: Seq<char>, keys: Seq<Seq<char>>, n: nat) -> Seq<NodeId>
    decreases n,
{
    if n == 0 {
        Seq::empty()
    } else {
        let rest = base_nodes(plan, mission, keys, (n - 1) as nat);
        let step = plan.step(step_index(plan, mission, keys[n - 1]));
        if step.phase is AnytimeRefine {
            rest
        } else {
            rest.push(step.node_id)
        }
    }
}

/// What stops the steps of a plan from being put in the order of the first `n`
/// requested keys: each must be the key of a step that is not placed yet.
pub open spec fn arrange_failure(plan: AssembledPlan, mission: Seq<char>, keys: Seq<Seq<char>>, n: nat) -> Option<Seq<char>>
    decreases n,
{
    if n == 0 {
        None
    } else {
        or_else(
            arrange_failure(plan, mission, keys, (n - 1) as nat),
            if plan_keys(plan, mission).contains(keys[n - 1]) && !keys.take(n - 1).contains(keys[n - 1]) {
                None
            } else {
                Some("Could not materialize process step '"@ + keys[n - 1] + "'"@)
            },
        )
    }
}

proof fn lemma_request_later(plan: AssembledPlan, mission: Seq<char>, keys: Seq<Seq<char>>, i: nat, n: nat)
    requires
        request_failure(plan, mission, keys, i) is Some,
        i <= n,
    ensures
        request_failure(plan, mission, keys, n) == request_failure(plan, mission, keys, i),
    decreases n,
{
    if i < n {
        lemma_request_later(plan, mission, keys, i, (n - 1) as nat);
    }
}

proof fn lemma_arrange_later(plan: AssembledPlan, mission: Seq<char>, keys: Seq<Seq<char>>, i: nat, n: nat)
    requires
        arrange_failure(plan, mission, keys, i) is Some,
        i <= n,
    ensures
        arrange_failure(plan, mission, keys, n) == arrange_failure(plan, mission, keys, i),
    decreases n,
{
    if i < n {
        lemma_arrange_later(plan, mission, keys, i, (n - 1) as nat);
    }
}

/// The nodes of the requested keys, refinements left out.
pub fn base_order(canonical: &AssembledPlan, mission: &str, requested: &Vec<String>) -> (r: CuResult<Vec<NodeId>>)
    requires
        canonical.wf(),
    ensures
        failure_text(r) == or_else(
            if canonical.flat() {
                None
            } else {
                Some("Nested loops are not supported by plan version 1"@)
            },
            request_failure(*canonical, mission@, texts(requested@), requested@.len()),
        ),
        r matches Ok(nodes) ==> nodes@ == base_nodes(*canonical, mission@, texts(requested@), requested@.len()),
{
    let keys: Vec<String> = match execution_keys(canonical, mission) {
        Ok(keys) => keys,
        Err(e) => {
            return Err(e);
        },
    };
    let by_key: StrMap<usize> = index_keys(&keys);
    let ghost names = plan_keys(*canonical, mission@);
    let ghost wanted = texts(requested@);
    proof {
        assert(texts(keys@) =~= names);
        assert(names.len() == keys.len());
        lemma_index_map(names, names.len());
    }
    let n: usize = requested.len();
    let mut nodes: Vec<NodeId> = Vec::new();
    let mut k: usize = 0;
    while k < n
        invariant
            k <= n,
            n == requested@.len(),
            wanted == texts(requested@),
            canonical.flat(),
            names == plan_keys(*canonical, mission@),
            by_key.map() == index_map(names, names.len()),
            forall|t: Seq<char>| #[trigger]
                index_map(names, names.len()).dom().contains(t) ==> index_map(names, names.len())[t] < names.len()
                    && names[index_map(names, names.len())[t] as int] == t,
            forall|i: int| 0 <= i < names.len() ==> index_map(names, names.len()).dom().contains(#[trigger] names[i]),
            request_failure(*canonical, mission@, wanted, k as nat) is None,
            nodes@ == base_nodes(*canonical, mission@, wanted, k as nat),
        decreases n - k,
    {
        let key: &String = &requested[k];
        match by_key.get(key.as_str()) {
            None => {
                proof {
                    if names.contains(key@) {
                        let i = choose|i: int| 0 <= i < names.len() && names[i] == key@;
                        assert(index_map(names, names.len()).dom().contains(names[i]));
                    }
                    lemma_request_later(*canonical, mission@, wanted, (k + 1) as nat, n as nat);
                }
                let mut m: String = "Unknown process step '".to_owned();
                m.append(key.as_str());
                m.append("'");
                return Err(CuError::new(m));
            },
            Some(index) => {
                let i: usize = *index;
                assert(names[i as int] == key@);
                assert(canonical.execution.steps@[i as int] is Step);
                if let CuExecutionUnit::Step(step) = &canonical.execution.steps[i] {
                    assert(canonical.step(i as int) == *step);
                    if step.phase != CuStepPhase::AnytimeRefine {
                        nodes.push(step.node_id);
                    }
                }
            },
        }
        k = k + 1;
    }
    Ok(nodes)
}

/// Put the steps of a plan in the order of the requested keys.
pub fn arrange(plan: AssembledPlan, mission: &str, requested: &Vec<String>) -> (r: CuResult<AssembledPlan>)
    requires
        plan.wf(),
    ensures
        failure_text(r) == or_else(
            if plan.flat() {
                None
            } else {
                Some("Nested loops are not supported by plan version 1"@)
            },
            arrange_failure(plan, mission@, texts(requested@), requested@.len()),
        ),
        r matches Ok(arranged) ==> {
            &&& arranged.entities == plan.entities
            &&& arranged.execution.steps@.len() == requested@.len()
            &&& forall|k: int|
                0 <= k < requested@.len() ==> #[trigger] arranged.execution.steps@[k] == plan.execution.steps@[step_index(
                    plan,
                    mission@,
                    requested@[k]@,
                )]
        },
{
    let keys: Vec<String> = match execution_keys(&plan, mission) {
        Ok(keys) => keys,
        Err(e) => {
            return Err(e);
        },
    };
    let by_key: StrMap<usize> = index_keys(&keys);
    let ghost names = plan_keys(plan, mission@);
    let ghost map = index_map(names, names.len());
    let ghost wanted = texts(requested@);
    proof {
        assert(texts(keys@) =~= names);
        assert(names.len() == keys.len());
        lemma_index_map(names, names.len());
    }
    let ghost units_before = plan.execution.steps@;
    let count: usize = plan.execution.steps.len();
    let mut units: Vec<CuExecutionUnit> = plan.execution.steps;
    // The last unit first.
    let mut slots: Vec<Option<CuExecutionUnit>> = Vec::new();
    while units.len() > 0
        invariant
            units@.len() + slots@.len() == count,
            count == units_before.len(),
            units@ == units_before.take(units@.len() as int),
            forall|i: int| 0 <= i < slots@.len() ==> #[trigger] slots@[i] == Some(units_before[count - 1 - i]),
        decreases units@.len(),
    {
        let unit: Option<CuExecutionUnit> = units.pop();
        slots.push(unit);
    }
    let n: usize = requested.len();
    let mut steps: Vec<CuExecutionUnit> = Vec::new();
    let mut k: usize = 0;
    while k < n
        invariant
            k <= n,
            n == requested@.len(),
            wanted == texts(requested@),
            plan.flat(),
            names == plan_keys(plan, mission@),
            map == index_map(names, names.len()),
            by_key.map() == map,
            count == units_before.len(),
            count == names.len(),
            units_before == plan.execution.steps@,
            slots@.len() == count,
            forall|t: Seq<char>| #[trigger] map.dom().contains(t) ==> map[t] < count && names[map[t] as int] == t,
            forall|i: int| 0 <= i < names.len() ==> map.dom().contains(#[trigger] names[i]),
            arrange_failure(plan, mission@, wanted, k as nat) is None,
            forall|t: Seq<char>| #[trigger]
                map.dom().contains(t) ==> slots@[count - 1 - map[t]] == (if wanted.take(k as int).contains(t) {
                    None
                } else {
                    Some(units_before[map[t] as int])
                }),
            steps@.len() == k,
            forall|j: int| 0 <= j < k ==> #[trigger] steps@[j] == units_before[map[wanted[j]] as int],
        decreases n - k,
    {
        let key: &String = &requested[k];
        assert(wanted[k as int] == key@);
        let mut unit: Option<CuExecutionUnit> = None;
        let ghost slots_before = slots@;
        if let Some(index) = by_key.get(key.as_str()) {
            let at: usize = count - 1 - *index;
            assert(map.dom().contains(key@));
            unit = slots[at].take();
            assert(slots@ =~= slots_before.update(at as int, None));
        }
        proof {
            if names.contains(key@) {
                let i = choose|i: int| 0 <= i < names.len() && names[i] == key@;
                assert(map.dom().contains(names[i]));
            }
            if map.dom().contains(key@) {
                assert(names[map[key@] as int] == key@);
            }
            assert(plan_keys(plan, mission@).contains(key@) <==> map.dom().contains(key@));
        }
        match unit {
            None => {
                proof {
                    lemma_arrange_later(plan, mission@, wanted, (k + 1) as nat, n as nat);
                }
                let mut m: String = "Could not materialize process step '".to_owned();
                m.append(key.as_str());
                m.append("'");
                return Err(CuError::new(m));
            },
            Some(unit) => {
                steps.push(unit);
            },
        }
        proof {
            let short = wanted.take(k as int);
            let long = wanted.take(k + 1);
            assert(long =~= short.push(key@));
            assert forall|t: Seq<char>| #[trigger] map.dom().contains(t) implies slots@[count - 1 - map[t]] == (
            if long.contains(t) {
                None
            } else {
                Some(units_before[map[t] as int])
            }) by {
                if short.contains(t) {
                    let i = choose|i: int| 0 <= i < short.len() && short[i] == t;
                    assert(long[i] == t);
                }
                if t == key@ {
                    assert(long[k as int] == t);
                } else {
                    if long.contains(t) {
                        let i = choose|i: int| 0 <= i < long.len() && long[i] == t;
                        assert(short[i] == t);
                    }
                    assert(map[t] != map[key@]) by {
                        assert(names[map[t] as int] == t);
                        assert(names[map[key@] as int] == key@);
                    }
                }
            }
        }
        k = k + 1;
    }
    Ok(AssembledPlan { execution: CuExecutionLoop { steps }, entities: plan.entities })
}

impl PlanFile {
    /// The schedule of a mission.
    pub open spec fn schedule(self, mission: Seq<char>) -> PlanModel {
        self.missions[self.ids.index_of(mission)]
    }

    /// What stops a mission's schedule from naming a node order.
    pub open spec fn order_failure(self, graph: Mission, mission: Seq<char>) -> Option<Seq<char>> {
        if !self.ids.contains(mission) {
            Some("Missing mission"@)
        } else {
            let p = self.schedule(mission);
            or_else(
                p.serial_failure(),
                match graph.canonical {
                    Err(e) => Some(e@),
                    Ok(canonical) => or_else(
                        if canonical.flat() {
                            None
                        } else {
                            Some("Nested loops are not supported by plan version 1"@)
                        },
                        request_failure(canonical, mission, requested_keys(p), requested_keys(p).len()),
                    ),
                },
            )
        }
    }

    /// The node order that a mission's schedule names.
    pub open spec fn node_order(self, graph: Mission, mission: Seq<char>) -> Seq<NodeId> {
        let keys = requested_keys(self.schedule(mission));
        base_nodes(graph.canonical->Ok_0, mission, keys, keys.len())
    }
}

/// Whether `r` is the rebuilt plan with its steps in the order of `keys`.
pub open spec fn is_arranged(
    built: CuResult<AssembledPlan>,
    mission: Seq<char>,
    keys: Seq<Seq<char>>,
    r: CuResult<AssembledPlan>,
) -> bool {
    match built {
        Err(e) => failure_text(r) == Some(e@),
        Ok(plan) => {
            &&& failure_text(r) == or_else(
                if plan.flat() {
                    None
                } else {
                    Some("Nested loops are not supported by plan version 1"@)
                },
                arrange_failure(plan, mission, keys, keys.len()),
            )
            &&& r matches Ok(arranged) ==> {
                &&& arranged.entities == plan.entities
                &&& arranged.execution.steps@ == Seq::new(
                    keys.len(),
                    |k: int| plan.execution.steps@[step_index(plan, mission, keys[k])],
                )
            }
        },
    }
}

impl Fixed {
    /// Recompute message slots from the supplied base-node order with
    /// `rebuild`, then move the generated typed steps into the exact supplied
    /// phase order.
    fn assemble_steps<F: Fn(Vec<NodeId>) -> CuResult<AssembledPlan>>(
        &self,
        graph: &Mission,
        mission: &str,
        rebuild: F,
    ) -> (r: CuResult<AssembledPlan>)
        requires
            graph.canonical matches Ok(plan) ==> plan.wf(),
            forall|nodes: Vec<NodeId>| call_requires(rebuild, (nodes,)),
            forall|nodes: Vec<NodeId>, plan: AssembledPlan| call_ensures(rebuild, (nodes,), Ok(plan)) ==> plan.wf(),
        ensures
            match self@.order_failure(*graph, mission@) {
                Some(text) => failure_text(r) == Some(text),
                None => exists|nodes: Vec<NodeId>, built: CuResult<AssembledPlan>| #[trigger]
                    call_ensures(rebuild, (nodes,), built) && nodes@ == self@.node_order(*graph, mission@) && is_arranged(
                        built,
                        mission@,
                        requested_keys(self@.schedule(mission@)),
                        r,
                    ),
            },
    {
        let count: usize = self.plan.missions.len();
        let requested: Vec<String> = match self.plan.missions.get(mission) {
            None => {
                return Err(CuError::of("Missing mission"));
            },
            Some(plan) => {
                assert(plan@ == self@.schedule(mission@)) by {
                    let ids = self@.ids;
                    let at = ids.index_of(mission@);
                    assert(0 <= at < count);
                }
                match plan.serial_keys() {
                    Ok(keys) => keys,
                    Err(e) => {
                        return Err(e);
                    },
                }
            },
        };
        let ghost keys = requested_keys(self@.schedule(mission@));
        assert(texts(requested@) =~= keys);
        // The canonical expansion enumerates legal identities, independent of
        // the requested order. It is never substituted for the user's order.
        let nodes: Vec<NodeId> = match &graph.canonical {
            Err(e) => {
                return Err(e.clone());
            },
            Ok(canonical) => match base_order(canonical, mission, &requested) {
                Ok(nodes) => nodes,
                Err(e) => {
                    return Err(e);
                },
            },
        };
        let ghost order = nodes;
        let built: CuResult<AssembledPlan> = rebuild(nodes);
        let ghost outcome = built;
        assert(call_ensures(rebuild, (order,), outcome));
        match built {
            Err(e) => {
                let r: CuResult<AssembledPlan> = Err(e);
                assert(is_arranged(outcome, mission@, keys, r));
                r
            },
            Ok(plan) => {
                let r: CuResult<AssembledPlan> = arrange(plan, mission, &requested);
                proof {
                    if r is Ok {
                        let arranged = r->Ok_0;
                        assert forall|k: int| 0 <= k < keys.len() implies #[trigger] arranged.execution.steps@[k]
                            == plan.execution.steps@[step_index(plan, mission@, keys[k])] by {
                            assert(requested@[k]@ == keys[k]);
                        }
                        assert(arranged.execution.steps@ =~= Seq::new(
                            keys.len(),
                            |k: int| plan.execution.steps@[step_index(plan, mission@, keys[k])],
                        ));
                    }
                }
                assert(is_arranged(outcome, mission@, keys, r));
                r
            },
        }
    }

    /// Generate the process plan that runs the steps of a mission exactly as
    /// its schedule says. `rebuild` assembles a process plan from a node order.
    pub fn assemble<F: Fn(Vec<NodeId>) -> CuResult<AssembledPlan>>(
        &self,
        config: &CuConfig,
        graph: &Mission,
        mission: &str,
        rebuild: F,
    ) -> (r: CuResult<AssembledPlan>)
        requires
            config.wf(),
            graph.canonical matches Ok(plan) ==> plan.wf(),
            forall|nodes: Vec<NodeId>| call_requires(rebuild, (nodes,)),
            forall|nodes: Vec<NodeId>, plan: AssembledPlan| call_ensures(rebuild, (nodes,), Ok(plan)) ==> plan.wf(),
        ensures
            match self@.failure(*config) {
                Some(text) => failure_text(r) == Some(text),
                None => match self@.order_failure(*graph, mission@) {
                    Some(text) => failure_text(r) == Some("Fixed plan for mission '"@ + mission@ + "': "@ + text),
                    None => exists|nodes: Vec<NodeId>, built: CuResult<AssembledPlan>, steps: CuResult<AssembledPlan>|
                        {
                            &&& #[trigger] call_ensures(rebuild, (nodes,), built)
                            &&& nodes@ == self@.node_order(*graph, mission@)
                            &&& #[trigger] is_arranged(
                                built,
                                mission@,
                                requested_keys(self@.schedule(mission@)),
                                steps,
                            )
                            &&& match steps {
                                Ok(plan) => r == Ok::<AssembledPlan, CuError>(plan),
                                Err(e) => failure_text(r) == Some(
                                    "Fixed plan for mission '"@ + mission@ + "': "@ + e@,
                                ),
                            }
                        },
                },
            },
    {
        match self.plan.validate(config) {
            Err(e) => {
                return Err(e);
            },
            Ok(_) => {},
        }
        let steps: CuResult<AssembledPlan> = self.assemble_steps(graph, mission, rebuild);
        match steps {
            Ok(plan) => Ok(plan),
            Err(e) => {
                let mut m: String = "Fixed plan for mission '".to_owned();
                m.append(mission);
                m.append("': ");
                m.append(e.message());
                Err(CuError::new(m))
            },
        }
    }
}

/// A plan file is accepted exactly when it is of this version, has exactly the
/// configured missions, and is a valid schedule of each one's canonical plan.
pub proof fn what_is_accepted(file: PlanFile, config: CuConfig)
    requires
        forall|i: int|
            0 <= i < config.missions@.len() ==> (#[trigger] config.missions@[i].canonical matches Ok(plan)
                ==> plan.execution.steps@.len() <= usize::MAX && file.missions[i].steps.len() <= usize::MAX),
    ensures
        file.failure(config) is None <==> {
            &&& file.version == PLAN_VERSION
            &&& file.ids == config.ids()
            &&& forall|i: int| 0 <= i < config.missions@.len() ==> #[trigger] schedules(file, config, i)
        },
{
    assert forall|i: int| 0 <= i < config.missions@.len() implies (#[trigger] file.mission_failure(config, i) is None
        <==> schedules(file, config, i)) by {
        let mission = config.missions@[i];
        if mission.canonical is Ok {
            let plan = mission.canonical->Ok_0;
            if plan.shape_failure() is None {
                shape_exists(plan, mission.id@);
                validation_accepts_exactly_the_valid_plans(
                    file.missions[i],
                    config.thread_pools@,
                    plan.shape(mission.id@),
                );
            }
        }
    }
    lemma_missions_fit(file, config, config.missions@.len());
    if forall|i: int| 0 <= i < config.missions@.len() ==> #[trigger] schedules(file, config, i) {
        assert forall|i: int| 0 <= i < config.missions@.len() implies #[trigger] file.mission_failure(config, i) is None by {
            assert(schedules(file, config, i));
        }
    }
    if forall|i: int| 0 <= i < config.missions@.len() ==> #[trigger] file.mission_failure(config, i) is None {
        assert forall|i: int| 0 <= i < config.missions@.len() implies #[trigger] schedules(file, config, i) by {
            assert(file.mission_failure(config, i) is None);
        }
    }
}

/// Whether the file's plan `i` is a valid schedule of the canonical plan of
/// mission `i`.
pub open spec fn schedules(file: PlanFile, config: CuConfig, i: int) -> bool {
    &&& config.missions@[i].canonical matches Ok(plan)
    &&& plan.shape_failure() is None
    &&& valid(file.missions[i], config.thread_pools@, plan.shape(config.missions@[i].id@))
}

proof fn lemma_missions_fit(file: PlanFile, config: CuConfig, n: nat)
    ensures
        file.missions_failure(config, n) is None <==> forall|i: int|
            0 <= i < n ==> #[trigger] file.mission_failure(config, i) is None,
    decreases n,
{
    if n > 0 {
        lemma_missions_fit(file, config, (n - 1) as nat);
        if file.missions_failure(config, n) is None {
            assert forall|i: int| 0 <= i < n implies #[trigger] file.mission_failure(config, i) is None by {
                if i == n - 1 {
                    assert(file.mission_failure(config, n - 1) is None);
                }
            }
        }
        if forall|i: int| 0 <= i < n ==> #[trigger] file.mission_failure(config, i) is None {
            assert(file.mission_failure(config, n - 1) is None);
        }
    }
}

/// Of the missions that are wrong, the first is told.
pub proof fn the_first_wrong_mission_is_told(file: PlanFile, config: CuConfig, i: int)
    requires
        0 <= i < config.missions@.len(),
        file.version == PLAN_VERSION,
        file.ids == config.ids(),
        file.mission_failure(config, i) is Some,
        forall|j: int| 0 <= j < i ==> #[trigger] file.mission_failure(config, j) is None,
    ensures
        file.failure(config) == file.mission_failure(config, i),
{
    lemma_missions_fit(file, config, i as nat);
    lemma_missions_later(file, config, (i + 1) as nat, config.missions@.len());
}

/// The first requested key that names no step is told, and nothing when every
/// one does.
pub proof fn the_first_unknown_key_is_told(plan: AssembledPlan, mission: Seq<char>, keys: Seq<Seq<char>>, n: nat)
    requires
        n <= keys.len(),
    ensures
        request_failure(plan, mission, keys, n) is None <==> forall|k: int|
            0 <= k < n ==> plan_keys(plan, mission).contains(#[trigger] keys[k]),
        request_failure(plan, mission, keys, n) is Some ==> exists|k: int|
            0 <= k < n && !plan_keys(plan, mission).contains(#[trigger] keys[k]) && request_failure(plan, mission, keys, n)
                == Some("Unknown process step '"@ + keys[k] + "'"@) && forall|j: int|
                0 <= j < k ==> plan_keys(plan, mission).contains(#[trigger] keys[j]),
    decreases n,
{
    if n > 0 {
        the_first_unknown_key_is_told(plan, mission, keys, (n - 1) as nat);
        let rest = request_failure(plan, mission, keys, (n - 1) as nat);
        if rest is Some {
            let k = choose|k: int|
                0 <= k < n - 1 && !plan_keys(plan, mission).contains(#[trigger] keys[k]) && rest == Some(
                    "Unknown process step '"@ + keys[k] + "'"@,
                ) && forall|j: int| 0 <= j < k ==> plan_keys(plan, mission).contains(#[trigger] keys[j]);
            assert(!plan_keys(plan, mission).contains(keys[k]));
        } else {
            assert(plan_keys(plan, mission).contains(keys[n - 1]) || !plan_keys(plan, mission).contains(keys[n - 1]));
        }
    }
}

/// Steps can be put in the order of the requested keys exactly when each key
/// names a step and none is requested twice; otherwise the first key that does
/// not fit is told.
pub proof fn keys_that_fit_are_distinct(plan: AssembledPlan, mission: Seq<char>, keys: Seq<Seq<char>>, n: nat)
    requires
        n <= keys.len(),
    ensures
        arrange_failure(plan, mission, keys, n) is None <==> {
            &&& forall|k: int| 0 <= k < n ==> plan_keys(plan, mission).contains(#[trigger] keys[k])
            &&& forall|j: int, k: int| 0 <= j < k < n ==> #[trigger] keys[j] != #[trigger] keys[k]
        },
        arrange_failure(plan, mission, keys, n) is Some ==> exists|k: int|
            0 <= k < n && arrange_failure(plan, mission, keys, n) == Some(
                "Could not materialize process step '"@ + #[trigger] keys[k] + "'"@,
            ) && arrange_failure(plan, mission, keys, k as nat) is None,
    decreases n,
{
    if n > 0 {
        keys_that_fit_are_distinct(plan, mission, keys, (n - 1) as nat);
        let rest = arrange_failure(plan, mission, keys, (n - 1) as nat);
        let early = keys.take(n - 1);
        if rest is Some {
            let k = choose|k: int|
                0 <= k < n - 1 && rest == Some("Could not materialize process step '"@ + #[trigger] keys[k] + "'"@)
                    && arrange_failure(plan, mission, keys, k as nat) is None;
            assert(keys[k] == keys[k]);
        } else if early.contains(keys[n - 1]) {
            let j = choose|j: int| 0 <= j < early.len() && early[j] == keys[n - 1];
            assert(keys[j] == keys[n - 1]);
        } else {
            assert forall|j: int, k: int| 0 <= j < k < n implies #[trigger] keys[j] != #[trigger] keys[k] by {
                if k == n - 1 {
                    assert(early[j] == keys[j]);
                }
            }
        }
    }
}

/// Whether a requested key is that of no refinement.
pub open spec fn is_base_key(plan: AssembledPlan, mission: Seq<char>) -> spec_fn(Seq<char>) -> bool {
    |key: Seq<char>| !(plan.step(step_index(plan, mission, key)).phase is AnytimeRefine)
}

/// The node that a requested key calls.
pub open spec fn node_of_key(plan: AssembledPlan, mission: Seq<char>) -> spec_fn(Seq<char>) -> NodeId {
    |key: Seq<char>| plan.step(step_index(plan, mission, key)).node_id
}

/// The node order is that of the requested keys, without the refinements.
pub proof fn nodes_run_in_the_requested_order(plan: AssembledPlan, mission: Seq<char>, keys: Seq<Seq<char>>, n: nat)
    requires
        n <= keys.len(),
    ensures
        base_nodes(plan, mission, keys, n) == keys.take(n as int).filter(is_base_key(plan, mission)).map_values(
            node_of_key(plan, mission),
        ),
    decreases n,
{
    reveal(Seq::filter);
    let all = keys.take(n as int);
    if n == 0 {
        assert(all.filter(is_base_key(plan, mission)) =~= Seq::<Seq<char>>::empty());
        assert(base_nodes(plan, mission, keys, n) =~= all.filter(is_base_key(plan, mission)).map_values(
            node_of_key(plan, mission),
        ));
    } else {
        nodes_run_in_the_requested_order(plan, mission, keys, (n - 1) as nat);
        assert(all.drop_last() =~= keys.take(n - 1));
        let f = keys.take(n - 1).filter(is_base_key(plan, mission));
        assert(base_nodes(plan, mission, keys, n) =~= all.filter(is_base_key(plan, mission)).map_values(
            node_of_key(plan, mission),
        ));
    }
}

/// Of the missions that cannot be exported, the first is told; all can be when
/// each one's effective plan is there, can be scheduled and is not too long.
pub proof fn what_can_be_exported(config: CuConfig, n: nat)
    requires
        n <= config.missions@.len(),
    ensures
        export_missions_failure(config, n) is None <==> forall|i: int|
            0 <= i < n ==> (#[trigger] config.missions@[i]).effective is Ok
                && config.missions@[i].effective->Ok_0.shape_failure() is None
                && config.missions@[i].effective->Ok_0.execution.steps@.len() <= 0x1_0000_0000,
        export_missions_failure(config, n) is Some ==> exists|i: int|
            0 <= i < n && export_mission_failure(#[trigger] config.missions@[i]) is Some && export_missions_failure(
                config,
                n,
            ) == export_mission_failure(config.missions@[i]) && forall|j: int|
                0 <= j < i ==> export_mission_failure(#[trigger] config.missions@[j]) is None,
    decreases n,
{
    if n > 0 {
        what_can_be_exported(config, (n - 1) as nat);
        let last = config.missions@[n - 1];
        let rest = export_missions_failure(config, (n - 1) as nat);
        if rest is Some {
            let i = choose|i: int|
                0 <= i < n - 1 && export_mission_failure(#[trigger] config.missions@[i]) is Some && rest
                    == export_mission_failure(config.missions@[i]) && forall|j: int|
                    0 <= j < i ==> export_mission_failure(#[trigger] config.missions@[j]) is None;
            assert(export_mission_failure(config.missions@[i]) is Some);
        } else {
            assert forall|j: int| 0 <= j < n - 1 implies export_mission_failure(#[trigger] config.missions@[j]) is None by {
                assert(config.missions@[j].effective is Ok);
            }
            assert(export_mission_failure(last) is Some || export_mission_failure(last) is None);
        }
    }
}

} // verus!
