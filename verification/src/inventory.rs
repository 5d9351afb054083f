//! The occurrences of a mission's process steps in one schedule cycle, and the
//! units that a search places: an occurrence, or an anytime base occurrence
//! with its refinements.

use crate::error::failure_text;
use crate::error::CuError;
use crate::error::CuResult;
use crate::keys::is_refine;
use crate::keys::is_refine_key;
use crate::keys::key_task;
use crate::keys::task_of_key;
use crate::schedule::or_else;
use crate::schedule::texts;
use crate::schedule::CuPlanDependency;
use crate::schedule::CuPlanStep;
use crate::schedule::StepModel;
use vstd::prelude::*;

verus! {

/// The occurrences of one mission's process steps, and the precedence among them.
#[derive(Debug, PartialEq, Eq)]
pub struct CuInventory {
    /// Number of consecutive CopperLists in one schedule cycle.
    pub copperlists_per_cycle: u32,
    /// Each process step once per CopperList.
    pub steps: Vec<CuPlanStep>,
    pub dependencies: Vec<CuPlanDependency>,
    /// The tasks whose steps only poll and dispatch work of a pool.
    pub background: Vec<String>,
}

/// What an inventory says.
pub struct InventoryModel {
    pub copperlists_per_cycle: u32,
    pub steps: Seq<StepModel>,
    pub dependencies: Seq<CuPlanDependency>,
    pub background: Seq<Seq<char>>,
}

impl View for CuInventory {
    type V = InventoryModel;

    open spec fn view(&self) -> InventoryModel {
        InventoryModel {
            copperlists_per_cycle: self.copperlists_per_cycle,
            steps: Seq::new(self.steps@.len(), |i: int| self.steps@[i]@),
            dependencies: self.dependencies@,
            background: texts(self.background@),
        }
    }
}

impl Clone for CuInventory {
    fn clone(&self) -> (r: Self)
        ensures
            r@ == self@,
    {
        let r = CuInventory {
            copperlists_per_cycle: self.copperlists_per_cycle,
            steps: self.steps.clone(),
            dependencies: self.dependencies.clone(),
            background: self.background.clone(),
        };
        assert(r@.steps =~= self@.steps);
        assert(r@.dependencies =~= self@.dependencies);
        assert(r@.background =~= self@.background);
        r
    }
}

impl InventoryModel {
    /// Whether every dependency names occurrences.
    pub open spec fn wf(self) -> bool {
        forall|d: int|
            0 <= d < self.dependencies.len() ==> (#[trigger] self.dependencies[d]).from < self.steps.len()
                && self.dependencies[d].to < self.steps.len()
    }

    /// Whether occurrence `i` is a refinement.
    pub open spec fn refine(self, i: int) -> bool {
        is_refine_key(self.steps[i].key)
    }

    /// The task of occurrence `i`.
    pub open spec fn task(self, i: int) -> Option<Seq<char>> {
        key_task(self.steps[i].key)
    }

    /// Whether refinement `i` refines occurrence `j`: the same task's step in
    /// the same CopperList.
    pub open spec fn refines(self, i: int, j: int) -> bool {
        &&& self.steps[j].copperlist == self.steps[i].copperlist
        &&& !self.refine(j)
        &&& self.task(j) == self.task(i)
    }

    /// The first occurrence from `j` on that `i` refines.
    pub open spec fn base_from(self, i: int, j: int) -> Option<int>
        decreases self.steps.len() - j,
    {
        if j < 0 || j >= self.steps.len() {
            None
        } else if self.refines(i, j) {
            Some(j)
        } else {
            self.base_from(i, j + 1)
        }
    }

    /// The occurrence that refinement `i` refines.
    pub open spec fn base(self, i: int) -> Option<int> {
        self.base_from(i, 0)
    }

    /// How many of the first `i` occurrences are no refinements.
    pub open spec fn bases(self, i: nat) -> nat
        decreases i,
    {
        if i == 0 {
            0
        } else {
            self.bases((i - 1) as nat) + (if self.refine(i - 1) { 0nat } else { 1nat })
        }
    }

    /// The unit of occurrence `i`: units are numbered by their base.
    pub open spec fn unit(self, i: int) -> nat {
        if self.refine(i) {
            self.bases(self.base(i)->0 as nat)
        } else {
            self.bases(i as nat)
        }
    }

    /// The first `n` occurrences of unit `u`, ascending.
    pub open spec fn members(self, u: nat, n: nat) -> Seq<usize>
        decreases n,
    {
        if n == 0 {
            Seq::empty()
        } else if self.unit(n - 1) == u {
            self.members(u, (n - 1) as nat).push((n - 1) as usize)
        } else {
            self.members(u, (n - 1) as nat)
        }
    }

    /// Whether refinement `i` comes after the occurrence that it refines.
    pub open spec fn follows_base(self, i: int) -> bool {
        self.refine(i) ==> (self.base(i) matches Some(base) && base < i)
    }

    /// What is wrong with the refinements among the first `n` occurrences.
    pub open spec fn refine_failure(self, n: nat) -> Option<Seq<char>>
        decreases n,
    {
        if n == 0 {
            None
        } else {
            or_else(
                self.refine_failure((n - 1) as nat),
                if self.follows_base(n - 1) {
                    None
                } else {
                    Some("Refine step '"@ + self.steps[n - 1].key + "' has no base step before it"@)
                },
            )
        }
    }

    /// Number of units.
    pub open spec fn unit_count(self) -> nat {
        self.bases(self.steps.len())
    }

    /// The occurrences of unit `u`, ascending.
    pub open spec fn unit_steps(self, u: nat) -> Seq<usize> {
        self.members(u, self.steps.len())
    }
}

proof fn lemma_refine_later(m: InventoryModel, i: nat, n: nat)
    requires
        m.refine_failure(i) is Some,
        i <= n,
    ensures
        m.refine_failure(n) == m.refine_failure(i),
    decreases n,
{
    if i < n {
        lemma_refine_later(m, i, (n - 1) as nat);
    }
}

pub(crate) proof fn lemma_follows(m: InventoryModel, n: nat, i: int)
    requires
        m.refine_failure(n) is None,
        0 <= i < n,
    ensures
        m.follows_base(i),
    decreases n,
{
    if i + 1 < n {
        lemma_follows(m, (n - 1) as nat, i);
    }
}

proof fn lemma_base_from(m: InventoryModel, i: int, j: int)
    requires
        0 <= j,
    ensures
        m.base_from(i, j) matches Some(b) ==> j <= b < m.steps.len() && m.refines(i, b),
    decreases m.steps.len() - j,
{
    if j < m.steps.len() && !m.refines(i, j) {
        lemma_base_from(m, i, j + 1);
    }
}

proof fn lemma_bases(m: InventoryModel, i: nat, n: nat)
    requires
        i <= n,
    ensures
        m.bases(i) <= m.bases(n) <= m.bases(i) + (n - i),
    decreases n,
{
    if i < n {
        lemma_bases(m, i, (n - 1) as nat);
    }
}

/// The unit of an occurrence is one of those of the occurrences up to it.
pub(crate) proof fn lemma_unit(m: InventoryModel, i: int, n: nat)
    requires
        0 <= i < n <= m.steps.len(),
        m.follows_base(i),
    ensures
        m.unit(i) < m.bases(n) <= n,
        m.refine(i) ==> m.unit(i) < m.bases(i as nat) && 0 <= m.base(i)->0 < i,
{
    lemma_bases(m, 0, n);
    if m.refine(i) {
        lemma_base_from(m, i, 0);
        let b = m.base(i)->0;
        lemma_bases(m, (b + 1) as nat, i as nat);
        lemma_bases(m, i as nat, n);
    } else {
        lemma_bases(m, (i + 1) as nat, n);
    }
}

/// What an optional text says.
pub open spec fn optional_text(text: Option<Vec<char>>) -> Option<Seq<char>> {
    match text {
        Some(t) => Some(t@),
        None => None,
    }
}

/// Whether two texts are the same.
pub(crate) fn same_text(a: &Vec<char>, b: &Vec<char>) -> (same: bool)
    ensures
        same == (a@ == b@),
{
    if a.len() != b.len() {
        return false;
    }
    let mut i: usize = 0;
    while i < a.len()
        invariant
            i <= a@.len(),
            a@.len() == b@.len(),
            forall|j: int| 0 <= j < i ==> #[trigger] a@[j] == b@[j],
        decreases a@.len() - i,
    {
        if a[i] != b[i] {
            return false;
        }
        i = i + 1;
    }
    assert(a@ =~= b@);
    true
}

/// Whether two optional texts are the same.
pub(crate) fn same_optional(a: &Option<Vec<char>>, b: &Option<Vec<char>>) -> (same: bool)
    ensures
        same == (optional_text(*a) == optional_text(*b)),
{
    match (a, b) {
        (Some(x), Some(y)) => same_text(x, y),
        (None, None) => true,
        _ => false,
    }
}

/// What the keys of an inventory tell.
#[derive(Debug)]
pub(crate) struct KeyFacts {
    pub(crate) refine: Vec<bool>,
    pub(crate) task: Vec<Option<Vec<char>>>,
}

impl KeyFacts {
    pub(crate) open spec fn tell(self, m: InventoryModel) -> bool {
        &&& self.refine@.len() == m.steps.len()
        &&& self.task@.len() == m.steps.len()
        &&& forall|i: int| 0 <= i < m.steps.len() ==> #[trigger] self.refine@[i] == m.refine(i)
        &&& forall|i: int| 0 <= i < m.steps.len() ==> optional_text(#[trigger] self.task@[i]) == m.task(i)
    }
}

impl CuInventory {
    /// What the keys tell.
    pub(crate) fn key_facts(&self) -> (facts: KeyFacts)
        ensures
            facts.tell(self@),
    {
        let mut refine: Vec<bool> = Vec::new();
        let mut task: Vec<Option<Vec<char>>> = Vec::new();
        let mut i: usize = 0;
        while i < self.steps.len()
            invariant
                i <= self.steps@.len(),
                refine@.len() == i,
                task@.len() == i,
                forall|j: int| 0 <= j < i ==> #[trigger] refine@[j] == self@.refine(j),
                forall|j: int| 0 <= j < i ==> optional_text(#[trigger] task@[j]) == self@.task(j),
            decreases self.steps@.len() - i,
        {
            let key: &str = self.steps[i].key.as_str();
            assert(self@.steps[i as int].key == key@);
            refine.push(is_refine(key));
            task.push(task_of_key(key));
            i = i + 1;
        }
        KeyFacts { refine, task }
    }

    /// The occurrence that refinement `i` refines.
    fn find_base(&self, facts: &KeyFacts, i: usize) -> (r: Option<usize>)
        requires
            facts.tell(self@),
            i < self@.steps.len(),
        ensures
            match r {
                Some(b) => self@.base(i as int) == Some(b as int),
                None => self@.base(i as int) is None,
            },
    {
        let n: usize = self.steps.len();
        let mut j: usize = 0;
        while j < n
            invariant
                j <= n,
                i < n,
                n == self@.steps.len(),
                n == self.steps@.len(),
                facts.tell(self@),
                self@.base(i as int) == self@.base_from(i as int, j as int),
            decreases n - j,
        {
            assert(self@.steps[i as int] == self.steps@[i as int]@ && self@.steps[j as int] == self.steps@[j as int]@);
            assert(facts.refine@[j as int] == self@.refine(j as int));
            assert(optional_text(facts.task@[j as int]) == self@.task(j as int));
            assert(optional_text(facts.task@[i as int]) == self@.task(i as int));
            if self.steps[j].copperlist == self.steps[i].copperlist && !facts.refine[j] && same_optional(
                &facts.task[j],
                &facts.task[i],
            ) {
                return Some(j);
            }
            j = j + 1;
        }
        None
    }

    /// The occurrences of each unit, and the unit of each occurrence.
    pub(crate) fn group_units(&self, facts: &KeyFacts) -> (r: CuResult<(Vec<Vec<usize>>, Vec<usize>)>)
        requires
            facts.tell(self@),
        ensures
            failure_text(r) == self@.refine_failure(self@.steps.len()),
            r matches Ok((units, unit_of)) ==> {
                &&& units@.len() == self@.unit_count()
                &&& forall|u: int| 0 <= u < units@.len() ==> (#[trigger] units@[u])@ == self@.unit_steps(u as nat)
                &&& unit_of@.len() == self@.steps.len()
                &&& forall|i: int|
                    0 <= i < unit_of@.len() ==> #[trigger] unit_of@[i] == self@.unit(i) && unit_of@[i] < units@.len()
            },
    {
        let n: usize = self.steps.len();
        let mut units: Vec<Vec<usize>> = Vec::new();
        let mut unit_of: Vec<usize> = Vec::new();
        let mut i: usize = 0;
        while i < n
            invariant
                i <= n,
                n == self@.steps.len(),
                n == self.steps@.len(),
                facts.tell(self@),
                self@.refine_failure(i as nat) is None,
                units@.len() == self@.bases(i as nat),
                units@.len() <= i,
                forall|u: int| 0 <= u < units@.len() ==> (#[trigger] units@[u])@ == self@.members(u as nat, i as nat),
                unit_of@.len() == i,
                forall|j: int| 0 <= j < i ==> #[trigger] unit_of@[j] == self@.unit(j) && unit_of@[j] < units@.len(),
            decreases n - i,
        {
            let ghost before = units@;
            assert(facts.refine@[i as int] == self@.refine(i as int));
            if facts.refine[i] {
                let base: Option<usize> = self.find_base(facts, i);
                let mut unit: Option<usize> = None;
                if let Some(b) = base {
                    if b < i {
                        unit = Some(unit_of[b]);
                    }
                }
                match unit {
                    None => {
                        proof {
                            lemma_refine_later(self@, (i + 1) as nat, n as nat);
                        }
                        assert(self@.steps[i as int].key == self.steps@[i as int].key@);
                        let mut m: String = "Refine step '".to_owned();
                        m.append(self.steps[i].key.as_str());
                        m.append("' has no base step before it");
                        return Err(CuError::new(m));
                    },
                    Some(u) => {
                        proof {
                            lemma_base_from(self@, i as int, 0);
                            assert(self@.unit(base->0 as int) == u);
                            assert(self@.unit(i as int) == u);
                        }
                        units[u].push(i);
                        unit_of.push(u);
                        proof {
                            assert forall|v: int| 0 <= v < units@.len() implies (#[trigger] units@[v])@ == self@.members(
                                v as nat,
                                (i + 1) as nat,
                            ) by {
                                assert(before[v]@ == self@.members(v as nat, i as nat));
                            }
                        }
                    },
                }
            } else {
                let u: usize = units.len();
                let mut unit: Vec<usize> = Vec::new();
                unit.push(i);
                units.push(unit);
                unit_of.push(u);
                proof {
                    lemma_members_new(self@, u as nat, i as nat);
                    assert forall|v: int| 0 <= v < units@.len() implies (#[trigger] units@[v])@ == self@.members(
                        v as nat,
                        (i + 1) as nat,
                    ) by {
                        if v < u {
                            assert(before[v]@ == self@.members(v as nat, i as nat));
                        } else {
                            assert(units@[v]@ =~= self@.members(u as nat, i as nat).push(i));
                        }
                    }
                }
            }
            i = i + 1;
        }
        Ok((units, unit_of))
    }
}

proof fn lemma_members_new(m: InventoryModel, u: nat, n: nat)
    requires
        n <= m.steps.len(),
        u >= m.bases(n),
        m.refine_failure(n) is None,
    ensures
        m.members(u, n).len() == 0,
    decreases n,
{
    if n > 0 {
        lemma_follows(m, n, n - 1);
        lemma_unit(m, n - 1, n);
        lemma_bases(m, (n - 1) as nat, n);
        lemma_members_new(m, u, (n - 1) as nat);
    }
}

pub(crate) proof fn lemma_members_in(m: InventoryModel, u: nat, n: nat, i: int)
    requires
        0 <= i < n <= usize::MAX,
        m.unit(i) == u,
    ensures
        m.members(u, n).contains(i as usize),
    decreases n,
{
    let all = m.members(u, n);
    if i + 1 == n {
        assert(all[all.len() - 1] == i as usize);
    } else {
        let rest = m.members(u, (n - 1) as nat);
        lemma_members_in(m, u, (n - 1) as nat, i);
        let at = choose|at: int| 0 <= at < rest.len() && rest[at] == i as usize;
        assert(all[at] == i as usize);
    }
}

pub(crate) proof fn lemma_members_known(m: InventoryModel, u: nat, n: nat)
    requires
        n <= usize::MAX,
    ensures
        forall|k: int| 0 <= k < m.members(u, n).len() ==> (#[trigger] m.members(u, n)[k]) < n,
    decreases n,
{
    if n > 0 {
        let rest = m.members(u, (n - 1) as nat);
        lemma_members_known(m, u, (n - 1) as nat);
        assert forall|k: int| 0 <= k < m.members(u, n).len() implies (#[trigger] m.members(u, n)[k]) < n by {
            if k < rest.len() {
                assert(rest[k] < n - 1);
            }
        }
    }
}

pub(crate) proof fn lemma_base_of_unit(m: InventoryModel, u: nat, n: nat) -> (i: int)
    requires
        u < m.bases(n),
    ensures
        0 <= i < n,
        !m.refine(i),
        m.bases(i as nat) == u,
    decreases n,
{
    if m.bases((n - 1) as nat) > u {
        lemma_base_of_unit(m, u, (n - 1) as nat)
    } else {
        n - 1
    }
}

/// Every unit has an occurrence, and its occurrences are known.
pub(crate) proof fn lemma_units(m: InventoryModel, u: nat)
    requires
        u < m.unit_count(),
        m.steps.len() <= usize::MAX,
    ensures
        m.unit_steps(u).len() > 0,
        forall|k: int| 0 <= k < m.unit_steps(u).len() ==> (#[trigger] m.unit_steps(u)[k]) < m.steps.len(),
{
    let i = lemma_base_of_unit(m, u, m.steps.len());
    lemma_members_in(m, u, m.steps.len(), i);
    lemma_members_known(m, u, m.steps.len());
}

proof fn lemma_base_first(m: InventoryModel, i: int, j: int)
    requires
        0 <= j,
    ensures
        match m.base_from(i, j) {
            Some(b) => j <= b < m.steps.len() && m.refines(i, b) && forall|k: int| j <= k < b ==> !#[trigger] m.refines(i, k),
            None => forall|k: int| j <= k < m.steps.len() ==> !#[trigger] m.refines(i, k),
        },
    decreases m.steps.len() - j,
{
    if j < m.steps.len() && !m.refines(i, j) {
        lemma_base_first(m, i, j + 1);
    }
}

/// Whether occurrence `j` is the step that occurrence `i` belongs to: itself,
/// or for a refinement the first step of the same task in the same CopperList
/// that is no refinement.
pub open spec fn belongs_to(m: InventoryModel, i: int, j: int) -> bool {
    if is_refine_key(m.steps[i].key) {
        &&& 0 <= j < m.steps.len()
        &&& m.steps[j].copperlist == m.steps[i].copperlist
        &&& key_task(m.steps[j].key) == key_task(m.steps[i].key)
        &&& !is_refine_key(m.steps[j].key)
        &&& forall|k: int|
            0 <= k < j && (#[trigger] m.steps[k]).copperlist == m.steps[i].copperlist && key_task(m.steps[k].key)
                == key_task(m.steps[i].key) ==> is_refine_key(m.steps[k].key)
    } else {
        i == j
    }
}

/// Refinements are in order exactly when each comes after the step that it
/// belongs to.
pub proof fn refinements_need_a_base(m: InventoryModel, n: nat)
    requires
        n <= m.steps.len(),
    ensures
        m.refine_failure(n) is None <==> forall|i: int|
            0 <= i < n && is_refine_key((#[trigger] m.steps[i]).key) ==> exists|j: int|
                0 <= j < i && #[trigger] belongs_to(m, i, j),
    decreases n,
{
    if n > 0 {
        refinements_need_a_base(m, (n - 1) as nat);
        let i = n - 1;
        lemma_base_first(m, i, 0);
        if is_refine_key(m.steps[i].key) {
            if m.base(i) is Some {
                let b = m.base(i)->0;
                assert forall|k: int|
                    0 <= k < b && (#[trigger] m.steps[k]).copperlist == m.steps[i].copperlist && key_task(m.steps[k].key)
                        == key_task(m.steps[i].key) implies is_refine_key(m.steps[k].key) by {
                    assert(!m.refines(i, k));
                }
                assert(belongs_to(m, i, b));
            }
            if exists|j: int| 0 <= j < i && #[trigger] belongs_to(m, i, j) {
                let j = choose|j: int| 0 <= j < i && #[trigger] belongs_to(m, i, j);
                assert(m.refines(i, j));
                assert(m.base(i) is Some);
                let b = m.base(i)->0;
                if b != j {
                    assert(m.refines(i, b));
                    assert(b < j);
                    assert(is_refine_key(m.steps[b].key));
                }
            }
        }
    }
}

/// Different steps that are no refinements have different units.
proof fn lemma_bases_differ(m: InventoryModel, a: int, b: int)
    requires
        0 <= a < b,
        !m.refine(a),
    ensures
        m.bases(a as nat) < m.bases(b as nat),
{
    lemma_bases(m, (a + 1) as nat, b as nat);
}

/// Two occurrences are in the same unit exactly when they belong to the same
/// step: an anytime task's phases of one CopperList run together, and nothing
/// else does.
pub proof fn units_are_steps_with_their_refinements(m: InventoryModel, i: int, a: int, j: int, b: int)
    requires
        0 <= i < m.steps.len(),
        0 <= j < m.steps.len(),
        belongs_to(m, i, a),
        belongs_to(m, j, b),
    ensures
        m.unit(i) == m.unit(j) <==> a == b,
{
    lemma_unit_of_base(m, i, a);
    lemma_unit_of_base(m, j, b);
    if a < b {
        lemma_bases_differ(m, a, b);
    }
    if b < a {
        lemma_bases_differ(m, b, a);
    }
}

proof fn lemma_unit_of_base(m: InventoryModel, i: int, a: int)
    requires
        0 <= i < m.steps.len(),
        belongs_to(m, i, a),
    ensures
        m.unit(i) == m.bases(a as nat),
        !m.refine(a),
        0 <= a < m.steps.len(),
{
    if m.refine(i) {
        lemma_base_first(m, i, 0);
        assert(m.refines(i, a));
        let c = m.base(i)->0;
        if c != a {
            assert(m.refines(i, c));
            assert(c < a);
            assert(is_refine_key(m.steps[c].key));
        }
    }
}

proof fn lemma_members_exact(m: InventoryModel, u: nat, n: nat)
    requires
        n <= usize::MAX,
    ensures
        forall|i: usize| #[trigger] m.members(u, n).contains(i) <==> i < n && m.unit(i as int) == u,
        forall|j: int, k: int|
            0 <= j < k < m.members(u, n).len() ==> (#[trigger] m.members(u, n)[j]) < (#[trigger] m.members(u, n)[k]),
    decreases n,
{
    if n > 0 {
        let rest = m.members(u, (n - 1) as nat);
        let all = m.members(u, n);
        lemma_members_exact(m, u, (n - 1) as nat);
        lemma_members_known(m, u, (n - 1) as nat);
        assert forall|i: usize| #[trigger] all.contains(i) <==> i < n && m.unit(i as int) == u by {
            if rest.contains(i) {
                let k = rest.index_of(i);
                assert(all[k] == i);
            }
            if all.contains(i) {
                let k = all.index_of(i);
                if k < rest.len() {
                    assert(rest[k] == i);
                    assert(rest.contains(i));
                }
            }
            if i == n - 1 && m.unit(i as int) == u {
                assert(all[rest.len() as int] == i);
            }
        }
        assert forall|j: int, k: int| 0 <= j < k < all.len() implies (#[trigger] all[j]) < (#[trigger] all[k]) by {
            assert(all[j] == rest[j]);
            if k < rest.len() {
                assert(all[k] == rest[k]);
            }
        }
    }
}

/// The units of an inventory hold each occurrence in exactly one of them, in
/// execution order, behind the step that it belongs to, and are in the order of
/// those steps.
pub proof fn units_hold_every_occurrence_once(m: InventoryModel, i: int, a: int)
    requires
        m.steps.len() <= usize::MAX,
        m.refine_failure(m.steps.len()) is None,
        0 <= i < m.steps.len(),
        belongs_to(m, i, a),
    ensures
        m.unit(i) < m.unit_count(),
        forall|u: nat| #[trigger] m.unit_steps(u).contains(i as usize) <==> u == m.unit(i),
        m.unit_steps(m.unit(i))[0] == a,
        forall|u: nat, j: int, k: int|
            0 <= j < k < m.unit_steps(u).len() ==> (#[trigger] m.unit_steps(u)[j]) < (#[trigger] m.unit_steps(u)[k]),
        forall|j: int, b: int|
            0 <= j < m.steps.len() && a < b && #[trigger] belongs_to(m, j, b) ==> m.unit(i) < m.unit(j),
{
    let n = m.steps.len();
    lemma_follows(m, n, i);
    lemma_unit(m, i, n);
    let u = m.unit(i);
    assert forall|u: nat| #[trigger] m.unit_steps(u).contains(i as usize) <==> u == m.unit(i) by {
        lemma_members_exact(m, u, n);
    }
    assert forall|u: nat, j: int, k: int| 0 <= j < k < m.unit_steps(u).len() implies (#[trigger] m.unit_steps(u)[j]) < (
    #[trigger] m.unit_steps(u)[k]) by {
        lemma_members_exact(m, u, n);
    }
    lemma_unit_of_base(m, i, a);
    lemma_members_exact(m, u, n);
    let list = m.unit_steps(u);
    assert(m.unit(a) == u);
    assert(list.contains(a as usize));
    let first = list[0] as int;
    assert(list.contains(list[0]));
    assert(m.unit(first) == u);
    if first != a {
        let at = list.index_of(a as usize);
        assert(list[0] < list[at]);
        lemma_follows(m, n, first);
        if m.refine(first) {
            lemma_base_first(m, first, 0);
            let c = m.base(first)->0;
            assert(m.bases(c as nat) == m.bases(a as nat));
            lemma_bases_differ(m, c, a);
        } else {
            lemma_bases_differ(m, first, a);
        }
    }
    assert forall|j: int, b: int| 0 <= j < n && a < b && #[trigger] belongs_to(m, j, b) implies m.unit(i) < m.unit(j) by {
        lemma_unit_of_base(m, j, b);
        lemma_bases_differ(m, a, b);
    }
}

/// Of the refinements without a base before them, the first is told.
pub proof fn the_first_stray_refinement_is_told(m: InventoryModel, i: int, n: nat)
    requires
        0 <= i < n <= m.steps.len(),
        !m.follows_base(i),
        forall|j: int| 0 <= j < i ==> #[trigger] m.follows_base(j),
    ensures
        m.refine_failure(n) == Some("Refine step '"@ + m.steps[i].key + "' has no base step before it"@),
    decreases n,
{
    if i == n - 1 {
        lemma_none_stray(m, i as nat);
    } else {
        the_first_stray_refinement_is_told(m, i, (n - 1) as nat);
    }
}

proof fn lemma_none_stray(m: InventoryModel, n: nat)
    requires
        forall|j: int| 0 <= j < n ==> #[trigger] m.follows_base(j),
    ensures
        m.refine_failure(n) is None,
    decreases n,
{
    if n > 0 {
        lemma_none_stray(m, (n - 1) as nat);
        assert(m.follows_base(n - 1));
    }
}

} // verus!
