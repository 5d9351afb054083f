//! A measured plan profile from a recorded log.
//!
//! Per-task durations come from the `process()` window that every message
//! carries; no extra instrumentation is involved.

use crate::assembled::CuExecutionLoop;
use crate::error::failure_text;
use crate::error::CuResult;
use crate::logstats::collect_output_packs;
use crate::logstats::output_packs;
use crate::logstats::packs_failure;
use crate::logstats::step_durations;
use crate::signature::CuGraph;
use crate::stats::build_pack_ranges;
use crate::stats::duration_stats_from;
use crate::stats::durations_are_summed_up;
use crate::stats::lemma_pack_offset;
use crate::stats::mean;
use crate::stats::most;
use crate::stats::numbers;
use crate::stats::pack_offset;
use crate::stats::pack_ranges;
use crate::stats::packs_of;
use crate::stats::ranges_of;
use crate::stats::sample_step_duration_ns;
use crate::stats::total;
use crate::stats::DurationStats;
use crate::stats::OutputPackInfo;
use crate::stats::PackModel;
use crate::stats::PackRange;
use crate::stats::RecordedCopperList;
use crate::strmap::lemma_entry;
use crate::strmap::StrMap;
use crate::sums::places;
use crate::sums::sum;
use vstd::prelude::*;

verus! {

/// Which statistic of the sampled durations fills the profile.
#[derive(Debug, Clone, Copy, PartialEq, Eq, Structural)]
pub enum ProfileStat {
    /// Arithmetic mean of the samples.
    Mean,
    /// 99th percentile: robust to outliers, still pessimistic.
    P99,
    /// Largest observed sample.
    Max,
}

impl Default for ProfileStat {
    fn default() -> (r: Self)
        ensures
            r == ProfileStat::Mean,
    {
        ProfileStat::Mean
    }
}

/// A duration per task.
#[derive(Debug, PartialEq, Eq)]
pub struct PlanProfile {
    pub task_duration_ns: StrMap<u64>,
}

/// Order of durations.
pub open spec fn ascending() -> spec_fn(u64, u64) -> bool {
    |a: u64, b: u64| a <= b
}

/// The durations in ascending order.
pub open spec fn in_order(durations: Seq<u64>) -> Seq<u64> {
    durations.sort_by(ascending())
}

/// The place of the 99th percentile among `n` ordered durations.
pub open spec fn p99_place(n: nat) -> int {
    (n - 1) * 99 / 100
}

/// A statistic of some durations.
pub open spec fn statistic(durations: Seq<u64>, stat: ProfileStat) -> u64 {
    match stat {
        ProfileStat::Mean => mean(durations)->0,
        ProfileStat::P99 => in_order(durations)[p99_place(durations.len())],
        ProfileStat::Max => most(durations)->0,
    }
}

/// The statistic of every task that has a sample.
pub open spec fn statistics(samples: Map<Seq<char>, Seq<u64>>, stat: ProfileStat) -> Map<Seq<char>, u64> {
    Map::new(
        |task: Seq<char>| samples.dom().contains(task) && samples[task].len() > 0,
        |task: Seq<char>| statistic(samples[task], stat),
    )
}

/// What a map of samples holds.
pub open spec fn samples_of(samples: Map<Seq<char>, Vec<u64>>) -> Map<Seq<char>, Seq<u64>> {
    Map::new(|task: Seq<char>| samples.dom().contains(task), |task: Seq<char>| samples[task]@)
}

/// Merges two ordered lists.
fn merge(a: &Vec<u64>, b: &Vec<u64>) -> (r: Vec<u64>)
    requires
        vstd::relations::sorted_by(a@, ascending()),
        vstd::relations::sorted_by(b@, ascending()),
    ensures
        vstd::relations::sorted_by(r@, ascending()),
        r@.to_multiset() == a@.to_multiset().add(b@.to_multiset()),
{
    broadcast use vstd::seq_lib::group_to_multiset_ensures;

    let mut r: Vec<u64> = Vec::new();
    let mut i: usize = 0;
    let mut j: usize = 0;
    proof {
        assert(a@.take(0) =~= Seq::<u64>::empty());
        assert(b@.take(0) =~= Seq::<u64>::empty());
        assert(r@.to_multiset() =~= a@.take(0).to_multiset().add(b@.take(0).to_multiset()));
    }
    while i < a.len() || j < b.len()
        invariant
            i <= a@.len(),
            j <= b@.len(),
            vstd::relations::sorted_by(a@, ascending()),
            vstd::relations::sorted_by(b@, ascending()),
            forall|x: int, y: int| 0 <= x < y < r@.len() ==> #[trigger] r@[x] <= #[trigger] r@[y],
            forall|x: int, y: int| 0 <= x < r@.len() && i <= y < a@.len() ==> #[trigger] r@[x] <= #[trigger] a@[y],
            forall|x: int, y: int| 0 <= x < r@.len() && j <= y < b@.len() ==> #[trigger] r@[x] <= #[trigger] b@[y],
            r@.to_multiset() == a@.take(i as int).to_multiset().add(b@.take(j as int).to_multiset()),
        decreases a@.len() - i + b@.len() - j,
    {
        let left: bool = if i == a.len() {
            false
        } else if j == b.len() {
            true
        } else {
            a[i] <= b[j]
        };
        let ghost before = r@;
        if left {
            let x: u64 = a[i];
            proof {
                assert forall|y: int| i <= y < a@.len() implies x <= #[trigger] a@[y] by {
                    if i < y {
                        assert(ascending()(a@[i as int], a@[y]));
                    }
                }
                assert forall|y: int| j <= y < b@.len() implies x <= #[trigger] b@[y] by {
                    if j < y {
                        assert(ascending()(b@[j as int], b@[y]));
                    }
                }
                assert(a@.take(i + 1) =~= a@.take(i as int).push(x));
            }
            r.push(x);
            proof {
                vstd::seq_lib::to_multiset_build(before, x);
                vstd::seq_lib::to_multiset_build(a@.take(i as int), x);
                assert(r@.to_multiset() =~= a@.take(i + 1).to_multiset().add(b@.take(j as int).to_multiset()));
            }
            i = i + 1;
        } else {
            let x: u64 = b[j];
            proof {
                assert forall|y: int| i <= y < a@.len() implies x <= #[trigger] a@[y] by {
                    if i < y {
                        assert(ascending()(a@[i as int], a@[y]));
                    }
                }
                assert forall|y: int| j <= y < b@.len() implies x <= #[trigger] b@[y] by {
                    if j < y {
                        assert(ascending()(b@[j as int], b@[y]));
                    }
                }
                assert(b@.take(j + 1) =~= b@.take(j as int).push(x));
            }
            r.push(x);
            proof {
                vstd::seq_lib::to_multiset_build(before, x);
                vstd::seq_lib::to_multiset_build(b@.take(j as int), x);
                assert(r@.to_multiset() =~= a@.take(i as int).to_multiset().add(b@.take(j + 1).to_multiset()));
            }
            j = j + 1;
        }
    }
    proof {
        assert(a@.take(i as int) =~= a@);
        assert(b@.take(j as int) =~= b@);
    }
    r
}

/// The durations `lo..hi` in ascending order.
fn sort_range(durations: &Vec<u64>, lo: usize, hi: usize) -> (r: Vec<u64>)
    requires
        lo <= hi <= durations@.len(),
    ensures
        vstd::relations::sorted_by(r@, ascending()),
        r@.to_multiset() == durations@.subrange(lo as int, hi as int).to_multiset(),
    decreases hi - lo,
{
    let ghost part = durations@.subrange(lo as int, hi as int);
    if hi - lo <= 1 {
        let mut r: Vec<u64> = Vec::new();
        if lo < hi {
            r.push(durations[lo]);
        }
        assert(r@ =~= part);
        return r;
    }
    let mid: usize = lo + (hi - lo) / 2;
    let a: Vec<u64> = sort_range(durations, lo, mid);
    let b: Vec<u64> = sort_range(durations, mid, hi);
    proof {
        let x = durations@.subrange(lo as int, mid as int);
        let y = durations@.subrange(mid as int, hi as int);
        assert(part =~= x + y);
        vstd::seq_lib::lemma_multiset_commutative(x, y);
    }
    merge(&a, &b)
}

/// The durations in ascending order.
fn sort(durations: &Vec<u64>) -> (r: Vec<u64>)
    ensures
        r@ == in_order(durations@),
{
    let r: Vec<u64> = sort_range(durations, 0, durations.len());
    proof {
        let d = durations@;
        assert(d.subrange(0, d.len() as int) =~= d);
        let leq = ascending();
        assert(vstd::relations::total_ordering(leq));
        d.lemma_sort_by_ensures(leq);
        vstd::seq_lib::lemma_sorted_unique(r@, d.sort_by(leq), leq);
    }
    r
}

/// A statistic of some durations.
fn pick_statistic(durations: &Vec<u64>, stat: ProfileStat) -> (r: u64)
    requires
        durations@.len() > 0,
    ensures
        r == statistic(durations@, stat),
{
    match stat {
        ProfileStat::Mean => {
            let d: DurationStats = duration_stats_from(durations);
            d.mean_ns.unwrap()
        },
        ProfileStat::P99 => {
            let sorted: Vec<u64> = sort(durations);
            proof {
                broadcast use vstd::seq_lib::group_to_multiset_ensures;

                assert(vstd::relations::total_ordering(ascending()));
                durations@.lemma_sort_by_ensures(ascending());
                assert(sorted@.len() == sorted@.to_multiset().len());
                assert(durations@.len() == durations@.to_multiset().len());
            }
            let last: u128 = (sorted.len() - 1) as u128;
            let place: usize = (last * 99 / 100) as usize;
            sorted[place]
        },
        ProfileStat::Max => {
            let d: DurationStats = duration_stats_from(durations);
            proof {
                crate::stats::mean_lies_between_bounds(durations@);
            }
            d.max_ns.unwrap()
        },
    }
}

/// The requested statistic of every task that has a sample.
pub fn finalize_samples(samples: &StrMap<Vec<u64>>, stat: ProfileStat) -> (r: StrMap<u64>)
    ensures
        r.map() == statistics(samples_of(samples.map()), stat),
{
    let ghost all = samples_of(samples.map());
    let mut r: StrMap<u64> = StrMap::new();
    let mut i: usize = 0;
    let n: usize = samples.len();
    proof {
        assert forall|k: int| 0 <= k < n implies samples.map().dom().contains(#[trigger] samples.keys()[k])
            && samples.map()[samples.keys()[k]] == samples.values()[k] by {
            lemma_entry(*samples, k);
        }
    }
    while i < n
        invariant
            i <= n,
            n == samples.keys().len(),
            samples.keys().len() == samples.values().len(),
            all == samples_of(samples.map()),
            forall|k: int|
                0 <= k < n ==> samples.map().dom().contains(#[trigger] samples.keys()[k]) && samples.map()[samples.keys()[k]]
                    == samples.values()[k],
            forall|task: Seq<char>| #[trigger]
                r.map().dom().contains(task) <==> (exists|k: int|
                    0 <= k < i && #[trigger] samples.keys()[k] == task && samples.values()[k]@.len() > 0),
            forall|task: Seq<char>| #[trigger]
                r.map().dom().contains(task) ==> r.map()[task] == statistic(all[task], stat),
        decreases n - i,
    {
        let durations: &Vec<u64> = samples.value_at(i);
        assert(samples.map()[samples.keys()[i as int]] == samples.values()[i as int]);
        if durations.len() > 0 {
            let value: u64 = pick_statistic(durations, stat);
            r.insert(samples.key_at(i).clone(), value);
        }
        i = i + 1;
    }
    proof {
        let goal = statistics(all, stat);
        assert forall|task: Seq<char>| #[trigger] goal.dom().contains(task) implies r.map().dom().contains(task) by {
            let k = samples.keys().index_of(task);
            assert(samples.keys().contains(task));
            assert(samples.keys()[k] == task);
        }
        assert(r.map() =~= goal);
    }
    r
}

// ---------------------------------------------------------------------------
// Recordings
// ---------------------------------------------------------------------------

/// The durations of a task: those of its steps among the first `n`.
pub open spec fn task_durations(
    packs: Seq<PackModel>,
    culists: Seq<RecordedCopperList>,
    task: Seq<char>,
    n: nat,
) -> Seq<u64>
    decreases n,
{
    if n == 0 {
        Seq::empty()
    } else {
        let rest = task_durations(packs, culists, task, (n - 1) as nat);
        if packs[n - 1].src == task {
            rest + step_durations(pack_ranges(packs)[n - 1], culists, culists.len())
        } else {
            rest
        }
    }
}

/// The statistic of every task whose steps were sampled.
pub open spec fn profile_of(packs: Seq<PackModel>, culists: Seq<RecordedCopperList>, stat: ProfileStat) -> Map<
    Seq<char>,
    u64,
> {
    Map::new(
        |task: Seq<char>| task_durations(packs, culists, task, packs.len()).len() > 0,
        |task: Seq<char>| statistic(task_durations(packs, culists, task, packs.len()), stat),
    )
}

/// The durations of one step across a recording, after those of `before`.
fn sample_step(before: Option<&Vec<u64>>, culists: &Vec<RecordedCopperList>, range: &PackRange) -> (r: Vec<u64>)
    requires
        range.start + range.len <= usize::MAX,
    ensures
        r@ == (match before {
            Some(list) => list@,
            None => Seq::<u64>::empty(),
        }) + step_durations(range@, culists@, culists@.len()),
{
    let mut r: Vec<u64> = match before {
        Some(list) => list.clone(),
        None => Vec::new(),
    };
    let ghost start = r@;
    proof {
        match before {
            Some(list) => {
                assert(r@ =~= list@);
            },
            None => {},
        }
    }
    let mut i: usize = 0;
    assert(start + Seq::<u64>::empty() =~= start);
    while i < culists.len()
        invariant
            i <= culists@.len(),
            range.start + range.len <= usize::MAX,
            r@ == start + step_durations(range@, culists@, i as nat),
        decreases culists@.len() - i,
    {
        let ghost so_far = step_durations(range@, culists@, i as nat);
        if let Some(duration) = sample_step_duration_ns(&culists[i].msgs, range) {
            r.push(duration);
            assert(r@ =~= start + so_far.push(duration));
        }
        i = i + 1;
    }
    r
}

/// Whether a map holds the durations of the tasks of the first `n` steps.
spec fn holds_samples(
    samples: Map<Seq<char>, Vec<u64>>,
    packs: Seq<PackModel>,
    culists: Seq<RecordedCopperList>,
    n: nat,
) -> bool {
    forall|task: Seq<char>|
        #![trigger samples.dom().contains(task)]
        (if samples.dom().contains(task) {
            samples[task]@
        } else {
            Seq::<u64>::empty()
        }) == task_durations(packs, culists, task, n)
}

/// Measures a plan profile: the requested statistic of each task's durations.
pub fn compute_schedule_profile(
    graph: &CuGraph,
    plan: &CuExecutionLoop,
    culists: &Vec<RecordedCopperList>,
    stat: ProfileStat,
) -> (r: CuResult<PlanProfile>)
    requires
        output_packs(*plan, *graph) matches Some(packs) ==> pack_offset(packs, packs.len()) <= usize::MAX,
    ensures
        failure_text(r) == packs_failure(*plan, *graph),
        r matches Ok(profile) ==> profile.task_duration_ns.map() == profile_of(
            output_packs(*plan, *graph)->0,
            culists@,
            stat,
        ),
{
    let packs: Vec<OutputPackInfo> = match collect_output_packs(plan, graph) {
        Ok(packs) => packs,
        Err(e) => {
            return Err(e);
        },
    };
    let ghost list = packs_of(packs@);
    let ranges: Vec<PackRange> = build_pack_ranges(&packs);
    let mut samples: StrMap<Vec<u64>> = StrMap::new();
    let mut i: usize = 0;
    assert(ranges@.len() == ranges_of(ranges@).len());
    while i < ranges.len()
        invariant
            i <= ranges@.len(),
            ranges_of(ranges@) == pack_ranges(list),
            ranges@.len() == list.len(),
            pack_offset(list, list.len()) <= usize::MAX,
            holds_samples(samples.map(), list, culists@, i as nat),
        decreases ranges@.len() - i,
    {
        let range: &PackRange = &ranges[i];
        proof {
            assert(range@ == pack_ranges(list)[i as int]);
            lemma_pack_offset(list, (i + 1) as nat, list.len());
        }
        let ghost before = samples.map();
        let durations: Vec<u64> = sample_step(samples.get(range.task.as_str()), culists, range);
        samples.insert(range.task.clone(), durations);
        proof {
            assert forall|task: Seq<char>|
                #![trigger samples.map().dom().contains(task)]
                (if samples.map().dom().contains(task) {
                    samples.map()[task]@
                } else {
                    Seq::<u64>::empty()
                }) == task_durations(list, culists@, task, (i + 1) as nat) by {
                assert(before.dom().contains(task) || !before.dom().contains(task));
            }
        }
        i = i + 1;
    }
    let task_duration_ns: StrMap<u64> = finalize_samples(&samples, stat);
    proof {
        let all = samples_of(samples.map());
        assert forall|task: Seq<char>|
            #![trigger task_durations(list, culists@, task, list.len())]
            task_durations(list, culists@, task, list.len()) == (if samples.map().dom().contains(task) {
                samples.map()[task]@
            } else {
                Seq::<u64>::empty()
            }) by {}
        assert(statistics(all, stat) =~= profile_of(list, culists@, stat));
    }
    Ok(PlanProfile { task_duration_ns })
}

// ---------------------------------------------------------------------------
// Laws
// ---------------------------------------------------------------------------

proof fn lemma_total_remove(d: Seq<u64>, k: int)
    requires
        0 <= k < d.len(),
    ensures
        total(d) == total(d.remove(k)) + d[k] as nat,
    decreases d.len(),
{
    if k == d.len() - 1 {
        assert(d.remove(k) =~= d.drop_last());
    } else {
        lemma_total_remove(d.drop_last(), k);
        assert(d.remove(k).drop_last() =~= d.drop_last().remove(k));
        assert(d.remove(k).last() == d.last());
    }
}

proof fn lemma_total_same(a: Seq<u64>, b: Seq<u64>)
    requires
        a.to_multiset() == b.to_multiset(),
    ensures
        total(a) == total(b),
        a.len() == b.len(),
    decreases a.len(),
{
    broadcast use vstd::seq_lib::group_to_multiset_ensures;

    assert(a.len() == a.to_multiset().len());
    assert(b.len() == b.to_multiset().len());
    if a.len() > 0 {
        let x = a.last();
        assert(a[a.len() - 1] == x);
        assert(a.to_multiset().count(x) > 0);
        vstd::seq_lib::to_multiset_contains(b, x);
        let k = b.index_of(x);
        vstd::seq_lib::to_multiset_remove(b, k);
        vstd::seq_lib::to_multiset_remove(a, a.len() - 1);
        assert(a.remove(a.len() - 1) =~= a.drop_last());
        lemma_total_same(a.drop_last(), b.remove(k));
        lemma_total_remove(b, k);
    }
}

proof fn lemma_most(d: Seq<u64>)
    requires
        d.len() > 0,
    ensures
        most(d) is Some,
        d.contains(most(d)->0),
        forall|i: int| 0 <= i < d.len() ==> #[trigger] d[i] <= most(d)->0,
    decreases d.len(),
{
    let rest = d.drop_last();
    if rest.len() > 0 {
        lemma_most(rest);
        let k = rest.index_of(most(rest)->0);
        assert(d[k] == rest[k]);
        assert(d[d.len() - 1] == d.last());
        assert forall|i: int| 0 <= i < d.len() implies #[trigger] d[i] <= most(d)->0 by {
            if i < rest.len() {
                assert(rest[i] == d[i]);
            }
        }
    } else {
        assert(most(rest) is None);
        assert(d[0] == d.last());
    }
}

/// A statistic does not depend on the order in which the samples came.
pub proof fn statistic_ignores_order(a: Seq<u64>, b: Seq<u64>, stat: ProfileStat)
    requires
        a.len() > 0,
        a.to_multiset() == b.to_multiset(),
    ensures
        statistic(a, stat) == statistic(b, stat),
{
    broadcast use vstd::seq_lib::group_to_multiset_ensures;

    lemma_total_same(a, b);
    let leq = ascending();
    assert(vstd::relations::total_ordering(leq));
    a.lemma_sort_by_ensures(leq);
    b.lemma_sort_by_ensures(leq);
    vstd::seq_lib::lemma_sorted_unique(a.sort_by(leq), b.sort_by(leq), leq);
    lemma_most(a);
    lemma_most(b);
    let x = most(a)->0;
    let y = most(b)->0;
    assert(a.to_multiset().count(x) > 0);
    vstd::seq_lib::to_multiset_contains(b, x);
    assert(b.to_multiset().count(y) > 0);
    vstd::seq_lib::to_multiset_contains(a, y);
}

/// No statistic exceeds the largest sample.
pub proof fn statistics_are_below_the_maximum(d: Seq<u64>, stat: ProfileStat)
    requires
        d.len() > 0,
    ensures
        statistic(d, stat) <= statistic(d, ProfileStat::Max),
{
    broadcast use vstd::seq_lib::group_to_multiset_ensures;

    crate::stats::mean_lies_between_bounds(d);
    let leq = ascending();
    assert(vstd::relations::total_ordering(leq));
    d.lemma_sort_by_ensures(leq);
    let sorted = in_order(d);
    assert(sorted.len() == sorted.to_multiset().len());
    assert(d.len() == d.to_multiset().len());
    let place = p99_place(d.len());
    assert(sorted.contains(sorted[place]));
    assert(d.contains(sorted[place]));
    lemma_most(d);
}

/// Whether a step writes for that task.
pub open spec fn writes_for(packs: Seq<PackModel>, task: Seq<char>) -> spec_fn(int) -> bool {
    |i: int| packs[i].src == task
}

/// The durations of one step.
pub open spec fn sampled(packs: Seq<PackModel>, culists: Seq<RecordedCopperList>) -> spec_fn(int) -> Seq<u64> {
    |i: int| step_durations(pack_ranges(packs)[i], culists, culists.len())
}

/// The durations of a task are those of every step that writes for it, step by
/// step.
pub proof fn every_step_of_a_task_is_sampled(
    packs: Seq<PackModel>,
    culists: Seq<RecordedCopperList>,
    task: Seq<char>,
    n: nat,
)
    ensures
        task_durations(packs, culists, task, n) == places(n).filter(writes_for(packs, task)).map_values(
            sampled(packs, culists),
        ).flatten(),
    decreases n,
{
    reveal(Seq::filter);
    let f = writes_for(packs, task);
    let g = sampled(packs, culists);
    let all = places(n).filter(f).map_values(g);
    if n == 0 {
        assert(places(n).filter(f) =~= Seq::<int>::empty());
        assert(all =~= Seq::<Seq<u64>>::empty());
    } else {
        every_step_of_a_task_is_sampled(packs, culists, task, (n - 1) as nat);
        assert(places(n).drop_last() =~= places((n - 1) as nat));
        assert(places(n).last() == n - 1);
        let rest = places((n - 1) as nat).filter(f).map_values(g);
        if packs[n - 1].src == task {
            assert(all =~= rest.push(g(n - 1)));
            rest.lemma_flatten_push(g(n - 1));
        } else {
            assert(all =~= rest);
        }
    }
}

/// The 99th percentile of `n` durations is at place `p` of their ascending order,
/// the last one that is not past 99 hundredths of the way from the first to the
/// last; the mean is the sum over the number, rounded down; and the maximum is
/// one of them that none exceeds.
pub proof fn statistics_summarize(d: Seq<u64>, s: Seq<u64>, p: int)
    requires
        d.len() > 0,
        s.to_multiset() == d.to_multiset(),
        forall|i: int, j: int| 0 <= i < j < s.len() ==> #[trigger] s[i] <= #[trigger] s[j],
        100 * p <= 99 * (d.len() - 1) < 100 * (p + 1),
    ensures
        statistic(d, ProfileStat::P99) == s[p],
        statistic(d, ProfileStat::Mean) * d.len() <= sum(numbers(d)) < (statistic(d, ProfileStat::Mean) + 1) * d.len(),
        d.contains(statistic(d, ProfileStat::Max)),
        forall|i: int| 0 <= i < d.len() ==> #[trigger] d[i] <= statistic(d, ProfileStat::Max),
{
    durations_are_summed_up(d);
    assert(p99_place(d.len()) == p);
    assert(vstd::relations::total_ordering(ascending()));
    d.lemma_sort_by_ensures(ascending());
    let t = in_order(d);
    assert(vstd::relations::sorted_by(s, ascending())) by {
        assert forall|i: int, j: int| 0 <= i < j < s.len() implies (ascending())(s[i], s[j]) by {
            assert(s[i] <= s[j]);
        }
    }
    vstd::seq_lib::lemma_sorted_unique(s, t, ascending());
}

/// A task is told of exactly when one of its steps was sampled, with the
/// statistic of all its durations.
pub proof fn sampled_tasks_are_told_of(
    packs: Seq<PackModel>,
    culists: Seq<RecordedCopperList>,
    stat: ProfileStat,
    task: Seq<char>,
)
    ensures
        ({
            let d = places(packs.len()).filter(writes_for(packs, task)).map_values(sampled(packs, culists)).flatten();
            &&& profile_of(packs, culists, stat).dom().contains(task) <==> d.len() > 0
            &&& d.len() > 0 ==> profile_of(packs, culists, stat)[task] == statistic(d, stat)
        }),
{
    every_step_of_a_task_is_sampled(packs, culists, task, packs.len());
}

} // verus!
