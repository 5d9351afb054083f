//! Statistics of a recording: what travels on each connection, how long each
//! step of the plan takes, and the throughput that follows from it.

use crate::schedule::texts;
use crate::signature::maybe_text;
use crate::sums::lemma_sum_empty;
use crate::sums::lemma_sum_push;
use crate::sums::sum;
use crate::text::dec;
use crate::text::push_dec;
use vstd::prelude::*;

verus! {

pub const NANOS_PER_SEC: u64 = 1_000_000_000;

/// A non-negative number as a quotient.
#[derive(Clone, Copy, Debug, PartialEq, Eq, Structural)]
pub struct Ratio {
    pub num: u128,
    pub den: u128,
}

/// The `process()` window that a message carries.
#[derive(Clone, Copy, Debug, PartialEq, Eq, Structural)]
pub struct TimeWindow {
    pub start_ns: Option<u64>,
    pub end_ns: Option<u64>,
}

/// What a recording holds of one CopperList.
#[derive(Debug)]
pub struct RecordedCopperList {
    pub id: u64,
    /// Per message: the size of its payload, `None` without one.
    pub payload_raw_bytes: Vec<Option<u64>>,
    pub msgs: Vec<TimeWindow>,
}

pub open spec fn lesser(a: u64, b: u64) -> u64 {
    if a <= b {
        a
    } else {
        b
    }
}

pub open spec fn greater(a: u64, b: u64) -> u64 {
    if a >= b {
        a
    } else {
        b
    }
}

/// The lesser of a bound so far and a value.
pub open spec fn lower(so_far: Option<u64>, value: Option<u64>) -> Option<u64> {
    match (so_far, value) {
        (Some(a), Some(b)) => Some(lesser(a, b)),
        (None, Some(b)) => Some(b),
        (_, None) => so_far,
    }
}

/// The greater of a bound so far and a value.
pub open spec fn raise(so_far: Option<u64>, value: Option<u64>) -> Option<u64> {
    match (so_far, value) {
        (Some(a), Some(b)) => Some(greater(a, b)),
        (None, Some(b)) => Some(b),
        (_, None) => so_far,
    }
}

fn lower_bound(so_far: Option<u64>, value: u64) -> (r: Option<u64>)
    ensures
        r == lower(so_far, Some(value)),
{
    match so_far {
        Some(a) => if a <= value {
            Some(a)
        } else {
            Some(value)
        },
        None => Some(value),
    }
}

fn upper_bound(so_far: Option<u64>, value: u64) -> (r: Option<u64>)
    ensures
        r == raise(so_far, Some(value)),
{
    match so_far {
        Some(a) => if a >= value {
            Some(a)
        } else {
            Some(value)
        },
        None => Some(value),
    }
}

/// The sum, held at the largest number.
pub open spec fn capped_sum(a: u64, b: u64) -> u64 {
    if a + b > u64::MAX {
        u64::MAX
    } else {
        (a + b) as u64
    }
}

// ---------------------------------------------------------------------------
// Connections
// ---------------------------------------------------------------------------

/// What identifies a connection.
#[derive(Debug, PartialEq, Eq)]
pub struct EdgeKey {
    pub src: String,
    pub src_channel: Option<String>,
    pub dst: String,
    pub dst_channel: Option<String>,
    pub msg: String,
}

/// What a key says.
pub struct EdgeModel {
    pub src: Seq<char>,
    pub src_channel: Option<Seq<char>>,
    pub dst: Seq<char>,
    pub dst_channel: Option<Seq<char>>,
    pub msg: Seq<char>,
}

impl View for EdgeKey {
    type V = EdgeModel;

    open spec fn view(&self) -> EdgeModel {
        EdgeModel {
            src: self.src@,
            src_channel: maybe_text(self.src_channel),
            dst: self.dst@,
            dst_channel: maybe_text(self.dst_channel),
            msg: self.msg@,
        }
    }
}

/// Counts what travels on one connection.
#[derive(Clone, Copy, Debug, PartialEq, Eq, Structural)]
pub struct EdgeAccumulator {
    pub samples: u64,
    pub none_samples: u64,
    pub valid_time_samples: u64,
    pub total_raw_bytes: u64,
    pub min_end_ns: Option<u64>,
    pub max_end_ns: Option<u64>,
}

/// What is reported of one connection.
#[derive(Debug, PartialEq, Eq)]
pub struct EdgeLogStats {
    pub key: EdgeKey,
    pub samples: u64,
    pub none_samples: u64,
    pub valid_time_samples: u64,
    pub total_raw_bytes: u64,
    /// Mean payload size over the messages that carry one.
    pub avg_raw_bytes: Option<Ratio>,
    pub rate_hz: Option<Ratio>,
    pub throughput_bytes_per_sec: Option<Ratio>,
}

impl EdgeAccumulator {
    pub open spec fn empty() -> EdgeAccumulator {
        EdgeAccumulator {
            samples: 0,
            none_samples: 0,
            valid_time_samples: 0,
            total_raw_bytes: 0,
            min_end_ns: None,
            max_end_ns: None,
        }
    }

    /// The counts after one more message.
    pub open spec fn recorded(self, payload_bytes: Option<u64>, end_time_ns: Option<u64>) -> EdgeAccumulator {
        EdgeAccumulator {
            samples: capped_sum(self.samples, 1),
            none_samples: if payload_bytes is None {
                capped_sum(self.none_samples, 1)
            } else {
                self.none_samples
            },
            valid_time_samples: if end_time_ns is Some {
                capped_sum(self.valid_time_samples, 1)
            } else {
                self.valid_time_samples
            },
            total_raw_bytes: match payload_bytes {
                Some(bytes) => capped_sum(self.total_raw_bytes, bytes),
                None => self.total_raw_bytes,
            },
            min_end_ns: lower(self.min_end_ns, end_time_ns),
            max_end_ns: raise(self.max_end_ns, end_time_ns),
        }
    }

    /// How many messages carried a payload.
    pub open spec fn payload_samples(self) -> int {
        if self.samples >= self.none_samples {
            self.samples - self.none_samples
        } else {
            0
        }
    }

    /// The time between the first and the last message, when there are two
    /// messages at different times.
    pub open spec fn span(self) -> Option<int> {
        match (self.min_end_ns, self.max_end_ns) {
            (Some(min_ns), Some(max_ns)) => if self.valid_time_samples >= 2 && max_ns > min_ns {
                Some(max_ns - min_ns)
            } else {
                None
            },
            _ => None,
        }
    }

    /// Whether `stats` reports these counts for a connection.
    pub open spec fn reported(self, key: EdgeModel, stats: EdgeLogStats) -> bool {
        &&& stats.key@ == key
        &&& stats.samples == self.samples
        &&& stats.none_samples == self.none_samples
        &&& stats.valid_time_samples == self.valid_time_samples
        &&& stats.total_raw_bytes == self.total_raw_bytes
        &&& stats.avg_raw_bytes == (if self.payload_samples() > 0 {
            Some(Ratio { num: self.total_raw_bytes as u128, den: self.payload_samples() as u128 })
        } else {
            None
        })
        &&& stats.rate_hz == (match self.span() {
            Some(ns) => Some(
                Ratio { num: ((self.valid_time_samples - 1) * NANOS_PER_SEC) as u128, den: ns as u128 },
            ),
            None => None,
        })
        &&& stats.throughput_bytes_per_sec == (match self.span() {
            Some(ns) => Some(Ratio { num: (self.total_raw_bytes * NANOS_PER_SEC) as u128, den: ns as u128 }),
            None => None,
        })
    }

    /// Nothing counted yet.
    pub fn new() -> (r: Self)
        ensures
            r == EdgeAccumulator::empty(),
    {
        EdgeAccumulator {
            samples: 0,
            none_samples: 0,
            valid_time_samples: 0,
            total_raw_bytes: 0,
            min_end_ns: None,
            max_end_ns: None,
        }
    }

    /// Counts one message.
    pub fn record_sample(&mut self, payload_bytes: Option<u64>, end_time_ns: Option<u64>)
        ensures
            *final(self) == old(self).recorded(payload_bytes, end_time_ns),
    {
        self.samples = self.samples.saturating_add(1);
        if let Some(bytes) = payload_bytes {
            self.total_raw_bytes = self.total_raw_bytes.saturating_add(bytes);
        } else {
            self.none_samples = self.none_samples.saturating_add(1);
        }
        if let Some(end_ns) = end_time_ns {
            self.valid_time_samples = self.valid_time_samples.saturating_add(1);
            self.min_end_ns = lower_bound(self.min_end_ns, end_ns);
            self.max_end_ns = upper_bound(self.max_end_ns, end_ns);
        }
    }

    /// What is reported of a connection with these counts.
    pub fn finalize(self, key: EdgeKey) -> (r: EdgeLogStats)
        ensures
            self.reported(key@, r),
    {
        let payload_samples: u64 = self.samples.saturating_sub(self.none_samples);
        let avg_raw_bytes: Option<Ratio> = if payload_samples > 0 {
            Some(Ratio { num: self.total_raw_bytes as u128, den: payload_samples as u128 })
        } else {
            None
        };
        let mut rate_hz: Option<Ratio> = None;
        let mut throughput: Option<Ratio> = None;
        if self.valid_time_samples >= 2 {
            if let (Some(min_ns), Some(max_ns)) = (self.min_end_ns, self.max_end_ns) {
                if max_ns > min_ns {
                    let den: u128 = (max_ns - min_ns) as u128;
                    let per_sec: u128 = NANOS_PER_SEC as u128;
                    rate_hz = Some(Ratio { num: (self.valid_time_samples - 1) as u128 * per_sec, den });
                    throughput = Some(Ratio { num: self.total_raw_bytes as u128 * per_sec, den });
                }
            }
        }
        EdgeLogStats {
            key,
            samples: self.samples,
            none_samples: self.none_samples,
            valid_time_samples: self.valid_time_samples,
            total_raw_bytes: self.total_raw_bytes,
            avg_raw_bytes,
            rate_hz,
            throughput_bytes_per_sec: throughput,
        }
    }
}

// ---------------------------------------------------------------------------
// Durations
// ---------------------------------------------------------------------------

/// The least duration.
pub open spec fn least(durations: Seq<u64>) -> Option<u64>
    decreases durations.len(),
{
    if durations.len() == 0 {
        None
    } else {
        lower(least(durations.drop_last()), Some(durations.last()))
    }
}

/// The greatest duration.
pub open spec fn most(durations: Seq<u64>) -> Option<u64>
    decreases durations.len(),
{
    if durations.len() == 0 {
        None
    } else {
        raise(most(durations.drop_last()), Some(durations.last()))
    }
}

/// The sum of the durations.
pub open spec fn total(durations: Seq<u64>) -> nat
    decreases durations.len(),
{
    if durations.len() == 0 {
        0
    } else {
        total(durations.drop_last()) + durations.last() as nat
    }
}

/// The mean of the durations in whole nanoseconds.
pub open spec fn mean(durations: Seq<u64>) -> Option<u64> {
    if durations.len() == 0 {
        None
    } else {
        Some((total(durations) / durations.len()) as u64)
    }
}

/// How much each duration differs from the one before.
pub open spec fn steps(durations: Seq<u64>) -> Seq<u64> {
    Seq::new(
        if durations.len() == 0 {
            0
        } else {
            (durations.len() - 1) as nat
        },
        |i: int| (greater(durations[i], durations[i + 1]) - lesser(durations[i], durations[i + 1])) as u64,
    )
}

/// Exact bounds and mean of some durations, `None` when there are none.
#[derive(Clone, Copy, Debug, PartialEq, Eq, Structural)]
pub struct DurationStats {
    pub min_ns: Option<u64>,
    pub max_ns: Option<u64>,
    pub mean_ns: Option<u64>,
}

/// What is reported of some durations.
pub open spec fn duration_stats(durations: Seq<u64>) -> DurationStats {
    DurationStats { min_ns: least(durations), max_ns: most(durations), mean_ns: mean(durations) }
}

pub proof fn lemma_total_bound(durations: Seq<u64>)
    ensures
        total(durations) <= durations.len() * u64::MAX,
    decreases durations.len(),
{
    if durations.len() > 0 {
        lemma_total_bound(durations.drop_last());
        assert((durations.len() - 1) * u64::MAX + u64::MAX == durations.len() * u64::MAX) by (nonlinear_arith);
    }
}

/// What is reported of some durations.
pub fn duration_stats_from(durations: &Vec<u64>) -> (r: DurationStats)
    ensures
        r == duration_stats(durations@),
{
    let n: usize = durations.len();
    let mut min_ns: Option<u64> = None;
    let mut max_ns: Option<u64> = None;
    let mut sum: u128 = 0;
    let mut i: usize = 0;
    assert(durations@.take(0) =~= Seq::<u64>::empty());
    while i < n
        invariant
            i <= n,
            n == durations@.len(),
            min_ns == least(durations@.take(i as int)),
            max_ns == most(durations@.take(i as int)),
            sum == total(durations@.take(i as int)),
        decreases n - i,
    {
        let ghost next = durations@.take(i + 1);
        proof {
            assert(next.drop_last() =~= durations@.take(i as int));
            assert(next.last() == durations@[i as int]);
            lemma_total_bound(next);
            assert(next.len() * u64::MAX <= u128::MAX) by (nonlinear_arith)
                requires
                    next.len() <= u64::MAX,
            ;
        }
        let d: u64 = durations[i];
        min_ns = lower_bound(min_ns, d);
        max_ns = upper_bound(max_ns, d);
        sum = sum + d as u128;
        i = i + 1;
    }
    assert(durations@.take(n as int) =~= durations@);
    let mean_ns: Option<u64> = if n > 0 {
        proof {
            lemma_mean_fits(durations@);
        }
        Some((sum / n as u128) as u64)
    } else {
        None
    };
    DurationStats { min_ns, max_ns, mean_ns }
}

pub proof fn lemma_mean_fits(durations: Seq<u64>)
    requires
        durations.len() > 0,
    ensures
        total(durations) / durations.len() <= u64::MAX,
{
    lemma_total_bound(durations);
    let t = total(durations) as int;
    let n = durations.len() as int;
    assert(t / n <= u64::MAX) by (nonlinear_arith)
        requires
            n > 0,
            0 <= t <= n * u64::MAX,
    ;
}

/// What is reported of how much the durations vary from one to the next.
pub fn jitter_stats_from(durations: &Vec<u64>) -> (r: DurationStats)
    ensures
        r == duration_stats(steps(durations@)),
{
    let mut list: Vec<u64> = Vec::new();
    let mut i: usize = 1;
    while i < durations.len()
        invariant
            1 <= i,
            durations@.len() == 0 ==> i == 1,
            durations@.len() > 0 ==> i <= durations@.len(),
            list@.len() == i - 1,
            forall|k: int| 0 <= k < i - 1 ==> #[trigger] list@[k] == steps(durations@)[k],
        decreases durations@.len() - i,
    {
        let a: u64 = durations[i - 1];
        let b: u64 = durations[i];
        list.push(
            if a >= b {
                a - b
            } else {
                b - a
            },
        );
        i = i + 1;
    }
    assert(list@ =~= steps(durations@));
    duration_stats_from(&list)
}

// ---------------------------------------------------------------------------
// Steps of the plan
// ---------------------------------------------------------------------------

/// The messages that one plan step writes.
#[derive(Debug, PartialEq, Eq)]
pub struct OutputPackInfo {
    pub culist_index: u32,
    pub src: String,
    pub msg_types: Vec<String>,
}

/// One plan step's flattened slot range in the CopperList's message list.
#[derive(Debug, PartialEq, Eq)]
pub struct PackRange {
    pub start: usize,
    pub len: usize,
    pub task: String,
}

/// What a pack says.
pub struct PackModel {
    pub culist_index: u32,
    pub src: Seq<char>,
    pub msg_types: Seq<Seq<char>>,
}

impl View for OutputPackInfo {
    type V = PackModel;

    open spec fn view(&self) -> PackModel {
        PackModel { culist_index: self.culist_index, src: self.src@, msg_types: texts(self.msg_types@) }
    }
}

/// What a list of packs says.
pub open spec fn packs_of(packs: Seq<OutputPackInfo>) -> Seq<PackModel> {
    Seq::new(packs.len(), |i: int| packs[i]@)
}

/// What a range says.
pub struct RangeModel {
    pub start: nat,
    pub len: nat,
    pub task: Seq<char>,
}

impl View for PackRange {
    type V = RangeModel;

    open spec fn view(&self) -> RangeModel {
        RangeModel { start: self.start as nat, len: self.len as nat, task: self.task@ }
    }
}

/// What a list of ranges says.
pub open spec fn ranges_of(ranges: Seq<PackRange>) -> Seq<RangeModel> {
    Seq::new(ranges.len(), |i: int| ranges[i]@)
}

/// How many messages the first `n` packs hold.
pub open spec fn pack_offset(packs: Seq<PackModel>, n: nat) -> nat
    decreases n,
{
    if n == 0 {
        0
    } else {
        pack_offset(packs, (n - 1) as nat) + packs[n - 1].msg_types.len()
    }
}

/// The ranges of the packs: one after the other, in order.
pub open spec fn pack_ranges(packs: Seq<PackModel>) -> Seq<RangeModel> {
    Seq::new(
        packs.len(),
        |i: int| RangeModel { start: pack_offset(packs, i as nat), len: packs[i].msg_types.len(), task: packs[i].src },
    )
}

pub proof fn lemma_pack_offset(packs: Seq<PackModel>, i: nat, n: nat)
    requires
        i <= n <= packs.len(),
    ensures
        pack_offset(packs, i) <= pack_offset(packs, n),
    decreases n,
{
    if i < n {
        lemma_pack_offset(packs, i, (n - 1) as nat);
    }
}

/// A CopperList's message list flattens the output packs in slot order, so a
/// step owns one contiguous range of it.
pub fn build_pack_ranges(packs: &Vec<OutputPackInfo>) -> (ranges: Vec<PackRange>)
    requires
        pack_offset(packs_of(packs@), packs@.len()) <= usize::MAX,
    ensures
        ranges_of(ranges@) == pack_ranges(packs_of(packs@)),
{
    let ghost list = packs_of(packs@);
    let mut ranges: Vec<PackRange> = Vec::new();
    let mut base: usize = 0;
    let mut i: usize = 0;
    while i < packs.len()
        invariant
            i <= packs@.len(),
            list == packs_of(packs@),
            pack_offset(list, packs@.len()) <= usize::MAX,
            base == pack_offset(list, i as nat),
            ranges@.len() == i,
            forall|k: int| 0 <= k < i ==> (#[trigger] ranges@[k])@ == pack_ranges(list)[k],
        decreases packs@.len() - i,
    {
        proof {
            lemma_pack_offset(list, (i + 1) as nat, packs@.len());
            assert(list[i as int].msg_types.len() == packs@[i as int].msg_types@.len());
        }
        let len: usize = packs[i].msg_types.len();
        ranges.push(PackRange { start: base, len, task: packs[i].src.clone() });
        base = base + len;
        i = i + 1;
    }
    assert(ranges_of(ranges@) =~= pack_ranges(list));
    ranges
}

/// The earliest start among the messages `lo..hi`.
pub open spec fn first_start(msgs: Seq<TimeWindow>, lo: nat, hi: nat) -> Option<u64>
    decreases hi,
{
    if hi <= lo {
        None
    } else {
        lower(first_start(msgs, lo, (hi - 1) as nat), msgs[hi - 1].start_ns)
    }
}

/// The latest end among the messages `lo..hi`.
pub open spec fn last_end(msgs: Seq<TimeWindow>, lo: nat, hi: nat) -> Option<u64>
    decreases hi,
{
    if hi <= lo {
        None
    } else {
        raise(last_end(msgs, lo, (hi - 1) as nat), msgs[hi - 1].end_ns)
    }
}

/// The time from a start to an end, when both are known and in order.
pub open spec fn elapsed(start: Option<u64>, end: Option<u64>) -> Option<u64> {
    match (start, end) {
        (Some(s), Some(e)) => if s <= e {
            Some((e - s) as u64)
        } else {
            None
        },
        _ => None,
    }
}

/// The widest window over the messages of a range that are there.
pub open spec fn step_duration(msgs: Seq<TimeWindow>, range: RangeModel) -> Option<u64> {
    let hi = if range.start + range.len <= msgs.len() {
        range.start + range.len
    } else {
        msgs.len()
    };
    elapsed(first_start(msgs, range.start, hi), last_end(msgs, range.start, hi))
}

fn time_between(start: Option<u64>, end: Option<u64>) -> (r: Option<u64>)
    ensures
        r == elapsed(start, end),
{
    if let (Some(s), Some(e)) = (start, end) {
        if s <= e {
            return Some(e - s);
        }
    }
    None
}

/// One step's `process()` window in one CopperList: the widest start/end pair
/// over the slots it owns. `None` when the recording has neither bound.
pub fn sample_step_duration_ns(msgs: &Vec<TimeWindow>, range: &PackRange) -> (r: Option<u64>)
    requires
        range.start + range.len <= usize::MAX,
    ensures
        r == step_duration(msgs@, range@),
{
    let hi: usize = if range.start + range.len <= msgs.len() {
        range.start + range.len
    } else {
        msgs.len()
    };
    let mut start_ns: Option<u64> = None;
    let mut end_ns: Option<u64> = None;
    let mut i: usize = if range.start <= hi {
        range.start
    } else {
        hi
    };
    let ghost lo = range.start as nat;
    while i < hi
        invariant
            i <= hi <= msgs@.len(),
            lo <= i || i == hi,
            start_ns == first_start(msgs@, lo, i as nat),
            end_ns == last_end(msgs@, lo, i as nat),
        decreases hi - i,
    {
        if let Some(start) = msgs[i].start_ns {
            start_ns = lower_bound(start_ns, start);
        }
        if let Some(end) = msgs[i].end_ns {
            end_ns = upper_bound(end_ns, end);
        }
        i = i + 1;
    }
    time_between(start_ns, end_ns)
}

/// From the start of the first message to the end of the last one.
pub open spec fn end_to_end(msgs: Seq<TimeWindow>) -> Option<u64> {
    if msgs.len() == 0 {
        None
    } else {
        elapsed(msgs[0].start_ns, msgs.last().end_ns)
    }
}

/// From the start of the first message to the end of the last one.
pub fn compute_end_to_end_latency(msgs: &Vec<TimeWindow>) -> (r: Option<u64>)
    ensures
        r == end_to_end(msgs@),
{
    if msgs.len() == 0 {
        return None;
    }
    time_between(msgs[0].start_ns, msgs[msgs.len() - 1].end_ns)
}

// ---------------------------------------------------------------------------
// Pipeline
// ---------------------------------------------------------------------------

/// Accumulates one plan step's `process()` durations across the recording.
#[derive(Debug)]
pub struct StageAccumulator {
    pub task: String,
    pub durations: Vec<u64>,
}

/// What an accumulator holds.
pub struct StageModel {
    pub task: Seq<char>,
    pub durations: Seq<u64>,
}

impl View for StageAccumulator {
    type V = StageModel;

    open spec fn view(&self) -> StageModel {
        StageModel { task: self.task@, durations: self.durations@ }
    }
}

/// What a list of accumulators holds.
pub open spec fn stages_of(stages: Seq<StageAccumulator>) -> Seq<StageModel> {
    Seq::new(stages.len(), |i: int| stages[i]@)
}

/// What is reported of one plan step.
#[derive(Debug)]
pub struct StageStats {
    /// Task or bridge id owning this plan step.
    pub task: String,
    /// Plan step index, which is also the pipeline's worker index.
    pub index: usize,
    pub samples: u64,
    /// Measured `process()` window of this step.
    pub duration: DurationStats,
    /// Share of the serial cycle spent in this step.
    pub share: Option<Ratio>,
}

/// The step that caps the CopperList rate.
#[derive(Debug)]
pub struct Bottleneck {
    pub task: String,
    pub index: usize,
    pub mean_ns: u64,
    /// The CopperList rate this step alone allows.
    pub max_rate_hz: Ratio,
}

/// Per-plan-step cost, and the throughput ceiling each execution engine can
/// reach with it.
///
/// The serial engine runs every step of a CopperList back to back, so its
/// cycle is `serial_cycle_ns`. A pipeline runs one worker per step, so its
/// cycle is the slowest single step. The ratio is the most that pipelining
/// can buy on this recording.
#[derive(Debug)]
pub struct PipelineStats {
    /// One entry per plan step, in plan order.
    pub stages: Vec<StageStats>,
    /// Sum of the mean step durations.
    pub serial_cycle_ns: Option<u128>,
    /// The slowest step.
    pub bottleneck: Option<Bottleneck>,
    pub max_pipeline_speedup: Option<Ratio>,
}

/// The mean duration of stage `i`.
pub open spec fn stage_mean(stages: Seq<StageModel>, i: int) -> Option<u64> {
    mean(stages[i].durations)
}

/// The sum of the means of the first `n` stages, unknown when one of them was
/// never sampled.
pub open spec fn cycle_of(stages: Seq<StageModel>, n: nat) -> Option<nat>
    decreases n,
{
    if n == 0 {
        Some(0)
    } else {
        match (cycle_of(stages, (n - 1) as nat), stage_mean(stages, n - 1)) {
            (Some(sum), Some(m)) => Some(sum + m as nat),
            _ => None,
        }
    }
}

/// The last of the slowest sampled ones among the first `n` stages.
pub open spec fn slowest(stages: Seq<StageModel>, n: nat) -> Option<int>
    decreases n,
{
    if n == 0 {
        None
    } else {
        let rest = slowest(stages, (n - 1) as nat);
        match (stage_mean(stages, n - 1), rest) {
            (None, _) => rest,
            (Some(_), None) => Some(n - 1),
            (Some(m), Some(s)) => if m >= stage_mean(stages, s)->0 {
                Some(n - 1)
            } else {
                rest
            },
        }
    }
}

/// The share of a cycle that a mean takes.
pub open spec fn share_of(m: Option<u64>, cycle: Option<nat>) -> Option<Ratio> {
    match (m, cycle) {
        (Some(m), Some(c)) => if c > 0 {
            Some(Ratio { num: m as u128, den: c as u128 })
        } else {
            None
        },
        _ => None,
    }
}

/// Whether `stats` reports stage `i`.
pub open spec fn reports_stage(stages: Seq<StageModel>, cycle: Option<nat>, i: int, stats: StageStats) -> bool {
    &&& stats.task@ == stages[i].task
    &&& stats.index == i
    &&& stats.samples == stages[i].durations.len()
    &&& stats.duration == duration_stats(stages[i].durations)
    &&& stats.share == share_of(stage_mean(stages, i), cycle)
}

/// The slowest stage, if its mean is not zero.
pub open spec fn bottleneck_of(stages: Seq<StageModel>) -> Option<int> {
    match slowest(stages, stages.len()) {
        Some(i) => if stage_mean(stages, i)->0 > 0 {
            Some(i)
        } else {
            None
        },
        None => None,
    }
}

/// Whether `r` reports the pipeline of the stages.
pub open spec fn reports_pipeline(stages: Seq<StageModel>, r: PipelineStats) -> bool {
    let cycle = cycle_of(stages, stages.len());
    &&& r.stages@.len() == stages.len()
    &&& forall|i: int| 0 <= i < stages.len() ==> reports_stage(stages, cycle, i, #[trigger] r.stages@[i])
    &&& r.serial_cycle_ns == (match cycle {
        Some(c) => Some(c as u128),
        None => None,
    })
    &&& match bottleneck_of(stages) {
        Some(i) => {
            let m = stage_mean(stages, i)->0;
            &&& r.bottleneck matches Some(b) && b.task@ == stages[i].task && b.index == i && b.mean_ns == m
                && b.max_rate_hz == (Ratio { num: NANOS_PER_SEC as u128, den: m as u128 })
            &&& r.max_pipeline_speedup == (match cycle {
                Some(c) => Some(Ratio { num: c as u128, den: m as u128 }),
                None => None,
            })
        },
        None => r.bottleneck is None && r.max_pipeline_speedup is None,
    }
}

impl StageAccumulator {
    pub fn new(task: String) -> (r: Self)
        ensures
            r@ == (StageModel { task: task@, durations: Seq::empty() }),
    {
        StageAccumulator { task, durations: Vec::new() }
    }

    pub fn record_sample(&mut self, duration_ns: u64)
        ensures
            final(self)@ == (StageModel { durations: old(self)@.durations.push(duration_ns), ..old(self)@ }),
    {
        self.durations.push(duration_ns);
    }

    /// What is reported of one plan step.
    pub fn finalize(&self, index: usize, serial_cycle_ns: Option<u128>) -> (r: StageStats)
        ensures
            r.task@ == self.task@,
            r.index == index,
            r.samples == self.durations@.len(),
            r.duration == duration_stats(self.durations@),
            r.share == share_of(mean(self.durations@), match serial_cycle_ns {
                Some(c) => Some(c as nat),
                None => None,
            }),
    {
        let duration: DurationStats = duration_stats_from(&self.durations);
        let mut share: Option<Ratio> = None;
        if let (Some(m), Some(c)) = (duration.mean_ns, serial_cycle_ns) {
            if c > 0 {
                share = Some(Ratio { num: m as u128, den: c });
            }
        }
        StageStats { task: self.task.clone(), index, samples: self.durations.len() as u64, duration, share }
    }
}

proof fn lemma_cycle_bound(stages: Seq<StageModel>, n: nat)
    ensures
        cycle_of(stages, n) matches Some(c) ==> c <= n * u64::MAX,
    decreases n,
{
    if n > 0 {
        lemma_cycle_bound(stages, (n - 1) as nat);
        assert((n - 1) * u64::MAX + u64::MAX == n * u64::MAX) by (nonlinear_arith);
    }
}

proof fn lemma_slowest_bound(stages: Seq<StageModel>, n: nat)
    ensures
        slowest(stages, n) matches Some(i) ==> 0 <= i < n && stage_mean(stages, i) is Some,
        slowest(stages, n) is None ==> forall|i: int| 0 <= i < n ==> #[trigger] stage_mean(stages, i) is None,
        slowest(stages, n) matches Some(s) ==> forall|i: int|
            0 <= i < n && #[trigger] stage_mean(stages, i) is Some ==> stage_mean(stages, i)->0 <= stage_mean(stages, s)->0,
    decreases n,
{
    if n > 0 {
        lemma_slowest_bound(stages, (n - 1) as nat);
    }
}

/// What is reported of the pipeline.
///
/// Steps the recording never sampled leave the cycle unknown rather than
/// making it look cheaper than it is.
pub fn finalize_pipeline(accumulators: &Vec<StageAccumulator>) -> (r: PipelineStats)
    ensures
        reports_pipeline(stages_of(accumulators@), r),
{
    let n: usize = accumulators.len();
    let ghost stages = stages_of(accumulators@);
    let mut cycle: Option<u128> = Some(0);
    let mut best: Option<(usize, u64)> = None;
    let mut i: usize = 0;
    while i < n
        invariant
            i <= n,
            n == accumulators@.len(),
            stages == stages_of(accumulators@),
            cycle is Some == cycle_of(stages, i as nat) is Some,
            cycle matches Some(c) ==> c == cycle_of(stages, i as nat)->0,
            best is Some == slowest(stages, i as nat) is Some,
            best matches Some(b) ==> b.0 == slowest(stages, i as nat)->0 && b.0 < i && stage_mean(stages, b.0 as int)
                == Some(b.1),
        decreases n - i,
    {
        let d: DurationStats = duration_stats_from(&accumulators[i].durations);
        proof {
            lemma_cycle_bound(stages, (i + 1) as nat);
            assert((i + 1) * u64::MAX <= u128::MAX) by (nonlinear_arith)
                requires
                    i + 1 <= u64::MAX,
            ;
            assert(stage_mean(stages, i as int) == d.mean_ns);
        }
        match d.mean_ns {
            Some(m) => {
                cycle = match cycle {
                    Some(c) => Some(c + m as u128),
                    None => None,
                };
                best = match best {
                    Some((s, most)) => if m >= most {
                        Some((i, m))
                    } else {
                        Some((s, most))
                    },
                    None => Some((i, m)),
                };
            },
            None => {
                cycle = None;
            },
        }
        i = i + 1;
    }
    proof {
        lemma_slowest_bound(stages, n as nat);
    }
    let ghost cycle_model = cycle_of(stages, n as nat);
    let mut bottleneck: Option<Bottleneck> = None;
    let mut speedup: Option<Ratio> = None;
    if let Some((index, m)) = best {
        if m > 0 {
            bottleneck = Some(
                Bottleneck {
                    task: accumulators[index].task.clone(),
                    index,
                    mean_ns: m,
                    max_rate_hz: Ratio { num: NANOS_PER_SEC as u128, den: m as u128 },
                },
            );
            speedup = match cycle {
                Some(c) => Some(Ratio { num: c, den: m as u128 }),
                None => None,
            };
        }
    }
    let mut list: Vec<StageStats> = Vec::new();
    let mut k: usize = 0;
    while k < n
        invariant
            k <= n,
            n == accumulators@.len(),
            stages == stages_of(accumulators@),
            cycle_model == (match cycle {
                Some(c) => Some(c as nat),
                None => None,
            }),
            list@.len() == k,
            forall|j: int| 0 <= j < k ==> reports_stage(stages, cycle_model, j, #[trigger] list@[j]),
        decreases n - k,
    {
        let stage: StageStats = accumulators[k].finalize(k, cycle);
        list.push(stage);
        k = k + 1;
    }
    PipelineStats { stages: list, serial_cycle_ns: cycle, bottleneck, max_pipeline_speedup: speedup }
}

/// A ratio in fixed-point notation with a number of decimals.
pub type FixedFn = spec_fn(Ratio, u32) -> Seq<char>;

/// Whether `fixed` writes ratios as `f` says.
pub open spec fn writes<F: Fn(Ratio, u32) -> String>(fixed: F, f: FixedFn) -> bool {
    forall|ratio: Ratio, decimals: u32, r: String| #[trigger]
        call_ensures(fixed, (ratio, decimals), r) ==> r@ == f(ratio, decimals)
}

/// The line that names the bottleneck.
pub open spec fn bottleneck_line(pipeline: PipelineStats, f: FixedFn) -> Seq<char> {
    match pipeline.bottleneck {
        None => "Bottleneck: unknown (no step had a recorded process_time window)."@,
        Some(b) => "Bottleneck: step "@ + dec(b.index as nat) + " '"@ + b.task@ + "' at "@ + f(
            Ratio { num: b.mean_ns as u128, den: 1_000_000 },
            3,
        ) + " ms mean caps the rate at "@ + f(b.max_rate_hz, 1)
            + " Hz; pipelining every step can buy at most "@ + (match pipeline.max_pipeline_speedup {
            Some(speedup) => f(speedup, 2) + "x"@,
            None => "unknown"@,
        }) + "."@,
    }
}

/// One line naming the step that caps the CopperList rate, and what a wider
/// engine could still buy.
///
/// `fixed` writes a ratio with a number of decimals.
pub fn format_bottleneck<F: Fn(Ratio, u32) -> String>(pipeline: &PipelineStats, fixed: F) -> (r: String)
    requires
        forall|ratio: Ratio, decimals: u32| #[trigger] call_requires(fixed, (ratio, decimals)),
    ensures
        pipeline.bottleneck is None ==> r@ == "Bottleneck: unknown (no step had a recorded process_time window)."@,
        forall|f: FixedFn| #[trigger] writes(fixed, f) ==> r@ == bottleneck_line(*pipeline, f),
{
    match &pipeline.bottleneck {
        None => "Bottleneck: unknown (no step had a recorded process_time window).".to_owned(),
        Some(slowest) => {
            let mut text: String = "Bottleneck: step ".to_owned();
            push_dec(&mut text, slowest.index as u64);
            text.append(" '");
            text.append(slowest.task.as_str());
            text.append("' at ");
            let mean: Ratio = Ratio { num: slowest.mean_ns as u128, den: 1_000_000 };
            let mean_ms: String = fixed(mean, 3);
            text.append(mean_ms.as_str());
            text.append(" ms mean caps the rate at ");
            let rate: String = fixed(slowest.max_rate_hz, 1);
            text.append(rate.as_str());
            text.append(" Hz; pipelining every step can buy at most ");
            let mut speedup: String = "unknown".to_owned();
            if let Some(ratio) = pipeline.max_pipeline_speedup {
                speedup = fixed(ratio, 2);
                speedup.append("x");
            }
            text.append(speedup.as_str());
            text.append(".");
            text
        },
    }
}

// ---------------------------------------------------------------------------
// End to end
// ---------------------------------------------------------------------------

/// Accumulates the end-to-end latencies across the recording.
#[derive(Debug)]
pub struct PerfAccumulator {
    pub durations: Vec<u64>,
    pub samples: u64,
    pub valid_time_samples: u64,
}

/// What is reported of the end-to-end latencies.
#[derive(Clone, Copy, Debug, PartialEq, Eq, Structural)]
pub struct PerfStats {
    pub samples: u64,
    pub valid_time_samples: u64,
    pub end_to_end: DurationStats,
    pub jitter: DurationStats,
}

/// What an accumulator holds.
pub struct PerfModel {
    pub durations: Seq<u64>,
    pub samples: u64,
    pub valid_time_samples: u64,
}

impl View for PerfAccumulator {
    type V = PerfModel;

    open spec fn view(&self) -> PerfModel {
        PerfModel { durations: self.durations@, samples: self.samples, valid_time_samples: self.valid_time_samples }
    }
}

impl PerfModel {
    pub open spec fn empty() -> PerfModel {
        PerfModel { durations: Seq::empty(), samples: 0, valid_time_samples: 0 }
    }

    /// What it holds after one more CopperList.
    pub open spec fn recorded(self, latency: Option<u64>) -> PerfModel {
        match latency {
            Some(ns) => PerfModel {
                durations: self.durations.push(ns),
                samples: capped_sum(self.samples, 1),
                valid_time_samples: capped_sum(self.valid_time_samples, 1),
            },
            None => PerfModel { samples: capped_sum(self.samples, 1), ..self },
        }
    }

    /// What is reported.
    pub open spec fn report(self) -> PerfStats {
        PerfStats {
            samples: self.samples,
            valid_time_samples: self.valid_time_samples,
            end_to_end: duration_stats(self.durations),
            jitter: duration_stats(steps(self.durations)),
        }
    }
}

impl PerfAccumulator {
    pub fn new() -> (r: Self)
        ensures
            r@ == PerfModel::empty(),
    {
        PerfAccumulator { durations: Vec::new(), samples: 0, valid_time_samples: 0 }
    }

    pub fn record_sample(&mut self, latency: Option<u64>)
        ensures
            final(self)@ == old(self)@.recorded(latency),
    {
        self.samples = self.samples.saturating_add(1);
        if let Some(ns) = latency {
            self.durations.push(ns);
            self.valid_time_samples = self.valid_time_samples.saturating_add(1);
        }
    }

    pub fn finalize(&self) -> (r: PerfStats)
        ensures
            r == self@.report(),
    {
        PerfStats {
            samples: self.samples,
            valid_time_samples: self.valid_time_samples,
            end_to_end: duration_stats_from(&self.durations),
            jitter: jitter_stats_from(&self.durations),
        }
    }
}

// ---------------------------------------------------------------------------
// Laws
// ---------------------------------------------------------------------------

/// The ranges of two steps never overlap, and follow each other in plan order.
pub proof fn pack_ranges_are_disjoint(packs: Seq<PackModel>, i: int, j: int)
    requires
        0 <= i < j < packs.len(),
    ensures
        pack_ranges(packs)[i].start + pack_ranges(packs)[i].len <= pack_ranges(packs)[j].start,
{
    lemma_pack_offset(packs, (i + 1) as nat, j as nat);
}

/// The mean lies between the least and the greatest duration.
pub proof fn mean_lies_between_bounds(durations: Seq<u64>)
    requires
        durations.len() > 0,
    ensures
        least(durations)->0 <= mean(durations)->0 <= most(durations)->0,
        least(durations) is Some,
        mean(durations) is Some,
        most(durations) is Some,
{
    lemma_bounds(durations);
    lemma_mean_fits(durations);
    let t = total(durations) as int;
    let n = durations.len() as int;
    let lo = least(durations)->0 as int;
    let hi = most(durations)->0 as int;
    assert(lo <= t / n <= hi) by (nonlinear_arith)
        requires
            n > 0,
            lo * n <= t <= hi * n,
    ;
}

proof fn lemma_bounds(durations: Seq<u64>)
    requires
        durations.len() > 0,
    ensures
        least(durations) is Some,
        most(durations) is Some,
        least(durations)->0 * durations.len() <= total(durations) <= most(durations)->0 * durations.len(),
    decreases durations.len(),
{
    let rest = durations.drop_last();
    let x = durations.last() as int;
    let lo = least(durations)->0 as int;
    let hi = most(durations)->0 as int;
    let n = durations.len() as int;
    if rest.len() > 0 {
        lemma_bounds(rest);
        let low = least(rest)->0 as int;
        let high = most(rest)->0 as int;
        let t = total(rest) as int;
        assert(lo * n <= t + x <= hi * n) by (nonlinear_arith)
            requires
                n > 0,
                low * (n - 1) <= t <= high * (n - 1),
                lo <= low,
                lo <= x,
                hi >= high,
                hi >= x,
        ;
    } else {
        assert(least(rest) is None);
        assert(most(rest) is None);
        assert(total(rest) == 0);
        assert(lo * 1 == x && hi * 1 == x);
    }
}

/// No sampled step is slower than the bottleneck.
pub proof fn bottleneck_is_slowest(stages: Seq<StageModel>, i: int)
    requires
        bottleneck_of(stages) is Some,
        0 <= i < stages.len(),
        stage_mean(stages, i) is Some,
    ensures
        0 <= bottleneck_of(stages)->0 < stages.len(),
        stage_mean(stages, i)->0 <= stage_mean(stages, bottleneck_of(stages)->0)->0,
{
    lemma_slowest_bound(stages, stages.len());
}

/// Pipelining can buy at most a factor of the number of steps.
pub proof fn speedup_is_capped_by_step_count(stages: Seq<StageModel>, r: PipelineStats)
    requires
        reports_pipeline(stages, r),
        r.max_pipeline_speedup is Some,
        stages.len() <= usize::MAX,
    ensures
        r.max_pipeline_speedup->0.num <= stages.len() * r.max_pipeline_speedup->0.den,
{
    let n = stages.len();
    lemma_slowest_bound(stages, n);
    let top = stage_mean(stages, bottleneck_of(stages)->0)->0;
    lemma_cycle_below(stages, n, top);
    lemma_cycle_bound(stages, n);
    assert(n * u64::MAX <= u128::MAX) by (nonlinear_arith)
        requires
            n <= u64::MAX,
    ;
}

proof fn lemma_cycle_below(stages: Seq<StageModel>, n: nat, top: u64)
    requires
        n <= stages.len(),
        forall|i: int| 0 <= i < n && #[trigger] stage_mean(stages, i) is Some ==> stage_mean(stages, i)->0 <= top,
    ensures
        cycle_of(stages, n) matches Some(c) ==> c <= n * top,
    decreases n,
{
    if n > 0 {
        lemma_cycle_below(stages, (n - 1) as nat, top);
        assert((n - 1) * top + top == n * top) by (nonlinear_arith);
    }
}

/// The sum of the shares' numerators.
pub open spec fn share_sum(list: Seq<StageStats>, n: nat) -> nat
    decreases n,
{
    if n == 0 {
        0
    } else {
        share_sum(list, (n - 1) as nat) + list[n - 1].share->0.num as nat
    }
}

/// When the cycle is known and not zero, every step has a share of it, and the
/// shares add up to the whole cycle.
pub proof fn shares_add_up_to_the_cycle(stages: Seq<StageModel>, r: PipelineStats)
    requires
        reports_pipeline(stages, r),
        r.serial_cycle_ns is Some,
        r.serial_cycle_ns->0 > 0,
        stages.len() <= usize::MAX,
    ensures
        forall|i: int|
            0 <= i < r.stages@.len() ==> (#[trigger] r.stages@[i]).share is Some && r.stages@[i].share->0.den
                == r.serial_cycle_ns->0,
        share_sum(r.stages@, r.stages@.len()) == r.serial_cycle_ns->0,
{
    let n = stages.len();
    lemma_cycle_bound(stages, n);
    assert(n * u64::MAX <= u128::MAX) by (nonlinear_arith)
        requires
            n <= u64::MAX,
    ;
    lemma_cycle_known(stages, n);
    assert forall|i: int| 0 <= i < r.stages@.len() implies (#[trigger] r.stages@[i]).share is Some
        && r.stages@[i].share->0.den == r.serial_cycle_ns->0 by {
        assert(reports_stage(stages, cycle_of(stages, n), i, r.stages@[i]));
        assert(stage_mean(stages, i) is Some);
    }
    lemma_share_sum(stages, r, n);
}

proof fn lemma_cycle_known(stages: Seq<StageModel>, n: nat)
    requires
        cycle_of(stages, n) is Some,
    ensures
        forall|i: int| 0 <= i < n ==> #[trigger] stage_mean(stages, i) is Some,
    decreases n,
{
    if n > 0 {
        lemma_cycle_known(stages, (n - 1) as nat);
    }
}

proof fn lemma_share_sum(stages: Seq<StageModel>, r: PipelineStats, n: nat)
    requires
        reports_pipeline(stages, r),
        n <= stages.len(),
        cycle_of(stages, stages.len()) matches Some(c) && c > 0,
        forall|i: int| 0 <= i < stages.len() ==> #[trigger] stage_mean(stages, i) is Some,
    ensures
        cycle_of(stages, n) == Some(share_sum(r.stages@, n)),
    decreases n,
{
    if n > 0 {
        lemma_share_sum(stages, r, (n - 1) as nat);
        assert(reports_stage(stages, cycle_of(stages, stages.len()), n - 1, r.stages@[n - 1]));
        assert(stage_mean(stages, n - 1) is Some);
    }
}

/// The durations as numbers.
pub open spec fn numbers(durations: Seq<u64>) -> Seq<nat> {
    Seq::new(durations.len(), |i: int| durations[i] as nat)
}

proof fn lemma_duration_stats(durations: Seq<u64>)
    ensures
        total(durations) == sum(numbers(durations)),
        least(durations) is Some <==> durations.len() > 0,
        most(durations) is Some <==> durations.len() > 0,
        forall|i: int| 0 <= i < durations.len() ==> least(durations)->0 <= #[trigger] durations[i] <= most(durations)->0,
        durations.len() > 0 ==> durations.contains(least(durations)->0) && durations.contains(most(durations)->0),
    decreases durations.len(),
{
    if durations.len() == 0 {
        assert(numbers(durations) =~= Seq::<nat>::empty());
        lemma_sum_empty();
    } else {
        let rest = durations.drop_last();
        let x = durations.last();
        let n = rest.len() as int;
        lemma_duration_stats(rest);
        assert(numbers(durations) =~= numbers(rest).push(x as nat));
        lemma_sum_push(numbers(rest), x as nat);
        assert forall|i: int| 0 <= i < durations.len() implies least(durations)->0 <= #[trigger] durations[i]
            <= most(durations)->0 by {
            if i < n {
                assert(least(rest)->0 <= rest[i] <= most(rest)->0);
            }
        }
        assert(durations[n] == x);
        if n > 0 {
            let i = rest.index_of(least(rest)->0);
            let j = rest.index_of(most(rest)->0);
            assert(durations[i] == least(rest)->0 && durations[j] == most(rest)->0);
        }
    }
}

/// The reported bounds are the least and the greatest duration, and the mean is
/// the sum over the number of durations, rounded down.
pub proof fn durations_are_summed_up(durations: Seq<u64>)
    ensures
        ({
            let r = duration_stats(durations);
            &&& durations.len() == 0 ==> r.min_ns is None && r.max_ns is None && r.mean_ns is None
            &&& durations.len() > 0 ==> {
                &&& r.min_ns is Some && r.max_ns is Some && r.mean_ns is Some
                &&& durations.contains(r.min_ns->0)
                &&& durations.contains(r.max_ns->0)
                &&& forall|i: int| 0 <= i < durations.len() ==> r.min_ns->0 <= #[trigger] durations[i] <= r.max_ns->0
                &&& r.mean_ns->0 * durations.len() <= sum(numbers(durations)) < (r.mean_ns->0 + 1) * durations.len()
            }
        }),
{
    lemma_duration_stats(durations);
    if durations.len() > 0 {
        lemma_mean_fits(durations);
        let (t, n) = (total(durations) as int, durations.len() as int);
        vstd::arithmetic::div_mod::lemma_fundamental_div_mod(t, n);
        let q = t / n;
        assert(q * n <= t < (q + 1) * n) by (nonlinear_arith)
            requires
                t == n * q + t % n,
                0 <= t % n < n,
        ;
    }
}

/// The jitter is that of the differences between neighbours.
pub proof fn jitter_is_between_neighbours(durations: Seq<u64>)
    ensures
        durations.len() < 2 ==> steps(durations).len() == 0,
        durations.len() >= 2 ==> steps(durations).len() == durations.len() - 1,
        forall|i: int|
            0 <= i < steps(durations).len() ==> {
                &&& durations[i] >= durations[i + 1] ==> #[trigger] steps(durations)[i] == durations[i] - durations[i + 1]
                &&& durations[i] <= durations[i + 1] ==> steps(durations)[i] == durations[i + 1] - durations[i]
            },
{
}

/// The steps of a plan own the places of a CopperList one after the other, from
/// the first on, each as many as it writes messages.
pub proof fn ranges_follow_each_other(packs: Seq<PackModel>)
    ensures
        pack_ranges(packs).len() == packs.len(),
        packs.len() > 0 ==> pack_ranges(packs)[0].start == 0,
        forall|i: int|
            0 <= i < packs.len() ==> (#[trigger] pack_ranges(packs)[i]).len == packs[i].msg_types.len() && pack_ranges(
                packs,
            )[i].task == packs[i].src,
        forall|i: int, j: int|
            0 <= i < packs.len() && j == i + 1 && j < packs.len() ==> (#[trigger] pack_ranges(packs)[j]).start == (
            #[trigger] pack_ranges(packs)[i]).start + pack_ranges(packs)[i].len,
{
}

/// Whether message `i` is one of the range that is there.
pub open spec fn in_range(msgs: Seq<TimeWindow>, range: RangeModel, i: int) -> bool {
    range.start <= i < range.start + range.len && i < msgs.len()
}

proof fn lemma_window(msgs: Seq<TimeWindow>, lo: nat, hi: nat)
    requires
        hi <= msgs.len(),
    ensures
        forall|i: int|
            lo <= i < hi && (#[trigger] msgs[i]).start_ns is Some ==> first_start(msgs, lo, hi) is Some && first_start(
                msgs,
                lo,
                hi,
            )->0 <= msgs[i].start_ns->0,
        forall|i: int|
            lo <= i < hi && (#[trigger] msgs[i]).end_ns is Some ==> last_end(msgs, lo, hi) is Some && last_end(
                msgs,
                lo,
                hi,
            )->0 >= msgs[i].end_ns->0,
        first_start(msgs, lo, hi) is Some ==> exists|i: int|
            lo <= i < hi && (#[trigger] msgs[i]).start_ns == first_start(msgs, lo, hi),
        last_end(msgs, lo, hi) is Some ==> exists|i: int|
            lo <= i < hi && (#[trigger] msgs[i]).end_ns == last_end(msgs, lo, hi),
    decreases hi,
{
    if hi > lo {
        lemma_window(msgs, lo, (hi - 1) as nat);
        let (start, end) = (first_start(msgs, lo, (hi - 1) as nat), last_end(msgs, lo, (hi - 1) as nat));
        if first_start(msgs, lo, hi) is Some && first_start(msgs, lo, hi) != msgs[hi - 1].start_ns {
            let i = choose|i: int| lo <= i < hi - 1 && (#[trigger] msgs[i]).start_ns == start;
            assert(msgs[i].start_ns == first_start(msgs, lo, hi));
        }
        if last_end(msgs, lo, hi) is Some && last_end(msgs, lo, hi) != msgs[hi - 1].end_ns {
            let i = choose|i: int| lo <= i < hi - 1 && (#[trigger] msgs[i]).end_ns == end;
            assert(msgs[i].end_ns == last_end(msgs, lo, hi));
        }
    }
}

/// A step takes from the earliest start to the latest end of its messages.
pub proof fn steps_take_their_widest_window(msgs: Seq<TimeWindow>, range: RangeModel, a: int, b: int)
    requires
        in_range(msgs, range, a),
        in_range(msgs, range, b),
        msgs[a].start_ns is Some,
        msgs[b].end_ns is Some,
        forall|i: int|
            in_range(msgs, range, i) && (#[trigger] msgs[i]).start_ns is Some ==> msgs[a].start_ns->0 <= msgs[i].start_ns->0,
        forall|i: int|
            in_range(msgs, range, i) && (#[trigger] msgs[i]).end_ns is Some ==> msgs[i].end_ns->0 <= msgs[b].end_ns->0,
    ensures
        msgs[a].start_ns->0 <= msgs[b].end_ns->0 ==> step_duration(msgs, range) == Some(
            (msgs[b].end_ns->0 - msgs[a].start_ns->0) as u64,
        ),
        msgs[a].start_ns->0 > msgs[b].end_ns->0 ==> step_duration(msgs, range) is None,
{
    let hi = if range.start + range.len <= msgs.len() {
        range.start + range.len
    } else {
        msgs.len()
    };
    lemma_window(msgs, range.start, hi);
    let x = choose|i: int| range.start <= i < hi && (#[trigger] msgs[i]).start_ns == first_start(msgs, range.start, hi);
    let y = choose|i: int| range.start <= i < hi && (#[trigger] msgs[i]).end_ns == last_end(msgs, range.start, hi);
    assert(in_range(msgs, range, x) && in_range(msgs, range, y));
    assert(msgs[x].start_ns is Some && msgs[y].end_ns is Some);
}

/// A step without a recorded start or without a recorded end has no duration.
pub proof fn steps_without_bounds_take_no_time(msgs: Seq<TimeWindow>, range: RangeModel)
    requires
        (forall|i: int| in_range(msgs, range, i) ==> (#[trigger] msgs[i]).start_ns is None) || (forall|i: int|
            in_range(msgs, range, i) ==> (#[trigger] msgs[i]).end_ns is None),
    ensures
        step_duration(msgs, range) is None,
{
    let hi = if range.start + range.len <= msgs.len() {
        range.start + range.len
    } else {
        msgs.len()
    };
    lemma_window(msgs, range.start, hi);
    if first_start(msgs, range.start, hi) is Some && last_end(msgs, range.start, hi) is Some {
        let x = choose|i: int| range.start <= i < hi && (#[trigger] msgs[i]).start_ns == first_start(msgs, range.start, hi);
        let y = choose|i: int| range.start <= i < hi && (#[trigger] msgs[i]).end_ns == last_end(msgs, range.start, hi);
        assert(in_range(msgs, range, x) && in_range(msgs, range, y));
        assert(msgs[x].start_ns is Some && msgs[y].end_ns is Some);
    }
}

/// A CopperList takes from the start of its first message to the end of its
/// last one, if both are known and in order.
pub proof fn copperlists_take_end_to_end(msgs: Seq<TimeWindow>)
    ensures
        end_to_end(msgs) is Some <==> msgs.len() > 0 && msgs[0].start_ns is Some && msgs[msgs.len() - 1].end_ns is Some
            && msgs[0].start_ns->0 <= msgs[msgs.len() - 1].end_ns->0,
        end_to_end(msgs) matches Some(ns) ==> ns == msgs[msgs.len() - 1].end_ns->0 - msgs[0].start_ns->0,
{
}

/// The mean durations of the first `n` steps.
pub open spec fn means(stages: Seq<StageModel>, n: nat) -> Seq<nat> {
    Seq::new(n, |i: int| duration_stats(stages[i].durations).mean_ns->0 as nat)
}

proof fn lemma_cycle_sum(stages: Seq<StageModel>, n: nat)
    ensures
        cycle_of(stages, n) is Some <==> forall|i: int| 0 <= i < n ==> (#[trigger] stages[i]).durations.len() > 0,
        cycle_of(stages, n) matches Some(c) ==> c == sum(means(stages, n)),
    decreases n,
{
    if n == 0 {
        assert(means(stages, 0) =~= Seq::<nat>::empty());
        lemma_sum_empty();
    } else {
        lemma_cycle_sum(stages, (n - 1) as nat);
        assert(means(stages, n) =~= means(stages, (n - 1) as nat).push(means(stages, n)[n - 1]));
        lemma_sum_push(means(stages, (n - 1) as nat), means(stages, n)[n - 1]);
        assert(stages[n - 1].durations.len() > 0 <==> stage_mean(stages, n - 1) is Some);
    }
}

/// The serial cycle is the sum of the mean durations of the steps, known exactly
/// when every step was sampled. The bottleneck is the last of the slowest
/// steps: it caps the rate at one CopperList per its mean, and pipelining buys
/// at most the serial cycle over that mean.
pub proof fn pipelines_are_capped_by_the_slowest_step(stages: Seq<StageModel>, r: PipelineStats)
    requires
        reports_pipeline(stages, r),
        stages.len() <= usize::MAX,
    ensures
        r.serial_cycle_ns is Some <==> forall|i: int|
            0 <= i < stages.len() ==> (#[trigger] stages[i]).durations.len() > 0,
        r.serial_cycle_ns matches Some(c) ==> c == sum(means(stages, stages.len())),
        r.bottleneck is Some <==> exists|i: int|
            0 <= i < stages.len() && (#[trigger] stages[i]).durations.len() > 0 && duration_stats(
                stages[i].durations,
            ).mean_ns->0 > 0,
        r.bottleneck matches Some(b) ==> {
            &&& b.index < stages.len()
            &&& b.task@ == stages[b.index as int].task
            &&& stages[b.index as int].durations.len() > 0
            &&& b.mean_ns == duration_stats(stages[b.index as int].durations).mean_ns->0
            &&& forall|i: int|
                0 <= i < stages.len() && (#[trigger] stages[i]).durations.len() > 0 ==> duration_stats(
                    stages[i].durations,
                ).mean_ns->0 <= b.mean_ns
            &&& forall|i: int|
                b.index < i < stages.len() && (#[trigger] stages[i]).durations.len() > 0 ==> duration_stats(
                    stages[i].durations,
                ).mean_ns->0 < b.mean_ns
            &&& b.max_rate_hz == (Ratio { num: 1_000_000_000, den: b.mean_ns as u128 })
            &&& r.max_pipeline_speedup == (match r.serial_cycle_ns {
                Some(c) => Some(Ratio { num: c, den: b.mean_ns as u128 }),
                None => None,
            })
        },
        r.bottleneck is None ==> r.max_pipeline_speedup is None,
{
    let n = stages.len();
    lemma_cycle_sum(stages, n);
    lemma_cycle_bound(stages, n);
    assert(n * u64::MAX <= u128::MAX) by (nonlinear_arith)
        requires
            n <= u64::MAX,
    ;
    lemma_slowest_bound(stages, n);
    lemma_slowest_last(stages, n);
    assert forall|i: int| 0 <= i < n implies (stage_mean(stages, i) is Some <==> (#[trigger] stages[i]).durations.len() > 0) by {}
    if slowest(stages, n) is Some {
        let s = slowest(stages, n)->0;
        assert(stages[s].durations.len() > 0);
        assert forall|i: int| 0 <= i < n && (#[trigger] stages[i]).durations.len() > 0 implies duration_stats(
            stages[i].durations,
        ).mean_ns->0 <= stage_mean(stages, s)->0 by {
            assert(stage_mean(stages, i) is Some);
        }
        assert forall|i: int| s < i < n && (#[trigger] stages[i]).durations.len() > 0 implies duration_stats(
            stages[i].durations,
        ).mean_ns->0 < stage_mean(stages, s)->0 by {
            assert(stage_mean(stages, i) is Some);
        }
    } else {
        assert forall|i: int| 0 <= i < n implies (#[trigger] stages[i]).durations.len() == 0 by {
            assert(stage_mean(stages, i) is None);
        }
    }
}

proof fn lemma_slowest_last(stages: Seq<StageModel>, n: nat)
    ensures
        slowest(stages, n) matches Some(s) ==> forall|i: int|
            s < i < n && #[trigger] stage_mean(stages, i) is Some ==> stage_mean(stages, i)->0 < stage_mean(stages, s)->0,
    decreases n,
{
    if n > 0 {
        lemma_slowest_last(stages, (n - 1) as nat);
        lemma_slowest_bound(stages, (n - 1) as nat);
    }
}

/// Each step of the plan is reported in its place, with as many samples as it
/// has durations, their bounds and mean, and its mean's share of the cycle.
pub proof fn stages_are_reported_in_plan_order(stages: Seq<StageModel>, r: PipelineStats, i: int)
    requires
        reports_pipeline(stages, r),
        stages.len() <= usize::MAX,
        0 <= i < stages.len(),
    ensures
        r.stages@.len() == stages.len(),
        r.stages@[i].task@ == stages[i].task,
        r.stages@[i].index == i,
        r.stages@[i].samples == stages[i].durations.len(),
        r.stages@[i].duration == duration_stats(stages[i].durations),
        r.stages@[i].share is Some <==> r.serial_cycle_ns is Some && r.serial_cycle_ns->0 > 0,
        r.stages@[i].share matches Some(share) ==> share.num == r.stages@[i].duration.mean_ns->0 && Some(share.den)
            == r.serial_cycle_ns,
{
    let n = stages.len();
    lemma_cycle_bound(stages, n);
    assert(n * u64::MAX <= u128::MAX) by (nonlinear_arith)
        requires
            n <= u64::MAX,
    ;
    assert(reports_stage(stages, cycle_of(stages, n), i, r.stages@[i]));
    if cycle_of(stages, n) is Some {
        lemma_cycle_known(stages, n);
        assert(stage_mean(stages, i) is Some);
    }
}

/// Of steps that are equally slow, the last is the bottleneck; there is none only
/// when no step was sampled.
pub proof fn ties_go_to_the_last_step(stages: Seq<StageModel>, n: nat)
    requires
        n <= stages.len(),
    ensures
        slowest(stages, n) is None <==> forall|i: int| 0 <= i < n ==> #[trigger] stage_mean(stages, i) is None,
        slowest(stages, n) matches Some(s) ==> 0 <= s < n && stage_mean(stages, s) is Some && forall|i: int|
            0 <= i < n && #[trigger] stage_mean(stages, i) is Some ==> stage_mean(stages, i)->0 <= stage_mean(stages, s)->0
                && (i > s ==> stage_mean(stages, i)->0 < stage_mean(stages, s)->0),
    decreases n,
{
    if n > 0 {
        ties_go_to_the_last_step(stages, (n - 1) as nat);
        assert(stage_mean(stages, n - 1) is Some || stage_mean(stages, n - 1) is None);
    }
}

/// A connection's average is over the messages that carried a payload, and its
/// rates are over the time from the first end to the last one: there are none
/// unless two messages ended, at different times.
pub proof fn connection_rates_are_over_the_observed_span(a: EdgeAccumulator, key: EdgeModel, stats: EdgeLogStats)
    requires
        a.reported(key, stats),
        a.none_samples <= a.samples,
        a.min_end_ns is Some <==> a.max_end_ns is Some,
    ensures
        stats.avg_raw_bytes is Some <==> a.none_samples < a.samples,
        stats.avg_raw_bytes is Some ==> stats.avg_raw_bytes->0.num == a.total_raw_bytes && stats.avg_raw_bytes->0.den
            == a.samples - a.none_samples,
        ({
            let known = a.valid_time_samples >= 2 && a.min_end_ns is Some && a.min_end_ns->0 < a.max_end_ns->0;
            &&& stats.rate_hz is Some <==> known
            &&& stats.throughput_bytes_per_sec is Some <==> known
            &&& known ==> {
                &&& stats.rate_hz->0.num == (a.valid_time_samples - 1) * 1_000_000_000
                &&& stats.rate_hz->0.den == a.max_end_ns->0 - a.min_end_ns->0
                &&& stats.throughput_bytes_per_sec->0.num == a.total_raw_bytes * 1_000_000_000
                &&& stats.throughput_bytes_per_sec->0.den == a.max_end_ns->0 - a.min_end_ns->0
            }
        }),
{
}

} // verus!
