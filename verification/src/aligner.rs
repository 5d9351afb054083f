//! Alignment of message streams by time: bounded buffers that forget the
//! oldest messages, windows over them, and snapshots of their contents.

use circular_buffer::HeapCircularBuffer;
use crate::error::failure_text;
use crate::error::CuError;
use crate::error::CuResult;
use crate::varint::decode_number;
use crate::varint::encode_number;
use crate::varint::numbers_round_trip;
use crate::varint::read_varint;
use crate::varint::varint;
use crate::varint::SnapshotError;
use crate::varint::SnapshotFailure;
use vstd::prelude::*;

verus! {

/// Largest snapshot accepted for a single buffered message.
///
/// Without a bound a corrupted snapshot can declare any length it likes, and
/// the process dies allocating it. 256 MiB is far above any realistic single
/// message and far below the point where the allocation is the problem.
pub const MAX_MSG_SNAPSHOT_BYTES: usize = 268_435_456;

/// How much of a message snapshot is read before checking that there is really
/// more to come.
pub const SNAPSHOT_READ_CHUNK: usize = 8_192;

/// No message takes more bytes than this in a buffer.
pub const MESSAGE_BYTES: usize = 128;

/// Whether a buffer for so many messages can be allocated.
pub open spec fn allocatable(capacity: usize) -> bool {
    capacity * MESSAGE_BYTES <= isize::MAX
}

/// A span of time, in nanoseconds.
#[derive(Clone, Copy, Debug, PartialEq, Eq, Structural)]
pub struct CuTimeRange {
    pub start: u64,
    pub end: u64,
}

/// The time that a message speaks of, in nanoseconds.
#[derive(Clone, Copy, Debug, PartialEq, Eq, Structural)]
pub enum Tov {
    /// No time.
    Untimed,
    Time(u64),
    Range(CuTimeRange),
}

/// A message with the time it speaks of. The payload and the metadata are kept
/// as their bytes; nothing here reads the metadata.
#[derive(Debug, PartialEq, Eq)]
pub struct CuStampedData {
    pub payload: Option<Vec<u8>>,
    pub tov: Tov,
    pub metadata: Vec<u8>,
}

/// What a message says.
pub struct StampedModel {
    pub payload: Option<Seq<u8>>,
    pub tov: Tov,
    pub metadata: Seq<u8>,
}

impl View for CuStampedData {
    type V = StampedModel;

    open spec fn view(&self) -> StampedModel {
        StampedModel {
            payload: match self.payload {
                Some(bytes) => Some(bytes@),
                None => None,
            },
            tov: self.tov,
            metadata: self.metadata@,
        }
    }
}

/// What a list of messages says.
pub open spec fn stamped(msgs: Seq<CuStampedData>) -> Seq<StampedModel> {
    Seq::new(msgs.len(), |i: int| msgs[i]@)
}

// ---------------------------------------------------------------------------
// The circular buffer
// ---------------------------------------------------------------------------

/// The bounded queue of the `circular_buffer` crate.
#[verifier::external_type_specification]
#[verifier::external_body]
#[verifier::reject_recursive_types(T)]
pub struct ExHeapCircularBuffer<T>(HeapCircularBuffer<T>);

/// The messages in a circular buffer, the oldest one first.
pub uninterp spec fn buffer_contents(buffer: HeapCircularBuffer<CuStampedData>) -> Seq<CuStampedData>;

/// How many messages a circular buffer was made for.
pub uninterp spec fn buffer_capacity(buffer: HeapCircularBuffer<CuStampedData>) -> nat;

/// Calls `HeapCircularBuffer::with_capacity`. It is claimed that the buffer is
/// empty and has the given capacity. A capacity that is not allocatable can
/// overflow the size of the allocation, on which the call panics.
#[verifier::external_body]
fn buffer_with_capacity(capacity: usize) -> (buffer: HeapCircularBuffer<CuStampedData>)
    requires
        allocatable(capacity),
    ensures
        buffer_contents(buffer) == Seq::<CuStampedData>::empty(),
        buffer_capacity(buffer) == capacity,
{
    HeapCircularBuffer::with_capacity(capacity)
}

/// Calls `CircularBuffer::len`. It is claimed that this is the number of
/// messages in the buffer.
#[verifier::external_body]
fn buffer_len(buffer: &HeapCircularBuffer<CuStampedData>) -> (n: usize)
    ensures
        n == buffer_contents(*buffer).len(),
{
    buffer.len()
}

/// Calls `CircularBuffer::capacity`. It is claimed that this is the capacity
/// that the buffer was made with.
#[verifier::external_body]
fn buffer_limit(buffer: &HeapCircularBuffer<CuStampedData>) -> (n: usize)
    ensures
        n == buffer_capacity(*buffer),
{
    buffer.capacity()
}

/// Calls `CircularBuffer::get`. It is claimed that this is the message at the
/// given place from the oldest one, and nothing behind the last one.
#[verifier::external_body]
fn buffer_get(buffer: &HeapCircularBuffer<CuStampedData>, i: usize) -> (msg: Option<&CuStampedData>)
    ensures
        msg is Some == (i < buffer_contents(*buffer).len()),
        msg matches Some(m) ==> *m == buffer_contents(*buffer)[i as int],
{
    buffer.get(i)
}

/// The messages after one more was pushed into a buffer.
pub open spec fn pushed<T>(contents: Seq<T>, capacity: nat, msg: T) -> Seq<T> {
    if capacity == 0 {
        contents
    } else if contents.len() >= capacity {
        contents.drop_first().push(msg)
    } else {
        contents.push(msg)
    }
}

/// Calls `CircularBuffer::push_back`. It is claimed that the message goes to
/// the back, that a full buffer loses its front, and that a buffer without any
/// room stays as it is.
#[verifier::external_body]
fn buffer_push(buffer: &mut HeapCircularBuffer<CuStampedData>, msg: CuStampedData)
    ensures
        buffer_contents(*final(buffer)) == pushed(
            buffer_contents(*old(buffer)),
            buffer_capacity(*old(buffer)),
            msg,
        ),
        buffer_capacity(*final(buffer)) == buffer_capacity(*old(buffer)),
{
    buffer.push_back(msg);
}

/// Calls `CircularBuffer::drain` on the first `n` messages and drops what it
/// hands out. It is claimed that these messages leave the buffer and the
/// others keep their order.
#[verifier::external_body]
fn buffer_drain_front(buffer: &mut HeapCircularBuffer<CuStampedData>, n: usize)
    requires
        n <= buffer_contents(*old(buffer)).len(),
    ensures
        buffer_contents(*final(buffer)) == buffer_contents(*old(buffer)).skip(n as int),
        buffer_capacity(*final(buffer)) == buffer_capacity(*old(buffer)),
{
    buffer.drain(..n);
}

/// Calls `CircularBuffer::clear`. It is claimed that the buffer is empty
/// afterwards.
#[verifier::external_body]
fn buffer_clear(buffer: &mut HeapCircularBuffer<CuStampedData>)
    ensures
        buffer_contents(*final(buffer)) == Seq::<CuStampedData>::empty(),
        buffer_capacity(*final(buffer)) == buffer_capacity(*old(buffer)),
{
    buffer.clear();
}

// ---------------------------------------------------------------------------
// Time
// ---------------------------------------------------------------------------

/// The time at which a message starts.
pub open spec fn left_time(tov: Tov) -> Option<u64> {
    match tov {
        Tov::Time(time) => Some(time),
        Tov::Range(range) => Some(range.start),
        Tov::Untimed => None,
    }
}

/// The time at which a message ends.
pub open spec fn right_time(tov: Tov) -> Option<u64> {
    match tov {
        Tov::Time(time) => Some(time),
        Tov::Range(range) => Some(range.end),
        Tov::Untimed => None,
    }
}

/// The start of the message is used for alignment.
pub fn extract_tov_time_left(tov: &Tov) -> (r: Option<u64>)
    ensures
        r == left_time(*tov),
{
    match tov {
        Tov::Time(time) => Some(*time),
        Tov::Range(range) => Some(range.start),
        Tov::Untimed => None,
    }
}

/// The end of the message is used for alignment.
pub fn extract_tov_time_right(tov: &Tov) -> (r: Option<u64>)
    ensures
        r == right_time(*tov),
{
    match tov {
        Tov::Time(time) => Some(*time),
        Tov::Range(range) => Some(range.end),
        Tov::Untimed => None,
    }
}

/// Whether a message lies inside a window.
pub open spec fn in_window(tov: Tov, start: u64, end: u64) -> bool {
    match tov {
        Tov::Time(time) => start <= time <= end,
        Tov::Range(range) => range.start >= start && range.end <= end,
        Tov::Untimed => false,
    }
}

/// The messages among the first `n` that lie inside a window.
pub open spec fn window(msgs: Seq<CuStampedData>, start: u64, end: u64, n: nat) -> Seq<CuStampedData>
    decreases n,
{
    if n == 0 {
        Seq::empty()
    } else {
        let rest = window(msgs, start, end, (n - 1) as nat);
        if in_window(msgs[n - 1].tov, start, end) {
            rest.push(msgs[n - 1])
        } else {
            rest
        }
    }
}

/// Whether a message reaches the horizon.
pub open spec fn is_fresh(tov: Tov, horizon: u64) -> bool {
    right_time(tov) matches Some(time) && time >= horizon
}

/// The place of the first message from `i` on that reaches the horizon.
pub open spec fn first_fresh(msgs: Seq<CuStampedData>, horizon: u64, i: nat) -> nat
    decreases msgs.len() - i,
{
    if i >= msgs.len() || is_fresh(msgs[i as int].tov, horizon) {
        i
    } else {
        first_fresh(msgs, horizon, i + 1)
    }
}

/// The latest end among the first `n` messages, `Err` when one has no time.
pub open spec fn latest(msgs: Seq<CuStampedData>, n: nat) -> Result<Option<u64>, ()>
    decreases n,
{
    if n == 0 {
        Ok(None)
    } else {
        match (latest(msgs, (n - 1) as nat), right_time(msgs[n - 1].tov)) {
            (Err(_), _) => Err(()),
            (Ok(_), None) => Err(()),
            (Ok(Some(so_far)), Some(time)) => Ok(
                Some(
                    if so_far >= time {
                        so_far
                    } else {
                        time
                    },
                ),
            ),
            (Ok(None), Some(time)) => Ok(Some(time)),
        }
    }
}

/// An augmented circular buffer that allows for time-based operations.
///
/// It is assumed to be sorted by time, with ranges that do not overlap.
pub struct TimeboundCircularBuffer {
    inner: HeapCircularBuffer<CuStampedData>,
}

impl TimeboundCircularBuffer {
    /// The messages, the oldest one first.
    pub closed spec fn contents(self) -> Seq<CuStampedData> {
        buffer_contents(self.inner)
    }

    /// How many messages it can hold.
    pub closed spec fn limit(self) -> nat {
        buffer_capacity(self.inner)
    }

    /// Whether it holds no more than it can.
    pub open spec fn wf(self) -> bool {
        self.contents().len() <= self.limit()
    }

    /// An empty buffer for so many messages.
    pub fn new(capacity: usize) -> (r: Self)
        requires
            allocatable(capacity),
        ensures
            r.wf(),
            r.contents() == Seq::<CuStampedData>::empty(),
            r.limit() == capacity,
    {
        TimeboundCircularBuffer { inner: buffer_with_capacity(capacity) }
    }

    /// How many messages it holds.
    pub fn len(&self) -> (n: usize)
        ensures
            n == self.contents().len(),
    {
        buffer_len(&self.inner)
    }

    /// How many messages it can hold.
    pub fn capacity(&self) -> (n: usize)
        ensures
            n == self.limit(),
    {
        buffer_limit(&self.inner)
    }

    /// The message at a place, counted from the oldest one.
    pub fn get(&self, i: usize) -> (msg: Option<&CuStampedData>)
        ensures
            msg is Some == (i < self.contents().len()),
            msg matches Some(m) ==> *m == self.contents()[i as int],
    {
        buffer_get(&self.inner, i)
    }

    /// The messages that fall within the given time range. A message with a
    /// range is included if its start and end time fall within it.
    pub fn iter_window(&self, start_time: u64, end_time: u64) -> (r: Vec<&CuStampedData>)
        ensures
            r@.len() == window(self.contents(), start_time, end_time, self.contents().len()).len(),
            forall|i: int|
                0 <= i < r@.len() ==> *(#[trigger] r@[i]) == window(
                    self.contents(),
                    start_time,
                    end_time,
                    self.contents().len(),
                )[i],
    {
        let ghost msgs = self.contents();
        let n: usize = buffer_len(&self.inner);
        let mut r: Vec<&CuStampedData> = Vec::new();
        let mut i: usize = 0;
        while i < n
            invariant
                i <= n,
                n == msgs.len(),
                msgs == self.contents(),
                r@.len() == window(msgs, start_time, end_time, i as nat).len(),
                forall|k: int| 0 <= k < r@.len() ==> *(#[trigger] r@[k]) == window(msgs, start_time, end_time, i as nat)[k],
            decreases n - i,
        {
            if let Some(msg) = buffer_get(&self.inner, i) {
                let inside: bool = match msg.tov {
                    Tov::Time(time) => time >= start_time && time <= end_time,
                    Tov::Range(range) => range.start >= start_time && range.end <= end_time,
                    Tov::Untimed => false,
                };
                if inside {
                    r.push(msg);
                }
            }
            i = i + 1;
        }
        r
    }

    /// Remove the messages that are older than the given time horizon: all
    /// that come before the first one that reaches it.
    pub fn purge(&mut self, time_horizon: u64)
        requires
            old(self).wf(),
        ensures
            final(self).wf(),
            final(self).limit() == old(self).limit(),
            final(self).contents() == old(self).contents().skip(
                first_fresh(old(self).contents(), time_horizon, 0) as int,
            ),
    {
        let ghost msgs = self.contents();
        let n: usize = buffer_len(&self.inner);
        let mut drain_end: usize = 0;
        let mut searching: bool = true;
        while searching && drain_end < n
            invariant
                drain_end <= n,
                n == msgs.len(),
                msgs == self.contents(),
                *self == *old(self),
                first_fresh(msgs, time_horizon, 0) == first_fresh(msgs, time_horizon, drain_end as nat),
                !searching ==> drain_end < n && is_fresh(msgs[drain_end as int].tov, time_horizon),
            decreases
                n - drain_end + (if searching {
                    1int
                } else {
                    0int
                }),
        {
            if let Some(msg) = buffer_get(&self.inner, drain_end) {
                let fresh: bool = match msg.tov {
                    Tov::Time(time) => time >= time_horizon,
                    Tov::Range(range) => range.end >= time_horizon,
                    Tov::Untimed => false,
                };
                if fresh {
                    searching = false;
                } else {
                    drain_end = drain_end + 1;
                }
            } else {
                drain_end = drain_end + 1;
            }
        }
        buffer_drain_front(&mut self.inner, drain_end);
    }

    /// Get the most recent time of the messages in the buffer.
    pub fn most_recent_time(&self) -> (r: CuResult<Option<u64>>)
        ensures
            match latest(self.contents(), self.contents().len()) {
                Ok(time) => r == Ok::<Option<u64>, CuError>(time),
                Err(_) => failure_text(r) == Some("Trying to align temporal data with no time information"@),
            },
    {
        let ghost msgs = self.contents();
        let n: usize = buffer_len(&self.inner);
        let mut recent: Option<u64> = None;
        let mut i: usize = 0;
        while i < n
            invariant
                i <= n,
                n == msgs.len(),
                msgs == self.contents(),
                latest(msgs, i as nat) == Ok::<Option<u64>, ()>(recent),
            decreases n - i,
        {
            if let Some(msg) = buffer_get(&self.inner, i) {
                match extract_tov_time_right(&msg.tov) {
                    Some(time) => {
                        recent = match recent {
                            Some(so_far) => if so_far >= time {
                                Some(so_far)
                            } else {
                                Some(time)
                            },
                            None => Some(time),
                        };
                    },
                    None => {
                        proof {
                            lemma_latest_fails(msgs, (i + 1) as nat, msgs.len());
                        }
                        return Err(CuError::of("Trying to align temporal data with no time information"));
                    },
                }
            }
            i = i + 1;
        }
        Ok(recent)
    }

    /// Push a message into the buffer.
    pub fn push(&mut self, msg: CuStampedData)
        requires
            old(self).wf(),
        ensures
            final(self).wf(),
            final(self).limit() == old(self).limit(),
            final(self).contents() == pushed(old(self).contents(), old(self).limit(), msg),
    {
        buffer_push(&mut self.inner, msg);
    }
}

proof fn lemma_latest_fails(msgs: Seq<CuStampedData>, i: nat, n: nat)
    requires
        i <= n,
        latest(msgs, i) is Err,
    ensures
        latest(msgs, n) is Err,
    decreases n,
{
    if i < n {
        lemma_latest_fails(msgs, i, (n - 1) as nat);
    }
}

// ---------------------------------------------------------------------------
// Snapshots
// ---------------------------------------------------------------------------

/// How another party writes a message as bytes.
pub type EncodeFn = spec_fn(StampedModel) -> Result<Seq<u8>, SnapshotFailure>;

/// How another party reads a message from bytes, and how many it reads.
pub type DecodeFn = spec_fn(Seq<u8>) -> Result<(StampedModel, nat), SnapshotFailure>;

/// Bytes, or what is wrong.
pub open spec fn bytes_outcome(r: Result<Vec<u8>, SnapshotError>) -> Result<Seq<u8>, SnapshotFailure> {
    match r {
        Ok(bytes) => Ok(bytes@),
        Err(e) => Err(e@),
    }
}

/// A message and its length, or what is wrong.
pub open spec fn msg_outcome(r: Result<(CuStampedData, usize), SnapshotError>) -> Result<
    (StampedModel, nat),
    SnapshotFailure,
> {
    match r {
        Ok((msg, n)) => Ok((msg@, n as nat)),
        Err(e) => Err(e@),
    }
}

/// A place, or what is wrong.
pub open spec fn place_outcome(r: Result<usize, SnapshotError>) -> Result<nat, SnapshotFailure> {
    match r {
        Ok(n) => Ok(n as nat),
        Err(e) => Err(e@),
    }
}

/// Whether `encode` writes messages as `g` says.
pub open spec fn writes<E: Fn(&CuStampedData) -> Result<Vec<u8>, SnapshotError>>(encode: E, g: EncodeFn) -> bool {
    forall|msg: CuStampedData, r: Result<Vec<u8>, SnapshotError>| #[trigger]
        call_ensures(encode, (&msg,), r) ==> bytes_outcome(r) == g(msg@)
}

/// Whether `decode` reads messages as `f` says.
pub open spec fn reads<D: Fn(&Vec<u8>) -> Result<(CuStampedData, usize), SnapshotError>>(decode: D, f: DecodeFn) -> bool {
    forall|bytes: Vec<u8>, r: Result<(CuStampedData, usize), SnapshotError>| #[trigger]
        call_ensures(decode, (&bytes,), r) ==> msg_outcome(r) == f(bytes@)
}

/// The snapshot of one message: the length of its bytes, and the bytes.
pub open spec fn frozen_msg(msg: StampedModel, g: EncodeFn) -> Result<Seq<u8>, SnapshotFailure> {
    match g(msg) {
        Err(e) => Err(e),
        Ok(bytes) => if bytes.len() > MAX_MSG_SNAPSHOT_BYTES {
            Err(SnapshotFailure::Other("alignment buffer message is too large to snapshot"@))
        } else {
            Ok(varint(bytes.len() as u64) + bytes)
        },
    }
}

/// The number of messages, and the snapshots of the first `n` ones.
pub open spec fn frozen(msgs: Seq<StampedModel>, g: EncodeFn, n: nat) -> Result<Seq<u8>, SnapshotFailure>
    decreases n,
{
    if n == 0 {
        Ok(varint(msgs.len() as u64))
    } else {
        match (frozen(msgs, g, (n - 1) as nat), frozen_msg(msgs[n - 1], g)) {
            (Err(e), _) => Err(e),
            (Ok(_), Err(e)) => Err(e),
            (Ok(head), Ok(tail)) => Ok(head + tail),
        }
    }
}

/// The message whose snapshot stands at a place, and the place behind it.
pub open spec fn thawed_msg(bytes: Seq<u8>, at: nat, f: DecodeFn) -> Result<(StampedModel, nat), SnapshotFailure> {
    match read_varint(bytes.skip(at as int)) {
        Err(e) => Err(e),
        Ok((declared, width)) => if declared > usize::MAX {
            Err(SnapshotFailure::OutsideUsizeRange(declared))
        } else if declared > MAX_MSG_SNAPSHOT_BYTES {
            Err(SnapshotFailure::LimitExceeded)
        } else if at + width + declared > bytes.len() {
            Err(SnapshotFailure::UnexpectedEnd)
        } else {
            let end = (at + width + declared) as nat;
            match f(bytes.subrange((at + width) as int, end as int)) {
                Err(e) => Err(e),
                Ok((msg, n)) => if n != declared {
                    Err(SnapshotFailure::Other("alignment buffer message snapshot had trailing bytes"@))
                } else {
                    Ok((msg, end))
                },
            }
        },
    }
}

/// The messages whose snapshots stand in a row, up to the first that cannot
/// be read, and the place behind them or what is wrong.
pub open spec fn thawed_msgs(bytes: Seq<u8>, at: nat, f: DecodeFn, n: nat) -> (
    Seq<StampedModel>,
    Result<nat, SnapshotFailure>,
)
    decreases n,
{
    if n == 0 {
        (Seq::empty(), Ok(at))
    } else {
        let (list, place) = thawed_msgs(bytes, at, f, (n - 1) as nat);
        match place {
            Err(e) => (list, Err(e)),
            Ok(here) => match thawed_msg(bytes, here, f) {
                Err(e) => (list, Err(e)),
                Ok((msg, next)) => (list.push(msg), Ok(next)),
            },
        }
    }
}

/// What a buffer holds after a snapshot was read into it, and the place behind
/// the snapshot or what is wrong. A snapshot that is refused for its number of
/// messages leaves the buffer alone; one that goes wrong later leaves the
/// messages read so far.
pub open spec fn thawed(
    before: Seq<StampedModel>,
    limit: nat,
    bytes: Seq<u8>,
    at: nat,
    f: DecodeFn,
) -> (Seq<StampedModel>, Result<nat, SnapshotFailure>) {
    match read_varint(bytes.skip(at as int)) {
        Err(e) => (before, Err(e)),
        Ok((len, width)) => if len > usize::MAX {
            (before, Err(SnapshotFailure::Other("alignment buffer length does not fit usize"@)))
        } else if len > limit {
            (
                before,
                Err(SnapshotFailure::ArrayLengthMismatch { required: limit as usize, found: len as usize }),
            )
        } else {
            thawed_msgs(bytes, at + width, f, len as nat)
        },
    }
}

proof fn lemma_frozen_fails(msgs: Seq<StampedModel>, g: EncodeFn, i: nat, n: nat)
    requires
        i <= n,
        frozen(msgs, g, i) is Err,
    ensures
        frozen(msgs, g, n) == frozen(msgs, g, i),
    decreases n,
{
    if i < n {
        lemma_frozen_fails(msgs, g, i, (n - 1) as nat);
    }
}

proof fn lemma_thawed_fails(bytes: Seq<u8>, at: nat, f: DecodeFn, i: nat, n: nat)
    requires
        i <= n,
        thawed_msgs(bytes, at, f, i).1 is Err,
    ensures
        thawed_msgs(bytes, at, f, n) == thawed_msgs(bytes, at, f, i),
    decreases n,
{
    if i < n {
        lemma_thawed_fails(bytes, at, f, i, (n - 1) as nat);
    }
}

/// The bytes `at..at + n`, read in chunks so that a length that the input
/// cannot satisfy costs no more than what really arrived.
fn read_chunks(bytes: &Vec<u8>, at: usize, n: usize) -> (r: Option<Vec<u8>>)
    requires
        at <= bytes@.len(),
    ensures
        r is Some == (at + n <= bytes@.len()),
        r matches Some(part) ==> part@ == bytes@.subrange(at as int, at + n),
{
    let mut part: Vec<u8> = Vec::new();
    let mut here: usize = at;
    let mut remaining: usize = n;
    assert(part@ =~= bytes@.subrange(at as int, here as int));
    while remaining > 0
        invariant
            at <= here <= bytes@.len(),
            here - at + remaining == n,
            part@ == bytes@.subrange(at as int, here as int),
        decreases remaining,
    {
        let take: usize = if remaining < SNAPSHOT_READ_CHUNK {
            remaining
        } else {
            SNAPSHOT_READ_CHUNK
        };
        if take > bytes.len() - here {
            return None;
        }
        let stop: usize = here + take;
        let ghost from = here;
        while here < stop
            invariant
                at <= from <= here <= stop <= bytes@.len(),
                part@ == bytes@.subrange(at as int, here as int),
            decreases stop - here,
        {
            part.push(bytes[here]);
            assert(part@ =~= bytes@.subrange(at as int, here + 1));
            here = here + 1;
        }
        remaining = remaining - take;
    }
    Some(part)
}

/// Reads the message whose snapshot stands at a place.
fn decode_buffered_msg<D: Fn(&Vec<u8>) -> Result<(CuStampedData, usize), SnapshotError>>(
    bytes: &Vec<u8>,
    at: usize,
    decode: &D,
) -> (r: Result<(CuStampedData, usize), SnapshotError>)
    requires
        at <= bytes@.len(),
        forall|part: Vec<u8>| #[trigger] call_requires(*decode, (&part,)),
    ensures
        r matches Ok((_, next)) ==> at <= next <= bytes@.len(),
        forall|f: DecodeFn| #[trigger] reads(*decode, f) ==> msg_outcome(r) == thawed_msg(bytes@, at as nat, f),
{
    let total: usize = bytes.len();
    let (declared, width) = match decode_number(bytes, at) {
        Ok(found) => found,
        Err(e) => {
            return Err(e);
        },
    };
    assert(at + width <= total);
    if declared > usize::MAX as u64 {
        return Err(SnapshotError::OutsideUsizeRange(declared));
    }
    let n: usize = declared as usize;
    if n > MAX_MSG_SNAPSHOT_BYTES {
        return Err(SnapshotError::LimitExceeded);
    }
    let start: usize = at + width;
    let part: Vec<u8> = match read_chunks(bytes, start, n) {
        Some(part) => part,
        None => {
            return Err(SnapshotError::UnexpectedEnd);
        },
    };
    match decode(&part) {
        Ok((msg, got)) => {
            if got != part.len() {
                return Err(
                    SnapshotError::Other("alignment buffer message snapshot had trailing bytes".to_owned()),
                );
            }
            Ok((msg, start + n))
        },
        Err(e) => Err(e),
    }
}

/// Appends the snapshot of one message.
fn encode_buffered_msg<E: Fn(&CuStampedData) -> Result<Vec<u8>, SnapshotError>>(
    out: &mut Vec<u8>,
    msg: &CuStampedData,
    encode: &E,
) -> (r: Result<(), SnapshotError>)
    requires
        forall|m: CuStampedData| #[trigger] call_requires(*encode, (&m,)),
    ensures
        forall|g: EncodeFn| #[trigger]
            writes(*encode, g) ==> match (r, frozen_msg(msg@, g)) {
                (Ok(_), Ok(more)) => final(out)@ == old(out)@ + more,
                (Err(e), Err(told)) => e@ == told,
                _ => false,
            },
{
    let bytes: Vec<u8> = match encode(msg) {
        Ok(bytes) => bytes,
        Err(e) => {
            return Err(e);
        },
    };
    if bytes.len() > MAX_MSG_SNAPSHOT_BYTES {
        return Err(SnapshotError::Other("alignment buffer message is too large to snapshot".to_owned()));
    }
    let head: Vec<u8> = match encode_number(bytes.len() as u64) {
        Ok(head) => head,
        Err(e) => {
            return Err(e);
        },
    };
    let ghost before = out@;
    push_all(out, &head);
    push_all(out, &bytes);
    assert(out@ =~= before + (head@ + bytes@));
    Ok(())
}

fn push_all(out: &mut Vec<u8>, more: &Vec<u8>)
    ensures
        final(out)@ == old(out)@ + more@,
{
    let ghost before = out@;
    let mut i: usize = 0;
    assert(before + more@.take(0) =~= before);
    while i < more.len()
        invariant
            i <= more@.len(),
            out@ == before + more@.take(i as int),
        decreases more@.len() - i,
    {
        out.push(more[i]);
        assert(out@ =~= before + more@.take(i + 1));
        i = i + 1;
    }
    assert(more@.take(i as int) =~= more@);
}

impl TimeboundCircularBuffer {
    /// The snapshot of the buffer. `encode` writes one message as bytes.
    pub fn freeze<E: Fn(&CuStampedData) -> Result<Vec<u8>, SnapshotError>>(&self, encode: &E) -> (r: Result<
        Vec<u8>,
        SnapshotError,
    >)
        requires
            forall|m: CuStampedData| #[trigger] call_requires(*encode, (&m,)),
        ensures
            forall|g: EncodeFn| #[trigger]
                writes(*encode, g) ==> bytes_outcome(r) == frozen(
                    stamped(self.contents()),
                    g,
                    self.contents().len(),
                ),
    {
        let ghost msgs = self.contents();
        let n: usize = buffer_len(&self.inner);
        let mut out: Vec<u8> = match encode_number(n as u64) {
            Ok(out) => out,
            Err(e) => {
                return Err(e);
            },
        };
        let mut i: usize = 0;
        while i < n
            invariant
                i <= n,
                n == msgs.len(),
                msgs == self.contents(),
                forall|m: CuStampedData| #[trigger] call_requires(*encode, (&m,)),
                forall|g: EncodeFn| #[trigger]
                    writes(*encode, g) ==> frozen(stamped(msgs), g, i as nat) == Ok::<Seq<u8>, SnapshotFailure>(out@),
            decreases n - i,
        {
            if let Some(msg) = buffer_get(&self.inner, i) {
                assert(stamped(msgs)[i as int] == msg@);
                match encode_buffered_msg(&mut out, msg, encode) {
                    Ok(_) => {},
                    Err(e) => {
                        proof {
                            assert forall|g: EncodeFn| #[trigger] writes(*encode, g) implies frozen(
                                stamped(msgs),
                                g,
                                msgs.len(),
                            ) == Err::<Seq<u8>, SnapshotFailure>(e@) by {
                                lemma_frozen_fails(stamped(msgs), g, (i + 1) as nat, msgs.len());
                            }
                        }
                        return Err(e);
                    },
                }
            }
            i = i + 1;
        }
        Ok(out)
    }

    /// Reads the snapshot of a buffer that stands at a place, and tells the
    /// place behind it. `decode` reads one message from bytes.
    pub fn thaw<D: Fn(&Vec<u8>) -> Result<(CuStampedData, usize), SnapshotError>>(
        &mut self,
        bytes: &Vec<u8>,
        at: usize,
        decode: &D,
    ) -> (r: Result<usize, SnapshotError>)
        requires
            old(self).wf(),
            at <= bytes@.len(),
            forall|part: Vec<u8>| #[trigger] call_requires(*decode, (&part,)),
        ensures
            final(self).wf(),
            final(self).limit() == old(self).limit(),
            r matches Ok(next) ==> at <= next <= bytes@.len(),
            forall|f: DecodeFn| #[trigger]
                reads(*decode, f) ==> (stamped(final(self).contents()), place_outcome(r)) == thawed(
                    stamped(old(self).contents()),
                    old(self).limit(),
                    bytes@,
                    at as nat,
                    f,
                ),
    {
        let total: usize = bytes.len();
        let (len, width) = match decode_number(bytes, at) {
            Ok(found) => found,
            Err(e) => {
                return Err(e);
            },
        };
        assert(at + width <= total);
        if len > usize::MAX as u64 {
            return Err(SnapshotError::Other("alignment buffer length does not fit usize".to_owned()));
        }
        let count: usize = len as usize;
        let limit: usize = buffer_limit(&self.inner);
        if count > limit {
            return Err(SnapshotError::ArrayLengthMismatch { required: limit, found: count });
        }
        let start: usize = at + width;
        buffer_clear(&mut self.inner);
        let mut here: usize = start;
        let mut i: usize = 0;
        assert(stamped(self.contents()) =~= Seq::<StampedModel>::empty());
        while i < count
            invariant
                i <= count <= limit,
                limit == self.limit(),
                limit == old(self).limit(),
                self.contents().len() == i,
                at <= start <= here <= bytes@.len(),
                read_varint(bytes@.skip(at as int)) == Ok::<(u64, nat), SnapshotFailure>((len, width as nat)),
                start == at + width,
                count == len,
                forall|part: Vec<u8>| #[trigger] call_requires(*decode, (&part,)),
                forall|f: DecodeFn| #[trigger]
                    reads(*decode, f) ==> thawed_msgs(bytes@, start as nat, f, i as nat) == (
                        stamped(self.contents()),
                        Ok::<nat, SnapshotFailure>(here as nat),
                    ),
            decreases count - i,
        {
            let ghost before = stamped(self.contents());
            match decode_buffered_msg(bytes, here, decode) {
                Ok((msg, next)) => {
                    let ghost model = msg@;
                    buffer_push(&mut self.inner, msg);
                    assert(stamped(self.contents()) =~= before.push(model));
                    here = next;
                },
                Err(e) => {
                    proof {
                        assert forall|f: DecodeFn| #[trigger] reads(*decode, f) implies thawed_msgs(
                            bytes@,
                            start as nat,
                            f,
                            count as nat,
                        ) == (before, Err::<nat, SnapshotFailure>(e@)) by {
                            lemma_thawed_fails(bytes@, start as nat, f, (i + 1) as nat, count as nat);
                        }
                    }
                    return Err(e);
                },
            }
            i = i + 1;
        }
        Ok(here)
    }
}

// ---------------------------------------------------------------------------
// Several streams
// ---------------------------------------------------------------------------

/// What the buffers hold.
pub open spec fn held(buffers: Seq<TimeboundCircularBuffer>) -> Seq<Seq<CuStampedData>> {
    Seq::new(buffers.len(), |i: int| buffers[i].contents())
}

/// How much the buffers can hold.
pub open spec fn limits(buffers: Seq<TimeboundCircularBuffer>) -> Seq<nat> {
    Seq::new(buffers.len(), |i: int| buffers[i].limit())
}

/// The earliest of the latest times of the first `n` streams, without those
/// that are empty or hold a message without a time: the most recent time up to
/// which all of them have data.
pub open spec fn common_time(streams: Seq<Seq<CuStampedData>>, n: nat) -> Option<u64>
    decreases n,
{
    if n == 0 {
        None
    } else {
        let rest = common_time(streams, (n - 1) as nat);
        match latest(streams[n - 1], streams[n - 1].len()) {
            Ok(Some(time)) => match rest {
                Some(least) => if least <= time {
                    Some(least)
                } else {
                    Some(time)
                },
                None => Some(time),
            },
            _ => rest,
        }
    }
}

/// Whether the window before the common time does not reach below zero.
pub open spec fn window_fits(streams: Seq<Seq<CuStampedData>>, width: u64) -> bool {
    common_time(streams, streams.len()) matches Some(time) ==> width <= time
}

/// The messages of every stream in the window before the common time.
pub open spec fn aligned(streams: Seq<Seq<CuStampedData>>, width: u64) -> Option<Seq<Seq<CuStampedData>>> {
    match common_time(streams, streams.len()) {
        Some(time) => Some(
            Seq::new(
                streams.len(),
                |i: int| window(streams[i], (time - width) as u64, time, streams[i].len()),
            ),
        ),
        None => None,
    }
}

/// Whether references point to the given messages.
pub open spec fn point_to(refs: Seq<&CuStampedData>, msgs: Seq<CuStampedData>) -> bool {
    refs.len() == msgs.len() && forall|i: int| 0 <= i < refs.len() ==> *(#[trigger] refs[i]) == msgs[i]
}

/// The snapshots of the first `n` streams, one after the other.
pub open spec fn frozen_all(streams: Seq<Seq<CuStampedData>>, g: EncodeFn, n: nat) -> Result<Seq<u8>, SnapshotFailure>
    decreases n,
{
    if n == 0 {
        Ok(Seq::empty())
    } else {
        match (frozen_all(streams, g, (n - 1) as nat), frozen(stamped(streams[n - 1]), g, streams[n - 1].len())) {
            (Err(e), _) => Err(e),
            (Ok(_), Err(e)) => Err(e),
            (Ok(head), Ok(tail)) => Ok(head + tail),
        }
    }
}

/// What the first `n` buffers hold after their snapshots were read one after
/// the other, and the place behind them or what is wrong. Buffers behind a
/// wrong snapshot stay as they are.
pub open spec fn thawed_all(
    before: Seq<Seq<CuStampedData>>,
    limits: Seq<nat>,
    bytes: Seq<u8>,
    at: nat,
    f: DecodeFn,
    n: nat,
) -> (Seq<Seq<StampedModel>>, Result<nat, SnapshotFailure>)
    decreases n,
{
    if n == 0 {
        (Seq::empty(), Ok(at))
    } else {
        let (list, place) = thawed_all(before, limits, bytes, at, f, (n - 1) as nat);
        match place {
            Err(e) => (list.push(stamped(before[n - 1])), Err(e)),
            Ok(here) => {
                let (msgs, next) = thawed(stamped(before[n - 1]), limits[n - 1], bytes, here, f);
                (list.push(msgs), next)
            },
        }
    }
}

/// What lists of messages say.
pub open spec fn all_stamped(streams: Seq<Seq<CuStampedData>>) -> Seq<Seq<StampedModel>> {
    Seq::new(streams.len(), |i: int| stamped(streams[i]))
}

/// A buffer per stream, and how they are aligned.
pub struct AlignmentBuffers {
    /// Size of the most recent data window to align, in nanoseconds.
    target_alignment_window: u64,
    /// Time horizon for purging stale data, in nanoseconds.
    stale_data_horizon: u64,
    buffers: Vec<TimeboundCircularBuffer>,
}

impl AlignmentBuffers {
    /// What the buffers hold.
    pub closed spec fn streams(self) -> Seq<Seq<CuStampedData>> {
        held(self.buffers@)
    }

    /// How much the buffers can hold.
    pub closed spec fn capacities(self) -> Seq<nat> {
        limits(self.buffers@)
    }

    /// The size of the window to align.
    pub closed spec fn width(self) -> u64 {
        self.target_alignment_window
    }

    /// The time after which data is stale.
    pub closed spec fn horizon(self) -> u64 {
        self.stale_data_horizon
    }

    /// Whether no buffer holds more than it can.
    pub open spec fn wf(self) -> bool {
        self.capacities().len() == self.streams().len() && forall|i: int|
            0 <= i < self.streams().len() ==> (#[trigger] self.streams()[i]).len() <= self.capacities()[i]
    }

    /// Empty buffers for so many messages each.
    pub fn new(target_alignment_window: u64, stale_data_horizon: u64, capacities: &Vec<usize>) -> (r: Self)
        requires
            forall|i: int| 0 <= i < capacities@.len() ==> allocatable(#[trigger] capacities@[i]),
        ensures
            r.wf(),
            r.width() == target_alignment_window,
            r.horizon() == stale_data_horizon,
            r.streams() == Seq::new(capacities@.len(), |i: int| Seq::<CuStampedData>::empty()),
            r.capacities() == Seq::new(capacities@.len(), |i: int| capacities@[i] as nat),
    {
        let mut buffers: Vec<TimeboundCircularBuffer> = Vec::new();
        let mut i: usize = 0;
        while i < capacities.len()
            invariant
                i <= capacities@.len(),
                forall|k: int| 0 <= k < capacities@.len() ==> allocatable(#[trigger] capacities@[k]),
                buffers@.len() == i,
                forall|k: int|
                    0 <= k < i ==> (#[trigger] buffers@[k]).contents() == Seq::<CuStampedData>::empty()
                        && buffers@[k].limit() == capacities@[k],
            decreases capacities@.len() - i,
        {
            assert(allocatable(capacities@[i as int]));
            buffers.push(TimeboundCircularBuffer::new(capacities[i]));
            i = i + 1;
        }
        assert(held(buffers@) =~= Seq::new(capacities@.len(), |i: int| Seq::<CuStampedData>::empty()));
        assert(limits(buffers@) =~= Seq::new(capacities@.len(), |i: int| capacities@[i] as nat));
        AlignmentBuffers { target_alignment_window, stale_data_horizon, buffers }
    }

    /// How many messages stream `i` holds.
    pub fn len(&self, i: usize) -> (n: usize)
        requires
            i < self.streams().len(),
        ensures
            n == self.streams()[i as int].len(),
    {
        self.buffers[i].len()
    }

    /// How many messages stream `i` can hold.
    pub fn capacity(&self, i: usize) -> (n: usize)
        requires
            i < self.capacities().len(),
        ensures
            n == self.capacities()[i as int],
    {
        self.buffers[i].capacity()
    }

    /// Push a message into the buffer of stream `i`.
    pub fn push(&mut self, i: usize, msg: CuStampedData)
        requires
            old(self).wf(),
            i < old(self).streams().len(),
        ensures
            final(self).wf(),
            final(self).width() == old(self).width(),
            final(self).horizon() == old(self).horizon(),
            final(self).capacities() == old(self).capacities(),
            final(self).streams() == old(self).streams().update(
                i as int,
                pushed(old(self).streams()[i as int], old(self).capacities()[i as int], msg),
            ),
    {
        assert(self.streams()[i as int].len() <= self.capacities()[i as int]);
        self.buffers[i].push(msg);
        assert(self.capacities() =~= old(self).capacities());
        assert(self.streams() =~= old(self).streams().update(
            i as int,
            pushed(old(self).streams()[i as int], old(self).capacities()[i as int], msg),
        ));
    }

    /// Discards the old, no longer relevant data.
    pub fn purge(&mut self, now: u64)
        requires
            old(self).wf(),
            old(self).horizon() <= now,
        ensures
            final(self).wf(),
            final(self).width() == old(self).width(),
            final(self).horizon() == old(self).horizon(),
            final(self).capacities() == old(self).capacities(),
            final(self).streams() == Seq::new(
                old(self).streams().len(),
                |i: int|
                    old(self).streams()[i].skip(
                        first_fresh(old(self).streams()[i], (now - old(self).horizon()) as u64, 0) as int,
                    ),
            ),
            final(self).streams() == purged(old(self).streams(), old(self).horizon(), now),
    {
        let horizon_time: u64 = now - self.stale_data_horizon;
        let ghost before = self.streams();
        let ghost caps = self.capacities();
        let ghost goal = Seq::new(
            before.len(),
            |i: int| before[i].skip(first_fresh(before[i], horizon_time, 0) as int),
        );
        let mut i: usize = 0;
        while i < self.buffers.len()
            invariant
                i <= self.buffers@.len(),
                self.buffers@.len() == before.len(),
                caps.len() == before.len(),
                before == old(self).streams(),
                caps == old(self).capacities(),
                old(self).wf(),
                self.target_alignment_window == old(self).target_alignment_window,
                self.stale_data_horizon == old(self).stale_data_horizon,
                goal == Seq::new(
                    before.len(),
                    |i: int| before[i].skip(first_fresh(before[i], horizon_time, 0) as int),
                ),
                forall|k: int| 0 <= k < self.buffers@.len() ==> (#[trigger] self.buffers@[k]).limit() == caps[k],
                forall|k: int| 0 <= k < i ==> (#[trigger] self.buffers@[k]).contents() == goal[k],
                forall|k: int| i <= k < self.buffers@.len() ==> (#[trigger] self.buffers@[k]).contents() == before[k],
            decreases self.buffers@.len() - i,
        {
            proof {
                assert(self.buffers@[i as int].contents() == before[i as int]);
                assert(before[i as int].len() <= caps[i as int]);
            }
            self.buffers[i].purge(horizon_time);
            i = i + 1;
        }
        proof {
            assert(self.streams() =~= goal);
            assert(self.capacities() =~= caps);
            assert forall|k: int| 0 <= k < self.streams().len() implies (#[trigger] self.streams()[k]).len()
                <= self.capacities()[k] by {
                assert(before[k].len() <= caps[k]);
                lemma_first_fresh(before[k], horizon_time, 0);
            }
        }
    }

    /// The most recent time up to which every stream that can tell has data.
    pub fn latest_common_time(&self) -> (r: Option<u64>)
        ensures
            r == common_time(self.streams(), self.streams().len()),
    {
        let ghost streams = self.streams();
        let mut r: Option<u64> = None;
        let mut i: usize = 0;
        while i < self.buffers.len()
            invariant
                i <= self.buffers@.len(),
                streams == self.streams(),
                streams.len() == self.buffers@.len(),
                r == common_time(streams, i as nat),
            decreases self.buffers@.len() - i,
        {
            assert(streams[i as int] == self.buffers@[i as int].contents());
            if let Ok(Some(time)) = self.buffers[i].most_recent_time() {
                r = match r {
                    Some(least) => if least <= time {
                        Some(least)
                    } else {
                        Some(time)
                    },
                    None => Some(time),
                };
            }
            i = i + 1;
        }
        r
    }

    /// Whether the window before the common time does not reach below zero.
    pub fn has_window(&self) -> (r: bool)
        ensures
            r == window_fits(self.streams(), self.width()),
    {
        match self.latest_common_time() {
            Some(time) => self.target_alignment_window <= time,
            None => true,
        }
    }

    /// Get the most recent set of aligned data from all the buffers matching
    /// the constraints set at construction.
    pub fn get_latest_aligned_data(&self) -> (r: Option<Vec<Vec<&CuStampedData>>>)
        requires
            window_fits(self.streams(), self.width()),
        ensures
            match (r, aligned(self.streams(), self.width())) {
                (Some(lists), Some(told)) => lists@.len() == told.len() && forall|i: int|
                    0 <= i < told.len() ==> point_to((#[trigger] lists@[i])@, told[i]),
                (None, None) => true,
                _ => false,
            },
    {
        let time: u64 = match self.latest_common_time() {
            Some(time) => time,
            None => {
                return None;
            },
        };
        let start: u64 = time - self.target_alignment_window;
        let ghost streams = self.streams();
        let mut lists: Vec<Vec<&CuStampedData>> = Vec::new();
        let mut i: usize = 0;
        while i < self.buffers.len()
            invariant
                i <= self.buffers@.len(),
                streams == self.streams(),
                streams.len() == self.buffers@.len(),
                lists@.len() == i,
                forall|k: int|
                    0 <= k < i ==> point_to(
                        (#[trigger] lists@[k])@,
                        window(streams[k], start, time, streams[k].len()),
                    ),
            decreases self.buffers@.len() - i,
        {
            assert(streams[i as int] == self.buffers@[i as int].contents());
            let list: Vec<&CuStampedData> = self.buffers[i].iter_window(start, time);
            lists.push(list);
            i = i + 1;
        }
        Some(lists)
    }

    /// The snapshots of all buffers, one after the other.
    pub fn freeze<E: Fn(&CuStampedData) -> Result<Vec<u8>, SnapshotError>>(&self, encode: &E) -> (r: Result<
        Vec<u8>,
        SnapshotError,
    >)
        requires
            forall|m: CuStampedData| #[trigger] call_requires(*encode, (&m,)),
        ensures
            forall|g: EncodeFn| #[trigger]
                writes(*encode, g) ==> bytes_outcome(r) == frozen_all(self.streams(), g, self.streams().len()),
    {
        let ghost streams = self.streams();
        let mut out: Vec<u8> = Vec::new();
        let mut i: usize = 0;
        while i < self.buffers.len()
            invariant
                i <= self.buffers@.len(),
                streams == self.streams(),
                streams.len() == self.buffers@.len(),
                forall|m: CuStampedData| #[trigger] call_requires(*encode, (&m,)),
                forall|g: EncodeFn| #[trigger]
                    writes(*encode, g) ==> frozen_all(streams, g, i as nat) == Ok::<Seq<u8>, SnapshotFailure>(out@),
            decreases self.buffers@.len() - i,
        {
            assert(streams[i as int] == self.buffers@[i as int].contents());
            match self.buffers[i].freeze(encode) {
                Ok(more) => {
                    push_all(&mut out, &more);
                },
                Err(e) => {
                    proof {
                        assert forall|g: EncodeFn| #[trigger] writes(*encode, g) implies frozen_all(
                            streams,
                            g,
                            streams.len(),
                        ) == Err::<Seq<u8>, SnapshotFailure>(e@) by {
                            lemma_frozen_all_fails(streams, g, (i + 1) as nat, streams.len());
                        }
                    }
                    return Err(e);
                },
            }
            i = i + 1;
        }
        Ok(out)
    }

    /// Reads the snapshots of all buffers, one after the other, and tells the
    /// place behind them.
    pub fn thaw<D: Fn(&Vec<u8>) -> Result<(CuStampedData, usize), SnapshotError>>(
        &mut self,
        bytes: &Vec<u8>,
        at: usize,
        decode: &D,
    ) -> (r: Result<usize, SnapshotError>)
        requires
            old(self).wf(),
            at <= bytes@.len(),
            forall|part: Vec<u8>| #[trigger] call_requires(*decode, (&part,)),
        ensures
            final(self).wf(),
            final(self).width() == old(self).width(),
            final(self).horizon() == old(self).horizon(),
            final(self).capacities() == old(self).capacities(),
            final(self).streams().len() == old(self).streams().len(),
            forall|f: DecodeFn| #[trigger]
                reads(*decode, f) ==> (all_stamped(final(self).streams()), place_outcome(r)) == thawed_all(
                    old(self).streams(),
                    old(self).capacities(),
                    bytes@,
                    at as nat,
                    f,
                    old(self).streams().len(),
                ),
    {
        let ghost before = self.streams();
        let ghost caps = self.capacities();
        let mut here: usize = at;
        let mut failed: Option<SnapshotError> = None;
        proof {
            assert forall|k: int| 0 <= k < self.buffers@.len() implies (#[trigger] self.buffers@[k]).contents().len()
                <= caps[k] by {
                assert(self.streams()[k].len() <= self.capacities()[k]);
            }
            assert(all_stamped(held(self.buffers@).take(0)) =~= Seq::<Seq<StampedModel>>::empty());
        }
        let mut i: usize = 0;
        while i < self.buffers.len()
            invariant
                i <= self.buffers@.len(),
                self.buffers@.len() == before.len(),
                caps.len() == before.len(),
                before == old(self).streams(),
                caps == old(self).capacities(),
                old(self).wf(),
                self.target_alignment_window == old(self).target_alignment_window,
                self.stale_data_horizon == old(self).stale_data_horizon,
                here <= bytes@.len(),
                forall|part: Vec<u8>| #[trigger] call_requires(*decode, (&part,)),
                forall|k: int| 0 <= k < self.buffers@.len() ==> (#[trigger] self.buffers@[k]).limit() == caps[k],
                forall|k: int| 0 <= k < self.buffers@.len() ==> (#[trigger] self.buffers@[k]).contents().len() <= caps[k],
                forall|k: int| i <= k < self.buffers@.len() ==> (#[trigger] self.buffers@[k]).contents() == before[k],
                forall|f: DecodeFn| #[trigger]
                    reads(*decode, f) ==> thawed_all(before, caps, bytes@, at as nat, f, i as nat) == (
                        all_stamped(held(self.buffers@).take(i as int)),
                        match failed {
                            Some(e) => Err::<nat, SnapshotFailure>(e@),
                            None => Ok::<nat, SnapshotFailure>(here as nat),
                        },
                    ),
            decreases self.buffers@.len() - i,
        {
            let ghost done = held(self.buffers@).take(i as int);
            assert(self.buffers@[i as int].contents() == before[i as int]);
            if failed.is_none() {
                match self.buffers[i].thaw(bytes, here, decode) {
                    Ok(next) => {
                        here = next;
                    },
                    Err(e) => {
                        failed = Some(e);
                    },
                }
            }
            proof {
                let now = held(self.buffers@).take(i + 1);
                assert(all_stamped(now) =~= all_stamped(done).push(stamped(self.buffers@[i as int].contents())));
            }
            i = i + 1;
        }
        proof {
            assert(held(self.buffers@).take(i as int) =~= self.streams());
            assert(self.capacities() =~= caps);
            assert forall|k: int| 0 <= k < self.streams().len() implies (#[trigger] self.streams()[k]).len()
                <= self.capacities()[k] by {
                assert(self.buffers@[k].contents().len() <= caps[k]);
            }
        }
        match failed {
            Some(e) => Err(e),
            None => Ok(here),
        }
    }
}

proof fn lemma_frozen_all_fails(streams: Seq<Seq<CuStampedData>>, g: EncodeFn, i: nat, n: nat)
    requires
        i <= n,
        frozen_all(streams, g, i) is Err,
    ensures
        frozen_all(streams, g, n) == frozen_all(streams, g, i),
    decreases n,
{
    if i < n {
        lemma_frozen_all_fails(streams, g, i, (n - 1) as nat);
    }
}

proof fn lemma_first_fresh(msgs: Seq<CuStampedData>, horizon: u64, i: nat)
    requires
        i <= msgs.len(),
    ensures
        i <= first_fresh(msgs, horizon, i) <= msgs.len(),
        first_fresh(msgs, horizon, i) < msgs.len() ==> is_fresh(
            msgs[first_fresh(msgs, horizon, i) as int].tov,
            horizon,
        ),
        forall|k: int| i <= k < first_fresh(msgs, horizon, i) ==> !is_fresh((#[trigger] msgs[k]).tov, horizon),
    decreases msgs.len() - i,
{
    if i < msgs.len() && !is_fresh(msgs[i as int].tov, horizon) {
        lemma_first_fresh(msgs, horizon, i + 1);
    }
}

// ---------------------------------------------------------------------------
// The aligner task
// ---------------------------------------------------------------------------

/// What the aligner is configured with.
#[derive(Clone, Copy, Debug, PartialEq, Eq, Structural)]
pub struct AlignerConfig {
    pub target_alignment_window_ms: Option<u32>,
    pub stale_data_horizon_ms: Option<u32>,
}

/// What stops an aligner from being configured.
pub open spec fn config_failure(config: Option<AlignerConfig>) -> Option<Seq<char>> {
    match config {
        None => Some("Config Missing"@),
        Some(c) => if c.target_alignment_window_ms is None {
            Some("Missing target_alignment_window"@)
        } else if c.stale_data_horizon_ms is None {
            Some("Missing stale_data_horizon"@)
        } else {
            None
        },
    }
}

/// What the streams hold after each was given a message: one without a payload
/// holds no data to align, so it takes no place.
pub open spec fn absorbed(streams: Seq<Seq<CuStampedData>>, limits: Seq<nat>, inputs: Seq<CuStampedData>) -> Seq<
    Seq<CuStampedData>,
> {
    Seq::new(
        streams.len(),
        |i: int|
            if inputs[i].payload is Some {
                pushed(streams[i], limits[i], inputs[i])
            } else {
                streams[i]
            },
    )
}

/// The payloads of the first `n` messages that carry one.
pub open spec fn payloads(msgs: Seq<CuStampedData>, n: nat) -> Seq<Seq<u8>>
    decreases n,
{
    if n == 0 {
        Seq::empty()
    } else {
        let rest = payloads(msgs, (n - 1) as nat);
        match msgs[n - 1].payload {
            Some(bytes) => rest.push(bytes@),
            None => rest,
        }
    }
}

/// What of a list goes into an output of that size: the first of it.
pub open spec fn clipped<T>(list: Seq<T>, size: nat) -> Seq<T> {
    if list.len() <= size {
        list
    } else {
        list.take(size as int)
    }
}

/// The payloads of every stream in the window before the common time, as many
/// as the output of the stream has room for.
pub open spec fn aligned_payloads(streams: Seq<Seq<CuStampedData>>, width: u64, sizes: Seq<nat>) -> Option<
    Seq<Seq<Seq<u8>>>,
> {
    match aligned(streams, width) {
        Some(lists) => Some(Seq::new(lists.len(), |i: int| clipped(payloads(lists[i], lists[i].len()), sizes[i]))),
        None => None,
    }
}

/// What byte strings say.
pub open spec fn byte_strings(list: Seq<Vec<u8>>) -> Seq<Seq<u8>> {
    Seq::new(list.len(), |i: int| list[i]@)
}

/// What lists of byte strings say.
pub open spec fn byte_lists(lists: Seq<Vec<Vec<u8>>>) -> Seq<Seq<Seq<u8>>> {
    Seq::new(lists.len(), |i: int| byte_strings(lists[i]@))
}

/// A task that aligns incoming messages based on their timestamps.
///
/// Each stream has a buffer and an output, both of a fixed size.
pub struct AlignerTask {
    aligner: AlignmentBuffers,
    outputs: Vec<usize>,
}

impl AlignerTask {
    /// The buffers of the task.
    pub closed spec fn buffers(self) -> AlignmentBuffers {
        self.aligner
    }

    /// How many payloads the output of each stream has room for.
    pub closed spec fn sizes(self) -> Seq<nat> {
        Seq::new(self.outputs@.len(), |i: int| self.outputs@[i] as nat)
    }

    /// Whether the buffers hold no more than they can, and every stream has an
    /// output.
    pub open spec fn wf(self) -> bool {
        self.buffers().wf() && self.sizes().len() == self.buffers().streams().len()
    }

    /// A task with empty buffers for so many messages each, and with outputs
    /// for so many payloads each.
    pub fn new(config: Option<&AlignerConfig>, capacities: &Vec<usize>, outputs: &Vec<usize>) -> (r: CuResult<Self>)
        requires
            capacities@.len() == outputs@.len(),
            forall|i: int| 0 <= i < capacities@.len() ==> allocatable(#[trigger] capacities@[i]),
        ensures
            failure_text(r) == config_failure(match config {
                Some(c) => Some(*c),
                None => None,
            }),
            r matches Ok(task) ==> {
                let b = task.buffers();
                &&& task.wf()
                &&& task.sizes() == Seq::new(outputs@.len(), |i: int| outputs@[i] as nat)
                &&& b.width() == config->0.target_alignment_window_ms->0 * 1_000_000
                &&& b.horizon() == config->0.stale_data_horizon_ms->0 * 1_000_000
                &&& b.streams() == Seq::new(capacities@.len(), |i: int| Seq::<CuStampedData>::empty())
                &&& b.capacities() == Seq::new(capacities@.len(), |i: int| capacities@[i] as nat)
            },
    {
        let config: &AlignerConfig = match config {
            Some(config) => config,
            None => {
                return Err(CuError::of("Config Missing"));
            },
        };
        let window_ms: u64 = match config.target_alignment_window_ms {
            Some(ms) => ms as u64,
            None => {
                return Err(CuError::of("Missing target_alignment_window"));
            },
        };
        let horizon_ms: u64 = match config.stale_data_horizon_ms {
            Some(ms) => ms as u64,
            None => {
                return Err(CuError::of("Missing stale_data_horizon"));
            },
        };
        let sizes: Vec<usize> = outputs.clone();
        assert(sizes@ =~= outputs@);
        Ok(
            AlignerTask {
                aligner: AlignmentBuffers::new(window_ms * 1_000_000, horizon_ms * 1_000_000, capacities),
                outputs: sizes,
            },
        )
    }

    /// Discards the data that is stale now.
    pub fn preprocess(&mut self, now: u64)
        requires
            old(self).wf(),
            old(self).buffers().horizon() <= now,
        ensures
            final(self).wf(),
            final(self).sizes() == old(self).sizes(),
            final(self).buffers().width() == old(self).buffers().width(),
            final(self).buffers().horizon() == old(self).buffers().horizon(),
            final(self).buffers().capacities() == old(self).buffers().capacities(),
            final(self).buffers().streams() == Seq::new(
                old(self).buffers().streams().len(),
                |i: int|
                    old(self).buffers().streams()[i].skip(
                        first_fresh(
                            old(self).buffers().streams()[i],
                            (now - old(self).buffers().horizon()) as u64,
                            0,
                        ) as int,
                    ),
            ),
            final(self).buffers().streams() == purged(
                old(self).buffers().streams(),
                old(self).buffers().horizon(),
                now,
            ),
    {
        self.aligner.purge(now);
    }

    /// Takes in one message per stream. A message without a payload holds no
    /// data to align, so it takes no place and does not advance the window.
    pub fn absorb(&mut self, inputs: Vec<CuStampedData>)
        requires
            old(self).wf(),
            inputs@.len() == old(self).buffers().streams().len(),
        ensures
            final(self).wf(),
            final(self).sizes() == old(self).sizes(),
            final(self).buffers().width() == old(self).buffers().width(),
            final(self).buffers().horizon() == old(self).buffers().horizon(),
            final(self).buffers().capacities() == old(self).buffers().capacities(),
            final(self).buffers().streams() == absorbed(
                old(self).buffers().streams(),
                old(self).buffers().capacities(),
                inputs@,
            ),
    {
        let ghost before = self.aligner.streams();
        let ghost caps = self.aligner.capacities();
        let ghost given = inputs@;
        let ghost goal = absorbed(before, caps, given);
        let mut rest: Vec<CuStampedData> = inputs;
        while rest.len() > 0
            invariant
                rest@.len() <= given.len(),
                rest@ == given.take(rest@.len() as int),
                given.len() == before.len(),
                goal == absorbed(before, caps, given),
                self.aligner.wf(),
                self.outputs == old(self).outputs,
                self.aligner.width() == old(self).aligner.width(),
                self.aligner.horizon() == old(self).aligner.horizon(),
                self.aligner.capacities() == caps,
                self.aligner.streams().len() == before.len(),
                forall|k: int| 0 <= k < rest@.len() ==> (#[trigger] self.aligner.streams()[k]) == before[k],
                forall|k: int| rest@.len() <= k < before.len() ==> (#[trigger] self.aligner.streams()[k]) == goal[k],
            decreases rest@.len(),
        {
            let ghost n = rest@.len();
            let msg: CuStampedData = rest.pop().unwrap();
            assert(msg == given[n - 1]);
            let i: usize = rest.len();
            assert(self.aligner.streams()[i as int] == before[i as int]);
            if msg.payload.is_some() {
                self.aligner.push(i, msg);
            }
            assert(rest@ =~= given.take(rest@.len() as int));
        }
        assert(self.aligner.streams() =~= goal);
    }

    /// Whether the window before the common time does not reach below zero.
    pub fn has_window(&self) -> (r: bool)
        ensures
            r == window_fits(self.buffers().streams(), self.buffers().width()),
    {
        self.aligner.has_window()
    }

    /// The aligned payloads of every stream, if there is a common time.
    pub fn align(&self) -> (r: Option<Vec<Vec<Vec<u8>>>>)
        requires
            self.wf(),
            window_fits(self.buffers().streams(), self.buffers().width()),
        ensures
            match (r, aligned_payloads(self.buffers().streams(), self.buffers().width(), self.sizes())) {
                (Some(lists), Some(told)) => byte_lists(lists@) == told,
                (None, None) => true,
                _ => false,
            },
            r matches Some(lists) ==> forall|i: int|
                0 <= i < lists@.len() ==> (#[trigger] lists@[i])@.len() <= self.sizes()[i],
    {
        let lists: Vec<Vec<&CuStampedData>> = match self.aligner.get_latest_aligned_data() {
            Some(lists) => lists,
            None => {
                return None;
            },
        };
        let ghost told = aligned(self.aligner.streams(), self.aligner.width())->0;
        let mut r: Vec<Vec<Vec<u8>>> = Vec::new();
        let mut i: usize = 0;
        while i < lists.len()
            invariant
                i <= lists@.len(),
                lists@.len() == told.len(),
                self.outputs@.len() == told.len(),
                forall|k: int| 0 <= k < told.len() ==> point_to((#[trigger] lists@[k])@, told[k]),
                r@.len() == i,
                forall|k: int| 0 <= k < i ==> byte_strings((#[trigger] r@[k])@) == clipped(
                    payloads(told[k], told[k].len()),
                    self.outputs@[k] as nat,
                ),
                forall|k: int| 0 <= k < i ==> (#[trigger] r@[k])@.len() <= self.outputs@[k],
            decreases lists@.len() - i,
        {
            assert(point_to(lists@[i as int]@, told[i as int]));
            let out: Vec<Vec<u8>> = collect_payloads(&lists[i], self.outputs[i], Ghost(told[i as int]));
            r.push(out);
            i = i + 1;
        }
        proof {
            let sizes = self.sizes();
            let want = Seq::new(told.len(), |i: int| clipped(payloads(told[i], told[i].len()), sizes[i]));
            assert(byte_lists(r@) =~= want);
        }
        Some(r)
    }

    /// Takes in one message per stream and gives the aligned payloads, if there
    /// is a common time.
    pub fn process(&mut self, inputs: Vec<CuStampedData>) -> (r: Option<Vec<Vec<Vec<u8>>>>)
        requires
            old(self).wf(),
            inputs@.len() == old(self).buffers().streams().len(),
            window_fits(
                absorbed(old(self).buffers().streams(), old(self).buffers().capacities(), inputs@),
                old(self).buffers().width(),
            ),
        ensures
            final(self).wf(),
            final(self).sizes() == old(self).sizes(),
            final(self).buffers().width() == old(self).buffers().width(),
            final(self).buffers().horizon() == old(self).buffers().horizon(),
            final(self).buffers().capacities() == old(self).buffers().capacities(),
            final(self).buffers().streams() == absorbed(
                old(self).buffers().streams(),
                old(self).buffers().capacities(),
                inputs@,
            ),
            match (
                r,
                aligned_payloads(final(self).buffers().streams(), final(self).buffers().width(), final(self).sizes()),
            ) {
                (Some(lists), Some(told)) => byte_lists(lists@) == told,
                (None, None) => true,
                _ => false,
            },
            r matches Some(lists) ==> forall|i: int|
                0 <= i < lists@.len() ==> (#[trigger] lists@[i])@.len() <= final(self).sizes()[i],
    {
        self.absorb(inputs);
        self.align()
    }

    /// The snapshot of the task: that of its buffers.
    pub fn freeze<E: Fn(&CuStampedData) -> Result<Vec<u8>, SnapshotError>>(&self, encode: &E) -> (r: Result<
        Vec<u8>,
        SnapshotError,
    >)
        requires
            forall|m: CuStampedData| #[trigger] call_requires(*encode, (&m,)),
        ensures
            forall|g: EncodeFn| #[trigger]
                writes(*encode, g) ==> bytes_outcome(r) == frozen_all(
                    self.buffers().streams(),
                    g,
                    self.buffers().streams().len(),
                ),
    {
        self.aligner.freeze(encode)
    }

    /// Reads the snapshot of the task and tells the place behind it.
    pub fn thaw<D: Fn(&Vec<u8>) -> Result<(CuStampedData, usize), SnapshotError>>(
        &mut self,
        bytes: &Vec<u8>,
        at: usize,
        decode: &D,
    ) -> (r: Result<usize, SnapshotError>)
        requires
            old(self).wf(),
            at <= bytes@.len(),
            forall|part: Vec<u8>| #[trigger] call_requires(*decode, (&part,)),
        ensures
            final(self).wf(),
            final(self).sizes() == old(self).sizes(),
            final(self).buffers().width() == old(self).buffers().width(),
            final(self).buffers().horizon() == old(self).buffers().horizon(),
            final(self).buffers().capacities() == old(self).buffers().capacities(),
            final(self).buffers().streams().len() == old(self).buffers().streams().len(),
            forall|f: DecodeFn| #[trigger]
                reads(*decode, f) ==> (all_stamped(final(self).buffers().streams()), place_outcome(r)) == thawed_all(
                    old(self).buffers().streams(),
                    old(self).buffers().capacities(),
                    bytes@,
                    at as nat,
                    f,
                    old(self).buffers().streams().len(),
                ),
    {
        self.aligner.thaw(bytes, at, decode)
    }
}

/// The payloads of fewer messages are the first of those of more.
proof fn lemma_payloads_part(msgs: Seq<CuStampedData>, m: nat, n: nat)
    requires
        m <= n,
    ensures
        payloads(msgs, m).len() <= payloads(msgs, n).len(),
        payloads(msgs, n).take(payloads(msgs, m).len() as int) == payloads(msgs, m),
    decreases n,
{
    if m < n {
        lemma_payloads_part(msgs, m, (n - 1) as nat);
        let rest = payloads(msgs, (n - 1) as nat);
        let k = payloads(msgs, m).len() as int;
        assert(payloads(msgs, n).take(k) =~= rest.take(k));
    } else {
        assert(payloads(msgs, n).take(payloads(msgs, m).len() as int) =~= payloads(msgs, m));
    }
}

/// The payloads of the messages that carry one, as many as there is room for.
fn collect_payloads(list: &Vec<&CuStampedData>, size: usize, Ghost(msgs): Ghost<Seq<CuStampedData>>) -> (r: Vec<Vec<u8>>)
    requires
        point_to(list@, msgs),
    ensures
        byte_strings(r@) == clipped(payloads(msgs, msgs.len()), size as nat),
        r@.len() <= size,
{
    let mut r: Vec<Vec<u8>> = Vec::new();
    let mut i: usize = 0;
    assert(byte_strings(r@) =~= Seq::<Seq<u8>>::empty());
    while i < list.len() && r.len() < size
        invariant
            i <= list@.len(),
            point_to(list@, msgs),
            r@.len() <= size,
            byte_strings(r@) == payloads(msgs, i as nat),
        decreases list@.len() - i,
    {
        let msg: &CuStampedData = list[i];
        assert(*list@[i as int] == msgs[i as int]);
        if let Some(bytes) = &msg.payload {
            let ghost before = byte_strings(r@);
            let copy: Vec<u8> = bytes.clone();
            assert(copy@ =~= bytes@);
            r.push(copy);
            assert(byte_strings(r@) =~= before.push(bytes@));
        }
        i = i + 1;
    }
    proof {
        let all = payloads(msgs, msgs.len());
        lemma_payloads_part(msgs, i as nat, msgs.len());
        assert(byte_strings(r@).len() == r@.len());
        if all.len() <= size {
            assert(all.take(all.len() as int) =~= all);
        }
    }
    r
}

// ---------------------------------------------------------------------------
// Laws
// ---------------------------------------------------------------------------

/// Whether the times of the messages never descend; messages without a time
/// may stand anywhere.
pub open spec fn times_ascend(msgs: Seq<CuStampedData>) -> bool {
    forall|i: int, j: int|
        0 <= i < j < msgs.len() && right_time((#[trigger] msgs[i]).tov) is Some && right_time(
            (#[trigger] msgs[j]).tov,
        ) is Some ==> right_time(msgs[i].tov)->0 <= right_time(msgs[j].tov)->0
}

/// A buffer whose times ascend keeps no message older than the horizon, and
/// loses none that reaches it.
pub proof fn purge_leaves_no_stale_message(msgs: Seq<CuStampedData>, horizon: u64, k: int)
    requires
        times_ascend(msgs),
        0 <= k < msgs.len(),
        right_time(msgs[k].tov) is Some,
    ensures
        k >= first_fresh(msgs, horizon, 0) <==> right_time(msgs[k].tov)->0 >= horizon,
{
    lemma_first_fresh(msgs, horizon, 0);
    let first = first_fresh(msgs, horizon, 0) as int;
    if k > first {
        assert(is_fresh(msgs[first].tov, horizon));
    }
}

/// A window holds exactly the messages that lie inside it.
pub proof fn window_holds_what_lies_inside(msgs: Seq<CuStampedData>, start: u64, end: u64, n: nat)
    requires
        n <= msgs.len(),
    ensures
        forall|i: int|
            0 <= i < window(msgs, start, end, n).len() ==> in_window((#[trigger] window(msgs, start, end, n)[i]).tov, start, end),
        forall|k: int|
            0 <= k < n && in_window((#[trigger] msgs[k]).tov, start, end) ==> window(msgs, start, end, n).contains(msgs[k]),
    decreases n,
{
    if n > 0 {
        window_holds_what_lies_inside(msgs, start, end, (n - 1) as nat);
        let rest = window(msgs, start, end, (n - 1) as nat);
        let all = window(msgs, start, end, n);
        assert forall|k: int| 0 <= k < n && in_window((#[trigger] msgs[k]).tov, start, end) implies all.contains(msgs[k]) by {
            if k < n - 1 {
                assert(rest.contains(msgs[k]));
                let i = rest.index_of(msgs[k]);
                assert(all[i] == msgs[k]);
            } else {
                assert(all[all.len() - 1] == msgs[k]);
            }
        }
    }
}

/// The most recent time is that of a message, and no message is later.
pub proof fn most_recent_time_is_the_latest(msgs: Seq<CuStampedData>, n: nat)
    requires
        n <= msgs.len(),
        latest(msgs, n) is Ok,
    ensures
        latest(msgs, n)->Ok_0 is Some <==> n > 0,
        forall|k: int| 0 <= k < n ==> right_time((#[trigger] msgs[k]).tov) is Some,
        forall|k: int| 0 <= k < n ==> right_time((#[trigger] msgs[k]).tov)->0 <= latest(msgs, n)->Ok_0->0,
        n > 0 ==> exists|k: int| 0 <= k < n && right_time((#[trigger] msgs[k]).tov) == latest(msgs, n)->Ok_0,
    decreases n,
{
    if n > 0 {
        most_recent_time_is_the_latest(msgs, (n - 1) as nat);
        let rest = latest(msgs, (n - 1) as nat)->Ok_0;
        assert(right_time(msgs[n - 1].tov) is Some);
        if n > 1 && rest->0 >= right_time(msgs[n - 1].tov)->0 {
            let k = choose|k: int| 0 <= k < n - 1 && right_time((#[trigger] msgs[k]).tov) == rest;
            assert(right_time(msgs[k].tov) == latest(msgs, n)->Ok_0);
        } else {
            assert(right_time(msgs[n - 1].tov) == latest(msgs, n)->Ok_0);
        }
    }
}

/// Whether `f` reads back what `g` writes of a message.
pub open spec fn reads_back(msg: StampedModel, g: EncodeFn, f: DecodeFn) -> bool {
    g(msg) matches Ok(bytes) && bytes.len() <= MAX_MSG_SNAPSHOT_BYTES && f(bytes) == Ok::<
        (StampedModel, nat),
        SnapshotFailure,
    >((msg, bytes.len()))
}

proof fn lemma_msgs_round_trip(
    msgs: Seq<StampedModel>,
    g: EncodeFn,
    f: DecodeFn,
    n: nat,
    head: Seq<u8>,
    tail: Seq<u8>,
)
    requires
        n <= msgs.len(),
        forall|i: int| 0 <= i < msgs.len() ==> reads_back(#[trigger] msgs[i], g, f),
    ensures
        frozen(msgs, g, n) is Ok,
        ({
            let bytes = frozen(msgs, g, n)->Ok_0;
            let count = varint(msgs.len() as u64);
            &&& count.len() <= bytes.len()
            &&& bytes.take(count.len() as int) == count
            &&& thawed_msgs(head + bytes + tail, head.len() + count.len(), f, n) == (
                msgs.take(n as int),
                Ok::<nat, SnapshotFailure>(head.len() + bytes.len()),
            )
        }),
    decreases n,
{
    let count = varint(msgs.len() as u64);
    if n == 0 {
        assert(count.take(count.len() as int) =~= count);
        assert(msgs.take(0) =~= Seq::<StampedModel>::empty());
    } else {
        let msg = msgs[n - 1];
        assert(reads_back(msg, g, f));
        let part = g(msg)->Ok_0;
        let more = varint(part.len() as u64) + part;
        lemma_msgs_round_trip(msgs, g, f, (n - 1) as nat, head, more + tail);
        let before = frozen(msgs, g, (n - 1) as nat)->Ok_0;
        let bytes = before + more;
        let all = head + bytes + tail;
        assert(head + before + (more + tail) =~= all);
        assert(bytes.take(count.len() as int) =~= before.take(count.len() as int));
        let here = (head.len() + before.len()) as nat;
        assert(all.skip(here as int) =~= varint(part.len() as u64) + (part + tail));
        numbers_round_trip(part.len() as u64, part + tail);
        let width = varint(part.len() as u64).len();
        assert(all.subrange((here + width) as int, (here + width + part.len()) as int) =~= part);
        assert(msgs.take((n - 1) as int).push(msg) =~= msgs.take(n as int));
    }
}

/// Thawing what was frozen gives every message back, in order, wherever the
/// snapshot stands, as long as each message by itself can be read back and the
/// buffer is no smaller.
pub proof fn freeze_thaw_round_trips(
    msgs: Seq<StampedModel>,
    before: Seq<StampedModel>,
    limit: nat,
    g: EncodeFn,
    f: DecodeFn,
    head: Seq<u8>,
    tail: Seq<u8>,
)
    requires
        msgs.len() <= limit,
        msgs.len() <= usize::MAX,
        forall|i: int| 0 <= i < msgs.len() ==> reads_back(#[trigger] msgs[i], g, f),
    ensures
        frozen(msgs, g, msgs.len()) is Ok,
        ({
            let bytes = frozen(msgs, g, msgs.len())->Ok_0;
            thawed(before, limit, head + bytes + tail, head.len(), f) == (
                msgs,
                Ok::<nat, SnapshotFailure>(head.len() + bytes.len()),
            )
        }),
{
    let n = msgs.len();
    lemma_msgs_round_trip(msgs, g, f, n, head, tail);
    let bytes = frozen(msgs, g, n)->Ok_0;
    let count = varint(n as u64);
    let all = head + bytes + tail;
    let rest = bytes.skip(count.len() as int) + tail;
    assert(bytes =~= bytes.take(count.len() as int) + bytes.skip(count.len() as int));
    assert(all.skip(head.len() as int) =~= count + rest);
    numbers_round_trip(n as u64, rest);
    assert(msgs.take(n as int) =~= msgs);
}

/// Thawing the snapshot of the first `n` streams gives all of them back, as
/// long as each message by itself can be read back and no buffer is too small.
pub proof fn streams_round_trip(
    streams: Seq<Seq<CuStampedData>>,
    before: Seq<Seq<CuStampedData>>,
    limits: Seq<nat>,
    g: EncodeFn,
    f: DecodeFn,
    n: nat,
    head: Seq<u8>,
    tail: Seq<u8>,
)
    requires
        n <= streams.len(),
        forall|i: int| 0 <= i < streams.len() ==> (#[trigger] streams[i]).len() <= limits[i],
        forall|i: int| 0 <= i < streams.len() ==> (#[trigger] streams[i]).len() <= usize::MAX,
        forall|i: int, k: int|
            0 <= i < streams.len() && 0 <= k < streams[i].len() ==> reads_back((#[trigger] streams[i][k])@, g, f),
    ensures
        frozen_all(streams, g, n) is Ok,
        ({
            let bytes = frozen_all(streams, g, n)->Ok_0;
            thawed_all(before, limits, head + bytes + tail, head.len(), f, n) == (
                all_stamped(streams).take(n as int),
                Ok::<nat, SnapshotFailure>(head.len() + bytes.len()),
            )
        }),
    decreases n,
{
    if n == 0 {
        assert(all_stamped(streams).take(0) =~= Seq::<Seq<StampedModel>>::empty());
    } else {
        let last = streams[n - 1];
        let msgs = stamped(last);
        assert forall|k: int| 0 <= k < msgs.len() implies reads_back(#[trigger] msgs[k], g, f) by {
            assert(reads_back(streams[n - 1][k]@, g, f));
        }
        let first = frozen_all(streams, g, (n - 1) as nat);
        let part = frozen(msgs, g, msgs.len())->Ok_0;
        streams_round_trip(streams, before, limits, g, f, (n - 1) as nat, head, part + tail);
        let bytes = first->Ok_0;
        freeze_thaw_round_trips(msgs, stamped(before[n - 1]), limits[n - 1], g, f, head + bytes, tail);
        assert(head + bytes + (part + tail) =~= head + (bytes + part) + tail);
        assert(head + bytes + part + tail =~= head + (bytes + part) + tail);
        assert(all_stamped(streams).take((n - 1) as int).push(msgs) =~= all_stamped(streams).take(n as int));
    }
}

/// When a message starts and ends: one with a time does both then, one with a
/// range at its bounds, and one without a time never does.
pub proof fn messages_start_and_end_at_their_times(tov: Tov)
    ensures
        tov matches Tov::Time(time) ==> left_time(tov) == Some(time) && right_time(tov) == Some(time),
        tov matches Tov::Range(range) ==> left_time(tov) == Some(range.start) && right_time(tov) == Some(range.end),
        tov is Untimed ==> left_time(tov) is None && right_time(tov) is None,
{
}

/// Which messages lie wholly between two times.
pub open spec fn wholly_between(start: u64, end: u64) -> spec_fn(CuStampedData) -> bool {
    |msg: CuStampedData|
        match msg.tov {
            Tov::Time(time) => start <= time && time <= end,
            Tov::Range(range) => start <= range.start && range.end <= end,
            Tov::Untimed => false,
        }
}

/// A window gives the messages that lie wholly inside it, and keeps their order.
pub proof fn windows_filter_by_time(msgs: Seq<CuStampedData>, start: u64, end: u64, n: nat)
    requires
        n <= msgs.len(),
    ensures
        window(msgs, start, end, n) == msgs.take(n as int).filter(wholly_between(start, end)),
    decreases n,
{
    let part = msgs.take(n as int);
    if n > 0 {
        windows_filter_by_time(msgs, start, end, (n - 1) as nat);
        assert(part.drop_last() =~= msgs.take(n - 1));
        assert(part.last() == msgs[n - 1]);
    } else {
        assert(part =~= Seq::<CuStampedData>::empty());
    }
    reveal(Seq::filter);
}

/// A purge takes messages from the front only: all of them are stale, and the
/// first one that stays is not.
pub proof fn purge_stops_at_the_first_fresh_message(msgs: Seq<CuStampedData>, horizon: u64)
    ensures
        first_fresh(msgs, horizon, 0) <= msgs.len(),
        forall|k: int|
            0 <= k < first_fresh(msgs, horizon, 0) ==> match (#[trigger] msgs[k]).tov {
                Tov::Time(time) => time < horizon,
                Tov::Range(range) => range.end < horizon,
                Tov::Untimed => true,
            },
        first_fresh(msgs, horizon, 0) < msgs.len() ==> match msgs[first_fresh(msgs, horizon, 0) as int].tov {
            Tov::Time(time) => time >= horizon,
            Tov::Range(range) => range.end >= horizon,
            Tov::Untimed => false,
        },
{
    lemma_first_fresh(msgs, horizon, 0);
}

/// A buffer has no most recent time exactly when it is empty, and fails exactly
/// when a message has no time.
pub proof fn most_recent_time_needs_times(msgs: Seq<CuStampedData>, n: nat)
    requires
        n <= msgs.len(),
    ensures
        latest(msgs, n) is Ok <==> forall|k: int| 0 <= k < n ==> !((#[trigger] msgs[k]).tov is Untimed),
    decreases n,
{
    if n > 0 {
        most_recent_time_needs_times(msgs, (n - 1) as nat);
    }
}

/// Whether a stream has a most recent time: it holds messages, and all of them
/// have a time.
pub open spec fn has_times(msgs: Seq<CuStampedData>) -> bool {
    msgs.len() > 0 && forall|k: int| 0 <= k < msgs.len() ==> !((#[trigger] msgs[k]).tov is Untimed)
}

/// Whether a stream has data up to a time: a message ends then or later.
pub open spec fn reaches_time(msgs: Seq<CuStampedData>, time: u64) -> bool {
    exists|k: int|
        0 <= k < msgs.len() && match (#[trigger] msgs[k]).tov {
            Tov::Time(t) => t >= time,
            Tov::Range(range) => range.end >= time,
            Tov::Untimed => false,
        }
}

/// Whether a stream ends at a time: a message ends then, and none later.
pub open spec fn ends_at(msgs: Seq<CuStampedData>, time: u64) -> bool {
    &&& exists|k: int|
        0 <= k < msgs.len() && match (#[trigger] msgs[k]).tov {
            Tov::Time(t) => t == time,
            Tov::Range(range) => range.end == time,
            Tov::Untimed => false,
        }
    &&& forall|k: int|
        0 <= k < msgs.len() ==> match (#[trigger] msgs[k]).tov {
            Tov::Time(t) => t <= time,
            Tov::Range(range) => range.end <= time,
            Tov::Untimed => true,
        }
}

proof fn lemma_latest_ends(msgs: Seq<CuStampedData>)
    ensures
        has_times(msgs) <==> latest(msgs, msgs.len()) matches Ok(Some(_)),
        latest(msgs, msgs.len()) matches Ok(Some(time)) ==> ends_at(msgs, time),
{
    most_recent_time_needs_times(msgs, msgs.len());
    if latest(msgs, msgs.len()) is Ok {
        most_recent_time_is_the_latest(msgs, msgs.len());
        if msgs.len() > 0 {
            let time = latest(msgs, msgs.len())->Ok_0->0;
            let k = choose|k: int| 0 <= k < msgs.len() && right_time((#[trigger] msgs[k]).tov) == Some(time);
            assert(right_time(msgs[k].tov) == Some(time));
            assert forall|k: int| 0 <= k < msgs.len() implies match (#[trigger] msgs[k]).tov {
                Tov::Time(t) => t <= time,
                Tov::Range(range) => range.end <= time,
                Tov::Untimed => true,
            } by {
                assert(right_time(msgs[k].tov)->0 <= time);
            }
        }
    }
}

proof fn lemma_common_time(streams: Seq<Seq<CuStampedData>>, n: nat)
    requires
        n <= streams.len(),
    ensures
        match common_time(streams, n) {
            Some(time) => {
                &&& forall|i: int| 0 <= i < n && has_times(#[trigger] streams[i]) ==> reaches_time(streams[i], time)
                &&& exists|i: int| 0 <= i < n && has_times(#[trigger] streams[i]) && ends_at(streams[i], time)
            },
            None => forall|i: int| 0 <= i < n ==> !has_times(#[trigger] streams[i]),
        },
    decreases n,
{
    if n > 0 {
        lemma_common_time(streams, (n - 1) as nat);
        let last = streams[n - 1];
        lemma_latest_ends(last);
        let rest = common_time(streams, (n - 1) as nat);
        if common_time(streams, n) is Some {
            let time = common_time(streams, n)->0;
            assert forall|i: int| 0 <= i < n && has_times(#[trigger] streams[i]) implies reaches_time(streams[i], time) by {
                if i < n - 1 {
                    assert(reaches_time(streams[i], rest->0));
                    let k = choose|k: int|
                        0 <= k < streams[i].len() && match (#[trigger] streams[i][k]).tov {
                            Tov::Time(t) => t >= rest->0,
                            Tov::Range(range) => range.end >= rest->0,
                            Tov::Untimed => false,
                        };
                    assert(match streams[i][k].tov {
                        Tov::Time(t) => t >= time,
                        Tov::Range(range) => range.end >= time,
                        Tov::Untimed => false,
                    });
                } else {
                    let own = latest(last, last.len())->Ok_0->0;
                    let k = choose|k: int|
                        0 <= k < last.len() && match (#[trigger] last[k]).tov {
                            Tov::Time(t) => t == own,
                            Tov::Range(range) => range.end == own,
                            Tov::Untimed => false,
                        };
                    assert(match streams[i][k].tov {
                        Tov::Time(t) => t >= time,
                        Tov::Range(range) => range.end >= time,
                        Tov::Untimed => false,
                    });
                }
            }
            if rest == Some(time) {
                let i = choose|i: int| 0 <= i < n - 1 && has_times(#[trigger] streams[i]) && ends_at(streams[i], time);
                assert(has_times(streams[i]) && ends_at(streams[i], time));
            } else {
                assert(has_times(streams[n - 1]) && ends_at(streams[n - 1], time));
            }
        }
    }
}

/// The window of aligned data ends at the most recent time that all streams
/// cover: every stream that has a most recent time has data up to then, and one
/// of them has none later. It begins its width before, and each stream gives
/// its messages that lie wholly inside. Without a stream that has a most recent
/// time nothing is aligned.
pub proof fn aligned_windows_are_covered(streams: Seq<Seq<CuStampedData>>, width: u64)
    requires
        window_fits(streams, width),
    ensures
        aligned(streams, width) is None <==> forall|i: int| 0 <= i < streams.len() ==> !has_times(#[trigger] streams[i]),
        aligned(streams, width) matches Some(lists) ==> exists|end: u64|
            {
                &&& width <= end
                &&& forall|i: int| 0 <= i < streams.len() && has_times(#[trigger] streams[i]) ==> reaches_time(streams[i], end)
                &&& exists|i: int| 0 <= i < streams.len() && has_times(#[trigger] streams[i]) && ends_at(streams[i], end)
                &&& lists.len() == streams.len()
                &&& forall|i: int|
                    0 <= i < lists.len() ==> #[trigger] lists[i] == streams[i].filter(
                        wholly_between(#[trigger] window_start(end, width), end),
                    )
            },
{
    lemma_common_time(streams, streams.len());
    if aligned(streams, width) is Some {
        let lists = aligned(streams, width)->0;
        let end = common_time(streams, streams.len())->0;
        let start = window_start(end, width);
        assert forall|i: int| 0 <= i < lists.len() implies #[trigger] lists[i] == streams[i].filter(
            wholly_between(start, end),
        ) by {
            windows_filter_by_time(streams[i], start, end, streams[i].len());
            assert(streams[i].take(streams[i].len() as int) =~= streams[i]);
        }
        assert(width <= end);
        assert(lists.len() == streams.len());
    }
}

/// Where a window of that width starts.
pub open spec fn window_start(end: u64, width: u64) -> u64 {
    (end - width) as u64
}

/// A buffer with room keeps every pushed message, a full one loses its oldest,
/// and what is pushed comes last: a buffer holds the most recent messages.
pub proof fn buffers_keep_the_most_recent(contents: Seq<CuStampedData>, capacity: nat, msg: CuStampedData)
    requires
        0 < capacity,
        contents.len() <= capacity,
    ensures
        contents.len() < capacity ==> pushed(contents, capacity, msg) == contents.push(msg),
        contents.len() == capacity ==> pushed(contents, capacity, msg) == contents.push(msg).skip(1),
{
    if contents.len() == capacity {
        assert(contents.drop_first().push(msg) =~= contents.push(msg).skip(1));
    }
}

/// A message without a payload takes no place in its stream; one with a payload
/// becomes its latest message.
pub proof fn ticks_without_payload_take_no_place(
    streams: Seq<Seq<CuStampedData>>,
    limits: Seq<nat>,
    inputs: Seq<CuStampedData>,
    i: int,
)
    requires
        0 <= i < streams.len(),
        streams.len() == inputs.len(),
        streams.len() == limits.len(),
        streams[i].len() <= limits[i],
        limits[i] > 0,
    ensures
        absorbed(streams, limits, inputs).len() == streams.len(),
        inputs[i].payload is None ==> absorbed(streams, limits, inputs)[i] == streams[i],
        inputs[i].payload is Some ==> absorbed(streams, limits, inputs)[i].len() > 0 && absorbed(
            streams,
            limits,
            inputs,
        )[i].last() == inputs[i],
{
}

/// What a message delivers.
pub open spec fn delivered() -> spec_fn(CuStampedData) -> Option<Seq<u8>> {
    |msg: CuStampedData|
        match msg.payload {
            Some(bytes) => Some(bytes@),
            None => None,
        }
}

proof fn lemma_payloads_delivered(msgs: Seq<CuStampedData>, n: nat)
    requires
        n <= msgs.len(),
    ensures
        payloads(msgs, n) == msgs.take(n as int).filter_map(delivered()),
    decreases n,
{
    if n > 0 {
        lemma_payloads_delivered(msgs, (n - 1) as nat);
        let part = msgs.take(n as int);
        assert(part.drop_last() =~= msgs.take(n - 1));
        if msgs[n - 1].payload is Some {
            let rest = msgs.take(n - 1).filter_map(delivered());
            assert(payloads(msgs, n) =~= rest + seq![msgs[n - 1].payload->0@]);
        }
    }
}

/// An output holds the payloads of its stream's messages in the window, the
/// first ones where it has no room for all.
pub proof fn outputs_hold_the_first_payloads(streams: Seq<Seq<CuStampedData>>, width: u64, sizes: Seq<nat>, i: int)
    requires
        0 <= i < streams.len(),
        aligned(streams, width) is Some,
    ensures
        aligned_payloads(streams, width, sizes) is Some,
        ({
            let all = aligned(streams, width)->0[i].filter_map(delivered());
            let out = aligned_payloads(streams, width, sizes)->0[i];
            &&& all.len() <= sizes[i] ==> out == all
            &&& all.len() > sizes[i] ==> out == all.take(sizes[i] as int)
        }),
{
    let list = aligned(streams, width)->0[i];
    lemma_payloads_delivered(list, list.len());
    assert(list.take(list.len() as int) =~= list);
}

/// The bytes of a message behind their number.
pub open spec fn framed(msgs: Seq<StampedModel>, g: EncodeFn) -> Seq<Seq<u8>> {
    Seq::new(msgs.len(), |i: int| varint(g(msgs[i])->Ok_0.len() as u64) + g(msgs[i])->Ok_0)
}

proof fn lemma_frozen_parts(msgs: Seq<StampedModel>, g: EncodeFn, n: nat)
    requires
        n <= msgs.len(),
    ensures
        frozen(msgs, g, n) is Ok <==> forall|i: int|
            0 <= i < n ==> g(#[trigger] msgs[i]) is Ok && g(msgs[i])->Ok_0.len() <= MAX_MSG_SNAPSHOT_BYTES,
        frozen(msgs, g, n) matches Ok(bytes) ==> bytes == varint(msgs.len() as u64) + framed(msgs, g).take(
            n as int,
        ).flatten(),
    decreases n,
{
    let parts = framed(msgs, g);
    if n == 0 {
        assert(parts.take(0) =~= Seq::<Seq<u8>>::empty());
        assert(varint(msgs.len() as u64) + Seq::<u8>::empty() =~= varint(msgs.len() as u64));
    } else {
        lemma_frozen_parts(msgs, g, (n - 1) as nat);
        if frozen(msgs, g, n) is Ok {
            let before = parts.take(n - 1);
            assert(parts.take(n as int) =~= before.push(parts[n - 1]));
            before.lemma_flatten_push(parts[n - 1]);
            let head = varint(msgs.len() as u64);
            assert(head + before.flatten() + parts[n - 1] =~= head + (before.flatten() + parts[n - 1]));
        }
    }
}

/// A snapshot is the number of the messages and then, in order, the bytes of
/// each behind their number. It can be taken exactly when each message can be
/// written and none is too large.
pub proof fn snapshots_list_every_message(msgs: Seq<StampedModel>, g: EncodeFn)
    ensures
        frozen(msgs, g, msgs.len()) is Ok <==> forall|i: int|
            0 <= i < msgs.len() ==> g(#[trigger] msgs[i]) is Ok && g(msgs[i])->Ok_0.len() <= MAX_MSG_SNAPSHOT_BYTES,
        frozen(msgs, g, msgs.len()) matches Ok(bytes) ==> bytes == varint(msgs.len() as u64) + framed(msgs, g).flatten(),
{
    lemma_frozen_parts(msgs, g, msgs.len());
    assert(framed(msgs, g).take(msgs.len() as int) =~= framed(msgs, g));
}

/// The snapshot of several streams is that of each, one after the other.
pub proof fn snapshots_follow_each_other(streams: Seq<Seq<CuStampedData>>, g: EncodeFn, n: nat)
    requires
        n <= streams.len(),
    ensures
        frozen_all(streams, g, n) matches Ok(bytes) ==> bytes == Seq::new(
            n,
            |i: int| frozen(stamped(streams[i]), g, streams[i].len())->Ok_0,
        ).flatten() && forall|i: int|
            0 <= i < n ==> frozen(stamped(#[trigger] streams[i]), g, streams[i].len()) is Ok,
    decreases n,
{
    let parts = Seq::new(n, |i: int| frozen(stamped(streams[i]), g, streams[i].len())->Ok_0);
    if n > 0 {
        snapshots_follow_each_other(streams, g, (n - 1) as nat);
        let before = Seq::new((n - 1) as nat, |i: int| frozen(stamped(streams[i]), g, streams[i].len())->Ok_0);
        assert(parts =~= before.push(parts[n - 1]));
        before.lemma_flatten_push(parts[n - 1]);
    } else {
        assert(parts =~= Seq::<Seq<u8>>::empty());
    }
}

proof fn lemma_thawed_len(bytes: Seq<u8>, at: nat, f: DecodeFn, n: nat)
    ensures
        thawed_msgs(bytes, at, f, n).0.len() <= n,
        thawed_msgs(bytes, at, f, n).1 is Ok ==> thawed_msgs(bytes, at, f, n).0.len() == n,
    decreases n,
{
    if n > 0 {
        lemma_thawed_len(bytes, at, f, (n - 1) as nat);
    }
}

/// Whatever a snapshot says, a buffer never holds more than it can. One that
/// declares more messages than there is room for is refused and changes
/// nothing; one that is accepted gives as many messages as it declares.
pub proof fn snapshots_never_overfill(before: Seq<StampedModel>, limit: nat, bytes: Seq<u8>, at: nat, f: DecodeFn)
    requires
        before.len() <= limit,
    ensures
        thawed(before, limit, bytes, at, f).0.len() <= limit,
        read_varint(bytes.skip(at as int)) matches Ok((count, width)) ==> {
            &&& count > limit ==> thawed(before, limit, bytes, at, f).0 == before && thawed(before, limit, bytes, at, f).1 is Err
            &&& thawed(before, limit, bytes, at, f).1 is Ok ==> thawed(before, limit, bytes, at, f).0.len() == count
        },
        read_varint(bytes.skip(at as int)) is Err ==> thawed(before, limit, bytes, at, f).0 == before && thawed(
            before,
            limit,
            bytes,
            at,
            f,
        ).1 is Err,
{
    if read_varint(bytes.skip(at as int)) is Ok {
        let (count, width) = read_varint(bytes.skip(at as int))->Ok_0;
        lemma_thawed_len(bytes, at + width, f, count as nat);
    }
}

/// A message is only read where its declared bytes are there, are not too many,
/// and are all taken by it.
pub proof fn messages_take_their_declared_bytes(bytes: Seq<u8>, at: nat, f: DecodeFn)
    ensures
        thawed_msg(bytes, at, f) matches Ok((msg, next)) ==> exists|declared: nat, width: nat|
            {
                &&& read_varint(bytes.skip(at as int)) matches Ok((d, w)) && d == declared && w == width
                &&& #[trigger] takes(at, width, declared) == next
                &&& declared <= MAX_MSG_SNAPSHOT_BYTES
                &&& next <= bytes.len()
                &&& f(bytes.subrange((at + width) as int, next as int)) == Ok::<(StampedModel, nat), SnapshotFailure>(
                    (msg, declared),
                )
            },
{
    if thawed_msg(bytes, at, f) is Ok {
        let (d, w) = read_varint(bytes.skip(at as int))->Ok_0;
        let (msg, next) = thawed_msg(bytes, at, f)->Ok_0;
        assert(takes(at, w as nat, d as nat) == next);
    }
}

/// The place behind so many bytes and their number.
pub open spec fn takes(at: nat, width: nat, declared: nat) -> nat {
    at + width + declared
}

/// An aligner can be configured exactly when both its window and its horizon are
/// given.
pub proof fn what_can_be_configured(config: Option<AlignerConfig>)
    ensures
        config_failure(config) is None <==> config is Some && config->0.target_alignment_window_ms is Some
            && config->0.stale_data_horizon_ms is Some,
{
}

/// A snapshot whose number of messages cannot be read, or is more than the buffer
/// holds, leaves the buffer as it is and says so.
pub proof fn refused_snapshots_change_nothing(
    before: Seq<StampedModel>,
    limit: nat,
    bytes: Seq<u8>,
    at: nat,
    f: DecodeFn,
    len: u64,
    width: nat,
)
    requires
        limit <= usize::MAX,
    ensures
        read_varint(bytes.skip(at as int)) is Err ==> thawed(before, limit, bytes, at, f) == (
            before,
            Err::<nat, SnapshotFailure>(read_varint(bytes.skip(at as int))->Err_0),
        ),
        read_varint(bytes.skip(at as int)) == Ok::<(u64, nat), SnapshotFailure>((len, width)) && limit < len <= usize::MAX
            ==> thawed(before, limit, bytes, at, f) == (
            before,
            Err::<nat, SnapshotFailure>(
                SnapshotFailure::ArrayLengthMismatch { required: limit as usize, found: len as usize },
            ),
        ),
{
}

/// What is wrong with the snapshot of one buffer ends the reading: the buffers
/// behind it stay as they are.
pub proof fn buffers_behind_a_wrong_snapshot_stay(
    before: Seq<Seq<CuStampedData>>,
    limits: Seq<nat>,
    bytes: Seq<u8>,
    at: nat,
    f: DecodeFn,
    i: nat,
    n: nat,
)
    requires
        i <= n,
        thawed_all(before, limits, bytes, at, f, i).1 is Err,
    ensures
        thawed_all(before, limits, bytes, at, f, n).1 == thawed_all(before, limits, bytes, at, f, i).1,
        thawed_all(before, limits, bytes, at, f, n).0.len() == n,
        thawed_all(before, limits, bytes, at, f, i).0.len() == i,
        forall|j: int|
            0 <= j < i ==> #[trigger] thawed_all(before, limits, bytes, at, f, n).0[j] == thawed_all(
                before,
                limits,
                bytes,
                at,
                f,
                i,
            ).0[j],
        forall|j: int|
            i <= j < n ==> #[trigger] thawed_all(before, limits, bytes, at, f, n).0[j] == stamped(before[j]),
    decreases n,
{
    lemma_thawed_all_len(before, limits, bytes, at, f, i);
    if i < n {
        buffers_behind_a_wrong_snapshot_stay(before, limits, bytes, at, f, i, (n - 1) as nat);
    }
}

proof fn lemma_thawed_all_len(
    before: Seq<Seq<CuStampedData>>,
    limits: Seq<nat>,
    bytes: Seq<u8>,
    at: nat,
    f: DecodeFn,
    n: nat,
)
    ensures
        thawed_all(before, limits, bytes, at, f, n).0.len() == n,
    decreases n,
{
    if n > 0 {
        lemma_thawed_all_len(before, limits, bytes, at, f, (n - 1) as nat);
    }
}

/// A message is refused exactly when it cannot be written or is longer than a
/// snapshot takes; otherwise its bytes stand behind their number.
pub proof fn long_messages_are_refused(msg: StampedModel, g: EncodeFn)
    ensures
        frozen_msg(msg, g) is Ok <==> g(msg) is Ok && g(msg)->Ok_0.len() <= MAX_MSG_SNAPSHOT_BYTES,
        frozen_msg(msg, g) is Ok ==> frozen_msg(msg, g)->Ok_0 == varint(g(msg)->Ok_0.len() as u64) + g(msg)->Ok_0,
        g(msg) is Err ==> frozen_msg(msg, g) is Err && frozen_msg(msg, g)->Err_0 == g(msg)->Err_0,
{
}

/// The first message that is refused is told.
pub proof fn the_first_refused_message_is_told(msgs: Seq<StampedModel>, g: EncodeFn, i: int, n: nat)
    requires
        0 <= i < n <= msgs.len(),
        frozen_msg(msgs[i], g) is Err,
        forall|j: int| 0 <= j < i ==> frozen_msg(#[trigger] msgs[j], g) is Ok,
    ensures
        frozen(msgs, g, n) is Err,
        frozen(msgs, g, n)->Err_0 == frozen_msg(msgs[i], g)->Err_0,
    decreases n,
{
    if i == n - 1 {
        lemma_all_written(msgs, g, i as nat);
    } else {
        the_first_refused_message_is_told(msgs, g, i, (n - 1) as nat);
    }
}

proof fn lemma_all_written(msgs: Seq<StampedModel>, g: EncodeFn, n: nat)
    requires
        n <= msgs.len(),
        forall|j: int| 0 <= j < n ==> frozen_msg(#[trigger] msgs[j], g) is Ok,
    ensures
        frozen(msgs, g, n) is Ok,
    decreases n,
{
    if n > 0 {
        lemma_all_written(msgs, g, (n - 1) as nat);
        assert(frozen_msg(msgs[n - 1], g) is Ok);
    }
}

/// What the streams hold once everything older than the horizon is discarded.
pub open spec fn purged(streams: Seq<Seq<CuStampedData>>, horizon: u64, now: u64) -> Seq<Seq<CuStampedData>> {
    Seq::new(streams.len(), |i: int| streams[i].skip(first_fresh(streams[i], (now - horizon) as u64, 0) as int))
}

/// Whether a message ended within the horizon.
pub open spec fn ended_within(msg: CuStampedData, horizon: u64, now: u64) -> bool {
    match msg.tov {
        Tov::Time(time) => time + horizon >= now,
        Tov::Range(range) => range.end + horizon >= now,
        Tov::Untimed => false,
    }
}

/// A purge discards the messages before the first one of a stream that ended
/// within the horizon, and no others.
pub proof fn purging_discards_what_ended_before_the_horizon(
    streams: Seq<Seq<CuStampedData>>,
    horizon: u64,
    now: u64,
    i: int,
)
    requires
        horizon <= now,
        0 <= i < streams.len(),
    ensures
        purged(streams, horizon, now).len() == streams.len(),
        exists|n: int| #[trigger] discards(streams[i], purged(streams, horizon, now)[i], horizon, now, n),
{
    let h = (now - horizon) as u64;
    purge_stops_at_the_first_fresh_message(streams[i], h);
    let n = first_fresh(streams[i], h, 0) as int;
    let rest = purged(streams, horizon, now)[i];
    if rest.len() > 0 {
        assert(rest[0] == streams[i][n]);
    }
    assert(discards(streams[i], rest, horizon, now, n));
}

/// Whether `after` is `before` without its first `n` messages, none of which ended
/// within the horizon, and begins with one that did.
pub open spec fn discards(
    before: Seq<CuStampedData>,
    after: Seq<CuStampedData>,
    horizon: u64,
    now: u64,
    n: int,
) -> bool {
    &&& 0 <= n <= before.len()
    &&& after == before.skip(n)
    &&& forall|k: int| 0 <= k < n ==> !ended_within(#[trigger] before[k], horizon, now)
    &&& after.len() > 0 ==> ended_within(after[0], horizon, now)
}

/// A stream takes in a message that carries a payload behind the others, and gives
/// up its oldest one for it when it is full; one without room takes nothing.
pub proof fn streams_take_in_their_message(
    streams: Seq<Seq<CuStampedData>>,
    limits: Seq<nat>,
    inputs: Seq<CuStampedData>,
    i: int,
)
    requires
        0 <= i < streams.len(),
        streams[i].len() <= limits[i],
        inputs[i].payload is Some,
    ensures
        limits[i] == 0 ==> absorbed(streams, limits, inputs)[i] == streams[i],
        streams[i].len() < limits[i] ==> absorbed(streams, limits, inputs)[i] == streams[i].push(inputs[i]),
        0 < limits[i] && streams[i].len() == limits[i] ==> absorbed(streams, limits, inputs)[i] == streams[i].push(
            inputs[i],
        ).skip(1),
{
    if 0 < limits[i] && streams[i].len() == limits[i] {
        assert(absorbed(streams, limits, inputs)[i] =~= streams[i].push(inputs[i]).skip(1));
    }
}

/// A message is read back exactly when its length can be read, is not too long,
/// is there, and is what the message takes; what is wrong otherwise is told.
pub proof fn what_is_read_back(bytes: Seq<u8>, at: nat, f: DecodeFn, declared: u64, width: nat)
    requires
        read_varint(bytes.skip(at as int)) == Ok::<(u64, nat), SnapshotFailure>((declared, width)),
    ensures
        ({
            let r = thawed_msg(bytes, at, f);
            let there = declared <= MAX_MSG_SNAPSHOT_BYTES && at + width + declared <= bytes.len();
            let read = f(bytes.subrange((at + width) as int, at + width + declared));
            &&& r is Ok <==> there && read is Ok && read->Ok_0.1 == declared
            &&& MAX_MSG_SNAPSHOT_BYTES < declared <= usize::MAX ==> r == Err::<(StampedModel, nat), SnapshotFailure>(
                SnapshotFailure::LimitExceeded,
            )
            &&& declared > usize::MAX ==> r == Err::<(StampedModel, nat), SnapshotFailure>(
                SnapshotFailure::OutsideUsizeRange(declared),
            )
            &&& declared <= MAX_MSG_SNAPSHOT_BYTES && at + width + declared > bytes.len() ==> r == Err::<
                (StampedModel, nat),
                SnapshotFailure,
            >(SnapshotFailure::UnexpectedEnd)
            &&& there && read is Err ==> r is Err && r->Err_0 == read->Err_0
        }),
{
}

/// A message of up to 256 MiB can be frozen and read back, a longer one neither.
pub proof fn messages_may_take_256_mebibytes(msg: StampedModel, g: EncodeFn, bytes: Seq<u8>, at: nat, f: DecodeFn)
    ensures
        g(msg) is Ok ==> (frozen_msg(msg, g) is Ok <==> g(msg)->Ok_0.len() <= 256 * 1024 * 1024),
        read_varint(bytes.skip(at as int)) is Ok && read_varint(bytes.skip(at as int))->Ok_0.0 > 256 * 1024 * 1024
            ==> thawed_msg(bytes, at, f) is Err,
{
}

} // verus!
