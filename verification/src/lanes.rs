//! Shared state of the lane executor, and the queue on which its lanes hand
//! results to the dispatcher.
//!
//! Every operation is one step of the state; a caller that shares the state
//! runs each step under one lock, and repeats a wait that is still pending
//! after every wake-up.

use crate::parallel_rt::CachePadded;
use std::collections::VecDeque;
use vstd::prelude::*;

verus! {

/// Spins this many times on a condition before parking.
pub const SPIN_ROUNDS: u32 = 256;

// ---------------------------------------------------------------------------
// Results
// ---------------------------------------------------------------------------

/// The lanes' results to the dispatcher, first in first out.
#[derive(Debug)]
pub struct ResultQueue<T> {
    queue: VecDeque<T>,
    senders: usize,
}

/// A lane's handle on the queue.
#[derive(Debug)]
pub struct ResultSender(());

/// The dispatcher's handle on the queue.
#[derive(Debug)]
pub struct ResultReceiver(());

/// What a receiver finds.
#[derive(Debug, PartialEq, Eq)]
pub enum Received<T> {
    Value(T),
    /// Nothing is queued and no sender is left.
    Disconnected,
    /// Nothing is queued and the time is up.
    Timeout,
    /// Nothing is queued yet.
    Empty,
}

impl<T> ResultQueue<T> {
    /// The values sent and not yet received.
    pub closed spec fn waiting(self) -> Seq<T> {
        self.queue@
    }

    /// How many senders there are.
    pub closed spec fn sender_count(self) -> usize {
        self.senders
    }

    /// How many senders there are.
    pub fn senders(&self) -> (n: usize)
        ensures
            n == self.sender_count(),
    {
        self.senders
    }
}

/// An empty queue with one sender.
pub fn result_channel<T>() -> (r: (ResultQueue<T>, ResultSender, ResultReceiver))
    ensures
        r.0.waiting() == Seq::<T>::empty(),
        r.0.sender_count() == 1,
{
    (ResultQueue { queue: VecDeque::new(), senders: 1 }, ResultSender(()), ResultReceiver(()))
}

impl ResultSender {
    /// One more sender.
    pub fn clone<T>(&self, queue: &mut ResultQueue<T>) -> (r: Self)
        requires
            old(queue).sender_count() < usize::MAX,
        ensures
            final(queue).sender_count() == old(queue).sender_count() + 1,
            final(queue).waiting() == old(queue).waiting(),
    {
        queue.senders = queue.senders + 1;
        ResultSender(self.0)
    }

    /// One sender less.
    pub fn drop<T>(self, queue: &mut ResultQueue<T>)
        requires
            old(queue).sender_count() > 0,
        ensures
            final(queue).sender_count() == old(queue).sender_count() - 1,
            final(queue).waiting() == old(queue).waiting(),
    {
        queue.senders = queue.senders - 1;
    }

    /// Appends a value; this never fails.
    pub fn send<T>(&self, queue: &mut ResultQueue<T>, value: T) -> (r: Result<(), T>)
        ensures
            r is Ok,
            final(queue).waiting() == old(queue).waiting().push(value),
            final(queue).sender_count() == old(queue).sender_count(),
    {
        queue.queue.push_back(value);
        Ok(())
    }
}

impl<T> ResultQueue<T> {
    /// What a receiver finds.
    pub open spec fn found(self, expired: bool) -> Received<T> {
        if self.waiting().len() > 0 {
            Received::Value(self.waiting()[0])
        } else if self.sender_count() == 0 {
            Received::Disconnected
        } else if expired {
            Received::Timeout
        } else {
            Received::Empty
        }
    }

    /// What is still queued after a receiver looked.
    pub open spec fn after_receive(self) -> Seq<T> {
        if self.waiting().len() > 0 {
            self.waiting().drop_first()
        } else {
            self.waiting()
        }
    }
}

impl ResultReceiver {
    /// Takes the first value; `Empty` asks the caller to wait and look again.
    pub fn recv<T>(&self, queue: &mut ResultQueue<T>) -> (r: Received<T>)
        ensures
            r == old(queue).found(false),
            final(queue).waiting() == old(queue).after_receive(),
            final(queue).sender_count() == old(queue).sender_count(),
    {
        self.recv_timeout(queue, false)
    }

    /// Takes the first value, with the time up or not.
    pub fn recv_timeout<T>(&self, queue: &mut ResultQueue<T>, expired: bool) -> (r: Received<T>)
        ensures
            r == old(queue).found(expired),
            final(queue).waiting() == old(queue).after_receive(),
            final(queue).sender_count() == old(queue).sender_count(),
    {
        if let Some(value) = queue.queue.pop_front() {
            assert(queue.queue@ =~= old(queue).queue@.drop_first());
            return Received::Value(value);
        }
        if queue.senders == 0 {
            return Received::Disconnected;
        }
        if expired {
            return Received::Timeout;
        }
        Received::Empty
    }
}

/// What happens to a queue: a value is sent, or a receiver looks.
pub enum QueueEvent<T> {
    Send(T),
    Receive,
}

/// What is queued after the first `n` events on an empty queue.
pub open spec fn queued<T>(events: Seq<QueueEvent<T>>, n: nat) -> Seq<T>
    decreases n,
{
    if n == 0 {
        Seq::empty()
    } else {
        let before = queued(events, (n - 1) as nat);
        match events[n - 1] {
            QueueEvent::Send(value) => before.push(value),
            QueueEvent::Receive => if before.len() > 0 {
                before.drop_first()
            } else {
                before
            },
        }
    }
}

/// The values sent by the first `n` events.
pub open spec fn sent<T>(events: Seq<QueueEvent<T>>, n: nat) -> Seq<T>
    decreases n,
{
    if n == 0 {
        Seq::empty()
    } else {
        let before = sent(events, (n - 1) as nat);
        match events[n - 1] {
            QueueEvent::Send(value) => before.push(value),
            QueueEvent::Receive => before,
        }
    }
}

/// The values received by the first `n` events on an empty queue.
pub open spec fn received<T>(events: Seq<QueueEvent<T>>, n: nat) -> Seq<T>
    decreases n,
{
    if n == 0 {
        Seq::empty()
    } else {
        let before = received(events, (n - 1) as nat);
        let waiting = queued(events, (n - 1) as nat);
        match events[n - 1] {
            QueueEvent::Send(_) => before,
            QueueEvent::Receive => if waiting.len() > 0 {
                before.push(waiting[0])
            } else {
                before
            },
        }
    }
}

/// Results arrive in the order in which they were sent, and none is lost.
pub proof fn results_arrive_in_order<T>(events: Seq<QueueEvent<T>>, n: nat)
    requires
        n <= events.len(),
    ensures
        received(events, n) + queued(events, n) == sent(events, n),
    decreases n,
{
    if n > 0 {
        results_arrive_in_order(events, (n - 1) as nat);
        let waiting = queued(events, (n - 1) as nat);
        let got = received(events, (n - 1) as nat);
        match events[n - 1] {
            QueueEvent::Send(value) => {
                assert(got + waiting.push(value) =~= (got + waiting).push(value));
            },
            QueueEvent::Receive => {
                if waiting.len() > 0 {
                    assert(got.push(waiting[0]) + waiting.drop_first() =~= got + waiting);
                }
            },
        }
    } else {
        assert(received(events, n) + queued(events, n) =~= sent(events, n));
    }
}

// ---------------------------------------------------------------------------
// Lanes
// ---------------------------------------------------------------------------

/// One place for a CopperList in flight.
#[derive(Clone, Copy, Debug, PartialEq, Eq, Structural)]
pub struct LaneSlot {
    /// The buffer, `None` before the first admission.
    pub culist: Option<usize>,
    /// Finished occurrences.
    pub done: u32,
    pub aborted: bool,
}

/// What a lane that waits is told.
#[derive(Debug, PartialEq, Eq)]
pub enum Wait<T> {
    /// The condition holds.
    Ready(T),
    /// The condition will not hold; the lane must exit.
    Exit,
    /// Nothing is decided yet.
    Pending,
}

/// Shared state of the lane executor: which CopperLists are admitted, which
/// occurrences completed which cycle, and how many occurrences of each
/// in-flight CopperList are still outstanding.
///
/// Buffers are named by the caller's handles.
#[derive(Debug)]
pub struct LaneExecutor {
    /// The id of the first CopperList this run admits; cycle `c` covers
    /// ids `first_clid + c * copperlists_per_cycle ..`.
    first_clid: u64,
    /// CopperLists with an id below this value are admitted.
    admitted: CachePadded<u64>,
    /// No further cycle will be admitted; lanes finish admitted cycles.
    stopping: bool,
    /// A worker failed; every lane stops as soon as it observes this.
    shutdown: bool,
    /// Per occurrence: the number of cycles it has completed.
    completed: Vec<u64>,
    /// Per in-flight slot (`clid % slots.len()`).
    slots: Vec<LaneSlot>,
    occurrences_per_copperlist: u32,
    copperlists_per_cycle: u64,
    /// Counts, wrapping around, the steps that may end a wait.
    generation: CachePadded<u64>,
}

/// What the executor's state says.
pub struct LaneState {
    pub first_clid: u64,
    pub admitted: u64,
    pub stopping: bool,
    pub shutdown: bool,
    pub completed: Seq<u64>,
    pub slots: Seq<LaneSlot>,
    pub occurrences_per_copperlist: u32,
    pub copperlists_per_cycle: u64,
    pub generation: u64,
}

impl View for LaneExecutor {
    type V = LaneState;

    closed spec fn view(&self) -> LaneState {
        LaneState {
            first_clid: self.first_clid,
            admitted: self.admitted.0,
            stopping: self.stopping,
            shutdown: self.shutdown,
            completed: self.completed@,
            slots: self.slots@,
            occurrences_per_copperlist: self.occurrences_per_copperlist,
            copperlists_per_cycle: self.copperlists_per_cycle,
            generation: self.generation.0,
        }
    }
}

/// The generation after one more step that may end a wait.
pub open spec fn next_generation(generation: u64) -> u64 {
    if generation == u64::MAX {
        0
    } else {
        (generation + 1) as u64
    }
}

impl LaneState {
    /// What every state keeps.
    pub open spec fn wf(self) -> bool {
        &&& 0 < self.slots.len() <= usize::MAX
        &&& self.copperlists_per_cycle > 0
        &&& self.first_clid <= self.admitted
    }

    /// The place of the slot of a CopperList.
    pub open spec fn place(self, clid: u64) -> int {
        clid as int % self.slots.len() as int
    }

    /// The slot of a CopperList.
    pub open spec fn slot(self, clid: u64) -> LaneSlot {
        self.slots[self.place(clid)]
    }

    /// Whether a CopperList is admitted and its slot not reused.
    pub open spec fn in_flight(self, clid: u64) -> bool {
        self.first_clid <= clid < self.admitted <= clid + self.slots.len()
    }

    /// The cycle of a CopperList.
    pub open spec fn cycle(self, clid: u64) -> int {
        (clid - self.first_clid) / self.copperlists_per_cycle as int
    }

    pub open spec fn with_slot(self, clid: u64, slot: LaneSlot) -> LaneState {
        LaneState { slots: self.slots.update(self.place(clid), slot), ..self }
    }

    pub open spec fn notified(self) -> LaneState {
        LaneState { generation: next_generation(self.generation), ..self }
    }

    /// Whether the occurrence of a CopperList that finished last was its last one.
    pub open spec fn is_done(self, clid: u64) -> bool {
        self.slot(clid).done == self.occurrences_per_copperlist
    }

    /// What a lane that waits for a CopperList is told.
    pub open spec fn admission(self, clid: u64) -> Wait<Option<usize>> {
        if self.admitted > clid {
            Wait::Ready(self.slot(clid).culist)
        } else if self.stopping || self.shutdown {
            Wait::Exit
        } else {
            Wait::Pending
        }
    }

    /// What a lane that waits for an occurrence is told.
    pub open spec fn completion(self, occurrence: int, cycle: u64) -> Wait<()> {
        if self.completed[occurrence] > cycle {
            Wait::Ready(())
        } else if self.shutdown {
            Wait::Exit
        } else {
            Wait::Pending
        }
    }
}

/// A step of the executor.
pub enum LaneEvent {
    Admit { clid: u64, culist: usize },
    Stop,
    Shutdown,
    Complete { occurrence: int, cycle: u64 },
    Finish { clid: u64 },
    Abort { clid: u64 },
}

impl LaneState {
    /// Whether a step is possible.
    pub open spec fn allows(self, event: LaneEvent) -> bool {
        match event {
            LaneEvent::Admit { clid, .. } => clid == self.admitted && clid < u64::MAX,
            LaneEvent::Stop => true,
            LaneEvent::Shutdown => true,
            LaneEvent::Complete { occurrence, cycle } => 0 <= occurrence < self.completed.len() && cycle < u64::MAX,
            LaneEvent::Finish { clid } => self.slot(clid).done < u32::MAX,
            LaneEvent::Abort { .. } => true,
        }
    }

    /// The state after a step.
    pub open spec fn step(self, event: LaneEvent) -> LaneState {
        match event {
            LaneEvent::Admit { clid, culist } => {
                let fresh = LaneSlot { culist: Some(culist), done: 0, aborted: false };
                (LaneState { admitted: (clid + 1) as u64, ..self.with_slot(clid, fresh) }).notified()
            },
            LaneEvent::Stop => (LaneState { stopping: true, ..self }).notified(),
            LaneEvent::Shutdown => (LaneState { shutdown: true, ..self }).notified(),
            LaneEvent::Complete { occurrence, cycle } => (LaneState {
                completed: self.completed.update(occurrence, (cycle + 1) as u64),
                ..self
            }).notified(),
            LaneEvent::Finish { clid } => self.with_slot(
                clid,
                LaneSlot { done: (self.slot(clid).done + 1) as u32, ..self.slot(clid) },
            ),
            LaneEvent::Abort { clid } => self.with_slot(clid, LaneSlot { aborted: true, ..self.slot(clid) }),
        }
    }

    /// The state after the first `n` steps.
    pub open spec fn run(self, events: Seq<LaneEvent>, n: nat) -> LaneState
        decreases n,
    {
        if n == 0 {
            self
        } else {
            self.run(events, (n - 1) as nat).step(events[n - 1])
        }
    }

    /// Whether the first `n` steps are possible, one after the other.
    pub open spec fn allows_all(self, events: Seq<LaneEvent>, n: nat) -> bool {
        n <= events.len() && forall|i: int| 0 <= i < n ==> self.run(events, i as nat).allows(#[trigger] events[i])
    }
}

impl LaneExecutor {
    /// A fresh executor that has admitted nothing.
    pub fn new(
        first_clid: u64,
        occurrences: usize,
        max_in_flight: usize,
        occurrences_per_copperlist: u32,
        copperlists_per_cycle: u32,
    ) -> (r: Self)
        ensures
            r@.wf(),
            r@ == (LaneState {
                first_clid,
                admitted: first_clid,
                stopping: false,
                shutdown: false,
                completed: Seq::new(occurrences as nat, |i: int| 0u64),
                slots: Seq::new(
                    if max_in_flight == 0 {
                        1
                    } else {
                        max_in_flight as nat
                    },
                    |i: int| LaneSlot { culist: None, done: 0, aborted: false },
                ),
                occurrences_per_copperlist,
                copperlists_per_cycle: if copperlists_per_cycle == 0 {
                    1
                } else {
                    copperlists_per_cycle as u64
                },
                generation: 0,
            }),
    {
        let places: usize = if max_in_flight == 0 {
            1
        } else {
            max_in_flight
        };
        let mut completed: Vec<u64> = Vec::new();
        while completed.len() < occurrences
            invariant
                completed@.len() <= occurrences,
                completed@ == Seq::new(completed@.len(), |i: int| 0u64),
            decreases occurrences - completed@.len(),
        {
            completed.push(0);
        }
        let empty = LaneSlot { culist: None, done: 0, aborted: false };
        let mut slots: Vec<LaneSlot> = Vec::new();
        while slots.len() < places
            invariant
                slots@.len() <= places,
                slots@ == Seq::new(slots@.len(), |i: int| empty),
            decreases places - slots@.len(),
        {
            slots.push(empty);
        }
        LaneExecutor {
            first_clid,
            admitted: CachePadded::new(first_clid),
            stopping: false,
            shutdown: false,
            completed,
            slots,
            occurrences_per_copperlist,
            copperlists_per_cycle: if copperlists_per_cycle == 0 {
                1
            } else {
                copperlists_per_cycle as u64
            },
            generation: CachePadded::new(0),
        }
    }

    /// The place of the slot of a CopperList.
    fn slot(&self, clid: u64) -> (place: usize)
        requires
            self@.wf(),
        ensures
            place == self@.place(clid),
            place < self.slots@.len(),
    {
        let n: u64 = self.slots.len() as u64;
        proof {
            assert(0 <= clid as int % n as int && (clid as int % n as int) < n as int) by (nonlinear_arith)
                requires
                    n > 0,
            ;
        }
        (clid % n) as usize
    }

    /// Counts one more step that may end a wait.
    fn notify(&mut self)
        ensures
            final(self)@ == old(self)@.notified(),
    {
        self.generation = CachePadded::new(self.generation.0.wrapping_add(1));
    }

    /// The count of steps that may end a wait.
    pub fn generation(&self) -> (r: u64)
        ensures
            r == self@.generation,
    {
        self.generation.0
    }

    pub fn first_clid(&self) -> (r: u64)
        ensures
            r == self@.first_clid,
    {
        self.first_clid
    }

    /// The cycle containing `clid`.
    pub fn cycle_of(&self, clid: u64) -> (r: u64)
        requires
            self@.wf(),
            self@.first_clid <= clid,
        ensures
            r == self@.cycle(clid),
    {
        (clid - self.first_clid) / self.copperlists_per_cycle
    }

    /// Publishes CopperList `clid` to the lanes. `clid` must be the next
    /// unadmitted id and its slot must be free.
    pub fn admit_copperlist(&mut self, clid: u64, culist: usize)
        requires
            old(self)@.wf(),
            old(self)@.allows(LaneEvent::Admit { clid, culist }),
        ensures
            final(self)@.wf(),
            final(self)@ == old(self)@.step(LaneEvent::Admit { clid, culist }),
    {
        let place: usize = self.slot(clid);
        self.slots[place] = LaneSlot { culist: Some(culist), done: 0, aborted: false };
        self.admitted = CachePadded::new(clid + 1);
        self.notify();
    }

    /// The next CopperList id to admit.
    pub fn next_admission(&self) -> (r: u64)
        ensures
            r == self@.admitted,
    {
        self.admitted.0
    }

    /// Announces that no further cycle will be admitted. Lanes waiting for
    /// a CopperList that will never come return from their wait.
    pub fn stop_admitting(&mut self)
        ensures
            final(self)@ == old(self)@.step(LaneEvent::Stop),
    {
        self.stopping = true;
        self.notify();
    }

    pub fn is_stopping(&self) -> (r: bool)
        ensures
            r == self@.stopping,
    {
        self.stopping
    }

    /// Makes every lane stop at its next wait or completion.
    pub fn request_shutdown(&mut self)
        ensures
            final(self)@ == old(self)@.step(LaneEvent::Shutdown),
    {
        self.shutdown = true;
        self.notify();
    }

    pub fn is_shut_down(&self) -> (r: bool)
        ensures
            r == self@.shutdown,
    {
        self.shutdown
    }

    /// The buffer of CopperList `clid` once it is admitted. `Exit` means the
    /// lane must exit: the executor stopped before that CopperList existed,
    /// or it is shutting down.
    pub fn wait_admitted(&self, clid: u64) -> (r: Wait<Option<usize>>)
        requires
            self@.wf(),
        ensures
            r == self@.admission(clid),
    {
        if self.admitted.0 > clid {
            let place: usize = self.slot(clid);
            return Wait::Ready(self.slots[place].culist);
        }
        if self.stopping || self.shutdown {
            return Wait::Exit;
        }
        Wait::Pending
    }

    /// Whether occurrence `occurrence` has completed cycle `cycle`; `Exit`
    /// on shutdown.
    pub fn wait_completed(&self, occurrence: usize, cycle: u64) -> (r: Wait<()>)
        requires
            occurrence < self@.completed.len(),
        ensures
            r == self@.completion(occurrence as int, cycle),
    {
        if self.completed[occurrence] > cycle {
            return Wait::Ready(());
        }
        if self.shutdown {
            return Wait::Exit;
        }
        Wait::Pending
    }

    /// Records that occurrence `occurrence` completed cycle `cycle`.
    pub fn complete(&mut self, occurrence: usize, cycle: u64)
        requires
            old(self)@.allows(LaneEvent::Complete { occurrence: occurrence as int, cycle }),
        ensures
            final(self)@ == old(self)@.step(LaneEvent::Complete { occurrence: occurrence as int, cycle }),
    {
        self.completed[occurrence] = cycle + 1;
        self.notify();
    }

    /// Counts one finished occurrence of CopperList `clid`; `true` when it
    /// was the last one, so the CopperList can be committed.
    pub fn finish_occurrence(&mut self, clid: u64) -> (last: bool)
        requires
            old(self)@.wf(),
            old(self)@.allows(LaneEvent::Finish { clid }),
        ensures
            final(self)@.wf(),
            final(self)@ == old(self)@.step(LaneEvent::Finish { clid }),
            last == (final(self)@.slot(clid).done == final(self)@.occurrences_per_copperlist),
            last == final(self)@.is_done(clid),
    {
        let place: usize = self.slot(clid);
        let slot: LaneSlot = self.slots[place];
        let done: u32 = slot.done + 1;
        self.slots[place] = LaneSlot { culist: slot.culist, done, aborted: slot.aborted };
        done == self.occurrences_per_copperlist
    }

    /// How many occurrences of CopperList `clid` are finished.
    pub fn finished(&self, clid: u64) -> (n: u32)
        requires
            self@.wf(),
        ensures
            n == self@.slot(clid).done,
    {
        let place: usize = self.slot(clid);
        self.slots[place].done
    }

    /// Marks CopperList `clid` aborted: its remaining occurrences skip their
    /// call and only count themselves as finished.
    pub fn abort(&mut self, clid: u64)
        requires
            old(self)@.wf(),
        ensures
            final(self)@.wf(),
            final(self)@ == old(self)@.step(LaneEvent::Abort { clid }),
    {
        let place: usize = self.slot(clid);
        let slot: LaneSlot = self.slots[place];
        self.slots[place] = LaneSlot { culist: slot.culist, done: slot.done, aborted: true };
    }

    pub fn is_aborted(&self, clid: u64) -> (r: bool)
        requires
            self@.wf(),
        ensures
            r == self@.slot(clid).aborted,
    {
        let place: usize = self.slot(clid);
        self.slots[place].aborted
    }

    /// What a waiter does next, given whether its condition holds.
    pub fn wait_until(&self, waiter: &mut Waiter, condition: bool) -> (r: WaitStep)
        requires
            old(waiter).rounds() <= SPIN_ROUNDS,
        ensures
            final(waiter).rounds() <= SPIN_ROUNDS,
            r == old(waiter).next(self@, condition),
            final(waiter).rounds() == old(waiter).rounds_after(r),
    {
        if condition {
            return WaitStep::Met;
        }
        if self.shutdown {
            return WaitStep::ShutDown;
        }
        if waiter.rounds < SPIN_ROUNDS {
            waiter.rounds = waiter.rounds + 1;
            return WaitStep::Spin;
        }
        waiter.rounds = 0;
        WaitStep::Park(self.generation.0)
    }
}

/// What a waiter does next.
#[derive(Clone, Copy, Debug, PartialEq, Eq, Structural)]
pub enum WaitStep {
    /// The condition holds.
    Met,
    /// The executor is shutting down.
    ShutDown,
    /// Look again at once.
    Spin,
    /// Sleep until woken, unless the generation has moved on from this one.
    Park(u64),
}

/// A lane that waits for a condition.
#[derive(Debug)]
pub struct Waiter {
    rounds: u32,
}

impl Waiter {
    /// How often it has looked since it last parked.
    pub closed spec fn rounds(self) -> u32 {
        self.rounds
    }

    /// What a waiter does next.
    pub open spec fn next(self, state: LaneState, condition: bool) -> WaitStep {
        if condition {
            WaitStep::Met
        } else if state.shutdown {
            WaitStep::ShutDown
        } else if self.rounds() < SPIN_ROUNDS {
            WaitStep::Spin
        } else {
            WaitStep::Park(state.generation)
        }
    }

    /// How often it has looked after that.
    pub open spec fn rounds_after(self, step: WaitStep) -> u32 {
        match step {
            WaitStep::Spin => (self.rounds() + 1) as u32,
            WaitStep::Park(_) => 0,
            _ => self.rounds(),
        }
    }

    pub fn new() -> (r: Self)
        ensures
            r.rounds() == 0,
    {
        Waiter { rounds: 0 }
    }
}

// ---------------------------------------------------------------------------
// Laws
// ---------------------------------------------------------------------------

/// An executor only moves forward: admissions are never taken back, and a stop
/// or a shutdown is never undone.
pub proof fn executor_only_moves_forward(s: LaneState, events: Seq<LaneEvent>, n: nat)
    requires
        s.wf(),
        s.allows_all(events, n),
    ensures
        s.run(events, n).wf(),
        s.run(events, n).admitted >= s.admitted,
        s.stopping ==> s.run(events, n).stopping,
        s.shutdown ==> s.run(events, n).shutdown,
        s.run(events, n).first_clid == s.first_clid,
        s.run(events, n).slots.len() == s.slots.len(),
        s.run(events, n).completed.len() == s.completed.len(),
        s.run(events, n).occurrences_per_copperlist == s.occurrences_per_copperlist,
        s.run(events, n).copperlists_per_cycle == s.copperlists_per_cycle,
    decreases n,
{
    if n > 0 {
        executor_only_moves_forward(s, events, (n - 1) as nat);
        assert(s.run(events, (n - 1) as nat).allows(events[n - 1]));
    }
}

/// CopperLists in flight at the same time never share a slot.
pub proof fn in_flight_slots_differ(s: LaneState, a: u64, b: u64)
    requires
        s.wf(),
        s.in_flight(a),
        s.in_flight(b),
        a != b,
    ensures
        s.place(a) != s.place(b),
{
    lemma_places_differ(a as int, b as int, s.slots.len() as int);
}

proof fn lemma_places_differ(a: int, b: int, n: int)
    requires
        n > 0,
        0 <= a,
        0 <= b,
        a != b,
        a < b + n,
        b < a + n,
    ensures
        a % n != b % n,
{
    if a % n == b % n {
        vstd::arithmetic::div_mod::lemma_fundamental_div_mod(a, n);
        vstd::arithmetic::div_mod::lemma_fundamental_div_mod(b, n);
        let p = a / n;
        let q = b / n;
        assert(p == q) by (nonlinear_arith)
            requires
                n > 0,
                a == n * p + a % n,
                b == n * q + b % n,
                a % n == b % n,
                a < b + n,
                b < a + n,
        ;
    }
}

/// How many of the first `n` steps finish an occurrence of a CopperList.
pub open spec fn finishes(events: Seq<LaneEvent>, clid: u64, n: nat) -> nat
    decreases n,
{
    if n == 0 {
        0
    } else {
        finishes(events, clid, (n - 1) as nat) + (if events[n - 1] == (LaneEvent::Finish { clid }) {
            1nat
        } else {
            0nat
        })
    }
}

/// Whether one of the first `n` steps aborts a CopperList.
pub open spec fn aborts(events: Seq<LaneEvent>, clid: u64, n: nat) -> bool {
    exists|i: int| 0 <= i < n && #[trigger] events[i] == (LaneEvent::Abort { clid })
}

/// Whether the first `n` steps finish and abort only CopperLists in flight.
pub open spec fn orderly(s: LaneState, events: Seq<LaneEvent>, n: nat) -> bool {
    forall|i: int|
        0 <= i < n ==> match #[trigger] events[i] {
            LaneEvent::Finish { clid } => s.run(events, i as nat).in_flight(clid),
            LaneEvent::Abort { clid } => s.run(events, i as nat).in_flight(clid),
            _ => true,
        }
}

/// What one step does to the slot of a CopperList that stays in flight.
proof fn lemma_step_keeps_slot(s: LaneState, event: LaneEvent, clid: u64)
    requires
        s.wf(),
        s.in_flight(clid),
        s.allows(event),
        s.step(event).admitted <= clid + s.slots.len(),
        event matches LaneEvent::Finish { clid: other } ==> s.in_flight(other),
        event matches LaneEvent::Abort { clid: other } ==> s.in_flight(other),
    ensures
        s.step(event).slot(clid).culist == s.slot(clid).culist,
        s.step(event).slot(clid).done == s.slot(clid).done + (if event == (LaneEvent::Finish { clid }) {
            1int
        } else {
            0int
        }),
        s.step(event).slot(clid).aborted == (s.slot(clid).aborted || event == (LaneEvent::Abort { clid })),
{
    let len = s.slots.len() as int;
    vstd::arithmetic::div_mod::lemma_mod_bound(clid as int, len);
    match event {
        LaneEvent::Admit { clid: other, .. } => {
            lemma_places_differ(clid as int, other as int, len);
            vstd::arithmetic::div_mod::lemma_mod_bound(other as int, len);
        },
        LaneEvent::Finish { clid: other } => {
            vstd::arithmetic::div_mod::lemma_mod_bound(other as int, len);
            if other != clid {
                lemma_places_differ(clid as int, other as int, len);
            }
        },
        LaneEvent::Abort { clid: other } => {
            vstd::arithmetic::div_mod::lemma_mod_bound(other as int, len);
            if other != clid {
                lemma_places_differ(clid as int, other as int, len);
            }
        },
        _ => {},
    }
}

/// What a run does to the slot of a CopperList that stays in flight.
proof fn lemma_slot_is_kept(s: LaneState, clid: u64, events: Seq<LaneEvent>, n: nat)
    requires
        s.wf(),
        s.in_flight(clid),
        s.allows_all(events, n),
        orderly(s, events, n),
        s.run(events, n).admitted <= clid + s.slots.len(),
    ensures
        s.run(events, n).in_flight(clid),
        s.run(events, n).slot(clid).culist == s.slot(clid).culist,
        s.run(events, n).slot(clid).done == s.slot(clid).done + finishes(events, clid, n),
        s.run(events, n).slot(clid).aborted == (s.slot(clid).aborted || aborts(events, clid, n)),
    decreases n,
{
    executor_only_moves_forward(s, events, n);
    if n > 0 {
        let before = s.run(events, (n - 1) as nat);
        let event = events[n - 1];
        executor_only_moves_forward(s, events, (n - 1) as nat);
        assert(before.allows(event));
        assert(s.run(events, n) == before.step(event));
        assert(before.admitted <= before.step(event).admitted);
        lemma_slot_is_kept(s, clid, events, (n - 1) as nat);
        lemma_step_keeps_slot(before, event, clid);
        assert(aborts(events, clid, n) == (aborts(events, clid, (n - 1) as nat) || event == (LaneEvent::Abort { clid }))) by {
            if aborts(events, clid, n) {
                let i = choose|i: int| 0 <= i < n && #[trigger] events[i] == (LaneEvent::Abort { clid });
                assert(i < n - 1 || i == n - 1);
            }
        }
    }
}

/// As long as its slot is not reused, a CopperList keeps the buffer that it was
/// admitted with, every finished occurrence is counted for it alone, and it is
/// aborted exactly when one of the steps aborts it.
pub proof fn admitted_copperlist_is_kept(s: LaneState, clid: u64, culist: usize, events: Seq<LaneEvent>, n: nat)
    requires
        s.wf(),
        s.allows(LaneEvent::Admit { clid, culist }),
        s.step(LaneEvent::Admit { clid, culist }).allows_all(events, n),
        orderly(s.step(LaneEvent::Admit { clid, culist }), events, n),
        s.step(LaneEvent::Admit { clid, culist }).run(events, n).admitted <= clid + s.slots.len(),
    ensures
        ({
            let end = s.step(LaneEvent::Admit { clid, culist }).run(events, n);
            &&& end.in_flight(clid)
            &&& end.admission(clid) == Wait::Ready(Some(culist))
            &&& end.slot(clid).done == finishes(events, clid, n)
            &&& end.slot(clid).aborted == aborts(events, clid, n)
        }),
{
    let start = s.step(LaneEvent::Admit { clid, culist });
    vstd::arithmetic::div_mod::lemma_mod_bound(clid as int, s.slots.len() as int);
    assert(start.slot(clid) == (LaneSlot { culist: Some(culist), done: 0, aborted: false }));
    lemma_slot_is_kept(start, clid, events, n);
}

/// A completed cycle stays completed while later completions of the occurrence
/// come in order.
pub proof fn completed_cycles_stay_completed(
    s: LaneState,
    occurrence: int,
    cycle: u64,
    events: Seq<LaneEvent>,
    n: nat,
    earlier: u64,
)
    requires
        s.wf(),
        s.allows(LaneEvent::Complete { occurrence, cycle }),
        s.step(LaneEvent::Complete { occurrence, cycle }).allows_all(events, n),
        forall|i: int|
            0 <= i < n ==> match #[trigger] events[i] {
                LaneEvent::Complete { occurrence: o, cycle: c } => o == occurrence ==> c >= cycle,
                _ => true,
            },
        earlier <= cycle,
    ensures
        s.step(LaneEvent::Complete { occurrence, cycle }).run(events, n).completion(occurrence, earlier) == Wait::Ready(
            (),
        ),
    decreases n,
{
    let start = s.step(LaneEvent::Complete { occurrence, cycle });
    if n > 0 {
        completed_cycles_stay_completed(s, occurrence, cycle, events, (n - 1) as nat, earlier);
        executor_only_moves_forward(start, events, (n - 1) as nat);
        assert(start.run(events, (n - 1) as nat).allows(events[n - 1]));
    }
}

/// Once admissions have stopped, no lane waits for a CopperList any more.
pub proof fn stop_ends_admission_waits(s: LaneState, events: Seq<LaneEvent>, n: nat, clid: u64)
    requires
        s.wf(),
        s.step(LaneEvent::Stop).allows_all(events, n),
    ensures
        s.step(LaneEvent::Stop).run(events, n).admission(clid) != Wait::<Option<usize>>::Pending,
{
    executor_only_moves_forward(s.step(LaneEvent::Stop), events, n);
}

/// Once the executor shuts down, no lane waits any more.
pub proof fn shutdown_ends_every_wait(
    s: LaneState,
    events: Seq<LaneEvent>,
    n: nat,
    clid: u64,
    occurrence: int,
    cycle: u64,
)
    requires
        s.wf(),
        s.step(LaneEvent::Shutdown).allows_all(events, n),
    ensures
        s.step(LaneEvent::Shutdown).run(events, n).admission(clid) != Wait::<Option<usize>>::Pending,
        s.step(LaneEvent::Shutdown).run(events, n).completion(occurrence, cycle) != Wait::<()>::Pending,
{
    executor_only_moves_forward(s.step(LaneEvent::Shutdown), events, n);
}

/// The CopperLists of a cycle are the ids `first_clid + c * copperlists_per_cycle ..`.
pub proof fn cycles_cover_consecutive_ids(s: LaneState, clid: u64, c: int)
    requires
        s.wf(),
        s.first_clid <= clid,
    ensures
        s.cycle(clid) == c <==> s.first_clid + c * s.copperlists_per_cycle <= clid < s.first_clid + (c + 1)
            * s.copperlists_per_cycle,
{
    let x = clid - s.first_clid;
    let d = s.copperlists_per_cycle as int;
    let q = x / d;
    vstd::arithmetic::div_mod::lemma_fundamental_div_mod(x, d);
    vstd::arithmetic::div_mod::lemma_mod_bound(x, d);
    assert(q == c <==> c * d <= x < (c + 1) * d) by (nonlinear_arith)
        requires
            d > 0,
            x == d * q + x % d,
            0 <= x % d < d,
    ;
}

/// How many of the first `n` steps may end a wait.
pub open spec fn notices(events: Seq<LaneEvent>, n: nat) -> nat
    decreases n,
{
    if n == 0 {
        0
    } else {
        notices(events, (n - 1) as nat) + (match events[n - 1] {
            LaneEvent::Finish { .. } => 0nat,
            LaneEvent::Abort { .. } => 0nat,
            _ => 1nat,
        })
    }
}

proof fn lemma_notices(s: LaneState, events: Seq<LaneEvent>, n: nat)
    requires
        n <= u64::MAX,
    ensures
        notices(events, n) <= n,
        s.run(events, n).generation == (if s.generation + notices(events, n) <= u64::MAX {
            s.generation + notices(events, n)
        } else {
            s.generation + notices(events, n) - u64::MAX - 1
        }),
        notices(events, n) == 0 ==> {
            let end = s.run(events, n);
            &&& end.admitted == s.admitted
            &&& end.stopping == s.stopping
            &&& end.shutdown == s.shutdown
            &&& end.completed == s.completed
        },
    decreases n,
{
    if n > 0 {
        lemma_notices(s, events, (n - 1) as nat);
    }
}

/// A waiter that parks because the generation has not moved misses nothing:
/// what it waits for is as it was when it looked.
pub proof fn parked_waiters_miss_nothing(s: LaneState, events: Seq<LaneEvent>, n: nat, clid: u64, occurrence: int, cycle: u64)
    requires
        n <= u64::MAX,
        s.run(events, n).generation == s.generation,
    ensures
        s.admission(clid) == Wait::<Option<usize>>::Pending ==> s.run(events, n).admission(clid) == Wait::<
            Option<usize>,
        >::Pending,
        s.completion(occurrence, cycle) == Wait::<()>::Pending ==> s.run(events, n).completion(occurrence, cycle)
            == Wait::<()>::Pending,
{
    lemma_notices(s, events, n);
}

/// What is there is told before what has ended: an admitted CopperList and a
/// completed occurrence are told even when the executor stops or shuts down, and
/// a waiter's condition counts before the shutdown does.
pub proof fn what_is_there_is_told_first(s: LaneState, w: Waiter, clid: u64, occurrence: int, cycle: u64)
    ensures
        s.admission(clid) is Ready <==> clid < s.admitted,
        s.admission(clid) is Exit <==> s.admitted <= clid && (s.stopping || s.shutdown),
        s.completion(occurrence, cycle) is Ready <==> cycle < s.completed[occurrence],
        s.completion(occurrence, cycle) is Exit <==> s.completed[occurrence] <= cycle && s.shutdown,
        w.next(s, true) is Met,
        w.next(s, false) is ShutDown <==> s.shutdown,
{
}

/// A waiter looks 256 times before it parks, and again so often after each
/// time it parked.
pub proof fn waiters_look_before_they_park(s: LaneState, w: Waiter)
    requires
        !s.shutdown,
    ensures
        w.rounds() < 256 ==> w.next(s, false) is Spin && w.rounds_after(w.next(s, false)) == w.rounds() + 1,
        w.rounds() >= 256 ==> w.next(s, false) == WaitStep::Park(s.generation) && w.rounds_after(w.next(s, false)) == 0,
{
}

/// A receiver takes the value that waits longest; it finds nothing only when
/// nothing waits, and then tells the end of the senders before the end of its
/// time.
pub proof fn receivers_take_the_oldest<T>(queue: ResultQueue<T>, expired: bool)
    ensures
        queue.waiting().len() > 0 ==> queue.found(expired) == Received::Value(queue.waiting()[0])
            && queue.after_receive().len() == queue.waiting().len() - 1 && forall|i: int|
            0 <= i < queue.after_receive().len() ==> #[trigger] queue.after_receive()[i] == queue.waiting()[i + 1],
        queue.waiting().len() == 0 ==> queue.after_receive().len() == 0,
        queue.found(expired) is Disconnected <==> queue.waiting().len() == 0 && queue.sender_count() == 0,
        queue.found(expired) is Timeout <==> queue.waiting().len() == 0 && queue.sender_count() > 0 && expired,
        queue.found(expired) is Empty <==> queue.waiting().len() == 0 && queue.sender_count() > 0 && !expired,
{
}

/// What a step changes and what it leaves.
pub proof fn steps_change_one_thing(s: LaneState, event: LaneEvent)
    requires
        s.wf(),
        s.allows(event),
    ensures
        ({
            let t = s.step(event);
            &&& t.wf()
            &&& t.first_clid == s.first_clid
            &&& t.copperlists_per_cycle == s.copperlists_per_cycle
            &&& t.slots.len() == s.slots.len()
            &&& t.completed.len() == s.completed.len()
            &&& t.stopping <==> s.stopping || event is Stop
            &&& t.shutdown <==> s.shutdown || event is Shutdown
            &&& event is Admit ==> t.admitted == s.admitted + 1
            &&& !(event is Admit) ==> t.admitted == s.admitted
            &&& event is Finish || event is Abort ==> t.generation == s.generation
            &&& !(event is Finish || event is Abort) ==> t.generation != s.generation
            &&& forall|o: int|
                0 <= o < s.completed.len() ==> #[trigger] t.completed[o] == (if event is Complete
                    && event->occurrence == o {
                    event->cycle + 1
                } else {
                    s.completed[o] as int
                })
        }),
{
}

/// A CopperList is done exactly when as many of its occurrences have finished
/// since it was admitted as each CopperList has, whatever other CopperLists do
/// meanwhile.
pub proof fn copperlists_are_done_after_their_last_occurrence(
    s: LaneState,
    clid: u64,
    culist: usize,
    events: Seq<LaneEvent>,
    n: nat,
)
    requires
        s.wf(),
        s.allows(LaneEvent::Admit { clid, culist }),
        s.step(LaneEvent::Admit { clid, culist }).allows_all(events, n),
        orderly(s.step(LaneEvent::Admit { clid, culist }), events, n),
        s.step(LaneEvent::Admit { clid, culist }).run(events, n).admitted <= clid + s.slots.len(),
    ensures
        s.step(LaneEvent::Admit { clid, culist }).run(events, n).is_done(clid) <==> events.take(n as int).filter(
            finishes_one(clid),
        ).len() == s.occurrences_per_copperlist,
{
    let start = s.step(LaneEvent::Admit { clid, culist });
    admitted_copperlist_is_kept(s, clid, culist, events, n);
    lemma_finishes(events, clid, n);
    lemma_run_keeps_count(start, events, n);
}

/// Whether a step finishes an occurrence of that CopperList.
pub open spec fn finishes_one(clid: u64) -> spec_fn(LaneEvent) -> bool {
    |event: LaneEvent| event == (LaneEvent::Finish { clid })
}

proof fn lemma_finishes(events: Seq<LaneEvent>, clid: u64, n: nat)
    requires
        n <= events.len(),
    ensures
        finishes(events, clid, n) == events.take(n as int).filter(finishes_one(clid)).len(),
    decreases n,
{
    reveal(Seq::filter);
    if n > 0 {
        lemma_finishes(events, clid, (n - 1) as nat);
        assert(events.take(n as int).drop_last() =~= events.take(n - 1));
    }
}

proof fn lemma_run_keeps_count(s: LaneState, events: Seq<LaneEvent>, n: nat)
    ensures
        s.run(events, n).occurrences_per_copperlist == s.occurrences_per_copperlist,
    decreases n,
{
    if n > 0 {
        lemma_run_keeps_count(s, events, (n - 1) as nat);
    }
}

} // verus!
