//! Parallel runtime scheduler state for concurrent CopperList execution.
//!
//! One ordered process-stage entry exists per runtime plan node. The runtime
//! executes those stages as a FIFO pipeline: each stage worker drains
//! CopperLists in ascending id order and forwards them to the next stage.
//! Determinism therefore comes from queue order, while commit and log handoff
//! is still protected by an explicit ordered cursor.

use core::ops::Deref;
use crate::assembled::NodeId;
use crate::error::CuResult;
use vstd::prelude::*;

verus! {

/// Scheduler-facing category for one process-stage checkpoint.
#[derive(Clone, Copy, Debug, PartialEq, Eq, Structural)]
pub enum ParallelRtStageKind {
    /// A normal task instance.
    Task,
    /// A bridge receive channel.
    BridgeRx,
    /// A bridge send channel.
    BridgeTx,
}

/// A monitored component.
#[derive(Clone, Copy, Debug, PartialEq, Eq, Structural)]
pub struct ComponentId {
    pub index: usize,
}

impl ComponentId {
    pub fn new(index: usize) -> (r: Self)
        ensures
            r.index == index,
    {
        ComponentId { index }
    }
}

/// Static metadata describing one ordered process stage of a plan.
#[derive(Clone, Copy, Debug, PartialEq, Eq)]
pub struct ParallelRtStageMetadata {
    /// Stable human-readable identifier used in diagnostics.
    pub label: &'static str,
    /// Whether the stage targets a task, a receive lane or a send lane.
    pub kind: ParallelRtStageKind,
    /// Node identifier inside the execution plan.
    pub plan_node_id: NodeId,
    /// Monitor component attached to this stage.
    pub component_id: ComponentId,
}

impl ParallelRtStageMetadata {
    pub fn new(
        label: &'static str,
        kind: ParallelRtStageKind,
        plan_node_id: NodeId,
        component_id: ComponentId,
    ) -> (r: Self)
        ensures
            r.label == label,
            r.kind == kind,
            r.plan_node_id == plan_node_id,
            r.component_id == component_id,
    {
        ParallelRtStageMetadata { label, kind, plan_node_id, component_id }
    }
}

/// Immutable scheduler layout shared by every runtime instance of a mission.
///
/// `stages` is in the order of the per-CopperList process path.
#[derive(Clone, Copy, Debug, PartialEq, Eq)]
pub struct ParallelRtMetadata {
    pub stages: &'static [ParallelRtStageMetadata],
}

impl ParallelRtMetadata {
    pub fn new(stages: &'static [ParallelRtStageMetadata]) -> (r: Self)
        ensures
            r.stages@ == stages@,
    {
        ParallelRtMetadata { stages }
    }

    pub fn process_stage_count(self) -> (count: usize)
        ensures
            count == self.stages@.len(),
    {
        self.stages.len()
    }
}

/// Empty metadata, for code paths that have no process-stage layout.
pub fn disabled_parallel_rt_metadata() -> (r: ParallelRtMetadata)
    ensures
        r.stages@ == Seq::<ParallelRtStageMetadata>::empty(),
{
    let none: &'static [ParallelRtStageMetadata; 0] = &[];
    let r = ParallelRtMetadata { stages: none };
    assert(r.stages@ =~= Seq::empty());
    r
}

/// Wrapper of a hot scheduler cursor.
#[derive(Debug)]
pub struct CachePadded<T>(pub T);

impl<T> CachePadded<T> {
    pub fn new(value: T) -> (r: Self)
        ensures
            r.0 == value,
    {
        CachePadded(value)
    }

    pub fn into_inner(self) -> (value: T)
        ensures
            value == self.0,
    {
        self.0
    }
}

impl<T> Deref for CachePadded<T> {
    type Target = T;

    fn deref(&self) -> (r: &T)
        ensures
            *r == self.0,
    {
        &self.0
    }
}

/// Authorization cursor used by ordered commit.
#[derive(Debug)]
pub struct CausalityCheckpoint {
    /// The CopperList id that the serial commit path may accept next.
    pub next_clid: u64,
}

impl CausalityCheckpoint {
    pub fn new(initial_clid: u64) -> (r: Self)
        ensures
            r.next_clid == initial_clid,
    {
        CausalityCheckpoint { next_clid: initial_clid }
    }

    pub fn current_clid(&self) -> (clid: u64)
        ensures
            clid == self.next_clid,
    {
        self.next_clid
    }

    /// Whether `clid` is the one to commit next.
    pub fn is_authorized_for(&self, clid: u64) -> (r: bool)
        ensures
            r == (self.next_clid == clid),
    {
        self.current_clid() == clid
    }

    /// Lets `next_clid` commit next.
    pub fn authorize_next(&mut self, next_clid: u64)
        ensures
            final(self).next_clid == next_clid,
    {
        self.next_clid = next_clid;
    }
}

/// Per-CopperList scratch state carried while a list is in flight.
#[derive(Debug)]
pub struct ParallelKeyFrameScratch {
    pub culistid: u64,
    /// Nanoseconds of the runtime's clock.
    pub timestamp: u64,
    pub serialized_tasks: Vec<u8>,
}

/// Ownership container for one in-flight CopperList.
#[derive(Debug)]
pub struct IterationTicket<C> {
    /// Globally ordered CopperList id.
    pub clid: u64,
    /// The CopperList buffer being filled or committed.
    pub culist: C,
    /// Optional per-CopperList snapshot scratch space.
    pub keyframe: Option<Box<ParallelKeyFrameScratch>>,
    /// Payload bytes observed before serialization.
    pub raw_payload_bytes: u64,
    /// Handle-backed payload accounting.
    pub handle_bytes: u64,
}

impl<C> IterationTicket<C> {
    /// A fresh ticket for a buffer that `reset` has prepared for `clid`.
    pub fn new<R: FnOnce(u64, C) -> C>(clid: u64, culist: C, reset: R) -> (r: Self)
        requires
            call_requires(reset, (clid, culist)),
        ensures
            r.clid == clid,
            call_ensures(reset, (clid, culist), r.culist),
            r.keyframe is None,
            r.raw_payload_bytes == 0,
            r.handle_bytes == 0,
    {
        IterationTicket { clid, culist: reset(clid, culist), keyframe: None, raw_payload_bytes: 0, handle_bytes: 0 }
    }
}

/// Runtime state shared by the stage pipeline.
#[derive(Debug)]
pub struct ParallelRt<const NBCL: usize> {
    /// Static process-stage layout.
    metadata: &'static ParallelRtMetadata,
    /// Ordered commit cursor for monitor, keyframe and log handoff.
    commit_checkpoint: CachePadded<CausalityCheckpoint>,
    /// Maximum number of CopperLists intended to be in flight at once.
    in_flight_limit: usize,
}

impl<const NBCL: usize> ParallelRt<NBCL> {
    /// The stage layout.
    pub closed spec fn layout(self) -> ParallelRtMetadata {
        *self.metadata
    }

    /// The CopperList id to commit next.
    pub closed spec fn cursor(self) -> u64 {
        self.commit_checkpoint.0.next_clid
    }

    /// How many CopperLists are intended to be in flight at once.
    pub closed spec fn limit(self) -> usize {
        self.in_flight_limit
    }

    pub fn new(metadata: &'static ParallelRtMetadata) -> (r: CuResult<Self>)
        ensures
            r matches Ok(rt) && rt.layout() == *metadata && rt.cursor() == 0 && rt.limit() == NBCL,
    {
        Ok(
            ParallelRt {
                metadata,
                commit_checkpoint: CachePadded::new(CausalityCheckpoint::new(0)),
                in_flight_limit: NBCL,
            },
        )
    }

    pub fn enabled(&self) -> (r: bool)
        ensures
            r,
    {
        true
    }

    pub fn metadata(&self) -> (r: &'static ParallelRtMetadata)
        ensures
            *r == self.layout(),
    {
        self.metadata
    }

    pub fn commit_checkpoint(&self) -> (r: &CachePadded<CausalityCheckpoint>)
        ensures
            r.0.next_clid == self.cursor(),
    {
        &self.commit_checkpoint
    }

    pub fn in_flight_limit(&self) -> (r: usize)
        ensures
            r == self.limit(),
    {
        self.in_flight_limit
    }

    /// Sets the commit cursor to the next CopperList id that a fresh run loop
    /// will dispatch.
    pub fn reset_cursors(&mut self, next_clid: u64)
        ensures
            final(self).cursor() == next_clid,
            final(self).layout() == old(self).layout(),
            final(self).limit() == old(self).limit(),
    {
        self.commit_checkpoint.0.authorize_next(next_clid);
    }

    pub fn current_commit_clid(&self) -> (clid: u64)
        ensures
            clid == self.cursor(),
    {
        self.commit_checkpoint.0.current_clid()
    }

    /// Lets `next_clid` commit next.
    pub fn release_commit(&mut self, next_clid: u64)
        ensures
            final(self).cursor() == next_clid,
            final(self).layout() == old(self).layout(),
            final(self).limit() == old(self).limit(),
    {
        self.commit_checkpoint.0.authorize_next(next_clid);
    }
}

} // verus!
