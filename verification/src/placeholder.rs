//! The parallel runtime's state where the parallel executor is switched off.
//!
//! The type keeps the rest of the runtime composed against one API.

use crate::error::CuResult;
use crate::parallel_rt::CachePadded;
use crate::parallel_rt::CausalityCheckpoint;
use crate::parallel_rt::ParallelRtMetadata;
use vstd::prelude::*;

verus! {

/// Placeholder for the state of a parallel run.
#[derive(Debug)]
pub struct ParallelRt<const NBCL: usize> {
    metadata: &'static ParallelRtMetadata,
    commit_checkpoint: CachePadded<CausalityCheckpoint>,
}

impl<const NBCL: usize> ParallelRt<NBCL> {
    /// The stage layout.
    pub closed spec fn layout(self) -> ParallelRtMetadata {
        *self.metadata
    }

    /// The CopperList id to commit next.
    pub closed spec fn cursor(self) -> u64 {
        self.commit_checkpoint.0.next_clid
    }

    pub fn new(metadata: &'static ParallelRtMetadata) -> (r: CuResult<Self>)
        ensures
            r matches Ok(rt) && rt.layout() == *metadata && rt.cursor() == 0,
    {
        Ok(ParallelRt { metadata, commit_checkpoint: CachePadded::new(CausalityCheckpoint::new(0)) })
    }

    pub fn enabled(&self) -> (r: bool)
        ensures
            !r,
    {
        false
    }

    pub fn metadata(&self) -> (r: &'static ParallelRtMetadata)
        ensures
            *r == self.layout(),
    {
        self.metadata
    }

    pub fn commit_checkpoint(&self) -> (r: &CachePadded<CausalityCheckpoint>)
        ensures
            r.0.next_clid == self.cursor(),
    {
        &self.commit_checkpoint
    }

    pub fn in_flight_limit(&self) -> (r: usize)
        ensures
            r == NBCL,
    {
        NBCL
    }

    /// Sets the commit cursor.
    pub fn reset_cursors(&mut self, next_clid: u64)
        ensures
            final(self).cursor() == next_clid,
            final(self).layout() == old(self).layout(),
    {
        self.commit_checkpoint.0.authorize_next(next_clid);
    }

    pub fn current_commit_clid(&self) -> (clid: u64)
        ensures
            clid == self.cursor(),
    {
        self.commit_checkpoint.0.current_clid()
    }

    /// Lets `next_clid` commit next.
    pub fn release_commit(&mut self, next_clid: u64)
        ensures
            final(self).cursor() == next_clid,
            final(self).layout() == old(self).layout(),
    {
        self.commit_checkpoint.0.authorize_next(next_clid);
    }
}

} // verus!
