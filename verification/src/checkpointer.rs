//! When to take a checkpoint: a counter of journal entries written since the
//! last one, compared against a configured interval.
//!
//! The counter does not rely on sequence-number arithmetic (sequences may be
//! sparse); the latest sequence is only the position a checkpoint is taken
//! at. Writing the checkpoint to its store is left to the caller, which
//! reports success with [`Checkpointer::checkpoint_written`].

use crate::checkpoint::{captured_from, has_run, mapping_of, runs_sorted, CheckpointData, CHECKPOINT_VERSION};
use crate::error::ExecutionError;
use crate::run_state::RunState;
use vstd::prelude::*;

verus! {

/// Periodic checkpoint creator for one execution tree.
pub struct Checkpointer {
    root_run_id: u128,
    /// Number of journal entries between checkpoints (0 = disabled).
    interval: usize,
    /// Entries written since the last checkpoint.
    entries_since_checkpoint: usize,
    /// Latest sequence number from a journal write.
    latest_sequence: Option<u64>,
}

impl Checkpointer {
    pub closed spec fn root_run_id_spec(&self) -> u128 {
        self.root_run_id
    }

    pub closed spec fn interval_spec(&self) -> usize {
        self.interval
    }

    pub closed spec fn entries_spec(&self) -> usize {
        self.entries_since_checkpoint
    }

    pub closed spec fn latest_sequence_spec(&self) -> Option<u64> {
        self.latest_sequence
    }

    /// A checkpoint is due: checkpoints are enabled and at least `interval`
    /// entries were written since the last one.
    pub open spec fn due(&self) -> bool {
        self.interval_spec() != 0 && self.entries_spec() >= self.interval_spec()
    }

    /// Create a checkpointer for the execution tree rooted at `root_run_id`,
    /// taking a checkpoint every `interval` journal entries (0 = never).
    pub fn new(root_run_id: u128, interval: usize) -> (r: Self)
        ensures
            r.root_run_id_spec() == root_run_id,
            r.interval_spec() == interval,
            r.entries_spec() == 0,
            r.latest_sequence_spec() is None,
    {
        Checkpointer { root_run_id, interval, entries_since_checkpoint: 0, latest_sequence: None }
    }

    /// The root run of the execution tree.
    pub fn root_run_id(&self) -> (r: u128)
        ensures
            r == self.root_run_id_spec(),
    {
        self.root_run_id
    }

    /// Record that one journal entry was written at `sequence`.
    pub fn record_entry(&mut self, sequence: u64)
        requires
            old(self).entries_spec() < usize::MAX,
        ensures
            final(self).root_run_id_spec() == old(self).root_run_id_spec(),
            final(self).interval_spec() == old(self).interval_spec(),
            final(self).entries_spec() == old(self).entries_spec() + 1,
            final(self).latest_sequence_spec() == Some(sequence),
    {
        self.latest_sequence = Some(sequence);
        self.entries_since_checkpoint = self.entries_since_checkpoint + 1;
    }

    /// The checkpoint to write now, if one is due: the state of `runs` and
    /// the sub-flow map captured at the latest recorded sequence. A due
    /// checkpoint with no sequence recorded yet is an error.
    pub fn maybe_checkpoint(
        &self,
        runs: &Vec<RunState>,
        subflow_map: &Vec<((u128, u32, usize, u128), u128)>,
    ) -> (r: Result<Option<CheckpointData>, ExecutionError>)
        requires
            forall|j: int| 0 <= j < runs@.len() ==> #[trigger] runs@[j].wf(),
        ensures
            !self.due() ==> r == Ok::<Option<CheckpointData>, ExecutionError>(None),
            self.due() && self.latest_sequence_spec() is None ==> r == Err::<Option<CheckpointData>, ExecutionError>(
                ExecutionError::CheckpointError,
            ),
            r matches Ok(Some(d)) ==> {
                &&& self.due()
                &&& self.latest_sequence_spec() == Some(d.sequence)
                &&& d.version == CHECKPOINT_VERSION
                &&& runs_sorted(d.runs@)
                &&& forall|i: int| 0 <= i < d.runs@.len() ==> #[trigger] captured_from(d.runs@[i], runs@)
                &&& forall|j: int| 0 <= j < runs@.len() ==> #[trigger] has_run(d.runs@, runs@[j].run_id_spec())
                &&& d.subflow_map@ == subflow_map@.map_values(|e: ((u128, u32, usize, u128), u128)| mapping_of(e))
            },
            self.due() && self.latest_sequence_spec() is Some ==> r is Ok && r->Ok_0 is Some,
    {
        if self.interval == 0 {
            return Ok(None);
        }
        if self.entries_since_checkpoint < self.interval {
            return Ok(None);
        }
        match self.latest_sequence {
            None => Err(ExecutionError::CheckpointError),
            Some(sequence) => Ok(Some(CheckpointData::capture(runs, subflow_map, sequence))),
        }
    }

    /// Record that a checkpoint was written: the count starts again.
    pub fn checkpoint_written(&mut self)
        ensures
            final(self).root_run_id_spec() == old(self).root_run_id_spec(),
            final(self).interval_spec() == old(self).interval_spec(),
            final(self).entries_spec() == 0,
            final(self).latest_sequence_spec() == old(self).latest_sequence_spec(),
    {
        self.entries_since_checkpoint = 0;
    }

    /// Whether the tree's checkpoints are to be deleted once the run
    /// completes: only when checkpoints are taken at all.
    pub fn cleanup_enabled(&self) -> (r: bool)
        ensures
            r == (self.interval_spec() != 0),
    {
        self.interval != 0
    }
}

} // verus!
