//! Recovery of interrupted executions: which runs to claim and recover, and
//! the tally of what was recovered.

use crate::journal::ExecutionStatus;
use vstd::prelude::*;

verus! {

/// Result of a recovery operation.
pub struct RecoveryResult {
    /// Number of runs successfully recovered and resumed.
    pub recovered: usize,
    /// Number of runs that failed to recover.
    pub failed: usize,
    /// Run IDs that were recovered.
    pub recovered_run_ids: Vec<u128>,
    /// Run IDs that failed to recover, with error messages.
    pub failed_runs: Vec<(u128, String)>,
}

impl RecoveryResult {
    /// An empty recovery result.
    pub fn new() -> (r: Self)
        ensures
            r.recovered == 0,
            r.failed == 0,
            r.recovered_run_ids@ == Seq::<u128>::empty(),
            r.failed_runs@ == Seq::<(u128, String)>::empty(),
    {
        RecoveryResult { recovered: 0, failed: 0, recovered_run_ids: Vec::new(), failed_runs: Vec::new() }
    }

    /// Record a successful recovery.
    pub fn record_success(&mut self, run_id: u128)
        requires
            old(self).recovered < usize::MAX,
        ensures
            final(self).recovered == old(self).recovered + 1,
            final(self).recovered_run_ids@ == old(self).recovered_run_ids@.push(run_id),
            final(self).failed == old(self).failed,
            final(self).failed_runs@ == old(self).failed_runs@,
    {
        self.recovered = self.recovered + 1;
        self.recovered_run_ids.push(run_id);
    }

    /// Record a failed recovery.
    pub fn record_failure(&mut self, run_id: u128, error: String)
        requires
            old(self).failed < usize::MAX,
        ensures
            final(self).failed == old(self).failed + 1,
            final(self).failed_runs@ == old(self).failed_runs@.push((run_id, error)),
            final(self).recovered == old(self).recovered,
            final(self).recovered_run_ids@ == old(self).recovered_run_ids@,
    {
        self.failed = self.failed + 1;
        self.failed_runs.push((run_id, error));
    }
}

/// A root run found in the metadata store that may need recovery.
pub struct RunRecoveryInfo {
    pub root_run_id: u128,
    pub flow_id: String,
    /// Journal position at which the run was created.
    pub start_sequence: u64,
}

impl Clone for RunRecoveryInfo {
    fn clone(&self) -> (r: Self)
        ensures
            r == *self,
    {
        RunRecoveryInfo {
            root_run_id: self.root_run_id,
            flow_id: self.flow_id.clone(),
            start_sequence: self.start_sequence,
        }
    }
}

/// How many orphaned runs to look for after `own` runs of this orchestrator
/// were found, under an overall `limit`.
pub fn orphan_query_limit(limit: usize, own: usize) -> (r: usize)
    ensures
        r == (if own >= limit { 0 } else { limit - own }),
{
    limit.saturating_sub(own)
}

/// What a lease request for a run answered.
pub enum LeaseOutcome {
    /// This orchestrator holds the lease.
    Acquired,
    /// Another orchestrator holds it.
    OwnedBy { owner: String },
    /// The request failed.
    Failed,
}

/// What to do with a run after asking for its lease.
#[derive(PartialEq, Eq, Structural)]
pub enum ClaimAction {
    /// Recover it.
    Recover,
    /// Skip it.
    Skip,
}

/// The decision for one run found in the metadata store, recorded as owned
/// by `recorded_owner`, after asking for its lease: recover it when the lease
/// was acquired, skip it otherwise. The second component is the owner to
/// write back to the metadata store, if any: this orchestrator when it
/// acquired an orphaned run, the actual owner when the lease belongs to an
/// orchestrator other than the one recorded.
pub fn claim_decision(
    recorded_owner: &Option<String>,
    orchestrator_id: &String,
    outcome: &LeaseOutcome,
) -> (r: (ClaimAction, Option<String>))
    ensures
        r.0 == (if *outcome is Acquired { ClaimAction::Recover } else { ClaimAction::Skip }),
        match *outcome {
            LeaseOutcome::Acquired => match r.1 {
                Some(o) => recorded_owner is None && o@ == orchestrator_id@,
                None => recorded_owner is Some,
            },
            LeaseOutcome::OwnedBy { owner } => match r.1 {
                Some(o) => o@ == owner@ && !(recorded_owner matches Some(rec) && rec@ == owner@),
                None => recorded_owner matches Some(rec) && rec@ == owner@,
            },
            LeaseOutcome::Failed => r.1 is None,
        },
{
    match outcome {
        LeaseOutcome::Acquired => {
            let write = match recorded_owner {
                None => Some(orchestrator_id.clone()),
                Some(_) => None,
            };
            (ClaimAction::Recover, write)
        },
        LeaseOutcome::OwnedBy { owner } => {
            let same = match recorded_owner {
                Some(rec) => *rec == *owner,
                None => false,
            };
            if same {
                (ClaimAction::Skip, None)
            } else {
                (ClaimAction::Skip, Some(owner.clone()))
            }
        },
        LeaseOutcome::Failed => (ClaimAction::Skip, None),
    }
}

/// The claim is for another root run than `id`.
pub open spec fn other_root(id: u128) -> spec_fn(RunRecoveryInfo) -> bool {
    |e: RunRecoveryInfo| e.root_run_id != id
}

/// The execution trees to recover among the claimed `runs`: those not
/// already executing here, one per root run, the last claim of each root
/// winning.
pub open spec fn trees_of(runs: Seq<RunRecoveryInfo>, active: Set<u128>) -> Seq<RunRecoveryInfo>
    decreases runs.len(),
{
    if runs.len() == 0 {
        Seq::empty()
    } else {
        let rest = trees_of(runs.drop_last(), active);
        let last = runs.last();
        if active.contains(last.root_run_id) {
            rest
        } else {
            rest.filter(other_root(last.root_run_id)).push(last)
        }
    }
}

/// The execution trees to recover: the claimed runs not already executing in
/// this process, one per root run.
pub fn select_trees(runs: &Vec<RunRecoveryInfo>, active: &Vec<u128>) -> (r: Vec<RunRecoveryInfo>)
    ensures
        r@ == trees_of(runs@, active@.to_set()),
{
    let mut out: Vec<RunRecoveryInfo> = Vec::new();
    let mut i: usize = 0;
    while i < runs.len()
        invariant
            i <= runs@.len(),
            out@ == trees_of(runs@.take(i as int), active@.to_set()),
        decreases runs@.len() - i,
    {
        let info = runs[i].clone();
        let id = info.root_run_id;
        proof {
            assert(runs@.take(i + 1).drop_last() =~= runs@.take(i as int));
            assert(runs@.take(i + 1).last() == runs@[i as int]);
        }
        if !vec_contains_u128(active, id) {
            let mut kept: Vec<RunRecoveryInfo> = Vec::new();
            let mut k: usize = 0;
            while k < out.len()
                invariant
                    k <= out@.len(),
                    kept@ == out@.take(k as int).filter(other_root(id)),
                decreases out@.len() - k,
            {
                proof {
                    assert(out@.take(k + 1).drop_last() =~= out@.take(k as int));
                    out@.take(k as int).lemma_filter_push(out@[k as int], other_root(id));
                    assert(out@.take(k + 1) =~= out@.take(k as int).push(out@[k as int]));
                }
                if out[k].root_run_id != id {
                    kept.push(out[k].clone());
                }
                k = k + 1;
            }
            proof {
                assert(out@.take(out@.len() as int) =~= out@);
            }
            kept.push(info);
            out = kept;
        }
        i = i + 1;
    }
    proof {
        assert(runs@.take(runs@.len() as int) =~= runs@);
    }
    out
}

/// Whether `v` holds `x`.
pub fn vec_contains_u128(v: &Vec<u128>, x: u128) -> (r: bool)
    ensures
        r == v@.to_set().contains(x),
        r == v@.contains(x),
{
    let mut i: usize = 0;
    while i < v.len()
        invariant
            i <= v@.len(),
            forall|j: int| 0 <= j < i ==> v@[j] != x,
        decreases v@.len() - i,
    {
        if v[i] == x {
            proof {
                assert(v@.contains(x));
            }
            return true;
        }
        i = i + 1;
    }
    false
}

/// What the metadata store knows of the sub-runs of a tree: those with a
/// record, and those among them that finished.
pub struct SubflowMetadata {
    pub known: Vec<u128>,
    pub completed: Vec<u128>,
}

impl SubflowMetadata {
    /// Sort the runs of a tree that the metadata store returned, with their
    /// status, skipping the root.
    pub fn from_runs(root_run_id: u128, runs: &Vec<(u128, ExecutionStatus)>) -> (r: Self)
        ensures
            r.known@.to_set() == runs@.filter(|e: (u128, ExecutionStatus)| e.0 != root_run_id).map_values(
                |e: (u128, ExecutionStatus)| e.0,
            ).to_set(),
            r.completed@.to_set() == runs@.filter(
                |e: (u128, ExecutionStatus)| e.0 != root_run_id && e.1 != ExecutionStatus::Running,
            ).map_values(|e: (u128, ExecutionStatus)| e.0).to_set(),
    {
        let ghost fk = |e: (u128, ExecutionStatus)| e.0 != root_run_id;
        let ghost fc = |e: (u128, ExecutionStatus)| e.0 != root_run_id && e.1 != ExecutionStatus::Running;
        let ghost proj = |e: (u128, ExecutionStatus)| e.0;
        let mut known: Vec<u128> = Vec::new();
        let mut completed: Vec<u128> = Vec::new();
        let mut i: usize = 0;
        while i < runs.len()
            invariant
                i <= runs@.len(),
                fk == (|e: (u128, ExecutionStatus)| e.0 != root_run_id),
                fc == (|e: (u128, ExecutionStatus)| e.0 != root_run_id && e.1 != ExecutionStatus::Running),
                proj == (|e: (u128, ExecutionStatus)| e.0),
                known@ == runs@.take(i as int).filter(fk).map_values(proj),
                completed@ == runs@.take(i as int).filter(fc).map_values(proj),
            decreases runs@.len() - i,
        {
            let (id, status) = runs[i];
            proof {
                assert(runs@.take(i + 1) =~= runs@.take(i as int).push(runs@[i as int]));
                runs@.take(i as int).lemma_filter_push(runs@[i as int], fk);
                runs@.take(i as int).lemma_filter_push(runs@[i as int], fc);
            }
            if id != root_run_id {
                known.push(id);
                let finished = match status {
                    ExecutionStatus::Running => false,
                    _ => true,
                };
                if finished {
                    completed.push(id);
                }
            }
            proof {
                let prev = runs@.take(i as int);
                let e = runs@[i as int];
                if fk(e) {
                    assert(prev.push(e).filter(fk) == prev.filter(fk).push(e));
                    assert(prev.filter(fk).push(e).map_values(proj) =~= prev.filter(fk).map_values(proj).push(proj(e)));
                } else {
                    assert(prev.push(e).filter(fk) == prev.filter(fk));
                }
                if fc(e) {
                    assert(prev.push(e).filter(fc) == prev.filter(fc).push(e));
                    assert(prev.filter(fc).push(e).map_values(proj) =~= prev.filter(fc).map_values(proj).push(proj(e)));
                } else {
                    assert(prev.push(e).filter(fc) == prev.filter(fc));
                }
                assert(known@ =~= runs@.take(i + 1).filter(fk).map_values(proj));
                assert(completed@ =~= runs@.take(i + 1).filter(fc).map_values(proj));
            }
            i = i + 1;
        }
        proof {
            assert(runs@.take(runs@.len() as int) =~= runs@);
        }
        SubflowMetadata { known, completed }
    }
}

} // verus!
