//! The state of an executing tree of runs (the root run and the sub-flow
//! runs it submitted) and the state changes of the execution loop: starting
//! tasks, completing them, retrying failed ones, accepting sub-flow
//! submissions and finishing the root run.
//!
//! The caller runs the loop: it awaits task futures and sub-flow requests,
//! writes the returned journal events, updates the metadata store and hands
//! ready tasks to a scheduler.

use std::sync::Arc;

use crate::checkpoint::{captured_from, has_run, mapping_of, runs_sorted, CheckpointData, CHECKPOINT_VERSION};
use crate::checkpointer::Checkpointer;
use crate::error::ExecutionError;
use crate::execution::{
    assoc_get, attempt_groups, attempts_view, decide_retry, group_attempts, group_unblocked, item_groups,
    lemma_attempts_started_view, lemma_groups_started, run_entries, set_triples, needed_records, retry_step, step_status_for, steps_needed_of, FailureKind, RetryDecision, RetryState,
    submit_outcome, take_recovered_subflow, steps_needed_events, needs_steps_needed, SubmitOutcome,
};
use crate::flow::{Flow, FlowResult};
use crate::item_state::ItemView;
use crate::items_state::{count_incomplete, initialized_view, ready_after_completion, ready_tasks_upto, tasks_for};
use crate::journal::{ExecutionStatus, JournalEvent, RunTaskAttempts, StepStatus};
use crate::replay::{assoc_remove, fresh_subflow, ids_unique, sub_pos, SubflowKey, TaskKey};
use crate::resolve::{resolve, resolved};
use crate::run_state::{applied, attempts_started, RunState};
use crate::task::Task;
use vstd::prelude::*;

verus! {

/// The output of each item of a run, resolved.
pub open spec fn item_results(st: RunState) -> Seq<Result<FlowResult, ExecutionError>> {
    let items = st.items().items_spec();
    Seq::new(items.len(), |i: int| resolved(items[i].flow_spec().output, items[i]))
}

/// The final status of a run with these item outputs: failed if any output
/// failed or could not be resolved, completed otherwise.
pub open spec fn results_status(rs: Seq<Result<FlowResult, ExecutionError>>) -> ExecutionStatus {
    if exists|i: int| 0 <= i < rs.len() && !(#[trigger] rs[i] matches Ok(r) && !(r is Failed)) {
        ExecutionStatus::Failed
    } else {
        ExecutionStatus::Completed
    }
}

/// The item outputs of a run and its final status.
pub fn run_outputs(st: &RunState) -> (r: (ExecutionStatus, Vec<Result<FlowResult, ExecutionError>>))
    requires
        st.wf(),
    ensures
        r.1@ == item_results(*st),
        r.0 == results_status(r.1@),
{
    proof {
        st.lemma_wf();
    }
    let n = st.item_count();
    let mut out: Vec<Result<FlowResult, ExecutionError>> = Vec::new();
    let mut failed = false;
    let mut i: u32 = 0;
    while i < n
        invariant
            st.wf(),
            n == st.items().items_spec().len(),
            forall|j: int| 0 <= j < n ==> #[trigger] st.items().items_spec()[j].wf(),
            i <= n,
            out@ == item_results(*st).take(i as int),
            failed == exists|j: int| 0 <= j < out@.len() && !(#[trigger] out@[j] matches Ok(r) && !(r is Failed)),
        decreases n - i,
    {
        let item = st.items_state().item(i);
        let res = resolve(item, &item.flow().output);
        let bad = match &res {
            Ok(r) => r.is_failed(),
            Err(_) => true,
        };
        let ghost before = out@;
        out.push(res);
        proof {
            assert(out@ =~= item_results(*st).take(i + 1));
            if bad {
                assert(!(out@[i as int] matches Ok(r) && !(r is Failed)));
            }
            if failed {
                let j = choose|j: int| 0 <= j < before.len() && !(#[trigger] before[j] matches Ok(r) && !(r is Failed));
                assert(out@[j] == before[j]);
            }
            if !failed && !bad {
                assert forall|j: int| 0 <= j < out@.len() implies (#[trigger] out@[j] matches Ok(r) && !(r is Failed)) by {
                    if j < before.len() {
                        assert(out@[j] == before[j]);
                    }
                }
            }
        }
        failed = failed || bad;
        i = i + 1;
    }
    proof {
        assert(item_results(*st).take(n as int) =~= item_results(*st));
    }
    let status = if failed {
        ExecutionStatus::Failed
    } else {
        ExecutionStatus::Completed
    };
    (status, out)
}

/// What completing a task changed and owes.
pub struct Completion {
    /// The tasks of the run that became ready.
    pub new_tasks: Vec<Task>,
    /// The same tasks grouped by item, for the `StepsUnblocked` records.
    pub unblocked: Vec<(u32, Vec<usize>)>,
    /// The completed step's status.
    pub step_status: StepStatus,
    /// For a sub-flow run that this completion finished: its final status,
    /// item outputs and final state. The run is dropped from the tree.
    pub finished: Option<(ExecutionStatus, Vec<Result<FlowResult, ExecutionError>>, RunState)>,
}

/// What a retry decision owes.
pub struct RetryOutcome {
    pub decision: RetryDecision,
    /// The new attempt number of the task, when it is retried.
    pub attempt: Option<u32>,
}

/// A request to run a sub-flow for a step of a run.
pub struct SubflowRequest {
    pub run_id: u128,
    pub parent_run_id: u128,
    pub item_index: u32,
    pub step_index: usize,
    pub subflow_key: u128,
    pub flow_id: String,
    pub flow: Arc<Flow>,
    pub inputs: Vec<serde_json::Value>,
    pub variables: Vec<(String, serde_json::Value)>,
}

/// The metadata-store record of a new sub-flow run: created once the run's
/// `SubRunCreated` record is in the journal, at that record's sequence.
pub struct SubRunRecord {
    pub run_id: u128,
    pub flow_id: String,
    pub inputs: Vec<serde_json::Value>,
    /// The root run of the execution tree.
    pub root_run_id: u128,
    /// The run whose step submitted the sub-flow.
    pub parent_run_id: u128,
    /// The name of the sub-flow's flow, if it has one.
    pub workflow_name: Option<String>,
}

/// How a sub-flow request was handled.
pub enum SubmitResult {
    /// A recovered sub-flow for the same parent step and key exists: its run.
    Existing(u128),
    /// A new sub-flow run was created.
    Created {
        run_id: u128,
        /// Its ready tasks, for the scheduler.
        initial_tasks: Vec<Task>,
        /// The journal records it owes: `SubRunCreated`, its `StepsNeeded`
        /// records, and `RunCompleted` when it finished at once.
        events: Vec<JournalEvent>,
        /// Its metadata-store record.
        record: SubRunRecord,
        outcome: SubmitOutcome,
        /// The item outputs of a run with items but no steps to run.
        item_results: Vec<Result<FlowResult, ExecutionError>>,
    },
}

/// The retry counters of a task: none recorded counts as zero.
pub open spec fn retry_state_of(retries: Seq<(TaskKey, RetryState)>, key: TaskKey) -> RetryState {
    match assoc_get(retries, key) {
        Some(st) => st,
        None => RetryState { transport_retries: 0, component_retries: 0 },
    }
}

/// The counters recorded for `key`.
fn find_retry_state(v: &Vec<(TaskKey, RetryState)>, key: TaskKey) -> (r: RetryState)
    ensures
        r == retry_state_of(v@, key),
{
    let mut found: Option<RetryState> = None;
    let mut i: usize = 0;
    while i < v.len()
        invariant
            i <= v@.len(),
            found == assoc_get(v@.take(i as int), key),
        decreases v@.len() - i,
    {
        proof {
            assert(v@.take(i + 1).drop_last() =~= v@.take(i as int));
            assert(v@.take(i + 1).last() == v@[i as int]);
        }
        let e = v[i];
        if e.0.0 == key.0 && e.0.1 == key.1 && e.0.2 == key.2 {
            found = Some(e.1);
        }
        i = i + 1;
    }
    proof {
        assert(v@.take(v@.len() as int) =~= v@);
    }
    match found {
        Some(st) => st,
        None => RetryState { transport_retries: 0, component_retries: 0 },
    }
}

/// Record the counters of `key`.
fn set_retry_state(v: &Vec<(TaskKey, RetryState)>, key: TaskKey, st: RetryState) -> (r: Vec<(TaskKey, RetryState)>)
    ensures
        r@ == crate::replay::assoc_insert(v@, key, st),
{
    let ghost p = crate::replay::key_differs::<TaskKey, RetryState>(key);
    let mut out: Vec<(TaskKey, RetryState)> = Vec::new();
    let mut i: usize = 0;
    while i < v.len()
        invariant
            i <= v@.len(),
            p == crate::replay::key_differs::<TaskKey, RetryState>(key),
            out@ == v@.take(i as int).filter(p),
        decreases v@.len() - i,
    {
        let e = v[i];
        proof {
            assert(v@.take(i + 1) =~= v@.take(i as int).push(e));
            v@.take(i as int).lemma_filter_push(e, p);
        }
        if !(e.0.0 == key.0 && e.0.1 == key.1 && e.0.2 == key.2) {
            out.push(e);
        }
        i = i + 1;
    }
    proof {
        assert(v@.take(v@.len() as int) =~= v@);
    }
    out.push((key, st));
    out
}

/// The position of `id` is still found after removing a run at another
/// position.
proof fn lemma_sub_pos_remove(runs: Seq<RunState>, k: int, id: u128)
    requires
        0 <= k < runs.len(),
        ids_unique(runs),
        sub_pos(runs, id) is Some,
        runs[k].run_id_spec() != id,
    ensures
        sub_pos(runs.remove(k), id) is Some,
        ids_unique(runs.remove(k)),
        runs.remove(k)[sub_pos(runs.remove(k), id)->Some_0] == runs[sub_pos(runs, id)->Some_0],
{
    let p = sub_pos(runs, id)->Some_0;
    let q = if p < k { p } else { p - 1 };
    let r = runs.remove(k);
    assert(r[q] == runs[p]);
    assert(r[q].run_id_spec() == id);
    assert forall|i: int, j: int| 0 <= i < j < r.len() implies r[i].run_id_spec() != r[j].run_id_spec() by {
        let ii = if i < k { i } else { i + 1 };
        let jj = if j < k { j } else { j + 1 };
        assert(r[i] == runs[ii]);
        assert(r[j] == runs[jj]);
    }
    let c = choose|j: int| 0 <= j < r.len() && #[trigger] r[j].run_id_spec() == id;
    if c != q {
        assert(r[c].run_id_spec() == id);
    }
}

/// The position of every ID is kept by replacing a run with one of the same
/// ID.
proof fn lemma_sub_pos_update(runs: Seq<RunState>, k: int, st: RunState, id: u128)
    requires
        0 <= k < runs.len(),
        ids_unique(runs),
        st.run_id_spec() == runs[k].run_id_spec(),
    ensures
        sub_pos(runs.update(k, st), id) == sub_pos(runs, id),
        ids_unique(runs.update(k, st)),
{
    let u = runs.update(k, st);
    assert forall|j: int| 0 <= j < runs.len() implies #[trigger] u[j].run_id_spec() == runs[j].run_id_spec() by {}
    assert forall|i: int, j: int| 0 <= i < j < u.len() implies u[i].run_id_spec() != u[j].run_id_spec() by {
        assert(u[i].run_id_spec() == runs[i].run_id_spec());
        assert(u[j].run_id_spec() == runs[j].run_id_spec());
    }
    if exists|j: int| 0 <= j < runs.len() && #[trigger] runs[j].run_id_spec() == id {
        let a = choose|j: int| 0 <= j < runs.len() && #[trigger] runs[j].run_id_spec() == id;
        let b = choose|j: int| 0 <= j < u.len() && #[trigger] u[j].run_id_spec() == id;
        assert(u[a].run_id_spec() == id);
        if a != b {
            assert(runs[b].run_id_spec() == id);
        }
    } else {
        assert forall|j: int| 0 <= j < u.len() implies #[trigger] u[j].run_id_spec() != id by {
            assert(u[j].run_id_spec() == runs[j].run_id_spec());
        }
    }
}

/// `st1` is run `st0` with only attempt counts changed.
pub open spec fn same_but_attempts(st0: RunState, st1: RunState) -> bool {
    let items0 = st0.items().items_spec();
    let items1 = st1.items().items_spec();
    &&& st1.run_id_spec() == st0.run_id_spec()
    &&& st1.flow_id_spec() == st0.flow_id_spec()
    &&& st1.root_run_id_spec() == st0.root_run_id_spec()
    &&& st1.parent_run_id_spec() == st0.parent_run_id_spec()
    &&& st1.flow_spec() == st0.flow_spec()
    &&& st1.items().variables_spec() == st0.items().variables_spec()
    &&& items1.len() == items0.len()
    &&& forall|i: int|
        0 <= i < items0.len() ==> {
            &&& (#[trigger] items1[i]).same_context(&items0[i])
            &&& items1[i]@ == (ItemView { attempts: items1[i]@.attempts, ..items0[i]@ })
        }
}

/// `st1` is run `st0` with every item initialized: its output's and
/// `must_execute` steps needed.
pub open spec fn run_initialized(st0: RunState, st1: RunState) -> bool {
    let items0 = st0.items().items_spec();
    let items1 = st1.items().items_spec();
    &&& st1.wf()
    &&& st1.run_id_spec() == st0.run_id_spec()
    &&& st1.flow_id_spec() == st0.flow_id_spec()
    &&& st1.root_run_id_spec() == st0.root_run_id_spec()
    &&& st1.parent_run_id_spec() == st0.parent_run_id_spec()
    &&& st1.flow_spec() == st0.flow_spec()
    &&& st1.items().variables_spec() == st0.items().variables_spec()
    &&& items1.len() == items0.len()
    &&& forall|j: int|
        0 <= j < items0.len() ==> {
            &&& (#[trigger] items1[j]).same_context(&items0[j])
            &&& items1[j]@ == initialized_view(items0[j])
        }
}

/// The fields of a `SubRunCreated` record, its lists by their views.
pub open spec fn sub_run_created_of(e: JournalEvent) -> Option<
    (u128, Seq<char>, Seq<serde_json::Value>, Seq<(String, serde_json::Value)>, u128, u32, usize, u128),
> {
    match e {
        JournalEvent::SubRunCreated {
            run_id,
            flow_id,
            inputs,
            variables,
            parent_run_id,
            item_index,
            step_index,
            subflow_key,
        } => Some((run_id, flow_id@, inputs@, variables@, parent_run_id, item_index, step_index, subflow_key)),
        _ => None,
    }
}

/// The run and steps of a `StepsNeeded` record.
pub open spec fn needed_event_of(e: JournalEvent) -> Option<(u128, u32, Seq<usize>)> {
    match e {
        JournalEvent::StepsNeeded { run_id, item_index, step_indices } => Some((run_id, item_index, step_indices@)),
        _ => None,
    }
}

/// The ready tasks of the first `k` runs, each with its run.
pub open spec fn runs_ready_tasks(runs: Seq<RunState>, k: int) -> Seq<(u128, Task)>
    decreases k,
{
    if k <= 0 {
        Seq::empty()
    } else {
        let st = runs[k - 1];
        runs_ready_tasks(runs, k - 1) + ready_tasks_upto(st.items().items_spec(), st.items().items_spec().len()).map_values(
            |t: Task| (st.run_id_spec(), t),
        )
    }
}

/// The `StepsNeeded` records the first `k` runs owe, for the runs that owe
/// them.
pub open spec fn runs_needed_records(runs: Seq<RunState>, owes: spec_fn(u128) -> bool, k: int) -> Seq<(u128, u32, Seq<usize>)>
    decreases k,
{
    if k <= 0 {
        Seq::empty()
    } else {
        let st = runs[k - 1];
        let prev = runs_needed_records(runs, owes, k - 1);
        if owes(st.run_id_spec()) {
            prev + needed_records(st, st.items().items_spec().len() as int).map_values(
                |e: (u32, Seq<usize>)| (st.run_id_spec(), e.0, e.1),
            )
        } else {
            prev
        }
    }
}

/// Removing a key that has no entry changes nothing.
proof fn lemma_no_entry_remove(s: Seq<(SubflowKey, u128)>, k: SubflowKey)
    requires
        assoc_get(s, k) is None,
    ensures
        assoc_remove(s, k) == s,
    decreases s.len(),
{
    if s.len() > 0 {
        lemma_no_entry_remove(s.drop_last(), k);
        let p = crate::replay::key_differs::<SubflowKey, u128>(k);
        assert(s.drop_last().push(s.last()) =~= s);
        s.drop_last().lemma_filter_push(s.last(), p);
    } else {
        assert(s.filter(crate::replay::key_differs::<SubflowKey, u128>(k)) =~= s);
    }
}

/// The ready tasks of the first `k` runs depend on those runs only.
proof fn lemma_ready_tasks_prefix(a: Seq<RunState>, b: Seq<RunState>, k: int)
    requires
        0 <= k,
        k <= a.len(),
        k <= b.len(),
        forall|j: int| 0 <= j < k ==> #[trigger] a[j] == b[j],
    ensures
        runs_ready_tasks(a, k) == runs_ready_tasks(b, k),
    decreases k,
{
    if k > 0 {
        lemma_ready_tasks_prefix(a, b, k - 1);
    }
}

/// The owed records of the first `k` runs depend on those runs only.
proof fn lemma_needed_records_prefix(a: Seq<RunState>, b: Seq<RunState>, owes: spec_fn(u128) -> bool, k: int)
    requires
        0 <= k,
        k <= a.len(),
        k <= b.len(),
        forall|j: int| 0 <= j < k ==> #[trigger] a[j] == b[j],
    ensures
        runs_needed_records(a, owes, k) == runs_needed_records(b, owes, k),
    decreases k,
{
    if k > 0 {
        lemma_needed_records_prefix(a, b, owes, k - 1);
    }
}

/// The executing tree of runs.
pub struct FlowExecutor {
    root_run_id: u128,
    runs: Vec<RunState>,
    max_in_flight: usize,
    recovered_subflows: Vec<(SubflowKey, u128)>,
    runs_needing_step_updates: Vec<u128>,
    recovered_run_ids: Vec<u128>,
    checkpointer: Checkpointer,
    retries: Vec<(TaskKey, RetryState)>,
}

impl FlowExecutor {
    pub closed spec fn root_run_id_spec(&self) -> u128 {
        self.root_run_id
    }

    pub closed spec fn runs_spec(&self) -> Seq<RunState> {
        self.runs@
    }

    pub closed spec fn max_in_flight_spec(&self) -> usize {
        self.max_in_flight
    }

    pub closed spec fn recovered_subflows_spec(&self) -> Seq<(SubflowKey, u128)> {
        self.recovered_subflows@
    }

    pub closed spec fn needing_spec(&self) -> Set<u128> {
        self.runs_needing_step_updates@.to_set()
    }

    pub closed spec fn recovered_ids_spec(&self) -> Set<u128> {
        self.recovered_run_ids@.to_set()
    }

    pub closed spec fn checkpointer_spec(&self) -> Checkpointer {
        self.checkpointer
    }

    pub closed spec fn retries_spec(&self) -> Seq<(TaskKey, RetryState)> {
        self.retries@
    }

    pub open spec fn wf(&self) -> bool {
        &&& forall|k: int| 0 <= k < self.runs_spec().len() ==> #[trigger] self.runs_spec()[k].wf()
        &&& ids_unique(self.runs_spec())
        &&& sub_pos(self.runs_spec(), self.root_run_id_spec()) is Some
    }

    /// The root run's state.
    pub open spec fn root_spec(&self) -> RunState {
        self.runs_spec()[sub_pos(self.runs_spec(), self.root_run_id_spec())->Some_0]
    }

    /// The task's indices are in range for its run, when the run is known.
    pub open spec fn task_fits(&self, run_id: u128, task: Task) -> bool {
        match sub_pos(self.runs_spec(), run_id) {
            Some(k) => task.item_index < self.runs_spec()[k].items().items_spec().len() && task.step_index
                < self.runs_spec()[k].flow_spec().steps@.len(),
            None => true,
        }
    }

    /// Create the executor of a tree of runs, `runs` holding the root run
    /// `root_run_id` and any recovered sub-flow runs.
    pub fn new_from_builder(
        root_run_id: u128,
        runs: Vec<RunState>,
        max_in_flight: usize,
        recovered_subflows: Vec<(SubflowKey, u128)>,
        runs_needing_step_updates: Vec<u128>,
        checkpointer: Checkpointer,
    ) -> (r: Self)
        requires
            forall|k: int| 0 <= k < runs@.len() ==> #[trigger] runs@[k].wf(),
            ids_unique(runs@),
            sub_pos(runs@, root_run_id) is Some,
        ensures
            r.wf(),
            r.root_run_id_spec() == root_run_id,
            r.runs_spec() == runs@,
            r.max_in_flight_spec() == max_in_flight,
            r.recovered_subflows_spec() == recovered_subflows@,
            r.needing_spec() == runs_needing_step_updates@.to_set(),
            r.recovered_ids_spec() == recovered_subflows@.map_values(|e: (SubflowKey, u128)| e.1).to_set(),
            r.checkpointer_spec() == checkpointer,
            r.retries_spec() == Seq::<(TaskKey, RetryState)>::empty(),
    {
        let mut ids: Vec<u128> = Vec::new();
        let mut i: usize = 0;
        while i < recovered_subflows.len()
            invariant
                i <= recovered_subflows@.len(),
                ids@ == recovered_subflows@.take(i as int).map_values(|e: (SubflowKey, u128)| e.1),
            decreases recovered_subflows@.len() - i,
        {
            ids.push(recovered_subflows[i].1);
            proof {
                assert(recovered_subflows@.take(i + 1).map_values(|e: (SubflowKey, u128)| e.1) =~= recovered_subflows@.take(
                    i as int,
                ).map_values(|e: (SubflowKey, u128)| e.1).push(recovered_subflows@[i as int].1));
            }
            i = i + 1;
        }
        proof {
            assert(recovered_subflows@.take(recovered_subflows@.len() as int) =~= recovered_subflows@);
        }
        FlowExecutor {
            root_run_id,
            runs,
            max_in_flight,
            recovered_subflows,
            runs_needing_step_updates,
            recovered_run_ids: ids,
            checkpointer,
            retries: Vec::new(),
        }
    }

    /// The root run of the tree.
    pub fn root_run_id(&self) -> (r: u128)
        ensures
            r == self.root_run_id_spec(),
    {
        self.root_run_id
    }

    /// The run of this execution: the root run.
    pub fn run_id(&self) -> (r: u128)
        ensures
            r == self.root_run_id_spec(),
    {
        self.root_run_id
    }

    /// The position of run `id`.
    fn find_run(&self, id: u128) -> (r: Option<usize>)
        requires
            ids_unique(self.runs_spec()),
        ensures
            match r {
                Some(k) => k < self.runs_spec().len() && self.runs_spec()[k as int].run_id_spec() == id && sub_pos(
                    self.runs_spec(),
                    id,
                ) == Some(k as int),
                None => sub_pos(self.runs_spec(), id) is None,
            },
    {
        let mut k: usize = 0;
        while k < self.runs.len()
            invariant
                k <= self.runs_spec().len(),
                ids_unique(self.runs_spec()),
                forall|j: int| 0 <= j < k ==> #[trigger] self.runs_spec()[j].run_id_spec() != id,
            decreases self.runs_spec().len() - k,
        {
            if self.runs[k].run_id() == id {
                proof {
                    let c = choose|j: int| 0 <= j < self.runs_spec().len() && #[trigger] self.runs_spec()[j].run_id_spec() == id;
                    assert(self.runs_spec()[k as int].run_id_spec() == id);
                    if c != k {
                        assert(self.runs_spec()[c].run_id_spec() == id);
                    }
                }
                return Some(k);
            }
            k = k + 1;
        }
        None
    }

    /// The state of run `id`, if it is part of the tree.
    pub fn run_state(&self, id: u128) -> (r: Option<&RunState>)
        requires
            self.wf(),
        ensures
            match sub_pos(self.runs_spec(), id) {
                Some(k) => r == Some(&self.runs_spec()[k]),
                None => r is None,
            },
    {
        match self.find_run(id) {
            Some(k) => Some(&self.runs[k]),
            None => None,
        }
    }

    /// The state of the root run's items.
    pub fn state(&self) -> (r: &crate::items_state::ItemsState)
        requires
            self.wf(),
        ensures
            *r == self.root_spec().items(),
    {
        let k = self.find_run(self.root_run_id).unwrap();
        self.runs[k].items_state()
    }

    /// Complete task `task` of run `run_id` with `result`. The run takes the
    /// completion as replay of its `TaskCompleted` record would; the tasks it
    /// made ready are returned, also grouped by item, with the step's status.
    /// A sub-flow run that this completes is dropped from the tree, with its
    /// final status and item outputs. An unknown run is an error.
    pub fn complete_task(&mut self, run_id: u128, task: Task, result: FlowResult) -> (r: Result<Completion, ExecutionError>)
        requires
            old(self).wf(),
            old(self).task_fits(run_id, task),
        ensures
            final(self).wf(),
            final(self).root_run_id_spec() == old(self).root_run_id_spec(),
            final(self).max_in_flight_spec() == old(self).max_in_flight_spec(),
            final(self).recovered_subflows_spec() == old(self).recovered_subflows_spec(),
            final(self).needing_spec() == old(self).needing_spec(),
            final(self).recovered_ids_spec() == old(self).recovered_ids_spec(),
            final(self).checkpointer_spec() == old(self).checkpointer_spec(),
            final(self).retries_spec() == old(self).retries_spec(),
            match sub_pos(old(self).runs_spec(), run_id) {
                None => r == Err::<Completion, ExecutionError>(ExecutionError::StateError) && final(self).runs_spec()
                    == old(self).runs_spec(),
                Some(k) => r matches Ok(c) && {
                    let st0 = old(self).runs_spec()[k];
                    let st1 = match c.finished {
                        Some(f) => f.2,
                        None => final(self).runs_spec()[k],
                    };
                    let event = JournalEvent::TaskCompleted {
                        run_id,
                        item_index: task.item_index,
                        step_index: task.step_index,
                        result,
                    };
                    &&& st1.wf()
                    &&& applied(st0, st1, event)
                    &&& c.new_tasks@ == tasks_for(
                        task.item_index,
                        ready_after_completion(st0.items().items_spec()[task.item_index as int], task.step_index, result),
                    )
                    &&& c.unblocked@.map_values(|g: (u32, Vec<usize>)| (g.0, g.1@)) == item_groups(c.new_tasks@)
                    &&& c.step_status == (if result is Failed { StepStatus::Failed } else { StepStatus::Completed })
                    &&& (c.finished is Some) == (run_id != old(self).root_run_id_spec() && count_incomplete(
                        st1.items().items_spec(),
                    ) == 0)
                    &&& c.finished matches Some(f) ==> {
                        &&& f.1@ == item_results(st1)
                        &&& f.0 == results_status(f.1@)
                        &&& final(self).runs_spec() == old(self).runs_spec().remove(k)
                    }
                    &&& c.finished is None ==> final(self).runs_spec() == old(self).runs_spec().update(k, st1)
                },
            },
    {
        let k = match self.find_run(run_id) {
            None => {
                return Err(ExecutionError::StateError);
            },
            Some(k) => k,
        };
        let ghost runs0 = self.runs@;
        let mut st = self.runs.remove(k);
        proof {
            assert(st == runs0[k as int]);
        }
        let new_tasks = st.complete_task(task, result.clone());
        let unblocked = group_unblocked(&new_tasks);
        let step_status = step_status_for(&result);
        if run_id != self.root_run_id && st.is_complete() {
            let (status, outs) = run_outputs(&st);
            proof {
                lemma_sub_pos_remove(runs0, k as int, self.root_run_id);
                assert(self.runs@ == runs0.remove(k as int));
                assert forall|j: int| 0 <= j < self.runs@.len() implies #[trigger] self.runs@[j].wf() by {
                    let jj = if j < k { j } else { j + 1 };
                    assert(self.runs@[j] == runs0[jj]);
                }
            }
            Ok(Completion { new_tasks, unblocked, step_status, finished: Some((status, outs, st)) })
        } else {
            self.runs.insert(k, st);
            proof {
                assert(self.runs@ =~= runs0.update(k as int, st));
                lemma_sub_pos_update(runs0, k as int, st, self.root_run_id);
                assert forall|j: int| 0 <= j < self.runs@.len() implies #[trigger] self.runs@[j].wf() by {
                    if j != k {
                        assert(self.runs@[j] == runs0[j]);
                    }
                }
            }
            Ok(Completion { new_tasks, unblocked, step_status, finished: None })
        }
    }

    /// Decide whether failed task `task` of run `run_id`, whose failure is of
    /// `kind`, is retried, under the transport budget `transport_max` and the
    /// step's own retry budget. A retry counts against its budget and adds
    /// an attempt of the task.
    pub fn maybe_retry(&mut self, run_id: u128, task: Task, kind: FailureKind, transport_max: u32) -> (r: RetryOutcome)
        requires
            old(self).wf(),
            sub_pos(old(self).runs_spec(), run_id) is Some,
            old(self).task_fits(run_id, task),
        ensures
            final(self).wf(),
            final(self).root_run_id_spec() == old(self).root_run_id_spec(),
            final(self).max_in_flight_spec() == old(self).max_in_flight_spec(),
            final(self).recovered_subflows_spec() == old(self).recovered_subflows_spec(),
            final(self).needing_spec() == old(self).needing_spec(),
            final(self).recovered_ids_spec() == old(self).recovered_ids_spec(),
            final(self).checkpointer_spec() == old(self).checkpointer_spec(),
            ({
                let k = sub_pos(old(self).runs_spec(), run_id)->Some_0;
                let st0 = old(self).runs_spec()[k];
                let key = (run_id, task.item_index, task.step_index);
                let cmax = st0.flow_spec().steps@[task.step_index as int].on_error.max_retries_spec();
                let step = retry_step(kind, retry_state_of(old(self).retries_spec(), key), transport_max, cmax);
                &&& r.decision == step.0
                &&& match step.0 {
                    RetryDecision::Retry { .. } => {
                        let st1 = final(self).runs_spec()[k];
                        let v = st0.items().items_spec()[task.item_index as int]@;
                        let count = v.attempts[task.step_index as int];
                        let n = if count < u32::MAX { (count + 1) as u32 } else { count };
                        &&& final(self).retries_spec() == crate::replay::assoc_insert(old(self).retries_spec(), key, step.1)
                        &&& r.attempt == Some(n)
                        &&& final(self).runs_spec() == old(self).runs_spec().update(k, st1)
                        &&& st1.run_id_spec() == st0.run_id_spec()
                        &&& st1.flow_spec() == st0.flow_spec()
                        &&& st1.items().items_spec() == st0.items().items_spec().update(
                            task.item_index as int,
                            st1.items().items_spec()[task.item_index as int],
                        )
                        &&& st1.items().items_spec()[task.item_index as int]@ == (ItemView {
                            attempts: v.attempts.update(task.step_index as int, n),
                            ..v
                        })
                    },
                    RetryDecision::Complete { .. } => {
                        &&& r.attempt is None
                        &&& final(self).retries_spec() == old(self).retries_spec()
                        &&& final(self).runs_spec() == old(self).runs_spec()
                    },
                }
            }),
    {
        let k = self.find_run(run_id).unwrap();
        proof {
            self.runs@[k as int].lemma_wf();
        }
        let cmax = self.runs[k].flow().steps[task.step_index].on_error.max_retries();
        let key = (run_id, task.item_index, task.step_index);
        let mut rs = find_retry_state(&self.retries, key);
        let decision = decide_retry(kind, &mut rs, transport_max, cmax);
        match decision {
            RetryDecision::Retry { .. } => {
                self.retries = set_retry_state(&self.retries, key, rs);
                let ghost runs0 = self.runs@;
                let mut st = self.runs.remove(k);
                proof {
                    assert(st == runs0[k as int]);
                }
                let n = st.record_attempt(task);
                self.runs.insert(k, st);
                proof {
                    assert(self.runs@ =~= runs0.update(k as int, st));
                    lemma_sub_pos_update(runs0, k as int, st, self.root_run_id);
                    lemma_sub_pos_update(runs0, k as int, st, run_id);
                    assert forall|j: int| 0 <= j < self.runs@.len() implies #[trigger] self.runs@[j].wf() by {
                        if j != k {
                            assert(self.runs@[j] == runs0[j]);
                        }
                    }
                }
                RetryOutcome { decision, attempt: Some(n) }
            },
            RetryDecision::Complete { .. } => RetryOutcome { decision, attempt: None },
        }
    }

    /// Start `tasks`, each of its run: count an attempt of each and return
    /// the `TasksStarted` record's runs, the attempts grouped by run.
    pub fn start_tasks(&mut self, tasks: &Vec<(u128, Task)>) -> (r: Vec<RunTaskAttempts>)
        requires
            old(self).wf(),
            forall|k: int|
                0 <= k < tasks@.len() ==> sub_pos(old(self).runs_spec(), (#[trigger] tasks@[k]).0) is Some
                    && old(self).task_fits(tasks@[k].0, tasks@[k].1),
        ensures
            final(self).wf(),
            final(self).root_run_id_spec() == old(self).root_run_id_spec(),
            final(self).max_in_flight_spec() == old(self).max_in_flight_spec(),
            final(self).recovered_subflows_spec() == old(self).recovered_subflows_spec(),
            final(self).needing_spec() == old(self).needing_spec(),
            final(self).recovered_ids_spec() == old(self).recovered_ids_spec(),
            final(self).checkpointer_spec() == old(self).checkpointer_spec(),
            final(self).retries_spec() == old(self).retries_spec(),
            final(self).runs_spec().len() == old(self).runs_spec().len(),
            forall|k: int|
                0 <= k < old(self).runs_spec().len() ==> same_but_attempts(
                    old(self).runs_spec()[k],
                    #[trigger] final(self).runs_spec()[k],
                ),
            forall|k: int|
                0 <= k < old(self).runs_spec().len() ==> applied(
                    old(self).runs_spec()[k],
                    #[trigger] final(self).runs_spec()[k],
                    (JournalEvent::TasksStarted { runs: r }),
                ),
            exists|e: Seq<(u128, Task, u32)>|
                {
                    &&& e.len() == tasks@.len()
                    &&& forall|k: int| 0 <= k < e.len() ==> (#[trigger] e[k]).0 == tasks@[k].0 && e[k].1 == tasks@[k].1
                    &&& attempts_view(r@) == attempt_groups(e)
                },
    {
        let ghost runs0 = self.runs@;
        proof {
            assert forall|q: int| 0 <= q < runs0.len() implies #[trigger] runs0[q].items().items_spec().len() <= u32::MAX by {
                runs0[q].lemma_wf();
            }
        }
        let mut entries: Vec<(u128, Task, u32)> = Vec::new();
        let mut i: usize = 0;
        while i < tasks.len()
            invariant
                self.wf(),
                self.root_run_id_spec() == old(self).root_run_id_spec(),
                self.max_in_flight_spec() == old(self).max_in_flight_spec(),
                self.recovered_subflows_spec() == old(self).recovered_subflows_spec(),
                self.needing_spec() == old(self).needing_spec(),
                self.recovered_ids_spec() == old(self).recovered_ids_spec(),
                self.checkpointer_spec() == old(self).checkpointer_spec(),
                self.retries_spec() == old(self).retries_spec(),
                runs0 == old(self).runs_spec(),
                self.runs_spec().len() == runs0.len(),
                forall|k: int| 0 <= k < runs0.len() ==> same_but_attempts(runs0[k], #[trigger] self.runs_spec()[k]),
                forall|id: u128| #[trigger] sub_pos(self.runs_spec(), id) == sub_pos(runs0, id),
                forall|k: int|
                    0 <= k < tasks@.len() ==> sub_pos(runs0, (#[trigger] tasks@[k]).0) is Some && old(self).task_fits(
                        tasks@[k].0,
                        tasks@[k].1,
                    ),
                i <= tasks@.len(),
                entries@.len() == i,
                forall|k: int| 0 <= k < i ==> (#[trigger] entries@[k]).0 == tasks@[k].0 && entries@[k].1 == tasks@[k].1,
                forall|q: int, t: int|
                    0 <= q < runs0.len() && 0 <= t < runs0[q].items().items_spec().len() ==> (#[trigger] self.runs_spec()[q].items().items_spec()[t])@.attempts
                        == set_triples(
                        runs0[q].items().items_spec()[t]@.attempts,
                        t as u32,
                        run_entries(entries@, runs0[q].run_id_spec()),
                    ),
                forall|q: int| 0 <= q < runs0.len() ==> #[trigger] runs0[q].items().items_spec().len() <= u32::MAX,
            decreases tasks@.len() - i,
        {
            let (run_id, task) = tasks[i];
            let k = self.find_run(run_id).unwrap();
            let ghost runs1 = self.runs@;
            proof {
                assert(tasks@[i as int].0 == run_id);
                assert(same_but_attempts(runs0[k as int], runs1[k as int]));
            }
            let mut st = self.runs.remove(k);
            proof {
                assert(st == runs1[k as int]);
            }
            let n = st.record_attempt(task);
            self.runs.insert(k, st);
            let ghost e0 = entries@;
            entries.push((run_id, task, n));
            proof {
                assert(entries@.drop_last() =~= e0);
                let x = (task.item_index, task.step_index, n);
                assert forall|q: int, t: int|
                    0 <= q < runs0.len() && 0 <= t < runs0[q].items().items_spec().len() implies (#[trigger] self.runs_spec()[q].items().items_spec()[t])@.attempts
                        == set_triples(
                        runs0[q].items().items_spec()[t]@.attempts,
                        t as u32,
                        run_entries(entries@, runs0[q].run_id_spec()),
                    ) by {
                    let a0 = runs0[q].items().items_spec()[t]@.attempts;
                    let rid = runs0[q].run_id_spec();
                    let prev = run_entries(e0, rid);
                    if q == k {
                        assert(rid == run_id);
                        assert(run_entries(entries@, rid) == prev.push(x));
                        assert(prev.push(x).drop_last() =~= prev);
                        assert(runs1[q].items().items_spec()[t]@.attempts == set_triples(a0, t as u32, prev));
                        if t != task.item_index as int {
                            assert(st.items().items_spec()[t] == runs1[q].items().items_spec()[t]);
                        }
                    } else {
                        assert(same_but_attempts(runs0[q], runs1[q]));
                        assert(same_but_attempts(runs0[k as int], runs1[k as int]));
                        if q < k {
                            assert(runs1[q].run_id_spec() != runs1[k as int].run_id_spec());
                        } else {
                            assert(runs1[k as int].run_id_spec() != runs1[q].run_id_spec());
                        }
                        assert(rid != run_id);
                        assert(run_entries(entries@, rid) == prev);
                        assert(self.runs@[q] == runs1[q]);
                    }
                }
                assert(self.runs@ =~= runs1.update(k as int, st));
                assert forall|id: u128| #[trigger] sub_pos(self.runs_spec(), id) == sub_pos(runs0, id) by {
                    lemma_sub_pos_update(runs1, k as int, st, id);
                }
                lemma_sub_pos_update(runs1, k as int, st, self.root_run_id);
                assert forall|j: int| 0 <= j < self.runs@.len() implies #[trigger] self.runs@[j].wf() by {
                    if j != k {
                        assert(self.runs@[j] == runs1[j]);
                    }
                }
                assert forall|j: int| 0 <= j < runs0.len() implies same_but_attempts(runs0[j], #[trigger] self.runs_spec()[j]) by {
                    if j != k {
                        assert(self.runs@[j] == runs1[j]);
                    } else {
                        let items0 = runs0[j].items().items_spec();
                        let items1 = runs1[j].items().items_spec();
                        let items2 = st.items().items_spec();
                        assert forall|t: int| 0 <= t < items0.len() implies {
                            &&& (#[trigger] items2[t]).same_context(&items0[t])
                            &&& items2[t]@ == (ItemView { attempts: items2[t]@.attempts, ..items0[t]@ })
                        } by {
                            assert(items1[t].same_context(&items0[t]));
                            if t != task.item_index as int {
                                assert(items2[t] == items1[t]);
                            }
                        }
                    }
                }
            }
            i = i + 1;
        }
        let r = group_attempts(&entries);
        proof {
            assert(forall|k: int| 0 <= k < entries@.len() ==> (#[trigger] entries@[k]).0 == tasks@[k].0 && entries@[k].1 == tasks@[k].1);
            assert forall|q: int| 0 <= q < runs0.len() implies applied(
                runs0[q],
                #[trigger] self.runs_spec()[q],
                (JournalEvent::TasksStarted { runs: r }),
            ) by {
                let items0 = runs0[q].items().items_spec();
                let items1 = self.runs_spec()[q].items().items_spec();
                assert(same_but_attempts(runs0[q], self.runs_spec()[q]));
                assert forall|t: int| 0 <= t < items0.len() implies {
                    &&& (#[trigger] items1[t]).same_context(&items0[t])
                    &&& items1[t]@ == (ItemView {
                        attempts: attempts_started(items0[t]@.attempts, runs0[q].run_id_spec(), t as u32, r@),
                        ..items0[t]@
                    })
                } by {
                    lemma_attempts_started_view(items0[t]@.attempts, runs0[q].run_id_spec(), t as u32, r@);
                    lemma_groups_started(items0[t]@.attempts, runs0[q].run_id_spec(), t as u32, entries@);
                }
            }
        }
        r
    }

    /// Handle a sub-flow request. A recovered sub-flow for the same parent
    /// step and key is taken and its run returned. Otherwise a new sub-flow
    /// run is created and initialized; its records are `SubRunCreated`, its
    /// `StepsNeeded` records and, when it has nothing to run and is complete
    /// at once, `RunCompleted`; then it is not kept in the tree. Its metadata
    /// record names the tree's root and the submitting run as its parent.
    /// Run IDs are generated fresh for each submission, so the request's run
    /// is not yet in the tree.
    pub fn handle_submit(&mut self, req: SubflowRequest) -> (r: SubmitResult)
        requires
            old(self).wf(),
            sub_pos(old(self).runs_spec(), req.run_id) is None,
            req.flow.steps@.len() < usize::MAX,
            req.inputs@.len() <= u32::MAX,
        ensures
            final(self).wf(),
            final(self).root_run_id_spec() == old(self).root_run_id_spec(),
            final(self).max_in_flight_spec() == old(self).max_in_flight_spec(),
            final(self).needing_spec() == old(self).needing_spec(),
            final(self).recovered_ids_spec() == old(self).recovered_ids_spec(),
            final(self).checkpointer_spec() == old(self).checkpointer_spec(),
            final(self).retries_spec() == old(self).retries_spec(),
            ({
                let key = (req.parent_run_id, req.item_index, req.step_index, req.subflow_key);
                match assoc_get(old(self).recovered_subflows_spec(), key) {
                    Some(id) => {
                        &&& r == SubmitResult::Existing(id)
                        &&& final(self).recovered_subflows_spec() == assoc_remove(old(self).recovered_subflows_spec(), key)
                        &&& final(self).runs_spec() == old(self).runs_spec()
                    },
                    None => {
                        &&& final(self).recovered_subflows_spec() == old(self).recovered_subflows_spec()
                        &&& r matches SubmitResult::Created { run_id, initial_tasks, events, record, outcome, item_results: outs }
                            && exists|st0: RunState, st: RunState|
                            #![trigger run_initialized(st0, st)]
                            {
                                let items = st.items().items_spec();
                                let m = needed_records(st, items.len() as int).len() as int;
                                let finished = outcome == SubmitOutcome::FinishEmpty || outcome
                                    == SubmitOutcome::FinishWithoutSteps;
                                &&& fresh_subflow(
                                    st0,
                                    req.run_id,
                                    req.flow_id@,
                                    old(self).root_run_id_spec(),
                                    req.parent_run_id,
                                    *req.flow,
                                    req.inputs@,
                                    req.variables@,
                                )
                                &&& run_initialized(st0, st)
                                &&& run_id == req.run_id
                                &&& record.run_id == req.run_id
                                &&& record.flow_id@ == req.flow_id@
                                &&& record.inputs@ == req.inputs@
                                &&& record.root_run_id == old(self).root_run_id_spec()
                                &&& record.parent_run_id == req.parent_run_id
                                &&& record.workflow_name == req.flow.name
                                &&& initial_tasks@ == ready_tasks_upto(items, items.len())
                                &&& outcome == crate::execution::outcome_of(
                                    initial_tasks@.len() > 0,
                                    count_incomplete(items) == 0,
                                    items.len() as u32,
                                )
                                &&& events@.len() == 1 + m + (if finished { 1int } else { 0int })
                                &&& sub_run_created_of(events@[0]) == Some(
                                    (
                                        req.run_id,
                                        req.flow_id@,
                                        req.inputs@,
                                        req.variables@,
                                        req.parent_run_id,
                                        req.item_index,
                                        req.step_index,
                                        req.subflow_key,
                                    ),
                                )
                                &&& forall|j: int|
                                    0 <= j < m ==> steps_needed_of(#[trigger] events@[1 + j], req.run_id) == Some(
                                        needed_records(st, items.len() as int)[j],
                                    )
                                &&& finished ==> events@[1 + m] == (JournalEvent::RunCompleted {
                                    run_id: req.run_id,
                                    status: ExecutionStatus::Completed,
                                })
                                &&& outs@ == (if outcome == SubmitOutcome::FinishWithoutSteps {
                                    item_results(st)
                                } else {
                                    Seq::empty()
                                })
                                &&& final(self).runs_spec() == (if finished {
                                    old(self).runs_spec()
                                } else {
                                    old(self).runs_spec().push(st)
                                })
                            }
                    },
                }
            }),
    {
        let key = (req.parent_run_id, req.item_index, req.step_index, req.subflow_key);
        match take_recovered_subflow(&mut self.recovered_subflows, key) {
            Some(id) => {
                return SubmitResult::Existing(id);
            },
            None => {},
        }
        proof {
            assert(self.recovered_subflows@ =~= old(self).recovered_subflows@) by {
                lemma_no_entry_remove(old(self).recovered_subflows@, key);
            }
        }
        let SubflowRequest {
            run_id,
            parent_run_id,
            item_index,
            step_index,
            subflow_key,
            flow_id,
            flow,
            inputs,
            variables,
        } = req;
        let created = JournalEvent::SubRunCreated {
            run_id,
            flow_id: flow_id.clone(),
            inputs: crate::json::clone_values(&inputs),
            variables: crate::json::clone_named_values(&variables),
            parent_run_id,
            item_index,
            step_index,
            subflow_key,
        };
        let workflow_name = match &flow.name {
            Some(name) => Some(name.clone()),
            None => None,
        };
        let record = SubRunRecord {
            run_id,
            flow_id: flow_id.clone(),
            inputs: crate::json::clone_values(&inputs),
            root_run_id: self.root_run_id,
            parent_run_id,
            workflow_name,
        };
        let st0 = RunState::new_subflow(run_id, flow_id, self.root_run_id, parent_run_id, flow, inputs, variables);
        let ghost g0 = st0;
        let mut st = st0;
        let initial_tasks = st.initialize_all();
        let ghost g1 = st;
        let complete = st.is_complete();
        let item_count = st.item_count();
        let mut events: Vec<JournalEvent> = Vec::new();
        events.push(created);
        let mut needed = steps_needed_events(&st);
        let ghost m = needed@.len();
        let ghost nd = needed@;
        events.append(&mut needed);
        let outcome = submit_outcome(initial_tasks.len() > 0, complete, item_count);
        let mut outs: Vec<Result<FlowResult, ExecutionError>> = Vec::new();
        match outcome {
            SubmitOutcome::FinishEmpty => {
                events.push(JournalEvent::RunCompleted { run_id, status: ExecutionStatus::Completed });
            },
            SubmitOutcome::FinishWithoutSteps => {
                let (_, results) = run_outputs(&st);
                outs = results;
                events.push(JournalEvent::RunCompleted { run_id, status: ExecutionStatus::Completed });
            },
            _ => {
                let ghost runs0 = self.runs@;
                self.runs.push(st);
                proof {
                    assert forall|a: int, b: int| 0 <= a < b < self.runs@.len() implies self.runs@[a].run_id_spec()
                        != self.runs@[b].run_id_spec() by {
                        if b == runs0.len() {
                            assert(runs0[a].run_id_spec() != run_id);
                        }
                    }
                    let p = sub_pos(runs0, self.root_run_id)->Some_0;
                    assert(self.runs@[p] == runs0[p]);
                    assert(self.runs@[p].run_id_spec() == self.root_run_id);
                }
            },
        }
        proof {
            assert(run_initialized(g0, g1));
            assert(fresh_subflow(g0, run_id, flow_id@, self.root_run_id, parent_run_id, *flow, inputs@, variables@));
        }
        SubmitResult::Created { run_id, initial_tasks, events, record, outcome, item_results: outs }
    }

    /// Whether run `id` owes its `StepsNeeded` records when execution
    /// starts: every run but a recovered sub-flow whose records the journal
    /// holds.
    pub open spec fn owes_records(&self) -> spec_fn(u128) -> bool {
        |id: u128| !self.recovered_ids_spec().contains(id) || self.needing_spec().contains(id)
    }

    /// Initialize every run of the tree when execution starts; returns the
    /// ready tasks of all runs, each with its run, and the `StepsNeeded`
    /// records owed.
    pub fn initialize_runs(&mut self) -> (r: (Vec<(u128, Task)>, Vec<JournalEvent>))
        requires
            old(self).wf(),
        ensures
            final(self).wf(),
            final(self).root_run_id_spec() == old(self).root_run_id_spec(),
            final(self).max_in_flight_spec() == old(self).max_in_flight_spec(),
            final(self).recovered_subflows_spec() == old(self).recovered_subflows_spec(),
            final(self).needing_spec() == old(self).needing_spec(),
            final(self).recovered_ids_spec() == old(self).recovered_ids_spec(),
            final(self).checkpointer_spec() == old(self).checkpointer_spec(),
            final(self).retries_spec() == old(self).retries_spec(),
            final(self).runs_spec().len() == old(self).runs_spec().len(),
            forall|k: int|
                0 <= k < old(self).runs_spec().len() ==> run_initialized(
                    old(self).runs_spec()[k],
                    #[trigger] final(self).runs_spec()[k],
                ),
            r.0@ == runs_ready_tasks(final(self).runs_spec(), final(self).runs_spec().len() as int),
            r.1@.len() == runs_needed_records(
                final(self).runs_spec(),
                old(self).owes_records(),
                final(self).runs_spec().len() as int,
            ).len(),
            forall|j: int|
                0 <= j < r.1@.len() ==> needed_event_of(#[trigger] r.1@[j]) == Some(
                    runs_needed_records(final(self).runs_spec(), old(self).owes_records(), final(self).runs_spec().len() as int)[j],
                ),
    {
        let ghost runs0 = self.runs@;
        let ghost owes = self.owes_records();
        let n = self.runs.len();
        let mut tasks: Vec<(u128, Task)> = Vec::new();
        let mut events: Vec<JournalEvent> = Vec::new();
        let mut k: usize = 0;
        while k < n
            invariant
                self.wf(),
                self.root_run_id_spec() == old(self).root_run_id_spec(),
                self.max_in_flight_spec() == old(self).max_in_flight_spec(),
                self.recovered_subflows_spec() == old(self).recovered_subflows_spec(),
                self.needing_spec() == old(self).needing_spec(),
                self.recovered_ids_spec() == old(self).recovered_ids_spec(),
                self.checkpointer_spec() == old(self).checkpointer_spec(),
                self.retries_spec() == old(self).retries_spec(),
                owes == old(self).owes_records(),
                runs0 == old(self).runs_spec(),
                n == runs0.len(),
                self.runs_spec().len() == n,
                k <= n,
                forall|j: int| 0 <= j < k ==> run_initialized(runs0[j], #[trigger] self.runs_spec()[j]),
                forall|j: int| k <= j < n ==> #[trigger] self.runs_spec()[j] == runs0[j],
                tasks@ == runs_ready_tasks(self.runs_spec(), k as int),
                events@.len() == runs_needed_records(self.runs_spec(), owes, k as int).len(),
                forall|j: int|
                    0 <= j < events@.len() ==> needed_event_of(#[trigger] events@[j]) == Some(
                        runs_needed_records(self.runs_spec(), owes, k as int)[j],
                    ),
            decreases n - k,
        {
            let ghost runs1 = self.runs@;
            let mut st = self.runs.remove(k);
            proof {
                assert(st == runs1[k as int]);
            }
            let ready = st.initialize_all();
            let id = st.run_id();
            let owed = needs_steps_needed(id, &self.recovered_run_ids, &self.runs_needing_step_updates);
            let mut needed = if owed {
                steps_needed_events(&st)
            } else {
                Vec::new()
            };
            let ghost stk = st;
            self.runs.insert(k, st);
            proof {
                assert(self.runs@ =~= runs1.update(k as int, stk));
                lemma_sub_pos_update(runs1, k as int, stk, self.root_run_id);
                assert forall|j: int| 0 <= j < self.runs@.len() implies #[trigger] self.runs@[j].wf() by {
                    if j != k {
                        assert(self.runs@[j] == runs1[j]);
                    }
                }
                assert(run_initialized(runs0[k as int], stk));
                lemma_ready_tasks_prefix(runs1, self.runs@, k as int);
                lemma_needed_records_prefix(runs1, self.runs@, owes, k as int);
                assert(owed == owes(id));
            }
            let ghost t0 = tasks@;
            let mut i: usize = 0;
            while i < ready.len()
                invariant
                    i <= ready@.len(),
                    tasks@ == t0 + ready@.take(i as int).map_values(|t: Task| (id, t)),
                decreases ready@.len() - i,
            {
                tasks.push((id, ready[i]));
                proof {
                    assert(ready@.take(i + 1).map_values(|t: Task| (id, t)) =~= ready@.take(i as int).map_values(
                        |t: Task| (id, t),
                    ).push((id, ready@[i as int])));
                }
                i = i + 1;
            }
            proof {
                assert(ready@.take(ready@.len() as int) =~= ready@);
            }
            let ghost e0 = events@;
            let ghost nd = needed@;
            events.append(&mut needed);
            proof {
                let recs = runs_needed_records(self.runs@, owes, k + 1);
                let prev = runs_needed_records(self.runs@, owes, k as int);
                if owes(id) {
                    let mine = needed_records(stk, stk.items().items_spec().len() as int);
                    assert(recs == prev + mine.map_values(|e: (u32, Seq<usize>)| (id, e.0, e.1)));
                    assert forall|j: int| 0 <= j < events@.len() implies needed_event_of(#[trigger] events@[j]) == Some(recs[j]) by {
                        if j < e0.len() {
                            assert(events@[j] == e0[j]);
                        } else {
                            assert(events@[j] == nd[j - e0.len()]);
                            assert(steps_needed_of(nd[j - e0.len()], id) == Some(mine[j - e0.len()]));
                        }
                    }
                } else {
                    assert(nd.len() == 0);
                    assert(events@ =~= e0);
                }
            }
            k = k + 1;
        }
        (tasks, events)
    }

    /// The root run's outcome once execution has stopped: a deadlock if it
    /// is not complete; else its final status and item outputs.
    pub fn finish(&self) -> (r: Result<(ExecutionStatus, Vec<Result<FlowResult, ExecutionError>>), ExecutionError>)
        requires
            self.wf(),
        ensures
            count_incomplete(self.root_spec().items().items_spec()) != 0 ==> r is Err && r->Err_0 == ExecutionError::Deadlock,
            count_incomplete(self.root_spec().items().items_spec()) == 0 ==> (r matches Ok(o) && o.1@ == item_results(
                self.root_spec(),
            ) && o.0 == results_status(o.1@)),
    {
        let k = self.find_run(self.root_run_id).unwrap();
        if !self.runs[k].is_complete() {
            return Err(ExecutionError::Deadlock);
        }
        Ok(run_outputs(&self.runs[k]))
    }

    /// Record that a journal entry was written at `sequence`.
    pub fn record_entry(&mut self, sequence: u64)
        requires
            old(self).checkpointer_spec().entries_spec() < usize::MAX,
        ensures
            final(self).wf() == old(self).wf(),
            final(self).runs_spec() == old(self).runs_spec(),
            final(self).root_run_id_spec() == old(self).root_run_id_spec(),
            final(self).recovered_subflows_spec() == old(self).recovered_subflows_spec(),
            final(self).checkpointer_spec().root_run_id_spec() == old(self).checkpointer_spec().root_run_id_spec(),
            final(self).checkpointer_spec().interval_spec() == old(self).checkpointer_spec().interval_spec(),
            final(self).checkpointer_spec().entries_spec() == old(self).checkpointer_spec().entries_spec() + 1,
            final(self).checkpointer_spec().latest_sequence_spec() == Some(sequence),
    {
        self.checkpointer.record_entry(sequence);
    }

    /// The checkpoint of the tree to write now, if one is due.
    pub fn maybe_checkpoint(&self) -> (r: Result<Option<CheckpointData>, ExecutionError>)
        requires
            self.wf(),
        ensures
            !self.checkpointer_spec().due() ==> r == Ok::<Option<CheckpointData>, ExecutionError>(None),
            self.checkpointer_spec().due() && self.checkpointer_spec().latest_sequence_spec() is None ==> r
                == Err::<Option<CheckpointData>, ExecutionError>(ExecutionError::CheckpointError),
            r matches Ok(Some(d)) ==> {
                &&& self.checkpointer_spec().latest_sequence_spec() == Some(d.sequence)
                &&& d.version == CHECKPOINT_VERSION
                &&& runs_sorted(d.runs@)
                &&& forall|i: int| 0 <= i < d.runs@.len() ==> #[trigger] captured_from(d.runs@[i], self.runs_spec())
                &&& forall|j: int|
                    0 <= j < self.runs_spec().len() ==> #[trigger] has_run(d.runs@, self.runs_spec()[j].run_id_spec())
                &&& d.subflow_map@ == self.recovered_subflows_spec().map_values(
                    |e: ((u128, u32, usize, u128), u128)| mapping_of(e),
                )
            },
            self.checkpointer_spec().due() && self.checkpointer_spec().latest_sequence_spec() is Some ==> r is Ok
                && r->Ok_0 is Some,
    {
        self.checkpointer.maybe_checkpoint(&self.runs, &self.recovered_subflows)
    }

    /// Record that a checkpoint was written.
    pub fn checkpoint_written(&mut self)
        ensures
            final(self).wf() == old(self).wf(),
            final(self).runs_spec() == old(self).runs_spec(),
            final(self).root_run_id_spec() == old(self).root_run_id_spec(),
            final(self).recovered_subflows_spec() == old(self).recovered_subflows_spec(),
            final(self).checkpointer_spec().entries_spec() == 0,
            final(self).checkpointer_spec().interval_spec() == old(self).checkpointer_spec().interval_spec(),
            final(self).checkpointer_spec().latest_sequence_spec() == old(self).checkpointer_spec().latest_sequence_spec(),
    {
        self.checkpointer.checkpoint_written();
    }

    /// Whether the tree's checkpoints are deleted once the root run
    /// completes.
    pub fn cleanup_enabled(&self) -> (r: bool)
        ensures
            r == (self.checkpointer_spec().interval_spec() != 0),
    {
        self.checkpointer.cleanup_enabled()
    }

    /// The maximum number of tasks in flight.
    pub fn max_in_flight(&self) -> (r: usize)
        ensures
            r == self.max_in_flight_spec(),
    {
        self.max_in_flight
    }
}

/// The runs with `st` added: a run with the same ID is replaced.
pub open spec fn runs_with(runs: Seq<RunState>, st: RunState) -> Seq<RunState> {
    match sub_pos(runs, st.run_id_spec()) {
        Some(k) => runs.update(k, st),
        None => runs.push(st),
    }
}

/// The runs of `base` with each of `extra` added in turn.
pub open spec fn runs_merged(base: Seq<RunState>, extra: Seq<RunState>) -> Seq<RunState>
    decreases extra.len(),
{
    if extra.len() == 0 {
        base
    } else {
        runs_with(runs_merged(base, extra.drop_last()), extra.last())
    }
}

/// Configuration of the executor of a tree of runs.
pub struct FlowExecutorBuilder {
    run_state: RunState,
    max_concurrency: usize,
    skip_validation: bool,
    additional_runs: Vec<RunState>,
    recovered_subflows: Vec<(SubflowKey, u128)>,
    runs_needing_step_updates: Vec<u128>,
}

impl FlowExecutorBuilder {
    pub closed spec fn run_state_spec(&self) -> RunState {
        self.run_state
    }

    pub closed spec fn max_concurrency_spec(&self) -> usize {
        self.max_concurrency
    }

    pub closed spec fn skip_validation_spec(&self) -> bool {
        self.skip_validation
    }

    pub closed spec fn additional_runs_spec(&self) -> Seq<RunState> {
        self.additional_runs@
    }

    pub closed spec fn recovered_subflows_spec(&self) -> Seq<(SubflowKey, u128)> {
        self.recovered_subflows@
    }

    pub closed spec fn needing_spec(&self) -> Seq<u128> {
        self.runs_needing_step_updates@
    }

    /// A builder for the tree rooted at `run_state`: concurrency 10, the
    /// flow validated, no recovered sub-flows.
    pub fn new(run_state: RunState) -> (r: Self)
        ensures
            r.run_state_spec() == run_state,
            r.max_concurrency_spec() == 10,
            !r.skip_validation_spec(),
            r.additional_runs_spec() == Seq::<RunState>::empty(),
            r.recovered_subflows_spec() == Seq::<(SubflowKey, u128)>::empty(),
            r.needing_spec() == Seq::<u128>::empty(),
    {
        FlowExecutorBuilder {
            run_state,
            max_concurrency: 10,
            skip_validation: false,
            additional_runs: Vec::new(),
            recovered_subflows: Vec::new(),
            runs_needing_step_updates: Vec::new(),
        }
    }

    /// Skip validation of the flow (it was validated before).
    pub fn skip_validation(self) -> (r: Self)
        ensures
            r.skip_validation_spec(),
            r.run_state_spec() == self.run_state_spec(),
            r.max_concurrency_spec() == self.max_concurrency_spec(),
            r.additional_runs_spec() == self.additional_runs_spec(),
            r.recovered_subflows_spec() == self.recovered_subflows_spec(),
            r.needing_spec() == self.needing_spec(),
    {
        FlowExecutorBuilder { skip_validation: true, ..self }
    }

    /// Set the maximum concurrency.
    pub fn max_concurrency(self, max: usize) -> (r: Self)
        ensures
            r.max_concurrency_spec() == max,
            r.skip_validation_spec() == self.skip_validation_spec(),
            r.run_state_spec() == self.run_state_spec(),
            r.additional_runs_spec() == self.additional_runs_spec(),
            r.recovered_subflows_spec() == self.recovered_subflows_spec(),
            r.needing_spec() == self.needing_spec(),
    {
        FlowExecutorBuilder { max_concurrency: max, ..self }
    }

    /// Add recovered sub-flow runs, the deduplication map, and the sub-runs
    /// that still owe their `StepsNeeded` records.
    pub fn with_recovered_subflows(
        self,
        additional_runs: Vec<RunState>,
        recovered_subflows: Vec<(SubflowKey, u128)>,
        runs_needing_step_updates: Vec<u128>,
    ) -> (r: Self)
        ensures
            r.additional_runs_spec() == additional_runs@,
            r.recovered_subflows_spec() == recovered_subflows@,
            r.needing_spec() == runs_needing_step_updates@,
            r.max_concurrency_spec() == self.max_concurrency_spec(),
            r.skip_validation_spec() == self.skip_validation_spec(),
            r.run_state_spec() == self.run_state_spec(),
    {
        FlowExecutorBuilder { additional_runs, recovered_subflows, runs_needing_step_updates, ..self }
    }

    /// Whether the flow must be validated before the executor is built.
    pub fn validation_required(&self) -> (r: bool)
        ensures
            r == !self.skip_validation_spec(),
    {
        !self.skip_validation
    }

    /// Build the executor, checkpointing every `checkpoint_interval` journal
    /// entries (0 = never): the root run and the recovered runs, a later run
    /// replacing one with the same ID.
    pub fn build(self, checkpoint_interval: usize) -> (r: FlowExecutor)
        requires
            self.run_state_spec().wf(),
            forall|k: int| 0 <= k < self.additional_runs_spec().len() ==> #[trigger] self.additional_runs_spec()[k].wf(),
        ensures
            r.wf(),
            r.root_run_id_spec() == self.run_state_spec().run_id_spec(),
            r.runs_spec() == runs_merged(seq![self.run_state_spec()], self.additional_runs_spec()),
            r.max_in_flight_spec() == self.max_concurrency_spec(),
            r.recovered_subflows_spec() == self.recovered_subflows_spec(),
            r.needing_spec() == self.needing_spec().to_set(),
            r.recovered_ids_spec() == self.recovered_subflows_spec().map_values(|e: (SubflowKey, u128)| e.1).to_set(),
            r.checkpointer_spec().root_run_id_spec() == self.run_state_spec().run_id_spec(),
            r.checkpointer_spec().interval_spec() == checkpoint_interval,
            r.checkpointer_spec().entries_spec() == 0,
            r.checkpointer_spec().latest_sequence_spec() is None,
    {
        let FlowExecutorBuilder {
            run_state,
            max_concurrency,
            skip_validation: _,
            additional_runs,
            recovered_subflows,
            runs_needing_step_updates,
        } = self;
        let root_run_id = run_state.run_id();
        let ghost extra = additional_runs@;
        let n_extra = additional_runs.len();
        proof {
            assert(extra == self.additional_runs_spec());
            assert(extra.len() == n_extra);
        }
        let mut additional_runs = additional_runs;
        let mut rev: Vec<RunState> = Vec::new();
        while additional_runs.len() > 0
            invariant
                rev@.len() + additional_runs@.len() == extra.len(),
                extra.len() <= usize::MAX,
                forall|k: int| 0 <= k < extra.len() ==> #[trigger] extra[k].wf(),
                forall|j: int| 0 <= j < additional_runs@.len() ==> #[trigger] additional_runs@[j] == extra[j],
                forall|j: int| 0 <= j < rev@.len() ==> #[trigger] rev@[j] == extra[extra.len() - 1 - j],
            decreases additional_runs@.len(),
        {
            let st = additional_runs.pop().unwrap();
            rev.push(st);
        }
        let ghost base = seq![run_state];
        let mut runs: Vec<RunState> = Vec::new();
        runs.push(run_state);
        proof {
            assert(runs@ =~= base);
            assert(runs@[0].run_id_spec() == root_run_id);
        }
        let mut i: usize = 0;
        while rev.len() > 0
            invariant
                forall|k: int| 0 <= k < extra.len() ==> #[trigger] extra[k].wf(),
                extra.len() <= usize::MAX,
                rev@.len() + i == extra.len(),
                forall|j: int| 0 <= j < rev@.len() ==> #[trigger] rev@[j] == extra[extra.len() - 1 - j],
                runs@ == runs_merged(base, extra.take(i as int)),
                forall|k: int| 0 <= k < runs@.len() ==> #[trigger] runs@[k].wf(),
                ids_unique(runs@),
                sub_pos(runs@, root_run_id) is Some,
                base[0].run_id_spec() == root_run_id,
            decreases rev@.len(),
        {
            let st = rev.pop().unwrap();
            proof {
                assert(st == extra[i as int]);
                assert(extra.take(i + 1).drop_last() =~= extra.take(i as int));
            }
            let ghost before = runs@;
            let id = st.run_id();
            let mut k: usize = 0;
            let mut found = false;
            while k < runs.len()
                invariant
                    runs@ == before,
                    k <= runs@.len(),
                    ids_unique(runs@),
                    !found ==> forall|j: int| 0 <= j < k ==> #[trigger] runs@[j].run_id_spec() != id,
                    found ==> k < runs@.len() && runs@[k as int].run_id_spec() == id,
                ensures
                    runs@ == before,
                    !found ==> forall|j: int| 0 <= j < runs@.len() ==> #[trigger] runs@[j].run_id_spec() != id,
                    found ==> k < runs@.len() && runs@[k as int].run_id_spec() == id,
                decreases runs@.len() - k,
            {
                if runs[k].run_id() == id {
                    found = true;
                    break;
                }
                k = k + 1;
            }
            if found {
                proof {
                    let c = choose|j: int| 0 <= j < before.len() && #[trigger] before[j].run_id_spec() == id;
                    assert(before[k as int].run_id_spec() == id);
                    if c != k {
                        assert(before[c].run_id_spec() == id);
                    }
                    assert(sub_pos(before, id) == Some(k as int));
                }
                let _old = runs.remove(k);
                runs.insert(k, st);
                proof {
                    assert(runs@ =~= before.update(k as int, st));
                    lemma_sub_pos_update(before, k as int, st, root_run_id);
                    assert forall|j: int| 0 <= j < runs@.len() implies #[trigger] runs@[j].wf() by {
                        if j != k {
                            assert(runs@[j] == before[j]);
                        }
                    }
                }
            } else {
                runs.push(st);
                proof {
                    assert(sub_pos(before, id) is None);
                    assert forall|a: int, b: int| 0 <= a < b < runs@.len() implies runs@[a].run_id_spec()
                        != runs@[b].run_id_spec() by {
                        if b == before.len() {
                            assert(before[a].run_id_spec() != id);
                        }
                    }
                    let p = sub_pos(before, root_run_id)->Some_0;
                    assert(runs@[p] == before[p]);
                    assert(runs@[p].run_id_spec() == root_run_id);
                }
            }
            i = i + 1;
        }
        proof {
            assert(extra.take(extra.len() as int) =~= extra);
        }
        let checkpointer = Checkpointer::new(root_run_id, checkpoint_interval);
        FlowExecutor::new_from_builder(
            root_run_id,
            runs,
            max_concurrency,
            recovered_subflows,
            runs_needing_step_updates,
            checkpointer,
        )
    }
}

} // verus!
