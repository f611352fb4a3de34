//! Replay of journal events into the state of an execution tree: the root
//! run, its sub-flow runs, the sub-flow deduplication map, the sub-flows
//! still waiting for their `StepsNeeded` record, the in-flight task IDs, and
//! the metadata updates that replay owes.
//!
//! Each event is handled by [`Replay::apply_event`]; the caller reads the
//! journal, fetches sub-flow definitions and performs the returned
//! [`ReplayAction`]s against the metadata store.

use std::sync::Arc;

use crate::checkpoint::{CheckpointData, RunCheckpoint, SubflowMapping};
use crate::error::ExecutionError;
use crate::flow::{Flow, FlowResult};
use crate::journal::{ExecutionStatus, JournalEvent, RunTaskAttempts, StepStatus, TaskAttempt};
use crate::recovery::{vec_contains_u128, SubflowMetadata};
use crate::item_state::ItemState;
use crate::json::{clone_named_values, clone_values};
use crate::run_state::{all_below_exec, applied, checkpoint_fits, event_fits, restored_from, RunState};
use vstd::prelude::*;

verus! {

/// Key of the sub-flow deduplication map: parent run, item, step, and the
/// caller's deduplication key.
pub type SubflowKey = (u128, u32, usize, u128);

/// Key of an in-flight task: run, item, step.
pub type TaskKey = (u128, u32, usize);

/// An association list with `k` mapped to `v`: earlier entries for `k` go,
/// the new entry comes last.
pub open spec fn assoc_insert<K, V>(s: Seq<(K, V)>, k: K, v: V) -> Seq<(K, V)> {
    s.filter(key_differs(k)).push((k, v))
}

/// The entry's key is not `k`.
pub open spec fn key_differs<K, V>(k: K) -> spec_fn((K, V)) -> bool {
    |e: (K, V)| e.0 != k
}

/// An association list without entries for `k`.
pub open spec fn assoc_remove<K, V>(s: Seq<(K, V)>, k: K) -> Seq<(K, V)> {
    s.filter(key_differs(k))
}

/// Remove the entries for `k` from a sub-flow map.
pub(crate) fn subflow_map_remove(v: &Vec<(SubflowKey, u128)>, k: SubflowKey) -> (r: Vec<(SubflowKey, u128)>)
    ensures
        r@ == assoc_remove(v@, k),
{
    let ghost p = key_differs::<SubflowKey, u128>(k);
    let mut out: Vec<(SubflowKey, u128)> = Vec::new();
    let mut i: usize = 0;
    while i < v.len()
        invariant
            i <= v@.len(),
            p == key_differs::<SubflowKey, u128>(k),
            out@ == v@.take(i as int).filter(p),
        decreases v@.len() - i,
    {
        let e = v[i];
        proof {
            assert(v@.take(i + 1) =~= v@.take(i as int).push(e));
            v@.take(i as int).lemma_filter_push(e, p);
        }
        let same = e.0.0 == k.0 && e.0.1 == k.1 && e.0.2 == k.2 && e.0.3 == k.3;
        if !same {
            out.push(e);
        }
        i = i + 1;
    }
    proof {
        assert(v@.take(v@.len() as int) =~= v@);
    }
    out
}

/// Remove the entries for `k` from a task-ID map.
fn task_ids_remove(v: &Vec<(TaskKey, String)>, k: TaskKey) -> (r: Vec<(TaskKey, String)>)
    ensures
        r@ == assoc_remove(v@, k),
{
    let ghost p = key_differs::<TaskKey, String>(k);
    let mut out: Vec<(TaskKey, String)> = Vec::new();
    let mut i: usize = 0;
    while i < v.len()
        invariant
            i <= v@.len(),
            p == key_differs::<TaskKey, String>(k),
            out@ == v@.take(i as int).filter(p),
        decreases v@.len() - i,
    {
        let key = v[i].0;
        let id = v[i].1.clone();
        proof {
            assert(v@.take(i + 1) =~= v@.take(i as int).push(v@[i as int]));
            v@.take(i as int).lemma_filter_push(v@[i as int], p);
            assert((key, id) == v@[i as int]);
        }
        let same = key.0 == k.0 && key.1 == k.1 && key.2 == k.2;
        if !same {
            out.push((key, id));
        }
        i = i + 1;
    }
    proof {
        assert(v@.take(v@.len() as int) =~= v@);
    }
    out
}

/// A list of run IDs without `x`.
fn ids_remove(v: &Vec<u128>, x: u128) -> (r: Vec<u128>)
    ensures
        r@.to_set() == v@.to_set().remove(x),
{
    let mut out: Vec<u128> = Vec::new();
    let mut i: usize = 0;
    while i < v.len()
        invariant
            i <= v@.len(),
            out@.to_set() == v@.take(i as int).to_set().remove(x),
        decreases v@.len() - i,
    {
        proof {
            assert(v@.take(i + 1) =~= v@.take(i as int).push(v@[i as int]));
            v@.take(i as int).lemma_push_to_set_commute(v@[i as int]);
            out@.lemma_push_to_set_commute(v@[i as int]);
        }
        if v[i] != x {
            out.push(v[i]);
        }
        proof {
            assert(out@.to_set() =~= v@.take(i + 1).to_set().remove(x));
        }
        i = i + 1;
    }
    proof {
        assert(v@.take(v@.len() as int) =~= v@);
    }
    out
}

/// A metadata-store update that replay owes for a step.
pub struct StepStatusUpdate {
    pub run_id: u128,
    pub item_index: u32,
    pub step_id: String,
    pub step_index: usize,
    pub status: StepStatus,
    pub component: String,
    pub result: Option<FlowResult>,
    /// The journal sequence of the record the update comes from.
    pub sequence: u64,
}

/// What the caller performs against the metadata store, in order, after an
/// event was replayed.
pub enum ReplayAction {
    /// A sub-run was journaled but has no metadata record yet: create it.
    CreateRunRecord {
        run_id: u128,
        flow_id: String,
        inputs: Vec<serde_json::Value>,
        root_run_id: u128,
        parent_run_id: u128,
        sequence: u64,
    },
    /// Record a step's status.
    UpdateStepStatus(StepStatusUpdate),
    /// A sub-run finished in the journal but not in the metadata store:
    /// record its item results and final status from its state.
    SyncCompletedRun { run_id: u128, status: ExecutionStatus, state: RunState },
}

/// The content of a [`ReplayAction`], its lists and strings by their views.
#[allow(inconsistent_fields)]
pub enum ActionView {
    CreateRunRecord {
        run_id: u128,
        flow_id: Seq<char>,
        inputs: Seq<serde_json::Value>,
        root_run_id: u128,
        parent_run_id: u128,
        sequence: u64,
    },
    UpdateStepStatus {
        run_id: u128,
        item_index: u32,
        step_id: Seq<char>,
        step_index: usize,
        status: StepStatus,
        component: Seq<char>,
        result: Option<FlowResult>,
        sequence: u64,
    },
    SyncCompletedRun { run_id: u128, status: ExecutionStatus, state: RunState },
}

pub open spec fn action_view(a: ReplayAction) -> ActionView {
    match a {
        ReplayAction::CreateRunRecord { run_id, flow_id, inputs, root_run_id, parent_run_id, sequence } => {
            ActionView::CreateRunRecord { run_id, flow_id: flow_id@, inputs: inputs@, root_run_id, parent_run_id, sequence }
        },
        ReplayAction::UpdateStepStatus(u) => ActionView::UpdateStepStatus {
            run_id: u.run_id,
            item_index: u.item_index,
            step_id: u.step_id@,
            step_index: u.step_index,
            status: u.status,
            component: u.component@,
            result: u.result,
            sequence: u.sequence,
        },
        ReplayAction::SyncCompletedRun { run_id, status, state } => ActionView::SyncCompletedRun { run_id, status, state },
    }
}

/// The update recording `status` for step `idx` of flow `f`, item `item` of
/// run `run_id`, owed by the record at journal sequence `seq`.
pub open spec fn step_update(
    run_id: u128,
    item: u32,
    f: Flow,
    idx: usize,
    status: StepStatus,
    result: Option<FlowResult>,
    seq: u64,
) -> ActionView {
    ActionView::UpdateStepStatus {
        run_id,
        item_index: item,
        step_id: f.steps@[idx as int].id@,
        step_index: idx,
        status,
        component: f.steps@[idx as int].component@,
        result,
        sequence: seq,
    }
}

/// The position of the run `id` among `runs`, if it is there.
pub open spec fn sub_pos(runs: Seq<RunState>, id: u128) -> Option<int> {
    if exists|k: int| 0 <= k < runs.len() && #[trigger] runs[k].run_id_spec() == id {
        Some(choose|k: int| 0 <= k < runs.len() && #[trigger] runs[k].run_id_spec() == id)
    } else {
        None
    }
}

/// No two runs share an ID.
pub open spec fn ids_unique(runs: Seq<RunState>) -> bool {
    forall|i: int, j: int| 0 <= i < j < runs.len() ==> runs[i].run_id_spec() != runs[j].run_id_spec()
}

/// `st` is a new sub-flow run of the tree, created from its `SubRunCreated`
/// record: nothing needed yet in any of its items.
pub open spec fn fresh_subflow(
    st: RunState,
    run_id: u128,
    flow_id: Seq<char>,
    root_run_id: u128,
    parent_run_id: u128,
    flow: Flow,
    inputs: Seq<serde_json::Value>,
    variables: Seq<(String, serde_json::Value)>,
) -> bool {
    let items = st.items().items_spec();
    &&& st.wf()
    &&& st.run_id_spec() == run_id
    &&& st.flow_id_spec() == flow_id
    &&& st.root_run_id_spec() == root_run_id
    &&& st.parent_run_id_spec() == Some(parent_run_id)
    &&& st.flow_spec() == flow
    &&& st.items().variables_spec() == variables
    &&& items.len() == inputs.len()
    &&& forall|i: int| 0 <= i < items.len() ==> #[trigger] items[i].input_spec() == inputs[i]
    &&& forall|i: int| 0 <= i < items.len() ==> (#[trigger] items[i])@ == ItemState::initial_view(flow.steps@.len())
}

/// The in-flight task IDs after a task of `run_id` started for each of
/// `tasks`; attempts without an ID are not recorded.
pub open spec fn attempts_ids(ids: Seq<(TaskKey, String)>, run_id: u128, tasks: Seq<TaskAttempt>) -> Seq<(TaskKey, String)>
    decreases tasks.len(),
{
    if tasks.len() == 0 {
        ids
    } else {
        let prev = attempts_ids(ids, run_id, tasks.drop_last());
        let t = tasks.last();
        if t.task_id@.len() == 0 {
            prev
        } else {
            assoc_insert(prev, (run_id, t.item_index, t.step_index), t.task_id)
        }
    }
}

/// The in-flight task IDs after a `TasksStarted` record of `runs`.
pub open spec fn started_ids(ids: Seq<(TaskKey, String)>, runs: Seq<RunTaskAttempts>) -> Seq<(TaskKey, String)>
    decreases runs.len(),
{
    if runs.len() == 0 {
        ids
    } else {
        attempts_ids(started_ids(ids, runs.drop_last()), runs.last().run_id, runs.last().tasks@)
    }
}

/// Updates marking each of `tasks` of run `run_id` as running.
pub open spec fn task_updates(run_id: u128, f: Flow, tasks: Seq<TaskAttempt>, seq: u64) -> Seq<ActionView> {
    tasks.map_values(|t: TaskAttempt| step_update(run_id, t.item_index, f, t.step_index, StepStatus::Running, None, seq))
}

/// Updates for a `TasksStarted` record of `runs`: each task of a known run
/// is running.
pub open spec fn started_updates(st: Replay, runs: Seq<RunTaskAttempts>, seq: u64) -> Seq<ActionView>
    decreases runs.len(),
{
    if runs.len() == 0 {
        Seq::empty()
    } else {
        started_updates(st, runs.drop_last(), seq) + match st.flow_of(runs.last().run_id) {
            Some(f) => task_updates(runs.last().run_id, f, runs.last().tasks@, seq),
            None => Seq::empty(),
        }
    }
}

/// The status a step finishes with, given its result.
pub open spec fn completion_status(result: FlowResult) -> StepStatus {
    if result is Failed {
        StepStatus::Failed
    } else {
        StepStatus::Completed
    }
}

/// The step-status updates an event owes: started tasks are running, a
/// completed task is completed or failed with its result, unblocked steps
/// are runnable. Events of unknown runs owe nothing. Each update carries the
/// event's journal sequence `seq`.
pub open spec fn status_updates(st: Replay, event: JournalEvent, seq: u64) -> Seq<ActionView> {
    match event {
        JournalEvent::TasksStarted { runs } => started_updates(st, runs@, seq),
        JournalEvent::TaskCompleted { run_id, item_index, step_index, result } => match st.flow_of(run_id) {
            Some(f) => seq![step_update(run_id, item_index, f, step_index, completion_status(result), Some(result), seq)],
            None => Seq::empty(),
        },
        JournalEvent::StepsUnblocked { run_id, item_index, step_indices } => match st.flow_of(run_id) {
            Some(f) => step_indices@.map_values(|i: usize| step_update(run_id, item_index, f, i, StepStatus::Runnable, None, seq)),
            None => Seq::empty(),
        },
        _ => Seq::empty(),
    }
}

/// The step indices of an event are steps of their run's flow, where the run
/// is known.
pub open spec fn updates_fit(st: Replay, event: JournalEvent) -> bool {
    match event {
        JournalEvent::TasksStarted { runs } => forall|i: int, j: int|
            0 <= i < runs@.len() && 0 <= j < runs@[i].tasks@.len() ==> (st.flow_of(runs@[i].run_id) matches Some(f)
                ==> #[trigger] runs@[i].tasks@[j].step_index < f.steps@.len()),
        JournalEvent::TaskCompleted { run_id, step_index, .. } => st.flow_of(run_id) matches Some(f) ==> step_index
            < f.steps@.len(),
        JournalEvent::StepsUnblocked { run_id, step_indices, .. } => st.flow_of(run_id) matches Some(f) ==> forall|j: int|
            0 <= j < step_indices@.len() ==> #[trigger] step_indices@[j] < f.steps@.len(),
        _ => true,
    }
}

/// The update for step `idx` of flow `f`.
fn make_update(
    run_id: u128,
    item_index: u32,
    f: &Flow,
    idx: usize,
    status: StepStatus,
    result: Option<FlowResult>,
    seq: u64,
) -> (r: ReplayAction)
    requires
        idx < f.steps@.len(),
    ensures
        action_view(r) == step_update(run_id, item_index, *f, idx, status, result, seq),
{
    ReplayAction::UpdateStepStatus(StepStatusUpdate {
        run_id,
        item_index,
        step_id: f.steps[idx].id.clone(),
        step_index: idx,
        status,
        component: f.steps[idx].component.clone(),
        result,
        sequence: seq,
    })
}

/// The run whose items the event changes: `StepsNeeded` and
/// `TaskCompleted` name one.
pub open spec fn target_of(event: JournalEvent) -> Option<u128> {
    match event {
        JournalEvent::StepsNeeded { run_id, .. } => Some(run_id),
        JournalEvent::TaskCompleted { run_id, .. } => Some(run_id),
        _ => None,
    }
}

/// A `SubRunCreated` record for a sub-run not known yet, with no flow
/// definition given for it.
pub open spec fn missing_flow(st: Replay, event: JournalEvent, sub_flow: Option<Arc<Flow>>) -> bool {
    match event {
        JournalEvent::SubRunCreated { run_id, .. } => sub_pos(st.subs_spec(), run_id) is None && sub_flow is None,
        _ => false,
    }
}

/// The event fits the runs it names: its item and step indices are in range
/// (an index out of range would be a panic), and a new
/// sub-run's flow and inputs fit machine limits.
pub open spec fn replay_fits(st: Replay, event: JournalEvent, sub_flow: Option<Arc<Flow>>) -> bool {
    &&& event_fits(st.root_spec().items().items_spec(), st.root_run_id_spec(), event)
    &&& forall|k: int|
        0 <= k < st.subs_spec().len() ==> event_fits(
            (#[trigger] st.subs_spec()[k]).items().items_spec(),
            st.subs_spec()[k].run_id_spec(),
            event,
        )
    &&& updates_fit(st, event)
    &&& match event {
        JournalEvent::SubRunCreated { run_id, inputs, .. } => (sub_pos(st.subs_spec(), run_id) is None
            && sub_flow is Some) ==> sub_flow.unwrap().steps@.len() < usize::MAX && inputs@.len() <= u32::MAX,
        _ => true,
    }
}

/// The sub-flow runs after an event: a new sub-run joins, a finished one
/// leaves, and an event for the items of one of them is applied to it.
pub open spec fn subs_step(
    s0: Seq<RunState>,
    s1: Seq<RunState>,
    root_run_id: u128,
    event: JournalEvent,
    sub_flow: Option<Arc<Flow>>,
) -> bool {
    match event {
        JournalEvent::SubRunCreated { run_id, flow_id, inputs, variables, parent_run_id, .. } => match sub_pos(s0, run_id) {
            Some(_) => s1 == s0,
            None => {
                &&& s1.len() == s0.len() + 1
                &&& s1.drop_last() == s0
                &&& fresh_subflow(s1.last(), run_id, flow_id@, root_run_id, parent_run_id, *sub_flow.unwrap(), inputs@, variables@)
            },
        },
        JournalEvent::RunCompleted { run_id, .. } => if run_id == root_run_id {
            s1 == s0
        } else {
            match sub_pos(s0, run_id) {
                Some(k) => s1 == s0.remove(k),
                None => s1 == s0,
            }
        },
        JournalEvent::TasksStarted { .. } => {
            &&& s1.len() == s0.len()
            &&& forall|k: int| 0 <= k < s0.len() ==> applied(s0[k], #[trigger] s1[k], event)
        },
        _ => match target_of(event) {
            Some(id) => if id == root_run_id {
                s1 == s0
            } else {
                match sub_pos(s0, id) {
                    Some(k) => s1 == s0.update(k, s1[k]) && applied(s0[k], s1[k], event),
                    None => s1 == s0,
                }
            },
            None => s1 == s0,
        },
    }
}

/// The sub-flow map after an event: a new sub-run is recorded under its key.
pub open spec fn map_step(m: Seq<(SubflowKey, u128)>, event: JournalEvent) -> Seq<(SubflowKey, u128)> {
    match event {
        JournalEvent::SubRunCreated { run_id, parent_run_id, item_index, step_index, subflow_key, .. } => assoc_insert(
            m,
            (parent_run_id, item_index, step_index, subflow_key),
            run_id,
        ),
        _ => m,
    }
}

/// The sub-runs that still owe a `StepsNeeded` record after an event.
pub open spec fn needing_step(n: Set<u128>, root_run_id: u128, event: JournalEvent) -> Set<u128> {
    match event {
        JournalEvent::SubRunCreated { run_id, .. } => n.insert(run_id),
        JournalEvent::StepsNeeded { run_id, .. } => if run_id != root_run_id {
            n.remove(run_id)
        } else {
            n
        },
        JournalEvent::RunCompleted { run_id, .. } => if run_id != root_run_id {
            n.remove(run_id)
        } else {
            n
        },
        _ => n,
    }
}

/// The in-flight task IDs after an event.
pub open spec fn task_ids_step(ids: Seq<(TaskKey, String)>, event: JournalEvent) -> Seq<(TaskKey, String)> {
    match event {
        JournalEvent::TasksStarted { runs } => started_ids(ids, runs@),
        JournalEvent::TaskCompleted { run_id, item_index, step_index, .. } => assoc_remove(ids, (run_id, item_index, step_index)),
        _ => ids,
    }
}

/// The metadata record owed for a journaled sub-run the store does not know.
pub open spec fn create_part(st: Replay, event: JournalEvent, seq: u64, meta: SubflowMetadata) -> Seq<ActionView> {
    match event {
        JournalEvent::SubRunCreated { run_id, flow_id, inputs, parent_run_id, .. } => if meta.known@.contains(run_id) {
            Seq::empty()
        } else {
            seq![ActionView::CreateRunRecord {
                run_id,
                flow_id: flow_id@,
                inputs: inputs@,
                root_run_id: st.root_run_id_spec(),
                parent_run_id,
                sequence: seq,
            }]
        },
        _ => Seq::empty(),
    }
}

/// The sync owed for a sub-run that finished in the journal but not in the
/// metadata store.
pub open spec fn sync_part(st: Replay, event: JournalEvent, meta: SubflowMetadata) -> Seq<ActionView> {
    match event {
        JournalEvent::RunCompleted { run_id, status } => if run_id == st.root_run_id_spec() {
            Seq::empty()
        } else {
            match sub_pos(st.subs_spec(), run_id) {
                Some(k) => if meta.completed@.contains(run_id) {
                    Seq::empty()
                } else {
                    seq![ActionView::SyncCompletedRun { run_id, status, state: st.subs_spec()[k] }]
                },
                None => Seq::empty(),
            }
        },
        _ => Seq::empty(),
    }
}

/// Record `id` for task `k`.
fn task_ids_insert(v: &Vec<(TaskKey, String)>, k: TaskKey, id: String) -> (r: Vec<(TaskKey, String)>)
    ensures
        r@ == assoc_insert(v@, k, id),
{
    let mut m = task_ids_remove(v, k);
    m.push((k, id));
    m
}

/// Record the IDs of the tasks of a `TasksStarted` record.
fn record_started(ids: &mut Vec<(TaskKey, String)>, runs: &Vec<RunTaskAttempts>)
    ensures
        final(ids)@ == started_ids(old(ids)@, runs@),
{
    let ghost start = ids@;
    let mut i: usize = 0;
    proof {
        assert(runs@.take(0) =~= Seq::<RunTaskAttempts>::empty());
    }
    while i < runs.len()
        invariant
            i <= runs@.len(),
            ids@ == started_ids(start, runs@.take(i as int)),
        decreases runs@.len() - i,
    {
        let run_id = runs[i].run_id;
        let tasks = &runs[i].tasks;
        let ghost before = ids@;
        let mut j: usize = 0;
        proof {
            assert(tasks@.take(0) =~= Seq::<TaskAttempt>::empty());
        }
        while j < tasks.len()
            invariant
                j <= tasks@.len(),
                ids@ == attempts_ids(before, run_id, tasks@.take(j as int)),
            decreases tasks@.len() - j,
        {
            proof {
                assert(tasks@.take(j + 1).drop_last() =~= tasks@.take(j as int));
                assert(tasks@.take(j + 1).last() == tasks@[j as int]);
            }
            if !tasks[j].task_id.as_str().is_empty() {
                let k = (run_id, tasks[j].item_index, tasks[j].step_index);
                let next = task_ids_insert(ids, k, tasks[j].task_id.clone());
                *ids = next;
            }
            j = j + 1;
        }
        proof {
            assert(tasks@.take(tasks@.len() as int) =~= tasks@);
            assert(runs@.take(i + 1).drop_last() =~= runs@.take(i as int));
            assert(runs@.take(i + 1).last() == runs@[i as int]);
        }
        i = i + 1;
    }
    proof {
        assert(runs@.take(runs@.len() as int) =~= runs@);
    }
}

/// A list of run IDs with `x`.
fn ids_insert(v: &mut Vec<u128>, x: u128)
    ensures
        final(v)@.to_set() == old(v)@.to_set().insert(x),
{
    if !vec_contains_u128(v, x) {
        proof {
            v@.lemma_push_to_set_commute(x);
        }
        v.push(x);
    } else {
        proof {
            assert(v@.to_set().insert(x) =~= v@.to_set());
        }
    }
}

/// Whether every task of `tasks` is for a step below `n`.
fn tasks_below(tasks: &Vec<TaskAttempt>, n: usize) -> (r: bool)
    ensures
        r == (forall|b: int| 0 <= b < tasks@.len() ==> #[trigger] tasks@[b].step_index < n),
{
    let mut j: usize = 0;
    while j < tasks.len()
        invariant
            j <= tasks@.len(),
            forall|b: int| 0 <= b < j ==> #[trigger] tasks@[b].step_index < n,
        decreases tasks@.len() - j,
    {
        if tasks[j].step_index >= n {
            return false;
        }
        j = j + 1;
    }
    true
}

/// `st` is a new root run of a tree, created from its `RootRunCreated`
/// record: nothing needed yet in any of its items.
pub open spec fn fresh_root(
    st: RunState,
    run_id: u128,
    flow_id: Seq<char>,
    flow: Flow,
    inputs: Seq<serde_json::Value>,
    variables: Seq<(String, serde_json::Value)>,
) -> bool {
    let items = st.items().items_spec();
    &&& st.wf()
    &&& st.run_id_spec() == run_id
    &&& st.flow_id_spec() == flow_id
    &&& st.root_run_id_spec() == run_id
    &&& st.parent_run_id_spec() is None
    &&& st.flow_spec() == flow
    &&& st.items().variables_spec() == variables
    &&& items.len() == inputs.len()
    &&& forall|i: int| 0 <= i < items.len() ==> #[trigger] items[i].input_spec() == inputs[i]
    &&& forall|i: int| 0 <= i < items.len() ==> (#[trigger] items[i])@ == ItemState::initial_view(flow.steps@.len())
}

/// The root run's state at the start of its journal. The first record of a
/// tree's journal must be the root run's `RootRunCreated`: the run starts
/// from its inputs and variables. Any other first record (or one with more
/// inputs than items can be counted) is an error.
pub fn root_run_from_journal(first: &JournalEvent, root_run_id: u128, flow_id: String, flow: Arc<Flow>) -> (r: Result<
    RunState,
    ExecutionError,
>)
    requires
        flow.steps@.len() < usize::MAX,
    ensures
        match *first {
            JournalEvent::RootRunCreated { run_id, inputs, variables, .. } => if run_id == root_run_id
                && inputs@.len() <= u32::MAX {
                r matches Ok(st) && fresh_root(st, root_run_id, flow_id@, *flow, inputs@, variables@)
            } else {
                r == Err::<RunState, ExecutionError>(ExecutionError::RecoveryFailed)
            },
            _ => r == Err::<RunState, ExecutionError>(ExecutionError::RecoveryFailed),
        },
{
    match first {
        JournalEvent::RootRunCreated { run_id, inputs, variables, .. } => {
            if *run_id != root_run_id || inputs.len() > 4294967295 {
                return Err(ExecutionError::RecoveryFailed);
            }
            let st = RunState::new(root_run_id, flow_id, flow, clone_values(inputs), clone_named_values(variables));
            Ok(st)
        },
        _ => Err(ExecutionError::RecoveryFailed),
    }
}

/// Replay state of an execution tree.
pub struct Replay {
    root_run_id: u128,
    root: RunState,
    subflow_map: Vec<(SubflowKey, u128)>,
    subflow_runs: Vec<RunState>,
    runs_needing_step_updates: Vec<u128>,
    root_terminal_status: Option<ExecutionStatus>,
    last_sequence: Option<u64>,
    recovered_task_ids: Vec<(TaskKey, String)>,
    event_count: usize,
}

/// What replay recovered of an execution tree.
pub struct RecoveredState {
    /// The root run's execution state.
    pub run_state: RunState,
    /// Sub-flow deduplication map: `(parent, item, step, key) -> sub-run`.
    pub subflow_map: Vec<(SubflowKey, u128)>,
    /// The sub-flow runs still in progress.
    pub subflow_runs: Vec<RunState>,
    /// Sub-runs created but never initialized in the journal.
    pub runs_needing_step_updates: Vec<u128>,
    /// Status of the root run's `RunCompleted` record, if there is one.
    pub root_terminal_status: Option<ExecutionStatus>,
    /// The last journal sequence replayed.
    pub last_sequence: Option<u64>,
    /// Task IDs of tasks started but not completed.
    pub recovered_task_ids: Vec<(TaskKey, String)>,
}

impl Replay {
    pub closed spec fn root_run_id_spec(&self) -> u128 {
        self.root_run_id
    }

    pub closed spec fn root_spec(&self) -> RunState {
        self.root
    }

    pub closed spec fn subflow_map_spec(&self) -> Seq<(SubflowKey, u128)> {
        self.subflow_map@
    }

    pub closed spec fn subs_spec(&self) -> Seq<RunState> {
        self.subflow_runs@
    }

    pub closed spec fn needing_spec(&self) -> Set<u128> {
        self.runs_needing_step_updates@.to_set()
    }

    pub closed spec fn terminal_spec(&self) -> Option<ExecutionStatus> {
        self.root_terminal_status
    }

    pub closed spec fn last_sequence_spec(&self) -> Option<u64> {
        self.last_sequence
    }

    pub closed spec fn task_ids_spec(&self) -> Seq<(TaskKey, String)> {
        self.recovered_task_ids@
    }

    pub closed spec fn event_count_spec(&self) -> usize {
        self.event_count
    }

    pub open spec fn wf(&self) -> bool {
        &&& self.root_spec().wf()
        &&& self.root_spec().run_id_spec() == self.root_run_id_spec()
        &&& forall|k: int| 0 <= k < self.subs_spec().len() ==> #[trigger] self.subs_spec()[k].wf()
        &&& ids_unique(self.subs_spec())
    }

    /// The flow of run `id` of the tree, if the run is known.
    pub open spec fn flow_of(&self, id: u128) -> Option<Flow> {
        if id == self.root_run_id_spec() {
            Some(self.root_spec().flow_spec())
        } else {
            match sub_pos(self.subs_spec(), id) {
                Some(k) => Some(self.subs_spec()[k].flow_spec()),
                None => None,
            }
        }
    }

    /// Start replay from the root run's state, with nothing else known.
    pub fn new(root: RunState) -> (r: Self)
        requires
            root.wf(),
        ensures
            r.wf(),
            r.root_run_id_spec() == root.run_id_spec(),
            r.root_spec() == root,
            r.subflow_map_spec() == Seq::<(SubflowKey, u128)>::empty(),
            r.subs_spec() == Seq::<RunState>::empty(),
            r.needing_spec() == Set::<u128>::empty(),
            r.terminal_spec() is None,
            r.last_sequence_spec() is None,
            r.task_ids_spec() == Seq::<(TaskKey, String)>::empty(),
            r.event_count_spec() == 0,
    {
        let r = Replay {
            root_run_id: root.run_id(),
            root,
            subflow_map: Vec::new(),
            subflow_runs: Vec::new(),
            runs_needing_step_updates: Vec::new(),
            root_terminal_status: None,
            last_sequence: None,
            recovered_task_ids: Vec::new(),
            event_count: 0,
        };
        proof {
            assert(r.runs_needing_step_updates@.to_set() =~= Set::<u128>::empty());
        }
        r
    }

    /// The position of run `id` among the sub-flow runs.
    fn find_sub(&self, id: u128) -> (r: Option<usize>)
        requires
            ids_unique(self.subs_spec()),
        ensures
            match r {
                Some(k) => k < self.subs_spec().len() && self.subs_spec()[k as int].run_id_spec() == id
                    && sub_pos(self.subs_spec(), id) == Some(k as int),
                None => sub_pos(self.subs_spec(), id) is None,
            },
    {
        let mut k: usize = 0;
        while k < self.subflow_runs.len()
            invariant
                k <= self.subs_spec().len(),
                ids_unique(self.subs_spec()),
                forall|j: int| 0 <= j < k ==> #[trigger] self.subs_spec()[j].run_id_spec() != id,
            decreases self.subs_spec().len() - k,
        {
            if self.subflow_runs[k].run_id() == id {
                proof {
                    let c = choose|j: int| 0 <= j < self.subs_spec().len() && #[trigger] self.subs_spec()[j].run_id_spec() == id;
                    assert(self.subs_spec()[k as int].run_id_spec() == id);
                    if c != k {
                        assert(self.subs_spec()[c].run_id_spec() == id);
                    }
                }
                return Some(k);
            }
            k = k + 1;
        }
        None
    }

    /// Add a restored sub-flow run; a run with the same ID is replaced.
    pub fn insert_sub(&mut self, st: RunState)
        requires
            old(self).wf(),
            st.wf(),
        ensures
            final(self).wf(),
            final(self).subs_spec() == (match sub_pos(old(self).subs_spec(), st.run_id_spec()) {
                Some(k) => old(self).subs_spec().update(k, st),
                None => old(self).subs_spec().push(st),
            }),
            final(self).root_run_id_spec() == old(self).root_run_id_spec(),
            final(self).root_spec() == old(self).root_spec(),
            final(self).subflow_map_spec() == old(self).subflow_map_spec(),
            final(self).needing_spec() == old(self).needing_spec(),
            final(self).terminal_spec() == old(self).terminal_spec(),
            final(self).last_sequence_spec() == old(self).last_sequence_spec(),
            final(self).task_ids_spec() == old(self).task_ids_spec(),
            final(self).event_count_spec() == old(self).event_count_spec(),
    {
        match self.find_sub(st.run_id()) {
            Some(k) => {
                let _old = self.subflow_runs.remove(k);
                self.subflow_runs.insert(k, st);
                proof {
                    assert(self.subflow_runs@ =~= old(self).subflow_runs@.update(k as int, st));
                }
            },
            None => {
                self.subflow_runs.push(st);
            },
        }
    }

    /// Add an entry of the sub-flow deduplication map.
    pub fn insert_mapping(&mut self, key: SubflowKey, run_id: u128)
        requires
            old(self).wf(),
        ensures
            final(self).wf(),
            final(self).subflow_map_spec() == assoc_insert(old(self).subflow_map_spec(), key, run_id),
            final(self).root_run_id_spec() == old(self).root_run_id_spec(),
            final(self).root_spec() == old(self).root_spec(),
            final(self).subs_spec() == old(self).subs_spec(),
            final(self).needing_spec() == old(self).needing_spec(),
            final(self).terminal_spec() == old(self).terminal_spec(),
            final(self).last_sequence_spec() == old(self).last_sequence_spec(),
            final(self).task_ids_spec() == old(self).task_ids_spec(),
            final(self).event_count_spec() == old(self).event_count_spec(),
    {
        let mut m = subflow_map_remove(&self.subflow_map, key);
        m.push((key, run_id));
        self.subflow_map = m;
    }

    /// The flow of run `id` of the tree.
    pub fn flow_for(&self, id: u128) -> (r: Option<Arc<Flow>>)
        requires
            self.wf(),
        ensures
            r matches Some(f) ==> self.flow_of(id) == Some(*f),
            r is None ==> self.flow_of(id) is None,
    {
        if id == self.root_run_id {
            Some(self.root.flow())
        } else {
            match self.find_sub(id) {
                Some(k) => Some(self.subflow_runs[k].flow()),
                None => None,
            }
        }
    }

    /// Append the step-status updates that `event` owes to `out`.
    fn push_status_updates(&self, event: &JournalEvent, seq: u64, out: &mut Vec<ReplayAction>)
        requires
            self.wf(),
            updates_fit(*self, *event),
        ensures
            final(out)@.map_values(|a: ReplayAction| action_view(a)) == old(out)@.map_values(|a: ReplayAction| action_view(a))
                + status_updates(*self, *event, seq),
    {
        let ghost av = |a: ReplayAction| action_view(a);
        let ghost start = old(out)@.map_values(av);
        match event {
            JournalEvent::TasksStarted { runs } => {
                let mut i: usize = 0;
                proof {
                    assert(start + started_updates(*self, runs@.take(0), seq) =~= start);
                }
                while i < runs.len()
                    invariant
                        self.wf(),
                        updates_fit(*self, *event),
                        *event == (JournalEvent::TasksStarted { runs: *runs }),
                        av == (|a: ReplayAction| action_view(a)),
                        i <= runs@.len(),
                        out@.map_values(av) == start + started_updates(*self, runs@.take(i as int), seq),
                    decreases runs@.len() - i,
                {
                    let run_id = runs[i].run_id;
                    let ghost before = out@.map_values(av);
                    proof {
                        assert(runs@.take(i + 1).drop_last() =~= runs@.take(i as int));
                    }
                    match self.flow_for(run_id) {
                        Some(f) => {
                            let tasks = &runs[i].tasks;
                            let mut j: usize = 0;
                            while j < tasks.len()
                                invariant
                                    self.wf(),
                                    updates_fit(*self, *event),
                                    *event == (JournalEvent::TasksStarted { runs: *runs }),
                                    av == (|a: ReplayAction| action_view(a)),
                                    i < runs@.len(),
                                    *tasks == runs@[i as int].tasks,
                                    run_id == runs@[i as int].run_id,
                                    self.flow_of(run_id) == Some(*f),
                                    j <= tasks@.len(),
                                    out@.map_values(av) == before + task_updates(run_id, *f, tasks@.take(j as int), seq),
                                decreases tasks@.len() - j,
                            {
                                let t = &tasks[j];
                                proof {
                                    assert(runs@[i as int].tasks@[j as int].step_index < f.steps@.len());
                                }
                                let a = make_update(run_id, t.item_index, &f, t.step_index, StepStatus::Running, None, seq);
                                let ghost o = out@;
                                out.push(a);
                                proof {
                                    assert(out@.map_values(av) =~= o.map_values(av).push(av(a)));
                                    assert(task_updates(run_id, *f, tasks@.take(j + 1), seq) =~= task_updates(run_id, *f, tasks@.take(j as int), seq).push(av(a)));
                                    assert(out@.map_values(av) =~= before + task_updates(run_id, *f, tasks@.take(j + 1), seq));
                                }
                                j = j + 1;
                            }
                            proof {
                                assert(tasks@.take(tasks@.len() as int) =~= tasks@);
                                assert(out@.map_values(av) =~= start + started_updates(*self, runs@.take(i + 1), seq));
                            }
                        },
                        None => {
                            proof {
                                assert(started_updates(*self, runs@.take(i + 1), seq) =~= started_updates(*self, runs@.take(i as int), seq));
                            }
                        },
                    }
                    i = i + 1;
                }
                proof {
                    assert(runs@.take(runs@.len() as int) =~= runs@);
                }
            },
            JournalEvent::TaskCompleted { run_id, item_index, step_index, result } => {
                match self.flow_for(*run_id) {
                    Some(f) => {
                        let status = if result.is_failed() {
                            StepStatus::Failed
                        } else {
                            StepStatus::Completed
                        };
                        let a = make_update(*run_id, *item_index, &f, *step_index, status, Some(result.clone()), seq);
                        out.push(a);
                        proof {
                            assert(out@.map_values(av) =~= start + status_updates(*self, *event, seq));
                        }
                    },
                    None => {
                        proof {
                            assert(out@.map_values(av) =~= start + status_updates(*self, *event, seq));
                        }
                    },
                }
            },
            JournalEvent::StepsUnblocked { run_id, item_index, step_indices } => {
                match self.flow_for(*run_id) {
                    Some(f) => {
                        let ghost upd = |x: usize| step_update(*run_id, *item_index, *f, x, StepStatus::Runnable, None, seq);
                        proof {
                            assert(forall|k: int| 0 <= k < step_indices@.len() ==> #[trigger] step_indices@[k] < f.steps@.len());
                        }
                        let mut j: usize = 0;
                        while j < step_indices.len()
                            invariant
                                updates_fit(*self, *event),
                                *event == (JournalEvent::StepsUnblocked { run_id: *run_id, item_index: *item_index, step_indices: *step_indices }),
                                self.flow_of(*run_id) == Some(*f),
                                av == (|a: ReplayAction| action_view(a)),
                                upd == (|x: usize| step_update(*run_id, *item_index, *f, x, StepStatus::Runnable, None, seq)),
                                forall|k: int| 0 <= k < step_indices@.len() ==> #[trigger] step_indices@[k] < f.steps@.len(),
                                j <= step_indices@.len(),
                                out@.map_values(av) == start + step_indices@.take(j as int).map_values(upd),
                            decreases step_indices@.len() - j,
                        {
                            let a = make_update(*run_id, *item_index, &f, step_indices[j], StepStatus::Runnable, None, seq);
                            let ghost o = out@;
                            out.push(a);
                            proof {
                                assert(out@.map_values(av) =~= o.map_values(av).push(av(a)));
                                assert(step_indices@.take(j + 1).map_values(upd) =~= step_indices@.take(j as int).map_values(upd).push(upd(step_indices@[j as int])));
                            }
                            j = j + 1;
                        }
                        proof {
                            assert(step_indices@.take(step_indices@.len() as int) =~= step_indices@);
                            assert(step_indices@.map_values(upd) =~= status_updates(*self, *event, seq));
                        }
                    },
                    None => {
                        proof {
                            assert(out@.map_values(av) =~= start + status_updates(*self, *event, seq));
                        }
                    },
                }
            },
            _ => {
                proof {
                    assert(out@.map_values(av) =~= start + status_updates(*self, *event, seq));
                }
            },
        }
    }

    /// Replay one journal event recorded at `seq`. `sub_flow` is the flow
    /// definition of the sub-run a `SubRunCreated` record creates, when the
    /// caller found it; `meta` is what the metadata store knew of the tree's
    /// sub-runs before replay.
    ///
    /// The event is applied to the run whose items it changes. A
    /// `SubRunCreated` record enters the deduplication map, creates the
    /// sub-run's state if it is new, and marks the sub-run as owing its
    /// `StepsNeeded` record; `StepsNeeded` of a sub-run pays it. Started tasks
    /// set their attempt counts in every run they belong to, and are
    /// remembered by ID until they complete. `RunCompleted` of the root
    /// records the final status; of a sub-run, it drops the sub-run's state.
    /// The returned actions are, in order: the metadata record of a new
    /// sub-run the store does not know, the step-status updates of the event,
    /// and the sync of a finished sub-run the store does not know finished.
    /// A new sub-run without its flow definition is an error, with nothing
    /// changed.
    pub fn apply_event(
        &mut self,
        seq: u64,
        event: &JournalEvent,
        sub_flow: Option<Arc<Flow>>,
        meta: &SubflowMetadata,
    ) -> (r: Result<Vec<ReplayAction>, ExecutionError>)
        requires
            old(self).wf(),
            replay_fits(*old(self), *event, sub_flow),
            old(self).event_count_spec() < usize::MAX,
        ensures
            r is Err <==> missing_flow(*old(self), *event, sub_flow),
            r is Err ==> r == Err::<Vec<ReplayAction>, ExecutionError>(ExecutionError::RecoveryFailed)
                && *final(self) == *old(self),
            r matches Ok(acts) ==> {
                let s0 = *old(self);
                let s1 = *final(self);
                &&& s1.wf()
                &&& s1.root_run_id_spec() == s0.root_run_id_spec()
                &&& s1.last_sequence_spec() == Some(seq)
                &&& s1.event_count_spec() == s0.event_count_spec() + 1
                &&& applied(s0.root_spec(), s1.root_spec(), *event)
                &&& target_of(*event) != Some(s0.root_run_id_spec()) && !(*event is TasksStarted) ==> s1.root_spec()
                    == s0.root_spec()
                &&& subs_step(s0.subs_spec(), s1.subs_spec(), s0.root_run_id_spec(), *event, sub_flow)
                &&& s1.subflow_map_spec() == map_step(s0.subflow_map_spec(), *event)
                &&& s1.needing_spec() == needing_step(s0.needing_spec(), s0.root_run_id_spec(), *event)
                &&& s1.terminal_spec() == (match *event {
                    JournalEvent::RunCompleted { run_id, status } if run_id == s0.root_run_id_spec() => Some(status),
                    _ => s0.terminal_spec(),
                })
                &&& s1.task_ids_spec() == task_ids_step(s0.task_ids_spec(), *event)
                &&& acts@.map_values(|a: ReplayAction| action_view(a)) == create_part(s0, *event, seq, *meta)
                    + status_updates(s0, *event, seq) + sync_part(s0, *event, *meta)
            },
    {
        let ghost s0 = *self;
        let ghost av = |a: ReplayAction| action_view(a);
        let mut actions: Vec<ReplayAction> = Vec::new();
        match event {
            JournalEvent::SubRunCreated {
                run_id,
                flow_id,
                inputs,
                variables,
                parent_run_id,
                item_index,
                step_index,
                subflow_key,
            } => {
                let pos = self.find_sub(*run_id);
                if pos.is_none() && sub_flow.is_none() {
                    return Err(ExecutionError::RecoveryFailed);
                }
                self.insert_mapping((*parent_run_id, *item_index, *step_index, *subflow_key), *run_id);
                if pos.is_none() {
                    match sub_flow {
                        Some(f) => {
                            let st = RunState::new_subflow(
                                *run_id,
                                flow_id.clone(),
                                self.root_run_id,
                                *parent_run_id,
                                f,
                                clone_values(inputs),
                                clone_named_values(variables),
                            );
                            proof {
                                assert forall|i: int, j: int|
                                    0 <= i < j < self.subflow_runs@.push(st).len() implies self.subflow_runs@.push(st)[i].run_id_spec()
                                        != self.subflow_runs@.push(st)[j].run_id_spec() by {
                                    if j == self.subflow_runs@.len() {
                                        assert(self.subflow_runs@[i].run_id_spec() != *run_id);
                                    }
                                }
                            }
                            self.subflow_runs.push(st);
                        },
                        None => {},
                    }
                }
                ids_insert(&mut self.runs_needing_step_updates, *run_id);
                if !vec_contains_u128(&meta.known, *run_id) {
                    actions.push(
                        ReplayAction::CreateRunRecord {
                            run_id: *run_id,
                            flow_id: flow_id.clone(),
                            inputs: clone_values(inputs),
                            root_run_id: self.root_run_id,
                            parent_run_id: *parent_run_id,
                            sequence: seq,
                        },
                    );
                }
                proof {
                    assert(actions@.map_values(av) =~= create_part(s0, *event, seq, *meta) + status_updates(s0, *event, seq)
                        + sync_part(s0, *event, *meta));
                    if pos is None {
                        assert(self.subflow_runs@.drop_last() =~= s0.subflow_runs@);
                    }
                }
            },
            JournalEvent::StepsNeeded { run_id, .. } => {
                self.apply_to_target(*run_id, event);
                if *run_id != self.root_run_id {
                    self.runs_needing_step_updates = ids_remove(&self.runs_needing_step_updates, *run_id);
                }
                proof {
                    assert(actions@.map_values(av) =~= create_part(s0, *event, seq, *meta) + status_updates(s0, *event, seq)
                        + sync_part(s0, *event, *meta));
                }
            },
            JournalEvent::TaskCompleted { run_id, item_index, step_index, .. } => {
                self.push_status_updates(event, seq, &mut actions);
                self.apply_to_target(*run_id, event);
                self.recovered_task_ids = task_ids_remove(&self.recovered_task_ids, (*run_id, *item_index, *step_index));
                proof {
                    assert(Seq::<ReplayAction>::empty().map_values(av) =~= Seq::<ActionView>::empty());
                    assert(actions@.map_values(av) =~= create_part(s0, *event, seq, *meta) + status_updates(s0, *event, seq)
                        + sync_part(s0, *event, *meta));
                }
            },
            JournalEvent::TasksStarted { runs } => {
                self.push_status_updates(event, seq, &mut actions);
                self.apply_to_all(event);
                record_started(&mut self.recovered_task_ids, runs);
                proof {
                    assert(Seq::<ReplayAction>::empty().map_values(av) =~= Seq::<ActionView>::empty());
                    assert(actions@.map_values(av) =~= create_part(s0, *event, seq, *meta) + status_updates(s0, *event, seq)
                        + sync_part(s0, *event, *meta));
                }
            },
            JournalEvent::StepsUnblocked { .. } => {
                self.push_status_updates(event, seq, &mut actions);
                proof {
                    assert(Seq::<ReplayAction>::empty().map_values(av) =~= Seq::<ActionView>::empty());
                    assert(actions@.map_values(av) =~= create_part(s0, *event, seq, *meta) + status_updates(s0, *event, seq)
                        + sync_part(s0, *event, *meta));
                }
            },
            JournalEvent::RunCompleted { run_id, status } => {
                if *run_id == self.root_run_id {
                    self.root_terminal_status = Some(*status);
                } else {
                    match self.find_sub(*run_id) {
                        Some(k) => {
                            let st = self.subflow_runs.remove(k);
                            if !vec_contains_u128(&meta.completed, *run_id) {
                                actions.push(ReplayAction::SyncCompletedRun { run_id: *run_id, status: *status, state: st });
                            }
                            proof {
                                assert forall|i: int, j: int|
                                    0 <= i < j < self.subflow_runs@.len() implies self.subflow_runs@[i].run_id_spec()
                                        != self.subflow_runs@[j].run_id_spec() by {
                                    let ii = if i < k { i } else { i + 1 };
                                    let jj = if j < k { j } else { j + 1 };
                                    assert(self.subflow_runs@[i] == s0.subflow_runs@[ii]);
                                    assert(self.subflow_runs@[j] == s0.subflow_runs@[jj]);
                                }
                            }
                        },
                        None => {},
                    }
                    self.runs_needing_step_updates = ids_remove(&self.runs_needing_step_updates, *run_id);
                }
                proof {
                    assert(actions@.map_values(av) =~= create_part(s0, *event, seq, *meta) + status_updates(s0, *event, seq)
                        + sync_part(s0, *event, *meta));
                }
            },
            JournalEvent::RootRunCreated { .. } => {
                proof {
                    assert(actions@.map_values(av) =~= create_part(s0, *event, seq, *meta) + status_updates(s0, *event, seq)
                        + sync_part(s0, *event, *meta));
                }
            },
        }
        self.last_sequence = Some(seq);
        self.event_count = self.event_count + 1;
        Ok(actions)
    }

    /// Apply an event that changes the items of run `run_id` to that run.
    fn apply_to_target(&mut self, run_id: u128, event: &JournalEvent)
        requires
            old(self).wf(),
            replay_fits(*old(self), *event, None),
            target_of(*event) == Some(run_id),
        ensures
            final(self).wf(),
            final(self).root_run_id_spec() == old(self).root_run_id_spec(),
            applied(old(self).root_spec(), final(self).root_spec(), *event),
            run_id != old(self).root_run_id_spec() ==> final(self).root_spec() == old(self).root_spec(),
            subs_step(old(self).subs_spec(), final(self).subs_spec(), old(self).root_run_id_spec(), *event, None),
            final(self).subflow_map_spec() == old(self).subflow_map_spec(),
            final(self).needing_spec() == old(self).needing_spec(),
            final(self).terminal_spec() == old(self).terminal_spec(),
            final(self).last_sequence_spec() == old(self).last_sequence_spec(),
            final(self).task_ids_spec() == old(self).task_ids_spec(),
            final(self).event_count_spec() == old(self).event_count_spec(),
            final(self).flow_of(run_id) == old(self).flow_of(run_id),
    {
        if run_id == self.root_run_id {
            self.root.apply_event(event);
        } else {
            match self.find_sub(run_id) {
                Some(k) => {
                    let mut st = self.subflow_runs.remove(k);
                    proof {
                        assert(st == old(self).subflow_runs@[k as int]);
                    }
                    st.apply_event(event);
                    self.subflow_runs.insert(k, st);
                    proof {
                        assert(self.subflow_runs@ =~= old(self).subflow_runs@.update(k as int, st));
                        assert forall|i: int, j: int|
                            0 <= i < j < self.subflow_runs@.len() implies self.subflow_runs@[i].run_id_spec()
                                != self.subflow_runs@[j].run_id_spec() by {
                            assert(self.subflow_runs@[i].run_id_spec() == old(self).subflow_runs@[i].run_id_spec());
                            assert(self.subflow_runs@[j].run_id_spec() == old(self).subflow_runs@[j].run_id_spec());
                        }
                        assert forall|i: int| 0 <= i < self.subflow_runs@.len() implies #[trigger] self.subflow_runs@[i].wf() by {
                            if i != k {
                                assert(self.subflow_runs@[i] == old(self).subflow_runs@[i]);
                            }
                        }
                        assert(sub_pos(self.subs_spec(), run_id) == Some(k as int)) by {
                            let c = choose|j: int| 0 <= j < self.subs_spec().len() && #[trigger] self.subs_spec()[j].run_id_spec() == run_id;
                            assert(self.subs_spec()[k as int].run_id_spec() == run_id);
                            if c != k {
                                assert(self.subs_spec()[c].run_id_spec() == run_id);
                            }
                        }
                    }
                },
                None => {},
            }
        }
    }

    /// Apply a `TasksStarted` record to every run of the tree.
    fn apply_to_all(&mut self, event: &JournalEvent)
        requires
            old(self).wf(),
            replay_fits(*old(self), *event, None),
            *event is TasksStarted,
        ensures
            final(self).wf(),
            final(self).root_run_id_spec() == old(self).root_run_id_spec(),
            applied(old(self).root_spec(), final(self).root_spec(), *event),
            subs_step(old(self).subs_spec(), final(self).subs_spec(), old(self).root_run_id_spec(), *event, None),
            final(self).subflow_map_spec() == old(self).subflow_map_spec(),
            final(self).needing_spec() == old(self).needing_spec(),
            final(self).terminal_spec() == old(self).terminal_spec(),
            final(self).last_sequence_spec() == old(self).last_sequence_spec(),
            final(self).task_ids_spec() == old(self).task_ids_spec(),
            final(self).event_count_spec() == old(self).event_count_spec(),
    {
        self.root.apply_event(event);
        let ghost subs0 = self.subflow_runs@;
        let n = self.subflow_runs.len();
        let mut k: usize = 0;
        while k < n
            invariant
                self.root_spec().wf(),
                self.root_spec().run_id_spec() == self.root_run_id_spec(),
                self.root_run_id == old(self).root_run_id,
                applied(old(self).root_spec(), self.root_spec(), *event),
                self.subflow_map@ == old(self).subflow_map@,
                self.runs_needing_step_updates@ == old(self).runs_needing_step_updates@,
                self.root_terminal_status == old(self).root_terminal_status,
                self.last_sequence == old(self).last_sequence,
                self.recovered_task_ids@ == old(self).recovered_task_ids@,
                self.event_count == old(self).event_count,
                subs0 == old(self).subflow_runs@,
                n == subs0.len(),
                k <= n,
                self.subflow_runs@.len() == n,
                replay_fits(*old(self), *event, None),
                forall|j: int| 0 <= j < n ==> #[trigger] subs0[j].wf(),
                ids_unique(subs0),
                forall|j: int| 0 <= j < k ==> applied(subs0[j], #[trigger] self.subflow_runs@[j], *event),
                forall|j: int| 0 <= j < k ==> #[trigger] self.subflow_runs@[j].wf(),
                forall|j: int| k <= j < n ==> #[trigger] self.subflow_runs@[j] == subs0[j],
            decreases n - k,
        {
            let mut st = self.subflow_runs.remove(k);
            proof {
                assert(st == subs0[k as int]);
                assert(event_fits(subs0[k as int].items().items_spec(), subs0[k as int].run_id_spec(), *event));
            }
            st.apply_event(event);
            let ghost before = self.subflow_runs@;
            self.subflow_runs.insert(k, st);
            proof {
                assert forall|j: int| k < j < n implies #[trigger] self.subflow_runs@[j] == subs0[j] by {
                    assert(self.subflow_runs@[j] == before[j - 1]);
                }
                assert forall|j: int| 0 <= j < k implies #[trigger] self.subflow_runs@[j] == before[j] by {}
            }
            k = k + 1;
        }
        proof {
            assert forall|i: int, j: int|
                0 <= i < j < self.subflow_runs@.len() implies self.subflow_runs@[i].run_id_spec()
                    != self.subflow_runs@[j].run_id_spec() by {
                assert(applied(subs0[i], self.subflow_runs@[i], *event));
                assert(applied(subs0[j], self.subflow_runs@[j], *event));
            }
        }
    }

    /// Whether `event` fits the tree's runs, as [`Replay::apply_event`]
    /// requires.
    pub fn fits(&self, event: &JournalEvent, sub_flow: &Option<Arc<Flow>>) -> (r: bool)
        requires
            self.wf(),
        ensures
            r == replay_fits(*self, *event, *sub_flow),
    {
        if !self.root.accepts(event) {
            return false;
        }
        let mut k: usize = 0;
        while k < self.subflow_runs.len()
            invariant
                self.wf(),
                k <= self.subs_spec().len(),
                forall|j: int|
                    0 <= j < k ==> event_fits(
                        (#[trigger] self.subs_spec()[j]).items().items_spec(),
                        self.subs_spec()[j].run_id_spec(),
                        *event,
                    ),
            decreases self.subs_spec().len() - k,
        {
            if !self.subflow_runs[k].accepts(event) {
                return false;
            }
            k = k + 1;
        }
        let upd = self.updates_fit_exec(event);
        if !upd {
            return false;
        }
        match event {
            JournalEvent::SubRunCreated { run_id, inputs, .. } => {
                if self.find_sub(*run_id).is_none() {
                    match sub_flow {
                        Some(f) => f.steps.len() < usize::MAX && inputs.len() <= 4294967295,
                        None => true,
                    }
                } else {
                    true
                }
            },
            _ => true,
        }
    }

    /// Whether the step indices of `event` are steps of their runs' flows.
    fn updates_fit_exec(&self, event: &JournalEvent) -> (r: bool)
        requires
            self.wf(),
        ensures
            r == updates_fit(*self, *event),
    {
        match event {
            JournalEvent::TasksStarted { runs } => {
                let mut i: usize = 0;
                while i < runs.len()
                    invariant
                        self.wf(),
                        *event == (JournalEvent::TasksStarted { runs: *runs }),
                        i <= runs@.len(),
                        forall|a: int, j: int|
                            0 <= a < i && 0 <= j < runs@[a].tasks@.len() ==> (self.flow_of(runs@[a].run_id) matches Some(f)
                                ==> #[trigger] runs@[a].tasks@[j].step_index < f.steps@.len()),
                    decreases runs@.len() - i,
                {
                    match self.flow_for(runs[i].run_id) {
                        Some(f) => {
                            if !tasks_below(&runs[i].tasks, f.steps.len()) {
                                proof {
                                    let j = choose|b: int| 0 <= b < runs@[i as int].tasks@.len() && !(#[trigger] runs@[i as int].tasks@[b].step_index < f.steps@.len());
                                    assert(runs@[i as int].tasks@[j].step_index >= f.steps@.len());
                                }
                                return false;
                            }
                        },
                        None => {},
                    }
                    i = i + 1;
                }
                true
            },
            JournalEvent::TaskCompleted { run_id, step_index, .. } => match self.flow_for(*run_id) {
                Some(f) => *step_index < f.steps.len(),
                None => true,
            },
            JournalEvent::StepsUnblocked { run_id, step_indices, .. } => match self.flow_for(*run_id) {
                Some(f) => all_below_exec(step_indices, f.steps.len()),
                None => true,
            },
            _ => true,
        }
    }

    /// What replay recovered.
    pub fn finish(self) -> (r: RecoveredState)
        ensures
            r.run_state == self.root_spec(),
            r.subflow_map@ == self.subflow_map_spec(),
            r.subflow_runs@ == self.subs_spec(),
            r.runs_needing_step_updates@.to_set() == self.needing_spec(),
            r.root_terminal_status == self.terminal_spec(),
            r.last_sequence == self.last_sequence_spec(),
            r.recovered_task_ids@ == self.task_ids_spec(),
    {
        RecoveredState {
            run_state: self.root,
            subflow_map: self.subflow_map,
            subflow_runs: self.subflow_runs,
            runs_needing_step_updates: self.runs_needing_step_updates,
            root_terminal_status: self.root_terminal_status,
            last_sequence: self.last_sequence,
            recovered_task_ids: self.recovered_task_ids,
        }
    }

    /// The number of events replayed.
    pub fn event_count(&self) -> (r: usize)
        ensures
            r == self.event_count_spec(),
    {
        self.event_count
    }
}


/// `k` is the position of the first checkpoint of run `id`.
pub open spec fn is_first_run(runs: Seq<RunCheckpoint>, id: u128, k: int) -> bool {
    &&& 0 <= k < runs.len()
    &&& runs[k].run_id == id
    &&& forall|j: int| 0 <= j < k ==> #[trigger] runs[j].run_id != id
}

/// The position of the first checkpoint of run `id`, if there is one.
pub open spec fn first_run_pos(runs: Seq<RunCheckpoint>, id: u128) -> Option<int> {
    if exists|k: int| is_first_run(runs, id, k) {
        Some(choose|k: int| is_first_run(runs, id, k))
    } else {
        None
    }
}

/// Checkpoint `cp` of a sub-flow run can be restored with the flow found
/// for it.
pub open spec fn sub_restorable(cp: RunCheckpoint, flow: Option<Arc<Flow>>) -> bool {
    &&& flow is Some
    &&& flow->0.steps@.len() < usize::MAX
    &&& checkpoint_fits(cp, flow->0.steps@.len())
}

/// The whole checkpoint can be restored: the root run has a checkpoint that
/// fits its flow, and every other run checkpoint has a flow it fits.
pub open spec fn checkpoint_restorable(
    runs: Seq<RunCheckpoint>,
    root_run_id: u128,
    flow: Flow,
    sub_flows: Seq<Option<Arc<Flow>>>,
) -> bool {
    &&& first_run_pos(runs, root_run_id) is Some
    &&& checkpoint_fits(runs[first_run_pos(runs, root_run_id)->0], flow.steps@.len())
    &&& forall|j: int| 0 <= j < runs.len() && #[trigger] runs[j].run_id != root_run_id ==> sub_restorable(
        runs[j],
        sub_flows[j],
    )
}

/// Run checkpoint `k` is a sub-flow run that no later checkpoint of the same
/// run replaces.
pub open spec fn kept_sub(runs: Seq<RunCheckpoint>, root_run_id: u128, k: int) -> bool {
    &&& runs[k].run_id != root_run_id
    &&& forall|j: int| k < j < runs.len() ==> #[trigger] runs[j].run_id != runs[k].run_id
}

/// The positions, among the first `n` run checkpoints, of those kept as
/// sub-flow runs, in checkpoint order.
pub open spec fn kept_subs(runs: Seq<RunCheckpoint>, root_run_id: u128, n: int) -> Seq<int>
    decreases n,
{
    if n <= 0 {
        Seq::empty()
    } else if kept_sub(runs, root_run_id, n - 1) {
        kept_subs(runs, root_run_id, n - 1).push(n - 1)
    } else {
        kept_subs(runs, root_run_id, n - 1)
    }
}

/// Key of a checkpointed sub-flow mapping.
pub open spec fn mapping_key(m: SubflowMapping) -> SubflowKey {
    (m.parent_run_id, m.item_index, m.step_index, m.subflow_key)
}

/// The sub-flow deduplication map after loading checkpointed mappings in
/// order; a later mapping of a key replaces an earlier one.
pub open spec fn mappings_loaded(ms: Seq<SubflowMapping>) -> Seq<(SubflowKey, u128)>
    decreases ms.len(),
{
    if ms.len() == 0 {
        Seq::empty()
    } else {
        assoc_insert(mappings_loaded(ms.drop_last()), mapping_key(ms.last()), ms.last().subflow_run_id)
    }
}

proof fn lemma_kept_subs(runs: Seq<RunCheckpoint>, root_run_id: u128, n: int)
    requires
        0 <= n <= runs.len(),
    ensures
        forall|i: int| 0 <= i < kept_subs(runs, root_run_id, n).len() ==> {
            let k = #[trigger] kept_subs(runs, root_run_id, n)[i];
            0 <= k < n && kept_sub(runs, root_run_id, k)
        },
    decreases n,
{
    if n > 0 {
        lemma_kept_subs(runs, root_run_id, n - 1);
        let prev = kept_subs(runs, root_run_id, n - 1);
        if kept_sub(runs, root_run_id, n - 1) {
            assert forall|i: int| 0 <= i < prev.len() + 1 implies {
                let k = #[trigger] prev.push(n - 1)[i];
                0 <= k < n && kept_sub(runs, root_run_id, k)
            } by {
                if i < prev.len() {
                    assert(prev.push(n - 1)[i] == prev[i]);
                }
            }
        }
    }
}

/// Whether a later run checkpoint than `k` belongs to the same run.
fn later_has_id(runs: &Vec<RunCheckpoint>, k: usize) -> (r: bool)
    requires
        k < runs@.len(),
    ensures
        r <==> exists|j: int| k < j < runs@.len() && #[trigger] runs@[j].run_id == runs@[k as int].run_id,
{
    let id = runs[k].run_id;
    let n = runs.len();
    let mut j: usize = k + 1;
    while j < runs.len()
        invariant
            k < j <= runs@.len(),
            id == runs@[k as int].run_id,
            forall|i: int| k < i < j ==> #[trigger] runs@[i].run_id != id,
        decreases runs@.len() - j,
    {
        if runs[j].run_id == id {
            return true;
        }
        j = j + 1;
    }
    false
}

/// Rebuild the state of an execution tree from its checkpoint: the root run
/// from its first run checkpoint and `flow`; every other run checkpoint with
/// the flow found for it (`sub_flows` is parallel to the checkpoint's runs),
/// where a later checkpoint of a run replaces an earlier one; and the
/// sub-flow deduplication map. Replay of the journal records after the
/// checkpoint's sequence then continues from the result. A checkpoint without
/// the root run, a run without its flow, or a run checkpoint that does not
/// fit its flow makes the checkpoint unusable.
pub fn replay_from_checkpoint(
    root_run_id: u128,
    flow: Arc<Flow>,
    data: &CheckpointData,
    sub_flows: &Vec<Option<Arc<Flow>>>,
) -> (r: Result<Replay, ExecutionError>)
    requires
        flow.steps@.len() < usize::MAX,
        sub_flows@.len() == data.runs@.len(),
    ensures
        r is Ok <==> checkpoint_restorable(data.runs@, root_run_id, *flow, sub_flows@),
        r is Err ==> r == Err::<Replay, ExecutionError>(ExecutionError::CheckpointError),
        r matches Ok(rp) ==> {
            let runs = data.runs@;
            let kept = kept_subs(runs, root_run_id, runs.len() as int);
            &&& rp.wf()
            &&& rp.root_run_id_spec() == root_run_id
            &&& restored_from(rp.root_spec(), runs[first_run_pos(runs, root_run_id)->0], *flow)
            &&& rp.subs_spec().len() == kept.len()
            &&& forall|i: int| 0 <= i < kept.len() ==> restored_from(
                #[trigger] rp.subs_spec()[i],
                runs[kept[i]],
                *sub_flows@[kept[i]]->0,
            )
            &&& rp.subflow_map_spec() == mappings_loaded(data.subflow_map@)
            &&& rp.needing_spec() == Set::<u128>::empty()
            &&& rp.terminal_spec() is None
            &&& rp.last_sequence_spec() is None
            &&& rp.task_ids_spec() == Seq::<(TaskKey, String)>::empty()
            &&& rp.event_count_spec() == 0
        },
{
    let ghost runs = data.runs@;
    let root_at = match data.find_run(root_run_id) {
        Some(k) => k,
        None => {
            proof {
                assert(!exists|k: int| is_first_run(runs, root_run_id, k));
            }
            return Err(ExecutionError::CheckpointError);
        },
    };
    proof {
        assert(is_first_run(runs, root_run_id, root_at as int));
        let c = choose|k: int| is_first_run(runs, root_run_id, k);
        assert(c == root_at as int) by {
            if c < root_at as int {
                assert(runs[c].run_id != root_run_id);
            } else if c > root_at as int {
                assert(runs[root_at as int].run_id != root_run_id);
            }
        }
    }
    let root = match RunState::from_checkpoint(&data.runs[root_at], flow) {
        Ok(st) => st,
        Err(_) => {
            return Err(ExecutionError::CheckpointError);
        },
    };
    let mut replay = Replay::new(root);
    let mut j: usize = 0;
    while j < data.runs.len()
        invariant
            j <= runs.len(),
            runs == data.runs@,
            sub_flows@.len() == runs.len(),
            first_run_pos(runs, root_run_id) == Some(root_at as int),
            replay.wf(),
            replay.root_run_id_spec() == root_run_id,
            restored_from(replay.root_spec(), runs[root_at as int], *flow),
            forall|i: int| 0 <= i < j && #[trigger] runs[i].run_id != root_run_id ==> sub_restorable(
                runs[i],
                sub_flows@[i],
            ),
            replay.subs_spec().len() == kept_subs(runs, root_run_id, j as int).len(),
            forall|i: int| 0 <= i < kept_subs(runs, root_run_id, j as int).len() ==> restored_from(
                #[trigger] replay.subs_spec()[i],
                runs[kept_subs(runs, root_run_id, j as int)[i]],
                *sub_flows@[kept_subs(runs, root_run_id, j as int)[i]]->0,
            ),
            replay.subflow_map_spec() == Seq::<(SubflowKey, u128)>::empty(),
            replay.needing_spec() == Set::<u128>::empty(),
            replay.terminal_spec() is None,
            replay.last_sequence_spec() is None,
            replay.task_ids_spec() == Seq::<(TaskKey, String)>::empty(),
            replay.event_count_spec() == 0,
        decreases runs.len() - j,
    {
        proof {
            lemma_kept_subs(runs, root_run_id, j as int);
        }
        if data.runs[j].run_id != root_run_id {
            let sub_flow = match &sub_flows[j] {
                Some(f) => f.clone(),
                None => {
                    return Err(ExecutionError::CheckpointError);
                },
            };
            if sub_flow.steps.len() == usize::MAX {
                return Err(ExecutionError::CheckpointError);
            }
            let sub = match RunState::from_checkpoint(&data.runs[j], sub_flow) {
                Ok(st) => st,
                Err(_) => {
                    return Err(ExecutionError::CheckpointError);
                },
            };
            if !later_has_id(&data.runs, j) {
                let ghost old_subs = replay.subs_spec();
                let ghost ks = kept_subs(runs, root_run_id, j as int);
                proof {
                    assert(kept_sub(runs, root_run_id, j as int));
                    assert(!exists|k: int| 0 <= k < old_subs.len() && #[trigger] old_subs[k].run_id_spec() == sub.run_id_spec()) by {
                        assert forall|k: int| 0 <= k < old_subs.len() implies #[trigger] old_subs[k].run_id_spec() != sub.run_id_spec() by {
                            let kk = ks[k];
                            assert(kept_sub(runs, root_run_id, kk));
                            assert(restored_from(old_subs[k], runs[kk], *sub_flows@[kk]->0));
                            assert(runs[j as int].run_id != runs[kk].run_id);
                        }
                    }
                }
                replay.insert_sub(sub);
                proof {
                    assert(kept_subs(runs, root_run_id, j + 1) == ks.push(j as int));
                    assert forall|i: int| 0 <= i < ks.len() + 1 implies restored_from(
                        #[trigger] replay.subs_spec()[i],
                        runs[ks.push(j as int)[i]],
                        *sub_flows@[ks.push(j as int)[i]]->0,
                    ) by {
                        if i < ks.len() {
                            assert(replay.subs_spec()[i] == old_subs[i]);
                        }
                    }
                }
            } else {
                proof {
                    assert(!kept_sub(runs, root_run_id, j as int));
                    assert(kept_subs(runs, root_run_id, j + 1) == kept_subs(runs, root_run_id, j as int));
                }
            }
        } else {
            proof {
                assert(!kept_sub(runs, root_run_id, j as int));
                assert(kept_subs(runs, root_run_id, j + 1) == kept_subs(runs, root_run_id, j as int));
            }
        }
        j = j + 1;
    }
    let ghost ms = data.subflow_map@;
    let mut i: usize = 0;
    while i < data.subflow_map.len()
        invariant
            i <= ms.len(),
            ms == data.subflow_map@,
            replay.wf(),
            replay.root_run_id_spec() == root_run_id,
            restored_from(replay.root_spec(), runs[root_at as int], *flow),
            replay.subs_spec().len() == kept_subs(runs, root_run_id, runs.len() as int).len(),
            forall|k: int| 0 <= k < kept_subs(runs, root_run_id, runs.len() as int).len() ==> restored_from(
                #[trigger] replay.subs_spec()[k],
                runs[kept_subs(runs, root_run_id, runs.len() as int)[k]],
                *sub_flows@[kept_subs(runs, root_run_id, runs.len() as int)[k]]->0,
            ),
            replay.subflow_map_spec() == mappings_loaded(ms.take(i as int)),
            replay.needing_spec() == Set::<u128>::empty(),
            replay.terminal_spec() is None,
            replay.last_sequence_spec() is None,
            replay.task_ids_spec() == Seq::<(TaskKey, String)>::empty(),
            replay.event_count_spec() == 0,
        decreases ms.len() - i,
    {
        let m = data.subflow_map[i];
        proof {
            assert(ms.take(i + 1).drop_last() =~= ms.take(i as int));
        }
        replay.insert_mapping((m.parent_run_id, m.item_index, m.step_index, m.subflow_key), m.subflow_run_id);
        i = i + 1;
    }
    proof {
        assert(ms.take(ms.len() as int) =~= ms);
    }
    Ok(replay)
}

/// The journal records after sequence `seq`, in order: the tail that replay
/// applies on top of a checkpoint taken at `seq`.
pub fn entries_after(entries: Vec<(u64, JournalEvent)>, seq: u64) -> (r: Vec<(u64, JournalEvent)>)
    ensures
        r@ == entries@.filter(|e: (u64, JournalEvent)| e.0 > seq),
{
    let ghost p = |e: (u64, JournalEvent)| e.0 > seq;
    let ghost all = entries@;
    let mut rest = entries;
    let mut out: Vec<(u64, JournalEvent)> = Vec::new();
    let ghost mut taken: int = 0;
    while rest.len() > 0
        invariant
            0 <= taken <= all.len(),
            p == (|e: (u64, JournalEvent)| e.0 > seq),
            rest@ == all.skip(taken),
            out@ == all.take(taken).filter(p),
        decreases rest@.len(),
    {
        let e = rest.remove(0);
        proof {
            assert(all.take(taken + 1) =~= all.take(taken).push(all[taken]));
            all.take(taken).lemma_filter_push(all[taken], p);
            assert(rest@ =~= all.skip(taken + 1));
            taken = taken + 1;
        }
        if e.0 > seq {
            out.push(e);
        }
    }
    proof {
        assert(all.take(taken) =~= all);
    }
    out
}

} // verus!
