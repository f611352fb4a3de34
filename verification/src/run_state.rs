//! Per-run execution state: a run (top-level or sub-flow) with its items.

use std::sync::Arc;

use crate::checkpoint::{run_captured, checkpoint_item_view, item_checkpoint_valid, ItemCheckpoint, RunCheckpoint};
use crate::flow::{Flow, FlowResult};
use crate::item_state::{completed_view, ItemState, ItemView};
use crate::items_state::{
    added_all, completion_view, ready_after_completion, ready_list, tasks_for, ItemsState,
};
use crate::journal::{JournalEvent, RunTaskAttempts, TaskAttempt};
use crate::json::{arc_clone, clone_named_values};
use crate::task::Task;
use vstd::prelude::*;

verus! {

/// The event refers to this run and its item and step indices are in range.
pub open spec fn event_fits(items: Seq<ItemState>, run_id: u128, event: JournalEvent) -> bool {
    match event {
        JournalEvent::StepsNeeded { run_id: r, item_index, step_indices } => r == run_id ==> {
            &&& item_index < items.len()
            &&& forall|k: int|
                0 <= k < step_indices@.len() ==> #[trigger] step_indices@[k] < items[item_index as int]@.num_steps
        },
        JournalEvent::TaskCompleted { run_id: r, item_index, step_index, .. } => r == run_id ==> {
            &&& item_index < items.len()
            &&& step_index < items[item_index as int]@.num_steps
        },
        JournalEvent::TasksStarted { runs } => started_fit(items, run_id, runs@),
        _ => true,
    }
}

/// A started task names an item and a step of it.
pub open spec fn attempt_fits(items: Seq<ItemState>, t: TaskAttempt) -> bool {
    t.item_index < items.len() && t.step_index < items[t.item_index as int]@.num_steps
}

/// Every started task of run `run_id` names an item and a step of it.
pub open spec fn started_fit(items: Seq<ItemState>, run_id: u128, runs: Seq<RunTaskAttempts>) -> bool {
    forall|g: int, k: int|
        0 <= g < runs.len() && runs[g].run_id == run_id && 0 <= k < runs[g].tasks@.len() ==> attempt_fits(
            items,
            #[trigger] runs[g].tasks@[k],
        )
}

/// The attempt counts of item `item` after the started `tasks`: each task of
/// the item sets its step's count to its attempt.
pub open spec fn attempts_set(a: Seq<u32>, item: u32, tasks: Seq<TaskAttempt>) -> Seq<u32>
    decreases tasks.len(),
{
    if tasks.len() == 0 {
        a
    } else {
        let prev = attempts_set(a, item, tasks.drop_last());
        let t = tasks.last();
        if t.item_index == item {
            prev.update(t.step_index as int, t.attempt)
        } else {
            prev
        }
    }
}

/// The attempt counts of item `item` of run `run_id` after a `TasksStarted`
/// record of `runs`: the groups of other runs change nothing.
pub open spec fn attempts_started(a: Seq<u32>, run_id: u128, item: u32, runs: Seq<RunTaskAttempts>) -> Seq<u32>
    decreases runs.len(),
{
    if runs.len() == 0 {
        a
    } else {
        let prev = attempts_started(a, run_id, item, runs.drop_last());
        if runs.last().run_id == run_id {
            attempts_set(prev, item, runs.last().tasks@)
        } else {
            prev
        }
    }
}

/// The item views after each recorded completion is applied in turn.
pub open spec fn completions_applied(
    views: Seq<ItemView>,
    cs: Seq<(u32, usize, FlowResult)>,
) -> Seq<ItemView>
    decreases cs.len(),
{
    if cs.len() == 0 {
        views
    } else {
        let prev = completions_applied(views, cs.drop_last());
        let c = cs.last();
        prev.update(c.0 as int, completed_view(prev[c.0 as int], c.1, c.2))
    }
}

/// The views of a sequence of items.
pub open spec fn item_views(items: Seq<ItemState>) -> Seq<ItemView> {
    items.map_values(|it: ItemState| it@)
}

/// `st1` is run `st0` after journal event `event`: the identity, flow and
/// variables stay; `StepsNeeded` for this run asks for the recorded steps of
/// the item, in order; `TaskCompleted` for this run completes the task as
/// execution does; any other event changes nothing.
pub open spec fn applied(st0: RunState, st1: RunState, event: JournalEvent) -> bool {
    let items0 = st0.items().items_spec();
    let items1 = st1.items().items_spec();
    &&& st1.run_id_spec() == st0.run_id_spec()
    &&& st1.flow_id_spec() == st0.flow_id_spec()
    &&& st1.root_run_id_spec() == st0.root_run_id_spec()
    &&& st1.parent_run_id_spec() == st0.parent_run_id_spec()
    &&& st1.flow_spec() == st0.flow_spec()
    &&& st1.items().variables_spec() == st0.items().variables_spec()
    &&& match event {
        JournalEvent::StepsNeeded { run_id, item_index, step_indices } if run_id == st0.run_id_spec() => {
            let i = item_index as int;
            &&& items1 == items0.update(i, items1[i])
            &&& items1[i].same_context(&items0[i])
            &&& items1[i]@ == added_all(items0[i]@, items0[i].graph(), step_indices@)
        },
        JournalEvent::TaskCompleted { run_id, item_index, step_index, result } if run_id == st0.run_id_spec() => {
            let i = item_index as int;
            &&& items1 == items0.update(i, items1[i])
            &&& items1[i].same_context(&items0[i])
            &&& items1[i]@ == completion_view(items0[i], step_index, result)
        },
        JournalEvent::TasksStarted { runs } => {
            &&& items1.len() == items0.len()
            &&& forall|i: int|
                0 <= i < items0.len() ==> {
                    &&& (#[trigger] items1[i]).same_context(&items0[i])
                    &&& items1[i]@ == (ItemView {
                        attempts: attempts_started(items0[i]@.attempts, st0.run_id_spec(), i as u32, runs@),
                        ..items0[i]@
                    })
                }
        },
        _ => items1 == items0,
    }
}

/// The tasks that event `event` made ready, taking run `st0` to `st1`: the
/// item's ready tasks after `StepsNeeded`, the tasks unblocked by
/// `TaskCompleted`, nothing otherwise.
pub open spec fn applied_tasks(st0: RunState, st1: RunState, event: JournalEvent) -> Seq<Task> {
    match event {
        JournalEvent::StepsNeeded { run_id, item_index, .. } if run_id == st0.run_id_spec() => {
            tasks_for(item_index, ready_list(st1.items().items_spec()[item_index as int]@))
        },
        JournalEvent::TaskCompleted { run_id, item_index, step_index, result } if run_id == st0.run_id_spec() => {
            tasks_for(item_index, ready_after_completion(st0.items().items_spec()[item_index as int], step_index, result))
        },
        _ => Seq::empty(),
    }
}

/// Whether every element of `v` is below `n`.
pub fn all_below_exec(v: &Vec<usize>, n: usize) -> (r: bool)
    ensures
        r == (forall|k: int| 0 <= k < v@.len() ==> #[trigger] v@[k] < n),
{
    let mut k: usize = 0;
    while k < v.len()
        invariant
            k <= v@.len(),
            forall|j: int| 0 <= j < k ==> #[trigger] v@[j] < n,
        decreases v@.len() - k,
    {
        if v[k] >= n {
            return false;
        }
        k = k + 1;
    }
    true
}

/// A run checkpoint fits a flow of `n` steps: as many inputs as items, no
/// more items than can be counted, and every item checkpoint well formed.
pub open spec fn checkpoint_fits(cp: RunCheckpoint, n: nat) -> bool {
    &&& cp.inputs@.len() == cp.items@.len()
    &&& cp.items@.len() <= u32::MAX
    &&& forall|i: int| 0 <= i < cp.items@.len() ==> item_checkpoint_valid(#[trigger] cp.items@[i], n)
}

/// `st` is the run rebuilt from checkpoint `cp` with `flow`: the checkpoint's
/// identity, variables and inputs, and each item in its checkpointed state.
pub open spec fn restored_from(st: RunState, cp: RunCheckpoint, flow: Flow) -> bool {
    &&& st.wf()
    &&& st.run_id_spec() == cp.run_id
    &&& st.flow_id_spec() == cp.flow_id@
    &&& st.root_run_id_spec() == cp.root_run_id
    &&& st.parent_run_id_spec() == cp.parent_run_id
    &&& st.flow_spec() == flow
    &&& st.items().variables_spec() == cp.variables@
    &&& st.items().items_spec().len() == cp.items@.len()
    &&& forall|i: int| 0 <= i < cp.items@.len() ==> {
        let it = #[trigger] st.items().items_spec()[i];
        &&& it.flow_spec() == flow
        &&& it.input_spec() == cp.inputs@[i]
        &&& it@ == checkpoint_item_view(cp.items@[i], flow.steps@.len())
    }
}

/// Per-run execution state.
pub struct RunState {
    run_id: u128,
    flow_id: String,
    root_run_id: u128,
    parent_run_id: Option<u128>,
    flow: Arc<Flow>,
    items_state: ItemsState,
}

impl RunState {
    pub closed spec fn run_id_spec(&self) -> u128 {
        self.run_id
    }

    pub closed spec fn flow_id_spec(&self) -> Seq<char> {
        self.flow_id@
    }

    pub closed spec fn root_run_id_spec(&self) -> u128 {
        self.root_run_id
    }

    pub closed spec fn parent_run_id_spec(&self) -> Option<u128> {
        self.parent_run_id
    }

    pub closed spec fn flow_spec(&self) -> Flow {
        *self.flow
    }

    /// The state of the run's items.
    pub closed spec fn items(&self) -> ItemsState {
        self.items_state
    }

    pub closed spec fn wf(&self) -> bool {
        &&& self.items_state.wf()
        &&& self.items_state.run_id_spec() == self.run_id
        &&& forall|i: int|
            0 <= i < self.items_state.items_spec().len() ==> #[trigger] self.items_state.items_spec()[i].flow_spec()
                == *self.flow
    }

    /// Facts of a well-formed run: its items are well formed and run its
    /// flow.
    pub proof fn lemma_wf(&self)
        requires
            self.wf(),
        ensures
            self.items().wf(),
            self.items().items_spec().len() <= u32::MAX,
            forall|i: int| 0 <= i < self.items().items_spec().len() ==> #[trigger] self.items().items_spec()[i].wf(),
            forall|i: int|
                0 <= i < self.items().items_spec().len() ==> #[trigger] self.items().items_spec()[i].flow_spec()
                    == self.flow_spec(),
            forall|i: int|
                0 <= i < self.items().items_spec().len() ==> #[trigger] self.items().items_spec()[i]@.num_steps
                    == self.flow_spec().steps@.len(),
    {
        self.items_state.lemma_wf();
        assert forall|i: int|
            0 <= i < self.items().items_spec().len() implies #[trigger] self.items().items_spec()[i]@.num_steps
                == self.flow_spec().steps@.len() by {
            self.items_state.items_spec()[i].lemma_wf();
        }
    }

    /// Create a new top-level run state: one item per input, the run its own
    /// root.
    pub fn new(
        run_id: u128,
        flow_id: String,
        flow: Arc<Flow>,
        inputs: Vec<serde_json::Value>,
        variables: Vec<(String, serde_json::Value)>,
    ) -> (r: Self)
        requires
            flow.steps@.len() < usize::MAX,
            inputs@.len() <= u32::MAX,
        ensures
            r.wf(),
            r.run_id_spec() == run_id,
            r.flow_id_spec() == flow_id@,
            r.root_run_id_spec() == run_id,
            r.parent_run_id_spec() is None,
            r.flow_spec() == *flow,
            r.items().variables_spec() == variables@,
            r.items().items_spec().len() == inputs@.len(),
            forall|i: int| 0 <= i < inputs@.len() ==> #[trigger] r.items().items_spec()[i].flow_spec() == *flow,
            forall|i: int| 0 <= i < inputs@.len() ==> #[trigger] r.items().items_spec()[i].input_spec() == inputs@[i],
            forall|i: int|
                0 <= i < inputs@.len() ==> (#[trigger] r.items().items_spec()[i])@ == ItemState::initial_view(flow.steps@.len()),
    {
        let items_state = ItemsState::batch(run_id, arc_clone(&flow), inputs, variables);
        RunState { run_id, flow_id, root_run_id: run_id, parent_run_id: None, flow, items_state }
    }

    /// Create a new sub-flow run state.
    pub fn new_subflow(
        run_id: u128,
        flow_id: String,
        root_run_id: u128,
        parent_run_id: u128,
        flow: Arc<Flow>,
        inputs: Vec<serde_json::Value>,
        variables: Vec<(String, serde_json::Value)>,
    ) -> (r: Self)
        requires
            flow.steps@.len() < usize::MAX,
            inputs@.len() <= u32::MAX,
        ensures
            r.wf(),
            r.run_id_spec() == run_id,
            r.flow_id_spec() == flow_id@,
            r.root_run_id_spec() == root_run_id,
            r.parent_run_id_spec() == Some(parent_run_id),
            r.flow_spec() == *flow,
            r.items().variables_spec() == variables@,
            r.items().items_spec().len() == inputs@.len(),
            forall|i: int| 0 <= i < inputs@.len() ==> #[trigger] r.items().items_spec()[i].flow_spec() == *flow,
            forall|i: int| 0 <= i < inputs@.len() ==> #[trigger] r.items().items_spec()[i].input_spec() == inputs@[i],
            forall|i: int|
                0 <= i < inputs@.len() ==> (#[trigger] r.items().items_spec()[i])@ == ItemState::initial_view(flow.steps@.len()),
    {
        let items_state = ItemsState::batch(run_id, arc_clone(&flow), inputs, variables);
        RunState {
            run_id,
            flow_id,
            root_run_id,
            parent_run_id: Some(parent_run_id),
            flow,
            items_state,
        }
    }

    /// Get the run ID.
    pub fn run_id(&self) -> (r: u128)
        ensures
            r == self.run_id_spec(),
    {
        self.run_id
    }

    /// Get the flow ID.
    pub fn flow_id(&self) -> (r: &String)
        ensures
            r@ == self.flow_id_spec(),
    {
        &self.flow_id
    }

    /// Get the root run ID.
    pub fn root_run_id(&self) -> (r: u128)
        ensures
            r == self.root_run_id_spec(),
    {
        self.root_run_id
    }

    /// Get the parent run ID (None for top-level runs).
    pub fn parent_run_id(&self) -> (r: Option<u128>)
        ensures
            r == self.parent_run_id_spec(),
    {
        self.parent_run_id
    }

    /// Get a reference to the items state.
    pub fn items_state(&self) -> (r: &ItemsState)
        ensures
            *r == self.items(),
    {
        &self.items_state
    }

    /// Get a mutable reference to the items state.
    pub fn items_state_mut(&mut self) -> (r: &mut ItemsState)
        ensures
            *r == old(self).items(),
            final(self).items() == *final(r),
            final(self).run_id_spec() == old(self).run_id_spec(),
            final(self).flow_id_spec() == old(self).flow_id_spec(),
            final(self).root_run_id_spec() == old(self).root_run_id_spec(),
            final(self).parent_run_id_spec() == old(self).parent_run_id_spec(),
            final(self).flow_spec() == old(self).flow_spec(),
    {
        &mut self.items_state
    }

    /// Check if the run is complete (all items done).
    pub fn is_complete(&self) -> (r: bool)
        requires
            self.wf(),
        ensures
            r == (crate::items_state::count_incomplete(self.items().items_spec()) == 0),
    {
        self.items_state.incomplete() == 0
    }

    /// Get the number of items in this run.
    pub fn item_count(&self) -> (r: u32)
        requires
            self.wf(),
        ensures
            r == self.items().items_spec().len(),
    {
        self.items_state.item_count()
    }

    /// Get the flow for this run.
    pub fn flow(&self) -> (r: Arc<Flow>)
        ensures
            *r == self.flow_spec(),
    {
        arc_clone(&self.flow)
    }

    /// Get the inputs for this run: the input of each item.
    pub fn inputs(&self) -> (r: Vec<serde_json::Value>)
        requires
            self.wf(),
        ensures
            r@.len() == self.items().items_spec().len(),
            forall|i: int| 0 <= i < r@.len() ==> #[trigger] r@[i] == self.items().items_spec()[i].input_spec(),
    {
        let n = self.items_state.item_count();
        let mut out: Vec<serde_json::Value> = Vec::new();
        let mut i: u32 = 0;
        while i < n
            invariant
                self.wf(),
                n == self.items().items_spec().len(),
                i <= n,
                out@.len() == i,
                forall|j: int| 0 <= j < i ==> #[trigger] out@[j] == self.items().items_spec()[j].input_spec(),
            decreases n - i,
        {
            out.push(self.items_state.item(i).input().clone());
            i = i + 1;
        }
        out
    }

    /// Get the variables for this run.
    pub fn variables(&self) -> (r: &Vec<(String, serde_json::Value)>)
        ensures
            r@ == self.items().variables_spec(),
    {
        self.items_state.variables()
    }

    /// Initialize all items and return ready tasks.
    pub fn initialize_all(&mut self) -> (r: Vec<Task>)
        requires
            old(self).wf(),
        ensures
            final(self).wf(),
            final(self).run_id_spec() == old(self).run_id_spec(),
            final(self).flow_id_spec() == old(self).flow_id_spec(),
            final(self).root_run_id_spec() == old(self).root_run_id_spec(),
            final(self).parent_run_id_spec() == old(self).parent_run_id_spec(),
            final(self).flow_spec() == old(self).flow_spec(),
            final(self).items().variables_spec() == old(self).items().variables_spec(),
            final(self).items().items_spec().len() == old(self).items().items_spec().len(),
            forall|j: int|
                0 <= j < old(self).items().items_spec().len() ==> {
                    &&& #[trigger] final(self).items().items_spec()[j].same_context(&old(self).items().items_spec()[j])
                    &&& final(self).items().items_spec()[j]@ == crate::items_state::initialized_view(old(self).items().items_spec()[j])
                },
            r@ == crate::items_state::ready_tasks_upto(final(self).items().items_spec(), final(self).items().items_spec().len()),
    {
        let r = self.items_state.initialize_all();
        proof {
            assert forall|j: int| 0 <= j < self.items_state.items_spec().len() implies #[trigger] self.items_state.items_spec()[j].flow_spec()
                == *self.flow by {
                assert(self.items_state.items_spec()[j].same_context(&old(self).items_state.items_spec()[j]));
            }
        }
        r
    }

    /// Apply a journal event to the run's state and return the tasks that
    /// became ready.
    ///
    /// Events of other runs change nothing. `StepsNeeded` asks for the
    /// recorded steps of the item, in order, and returns the item's ready
    /// tasks; `TaskCompleted` completes the task as execution does and returns
    /// the tasks it made ready; `TasksStarted` sets the attempt count of each
    /// started task of this run to its recorded attempt. Every other event is
    /// informational.
    pub fn apply_event(&mut self, event: &JournalEvent) -> (r: Vec<Task>)
        requires
            old(self).wf(),
            event_fits(old(self).items().items_spec(), old(self).run_id_spec(), *event),
        ensures
            final(self).wf(),
            applied(*old(self), *final(self), *event),
            r@ == applied_tasks(*old(self), *final(self), *event),
    {
        match event {
            JournalEvent::StepsNeeded { run_id, item_index, step_indices } => {
                if *run_id == self.run_id {
                    self.items_state.initialize_item_with_steps(*item_index, step_indices)
                } else {
                    Vec::new()
                }
            },
            JournalEvent::TaskCompleted { run_id, item_index, step_index, result } => {
                if *run_id == self.run_id {
                    let task = Task::new(*item_index, *step_index);
                    self.items_state.complete_task_and_get_ready(task, result.clone())
                } else {
                    Vec::new()
                }
            },
            JournalEvent::TasksStarted { runs } => {
                self.apply_started(runs);
                Vec::new()
            },
            _ => Vec::new(),
        }
    }

    /// Set the attempt counts that a `TasksStarted` record of `runs` gives
    /// the tasks of this run.
    fn apply_started(&mut self, runs: &Vec<RunTaskAttempts>)
        requires
            old(self).wf(),
            event_fits(old(self).items().items_spec(), old(self).run_id_spec(), JournalEvent::TasksStarted { runs: *runs }),
        ensures
            final(self).wf(),
            applied(*old(self), *final(self), JournalEvent::TasksStarted { runs: *runs }),
    {
        let ghost items0 = self.items().items_spec();
        let ghost rid = self.run_id;
        let ghost st0 = *self;
        proof {
            assert(started_fit(items0, rid, runs@));
            assert(runs@.take(0) =~= Seq::<RunTaskAttempts>::empty());
            assert forall|i: int| 0 <= i < items0.len() implies (#[trigger] items0[i])@ == (ItemView {
                attempts: attempts_started(items0[i]@.attempts, rid, i as u32, runs@.take(0)),
                ..items0[i]@
            }) by {}
        }
        let mut g: usize = 0;
        while g < runs.len()
            invariant
                self.wf(),
                self.run_id == rid,
                rid == st0.run_id_spec(),
                self.flow_id@ == st0.flow_id_spec(),
                self.root_run_id == st0.root_run_id_spec(),
                self.parent_run_id == st0.parent_run_id_spec(),
                *self.flow == st0.flow_spec(),
                self.items().variables_spec() == st0.items().variables_spec(),
                items0 == st0.items().items_spec(),
                g <= runs@.len(),
                started_fit(items0, rid, runs@),
                self.items().items_spec().len() == items0.len(),
                forall|i: int|
                    0 <= i < items0.len() ==> {
                        &&& (#[trigger] self.items().items_spec()[i]).same_context(&items0[i])
                        &&& self.items().items_spec()[i]@ == (ItemView {
                            attempts: attempts_started(items0[i]@.attempts, rid, i as u32, runs@.take(g as int)),
                            ..items0[i]@
                        })
                    },
            decreases runs@.len() - g,
        {
            proof {
                assert(runs@.take(g + 1).drop_last() =~= runs@.take(g as int));
                assert(runs@.take(g + 1).last() == runs@[g as int]);
            }
            if runs[g].run_id == self.run_id {
                let tasks = &runs[g].tasks;
                let ghost base = Seq::new(items0.len(), |i: int| attempts_started(items0[i]@.attempts, rid, i as u32, runs@.take(g as int)));
                proof {
                    assert(tasks@.take(0) =~= Seq::<TaskAttempt>::empty());
                }
                let mut k: usize = 0;
                while k < tasks.len()
                    invariant
                        self.wf(),
                        self.run_id == rid,
                        rid == st0.run_id_spec(),
                        self.flow_id@ == st0.flow_id_spec(),
                        self.root_run_id == st0.root_run_id_spec(),
                        self.parent_run_id == st0.parent_run_id_spec(),
                        *self.flow == st0.flow_spec(),
                        self.items().variables_spec() == st0.items().variables_spec(),
                        items0 == st0.items().items_spec(),
                        g < runs@.len(),
                        *tasks == runs@[g as int].tasks,
                        runs@[g as int].run_id == rid,
                        base == Seq::new(items0.len(), |i: int| attempts_started(items0[i]@.attempts, rid, i as u32, runs@.take(g as int))),
                        k <= tasks@.len(),
                        started_fit(items0, rid, runs@),
                        self.items().items_spec().len() == items0.len(),
                        forall|i: int|
                            0 <= i < items0.len() ==> {
                                &&& (#[trigger] self.items().items_spec()[i]).same_context(&items0[i])
                                &&& self.items().items_spec()[i]@ == (ItemView {
                                    attempts: attempts_set(base[i], i as u32, tasks@.take(k as int)),
                                    ..items0[i]@
                                })
                            },
                    decreases tasks@.len() - k,
                {
                    let t = &tasks[k];
                    proof {
                        assert(runs@[g as int].tasks@[k as int] == tasks@[k as int]);
                        assert(attempt_fits(items0, runs@[g as int].tasks@[k as int]));
                        assert(self.items().items_spec()[t.item_index as int]@.num_steps == items0[t.item_index as int]@.num_steps);
                        self.lemma_wf();
                        assert(tasks@.take(k + 1).drop_last() =~= tasks@.take(k as int));
                        assert(tasks@.take(k + 1).last() == tasks@[k as int]);
                    }
                    let ghost before = self.items().items_spec();
                    self.items_state.set_attempt(Task::new(t.item_index, t.step_index), t.attempt);
                    proof {
                        assert forall|i: int| 0 <= i < items0.len() implies {
                            &&& (#[trigger] self.items().items_spec()[i]).same_context(&items0[i])
                            &&& self.items().items_spec()[i]@ == (ItemView {
                                attempts: attempts_set(base[i], i as u32, tasks@.take(k + 1)),
                                ..items0[i]@
                            })
                        } by {
                            if i != t.item_index as int {
                                assert(self.items().items_spec()[i] == before[i]);
                            }
                        }
                    }
                    k = k + 1;
                }
                proof {
                    assert(tasks@.take(tasks@.len() as int) =~= tasks@);
                }
            }
            g = g + 1;
        }
        proof {
            assert(runs@.take(runs@.len() as int) =~= runs@);
        }
    }

    /// Snapshot the run: its identity, inputs, variables and the checkpoint of
    /// each item, in order.
    pub fn to_checkpoint(&self) -> (r: RunCheckpoint)
        requires
            self.wf(),
        ensures
            run_captured(r, *self),
            r.run_id == self.run_id_spec(),
            r.flow_id@ == self.flow_id_spec(),
            r.root_run_id == self.root_run_id_spec(),
            r.parent_run_id == self.parent_run_id_spec(),
            r.variables@ == self.items().variables_spec(),
            r.inputs@.len() == self.items().items_spec().len(),
            r.items@.len() == self.items().items_spec().len(),
            forall|i: int|
                0 <= i < r.inputs@.len() ==> #[trigger] r.inputs@[i] == self.items().items_spec()[i].input_spec(),
            forall|i: int|
                0 <= i < r.items@.len() ==> {
                    let it = self.items().items_spec()[i];
                    &&& item_checkpoint_valid(#[trigger] r.items@[i], it@.num_steps)
                    &&& checkpoint_item_view(r.items@[i], it@.num_steps) == (ItemView { executing: Set::<usize>::empty(), ..it@ })
                },
    {
        proof {
            self.items_state.lemma_wf();
        }
        let n = self.items_state.item_count();
        let mut items: Vec<ItemCheckpoint> = Vec::new();
        let mut i: u32 = 0;
        while i < n
            invariant
                self.wf(),
                n == self.items().items_spec().len(),
                i <= n,
                items@.len() == i,
                forall|j: int| 0 <= j < self.items().items_spec().len() ==> #[trigger] self.items().items_spec()[j].wf(),
                forall|j: int|
                    0 <= j < i ==> {
                        let it = self.items().items_spec()[j];
                        &&& item_checkpoint_valid(#[trigger] items@[j], it@.num_steps)
                        &&& checkpoint_item_view(items@[j], it@.num_steps) == (ItemView { executing: Set::<usize>::empty(), ..it@ })
                    },
            decreases n - i,
        {
            items.push(self.items_state.item(i).to_checkpoint());
            i = i + 1;
        }
        let r = RunCheckpoint {
            run_id: self.run_id,
            flow_id: self.flow_id.clone(),
            root_run_id: self.root_run_id,
            parent_run_id: self.parent_run_id,
            inputs: self.inputs(),
            variables: clone_named_values(self.items_state.variables()),
            items,
        };
        proof {
            reveal(run_captured);
        }
        r
    }

    /// Rebuild a run from its checkpoint and its flow. Fails when the
    /// checkpoint does not fit the flow: an item checkpoint that is not well
    /// formed for the flow's steps, or a different number of inputs and items.
    pub fn from_checkpoint(cp: &RunCheckpoint, flow: Arc<Flow>) -> (r: Result<RunState, String>)
        requires
            flow.steps@.len() < usize::MAX,
        ensures
            r is Ok <==> checkpoint_fits(*cp, flow.steps@.len()),
            r matches Ok(st) ==> restored_from(st, *cp, *flow),
    {
        if cp.inputs.len() != cp.items.len() {
            return Err("checkpoint has a different number of inputs and items".to_owned());
        }
        if cp.items.len() > 4294967295 {
            return Err("checkpoint has too many items".to_owned());
        }
        let n = flow.steps.len();
        let mut k: usize = 0;
        while k < cp.items.len()
            invariant
                k <= cp.items@.len(),
                n == flow.steps@.len(),
                forall|j: int| 0 <= j < k ==> item_checkpoint_valid(#[trigger] cp.items@[j], n as nat),
            decreases cp.items@.len() - k,
        {
            if !crate::item_state::item_checkpoint_is_valid(&cp.items[k], n) {
                return Err("item checkpoint does not match the flow".to_owned());
            }
            k = k + 1;
        }
        let mut items_state = ItemsState::new(cp.run_id, clone_named_values(&cp.variables));
        let variables = items_state.shared_variables();
        let mut k: usize = 0;
        while k < cp.items.len()
            invariant
                items_state.wf(),
                items_state.run_id_spec() == cp.run_id,
                items_state.variables_spec() == cp.variables@,
                variables@ == cp.variables@,
                k <= cp.items@.len(),
                cp.items@.len() <= u32::MAX,
                cp.inputs@.len() == cp.items@.len(),
                n == flow.steps@.len(),
                n < usize::MAX,
                items_state.items_spec().len() == k,
                forall|j: int| 0 <= j < cp.items@.len() ==> item_checkpoint_valid(#[trigger] cp.items@[j], n as nat),
                forall|j: int| 0 <= j < k ==> {
                    let it = #[trigger] items_state.items_spec()[j];
                    &&& it.flow_spec() == *flow
                    &&& it.input_spec() == cp.inputs@[j]
                    &&& it@ == checkpoint_item_view(cp.items@[j], n as nat)
                },
            decreases cp.items@.len() - k,
        {
            let item = ItemState::from_checkpoint(&cp.items[k], arc_clone(&flow), cp.inputs[k].clone(), arc_clone(&variables));
            match item {
                Ok(it) => {
                    let ghost before = items_state.items_spec();
                    items_state.push_item(it);
                    proof {
                        assert forall|j: int| 0 <= j < k implies #[trigger] items_state.items_spec()[j] == before[j] by {}
                    }
                },
                Err(e) => {
                    return Err(e);
                },
            }
            k = k + 1;
        }
        Ok(RunState {
            run_id: cp.run_id,
            flow_id: cp.flow_id.clone(),
            root_run_id: cp.root_run_id,
            parent_run_id: cp.parent_run_id,
            flow,
            items_state,
        })
    }

    /// Complete a task of the run with its result; returns the tasks it made
    /// ready.
    pub fn complete_task(&mut self, task: Task, result: FlowResult) -> (r: Vec<Task>)
        requires
            old(self).wf(),
            task.item_index < old(self).items().items_spec().len(),
            task.step_index < old(self).flow_spec().steps@.len(),
        ensures
            final(self).wf(),
            ({
                let i = task.item_index as int;
                let items0 = old(self).items().items_spec();
                let items1 = final(self).items().items_spec();
                &&& final(self).run_id_spec() == old(self).run_id_spec()
                &&& final(self).flow_id_spec() == old(self).flow_id_spec()
                &&& final(self).root_run_id_spec() == old(self).root_run_id_spec()
                &&& final(self).parent_run_id_spec() == old(self).parent_run_id_spec()
                &&& final(self).flow_spec() == old(self).flow_spec()
                &&& final(self).items().variables_spec() == old(self).items().variables_spec()
                &&& items1 == items0.update(i, items1[i])
                &&& items1[i].same_context(&items0[i])
                &&& items1[i]@ == completion_view(items0[i], task.step_index, result)
                &&& r@ == tasks_for(task.item_index, ready_after_completion(items0[i], task.step_index, result))
            }),
    {
        proof {
            self.lemma_wf();
        }
        let r = self.items_state.complete_task_and_get_ready(task, result);
        proof {
            assert forall|j: int| 0 <= j < self.items_state.items_spec().len() implies #[trigger] self.items_state.items_spec()[j].flow_spec()
                == *self.flow by {
                if j != task.item_index as int {
                    assert(self.items_state.items_spec()[j] == old(self).items_state.items_spec()[j]);
                }
            }
        }
        r
    }

    /// Count one more attempt of a task; returns its attempt number.
    pub fn record_attempt(&mut self, task: Task) -> (r: u32)
        requires
            old(self).wf(),
            task.item_index < old(self).items().items_spec().len(),
            task.step_index < old(self).flow_spec().steps@.len(),
        ensures
            final(self).wf(),
            ({
                let i = task.item_index as int;
                let items0 = old(self).items().items_spec();
                let items1 = final(self).items().items_spec();
                let v = items0[i]@;
                &&& final(self).run_id_spec() == old(self).run_id_spec()
                &&& final(self).flow_id_spec() == old(self).flow_id_spec()
                &&& final(self).root_run_id_spec() == old(self).root_run_id_spec()
                &&& final(self).parent_run_id_spec() == old(self).parent_run_id_spec()
                &&& final(self).flow_spec() == old(self).flow_spec()
                &&& final(self).items().variables_spec() == old(self).items().variables_spec()
                &&& items1 == items0.update(i, items1[i])
                &&& items1[i].same_context(&items0[i])
                &&& r == (if v.attempts[task.step_index as int] < u32::MAX {
                    (v.attempts[task.step_index as int] + 1) as u32
                } else {
                    v.attempts[task.step_index as int]
                })
                &&& items1[i]@ == (ItemView { attempts: v.attempts.update(task.step_index as int, r), ..v })
            }),
    {
        proof {
            self.lemma_wf();
        }
        let r = self.items_state.record_attempt(task);
        proof {
            assert forall|j: int| 0 <= j < self.items_state.items_spec().len() implies #[trigger] self.items_state.items_spec()[j].flow_spec()
                == *self.flow by {
                if j != task.item_index as int {
                    assert(self.items_state.items_spec()[j] == old(self).items_state.items_spec()[j]);
                }
            }
        }
        r
    }

    /// Whether `event` fits this run: where it names this run, its item and
    /// step indices are in range.
    pub fn accepts(&self, event: &JournalEvent) -> (r: bool)
        requires
            self.wf(),
        ensures
            r == event_fits(self.items().items_spec(), self.run_id_spec(), *event),
    {
        proof {
            self.lemma_wf();
        }
        match event {
            JournalEvent::StepsNeeded { run_id, item_index, step_indices } => {
                if *run_id != self.run_id {
                    return true;
                }
                if *item_index >= self.items_state.item_count() {
                    return false;
                }
                let n = self.items_state.item(*item_index).num_steps();
                let ok = all_below_exec(step_indices, n);
                proof {
                    assert(ok == (forall|k: int|
                        0 <= k < step_indices@.len() ==> #[trigger] step_indices@[k] < self.items().items_spec()[*item_index as int]@.num_steps));
                }
                ok
            },
            JournalEvent::TaskCompleted { run_id, item_index, step_index, .. } => {
                if *run_id != self.run_id {
                    return true;
                }
                if *item_index >= self.items_state.item_count() {
                    return false;
                }
                *step_index < self.items_state.item(*item_index).num_steps()
            },
            JournalEvent::TasksStarted { runs } => {
                let n_items = self.items_state.item_count();
                let n_steps = self.flow.steps.len();
                let mut g: usize = 0;
                while g < runs.len()
                    invariant
                        self.wf(),
                        n_items == self.items().items_spec().len(),
                        n_steps == self.flow_spec().steps@.len(),
                        forall|i: int|
                            0 <= i < self.items().items_spec().len() ==> #[trigger] self.items().items_spec()[i]@.num_steps
                                == self.flow_spec().steps@.len(),
                        *event == (JournalEvent::TasksStarted { runs: *runs }),
                        g <= runs@.len(),
                        forall|g2: int, k: int|
                            0 <= g2 < g && 0 <= k < runs@[g2].tasks@.len() && runs@[g2].run_id == self.run_id_spec() ==> {
                                &&& (#[trigger] runs@[g2].tasks@[k]).item_index < n_items
                                &&& runs@[g2].tasks@[k].step_index < n_steps
                            },
                    decreases runs@.len() - g,
                {
                    if runs[g].run_id == self.run_id {
                        let tasks = &runs[g].tasks;
                        let mut k: usize = 0;
                        while k < tasks.len()
                            invariant
                                n_items == self.items().items_spec().len(),
                                n_steps == self.flow_spec().steps@.len(),
                                forall|i: int|
                                    0 <= i < self.items().items_spec().len() ==> #[trigger] self.items().items_spec()[i]@.num_steps
                                        == self.flow_spec().steps@.len(),
                                *event == (JournalEvent::TasksStarted { runs: *runs }),
                                g < runs@.len(),
                                *tasks == runs@[g as int].tasks,
                                runs@[g as int].run_id == self.run_id_spec(),
                                k <= tasks@.len(),
                                forall|k2: int|
                                    0 <= k2 < k ==> {
                                        &&& (#[trigger] runs@[g as int].tasks@[k2]).item_index < n_items
                                        &&& runs@[g as int].tasks@[k2].step_index < n_steps
                                    },
                            decreases tasks@.len() - k,
                        {
                            if tasks[k].item_index >= n_items || tasks[k].step_index >= n_steps {
                                proof {
                                    let t = runs@[g as int].tasks@[k as int];
                                    assert(t == tasks@[k as int]);
                                    assert(!(t.item_index < n_items && t.step_index < n_steps));
                                    let items = self.items().items_spec();
                                    if t.item_index < n_items {
                                        assert(items[t.item_index as int]@.num_steps == n_steps);
                                    }
                                    assert(!attempt_fits(items, t));
                                }
                                return false;
                            }
                            k = k + 1;
                        }
                    }
                    g = g + 1;
                }
                true
            },
            _ => true,
        }
    }

    /// Reconstruct a run state from recovery data: create the run (a sub-flow
    /// when a parent is given) and record each completed task, before
    /// initialization.
    pub fn from_recovery_data(
        run_id: u128,
        flow_id: String,
        flow: Arc<Flow>,
        inputs: Vec<serde_json::Value>,
        variables: Vec<(String, serde_json::Value)>,
        completed_tasks: &[(u32, usize, FlowResult)],
        root_run_id: u128,
        parent_run_id: Option<u128>,
    ) -> (r: Self)
        requires
            flow.steps@.len() < usize::MAX,
            inputs@.len() <= u32::MAX,
            forall|k: int|
                0 <= k < completed_tasks@.len() ==> (#[trigger] completed_tasks@[k]).0 < inputs@.len()
                    && completed_tasks@[k].1 < flow.steps@.len(),
        ensures
            r.wf(),
            r.run_id_spec() == run_id,
            r.flow_id_spec() == flow_id@,
            r.root_run_id_spec() == (if parent_run_id is Some { root_run_id } else { run_id }),
            r.parent_run_id_spec() == parent_run_id,
            r.flow_spec() == *flow,
            r.items().variables_spec() == variables@,
            r.items().items_spec().len() == inputs@.len(),
            forall|i: int| 0 <= i < inputs@.len() ==> #[trigger] r.items().items_spec()[i].flow_spec() == *flow,
            forall|i: int| 0 <= i < inputs@.len() ==> #[trigger] r.items().items_spec()[i].input_spec() == inputs@[i],
            item_views(r.items().items_spec()) == completions_applied(
                Seq::new(inputs@.len(), |i: int| ItemState::initial_view(flow.steps@.len())),
                completed_tasks@,
            ),
    {
        let ghost n_items = inputs@.len();
        let ghost in_seq = inputs@;
        let ghost ns = flow.steps@.len();
        let mut state = match parent_run_id {
            Some(parent) => Self::new_subflow(run_id, flow_id, root_run_id, parent, flow, inputs, variables),
            None => Self::new(run_id, flow_id, flow, inputs, variables),
        };
        let ghost init = Seq::new(n_items, |i: int| ItemState::initial_view(ns));
        let ghost fl = state.flow_spec();
        let ghost ins = in_seq;
        proof {
            assert forall|i: int| 0 <= i < n_items implies #[trigger] item_views(state.items().items_spec())[i] == init[i] by {
                assert(state.items().items_spec()[i]@ == ItemState::initial_view(ns));
            }
            assert(item_views(state.items().items_spec()) =~= init);
            assert(completed_tasks@.take(0) =~= Seq::<(u32, usize, FlowResult)>::empty());
        }
        let mut k: usize = 0;
        while k < completed_tasks.len()
            invariant
                state.wf(),
                state.run_id_spec() == run_id,
                state.flow_id_spec() == flow_id@,
                state.root_run_id_spec() == (if parent_run_id is Some { root_run_id } else { run_id }),
                state.parent_run_id_spec() == parent_run_id,
                state.flow_spec() == fl,
                state.items().variables_spec() == variables@,
                state.items().items_spec().len() == n_items,
                ins.len() == n_items,
                forall|i: int| 0 <= i < n_items ==> #[trigger] state.items().items_spec()[i].flow_spec() == fl,
                forall|i: int| 0 <= i < n_items ==> #[trigger] state.items().items_spec()[i].input_spec() == ins[i],
                forall|i: int| 0 <= i < n_items ==> (#[trigger] state.items().items_spec()[i])@.num_steps == ns,
                k <= completed_tasks@.len(),
                forall|k: int|
                    0 <= k < completed_tasks@.len() ==> (#[trigger] completed_tasks@[k]).0 < n_items
                        && completed_tasks@[k].1 < ns,
                fl.steps@.len() == ns,
                item_views(state.items().items_spec()) == completions_applied(init, completed_tasks@.take(k as int)),
            decreases completed_tasks@.len() - k,
        {
            let (item_index, step_index, result) = &completed_tasks[k];
            let ghost before = state.items().items_spec();
            state.items_state.apply_completed(*item_index, *step_index, result.clone());
            proof {
                let t = completed_tasks@.take(k + 1);
                assert(t.drop_last() =~= completed_tasks@.take(k as int));
                assert(t.last() == completed_tasks@[k as int]);
                assert(item_views(state.items().items_spec()) =~= completions_applied(init, t));
                assert forall|i: int| 0 <= i < n_items implies (#[trigger] state.items().items_spec()[i]).flow_spec() == fl
                    && state.items().items_spec()[i].input_spec() == ins[i]
                    && state.items().items_spec()[i]@.num_steps == ns by {
                    if i != *item_index as int {
                        assert(state.items().items_spec()[i] == before[i]);
                    }
                }
            }
            k = k + 1;
        }
        proof {
            assert(completed_tasks@.take(completed_tasks@.len() as int) =~= completed_tasks@);
        }
        state
    }
}

} // verus!
