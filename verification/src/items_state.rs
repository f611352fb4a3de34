//! Cross-item execution coordinator: the items of one run, the tasks that are
//! ready across them, and how many items are still incomplete.

use std::sync::Arc;

use crate::bitset::{
    bit_members, bitset_contains, bitset_is_empty, bitset_to_vec, lemma_seq_to_set,
    lemma_sorted_below, lemma_sorted_unique, sorted_below,
};
use crate::deps::{lemma_expr_refs_bound, reach_set, DepGraph};
use crate::flow::{expr_refs, Flow, FlowResult, Step};
use crate::item_state::{
    added_view, completed_view, ready_set, unblocked_by, view_complete, ItemState, ItemView,
};
use crate::json::arc_clone;
use crate::task::Task;
use vstd::prelude::*;

verus! {

/// The number of items that are not complete.
pub open spec fn count_incomplete(items: Seq<ItemState>) -> nat
    decreases items.len(),
{
    if items.len() == 0 {
        0
    } else {
        count_incomplete(items.drop_last()) + (if view_complete(items.last()@) {
            0nat
        } else {
            1nat
        })
    }
}

/// Tasks for the given steps of one item, in the same order.
pub open spec fn tasks_for(item: u32, steps: Seq<usize>) -> Seq<Task> {
    steps.map_values(|s: usize| Task { item_index: item, step_index: s })
}

/// The elements of `steps` that belong to `s`, in order.
pub open spec fn keep_in(steps: Seq<usize>, s: Set<usize>) -> Seq<usize>
    decreases steps.len(),
{
    if steps.len() == 0 {
        Seq::empty()
    } else {
        let rest = keep_in(steps.drop_last(), s);
        if s.contains(steps.last()) {
            rest.push(steps.last())
        } else {
            rest
        }
    }
}

/// The ready steps of an item, in increasing order.
pub open spec fn ready_list(v: ItemView) -> Seq<usize> {
    sorted_below(ready_set(v), v.num_steps)
}

/// The ready tasks of the first `k` items, item by item, each item's steps
/// in increasing order.
pub open spec fn ready_tasks_upto(items: Seq<ItemState>, k: nat) -> Seq<Task>
    decreases k,
{
    if k == 0 {
        Seq::empty()
    } else {
        ready_tasks_upto(items, (k - 1) as nat) + tasks_for((k - 1) as u32, ready_list(items[k - 1]@))
    }
}

/// Asking for each of `ss` in turn.
pub open spec fn added_all(v: ItemView, g: DepGraph, ss: Seq<usize>) -> ItemView
    decreases ss.len(),
{
    if ss.len() == 0 {
        v
    } else {
        added_view(added_all(v, g, ss.drop_last()), g, ss.last())
    }
}

/// The steps marked `must_execute`.
pub open spec fn must_execute_set(steps: Seq<Step>) -> Set<usize> {
    Set::new(|i: usize| i < steps.len() && steps[i as int].must_execute)
}

/// The steps that the flow's output needs and that have not completed, in
/// increasing order.
pub open spec fn output_list(it: ItemState) -> Seq<usize> {
    sorted_below(
        expr_refs(it.flow_spec().output, it.graph().names, it.graph().defined).difference(it@.completed),
        it@.num_steps,
    )
}

/// The state of an item after initialization: its output's dependencies are
/// asked for, then its `must_execute` steps, each in increasing order.
pub open spec fn initialized_view(it: ItemState) -> ItemView {
    added_all(
        added_all(it@, it.graph(), output_list(it)),
        it.graph(),
        sorted_below(must_execute_set(it.flow_spec().steps@), it@.num_steps),
    )
}

/// Asking for steps changes only which steps are needed and what they wait for.
pub proof fn lemma_added_all_frame(v: ItemView, g: DepGraph, ss: Seq<usize>)
    ensures
        added_all(v, g, ss).num_steps == v.num_steps,
        added_all(v, g, ss).completed == v.completed,
        added_all(v, g, ss).executing == v.executing,
        added_all(v, g, ss).results == v.results,
        added_all(v, g, ss).attempts == v.attempts,
        added_all(v, g, ss).waiting_on.len() == v.waiting_on.len(),
        v.needed.subset_of(added_all(v, g, ss).needed),
    decreases ss.len(),
{
    if ss.len() > 0 {
        lemma_added_all_frame(v, g, ss.drop_last());
    }
}

/// The steps that completing `step` unblocks, in increasing order (none when
/// the step had already completed).
pub open spec fn unblocked_list(v: ItemView, step: usize) -> Seq<usize> {
    if v.completed.contains(step) {
        Seq::<usize>::empty()
    } else {
        sorted_below(unblocked_by(v, step), v.num_steps)
    }
}

/// An item's state after `step` completes with `result` and each step it
/// unblocks is asked for again.
pub open spec fn completion_view(it: ItemState, step: usize, result: FlowResult) -> ItemView {
    let v1 = completed_view(it@, step, result);
    added_all(v1, with_completed(it.graph(), v1.completed), unblocked_list(it@, step))
}

/// The unblocked steps that are ready after the completion, in increasing
/// order.
pub open spec fn ready_after_completion(it: ItemState, step: usize, result: FlowResult) -> Seq<usize> {
    keep_in(unblocked_list(it@, step), ready_set(completion_view(it, step, result)))
}

/// The dependency graph of an item after its completed set became `c`.
pub open spec fn with_completed(g: DepGraph, c: Set<usize>) -> DepGraph {
    DepGraph { completed: c, ..g }
}

/// The ready tasks of the first `k + 1` items only look at those items.
pub proof fn lemma_ready_tasks_upto_prefix(a: Seq<ItemState>, b: Seq<ItemState>, k: nat)
    requires
        k < a.len(),
        a.len() == b.len(),
        forall|j: int| 0 <= j < k ==> #[trigger] a[j] == b[j],
    ensures
        ready_tasks_upto(a, k) == ready_tasks_upto(b, k),
        ready_tasks_upto(b, k + 1) == ready_tasks_upto(a, k) + tasks_for(k as u32, ready_list(b[k as int]@)),
    decreases k,
{
    if k > 0 {
        lemma_ready_tasks_upto_prefix(a, b, (k - 1) as nat);
    }
}

pub proof fn lemma_count_update(items: Seq<ItemState>, i: int, it: ItemState)
    requires
        0 <= i < items.len(),
    ensures
        count_incomplete(items.update(i, it)) + (if view_complete(items[i]@) { 0int } else { 1int })
            == count_incomplete(items) + (if view_complete(it@) { 0int } else { 1int }),
    decreases items.len(),
{
    let u = items.update(i, it);
    if i == items.len() - 1 {
        assert(u.drop_last() =~= items.drop_last());
    } else {
        assert(u.drop_last() =~= items.drop_last().update(i, it));
        lemma_count_update(items.drop_last(), i, it);
    }
}

pub proof fn lemma_count_push(items: Seq<ItemState>, it: ItemState)
    ensures
        count_incomplete(items.push(it)) == count_incomplete(items) + (if view_complete(it@) {
            0nat
        } else {
            1nat
        }),
{
    assert(items.push(it).drop_last() =~= items);
}

pub proof fn lemma_count_bound(items: Seq<ItemState>)
    ensures
        count_incomplete(items) <= items.len(),
    decreases items.len(),
{
    if items.len() > 0 {
        lemma_count_bound(items.drop_last());
    }
}

/// Coordinates execution state across multiple items within a single run.
pub struct ItemsState {
    run_id: u128,
    items: Vec<ItemState>,
    variables: Arc<Vec<(String, serde_json::Value)>>,
    incomplete_count: usize,
}

impl ItemsState {
    /// The items, in order.
    pub closed spec fn items_spec(&self) -> Seq<ItemState> {
        self.items@
    }

    /// The run this state belongs to.
    pub closed spec fn run_id_spec(&self) -> u128 {
        self.run_id
    }

    /// The variables shared by all items.
    pub closed spec fn variables_spec(&self) -> Seq<(String, serde_json::Value)> {
        self.variables@
    }

    pub closed spec fn wf(&self) -> bool {
        &&& self.items@.len() <= u32::MAX
        &&& forall|i: int| 0 <= i < self.items@.len() ==> #[trigger] self.items@[i].wf()
        &&& forall|i: int|
            0 <= i < self.items@.len() ==> #[trigger] self.items@[i].variables_spec()
                == self.variables@
        &&& self.incomplete_count == count_incomplete(self.items@)
    }

    /// Facts of a well-formed state.
    pub proof fn lemma_wf(&self)
        requires
            self.wf(),
        ensures
            self.items_spec().len() <= u32::MAX,
            forall|i: int| 0 <= i < self.items_spec().len() ==> #[trigger] self.items_spec()[i].wf(),
            forall|i: int|
                0 <= i < self.items_spec().len() ==> #[trigger] self.items_spec()[i].variables_spec()
                    == self.variables_spec(),
    {
    }

    /// Create a new, empty state for a specific run. All items will share
    /// the given variables.
    pub fn new(run_id: u128, variables: Vec<(String, serde_json::Value)>) -> (r: Self)
        ensures
            r.wf(),
            r.run_id_spec() == run_id,
            r.variables_spec() == variables@,
            r.items_spec() == Seq::<ItemState>::empty(),
    {
        let r = ItemsState { run_id, items: Vec::new(), variables: Arc::new(variables), incomplete_count: 0 };
        assert(r.items@ =~= Seq::<ItemState>::empty());
        r
    }

    /// Create a state with a single item.
    pub fn single(
        run_id: u128,
        flow: Arc<Flow>,
        input: serde_json::Value,
        variables: Vec<(String, serde_json::Value)>,
    ) -> (r: Self)
        requires
            flow.steps@.len() < usize::MAX,
        ensures
            r.wf(),
            r.run_id_spec() == run_id,
            r.variables_spec() == variables@,
            r.items_spec().len() == 1,
            r.items_spec()[0].flow_spec() == *flow,
            r.items_spec()[0].input_spec() == input,
            r.items_spec()[0]@ == ItemState::initial_view(flow.steps@.len()),
    {
        let mut state = Self::new(run_id, variables);
        state.add_item(flow, input);
        state
    }

    /// Create a state with one item per input, all using the same flow.
    pub fn batch(
        run_id: u128,
        flow: Arc<Flow>,
        inputs: Vec<serde_json::Value>,
        variables: Vec<(String, serde_json::Value)>,
    ) -> (r: Self)
        requires
            flow.steps@.len() < usize::MAX,
            inputs@.len() <= u32::MAX,
        ensures
            r.wf(),
            r.run_id_spec() == run_id,
            r.variables_spec() == variables@,
            r.items_spec().len() == inputs@.len(),
            forall|i: int| 0 <= i < inputs@.len() ==> #[trigger] r.items_spec()[i].flow_spec() == *flow,
            forall|i: int| 0 <= i < inputs@.len() ==> #[trigger] r.items_spec()[i].input_spec() == inputs@[i],
            forall|i: int|
                0 <= i < inputs@.len() ==> (#[trigger] r.items_spec()[i])@ == ItemState::initial_view(flow.steps@.len()),
    {
        let mut state = Self::new(run_id, variables);
        let mut inputs = inputs;
        let ghost all = inputs@;
        let mut rev: Vec<serde_json::Value> = Vec::new();
        // take the inputs in order
        while inputs.len() > 0
            invariant
                rev@.len() + inputs@.len() == all.len(),
                forall|j: int| 0 <= j < inputs@.len() ==> #[trigger] inputs@[j] == all[j],
                forall|j: int| 0 <= j < rev@.len() ==> #[trigger] rev@[j] == all[all.len() - 1 - j],
            decreases inputs@.len(),
        {
            let v = inputs.pop().unwrap();
            rev.push(v);
        }
        while rev.len() > 0
            invariant
                state.wf(),
                state.run_id_spec() == run_id,
                state.variables_spec() == variables@,
                state.items_spec().len() + rev@.len() == all.len(),
                all.len() <= u32::MAX,
                flow.steps@.len() < usize::MAX,
                forall|j: int| 0 <= j < rev@.len() ==> #[trigger] rev@[j] == all[all.len() - 1 - j],
                forall|i: int| 0 <= i < state.items_spec().len() ==> #[trigger] state.items_spec()[i].flow_spec() == *flow,
                forall|i: int| 0 <= i < state.items_spec().len() ==> #[trigger] state.items_spec()[i].input_spec() == all[i],
                forall|i: int|
                    0 <= i < state.items_spec().len() ==> (#[trigger] state.items_spec()[i])@ == ItemState::initial_view(flow.steps@.len()),
            decreases rev@.len(),
        {
            let v = rev.pop().unwrap();
            let ghost before = state.items_spec();
            state.add_item(arc_clone(&flow), v);
            proof {
                assert forall|i: int| 0 <= i < before.len() implies #[trigger] state.items_spec()[i] == before[i] by {
                    assert(state.items_spec().drop_last()[i] == before[i]);
                }
            }
        }
        state
    }

    /// Get the run ID for this state.
    pub fn run_id(&self) -> (r: u128)
        ensures
            r == self.run_id_spec(),
    {
        self.run_id
    }

    /// Get a reference to the shared variables.
    pub fn variables(&self) -> (r: &Vec<(String, serde_json::Value)>)
        ensures
            r@ == self.variables_spec(),
    {
        &self.variables
    }

    /// Add a new item with no needed steps; returns its index. A new item is
    /// trivially complete, so the incomplete count does not change.
    pub fn add_item(&mut self, flow: Arc<Flow>, input: serde_json::Value) -> (r: u32)
        requires
            old(self).wf(),
            old(self).items_spec().len() < u32::MAX,
            flow.steps@.len() < usize::MAX,
        ensures
            final(self).wf(),
            final(self).run_id_spec() == old(self).run_id_spec(),
            final(self).variables_spec() == old(self).variables_spec(),
            r == old(self).items_spec().len(),
            final(self).items_spec().len() == old(self).items_spec().len() + 1,
            final(self).items_spec().drop_last() == old(self).items_spec(),
            final(self).items_spec().last().flow_spec() == *flow,
            final(self).items_spec().last().input_spec() == input,
            final(self).items_spec().last().variables_spec() == old(self).variables_spec(),
            final(self).items_spec().last()@ == ItemState::initial_view(flow.steps@.len()),
    {
        let item_index = self.items.len() as u32;
        let item = ItemState::new(flow, input, self.variables.clone());
        proof {
            lemma_count_push(self.items@, item);
            assert(view_complete(item@));
        }
        self.items.push(item);
        proof {
            assert(self.items@.drop_last() =~= old(self).items@);
        }
        item_index
    }

    /// A shared handle on the run's variables.
    pub(crate) fn shared_variables(&self) -> (r: Arc<Vec<(String, serde_json::Value)>>)
        ensures
            r@ == self.variables_spec(),
    {
        arc_clone(&self.variables)
    }

    /// Append an item whose state was built elsewhere (a restored
    /// checkpoint); returns its index.
    pub(crate) fn push_item(&mut self, item: ItemState) -> (r: u32)
        requires
            old(self).wf(),
            old(self).items_spec().len() < u32::MAX,
            item.wf(),
            item.variables_spec() == old(self).variables_spec(),
        ensures
            final(self).wf(),
            final(self).run_id_spec() == old(self).run_id_spec(),
            final(self).variables_spec() == old(self).variables_spec(),
            r == old(self).items_spec().len(),
            final(self).items_spec() == old(self).items_spec().push(item),
    {
        let item_index = self.items.len() as u32;
        let done = item.is_complete();
        proof {
            lemma_count_push(self.items@, item);
            lemma_count_bound(self.items@);
        }
        self.items.push(item);
        if !done {
            self.incomplete_count = self.incomplete_count + 1;
        }
        item_index
    }

    /// Get the number of items.
    pub fn item_count(&self) -> (r: u32)
        requires
            self.wf(),
        ensures
            r == self.items_spec().len(),
    {
        self.items.len() as u32
    }

    /// Get read access to an item's state.
    pub fn item(&self, item_index: u32) -> (r: &ItemState)
        requires
            item_index < self.items_spec().len(),
        ensures
            *r == self.items_spec()[item_index as int],
    {
        &self.items[item_index as usize]
    }

    /// Re-establishes the incomplete count after item `i` changed from
    /// `before` to its current state.
    fn recount(&mut self, i: usize, was_complete: bool, Ghost(before): Ghost<Seq<ItemState>>)
        requires
            i < before.len(),
            before.len() <= u32::MAX,
            old(self).incomplete_count == count_incomplete(before),
            old(self).items@ == before.update(i as int, old(self).items@[i as int]),
            was_complete == view_complete(before[i as int]@),
        ensures
            final(self).items == old(self).items,
            final(self).run_id == old(self).run_id,
            final(self).variables == old(self).variables,
            final(self).incomplete_count == count_incomplete(final(self).items@),
    {
        let now_complete = self.items[i].is_complete();
        proof {
            lemma_count_update(before, i as int, self.items@[i as int]);
            lemma_count_bound(before);
            lemma_count_bound(self.items@);
        }
        if was_complete && !now_complete {
            self.incomplete_count = self.incomplete_count + 1;
        } else if !was_complete && now_complete {
            self.incomplete_count = self.incomplete_count - 1;
        }
    }

    /// Mark a task as currently executing.
    pub fn mark_executing(&mut self, task: Task)
        requires
            old(self).wf(),
            task.item_index < old(self).items_spec().len(),
            task.step_index < old(self).items_spec()[task.item_index as int]@.num_steps,
        ensures
            final(self).wf(),
            final(self).run_id_spec() == old(self).run_id_spec(),
            final(self).variables_spec() == old(self).variables_spec(),
            final(self).items_spec() == old(self).items_spec().update(
                task.item_index as int,
                final(self).items_spec()[task.item_index as int],
            ),
            final(self).items_spec()[task.item_index as int].same_context(
                &old(self).items_spec()[task.item_index as int],
            ),
            final(self).items_spec()[task.item_index as int]@ == (ItemView {
                executing: old(self).items_spec()[task.item_index as int]@.executing.insert(
                    task.step_index,
                ),
                ..old(self).items_spec()[task.item_index as int]@
            }),
    {
        let i = task.item_index as usize;
        let ghost before = self.items@;
        let was = self.items[i].is_complete();
        self.items[i].mark_executing(task.step_index);
        self.recount(i, was, Ghost(before));
        proof {
            assert(self.items@ =~= before.update(i as int, self.items@[i as int]));
        }
    }

    /// Count one more attempt of a task; returns the task's attempt number.
    pub fn record_attempt(&mut self, task: Task) -> (r: u32)
        requires
            old(self).wf(),
            task.item_index < old(self).items_spec().len(),
            task.step_index < old(self).items_spec()[task.item_index as int]@.num_steps,
        ensures
            final(self).wf(),
            final(self).run_id_spec() == old(self).run_id_spec(),
            final(self).variables_spec() == old(self).variables_spec(),
            final(self).items_spec() == old(self).items_spec().update(
                task.item_index as int,
                final(self).items_spec()[task.item_index as int],
            ),
            final(self).items_spec()[task.item_index as int].same_context(
                &old(self).items_spec()[task.item_index as int],
            ),
            ({
                let v = old(self).items_spec()[task.item_index as int]@;
                &&& r == (if v.attempts[task.step_index as int] < u32::MAX {
                    (v.attempts[task.step_index as int] + 1) as u32
                } else {
                    v.attempts[task.step_index as int]
                })
                &&& final(self).items_spec()[task.item_index as int]@ == (ItemView {
                    attempts: v.attempts.update(task.step_index as int, r),
                    ..v
                })
            }),
    {
        let i = task.item_index as usize;
        let ghost before = self.items@;
        let was = self.items[i].is_complete();
        let r = self.items[i].record_attempt(task.step_index);
        self.recount(i, was, Ghost(before));
        proof {
            assert(self.items@ =~= before.update(i as int, self.items@[i as int]));
        }
        r
    }

    /// Set the attempt count of a task to the attempt recorded when it
    /// started.
    pub fn set_attempt(&mut self, task: Task, attempt: u32)
        requires
            old(self).wf(),
            task.item_index < old(self).items_spec().len(),
            task.step_index < old(self).items_spec()[task.item_index as int]@.num_steps,
        ensures
            final(self).wf(),
            final(self).run_id_spec() == old(self).run_id_spec(),
            final(self).variables_spec() == old(self).variables_spec(),
            final(self).items_spec() == old(self).items_spec().update(
                task.item_index as int,
                final(self).items_spec()[task.item_index as int],
            ),
            final(self).items_spec()[task.item_index as int].same_context(
                &old(self).items_spec()[task.item_index as int],
            ),
            ({
                let v = old(self).items_spec()[task.item_index as int]@;
                final(self).items_spec()[task.item_index as int]@ == (ItemView {
                    attempts: v.attempts.update(task.step_index as int, attempt),
                    ..v
                })
            }),
    {
        let i = task.item_index as usize;
        let ghost before = self.items@;
        let was = self.items[i].is_complete();
        self.items[i].set_attempt(task.step_index, attempt);
        self.recount(i, was, Ghost(before));
        proof {
            assert(self.items@ =~= before.update(i as int, self.items@[i as int]));
        }
    }

    /// The final output of an item: its flow's output expression resolved for
    /// it once the item is complete; `None` before.
    pub fn get_item_result(&self, item_index: u32) -> (r: Option<Result<FlowResult, crate::error::ExecutionError>>)
        requires
            self.wf(),
            item_index < self.items_spec().len(),
        ensures
            r == (if view_complete(self.items_spec()[item_index as int]@) {
                Some(crate::resolve::resolved(
                    self.items_spec()[item_index as int].flow_spec().output,
                    self.items_spec()[item_index as int],
                ))
            } else {
                None
            }),
    {
        proof {
            self.lemma_wf();
        }
        let item = self.item(item_index);
        if !item.is_complete() {
            return None;
        }
        Some(crate::resolve::resolve(item, &item.flow().output))
    }

    /// Complete a task and record its result.
    ///
    /// Returns the newly unblocked step indices of the task's item, in
    /// increasing order.
    pub fn complete_task(&mut self, task: Task, result: FlowResult) -> (r: Vec<usize>)
        requires
            old(self).wf(),
            task.item_index < old(self).items_spec().len(),
            task.step_index < old(self).items_spec()[task.item_index as int]@.num_steps,
        ensures
            final(self).wf(),
            final(self).run_id_spec() == old(self).run_id_spec(),
            final(self).variables_spec() == old(self).variables_spec(),
            final(self).items_spec() == old(self).items_spec().update(
                task.item_index as int,
                final(self).items_spec()[task.item_index as int],
            ),
            final(self).items_spec()[task.item_index as int].same_context(
                &old(self).items_spec()[task.item_index as int],
            ),
            final(self).items_spec()[task.item_index as int]@ == completed_view(
                old(self).items_spec()[task.item_index as int]@,
                task.step_index,
                result,
            ),
            r@ == (if old(self).items_spec()[task.item_index as int]@.completed.contains(task.step_index) {
                Seq::<usize>::empty()
            } else {
                sorted_below(
                    unblocked_by(old(self).items_spec()[task.item_index as int]@, task.step_index),
                    old(self).items_spec()[task.item_index as int]@.num_steps,
                )
            }),
    {
        let i = task.item_index as usize;
        let ghost before = self.items@;
        proof {
            before[i as int].lemma_wf();
        }
        let was = self.items[i].is_complete();
        let newly = self.items[i].mark_completed(task.step_index, result);
        self.recount(i, was, Ghost(before));
        let list = bitset_to_vec(&newly);
        proof {
            assert(self.items@ =~= before.update(i as int, self.items@[i as int]));
            let n = before[i as int]@.num_steps;
            if before[i as int]@.completed.contains(task.step_index) {
                lemma_seq_to_set(list@);
                if list@.len() > 0 {
                    assert(bit_members(newly).contains(list@[0]));
                }
                assert(list@ =~= Seq::<usize>::empty());
            } else {
                assert forall|x: usize| #[trigger] bit_members(newly).contains(x) implies x < n by {}
                lemma_sorted_unique(list@, bit_members(newly), n);
            }
        }
        list
    }

    /// Asks for each of `steps` in turn on item `i`.
    fn add_steps(&mut self, i: usize, steps: &Vec<usize>)
        requires
            old(self).wf(),
            i < old(self).items_spec().len(),
            forall|k: int| 0 <= k < steps@.len() ==> #[trigger] steps@[k] < old(self).items_spec()[i as int]@.num_steps,
        ensures
            final(self).wf(),
            final(self).run_id_spec() == old(self).run_id_spec(),
            final(self).variables_spec() == old(self).variables_spec(),
            final(self).items_spec() == old(self).items_spec().update(i as int, final(self).items_spec()[i as int]),
            final(self).items_spec()[i as int].same_context(&old(self).items_spec()[i as int]),
            final(self).items_spec()[i as int]@ == added_all(
                old(self).items_spec()[i as int]@,
                old(self).items_spec()[i as int].graph(),
                steps@,
            ),
    {
        let ghost before = self.items@;
        let ghost g = before[i as int].graph();
        let was = self.items[i].is_complete();
        let mut k: usize = 0;
        assert(steps@.take(0) =~= Seq::<usize>::empty());
        while k < steps.len()
            invariant
                before == old(self).items@,
                g == before[i as int].graph(),
                i < before.len(),
                before.len() <= u32::MAX,
                k <= steps@.len(),
                forall|k: int| 0 <= k < steps@.len() ==> #[trigger] steps@[k] < before[i as int]@.num_steps,
                self.items@.len() == before.len(),
                self.items@ == before.update(i as int, self.items@[i as int]),
                self.items@[i as int].wf(),
                self.items@[i as int].same_context(&before[i as int]),
                self.items@[i as int].graph() == g,
                self.items@[i as int]@.num_steps == before[i as int]@.num_steps,
                self.items@[i as int]@ == added_all(before[i as int]@, g, steps@.take(k as int)),
                self.incomplete_count == old(self).incomplete_count,
                self.run_id == old(self).run_id,
                self.variables == old(self).variables,
            decreases steps@.len() - k,
        {
            let s = steps[k];
            self.items[i].add_or_update_needed(s);
            proof {
                let t = steps@.take(k + 1);
                assert(t.drop_last() =~= steps@.take(k as int));
                assert(t.last() == s);
            }
            k = k + 1;
        }
        proof {
            assert(steps@.take(steps@.len() as int) =~= steps@);
        }
        self.recount(i, was, Ghost(before));
        proof {
            assert forall|j: int| 0 <= j < self.items@.len() implies #[trigger] self.items@[j].wf() by {
                if j != i {
                    assert(self.items@[j] == before[j]);
                }
            }
            assert forall|j: int| 0 <= j < self.items@.len() implies #[trigger] self.items@[j].variables_spec() == self.variables@ by {
                if j != i {
                    assert(self.items@[j] == before[j]);
                }
            }
        }
    }

    /// The ready tasks of item `i`, in increasing step order.
    fn item_ready_tasks(&self, i: u32) -> (r: Vec<Task>)
        requires
            self.wf(),
            i < self.items_spec().len(),
        ensures
            r@ == tasks_for(i, ready_list(self.items_spec()[i as int]@)),
    {
        proof {
            self.items@[i as int].lemma_wf();
        }
        let ready = self.items[i as usize].ready_steps();
        let list = bitset_to_vec(&ready);
        proof {
            let v = self.items@[i as int]@;
            assert forall|x: usize| #[trigger] bit_members(ready).contains(x) implies x < v.num_steps by {}
            lemma_sorted_unique(list@, bit_members(ready), v.num_steps);
        }
        let mut out: Vec<Task> = Vec::new();
        let mut k: usize = 0;
        while k < list.len()
            invariant
                k <= list@.len(),
                out@ == tasks_for(i, list@.take(k as int)),
            decreases list@.len() - k,
        {
            out.push(Task::new(i, list[k]));
            proof {
                assert(list@.take(k + 1) =~= list@.take(k as int).push(list@[k as int]));
                assert(out@ =~= tasks_for(i, list@.take(k + 1)));
            }
            k = k + 1;
        }
        proof {
            assert(list@.take(list@.len() as int) =~= list@);
        }
        out
    }

    /// Complete a task and return the tasks that are now ready to execute.
    ///
    /// Records the completion, asks again for each newly unblocked step (in
    /// increasing order) so that its dependencies are re-evaluated, and
    /// returns, in increasing step order, the unblocked steps that are then
    /// ready.
    pub fn complete_task_and_get_ready(&mut self, task: Task, result: FlowResult) -> (r: Vec<Task>)
        requires
            old(self).wf(),
            task.item_index < old(self).items_spec().len(),
            task.step_index < old(self).items_spec()[task.item_index as int]@.num_steps,
        ensures
            final(self).wf(),
            final(self).run_id_spec() == old(self).run_id_spec(),
            final(self).variables_spec() == old(self).variables_spec(),
            final(self).items_spec() == old(self).items_spec().update(
                task.item_index as int,
                final(self).items_spec()[task.item_index as int],
            ),
            final(self).items_spec()[task.item_index as int].same_context(
                &old(self).items_spec()[task.item_index as int],
            ),
            final(self).items_spec()[task.item_index as int]@ == completion_view(
                old(self).items_spec()[task.item_index as int],
                task.step_index,
                result,
            ),
            r@ == tasks_for(
                task.item_index,
                ready_after_completion(old(self).items_spec()[task.item_index as int], task.step_index, result),
            ),
    {
        let i = task.item_index as usize;
        let ghost it0 = self.items@[i as int];
        let newly = self.complete_task(task, result);
        proof {
            it0.lemma_wf();
            let n = it0@.num_steps;
            lemma_sorted_below(unblocked_by(it0@, task.step_index), n);
            self.items@[i as int].lemma_wf();
        }
        let ghost mid = self.items@;
        self.add_steps(i, &newly);
        proof {
            assert(self.items@ =~= old(self).items@.update(i as int, self.items@[i as int]));
        }
        proof {
            self.items@[i as int].lemma_wf();
        }
        let ready = self.items[i].ready_steps();
        let mut out: Vec<Task> = Vec::new();
        let mut k: usize = 0;
        while k < newly.len()
            invariant
                k <= newly@.len(),
                out@ == tasks_for(task.item_index, keep_in(newly@.take(k as int), bit_members(ready))),
            decreases newly@.len() - k,
        {
            let s = newly[k];
            if bitset_contains(&ready, s) {
                out.push(Task::new(task.item_index, s));
            }
            proof {
                let t = newly@.take(k + 1);
                assert(t.drop_last() =~= newly@.take(k as int));
                assert(t.last() == s);
                assert(out@ =~= tasks_for(task.item_index, keep_in(t, bit_members(ready))));
            }
            k = k + 1;
        }
        proof {
            assert(newly@.take(newly@.len() as int) =~= newly@);
        }
        out
    }

    /// Get the count of incomplete items. Returns 0 when all items have
    /// completed.
    pub fn incomplete(&self) -> (r: usize)
        requires
            self.wf(),
        ensures
            r == count_incomplete(self.items_spec()),
    {
        self.incomplete_count
    }

    /// Check if a specific item has completed execution.
    pub fn is_item_complete(&self, item_index: u32) -> (r: bool)
        requires
            item_index < self.items_spec().len(),
        ensures
            r == view_complete(self.items_spec()[item_index as int]@),
    {
        self.items[item_index as usize].is_complete()
    }

    /// Check if there are any ready tasks across all items.
    pub fn has_ready_tasks(&self) -> (r: bool)
        requires
            self.wf(),
        ensures
            r == exists|i: int|
                0 <= i < self.items_spec().len() && #[trigger] ready_set(self.items_spec()[i]@)
                    != Set::<usize>::empty(),
    {
        let mut i: usize = 0;
        while i < self.items.len()
            invariant
                self.wf(),
                i <= self.items@.len(),
                forall|j: int| 0 <= j < i ==> #[trigger] ready_set(self.items@[j]@) == Set::<usize>::empty(),
            decreases self.items@.len() - i,
        {
            let ready = self.items[i].ready_steps();
            if !bitset_is_empty(&ready) {
                assert(ready_set(self.items_spec()[i as int]@) != Set::<usize>::empty());
                return true;
            }
            i = i + 1;
        }
        false
    }

    /// Get all ready tasks across all items, item by item, each item's steps
    /// in increasing order.
    pub fn get_ready_tasks(&self) -> (r: Vec<Task>)
        requires
            self.wf(),
        ensures
            r@ == ready_tasks_upto(self.items_spec(), self.items_spec().len()),
    {
        let mut out: Vec<Task> = Vec::new();
        let mut i: usize = 0;
        while i < self.items.len()
            invariant
                self.wf(),
                i <= self.items@.len(),
                out@ == ready_tasks_upto(self.items@, i as nat),
            decreases self.items@.len() - i,
        {
            let mut tasks = self.item_ready_tasks(i as u32);
            out.append(&mut tasks);
            i = i + 1;
        }
        out
    }

    /// Initialize needed steps for an item: the steps its flow's output needs,
    /// then its `must_execute` steps. Returns the item's ready tasks.
    pub fn initialize_item(&mut self, item_index: u32) -> (r: Vec<Task>)
        requires
            old(self).wf(),
            item_index < old(self).items_spec().len(),
        ensures
            final(self).wf(),
            final(self).run_id_spec() == old(self).run_id_spec(),
            final(self).variables_spec() == old(self).variables_spec(),
            final(self).items_spec() == old(self).items_spec().update(
                item_index as int,
                final(self).items_spec()[item_index as int],
            ),
            final(self).items_spec()[item_index as int].same_context(&old(self).items_spec()[item_index as int]),
            final(self).items_spec()[item_index as int]@ == initialized_view(old(self).items_spec()[item_index as int]),
            r@ == tasks_for(item_index, ready_list(final(self).items_spec()[item_index as int]@)),
    {
        let i = item_index as usize;
        let ghost it0 = self.items@[i as int];
        let ghost g = it0.graph();
        proof {
            it0.lemma_wf();
            lemma_expr_refs_bound(it0.flow_spec().output, g.names, g.defined);
        }
        let flow = arc_clone(self.items[i].flow());
        let out_needs = self.items[i].needed_steps(&flow.output);
        let out_list = bitset_to_vec(&out_needs);
        proof {
            let n = it0@.num_steps;
            assert forall|x: usize| #[trigger] bit_members(out_needs).contains(x) implies x < n by {
                assert(expr_refs(it0.flow_spec().output, g.names, g.defined).contains(x));
            }
            lemma_sorted_unique(out_list@, bit_members(out_needs), n);
            lemma_sorted_below(bit_members(out_needs), n);
            assert forall|k: int| 0 <= k < out_list@.len() implies #[trigger] out_list@[k] < n by {}
        }
        self.add_steps(i, &out_list);
        let ghost it1 = self.items@[i as int];
        proof {
            lemma_added_all_frame(it0@, g, out_list@);
            assert(it1.graph() == g);
        }
        let n = self.items[i].num_steps();
        let mut must: Vec<usize> = Vec::new();
        let mut k: usize = 0;
        while k < n
            invariant
                n == flow.steps@.len(),
                *flow == it0.flow_spec(),
                k <= n,
                must@ == sorted_below(must_execute_set(flow.steps@), k as nat),
            decreases n - k,
        {
            if flow.steps[k].must_execute {
                must.push(k);
            }
            k = k + 1;
        }
        proof {
            lemma_sorted_below(must_execute_set(flow.steps@), n as nat);
            assert forall|k: int| 0 <= k < must@.len() implies #[trigger] must@[k] < n by {}
        }
        self.add_steps(i, &must);
        proof {
            assert(self.items@ =~= old(self).items@.update(i as int, self.items@[i as int]));
        }
        self.item_ready_tasks(item_index)
    }

    /// Initialize all items and return all ready tasks.
    pub fn initialize_all(&mut self) -> (r: Vec<Task>)
        requires
            old(self).wf(),
        ensures
            final(self).wf(),
            final(self).run_id_spec() == old(self).run_id_spec(),
            final(self).variables_spec() == old(self).variables_spec(),
            final(self).items_spec().len() == old(self).items_spec().len(),
            forall|j: int|
                0 <= j < old(self).items_spec().len() ==> {
                    &&& #[trigger] final(self).items_spec()[j].same_context(&old(self).items_spec()[j])
                    &&& final(self).items_spec()[j]@ == initialized_view(old(self).items_spec()[j])
                },
            r@ == ready_tasks_upto(final(self).items_spec(), final(self).items_spec().len()),
    {
        let count = self.item_count();
        let mut tasks: Vec<Task> = Vec::new();
        let mut i: u32 = 0;
        while i < count
            invariant
                self.wf(),
                count == self.items_spec().len(),
                count == old(self).items_spec().len(),
                i <= count,
                self.run_id_spec() == old(self).run_id_spec(),
                self.variables_spec() == old(self).variables_spec(),
                forall|j: int|
                    0 <= j < i ==> {
                        &&& #[trigger] self.items_spec()[j].same_context(&old(self).items_spec()[j])
                        &&& self.items_spec()[j]@ == initialized_view(old(self).items_spec()[j])
                    },
                forall|j: int| i <= j < count ==> #[trigger] self.items_spec()[j] == old(self).items_spec()[j],
                tasks@ == ready_tasks_upto(self.items_spec(), i as nat),
            decreases count - i,
        {
            let ghost before = self.items_spec();
            let mut more = self.initialize_item(i);
            proof {
                lemma_ready_tasks_upto_prefix(before, self.items_spec(), i as nat);
                assert forall|j: int| 0 <= j < i + 1 implies {
                    &&& #[trigger] self.items_spec()[j].same_context(&old(self).items_spec()[j])
                    &&& self.items_spec()[j]@ == initialized_view(old(self).items_spec()[j])
                } by {
                    if j < i {
                        assert(self.items_spec()[j] == before[j]);
                    } else {
                        assert(before[j] == old(self).items_spec()[j]);
                    }
                }
            }
            tasks.append(&mut more);
            i = i + 1;
        }
        tasks
    }

    /// Add a step to the needed set of an item, with its dependencies.
    /// Returns, in increasing order, the steps that were not needed before.
    pub fn add_needed(&mut self, item_index: u32, step_index: usize) -> (r: Vec<usize>)
        requires
            old(self).wf(),
            item_index < old(self).items_spec().len(),
            step_index < old(self).items_spec()[item_index as int]@.num_steps,
        ensures
            final(self).wf(),
            final(self).run_id_spec() == old(self).run_id_spec(),
            final(self).variables_spec() == old(self).variables_spec(),
            final(self).items_spec() == old(self).items_spec().update(
                item_index as int,
                final(self).items_spec()[item_index as int],
            ),
            final(self).items_spec()[item_index as int].same_context(&old(self).items_spec()[item_index as int]),
            final(self).items_spec()[item_index as int]@ == added_view(
                old(self).items_spec()[item_index as int]@,
                old(self).items_spec()[item_index as int].graph(),
                step_index,
            ),
            r@ == sorted_below(
                reach_set(
                    old(self).items_spec()[item_index as int].graph(),
                    old(self).items_spec()[item_index as int]@.needed,
                    step_index,
                ).difference(old(self).items_spec()[item_index as int]@.needed),
                old(self).items_spec()[item_index as int]@.num_steps,
            ),
    {
        let i = item_index as usize;
        let ghost before = self.items@;
        let was = self.items[i].is_complete();
        let newly = self.items[i].add_or_update_needed(step_index);
        self.recount(i, was, Ghost(before));
        let list = bitset_to_vec(&newly);
        proof {
            assert(self.items@ =~= before.update(i as int, self.items@[i as int]));
            self.items@[i as int].lemma_wf();
            before[i as int].lemma_wf();
            let n = before[i as int]@.num_steps;
            assert forall|x: usize| #[trigger] bit_members(newly).contains(x) implies x < n by {
                assert(self.items@[i as int]@.needed.contains(x));
            }
            lemma_sorted_unique(list@, bit_members(newly), n);
        }
        list
    }

    /// Ask for the given steps of an item, in the given order (as recorded in
    /// the journal), and return the item's ready tasks.
    pub fn initialize_item_with_steps(&mut self, item_index: u32, steps: &Vec<usize>) -> (r: Vec<Task>)
        requires
            old(self).wf(),
            item_index < old(self).items_spec().len(),
            forall|k: int| 0 <= k < steps@.len() ==> #[trigger] steps@[k] < old(self).items_spec()[item_index as int]@.num_steps,
        ensures
            final(self).wf(),
            final(self).run_id_spec() == old(self).run_id_spec(),
            final(self).variables_spec() == old(self).variables_spec(),
            final(self).items_spec() == old(self).items_spec().update(
                item_index as int,
                final(self).items_spec()[item_index as int],
            ),
            final(self).items_spec()[item_index as int].same_context(&old(self).items_spec()[item_index as int]),
            final(self).items_spec()[item_index as int]@ == added_all(
                old(self).items_spec()[item_index as int]@,
                old(self).items_spec()[item_index as int].graph(),
                steps@,
            ),
            r@ == tasks_for(item_index, ready_list(final(self).items_spec()[item_index as int]@)),
    {
        self.add_steps(item_index as usize, steps);
        self.item_ready_tasks(item_index)
    }

    /// Record a completed step without re-evaluating what it unblocks (used
    /// when rebuilding state before initialization).
    pub fn apply_completed(&mut self, item_index: u32, step_index: usize, result: FlowResult)
        requires
            old(self).wf(),
            item_index < old(self).items_spec().len(),
            step_index < old(self).items_spec()[item_index as int]@.num_steps,
        ensures
            final(self).wf(),
            final(self).run_id_spec() == old(self).run_id_spec(),
            final(self).variables_spec() == old(self).variables_spec(),
            final(self).items_spec() == old(self).items_spec().update(
                item_index as int,
                final(self).items_spec()[item_index as int],
            ),
            final(self).items_spec()[item_index as int].same_context(&old(self).items_spec()[item_index as int]),
            final(self).items_spec()[item_index as int]@ == completed_view(
                old(self).items_spec()[item_index as int]@,
                step_index,
                result,
            ),
    {
        let _ = self.complete_task(Task::new(item_index, step_index), result);
    }
}

} // verus!
