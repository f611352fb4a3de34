//! Step-by-step execution of a single-item flow for interactive debugging:
//! steps are queued (with their dependencies) and evaluated incrementally,
//! and an interrupted session is restored from what the store recorded.
//!
//! The caller runs the queued tasks and talks to the store; this module
//! holds the item's state and decides what to queue, what to report and
//! what to correct.

use std::sync::Arc;

use crate::bitset::{bit_members, bitset_to_vec, lemma_sorted_unique, sorted_below, lemma_sorted_below};
use crate::deps::{reach_set, DepGraph};
use crate::error::ExecutionError;
use crate::execution::assoc_get;
use crate::flow::{clone_expr, lemma_lookup_name_bound, lookup_name, same_expr, step_names, ErrorAction, Flow, FlowResult, Step, ValueExpr};
use crate::item_state::{added_view, completed_view, ready_set, unblocked_by, view_complete, ItemState, ItemView};
use crate::items_state::must_execute_set;
use crate::journal::StepStatus;
use crate::resolve::{resolve, resolved};
use crate::task::StepRunResult;
use vstd::prelude::*;

verus! {

/// A step with its status, for listing.
pub struct StepExecution {
    pub step_index: usize,
    pub step_id: String,
    pub component: String,
    pub status: StepStatus,
}

/// A step's identity.
pub struct StepMetadata {
    pub step_index: usize,
    pub step_id: String,
    pub component: String,
}

/// Detailed inspection information for a step.
pub struct StepInspection {
    pub metadata: StepMetadata,
    pub input: ValueExpr,
    pub on_error: ErrorAction,
    pub state: StepStatus,
}

/// The listed content of a step execution.
pub open spec fn execution_view(e: StepExecution) -> (usize, Seq<char>, Seq<char>, StepStatus) {
    (e.step_index, e.step_id@, e.component@, e.status)
}

/// The listing of step `i` of `steps` with `status`.
pub open spec fn listed(steps: Seq<Step>, i: usize, status: StepStatus) -> (usize, Seq<char>, Seq<char>, StepStatus) {
    (i, steps[i as int].id@, steps[i as int].component@, status)
}

/// The ids of the steps at `idxs`.
pub open spec fn ids_of(steps: Seq<Step>, idxs: Seq<usize>) -> Seq<Seq<char>> {
    idxs.map_values(|i: usize| steps[i as int].id@)
}

/// The status a step shows while it is queued: runnable when ready,
/// blocked otherwise.
pub open spec fn queued_status(v: ItemView, i: usize) -> StepStatus {
    if ready_set(v).contains(i) {
        StepStatus::Runnable
    } else {
        StepStatus::Blocked
    }
}

/// The queued steps among the first `k`: needed and not completed, in
/// order.
pub open spec fn queued_upto(steps: Seq<Step>, v: ItemView, k: nat) -> Seq<(usize, Seq<char>, Seq<char>, StepStatus)>
    decreases k,
{
    if k == 0 {
        Seq::empty()
    } else {
        let rest = queued_upto(steps, v, (k - 1) as nat);
        let i = (k - 1) as usize;
        if v.needed.contains(i) && !v.completed.contains(i) {
            rest.push(listed(steps, i, queued_status(v, i)))
        } else {
            rest
        }
    }
}

/// Every step among the first `k` with its status: the one the store
/// recorded, else runnable when ready and blocked otherwise.
pub open spec fn listed_upto(
    steps: Seq<Step>,
    v: ItemView,
    stored: Seq<(usize, StepStatus)>,
    k: nat,
) -> Seq<(usize, Seq<char>, Seq<char>, StepStatus)>
    decreases k,
{
    if k == 0 {
        Seq::empty()
    } else {
        let i = (k - 1) as usize;
        let status = match assoc_get(stored, i) {
            Some(st) => st,
            None => queued_status(v, i),
        };
        listed_upto(steps, v, stored, (k - 1) as nat).push(listed(steps, i, status))
    }
}

/// The item state after the recorded results are applied in order.
pub open spec fn results_applied(v: ItemView, results: Seq<(usize, FlowResult)>) -> ItemView
    decreases results.len(),
{
    if results.len() == 0 {
        v
    } else {
        let prev = results_applied(v, results.drop_last());
        completed_view(prev, results.last().0, results.last().1)
    }
}

/// The ready steps whose recorded status must be corrected to runnable:
/// not among the recovered steps, and recorded as anything else (no record
/// counts as blocked).
pub open spec fn fixes_upto(
    v: ItemView,
    recovered: Set<usize>,
    statuses: Seq<(usize, StepStatus)>,
    k: nat,
) -> Seq<usize>
    decreases k,
{
    if k == 0 {
        Seq::empty()
    } else {
        let i = (k - 1) as usize;
        let rest = fixes_upto(v, recovered, statuses, (k - 1) as nat);
        let current = match assoc_get(statuses, i) {
            Some(st) => st,
            None => StepStatus::Blocked,
        };
        if ready_set(v).contains(i) && !recovered.contains(i) && current != StepStatus::Runnable {
            rest.push(i)
        } else {
            rest
        }
    }
}

/// The item state after the queued step ids of a session are queued again:
/// ids of unknown or completed steps are passed over.
pub open spec fn requeued(v: ItemView, g: DepGraph, names: Seq<Seq<char>>, ids: Seq<Seq<char>>) -> ItemView
    decreases ids.len(),
{
    if ids.len() == 0 {
        v
    } else {
        let prev = requeued(v, g, names, ids.drop_last());
        match lookup_name(names, ids.last()) {
            Some(i) => if prev.completed.contains(i) {
                prev
            } else {
                added_view(prev, g, i)
            },
            None => prev,
        }
    }
}

/// The state of an item and the queue of the steps asked for so far, and the
/// steps newly asked for by queueing each of `steps` in turn.
pub open spec fn queue_all(v: ItemView, g: DepGraph, steps: Seq<usize>) -> (ItemView, Seq<usize>)
    decreases steps.len(),
{
    if steps.len() == 0 {
        (v, Seq::empty())
    } else {
        let (v1, q1) = queue_all(v, g, steps.drop_last());
        let s = steps.last();
        (
            added_view(v1, g, s),
            q1 + sorted_below(reach_set(g, v1.needed, s).difference(v1.needed), v.num_steps),
        )
    }
}

/// The failure of the first `must_execute` step among the first `k` that
/// failed.
pub open spec fn must_failure_upto(steps: Seq<Step>, v: ItemView, k: nat) -> Option<crate::flow::FlowError>
    decreases k,
{
    if k == 0 {
        None
    } else {
        match must_failure_upto(steps, v, (k - 1) as nat) {
            Some(e) => Some(e),
            None => if steps[k - 1].must_execute {
                match v.results[k - 1] {
                    Some(FlowResult::Failed(e)) => Some(e),
                    _ => None,
                }
            } else {
                None
            },
        }
    }
}

/// The outcome of evaluating a session's output once nothing is ready:
/// a deadlock if the item is not complete; else the failure of the first
/// failed `must_execute` step; else the resolved output.
pub open spec fn output_outcome(it: ItemState) -> Result<FlowResult, ExecutionError> {
    if !view_complete(it@) {
        Err(ExecutionError::Deadlock)
    } else {
        match must_failure_upto(it.flow_spec().steps@, it@, it@.num_steps) {
            Some(e) => Ok(FlowResult::Failed(e)),
            None => resolved(it.flow_spec().output, it),
        }
    }
}

/// Those of `steps` that have completed, in order.
pub open spec fn completed_among(v: ItemView, steps: Seq<usize>) -> Seq<usize>
    decreases steps.len(),
{
    if steps.len() == 0 {
        Seq::empty()
    } else {
        let rest = completed_among(v, steps.drop_last());
        let i = steps.last();
        if i < v.num_steps && v.results[i as int] is Some {
            rest.push(i)
        } else {
            rest
        }
    }
}

/// A debugging session on one item of a flow.
pub struct DebugExecutor {
    run_id: u128,
    item: ItemState,
}

impl DebugExecutor {
    pub closed spec fn run_id_spec(&self) -> u128 {
        self.run_id
    }

    /// The state of the session's item.
    pub closed spec fn item_spec(&self) -> ItemState {
        self.item
    }

    pub open spec fn wf(&self) -> bool {
        self.item_spec().wf()
    }

    /// The flow's steps.
    pub open spec fn steps(&self) -> Seq<Step> {
        self.item_spec().flow_spec().steps@
    }

    /// Start a session on `flow` with `input`: nothing queued.
    pub fn new(
        run_id: u128,
        flow: Arc<Flow>,
        input: serde_json::Value,
        variables: Vec<(String, serde_json::Value)>,
    ) -> (r: Self)
        requires
            flow.steps@.len() < usize::MAX,
        ensures
            r.wf(),
            r.run_id_spec() == run_id,
            r.item_spec().flow_spec() == *flow,
            r.item_spec().input_spec() == input,
            r.item_spec().variables_spec() == variables@,
            r.item_spec()@ == ItemState::initial_view(flow.steps@.len()),
    {
        DebugExecutor { run_id, item: ItemState::new(flow, input, Arc::new(variables)) }
    }

    /// The session's run.
    pub fn run_id(&self) -> (r: u128)
        ensures
            r == self.run_id_spec(),
    {
        self.run_id
    }

    /// The flow being debugged.
    pub fn flow(&self) -> (r: &Arc<Flow>)
        ensures
            **r == self.item_spec().flow_spec(),
    {
        self.item.flow()
    }

    /// The item's state.
    pub fn item_state(&self) -> (r: &ItemState)
        ensures
            *r == self.item_spec(),
    {
        &self.item
    }

    /// The ready steps, in increasing order.
    pub fn ready_steps(&self) -> (r: Vec<usize>)
        requires
            self.wf(),
        ensures
            r@ == sorted_below(ready_set(self.item_spec()@), self.item_spec()@.num_steps),
    {
        proof {
            self.item.lemma_wf();
        }
        let list = bitset_to_vec(&self.item.ready_steps());
        proof {
            lemma_sorted_unique(list@, ready_set(self.item@), self.item@.num_steps);
        }
        list
    }

    /// The result of a completed step.
    pub fn step_result(&self, step_index: usize) -> (r: Option<FlowResult>)
        requires
            self.wf(),
        ensures
            r == (if step_index < self.item_spec()@.num_steps {
                self.item_spec()@.results[step_index as int]
            } else {
                None
            }),
    {
        match self.item.get_step_result(step_index) {
            Some(r) => Some(r.clone()),
            None => None,
        }
    }

    /// Whether a step has completed.
    pub fn is_step_completed(&self, step_index: usize) -> (r: bool)
        ensures
            r == self.item_spec()@.completed.contains(step_index),
    {
        self.item.is_completed(step_index)
    }

    /// Record the result of a step that the session ran: the step completes
    /// as it does in execution. Returns the steps it unblocked, in increasing
    /// order (none when it had already completed).
    pub fn complete_step(&mut self, step_index: usize, result: FlowResult) -> (r: Vec<usize>)
        requires
            old(self).wf(),
            step_index < old(self).item_spec()@.num_steps,
        ensures
            final(self).wf(),
            final(self).run_id_spec() == old(self).run_id_spec(),
            final(self).item_spec().same_context(&old(self).item_spec()),
            final(self).item_spec()@ == completed_view(old(self).item_spec()@, step_index, result),
            r@ == sorted_below(
                if old(self).item_spec()@.completed.contains(step_index) {
                    Set::<usize>::empty()
                } else {
                    unblocked_by(old(self).item_spec()@, step_index)
                },
                old(self).item_spec()@.num_steps,
            ),
    {
        proof {
            self.item.lemma_wf();
        }
        let ghost n = self.item@.num_steps;
        let unblocked = self.item.mark_completed(step_index, result);
        let list = bitset_to_vec(&unblocked);
        proof {
            assert forall|x: usize| #[trigger] bit_members(unblocked).contains(x) implies x < n by {}
            lemma_sorted_unique(list@, bit_members(unblocked), n);
        }
        list
    }

    /// The flow's output resolved for the item.
    pub fn resolve_output(&self) -> (r: Result<FlowResult, ExecutionError>)
        requires
            self.wf(),
        ensures
            r == resolved(self.item_spec().flow_spec().output, self.item_spec()),
    {
        resolve(&self.item, &self.item.flow().output)
    }

    /// The index of the step with id `step_id`.
    fn find_step(&self, step_id: &str) -> (r: Option<usize>)
        requires
            self.wf(),
        ensures
            r == lookup_name(step_names(self.steps()), step_id@),
            r matches Some(i) ==> i < self.item_spec()@.num_steps,
    {
        proof {
            self.item.lemma_wf();
            lemma_lookup_name_bound(step_names(self.steps()), step_id@);
        }
        self.item.step_index_map().step_index(step_id)
    }

    /// The ids of the steps at `idxs`.
    fn ids_for(&self, idxs: &Vec<usize>) -> (r: Vec<String>)
        requires
            self.wf(),
            forall|k: int| 0 <= k < idxs@.len() ==> #[trigger] idxs@[k] < self.steps().len(),
        ensures
            r@.map_values(|s: String| s@) == ids_of(self.steps(), idxs@),
    {
        let steps = &self.item.flow().steps;
        let mut out: Vec<String> = Vec::new();
        let mut k: usize = 0;
        while k < idxs.len()
            invariant
                *steps == self.item_spec().flow_spec().steps,
                forall|j: int| 0 <= j < idxs@.len() ==> #[trigger] idxs@[j] < self.steps().len(),
                k <= idxs@.len(),
                out@.map_values(|s: String| s@) == ids_of(self.steps(), idxs@.take(k as int)),
            decreases idxs@.len() - k,
        {
            let ghost before = out@;
            out.push(steps[idxs[k]].id.clone());
            proof {
                assert(out@.map_values(|s: String| s@) =~= before.map_values(|s: String| s@).push(self.steps()[idxs@[k as int] as int].id@));
                assert(ids_of(self.steps(), idxs@.take(k + 1)) =~= ids_of(self.steps(), idxs@.take(k as int)).push(
                    self.steps()[idxs@[k as int] as int].id@,
                ));
            }
            k = k + 1;
        }
        proof {
            assert(idxs@.take(idxs@.len() as int) =~= idxs@);
        }
        out
    }

    /// Queue a step and the dependencies it needs; returns the ids of the
    /// steps newly queued, in step order. An unknown step id is an error.
    pub fn queue_step(&mut self, step_id: &str) -> (r: Result<Vec<String>, ExecutionError>)
        requires
            old(self).wf(),
        ensures
            final(self).wf(),
            final(self).run_id_spec() == old(self).run_id_spec(),
            final(self).item_spec().same_context(&old(self).item_spec()),
            match lookup_name(step_names(old(self).steps()), step_id@) {
                None => r == Err::<Vec<String>, ExecutionError>(ExecutionError::StepNotFound) && final(self).item_spec()@
                    == old(self).item_spec()@,
                Some(i) => {
                    let g = old(self).item_spec().graph();
                    let v = old(self).item_spec()@;
                    &&& final(self).item_spec()@ == added_view(v, g, i)
                    &&& r matches Ok(ids) && ids@.map_values(|s: String| s@) == ids_of(
                        old(self).steps(),
                        sorted_below(reach_set(g, v.needed, i).difference(v.needed), v.num_steps),
                    )
                },
            },
    {
        match self.find_step(step_id) {
            None => Err(ExecutionError::StepNotFound),
            Some(i) => {
                let newly = self.queue_index(i);
                Ok(self.ids_for(&newly))
            },
        }
    }

    /// Queue step `i`; returns the steps newly queued, in increasing order.
    fn queue_index(&mut self, i: usize) -> (r: Vec<usize>)
        requires
            old(self).wf(),
            i < old(self).item_spec()@.num_steps,
        ensures
            final(self).wf(),
            final(self).run_id_spec() == old(self).run_id_spec(),
            final(self).item_spec().same_context(&old(self).item_spec()),
            final(self).item_spec().graph() == old(self).item_spec().graph(),
            final(self).item_spec()@ == added_view(old(self).item_spec()@, old(self).item_spec().graph(), i),
            r@ == sorted_below(
                reach_set(old(self).item_spec().graph(), old(self).item_spec()@.needed, i).difference(
                    old(self).item_spec()@.needed,
                ),
                old(self).item_spec()@.num_steps,
            ),
            forall|k: int| 0 <= k < r@.len() ==> #[trigger] r@[k] < old(self).steps().len(),
    {
        proof {
            self.item.lemma_wf();
        }
        let ghost s = reach_set(self.item.graph(), self.item@.needed, i).difference(self.item@.needed);
        let ghost n = self.item@.num_steps;
        let newly = self.item.add_or_update_needed(i);
        let list = bitset_to_vec(&newly);
        proof {
            self.item.lemma_wf();
            assert forall|x: usize| #[trigger] s.contains(x) implies x < n by {
                assert(self.item@.needed.contains(x));
            }
            lemma_sorted_unique(list@, s, n);
            lemma_sorted_below(s, n);
            assert forall|k: int| 0 <= k < list@.len() implies #[trigger] list@[k] < n by {
                assert(sorted_below(s, n)[k] < n);
            }
            assert(self.item.graph() =~= old(self).item.graph());
        }
        list
    }

    /// Queue every step marked `must_execute`, in step order, with its
    /// dependencies; returns the ids of all steps newly queued.
    pub fn queue_must_execute(&mut self) -> (r: Vec<String>)
        requires
            old(self).wf(),
        ensures
            final(self).wf(),
            final(self).run_id_spec() == old(self).run_id_spec(),
            final(self).item_spec().same_context(&old(self).item_spec()),
            ({
                let g = old(self).item_spec().graph();
                let v = old(self).item_spec()@;
                let q = queue_all(v, g, sorted_below(must_execute_set(old(self).steps()), v.num_steps));
                &&& final(self).item_spec()@ == q.0
                &&& r@.map_values(|s: String| s@) == ids_of(old(self).steps(), q.1)
            }),
    {
        proof {
            self.item.lemma_wf();
        }
        let ghost g = self.item.graph();
        let ghost v0 = self.item@;
        let ghost steps = self.steps();
        let ghost must = sorted_below(must_execute_set(steps), v0.num_steps);
        let n = self.item.num_steps();
        let mut all: Vec<usize> = Vec::new();
        let mut idx: usize = 0;
        proof {
            lemma_sorted_below(must_execute_set(steps), v0.num_steps);
        }
        while idx < n
            invariant
                self.wf(),
                self.run_id_spec() == old(self).run_id_spec(),
                self.item_spec().same_context(&old(self).item_spec()),
                self.item_spec().graph() == g,
                steps == self.steps(),
                n == v0.num_steps,
                n == steps.len(),
                idx <= n,
                ({
                    let q = queue_all(v0, g, sorted_below(must_execute_set(steps), idx as nat));
                    &&& self.item_spec()@ == q.0
                    &&& all@ == q.1
                }),
                forall|k: int| 0 <= k < all@.len() ==> #[trigger] all@[k] < n,
            decreases n - idx,
        {
            let must_run = self.item.flow().steps[idx].must_execute;
            let ghost before = sorted_below(must_execute_set(steps), idx as nat);
            if must_run {
                proof {
                    self.item.lemma_wf();
                    assert(sorted_below(must_execute_set(steps), (idx + 1) as nat) == before.push(idx));
                    assert(before.push(idx).drop_last() =~= before);
                }
                let newly = self.queue_index(idx);
                let ghost a0 = all@;
                let mut k: usize = 0;
                while k < newly.len()
                    invariant
                        k <= newly@.len(),
                        all@ == a0 + newly@.take(k as int),
                        forall|j: int| 0 <= j < newly@.len() ==> #[trigger] newly@[j] < n,
                        forall|j: int| 0 <= j < all@.len() ==> #[trigger] all@[j] < n,
                    decreases newly@.len() - k,
                {
                    all.push(newly[k]);
                    proof {
                        assert(a0 + newly@.take(k + 1) =~= (a0 + newly@.take(k as int)).push(newly@[k as int]));
                    }
                    k = k + 1;
                }
                proof {
                    assert(newly@.take(newly@.len() as int) =~= newly@);
                }
            } else {
                proof {
                    assert(sorted_below(must_execute_set(steps), (idx + 1) as nat) == before);
                }
            }
            idx = idx + 1;
        }
        self.ids_for(&all)
    }

    /// The steps queued but not completed, in step order, with their status.
    pub fn get_queued_steps(&self) -> (r: Vec<StepExecution>)
        requires
            self.wf(),
        ensures
            r@.map_values(|e: StepExecution| execution_view(e)) == queued_upto(
                self.steps(),
                self.item_spec()@,
                self.item_spec()@.num_steps,
            ),
    {
        proof {
            self.item.lemma_wf();
        }
        let ready = self.item.ready_steps();
        let steps = &self.item.flow().steps;
        let n = self.item.num_steps();
        let mut out: Vec<StepExecution> = Vec::new();
        let mut i: usize = 0;
        while i < n
            invariant
                self.wf(),
                *steps == self.item_spec().flow_spec().steps,
                n == self.item_spec()@.num_steps,
                n == steps@.len(),
                bit_members(ready) == ready_set(self.item_spec()@),
                i <= n,
                out@.map_values(|e: StepExecution| execution_view(e)) == queued_upto(self.steps(), self.item_spec()@, i as nat),
            decreases n - i,
        {
            if self.item.is_needed(i) && !self.item.is_completed(i) {
                let status = if crate::bitset::bitset_contains(&ready, i) {
                    StepStatus::Runnable
                } else {
                    StepStatus::Blocked
                };
                let ghost before = out@;
                out.push(StepExecution { step_index: i, step_id: steps[i].id.clone(), component: steps[i].component.clone(), status });
                proof {
                    assert(out@.map_values(|e: StepExecution| execution_view(e)) =~= before.map_values(
                        |e: StepExecution| execution_view(e),
                    ).push(listed(self.steps(), i, status)));
                }
            }
            i = i + 1;
        }
        out
    }

    /// Every step with its status: the one the store recorded (`stored`,
    /// the last entry for a step counting), else runnable when ready and
    /// blocked otherwise.
    pub fn list_all_steps(&self, stored: &Vec<(usize, StepStatus)>) -> (r: Vec<StepExecution>)
        requires
            self.wf(),
        ensures
            r@.map_values(|e: StepExecution| execution_view(e)) == listed_upto(
                self.steps(),
                self.item_spec()@,
                stored@,
                self.item_spec()@.num_steps,
            ),
    {
        proof {
            self.item.lemma_wf();
        }
        let ready = self.item.ready_steps();
        let steps = &self.item.flow().steps;
        let n = self.item.num_steps();
        let mut out: Vec<StepExecution> = Vec::new();
        let mut i: usize = 0;
        while i < n
            invariant
                self.wf(),
                *steps == self.item_spec().flow_spec().steps,
                n == self.item_spec()@.num_steps,
                n == steps@.len(),
                bit_members(ready) == ready_set(self.item_spec()@),
                i <= n,
                out@.map_values(|e: StepExecution| execution_view(e)) == listed_upto(
                    self.steps(),
                    self.item_spec()@,
                    stored@,
                    i as nat,
                ),
            decreases n - i,
        {
            let status = match status_of(stored, i) {
                Some(st) => st,
                None => if crate::bitset::bitset_contains(&ready, i) {
                    StepStatus::Runnable
                } else {
                    StepStatus::Blocked
                },
            };
            let ghost before = out@;
            out.push(StepExecution { step_index: i, step_id: steps[i].id.clone(), component: steps[i].component.clone(), status });
            proof {
                assert(out@.map_values(|e: StepExecution| execution_view(e)) =~= before.map_values(
                    |e: StepExecution| execution_view(e),
                ).push(listed(self.steps(), i, status)));
            }
            i = i + 1;
        }
        out
    }

    /// The result of a step, by id: `None` for an unknown or uncompleted
    /// step.
    pub fn get_step_result(&self, step_id: &str) -> (r: Option<FlowResult>)
        requires
            self.wf(),
        ensures
            r == (match lookup_name(step_names(self.steps()), step_id@) {
                Some(i) => self.item_spec()@.results[i as int],
                None => None,
            }),
    {
        match self.find_step(step_id) {
            Some(i) => self.step_result(i),
            None => None,
        }
    }

    /// The output of a step, by id: an unknown step and an uncompleted one
    /// are errors.
    pub fn get_step_output(&self, step_id: &str) -> (r: Result<FlowResult, ExecutionError>)
        requires
            self.wf(),
        ensures
            r == (match lookup_name(step_names(self.steps()), step_id@) {
                Some(i) => match self.item_spec()@.results[i as int] {
                    Some(res) => Ok(res),
                    None => Err(ExecutionError::StepNotCompleted),
                },
                None => Err(ExecutionError::StepNotFound),
            }),
    {
        match self.find_step(step_id) {
            Some(i) => match self.step_result(i) {
                Some(res) => Ok(res),
                None => Err(ExecutionError::StepNotCompleted),
            },
            None => Err(ExecutionError::StepNotFound),
        }
    }

    /// Inspect a step by id: its identity, error action and state (runnable
    /// when ready, else completed, failed or blocked by its result).
    pub fn inspect_step(&self, step_id: &str) -> (r: Result<StepInspection, ExecutionError>)
        requires
            self.wf(),
        ensures
            match lookup_name(step_names(self.steps()), step_id@) {
                None => r is Err && r->Err_0 == ExecutionError::StepNotFound,
                Some(i) => r matches Ok(ins) && {
                    let st = self.steps()[i as int];
                    &&& ins.metadata.step_index == i
                    &&& ins.metadata.step_id@ == st.id@
                    &&& ins.metadata.component@ == st.component@
                    &&& same_expr(ins.input, st.input)
                    &&& ins.on_error == st.on_error
                    &&& ins.state == (if ready_set(self.item_spec()@).contains(i) {
                        StepStatus::Runnable
                    } else {
                        match self.item_spec()@.results[i as int] {
                            Some(FlowResult::Failed(_)) => StepStatus::Failed,
                            Some(_) => StepStatus::Completed,
                            None => StepStatus::Blocked,
                        }
                    })
                },
            },
    {
        let i = match self.find_step(step_id) {
            Some(i) => i,
            None => {
                return Err(ExecutionError::StepNotFound);
            },
        };
        proof {
            self.item.lemma_wf();
        }
        let ready = self.item.ready_steps();
        let state = if crate::bitset::bitset_contains(&ready, i) {
            StepStatus::Runnable
        } else {
            match self.step_result(i) {
                Some(FlowResult::Failed(_)) => StepStatus::Failed,
                Some(_) => StepStatus::Completed,
                None => StepStatus::Blocked,
            }
        };
        let step = &self.item.flow().steps[i];
        Ok(StepInspection {
            metadata: StepMetadata { step_index: i, step_id: step.id.clone(), component: step.component.clone() },
            input: clone_expr(&step.input),
            on_error: step.on_error.clone(),
            state,
        })
    }

    /// Restore an interrupted session from what the store recorded: the
    /// results of completed steps (`results`), the recorded step statuses
    /// (`statuses`, the last entry for a step counting) and the queued step
    /// ids (`queue`). The results are applied in order; the queued steps
    /// that are known and not completed are queued again. Returns the ready
    /// steps, in increasing order, whose recorded status must be corrected to
    /// runnable: those not among the recovered steps and recorded as anything
    /// else, no record counting as blocked.
    pub fn restore(
        &mut self,
        results: &Vec<(usize, FlowResult)>,
        statuses: &Vec<(usize, StepStatus)>,
        queue: &Option<Vec<String>>,
    ) -> (r: Vec<usize>)
        requires
            old(self).wf(),
            forall|k: int| 0 <= k < results@.len() ==> #[trigger] results@[k].0 < old(self).steps().len(),
        ensures
            final(self).wf(),
            final(self).run_id_spec() == old(self).run_id_spec(),
            final(self).item_spec().same_context(&old(self).item_spec()),
            ({
                let v1 = results_applied(old(self).item_spec()@, results@);
                let recovered = results@.map_values(|e: (usize, FlowResult)| e.0).to_set();
                let g1 = DepGraph { completed: v1.completed, ..old(self).item_spec().graph() };
                &&& r@ == fixes_upto(v1, recovered, statuses@, v1.num_steps)
                &&& final(self).item_spec()@ == (match *queue {
                    Some(ids) => requeued(v1, g1, step_names(old(self).steps()), ids@.map_values(|s: String| s@)),
                    None => v1,
                })
            }),
    {
        proof {
            self.item.lemma_wf();
        }
        let ghost g0 = self.item.graph();
        let ghost v0 = self.item@;
        let ghost proj = |e: (usize, FlowResult)| e.0;
        let n = self.item.num_steps();
        let mut recovered: Vec<usize> = Vec::new();
        let mut k: usize = 0;
        proof {
            assert(results@.take(0) =~= Seq::<(usize, FlowResult)>::empty());
            assert(self.item.graph() =~= DepGraph { completed: self.item@.completed, ..g0 });
        }
        while k < results.len()
            invariant
                self.wf(),
                self.run_id_spec() == old(self).run_id_spec(),
                self.item_spec().same_context(&old(self).item_spec()),
                n == self.item_spec()@.num_steps,
                n == old(self).steps().len(),
                forall|j: int| 0 <= j < results@.len() ==> #[trigger] results@[j].0 < n,
                k <= results@.len(),
                proj == (|e: (usize, FlowResult)| e.0),
                self.item_spec()@ == results_applied(v0, results@.take(k as int)),
                self.item_spec().graph() == (DepGraph { completed: self.item_spec()@.completed, ..g0 }),
                recovered@ == results@.take(k as int).map_values(proj),
            decreases results@.len() - k,
        {
            let idx = results[k].0;
            let res = results[k].1.clone();
            self.item.mark_completed(idx, res);
            recovered.push(idx);
            proof {
                let t = results@.take(k + 1);
                assert(t.drop_last() =~= results@.take(k as int));
                assert(t.last() == results@[k as int]);
                assert(recovered@ =~= t.map_values(proj));
                assert(self.item.graph() =~= DepGraph { completed: self.item@.completed, ..g0 });
            }
            k = k + 1;
        }
        proof {
            assert(results@.take(results@.len() as int) =~= results@);
        }
        let ghost v1 = self.item@;
        let ghost rec_set = results@.map_values(proj).to_set();
        let ready = self.item.ready_steps();
        let mut fixes: Vec<usize> = Vec::new();
        let mut i: usize = 0;
        while i < n
            invariant
                self.wf(),
                self.item_spec()@ == v1,
                n == v1.num_steps,
                bit_members(ready) == ready_set(v1),
                recovered@.to_set() == rec_set,
                i <= n,
                fixes@ == fixes_upto(v1, rec_set, statuses@, i as nat),
            decreases n - i,
        {
            let current = match status_of(statuses, i) {
                Some(st) => st,
                None => StepStatus::Blocked,
            };
            let is_runnable = match current {
                StepStatus::Runnable => true,
                _ => false,
            };
            if crate::bitset::bitset_contains(&ready, i) && !vec_contains_usize(&recovered, i) && !is_runnable {
                fixes.push(i);
            }
            i = i + 1;
        }
        match queue {
            None => {},
            Some(ids) => {
                let ghost names = step_names(old(self).steps());
                let ghost g1 = DepGraph { completed: v1.completed, ..g0 };
                let ghost idv = ids@.map_values(|s: String| s@);
                let mut j: usize = 0;
                proof {
                    assert(idv.take(0) =~= Seq::<Seq<char>>::empty());
                }
                while j < ids.len()
                    invariant
                        self.wf(),
                        self.run_id_spec() == old(self).run_id_spec(),
                        self.item_spec().same_context(&old(self).item_spec()),
                        names == step_names(self.steps()),
                        self.item_spec().graph() == g1,
                        g1.completed == v1.completed,
                        idv == ids@.map_values(|s: String| s@),
                        j <= ids@.len(),
                        self.item_spec()@ == requeued(v1, g1, names, idv.take(j as int)),
                        self.item_spec()@.completed == v1.completed,
                    decreases ids@.len() - j,
                {
                    proof {
                        assert(idv.take(j + 1).drop_last() =~= idv.take(j as int));
                        assert(idv.take(j + 1).last() == ids@[j as int]@);
                    }
                    match self.find_step(ids[j].as_str()) {
                        Some(si) => {
                            if !self.item.is_completed(si) {
                                let _ = self.queue_index(si);
                            }
                        },
                        None => {},
                    }
                    j = j + 1;
                }
                proof {
                    assert(idv.take(ids@.len() as int) =~= idv);
                }
            },
        }
        fixes
    }

    /// Start evaluating a step: an unknown step is an error; a completed
    /// step gives its result at once; otherwise the step is queued with its
    /// dependencies and `None` says that tasks must run.
    pub fn begin_eval_step(&mut self, step_id: &str) -> (r: Result<Option<FlowResult>, ExecutionError>)
        requires
            old(self).wf(),
        ensures
            final(self).wf(),
            final(self).run_id_spec() == old(self).run_id_spec(),
            final(self).item_spec().same_context(&old(self).item_spec()),
            match lookup_name(step_names(old(self).steps()), step_id@) {
                None => r == Err::<Option<FlowResult>, ExecutionError>(ExecutionError::StepNotFound)
                    && final(self).item_spec()@ == old(self).item_spec()@,
                Some(i) => match old(self).item_spec()@.results[i as int] {
                    Some(res) => r == Ok::<Option<FlowResult>, ExecutionError>(Some(res))
                        && final(self).item_spec()@ == old(self).item_spec()@,
                    None => r == Ok::<Option<FlowResult>, ExecutionError>(None) && final(self).item_spec()@
                        == added_view(old(self).item_spec()@, old(self).item_spec().graph(), i),
                },
            },
    {
        match self.find_step(step_id) {
            None => Err(ExecutionError::StepNotFound),
            Some(i) => match self.step_result(i) {
                Some(res) => Ok(Some(res)),
                None => {
                    let _ = self.queue_index(i);
                    Ok(None)
                },
            },
        }
    }

    /// Progress of evaluating step `step_index`: its result once completed;
    /// a deadlock when it is not completed and nothing is ready; `None` while
    /// tasks can run.
    pub fn eval_step_progress(&self, step_index: usize) -> (r: Result<Option<FlowResult>, ExecutionError>)
        requires
            self.wf(),
            step_index < self.item_spec()@.num_steps,
        ensures
            r == (match self.item_spec()@.results[step_index as int] {
                Some(res) => Ok(Some(res)),
                None => if ready_set(self.item_spec()@) == Set::<usize>::empty() {
                    Err(ExecutionError::Deadlock)
                } else {
                    Ok(None)
                },
            }),
    {
        match self.step_result(step_index) {
            Some(res) => Ok(Some(res)),
            None => {
                let ready = self.item.ready_steps();
                if crate::bitset::bitset_is_empty(&ready) {
                    Err(ExecutionError::Deadlock)
                } else {
                    Ok(None)
                }
            },
        }
    }

    /// Start evaluating the output: queue the steps the output needs, then
    /// every `must_execute` step, in step order.
    pub fn begin_eval_output(&mut self)
        requires
            old(self).wf(),
        ensures
            final(self).wf(),
            final(self).run_id_spec() == old(self).run_id_spec(),
            final(self).item_spec().same_context(&old(self).item_spec()),
            ({
                let it = old(self).item_spec();
                let g = it.graph();
                let outs = sorted_below(
                    crate::flow::expr_refs(it.flow_spec().output, g.names, g.defined).difference(it@.completed),
                    it@.num_steps,
                );
                let v1 = queue_all(it@, g, outs).0;
                final(self).item_spec()@ == queue_all(v1, g, sorted_below(must_execute_set(old(self).steps()), it@.num_steps)).0
            }),
    {
        proof {
            self.item.lemma_wf();
        }
        let ghost g = self.item.graph();
        let ghost v0 = self.item@;
        let n = self.item.num_steps();
        let needs = self.item.needed_steps(&self.item.flow().output);
        let list = bitset_to_vec(&needs);
        let ghost s = crate::flow::expr_refs(self.item.flow_spec().output, g.names, g.defined).difference(v0.completed);
        proof {
            assert forall|x: usize| #[trigger] s.contains(x) implies x < n by {
                crate::deps::lemma_expr_refs_bound(self.item.flow_spec().output, g.names, g.defined);
            }
            lemma_sorted_unique(list@, s, n as nat);
            lemma_sorted_below(s, n as nat);
        }
        let mut k: usize = 0;
        proof {
            assert(list@.take(0) =~= Seq::<usize>::empty());
        }
        while k < list.len()
            invariant
                self.wf(),
                self.run_id_spec() == old(self).run_id_spec(),
                self.item_spec().same_context(&old(self).item_spec()),
                self.item_spec().graph() == g,
                n == v0.num_steps,
                n == self.item_spec()@.num_steps,
                forall|j: int| 0 <= j < list@.len() ==> #[trigger] list@[j] < n,
                k <= list@.len(),
                self.item_spec()@ == queue_all(v0, g, list@.take(k as int)).0,
            decreases list@.len() - k,
        {
            proof {
                assert(list@.take(k + 1).drop_last() =~= list@.take(k as int));
                assert(list@[k as int] < n);
                self.item.lemma_wf();
            }
            let _ = self.queue_index(list[k]);
            k = k + 1;
        }
        proof {
            assert(list@.take(list@.len() as int) =~= list@);
        }
        let ghost v1 = self.item@;
        let ghost steps = self.steps();
        let mut idx: usize = 0;
        proof {
            lemma_sorted_below(must_execute_set(steps), n as nat);
        }
        while idx < n
            invariant
                self.wf(),
                self.run_id_spec() == old(self).run_id_spec(),
                self.item_spec().same_context(&old(self).item_spec()),
                self.item_spec().graph() == g,
                steps == self.steps(),
                n == v0.num_steps,
                n == steps.len(),
                idx <= n,
                self.item_spec()@ == queue_all(v1, g, sorted_below(must_execute_set(steps), idx as nat)).0,
            decreases n - idx,
        {
            let must_run = self.item.flow().steps[idx].must_execute;
            let ghost before = sorted_below(must_execute_set(steps), idx as nat);
            if must_run {
                proof {
                    self.item.lemma_wf();
                    assert(sorted_below(must_execute_set(steps), (idx + 1) as nat) == before.push(idx));
                    assert(before.push(idx).drop_last() =~= before);
                }
                let _ = self.queue_index(idx);
            } else {
                proof {
                    assert(sorted_below(must_execute_set(steps), (idx + 1) as nat) == before);
                }
            }
            idx = idx + 1;
        }
    }

    /// Progress of evaluating the output: `None` while steps are ready to
    /// run; once nothing is ready, the outcome of the evaluation.
    pub fn eval_output_progress(&self) -> (r: Result<Option<FlowResult>, ExecutionError>)
        requires
            self.wf(),
        ensures
            ready_set(self.item_spec()@) != Set::<usize>::empty() ==> r == Ok::<Option<FlowResult>, ExecutionError>(None),
            ready_set(self.item_spec()@) == Set::<usize>::empty() ==> r == (match output_outcome(self.item_spec()) {
                Ok(res) => Ok::<Option<FlowResult>, ExecutionError>(Some(res)),
                Err(x) => Err(x),
            }),
    {
        proof {
            self.item.lemma_wf();
        }
        let ready = self.item.ready_steps();
        if !crate::bitset::bitset_is_empty(&ready) {
            return Ok(None);
        }
        proof {
            assert(ready_set(self.item_spec()@) =~= Set::<usize>::empty());
        }
        if !self.item.is_complete() {
            return Err(ExecutionError::Deadlock);
        }
        let n = self.item.num_steps();
        let mut i: usize = 0;
        while i < n
            invariant
                self.wf(),
                n == self.item_spec()@.num_steps,
                n == self.steps().len(),
                i <= n,
                ready_set(self.item_spec()@) == Set::<usize>::empty(),
                view_complete(self.item_spec()@),
                must_failure_upto(self.steps(), self.item_spec()@, i as nat) is None,
            decreases n - i,
        {
            if self.item.flow().steps[i].must_execute {
                match self.step_result(i) {
                    Some(FlowResult::Failed(e)) => {
                        proof {
                            assert(must_failure_upto(self.steps(), self.item_spec()@, (i + 1) as nat) == Some(e));
                            lemma_must_failure_stays(self.steps(), self.item_spec()@, (i + 1) as nat, n as nat);
                        }
                        return Ok(Some(FlowResult::Failed(e)));
                    },
                    _ => {},
                }
            }
            i = i + 1;
        }
        match self.resolve_output() {
            Ok(res) => Ok(Some(res)),
            Err(x) => Err(x),
        }
    }

    /// The results of those of `steps` that completed, in order, as step run
    /// results.
    pub fn results_for_steps(&self, steps: &Vec<usize>) -> (r: Vec<StepRunResult>)
        requires
            self.wf(),
        ensures
            r@.len() == completed_among(self.item_spec()@, steps@).len(),
            forall|k: int|
                0 <= k < r@.len() ==> {
                    let i = completed_among(self.item_spec()@, steps@)[k];
                    &&& (#[trigger] r@[k]).step_index == i
                    &&& r@[k].step_name@ == self.steps()[i as int].id@
                    &&& r@[k].component@ == self.steps()[i as int].component@
                    &&& Some(r@[k].result) == self.item_spec()@.results[i as int]
                },
    {
        proof {
            self.item.lemma_wf();
        }
        let flow_steps = &self.item.flow().steps;
        let mut out: Vec<StepRunResult> = Vec::new();
        let mut k: usize = 0;
        while k < steps.len()
            invariant
                self.wf(),
                *flow_steps == self.item_spec().flow_spec().steps,
                flow_steps@.len() == self.item_spec()@.num_steps,
                k <= steps@.len(),
                out@.len() == completed_among(self.item_spec()@, steps@.take(k as int)).len(),
                forall|j: int|
                    0 <= j < out@.len() ==> {
                        let i = completed_among(self.item_spec()@, steps@.take(k as int))[j];
                        &&& (#[trigger] out@[j]).step_index == i
                        &&& out@[j].step_name@ == self.steps()[i as int].id@
                        &&& out@[j].component@ == self.steps()[i as int].component@
                        &&& Some(out@[j].result) == self.item_spec()@.results[i as int]
                    },
            decreases steps@.len() - k,
        {
            let i = steps[k];
            proof {
                assert(steps@.take(k + 1).drop_last() =~= steps@.take(k as int));
                assert(steps@.take(k + 1).last() == steps@[k as int]);
            }
            match self.step_result(i) {
                Some(res) => {
                    out.push(StepRunResult::new(i, flow_steps[i].id.clone(), flow_steps[i].component.clone(), res));
                },
                None => {},
            }
            k = k + 1;
        }
        proof {
            assert(steps@.take(steps@.len() as int) =~= steps@);
        }
        out
    }

    /// The completed steps the store recorded, as step run results.
    pub fn get_completed_steps(&self, recorded: &Vec<(usize, String, FlowResult)>) -> (r: Vec<StepRunResult>)
        requires
            self.wf(),
            forall|k: int| 0 <= k < recorded@.len() ==> #[trigger] recorded@[k].0 < self.steps().len(),
        ensures
            r@.len() == recorded@.len(),
            forall|k: int|
                0 <= k < r@.len() ==> {
                    &&& #[trigger] r@[k].step_index == recorded@[k].0
                    &&& r@[k].step_name == recorded@[k].1
                    &&& r@[k].component@ == self.steps()[recorded@[k].0 as int].component@
                    &&& r@[k].result == recorded@[k].2
                },
    {
        let steps = &self.item.flow().steps;
        let mut out: Vec<StepRunResult> = Vec::new();
        let mut k: usize = 0;
        while k < recorded.len()
            invariant
                *steps == self.item_spec().flow_spec().steps,
                forall|j: int| 0 <= j < recorded@.len() ==> #[trigger] recorded@[j].0 < self.steps().len(),
                k <= recorded@.len(),
                out@.len() == k,
                forall|j: int|
                    0 <= j < k ==> {
                        &&& #[trigger] out@[j].step_index == recorded@[j].0
                        &&& out@[j].step_name == recorded@[j].1
                        &&& out@[j].component@ == self.steps()[recorded@[j].0 as int].component@
                        &&& out@[j].result == recorded@[j].2
                    },
            decreases recorded@.len() - k,
        {
            let idx = recorded[k].0;
            out.push(
                StepRunResult::new(idx, recorded[k].1.clone(), steps[idx].component.clone(), recorded[k].2.clone()),
            );
            k = k + 1;
        }
        out
    }
}

/// The status recorded for step `i`: the last entry for it.
pub fn status_of(stored: &Vec<(usize, StepStatus)>, i: usize) -> (r: Option<StepStatus>)
    ensures
        r == assoc_get(stored@, i),
{
    let mut found: Option<StepStatus> = None;
    let mut k: usize = 0;
    while k < stored.len()
        invariant
            k <= stored@.len(),
            found == assoc_get(stored@.take(k as int), i),
        decreases stored@.len() - k,
    {
        proof {
            assert(stored@.take(k + 1).drop_last() =~= stored@.take(k as int));
            assert(stored@.take(k + 1).last() == stored@[k as int]);
        }
        if stored[k].0 == i {
            found = Some(stored[k].1);
        }
        k = k + 1;
    }
    proof {
        assert(stored@.take(stored@.len() as int) =~= stored@);
    }
    found
}

/// Whether `v` holds `x`.
pub fn vec_contains_usize(v: &Vec<usize>, x: usize) -> (r: bool)
    ensures
        r == v@.to_set().contains(x),
{
    let mut i: usize = 0;
    while i < v.len()
        invariant
            i <= v@.len(),
            forall|j: int| 0 <= j < i ==> v@[j] != x,
        decreases v@.len() - i,
    {
        if v[i] == x {
            proof {
                assert(v@.contains(x));
            }
            return true;
        }
        i = i + 1;
    }
    false
}

/// Once a failure is found among the first `k` steps, it stays the first.
proof fn lemma_must_failure_stays(steps: Seq<Step>, v: ItemView, k: nat, m: nat)
    requires
        k <= m,
        must_failure_upto(steps, v, k) is Some,
    ensures
        must_failure_upto(steps, v, m) == must_failure_upto(steps, v, k),
    decreases m - k,
{
    if k < m {
        lemma_must_failure_stays(steps, v, k, (m - 1) as nat);
    }
}

} // verus!
