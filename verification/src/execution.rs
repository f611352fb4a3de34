//! The decisions of the execution loop: how many tasks to start, how started
//! and unblocked tasks are grouped for the journal, when a failed task is
//! retried, how a submitted sub-flow is handled, which runs owe their
//! `StepsNeeded` records, and the final status of a run.
//!
//! The loop itself (awaiting task futures, writing the journal, talking to
//! the metadata store and plugins) is run by the caller, which performs these
//! decisions' outcomes.

use crate::flow::FlowResult;
use crate::journal::{ExecutionStatus, JournalEvent, RunTaskAttempts, StepStatus, TaskAttempt};
use crate::replay::{assoc_remove, SubflowKey};
use crate::run_state::{attempts_set, attempts_started, RunState};
use crate::task::Task;
use vstd::prelude::*;

verus! {

/// How many tasks may start now: the free slots under `max_in_flight`, but
/// always at least one, so that sub-flow work can progress while parent
/// tasks fill every slot; and no more than the `remaining` fuel, when there
/// is a limit.
pub fn max_to_start(max_in_flight: usize, in_flight: usize, remaining: Option<usize>) -> (r: usize)
    ensures
        ({
            let free: int = if in_flight >= max_in_flight { 0 } else { max_in_flight - in_flight };
            let slots: int = if free < 1 { 1 } else { free };
            r == (match remaining {
                Some(n) => if n < slots { n as int } else { slots },
                None => slots,
            })
        }),
        remaining != Some(0usize) ==> r >= 1,
{
    let free = max_in_flight.saturating_sub(in_flight);
    let slots = if free < 1 { 1 } else { free };
    match remaining {
        Some(n) => if n < slots { n } else { slots },
        None => slots,
    }
}

/// The concurrency of a submitted run: the requested one, else one task per
/// item.
pub fn max_concurrency_for(requested: Option<usize>, item_count: usize) -> (r: usize)
    ensures
        r == (match requested {
            Some(n) => n,
            None => item_count,
        }),
{
    match requested {
        Some(n) => n,
        None => item_count,
    }
}

/// The status a step gets from its result.
pub fn step_status_for(result: &FlowResult) -> (r: StepStatus)
    ensures
        r == (if *result is Failed { StepStatus::Failed } else { StepStatus::Completed }),
{
    if result.is_failed() {
        StepStatus::Failed
    } else {
        StepStatus::Completed
    }
}

/// The final status of a run from its items' results: failed if any item
/// failed, completed otherwise.
pub fn final_status(results: &Vec<FlowResult>) -> (r: ExecutionStatus)
    ensures
        r == (if exists|i: int| 0 <= i < results@.len() && #[trigger] results@[i] is Failed {
            ExecutionStatus::Failed
        } else {
            ExecutionStatus::Completed
        }),
{
    let mut i: usize = 0;
    while i < results.len()
        invariant
            i <= results@.len(),
            forall|j: int| 0 <= j < i ==> !(#[trigger] results@[j] is Failed),
        decreases results@.len() - i,
    {
        if results[i].is_failed() {
            return ExecutionStatus::Failed;
        }
        i = i + 1;
    }
    ExecutionStatus::Completed
}

/// What kind of failure a failed task had.
#[derive(Clone, Copy, PartialEq, Eq, Structural)]
pub enum FailureKind {
    /// The component could not be reached.
    Transport,
    /// The component ran and reported an execution error.
    ComponentExecution,
    /// Any other failure: protocol, orchestrator, input errors.
    Other,
}

/// Whether an error code is a component execution error: the range
/// -32199 to -32100.
pub open spec fn is_component_execution_code(code: i64) -> bool {
    -32199 <= code <= -32100
}

/// Classify a failed result. `transport` says the failure was a transport
/// error; otherwise component execution error codes are told apart from all
/// other failures.
pub fn classify_failure(result: &FlowResult, transport: bool) -> (r: FailureKind)
    ensures
        r == (if transport {
            FailureKind::Transport
        } else if *result matches FlowResult::Failed(e) && is_component_execution_code(e.code) {
            FailureKind::ComponentExecution
        } else {
            FailureKind::Other
        }),
{
    if transport {
        return FailureKind::Transport;
    }
    match result {
        FlowResult::Failed(e) => if -32199 <= e.code && e.code <= -32100 {
            FailureKind::ComponentExecution
        } else {
            FailureKind::Other
        },
        _ => FailureKind::Other,
    }
}

/// Retry counters of one step of one item.
#[derive(Clone, Copy, PartialEq, Eq, Structural)]
pub struct RetryState {
    pub transport_retries: u32,
    pub component_retries: u32,
}

impl RetryState {
    /// No retries yet.
    pub fn new() -> (r: Self)
        ensures
            r.transport_retries == 0,
            r.component_retries == 0,
    {
        RetryState { transport_retries: 0, component_retries: 0 }
    }
}

/// Which retry budget a decision concerns.
#[derive(Clone, Copy, PartialEq, Eq, Structural)]
pub enum RetryReason {
    TransportError,
    ComponentError,
}

/// The retry decision for a failed task.
#[derive(Clone, Copy, PartialEq, Eq, Structural)]
pub enum RetryDecision {
    /// Attempt the task again; the counter of `reason` now stands at
    /// `retry_count`.
    Retry { reason: RetryReason, retry_count: u32 },
    /// Complete the task with its failure. `exhausted` names the budget that
    /// existed and is used up, if any.
    Complete { exhausted: Option<RetryReason> },
}

/// Whether a failure of `kind` may be retried with counters `st`, under a
/// transport budget `transport_max` and the step's own budget
/// `component_max` (only component execution errors use it).
pub open spec fn may_retry(kind: FailureKind, st: RetryState, transport_max: u32, component_max: Option<u32>) -> bool {
    match kind {
        FailureKind::Transport => st.transport_retries < transport_max,
        FailureKind::ComponentExecution => match component_max {
            Some(m) => st.component_retries < m,
            None => false,
        },
        FailureKind::Other => false,
    }
}

/// The retry decision and the new counters, as [`decide_retry`] makes them.
pub open spec fn retry_step(kind: FailureKind, st: RetryState, transport_max: u32, component_max: Option<u32>) -> (RetryDecision, RetryState) {
    if may_retry(kind, st, transport_max, component_max) {
        match kind {
            FailureKind::Transport => {
                let n = (st.transport_retries + 1) as u32;
                (
                    RetryDecision::Retry { reason: RetryReason::TransportError, retry_count: n },
                    RetryState { transport_retries: n, ..st },
                )
            },
            _ => {
                let n = (st.component_retries + 1) as u32;
                (
                    RetryDecision::Retry { reason: RetryReason::ComponentError, retry_count: n },
                    RetryState { component_retries: n, ..st },
                )
            },
        }
    } else {
        (
            RetryDecision::Complete {
                exhausted: if kind == FailureKind::Transport {
                    if transport_max > 0 { Some(RetryReason::TransportError) } else { None }
                } else if component_max is Some {
                    Some(RetryReason::ComponentError)
                } else {
                    None
                },
            },
            st,
        )
    }
}

/// Decide whether to retry a failed task and count the retry. A transport
/// error is retried while the transport budget lasts; a component execution
/// error while the step's retry budget lasts; nothing else is retried.
pub fn decide_retry(kind: FailureKind, st: &mut RetryState, transport_max: u32, component_max: Option<u32>) -> (r: RetryDecision)
    ensures
        may_retry(kind, *old(st), transport_max, component_max) ==> match kind {
            FailureKind::Transport => {
                &&& final(st).transport_retries == old(st).transport_retries + 1
                &&& final(st).component_retries == old(st).component_retries
                &&& r == RetryDecision::Retry {
                    reason: RetryReason::TransportError,
                    retry_count: final(st).transport_retries,
                }
            },
            _ => {
                &&& final(st).component_retries == old(st).component_retries + 1
                &&& final(st).transport_retries == old(st).transport_retries
                &&& r == RetryDecision::Retry {
                    reason: RetryReason::ComponentError,
                    retry_count: final(st).component_retries,
                }
            },
        },
        !may_retry(kind, *old(st), transport_max, component_max) ==> {
            &&& *final(st) == *old(st)
            &&& r == RetryDecision::Complete {
                exhausted: if kind == FailureKind::Transport {
                    if transport_max > 0 { Some(RetryReason::TransportError) } else { None }
                } else if component_max is Some {
                    Some(RetryReason::ComponentError)
                } else {
                    None
                },
            }
        },
        (r, *final(st)) == retry_step(kind, *old(st), transport_max, component_max),
        old(st).transport_retries <= transport_max ==> final(st).transport_retries <= transport_max,
        component_max matches Some(m) ==> (old(st).component_retries <= m ==> final(st).component_retries <= m),
{
    let retry = match kind {
        FailureKind::Transport => st.transport_retries < transport_max,
        FailureKind::ComponentExecution => match component_max {
            Some(m) => st.component_retries < m,
            None => false,
        },
        FailureKind::Other => false,
    };
    if !retry {
        let exhausted = match kind {
            FailureKind::Transport => if transport_max > 0 {
                Some(RetryReason::TransportError)
            } else {
                None
            },
            _ => if component_max.is_some() {
                Some(RetryReason::ComponentError)
            } else {
                None
            },
        };
        return RetryDecision::Complete { exhausted };
    }
    match kind {
        FailureKind::Transport => {
            st.transport_retries = st.transport_retries + 1;
            RetryDecision::Retry { reason: RetryReason::TransportError, retry_count: st.transport_retries }
        },
        _ => {
            st.component_retries = st.component_retries + 1;
            RetryDecision::Retry { reason: RetryReason::ComponentError, retry_count: st.component_retries }
        },
    }
}

/// What to do with a sub-flow once it was created and initialized.
#[derive(Clone, Copy, PartialEq, Eq, Structural)]
pub enum SubmitOutcome {
    /// It has ready tasks: hand them to the scheduler.
    Schedule,
    /// It has no items: it is complete at once.
    FinishEmpty,
    /// It has items but no steps to run: record each item's output and
    /// complete it.
    FinishWithoutSteps,
    /// Nothing is ready yet.
    Wait,
}

/// The outcome for a newly submitted sub-flow: schedule its ready tasks;
/// with none, finish it if it is complete (with or without items); else
/// wait.
pub open spec fn outcome_of(has_tasks: bool, is_complete: bool, item_count: u32) -> SubmitOutcome {
    if has_tasks {
        SubmitOutcome::Schedule
    } else if is_complete {
        if item_count == 0 { SubmitOutcome::FinishEmpty } else { SubmitOutcome::FinishWithoutSteps }
    } else {
        SubmitOutcome::Wait
    }
}

/// The outcome for a newly submitted sub-flow.
pub fn submit_outcome(has_tasks: bool, is_complete: bool, item_count: u32) -> (r: SubmitOutcome)
    ensures
        r == outcome_of(has_tasks, is_complete, item_count),
{
    if has_tasks {
        SubmitOutcome::Schedule
    } else if is_complete {
        if item_count == 0 {
            SubmitOutcome::FinishEmpty
        } else {
            SubmitOutcome::FinishWithoutSteps
        }
    } else {
        SubmitOutcome::Wait
    }
}

/// Whether run `run_id` still owes its `StepsNeeded` records when execution
/// starts: every run does, except a recovered sub-flow whose records the
/// journal already holds.
pub fn needs_steps_needed(run_id: u128, recovered_run_ids: &Vec<u128>, runs_needing: &Vec<u128>) -> (r: bool)
    ensures
        r == (!recovered_run_ids@.contains(run_id) || runs_needing@.contains(run_id)),
{
    !crate::recovery::vec_contains_u128(recovered_run_ids, run_id) || crate::recovery::vec_contains_u128(runs_needing, run_id)
}

/// The entry for `k` in an association list: the last one.
pub open spec fn assoc_get<K, V>(s: Seq<(K, V)>, k: K) -> Option<V>
    decreases s.len(),
{
    if s.len() == 0 {
        None
    } else if s.last().0 == k {
        Some(s.last().1)
    } else {
        assoc_get(s.drop_last(), k)
    }
}

/// Take the recovered sub-flow registered under `key`, if any: a re-executed
/// parent step that submits the same sub-flow again gets the recovered run.
pub fn take_recovered_subflow(map: &mut Vec<(SubflowKey, u128)>, key: SubflowKey) -> (r: Option<u128>)
    ensures
        r == assoc_get(old(map)@, key),
        final(map)@ == assoc_remove(old(map)@, key),
{
    let mut found: Option<u128> = None;
    let mut i: usize = 0;
    while i < map.len()
        invariant
            i <= map@.len(),
            found == assoc_get(map@.take(i as int), key),
        decreases map@.len() - i,
    {
        proof {
            assert(map@.take(i + 1).drop_last() =~= map@.take(i as int));
            assert(map@.take(i + 1).last() == map@[i as int]);
        }
        let e = map[i];
        if e.0.0 == key.0 && e.0.1 == key.1 && e.0.2 == key.2 && e.0.3 == key.3 {
            found = Some(e.1);
        }
        i = i + 1;
    }
    proof {
        assert(map@.take(map@.len() as int) =~= map@);
    }
    let rest = crate::replay::subflow_map_remove(map, key);
    *map = rest;
    found
}

/// The `StepsNeeded` records a run owes: one per item with needed steps, in
/// item order, listing the item's needed steps in increasing order.
pub open spec fn needed_records(run: RunState, k: int) -> Seq<(u32, Seq<usize>)>
    decreases k,
{
    if k <= 0 {
        Seq::empty()
    } else {
        let prev = needed_records(run, k - 1);
        let it = run.items().items_spec()[k - 1];
        let steps = crate::bitset::sorted_below(it@.needed, it@.num_steps);
        if steps.len() == 0 {
            prev
        } else {
            prev.push(((k - 1) as u32, steps))
        }
    }
}

/// The item and steps of a `StepsNeeded` record of run `run_id`.
pub open spec fn steps_needed_of(e: JournalEvent, run_id: u128) -> Option<(u32, Seq<usize>)> {
    match e {
        JournalEvent::StepsNeeded { run_id: r, item_index, step_indices } if r == run_id => Some((item_index, step_indices@)),
        _ => None,
    }
}

/// The `StepsNeeded` records that run `run` owes.
pub fn steps_needed_events(run: &RunState) -> (r: Vec<JournalEvent>)
    requires
        run.wf(),
    ensures
        r@.len() == needed_records(*run, run.items().items_spec().len() as int).len(),
        forall|i: int|
            0 <= i < r@.len() ==> steps_needed_of(#[trigger] r@[i], run.run_id_spec()) == Some(
                needed_records(*run, run.items().items_spec().len() as int)[i],
            ),
{
    proof {
        run.lemma_wf();
    }
    let run_id = run.run_id();
    let n = run.item_count();
    let mut out: Vec<JournalEvent> = Vec::new();
    let mut i: u32 = 0;
    while i < n
        invariant
            run.wf(),
            run_id == run.run_id_spec(),
            n == run.items().items_spec().len(),
            forall|j: int| 0 <= j < n ==> #[trigger] run.items().items_spec()[j].wf(),
            i <= n,
            out@.len() == needed_records(*run, i as int).len(),
            forall|j: int|
                0 <= j < out@.len() ==> steps_needed_of(#[trigger] out@[j], run_id) == Some(needed_records(*run, i as int)[j]),
        decreases n - i,
    {
        let steps = run.items_state().item(i).needed_step_indices();
        let ghost prev = needed_records(*run, i as int);
        if steps.len() > 0 {
            out.push(JournalEvent::StepsNeeded { run_id, item_index: i, step_indices: steps });
            proof {
                assert forall|j: int| 0 <= j < out@.len() implies steps_needed_of(#[trigger] out@[j], run_id) == Some(
                    needed_records(*run, i + 1)[j],
                ) by {
                    if j < prev.len() {
                        assert(needed_records(*run, i + 1)[j] == prev[j]);
                    }
                }
            }
        }
        i = i + 1;
    }
    out
}

/// The position of the group of key `id` (the last one).
pub open spec fn find_group<K, T>(g: Seq<(K, Seq<T>)>, id: K) -> Option<int>
    decreases g.len(),
{
    if g.len() == 0 {
        None
    } else if g.last().0 == id {
        Some(g.len() - 1)
    } else {
        find_group(g.drop_last(), id)
    }
}

/// Groups with `x` added at the end of the group of `id`, or in a new group
/// at the end.
pub open spec fn add_to_group<K, T>(g: Seq<(K, Seq<T>)>, id: K, x: T) -> Seq<(K, Seq<T>)> {
    match find_group(g, id) {
        Some(k) => g.update(k, (id, g[k].1.push(x))),
        None => g.push((id, seq![x])),
    }
}

proof fn lemma_find_group<K, T>(g: Seq<(K, Seq<T>)>, id: K)
    ensures
        find_group(g, id) matches Some(k) ==> 0 <= k < g.len() && g[k].0 == id && forall|j: int|
            k < j < g.len() ==> #[trigger] g[j].0 != id,
        find_group(g, id) is None ==> forall|j: int| 0 <= j < g.len() ==> #[trigger] g[j].0 != id,
    decreases g.len(),
{
    if g.len() > 0 && g.last().0 != id {
        lemma_find_group(g.drop_last(), id);
        assert forall|j: int| 0 <= j < g.len() - 1 implies g.drop_last()[j] == g[j] by {}
    }
}

/// The attempts of started tasks, grouped by run in order of first
/// appearance, each group in the order of its tasks.
pub open spec fn attempt_groups(entries: Seq<(u128, Task, u32)>) -> Seq<(u128, Seq<(u32, usize, u32)>)>
    decreases entries.len(),
{
    if entries.len() == 0 {
        Seq::empty()
    } else {
        let e = entries.last();
        add_to_group(attempt_groups(entries.drop_last()), e.0, (e.1.item_index, e.1.step_index, e.2))
    }
}

/// The runs and attempts of a `TasksStarted` record.
pub open spec fn attempts_view(v: Seq<RunTaskAttempts>) -> Seq<(u128, Seq<(u32, usize, u32)>)> {
    v.map_values(
        |g: RunTaskAttempts| (g.run_id, g.tasks@.map_values(|t: TaskAttempt| (t.item_index, t.step_index, t.attempt))),
    )
}

/// One started task's attempt applied to the counts of item `item`.
pub open spec fn set_one(a: Seq<u32>, item: u32, t: (u32, usize, u32)) -> Seq<u32> {
    if t.0 == item {
        a.update(t.1 as int, t.2)
    } else {
        a
    }
}

/// [`attempts_set`] over `(item, step, attempt)` triples.
pub open spec fn set_triples(a: Seq<u32>, item: u32, ts: Seq<(u32, usize, u32)>) -> Seq<u32>
    decreases ts.len(),
{
    if ts.len() == 0 {
        a
    } else {
        set_one(set_triples(a, item, ts.drop_last()), item, ts.last())
    }
}

/// [`attempts_started`] over the view of a record's groups.
pub open spec fn started_triples(a: Seq<u32>, run_id: u128, item: u32, gs: Seq<(u128, Seq<(u32, usize, u32)>)>) -> Seq<u32>
    decreases gs.len(),
{
    if gs.len() == 0 {
        a
    } else {
        let prev = started_triples(a, run_id, item, gs.drop_last());
        if gs.last().0 == run_id {
            set_triples(prev, item, gs.last().1)
        } else {
            prev
        }
    }
}

/// The `(item, step, attempt)` triples of the started tasks of run `run_id`,
/// in order.
pub open spec fn run_entries(e: Seq<(u128, Task, u32)>, run_id: u128) -> Seq<(u32, usize, u32)>
    decreases e.len(),
{
    if e.len() == 0 {
        Seq::empty()
    } else {
        let prev = run_entries(e.drop_last(), run_id);
        if e.last().0 == run_id {
            prev.push((e.last().1.item_index, e.last().1.step_index, e.last().2))
        } else {
            prev
        }
    }
}

proof fn lemma_attempts_set_view(a: Seq<u32>, item: u32, ts: Seq<TaskAttempt>)
    ensures
        attempts_set(a, item, ts) == set_triples(
            a,
            item,
            ts.map_values(|t: TaskAttempt| (t.item_index, t.step_index, t.attempt)),
        ),
    decreases ts.len(),
{
    let tv = |t: TaskAttempt| (t.item_index, t.step_index, t.attempt);
    if ts.len() > 0 {
        lemma_attempts_set_view(a, item, ts.drop_last());
        assert(ts.map_values(tv).drop_last() =~= ts.drop_last().map_values(tv));
    }
}

/// The attempt counts a `TasksStarted` record gives, read through the
/// record's view.
pub proof fn lemma_attempts_started_view(a: Seq<u32>, run_id: u128, item: u32, runs: Seq<RunTaskAttempts>)
    ensures
        attempts_started(a, run_id, item, runs) == started_triples(a, run_id, item, attempts_view(runs)),
    decreases runs.len(),
{
    if runs.len() > 0 {
        lemma_attempts_started_view(a, run_id, item, runs.drop_last());
        assert(attempts_view(runs).drop_last() =~= attempts_view(runs.drop_last()));
        let prev = attempts_started(a, run_id, item, runs.drop_last());
        lemma_attempts_set_view(prev, item, runs.last().tasks@);
    }
}

/// Growing the last group of `run_id` by one task applies that task.
proof fn lemma_started_extend(a: Seq<u32>, run_id: u128, item: u32, gs: Seq<(u128, Seq<(u32, usize, u32)>)>, k: int, t: (u32, usize, u32))
    requires
        0 <= k < gs.len(),
        gs[k].0 == run_id,
        forall|j: int| k < j < gs.len() ==> #[trigger] gs[j].0 != run_id,
    ensures
        started_triples(a, run_id, item, gs.update(k, (run_id, gs[k].1.push(t)))) == set_one(
            started_triples(a, run_id, item, gs),
            item,
            t,
        ),
    decreases gs.len(),
{
    let gu = gs.update(k, (run_id, gs[k].1.push(t)));
    if k == gs.len() - 1 {
        assert(gu.drop_last() =~= gs.drop_last());
        assert(gu.last().1.drop_last() =~= gs[k].1);
    } else {
        assert(gu.drop_last() =~= gs.drop_last().update(k, (run_id, gs[k].1.push(t))));
        lemma_started_extend(a, run_id, item, gs.drop_last(), k, t);
    }
}

/// Changing a group of another run changes nothing for `run_id`.
proof fn lemma_started_other(a: Seq<u32>, run_id: u128, item: u32, gs: Seq<(u128, Seq<(u32, usize, u32)>)>, k: int, g: (u128, Seq<(u32, usize, u32)>))
    requires
        0 <= k < gs.len(),
        gs[k].0 != run_id,
        g.0 != run_id,
    ensures
        started_triples(a, run_id, item, gs.update(k, g)) == started_triples(a, run_id, item, gs),
    decreases gs.len(),
{
    let gu = gs.update(k, g);
    if k == gs.len() - 1 {
        assert(gu.drop_last() =~= gs.drop_last());
    } else {
        assert(gu.drop_last() =~= gs.drop_last().update(k, g));
        lemma_started_other(a, run_id, item, gs.drop_last(), k, g);
    }
}

/// The attempt counts that the grouped record of started tasks gives are
/// those of the run's started tasks applied in order.
pub proof fn lemma_groups_started(a: Seq<u32>, run_id: u128, item: u32, e: Seq<(u128, Task, u32)>)
    ensures
        started_triples(a, run_id, item, attempt_groups(e)) == set_triples(a, item, run_entries(e, run_id)),
    decreases e.len(),
{
    if e.len() > 0 {
        let p = e.drop_last();
        lemma_groups_started(a, run_id, item, p);
        let g0 = attempt_groups(p);
        let x = e.last();
        let t = (x.1.item_index, x.1.step_index, x.2);
        assert(attempt_groups(e) == add_to_group(g0, x.0, t));
        let r0 = run_entries(p, run_id);
        if x.0 == run_id {
            assert(run_entries(e, run_id) == r0.push(t));
            assert(r0.push(t).drop_last() =~= r0);
            assert(set_triples(a, item, r0.push(t)) == set_one(set_triples(a, item, r0), item, t));
        } else {
            assert(run_entries(e, run_id) == r0);
        }
        lemma_find_group(g0, x.0);
        match find_group(g0, x.0) {
            Some(k) => {
                if x.0 == run_id {
                    lemma_started_extend(a, run_id, item, g0, k, t);
                } else {
                    lemma_started_other(a, run_id, item, g0, k, (x.0, g0[k].1.push(t)));
                }
            },
            None => {
                let g1 = g0.push((x.0, seq![t]));
                assert(g1.drop_last() =~= g0);
                let prev = started_triples(a, run_id, item, g0);
                if x.0 == run_id {
                    assert(seq![t].drop_last() =~= Seq::<(u32, usize, u32)>::empty());
                    assert(set_triples(prev, item, Seq::<(u32, usize, u32)>::empty()) == prev);
                    assert(set_triples(prev, item, seq![t]) == set_one(prev, item, t));
                    assert(started_triples(a, run_id, item, g1) == set_triples(prev, item, seq![t]));
                } else {
                    assert(started_triples(a, run_id, item, g1) == prev);
                }
            },
        }
    }
}

/// The runs of a `TasksStarted` record for tasks started together: each
/// started task `(run, task, attempt)` is listed under its run.
pub fn group_attempts(entries: &Vec<(u128, Task, u32)>) -> (r: Vec<RunTaskAttempts>)
    ensures
        attempts_view(r@) == attempt_groups(entries@),
        forall|g: int, t: int|
            0 <= g < r@.len() && 0 <= t < r@[g].tasks@.len() ==> (#[trigger] r@[g].tasks@[t]).task_id@
                == Seq::<char>::empty(),
{
    let mut groups: Vec<RunTaskAttempts> = Vec::new();
    let mut i: usize = 0;
    proof {
        assert(attempts_view(groups@) =~= attempt_groups(entries@.take(0)));
    }
    while i < entries.len()
        invariant
            i <= entries@.len(),
            attempts_view(groups@) == attempt_groups(entries@.take(i as int)),
            forall|g: int, t: int|
                0 <= g < groups@.len() && 0 <= t < groups@[g].tasks@.len() ==> (#[trigger] groups@[g].tasks@[t]).task_id@
                    == Seq::<char>::empty(),
        decreases entries@.len() - i,
    {
        let (run_id, task, attempt) = entries[i];
        let ghost g0 = attempts_view(groups@);
        let ghost x = (task.item_index, task.step_index, attempt);
        proof {
            assert(entries@.take(i + 1).drop_last() =~= entries@.take(i as int));
            assert(entries@.take(i + 1).last() == entries@[i as int]);
            lemma_find_group(g0, run_id);
        }
        let mut k: usize = groups.len();
        while k > 0
            invariant
                k <= groups@.len(),
                g0 == attempts_view(groups@),
                forall|j: int| k <= j < groups@.len() ==> #[trigger] groups@[j].run_id != run_id,
                forall|g: int, t: int|
                    0 <= g < groups@.len() && 0 <= t < groups@[g].tasks@.len() ==> (#[trigger] groups@[g].tasks@[t]).task_id@
                        == Seq::<char>::empty(),
            ensures
                k <= groups@.len(),
                g0 == attempts_view(groups@),
                forall|j: int| k <= j < groups@.len() ==> #[trigger] groups@[j].run_id != run_id,
                k > 0 ==> groups@[k - 1].run_id == run_id,
                forall|g: int, t: int|
                    0 <= g < groups@.len() && 0 <= t < groups@[g].tasks@.len() ==> (#[trigger] groups@[g].tasks@[t]).task_id@
                        == Seq::<char>::empty(),
            decreases k,
        {
            if groups[k - 1].run_id == run_id {
                break;
            }
            k = k - 1;
        }
        let ta = TaskAttempt { item_index: task.item_index, step_index: task.step_index, attempt, task_id: String::new() };
        let ghost tv = |t: TaskAttempt| (t.item_index, t.step_index, t.attempt);
        if k == 0 {
            proof {
                assert forall|j: int| 0 <= j < g0.len() implies #[trigger] g0[j].0 != run_id by {
                    assert(g0[j].0 == groups@[j].run_id);
                }
            }
            let ghost before = groups@;
            let mut tasks: Vec<TaskAttempt> = Vec::new();
            tasks.push(ta);
            let ghost tl = tasks@;
            proof {
                assert(tl[0].task_id@ == Seq::<char>::empty());
            }
            groups.push(RunTaskAttempts { run_id, tasks });
            proof {
                assert forall|g: int, t: int|
                    0 <= g < groups@.len() && 0 <= t < groups@[g].tasks@.len() implies (#[trigger] groups@[g].tasks@[t]).task_id@
                        == Seq::<char>::empty() by {
                    if g < before.len() {
                        assert(groups@[g] == before[g]);
                        assert(before[g].tasks@[t].task_id@ == Seq::<char>::empty());
                    } else {
                        assert(groups@[g].tasks@ == tl);
                        assert(t == 0);
                    }
                }
                assert(tasks@.map_values(tv) =~= seq![x]);
                assert(attempts_view(groups@) =~= g0.push((run_id, seq![x])));
            }
        } else {
            let ghost before = groups@;
            proof {
                assert(g0[k - 1].0 == run_id);
                assert forall|j: int| k - 1 < j < g0.len() implies #[trigger] g0[j].0 != run_id by {
                    assert(g0[j].0 == groups@[j].run_id);
                }
            }
            groups[k - 1].tasks.push(ta);
            proof {
                assert(groups@[k - 1].tasks@ == before[k - 1].tasks@.push(ta));
                assert(groups@[k - 1].tasks@.map_values(tv) =~= before[k - 1].tasks@.map_values(tv).push(x));
                assert forall|j: int| 0 <= j < groups@.len() && j != k - 1 implies groups@[j] == before[j] by {}
                assert forall|g: int, t: int|
                    0 <= g < groups@.len() && 0 <= t < groups@[g].tasks@.len() implies (#[trigger] groups@[g].tasks@[t]).task_id@
                        == Seq::<char>::empty() by {
                    if g != k - 1 {
                        assert(groups@[g] == before[g]);
                    } else if t < before[g].tasks@.len() {
                        assert(groups@[g].tasks@[t] == before[g].tasks@[t]);
                    }
                }
                assert(attempts_view(groups@) =~= g0.update(k - 1, (run_id, g0[k - 1].1.push(x))));
            }
        }
        i = i + 1;
    }
    proof {
        assert(entries@.take(entries@.len() as int) =~= entries@);
    }
    groups
}

/// Newly unblocked tasks grouped by item, in order of first appearance, each
/// group listing its steps in order.
pub open spec fn item_groups(tasks: Seq<Task>) -> Seq<(u32, Seq<usize>)>
    decreases tasks.len(),
{
    if tasks.len() == 0 {
        Seq::empty()
    } else {
        add_to_group(item_groups(tasks.drop_last()), tasks.last().item_index, tasks.last().step_index)
    }
}

/// The `StepsUnblocked` records of a completion: the unblocked tasks grouped
/// by item.
pub fn group_unblocked(tasks: &Vec<Task>) -> (r: Vec<(u32, Vec<usize>)>)
    ensures
        r@.map_values(|g: (u32, Vec<usize>)| (g.0, g.1@)) == item_groups(tasks@),
{
    let ghost gv = |g: (u32, Vec<usize>)| (g.0, g.1@);
    let mut groups: Vec<(u32, Vec<usize>)> = Vec::new();
    let mut i: usize = 0;
    proof {
        assert(groups@.map_values(gv) =~= item_groups(tasks@.take(0)));
    }
    while i < tasks.len()
        invariant
            i <= tasks@.len(),
            gv == (|g: (u32, Vec<usize>)| (g.0, g.1@)),
            groups@.map_values(gv) == item_groups(tasks@.take(i as int)),
        decreases tasks@.len() - i,
    {
        let t = tasks[i];
        let ghost g0 = groups@.map_values(gv);
        proof {
            assert(tasks@.take(i + 1).drop_last() =~= tasks@.take(i as int));
            assert(tasks@.take(i + 1).last() == tasks@[i as int]);
            lemma_find_group(g0, t.item_index);
        }
        let mut k: usize = groups.len();
        while k > 0
            invariant
                k <= groups@.len(),
                gv == (|g: (u32, Vec<usize>)| (g.0, g.1@)),
                g0 == groups@.map_values(gv),
                forall|j: int| k <= j < groups@.len() ==> #[trigger] groups@[j].0 != t.item_index,
            ensures
                k <= groups@.len(),
                gv == (|g: (u32, Vec<usize>)| (g.0, g.1@)),
                g0 == groups@.map_values(gv),
                forall|j: int| k <= j < groups@.len() ==> #[trigger] groups@[j].0 != t.item_index,
                k > 0 ==> groups@[k - 1].0 == t.item_index,
            decreases k,
        {
            if groups[k - 1].0 == t.item_index {
                break;
            }
            k = k - 1;
        }
        if k == 0 {
            proof {
                assert forall|j: int| 0 <= j < g0.len() implies #[trigger] g0[j].0 != t.item_index by {
                    assert(g0[j].0 == groups@[j].0);
                }
            }
            let mut steps: Vec<usize> = Vec::new();
            steps.push(t.step_index);
            groups.push((t.item_index, steps));
            proof {
                assert(steps@ =~= seq![t.step_index]);
                assert(groups@.map_values(gv) =~= g0.push((t.item_index, seq![t.step_index])));
            }
        } else {
            let ghost before = groups@;
            proof {
                assert(g0[k - 1].0 == t.item_index);
                assert forall|j: int| k - 1 < j < g0.len() implies #[trigger] g0[j].0 != t.item_index by {
                    assert(g0[j].0 == groups@[j].0);
                }
            }
            groups[k - 1].1.push(t.step_index);
            proof {
                assert forall|j: int| 0 <= j < groups@.len() && j != k - 1 implies groups@[j] == before[j] by {}
                assert(groups@.map_values(gv) =~= g0.update(k - 1, (t.item_index, g0[k - 1].1.push(t.step_index))));
            }
        }
        i = i + 1;
    }
    proof {
        assert(tasks@.take(tasks@.len() as int) =~= tasks@);
    }
    groups
}

} // verus!
