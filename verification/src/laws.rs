//! Properties of the library that relate several of its operations.

use crate::checkpoint::{captured_from, checkpoint_item_view, has_run, item_checkpoint_valid, run_captured, runs_sorted, ItemCheckpoint, RunCheckpoint};
use crate::debug_history::{first_pending, pending_ids, DebugEvent};
use crate::execution::{assoc_get, may_retry, retry_step, FailureKind, RetryState};
use crate::flow::{lookup_name, step_names, FlowError, FlowResult, SkipAction, ValueExpr};
use crate::error::ExecutionError;
use crate::journal::{ExecutionStatus, StepStatus};
use crate::resolve::resolved;
use crate::flow_executor::results_status;
use crate::replay::{status_updates, ActionView, Replay};
use crate::item_state::unblocked_by;
use crate::items_state::{keep_in, ready_after_completion, unblocked_list};
use crate::bitset::{lemma_sorted_below, sorted_below};
use crate::deps::{lemma_expr_refs_bound, lemma_reach_closed, lemma_reach_self, lemma_reach_step, reach_set, step_deps, DepGraph};
use crate::item_state::{added_view, completed_view, ready_set, view_complete, ItemState, ItemView};
use crate::items_state::{
    added_all, completion_view, count_incomplete, initialized_view, lemma_added_all_frame, lemma_count_update, must_execute_set,
    output_list, ready_list, tasks_for,
};
use crate::journal::JournalEvent;
use crate::recovery::{other_root, trees_of, RunRecoveryInfo};
use crate::replay::{
    assoc_remove, checkpoint_restorable, first_run_pos, fresh_subflow, is_first_run, key_differs, needing_step, sub_pos,
    sub_restorable, subs_step, SubflowKey,
};
use crate::flow_executor::sub_run_created_of;
use crate::run_state::checkpoint_fits;
use crate::flow::Flow;
use std::sync::Arc;
use crate::run_state::{applied, RunState};
use crate::task::Task;
use vstd::prelude::*;

verus! {

/// Restoring an item from its checkpoint gives back the item's state with
/// nothing executing; for an item with nothing executing, the same state.
/// The restored item and the item it was taken from then agree on the ready
/// steps and on the state after any completion.
pub proof fn law_checkpoint_restores_item(v: ItemView, cp: ItemCheckpoint, step: usize, result: FlowResult)
    requires
        item_checkpoint_valid(cp, v.num_steps),
        checkpoint_item_view(cp, v.num_steps) == (ItemView { executing: Set::<usize>::empty(), ..v }),
        v.executing == Set::<usize>::empty(),
    ensures
        checkpoint_item_view(cp, v.num_steps) == v,
        ready_set(checkpoint_item_view(cp, v.num_steps)) == ready_set(v),
        completed_view(checkpoint_item_view(cp, v.num_steps), step, result) == completed_view(v, step, result),
{
    assert((ItemView { executing: Set::<usize>::empty(), ..v }) == v);
}

/// Restoring a run from its checkpoint, with the run's flow, succeeds (the
/// checkpoint meets every condition of `RunState::from_checkpoint`) and gives
/// back the run: the same identity, variables and inputs, and each item's
/// state with nothing executing.
pub proof fn law_checkpoint_restores_run(st: RunState, cp: RunCheckpoint)
    requires
        st.wf(),
        run_captured(cp, st),
    ensures
        cp.inputs@.len() == cp.items@.len(),
        cp.items@.len() <= u32::MAX,
        forall|i: int|
            0 <= i < cp.items@.len() ==> item_checkpoint_valid(#[trigger] cp.items@[i], st.flow_spec().steps@.len()),
        cp.run_id == st.run_id_spec(),
        cp.flow_id@ == st.flow_id_spec(),
        cp.root_run_id == st.root_run_id_spec(),
        cp.parent_run_id == st.parent_run_id_spec(),
        cp.variables@ == st.items().variables_spec(),
        cp.items@.len() == st.items().items_spec().len(),
        forall|i: int|
            0 <= i < cp.items@.len() ==> {
                let it = st.items().items_spec()[i];
                &&& cp.inputs@[i] == it.input_spec()
                &&& checkpoint_item_view(#[trigger] cp.items@[i], st.flow_spec().steps@.len()) == (ItemView {
                    executing: Set::<usize>::empty(),
                    ..it@
                })
            },
{
    reveal(run_captured);
    st.lemma_wf();
    assert forall|i: int| 0 <= i < cp.items@.len() implies item_checkpoint_valid(
        #[trigger] cp.items@[i],
        st.flow_spec().steps@.len(),
    ) by {
        assert(st.items().items_spec()[i]@.num_steps == st.flow_spec().steps@.len());
    }
    assert forall|i: int| 0 <= i < cp.items@.len() implies {
        let it = st.items().items_spec()[i];
        &&& cp.inputs@[i] == it.input_spec()
        &&& checkpoint_item_view(#[trigger] cp.items@[i], st.flow_spec().steps@.len()) == (ItemView {
            executing: Set::<usize>::empty(),
            ..it@
        })
    } by {
        assert(st.items().items_spec()[i]@.num_steps == st.flow_spec().steps@.len());
    }
}

/// Completing a step that already completed changes nothing more than
/// stopping its execution: the first result stays.
pub proof fn law_completion_is_idempotent(v: ItemView, step: usize, first: FlowResult, second: FlowResult)
    ensures
        completed_view(completed_view(v, step, first), step, second) == completed_view(v, step, first),
{
    let once = completed_view(v, step, first);
    assert(once.completed.contains(step));
    assert(once.executing.remove(step) =~= once.executing);
}

/// Replaying a `TaskCompleted` record of a run gives the run the same item
/// states as completing the task while executing.
pub proof fn law_replay_matches_live_completion(
    st0: RunState,
    live: RunState,
    replayed: RunState,
    task: Task,
    result: FlowResult,
)
    requires
        st0.wf(),
        task.item_index < st0.items().items_spec().len(),
        live.items().items_spec() == st0.items().items_spec().update(
            task.item_index as int,
            live.items().items_spec()[task.item_index as int],
        ),
        live.items().items_spec()[task.item_index as int]@ == completion_view(
            st0.items().items_spec()[task.item_index as int],
            task.step_index,
            result,
        ),
        applied(
            st0,
            replayed,
            JournalEvent::TaskCompleted {
                run_id: st0.run_id_spec(),
                item_index: task.item_index,
                step_index: task.step_index,
                result,
            },
        ),
    ensures
        replayed.items().items_spec().len() == live.items().items_spec().len(),
        forall|i: int|
            0 <= i < live.items().items_spec().len() ==> (#[trigger] replayed.items().items_spec()[i])@
                == live.items().items_spec()[i]@,
{
    let n = live.items().items_spec().len();
    assert forall|i: int| 0 <= i < n implies (#[trigger] replayed.items().items_spec()[i])@ == live.items().items_spec()[i]@ by {
        if i != task.item_index as int {
            assert(replayed.items().items_spec()[i] == st0.items().items_spec()[i]);
            assert(live.items().items_spec()[i] == st0.items().items_spec()[i]);
        }
    }
}

/// No item is incomplete exactly when every item is complete.
pub proof fn law_incomplete_count(items: Seq<ItemState>)
    ensures
        (count_incomplete(items) == 0) <==> (forall|i: int| 0 <= i < items.len() ==> view_complete(#[trigger] items[i]@)),
    decreases items.len(),
{
    if items.len() > 0 {
        let rest = items.drop_last();
        law_incomplete_count(rest);
        assert forall|i: int| 0 <= i < rest.len() implies #[trigger] rest[i] == items[i] by {}
        if count_incomplete(items) == 0 {
            assert forall|i: int| 0 <= i < items.len() implies view_complete(#[trigger] items[i]@) by {
                if i < rest.len() {
                    assert(rest[i] == items[i]);
                }
            }
        } else if count_incomplete(rest) != 0 {
            let j = choose|j: int| 0 <= j < rest.len() && !view_complete(#[trigger] rest[j]@);
            assert(items[j] == rest[j]);
        } else {
            assert(!view_complete(items[items.len() - 1]@));
        }
    }
}

/// The step a debug session executes next is the first of its pending
/// steps; there is one exactly when some step is pending.
pub proof fn law_next_step_is_first_pending(events: Seq<DebugEvent>, done: Set<usize>)
    ensures
        (first_pending(events, done) is Some) <==> pending_ids(events, done).len() > 0,
        first_pending(events, done) matches Some(p) ==> pending_ids(events, done)[0] == p.1,
    decreases events.len(),
{
    if events.len() > 0 {
        law_next_step_is_first_pending(events.drop_last(), done);
        let rest = pending_ids(events.drop_last(), done);
        match events.last() {
            DebugEvent::StepQueued { step_index, step_id } => {
                if !done.contains(step_index) {
                    assert(rest.push(step_id@)[0] == (if rest.len() > 0 { rest[0] } else { step_id@ }));
                }
            },
            _ => {},
        }
    }
}

/// Two strictly increasing lists of the same run IDs are the same list.
proof fn lemma_sorted_ids_equal(a: Seq<u128>, b: Seq<u128>)
    requires
        forall|i: int, j: int| 0 <= i < j < a.len() ==> a[i] < a[j],
        forall|i: int, j: int| 0 <= i < j < b.len() ==> b[i] < b[j],
        forall|x: u128| a.contains(x) <==> b.contains(x),
    ensures
        a == b,
    decreases a.len() + b.len(),
{
    if a.len() == 0 {
        if b.len() > 0 {
            assert(b.contains(b[0]));
        }
        assert(b =~= a);
    } else if b.len() == 0 {
        assert(a.contains(a[0]));
    } else {
        let la = a.last();
        let lb = b.last();
        assert(a.contains(la));
        assert(b.contains(lb));
        let ib = choose|i: int| 0 <= i < b.len() && b[i] == la;
        let ia = choose|i: int| 0 <= i < a.len() && a[i] == lb;
        assert(la == lb) by {
            if la < lb {
                assert(a[ia] == lb);
                assert(a[ia] <= la);
            } else if lb < la {
                assert(b[ib] == la);
                assert(b[ib] <= lb);
            }
        }
        let ra = a.drop_last();
        let rb = b.drop_last();
        assert forall|x: u128| ra.contains(x) <==> rb.contains(x) by {
            if ra.contains(x) {
                let i = choose|i: int| 0 <= i < ra.len() && ra[i] == x;
                assert(a[i] < la);
                assert(b.contains(x));
                let j = choose|j: int| 0 <= j < b.len() && b[j] == x;
                if j == b.len() - 1 {
                    assert(x == lb);
                }
                assert(rb[j] == x);
            }
            if rb.contains(x) {
                let i = choose|i: int| 0 <= i < rb.len() && rb[i] == x;
                assert(b[i] < lb);
                assert(a.contains(x));
                let j = choose|j: int| 0 <= j < a.len() && a[j] == x;
                if j == a.len() - 1 {
                    assert(x == la);
                }
                assert(ra[j] == x);
            }
        }
        lemma_sorted_ids_equal(ra, rb);
        assert(a =~= ra.push(la));
        assert(b =~= rb.push(lb));
    }
}

/// The run IDs of a checkpoint, in order.
pub open spec fn checkpoint_run_ids(runs: Seq<RunCheckpoint>) -> Seq<u128> {
    runs.map_values(|r: RunCheckpoint| r.run_id)
}

/// Capturing the same runs twice lists their checkpoints in the same order:
/// by increasing run ID, each run once.
pub proof fn law_capture_order_is_deterministic(runs: Seq<RunState>, a: Seq<RunCheckpoint>, b: Seq<RunCheckpoint>)
    requires
        runs_sorted(a),
        runs_sorted(b),
        forall|i: int| 0 <= i < a.len() ==> #[trigger] captured_from(a[i], runs),
        forall|i: int| 0 <= i < b.len() ==> #[trigger] captured_from(b[i], runs),
        forall|j: int| 0 <= j < runs.len() ==> #[trigger] has_run(a, runs[j].run_id_spec()),
        forall|j: int| 0 <= j < runs.len() ==> #[trigger] has_run(b, runs[j].run_id_spec()),
    ensures
        checkpoint_run_ids(a) == checkpoint_run_ids(b),
{
    let ia = checkpoint_run_ids(a);
    let ib = checkpoint_run_ids(b);
    assert forall|x: u128| ia.contains(x) <==> ib.contains(x) by {
        if ia.contains(x) {
            let i = choose|i: int| 0 <= i < ia.len() && ia[i] == x;
            assert(captured_from(a[i], runs));
            let j = choose|j: int| 0 <= j < runs.len() && #[trigger] run_captured(a[i], runs[j]);
            reveal(run_captured);
            assert(has_run(b, runs[j].run_id_spec()));
            let k = choose|k: int| 0 <= k < b.len() && #[trigger] b[k].run_id == runs[j].run_id_spec();
            assert(ib[k] == x);
        }
        if ib.contains(x) {
            let i = choose|i: int| 0 <= i < ib.len() && ib[i] == x;
            assert(captured_from(b[i], runs));
            let j = choose|j: int| 0 <= j < runs.len() && #[trigger] run_captured(b[i], runs[j]);
            reveal(run_captured);
            assert(has_run(a, runs[j].run_id_spec()));
            let k = choose|k: int| 0 <= k < a.len() && #[trigger] a[k].run_id == runs[j].run_id_spec();
            assert(ia[k] == x);
        }
    }
    lemma_sorted_ids_equal(ia, ib);
}

/// The execution trees recovered from a claim list: each root run once, none
/// that already executes here, and every claimed root that does not.
pub proof fn law_each_tree_recovered_once(runs: Seq<RunRecoveryInfo>, active: Set<u128>)
    ensures
        ({
            let t = trees_of(runs, active);
            &&& forall|i: int, j: int| 0 <= i < j < t.len() ==> t[i].root_run_id != t[j].root_run_id
            &&& forall|i: int| 0 <= i < t.len() ==> !active.contains(#[trigger] t[i].root_run_id)
            &&& forall|i: int|
                0 <= i < runs.len() && !active.contains(#[trigger] runs[i].root_run_id) ==> exists|j: int|
                    0 <= j < t.len() && t[j].root_run_id == runs[i].root_run_id
        }),
    decreases runs.len(),
{
    if runs.len() > 0 {
        let rest = runs.drop_last();
        law_each_tree_recovered_once(rest, active);
        let tr = trees_of(rest, active);
        let last = runs.last();
        if !active.contains(last.root_run_id) {
            let p = other_root(last.root_run_id);
            let f = tr.filter(p);
            let t = f.push(last);
            assert(trees_of(runs, active) == t);
            tr.filter_lemma(p);
            lemma_filter_unique(tr, p);
            assert forall|i: int, j: int| 0 <= i < j < t.len() implies t[i].root_run_id != t[j].root_run_id by {
                if j == f.len() {
                    assert(p(f[i]));
                }
            }
            assert forall|i: int|
                0 <= i < runs.len() && !active.contains(#[trigger] runs[i].root_run_id) implies exists|j: int|
                    0 <= j < t.len() && t[j].root_run_id == runs[i].root_run_id by {
                if runs[i].root_run_id == last.root_run_id {
                    assert(t[f.len() as int].root_run_id == runs[i].root_run_id);
                } else {
                    assert(rest[i] == runs[i]);
                    let j0 = choose|j: int| 0 <= j < tr.len() && tr[j].root_run_id == rest[i].root_run_id;
                    assert(p(tr[j0]));
                    assert(tr.contains(tr[j0]));
                    assert(f.contains(tr[j0]));
                    let k = choose|k: int| 0 <= k < f.len() && f[k] == tr[j0];
                    assert(t[k] == f[k]);
                }
            }
            assert forall|i: int| 0 <= i < t.len() implies !active.contains(#[trigger] t[i].root_run_id) by {
                if i < f.len() {
                    assert(f.contains(f[i]));
                    tr.lemma_filter_contains_rev(p, f[i]);
                    assert(tr.contains(f[i]));
                    let a = choose|a: int| 0 <= a < tr.len() && tr[a] == f[i];
                    assert(!active.contains(tr[a].root_run_id));
                }
            }
        } else {
            assert(trees_of(runs, active) == tr);
            assert forall|i: int|
                0 <= i < runs.len() && !active.contains(#[trigger] runs[i].root_run_id) implies exists|j: int|
                    0 <= j < tr.len() && tr[j].root_run_id == runs[i].root_run_id by {
                assert(i < rest.len());
                assert(rest[i] == runs[i]);
            }
        }
    }
}

/// Filtering a list of claims with distinct roots keeps them distinct.
proof fn lemma_filter_unique(s: Seq<RunRecoveryInfo>, p: spec_fn(RunRecoveryInfo) -> bool)
    requires
        forall|a: int, b: int| 0 <= a < b < s.len() ==> s[a].root_run_id != s[b].root_run_id,
    ensures
        forall|a: int, b: int| 0 <= a < b < s.filter(p).len() ==> s.filter(p)[a].root_run_id != s.filter(p)[b].root_run_id,
    decreases s.len(),
{
    if s.len() > 0 {
        let rest = s.drop_last();
        assert(s =~= rest.push(s.last()));
        rest.lemma_filter_push(s.last(), p);
        assert forall|a: int, b: int| 0 <= a < b < rest.len() implies rest[a].root_run_id != rest[b].root_run_id by {
            assert(rest[a] == s[a]);
            assert(rest[b] == s[b]);
        }
        lemma_filter_unique(rest, p);
        let fr = rest.filter(p);
        rest.filter_lemma(p);
        if p(s.last()) {
            let f = fr.push(s.last());
            assert forall|a: int, b: int| 0 <= a < b < f.len() implies f[a].root_run_id != f[b].root_run_id by {
                if b == fr.len() {
                    assert(fr.contains(fr[a]));
                    rest.lemma_filter_contains_rev(p, fr[a]);
                    assert(rest.contains(fr[a]));
                    let k = choose|k: int| 0 <= k < rest.len() && rest[k] == fr[a];
                    assert(s[k] == rest[k]);
                    assert(s[s.len() - 1] == s.last());
                }
            }
        }
    } else {
        assert(s.filter(p) =~= s);
    }
}

/// A recovered sub-flow is matched at most once: once taken, its key is
/// gone.
pub proof fn law_recovered_subflow_taken_once(map: Seq<(SubflowKey, u128)>, key: SubflowKey)
    ensures
        assoc_get(assoc_remove(map, key), key) is None,
    decreases map.len(),
{
    let p = key_differs::<SubflowKey, u128>(key);
    if map.len() > 0 {
        let rest = map.drop_last();
        law_recovered_subflow_taken_once(rest, key);
        assert(map =~= rest.push(map.last()));
        rest.lemma_filter_push(map.last(), p);
        let fr = rest.filter(p);
        if p(map.last()) {
            assert(fr.push(map.last()).drop_last() =~= fr);
            assert(fr.push(map.last()).last() == map.last());
        }
    } else {
        assert(map.filter(p) =~= map);
    }
}

/// Retries never exceed their budgets, and a task is retried only while its
/// budget lasts.
pub proof fn law_retries_stay_within_budget(
    kind: FailureKind,
    st: RetryState,
    transport_max: u32,
    component_max: Option<u32>,
)
    requires
        st.transport_retries <= transport_max,
        component_max matches Some(m) ==> st.component_retries <= m,
    ensures
        ({
            let (d, next) = retry_step(kind, st, transport_max, component_max);
            &&& next.transport_retries <= transport_max
            &&& (component_max matches Some(m) ==> next.component_retries <= m)
            &&& (d is Retry <==> may_retry(kind, st, transport_max, component_max))
            &&& (kind == FailureKind::Other ==> d is Complete && next == st)
        }),
{
}

/// Queueing a step a second time changes nothing and queues nothing new.
pub proof fn law_queueing_again_changes_nothing(v: ItemView, g: DepGraph, s: usize)
    ensures
        added_view(added_view(v, g, s), g, s) == added_view(v, g, s),
        reach_set(g, added_view(v, g, s).needed, s).difference(added_view(v, g, s).needed) == Set::<usize>::empty(),
{
    let v1 = added_view(v, g, s);
    let r1 = reach_set(g, v.needed, s);
    let r2 = reach_set(g, v1.needed, s);
    lemma_reach_self(g, v.needed, s);
    lemma_reach_self(g, v1.needed, s);
    let c = Set::<usize>::empty().insert(s);
    assert forall|x: usize, d: usize|
        c.contains(x) && #[trigger] step_deps(g, x).contains(d) && !v1.needed.contains(d) implies c.contains(d) by {
        if !v.needed.contains(d) {
            lemma_reach_step(g, v.needed, s, s, d);
        }
    }
    lemma_reach_closed(g, v1.needed, s, c);
    assert(r2 =~= c);
    let v2 = added_view(v1, g, s);
    assert(v2.needed =~= v1.needed);
    assert(v2.waiting_on =~= v1.waiting_on);
    assert(r2.difference(v1.needed) =~= Set::<usize>::empty());
}

/// Each needed step waits for exactly its uncompleted dependencies, every
/// other step for nothing; the needed steps are step indices and hold their
/// own dependencies.
spec fn settled(v: ItemView, g: DepGraph) -> bool {
    &&& v.waiting_on.len() == v.num_steps
    &&& forall|i: int|
        0 <= i < v.num_steps ==> #[trigger] v.waiting_on[i] == (if v.needed.contains(i as usize) {
            step_deps(g, i as usize)
        } else {
            Set::<usize>::empty()
        })
    &&& forall|i: usize, d: usize| v.needed.contains(i) && #[trigger] step_deps(g, i).contains(d) ==> v.needed.contains(d)
    &&& forall|i: usize| #[trigger] v.needed.contains(i) ==> i < v.num_steps
}

/// Every dependency is a step index below `n`.
spec fn deps_below(g: DepGraph, n: nat) -> bool {
    forall|i: usize, d: usize| #[trigger] step_deps(g, i).contains(d) ==> d < n
}

/// Asking for a step keeps a settled state settled.
proof fn lemma_added_settled(v: ItemView, g: DepGraph, s: usize)
    requires
        settled(v, g),
        deps_below(g, v.num_steps),
        s < v.num_steps,
    ensures
        settled(added_view(v, g, s), g),
{
    let r = reach_set(g, v.needed, s);
    let w = added_view(v, g, s);
    let c = Set::new(|x: usize| x < v.num_steps);
    lemma_reach_closed(g, v.needed, s, c);
    assert forall|i: int| 0 <= i < w.num_steps implies #[trigger] w.waiting_on[i] == (if w.needed.contains(i as usize) {
        step_deps(g, i as usize)
    } else {
        Set::<usize>::empty()
    }) by {
        if !r.contains(i as usize) {
            assert(v.waiting_on[i] == (if v.needed.contains(i as usize) {
                step_deps(g, i as usize)
            } else {
                Set::<usize>::empty()
            }));
        }
    }
    assert forall|i: usize, d: usize| w.needed.contains(i) && #[trigger] step_deps(g, i).contains(d) implies w.needed.contains(d) by {
        if !v.needed.contains(i) && !v.needed.contains(d) {
            lemma_reach_step(g, v.needed, s, i, d);
        }
    }
    assert forall|i: usize| #[trigger] w.needed.contains(i) implies i < w.num_steps by {
        if !v.needed.contains(i) {
            assert(c.contains(i));
        }
    }
}

/// Asking for steps in turn keeps a settled state settled, and every step
/// asked for, with every step needed before, is needed after.
proof fn lemma_added_all_settled(v: ItemView, g: DepGraph, ss: Seq<usize>)
    requires
        settled(v, g),
        deps_below(g, v.num_steps),
        forall|k: int| 0 <= k < ss.len() ==> #[trigger] ss[k] < v.num_steps,
    ensures
        settled(added_all(v, g, ss), g),
        added_all(v, g, ss).num_steps == v.num_steps,
        v.needed.subset_of(added_all(v, g, ss).needed),
        forall|k: int| 0 <= k < ss.len() ==> added_all(v, g, ss).needed.contains(#[trigger] ss[k]),
    decreases ss.len(),
{
    if ss.len() > 0 {
        let p = ss.drop_last();
        assert forall|k: int| 0 <= k < p.len() implies #[trigger] p[k] < v.num_steps by {
            assert(p[k] == ss[k]);
        }
        lemma_added_all_settled(v, g, p);
        let u = added_all(v, g, p);
        lemma_added_settled(u, g, ss.last());
        lemma_reach_self(g, u.needed, ss.last());
        assert forall|k: int| 0 <= k < ss.len() implies added_all(v, g, ss).needed.contains(#[trigger] ss[k]) by {
            if k < p.len() {
                assert(p[k] == ss[k]);
                assert(u.needed.contains(p[k]));
            }
        }
    }
}

/// Asking for steps of a set that holds the needed steps and its own
/// dependencies needs nothing outside it.
proof fn lemma_added_all_within(v: ItemView, g: DepGraph, ss: Seq<usize>, c: Set<usize>)
    requires
        v.needed.subset_of(c),
        forall|k: int| 0 <= k < ss.len() ==> c.contains(#[trigger] ss[k]),
        forall|x: usize, d: usize| c.contains(x) && #[trigger] step_deps(g, x).contains(d) ==> c.contains(d),
    ensures
        added_all(v, g, ss).needed.subset_of(c),
    decreases ss.len(),
{
    if ss.len() > 0 {
        let p = ss.drop_last();
        assert forall|k: int| 0 <= k < p.len() implies c.contains(#[trigger] p[k]) by {
            assert(p[k] == ss[k]);
        }
        lemma_added_all_within(v, g, p, c);
        let u = added_all(v, g, p);
        lemma_reach_closed(g, u.needed, ss.last(), c);
    }
}

/// Replaying an item's `StepsNeeded` record on the item as it was before
/// initialization (nothing needed, nothing waited for; steps may have
/// completed) gives the item its initialized state: asking for the steps
/// that initialization made needed, in increasing order, needs the same
/// steps and makes each wait for the same steps, so the same tasks are
/// ready, in the same order, for any item index.
pub proof fn law_replayed_needed_steps_match_initialization(it: ItemState, item_index: u32)
    requires
        it.wf(),
        it@.needed == Set::<usize>::empty(),
        forall|i: int| 0 <= i < it@.num_steps ==> #[trigger] it@.waiting_on[i] == Set::<usize>::empty(),
    ensures
        added_all(it@, it.graph(), sorted_below(initialized_view(it).needed, it@.num_steps)) == initialized_view(it),
        tasks_for(item_index, ready_list(added_all(it@, it.graph(), sorted_below(initialized_view(it).needed, it@.num_steps))))
            == tasks_for(item_index, ready_list(initialized_view(it))),
{
    it.lemma_wf();
    let g = it.graph();
    let n = it@.num_steps;
    let v0 = it@;
    assert(g.names.len() == n);
    assert forall|i: usize, d: usize| #[trigger] step_deps(g, i).contains(d) implies d < n by {
        lemma_expr_refs_bound(g.inputs[i as int], g.names, g.defined);
    }
    assert(settled(v0, g));
    let out = output_list(it);
    let must = sorted_below(must_execute_set(it.flow_spec().steps@), n);
    lemma_sorted_below(expr_refs_of_output(it), n);
    lemma_sorted_below(must_execute_set(it.flow_spec().steps@), n);
    lemma_added_all_settled(v0, g, out);
    lemma_added_all_frame(v0, g, out);
    let va = added_all(v0, g, out);
    lemma_added_all_settled(va, g, must);
    lemma_added_all_frame(va, g, must);
    let v1 = added_all(va, g, must);
    assert(v1 == initialized_view(it));
    let l = sorted_below(v1.needed, n);
    lemma_sorted_below(v1.needed, n);
    lemma_added_all_settled(v0, g, l);
    lemma_added_all_frame(v0, g, l);
    assert forall|k: int| 0 <= k < l.len() implies v1.needed.contains(#[trigger] l[k]) by {
        assert(l.contains(l[k]));
    }
    lemma_added_all_within(v0, g, l, v1.needed);
    let r = added_all(v0, g, l);
    assert forall|x: usize| v1.needed.contains(x) implies r.needed.contains(x) by {
        assert(l.contains(x));
        let k = choose|k: int| 0 <= k < l.len() && l[k] == x;
        assert(r.needed.contains(l[k]));
    }
    assert(r.needed =~= v1.needed);
    assert(r.waiting_on =~= v1.waiting_on);
}

/// The steps that an item's output refers to and that have not completed.
spec fn expr_refs_of_output(it: ItemState) -> Set<usize> {
    crate::flow::expr_refs(it.flow_spec().output, it.graph().names, it.graph().defined).difference(it@.completed)
}


/// The positions of the items that are not complete.
pub open spec fn incomplete_items(items: Seq<ItemState>) -> Set<int> {
    Set::new(|i: int| 0 <= i < items.len() && !view_complete(items[i]@))
}

/// The incomplete counter of a run's items is the number of its items that
/// are not complete.
pub proof fn law_incomplete_counts_items(items: Seq<ItemState>)
    ensures
        incomplete_items(items).finite(),
        count_incomplete(items) == incomplete_items(items).len(),
    decreases items.len(),
{
    if items.len() == 0 {
        assert(incomplete_items(items) =~= Set::<int>::empty());
    } else {
        let rest = items.drop_last();
        let n = items.len() - 1;
        law_incomplete_counts_items(rest);
        if view_complete(items[n]@) {
            assert(incomplete_items(items) =~= incomplete_items(rest));
        } else {
            assert(incomplete_items(items) =~= incomplete_items(rest).insert(n));
            assert(!incomplete_items(rest).contains(n));
        }
    }
}

/// Completing a task of an item lowers the number of incomplete items by one
/// exactly when the item becomes complete, and leaves it as it was
/// otherwise: a completion never makes an item incomplete.
pub proof fn law_completion_lowers_incomplete_count(
    items: Seq<ItemState>,
    i: int,
    after: ItemState,
    step: usize,
    result: FlowResult,
)
    requires
        0 <= i < items.len(),
        after@ == completed_view(items[i]@, step, result),
    ensures
        view_complete(items[i]@) ==> view_complete(after@),
        count_incomplete(items.update(i, after)) == count_incomplete(items) - (if !view_complete(items[i]@)
            && view_complete(after@) {
            1int
        } else {
            0int
        }),
{
    lemma_count_update(items, i, after);
}

/// The sub-runs that owe a `StepsNeeded` record after replaying `events` in
/// order, starting from `start`.
pub open spec fn needing_after(start: Set<u128>, root_run_id: u128, events: Seq<JournalEvent>) -> Set<u128>
    decreases events.len(),
{
    if events.len() == 0 {
        start
    } else {
        needing_step(needing_after(start, root_run_id, events.drop_last()), root_run_id, events.last())
    }
}

/// What `event` says of whether sub-run `x` owes its `StepsNeeded` record:
/// its creation says it does, its `StepsNeeded` or `RunCompleted` record
/// that it does not; any other record says nothing.
pub open spec fn needing_mark(event: JournalEvent, x: u128) -> Option<bool> {
    match event {
        JournalEvent::SubRunCreated { run_id, .. } => if run_id == x {
            Some(true)
        } else {
            None
        },
        JournalEvent::StepsNeeded { run_id, .. } => if run_id == x {
            Some(false)
        } else {
            None
        },
        JournalEvent::RunCompleted { run_id, .. } => if run_id == x {
            Some(false)
        } else {
            None
        },
        _ => None,
    }
}

/// The last thing `events` say of sub-run `x`, if they say anything.
pub open spec fn last_needing_mark(events: Seq<JournalEvent>, x: u128) -> Option<bool>
    decreases events.len(),
{
    if events.len() == 0 {
        None
    } else {
        match needing_mark(events.last(), x) {
            Some(b) => Some(b),
            None => last_needing_mark(events.drop_last(), x),
        }
    }
}

/// After replaying a sequence of records, a sub-run owes its `StepsNeeded`
/// record exactly when the last of its `SubRunCreated`, `StepsNeeded` and
/// `RunCompleted` records is its creation, or, with none of them replayed,
/// when it owed it before.
pub proof fn law_needing_follows_last_record(start: Set<u128>, root_run_id: u128, events: Seq<JournalEvent>, x: u128)
    requires
        x != root_run_id,
    ensures
        needing_after(start, root_run_id, events).contains(x) == (match last_needing_mark(events, x) {
            Some(b) => b,
            None => start.contains(x),
        }),
    decreases events.len(),
{
    if events.len() > 0 {
        law_needing_follows_last_record(start, root_run_id, events.drop_last(), x);
    }
}


/// Some checkpoint of run `id` comes first among those of `id`.
proof fn lemma_first_run_exists(cps: Seq<RunCheckpoint>, id: u128, k: int)
    requires
        0 <= k < cps.len(),
        cps[k].run_id == id,
    ensures
        exists|f: int| is_first_run(cps, id, f),
    decreases k,
{
    if exists|j: int| 0 <= j < k && #[trigger] cps[j].run_id == id {
        let j = choose|j: int| 0 <= j < k && #[trigger] cps[j].run_id == id;
        lemma_first_run_exists(cps, id, j);
    } else {
        assert(is_first_run(cps, id, k));
    }
}

/// A checkpoint taken of a run fits the run's flow.
proof fn lemma_captured_fits(st: RunState, cp: RunCheckpoint)
    requires
        st.wf(),
        run_captured(cp, st),
    ensures
        checkpoint_fits(cp, st.flow_spec().steps@.len()),
{
    law_checkpoint_restores_run(st, cp);
}

/// A checkpoint captured from the runs of an execution tree can be restored:
/// with the root run's flow, and for every other run checkpoint the flow of
/// the run it was taken from, `replay_from_checkpoint` succeeds.
pub proof fn law_captured_checkpoint_is_restorable(
    runs: Seq<RunState>,
    cps: Seq<RunCheckpoint>,
    root_run_id: u128,
    flow: Flow,
    sub_flows: Seq<Option<Arc<Flow>>>,
)
    requires
        forall|j: int| 0 <= j < runs.len() ==> #[trigger] runs[j].wf(),
        forall|i: int| 0 <= i < cps.len() ==> #[trigger] captured_from(cps[i], runs),
        forall|j: int| 0 <= j < runs.len() ==> #[trigger] has_run(cps, runs[j].run_id_spec()),
        exists|j: int| 0 <= j < runs.len() && #[trigger] runs[j].run_id_spec() == root_run_id,
        forall|j: int| 0 <= j < runs.len() && #[trigger] runs[j].run_id_spec() == root_run_id ==> runs[j].flow_spec() == flow,
        sub_flows.len() == cps.len(),
        forall|i: int|
            0 <= i < cps.len() && #[trigger] cps[i].run_id != root_run_id ==> {
                &&& sub_flows[i] is Some
                &&& sub_flows[i]->0.steps@.len() < usize::MAX
                &&& forall|j: int|
                    0 <= j < runs.len() && #[trigger] runs[j].run_id_spec() == cps[i].run_id ==> runs[j].flow_spec()
                        == *sub_flows[i]->0
            },
    ensures
        checkpoint_restorable(cps, root_run_id, flow, sub_flows),
{
    let r = choose|j: int| 0 <= j < runs.len() && #[trigger] runs[j].run_id_spec() == root_run_id;
    assert(has_run(cps, runs[r].run_id_spec()));
    let k = choose|i: int| 0 <= i < cps.len() && #[trigger] cps[i].run_id == root_run_id;
    lemma_first_run_exists(cps, root_run_id, k);
    let f = first_run_pos(cps, root_run_id)->0;
    assert(is_first_run(cps, root_run_id, f));
    assert(captured_from(cps[f], runs));
    let jf = choose|j: int| 0 <= j < runs.len() && #[trigger] run_captured(cps[f], runs[j]);
    reveal(run_captured);
    lemma_captured_fits(runs[jf], cps[f]);
    assert forall|i: int| 0 <= i < cps.len() && #[trigger] cps[i].run_id != root_run_id implies sub_restorable(
        cps[i],
        sub_flows[i],
    ) by {
        assert(captured_from(cps[i], runs));
        let j = choose|j: int| 0 <= j < runs.len() && #[trigger] run_captured(cps[i], runs[j]);
        lemma_captured_fits(runs[j], cps[i]);
    }
}


/// A sub-flow created while executing and the same sub-flow rebuilt by
/// replaying its `SubRunCreated` record start from the same state: the same
/// identity, parent, flow and variables, and each item with the same input
/// and the same (initial) state. The record carries everything the run was
/// created from.
pub proof fn law_replayed_subflow_matches_creation(
    live: RunState,
    event: JournalEvent,
    root_run_id: u128,
    flow: Arc<Flow>,
    inputs: Seq<serde_json::Value>,
    variables: Seq<(String, serde_json::Value)>,
    s0: Seq<RunState>,
    s1: Seq<RunState>,
)
    requires
        sub_run_created_of(event) matches Some(c) && c.2 == inputs && c.3 == variables && fresh_subflow(
            live,
            c.0,
            c.1,
            root_run_id,
            c.4,
            *flow,
            inputs,
            variables,
        ),
        sub_pos(s0, live.run_id_spec()) is None,
        subs_step(s0, s1, root_run_id, event, Some(flow)),
    ensures
        s1.len() == s0.len() + 1,
        s1.drop_last() == s0,
        ({
            let rebuilt = s1.last();
            let a = rebuilt.items().items_spec();
            let b = live.items().items_spec();
            &&& rebuilt.wf()
            &&& rebuilt.run_id_spec() == live.run_id_spec()
            &&& rebuilt.flow_id_spec() == live.flow_id_spec()
            &&& rebuilt.root_run_id_spec() == live.root_run_id_spec()
            &&& rebuilt.parent_run_id_spec() == live.parent_run_id_spec()
            &&& rebuilt.flow_spec() == live.flow_spec()
            &&& rebuilt.items().variables_spec() == live.items().variables_spec()
            &&& a.len() == b.len()
            &&& forall|i: int| 0 <= i < a.len() ==> (#[trigger] a[i]).input_spec() == b[i].input_spec() && a[i]@ == b[i]@
        }),
{
    let rebuilt = s1.last();
    let a = rebuilt.items().items_spec();
    let b = live.items().items_spec();
    assert forall|i: int| 0 <= i < a.len() implies (#[trigger] a[i]).input_spec() == b[i].input_spec() && a[i]@ == b[i]@ by {
        assert(a[i].input_spec() == inputs[i]);
        assert(b[i].input_spec() == inputs[i]);
    }
}


/// A skip action changes only a skipped result: a step reference to a step
/// whose result is anything else resolves as it would with no skip action,
/// and a step's failure resolves to that failure, whatever the reference's
/// path and skip action. A skipped result with a default resolves to the
/// default.
pub proof fn law_skip_action_only_for_skipped(
    it: ItemState,
    step: String,
    path: String,
    on_skip: SkipAction,
    i: usize,
    r: FlowResult,
)
    requires
        lookup_name(step_names(it.flow_spec().steps@), step@) == Some(i),
        it@.results[i as int] == Some(r),
    ensures
        !(r is Skipped) ==> resolved(ValueExpr::Step { step, path, on_skip }, it) == resolved(
            ValueExpr::Step { step, path, on_skip: SkipAction::Skip },
            it,
        ),
        r matches FlowResult::Failed(e) ==> resolved(ValueExpr::Step { step, path, on_skip }, it) == Ok::<
            FlowResult,
            ExecutionError,
        >(FlowResult::Failed(e)),
        r is Skipped ==> match on_skip {
            SkipAction::UseDefault { default_value } => resolved(ValueExpr::Step { step, path, on_skip }, it)
                == Ok::<FlowResult, ExecutionError>(FlowResult::Success(default_value)),
            SkipAction::Skip => resolved(ValueExpr::Step { step, path, on_skip }, it) == Ok::<
                FlowResult,
                ExecutionError,
            >(FlowResult::Skipped),
        },
{
}

/// The step-status update that a task completion owes records the step as
/// failed exactly when the completion's result is a failure, and as
/// completed otherwise, with that result, for that item and step, at the
/// record's sequence.
pub proof fn law_completion_update_status(
    st: Replay,
    run_id: u128,
    item_index: u32,
    step_index: usize,
    result: FlowResult,
    seq: u64,
)
    requires
        st.flow_of(run_id) is Some,
    ensures
        ({
            let ups = status_updates(st, JournalEvent::TaskCompleted { run_id, item_index, step_index, result }, seq);
            &&& ups.len() == 1
            &&& ups[0] matches ActionView::UpdateStepStatus {
                run_id: u_run,
                item_index: u_item,
                step_index: u_step,
                status,
                result: u_result,
                sequence,
                ..
            }
            &&& u_run == run_id && u_item == item_index && u_step == step_index
            &&& u_result == Some(result)
            &&& sequence == seq
            &&& (status == StepStatus::Failed <==> result is Failed)
            &&& (status == StepStatus::Failed || status == StepStatus::Completed)
        }),
{
}

/// A run fails when any one of its item outputs failed or could not be
/// resolved, wherever that item stands among the others.
pub proof fn law_any_failed_item_fails_the_run(rs: Seq<Result<FlowResult, ExecutionError>>, i: int)
    requires
        0 <= i < rs.len(),
        rs[i] is Err || (rs[i] matches Ok(FlowResult::Failed(_))),
    ensures
        results_status(rs) == ExecutionStatus::Failed,
{
    assert(!(rs[i] matches Ok(r) && !(r is Failed)));
}

/// A run whose item outputs all resolved to results other than failures
/// completes.
pub proof fn law_run_completes_when_no_item_fails(rs: Seq<Result<FlowResult, ExecutionError>>)
    requires
        forall|i: int| 0 <= i < rs.len() ==> (#[trigger] rs[i] matches Ok(r) && !(r is Failed)),
    ensures
        results_status(rs) == ExecutionStatus::Completed,
{
}

/// Asking for steps in turn makes each of them needed, whatever was needed
/// before.
proof fn lemma_asked_steps_needed(v: ItemView, g: DepGraph, ss: Seq<usize>)
    ensures
        forall|k: int| 0 <= k < ss.len() ==> added_all(v, g, ss).needed.contains(#[trigger] ss[k]),
    decreases ss.len(),
{
    if ss.len() > 0 {
        let p = ss.drop_last();
        lemma_asked_steps_needed(v, g, p);
        let u = added_all(v, g, p);
        lemma_reach_self(g, u.needed, ss.last());
        assert forall|k: int| 0 <= k < ss.len() implies added_all(v, g, ss).needed.contains(#[trigger] ss[k]) by {
            if k < p.len() {
                assert(p[k] == ss[k]);
                assert(u.needed.contains(p[k]));
            }
        }
    }
}

/// After initialization every step marked `must_execute` is needed, so an
/// item with such a step that has not completed is not complete.
pub proof fn law_initialization_needs_must_execute(it: ItemState, i: usize)
    requires
        it.wf(),
        i < it.flow_spec().steps@.len(),
        it.flow_spec().steps@[i as int].must_execute,
    ensures
        initialized_view(it).needed.contains(i),
        !it@.completed.contains(i) ==> !view_complete(initialized_view(it)),
{
    it.lemma_wf();
    let g = it.graph();
    let n = it@.num_steps;
    let v1 = added_all(it@, g, output_list(it));
    let must = sorted_below(must_execute_set(it.flow_spec().steps@), n);
    lemma_sorted_below(must_execute_set(it.flow_spec().steps@), n);
    assert(must.contains(i));
    let k = choose|k: int| 0 <= k < must.len() && must[k] == i;
    lemma_asked_steps_needed(v1, g, must);
    assert(initialized_view(it).needed.contains(must[k]));
    lemma_added_all_frame(it@, g, output_list(it));
    lemma_added_all_frame(v1, g, must);
}

/// The members of `keep_in(steps, s)` are members of `steps` and of `s`.
proof fn lemma_keep_in_members(steps: Seq<usize>, s: Set<usize>, k: int)
    requires
        0 <= k < keep_in(steps, s).len(),
    ensures
        steps.contains(keep_in(steps, s)[k]),
        s.contains(keep_in(steps, s)[k]),
    decreases steps.len(),
{
    let rest = keep_in(steps.drop_last(), s);
    if k < rest.len() {
        lemma_keep_in_members(steps.drop_last(), s, k);
        let j = choose|j: int| 0 <= j < steps.drop_last().len() && steps.drop_last()[j] == rest[k];
        assert(steps[j] == rest[k]);
    } else {
        assert(steps[steps.len() - 1] == steps.last());
    }
}

/// The tasks that completing a step makes ready are steps that were waiting
/// on it and are ready afterwards; none of them was ready before, so no
/// task that was already handed out is handed out again.
pub proof fn law_completion_readies_only_unblocked(it: ItemState, step: usize, result: FlowResult, k: int)
    requires
        it.wf(),
        0 <= k < ready_after_completion(it, step, result).len(),
    ensures
        ({
            let x = ready_after_completion(it, step, result)[k];
            &&& unblocked_by(it@, step).contains(x)
            &&& it@.waiting_on[x as int].contains(step)
            &&& !ready_set(it@).contains(x)
            &&& ready_set(completion_view(it, step, result)).contains(x)
        }),
{
    it.lemma_wf();
    let l = unblocked_list(it@, step);
    let x = ready_after_completion(it, step, result)[k];
    lemma_keep_in_members(l, ready_set(completion_view(it, step, result)), k);
    lemma_sorted_below(unblocked_by(it@, step), it@.num_steps);
    assert(l.contains(x));
    assert(unblocked_by(it@, step).contains(x));
    assert(it@.waiting_on[x as int].contains(step));
    assert(it@.waiting_on[x as int] != Set::<usize>::empty());
}

} // verus!
