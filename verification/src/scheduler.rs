//! Task scheduling strategies.
//!
//! A scheduler holds the tasks that are ready and hands them out in its
//! priority order:
//!
//! - [`DepthFirstScheduler`](crate::depth_first::DepthFirstScheduler) completes
//!   items one after another, minimizing time to the first result.
//! - [`BreadthFirstScheduler`](crate::breadth_first::BreadthFirstScheduler)
//!   runs one step across items before the next, maximizing throughput.

use crate::decision::{decision_tasks, SchedulerDecision};
use crate::task::Task;
use vstd::prelude::*;

verus! {

/// The number of tasks a selection of at most `max_tasks` hands out from
/// `pending`.
pub open spec fn selection_len(pending: Seq<Task>, max_tasks: usize) -> int {
    if max_tasks < pending.len() {
        max_tasks as int
    } else {
        pending.len() as int
    }
}

/// Trait for task scheduling strategies.
///
/// The executor notifies a scheduler of each task once, when the task
/// becomes ready; the scheduler hands tasks back in its priority order.
pub trait Scheduler {
    /// The scheduler's invariant.
    spec fn wf(&self) -> bool;

    /// The tasks held, in the order they will be handed out.
    spec fn pending(&self) -> Seq<Task>;

    /// `a` is handed out no later than `b`.
    spec fn precedes(&self, a: Task, b: Task) -> bool;

    /// Select up to `max_tasks` of the held tasks, the first ones in priority
    /// order. `Idle` when none is handed out.
    fn select_next(&mut self, max_tasks: usize) -> (r: SchedulerDecision)
        requires
            old(self).wf(),
        ensures
            final(self).wf(),
            r is Idle <==> selection_len(old(self).pending(), max_tasks) == 0,
            decision_tasks(r) == old(self).pending().take(selection_len(old(self).pending(), max_tasks)),
            final(self).pending() == old(self).pending().skip(selection_len(old(self).pending(), max_tasks)),
            forall|a: Task, b: Task| #[trigger] final(self).precedes(a, b) == old(self).precedes(a, b),
    ;

    /// Notify the scheduler that a task has completed.
    fn task_completed(&mut self, task: Task)
        requires
            old(self).wf(),
        ensures
            final(self).wf(),
            final(self).pending() == old(self).pending(),
            forall|a: Task, b: Task| #[trigger] final(self).precedes(a, b) == old(self).precedes(a, b),
    ;

    /// Notify the scheduler that new tasks are ready.
    fn notify_new_tasks(&mut self, tasks: &[Task])
        requires
            old(self).wf(),
        ensures
            final(self).wf(),
            final(self).pending().to_multiset() == old(self).pending().to_multiset().add(
                tasks@.to_multiset(),
            ),
            forall|a: Task, b: Task| #[trigger] final(self).precedes(a, b) == old(self).precedes(a, b),
    ;

    /// Drop every held task.
    fn reset(&mut self)
        requires
            old(self).wf(),
        ensures
            final(self).wf(),
            final(self).pending() == Seq::<Task>::empty(),
            forall|a: Task, b: Task| #[trigger] final(self).precedes(a, b) == old(self).precedes(a, b),
    ;
}

} // verus!
