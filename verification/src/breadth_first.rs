//! The BreadthFirst scheduling strategy.

use crate::decision::SchedulerDecision;
use crate::scheduler::Scheduler;
use crate::task::Task;
use crate::task_queue::{sorted_by, task_le, TaskOrder, TaskQueue};
use vstd::prelude::*;

verus! {

/// A scheduler that groups tasks by step across items: tasks are handed out by
/// `(step_index, item_index)`, smallest first.
pub struct BreadthFirstScheduler {
    ready: TaskQueue,
}

impl BreadthFirstScheduler {
    /// Create a new scheduler with no tasks.
    pub fn new() -> (r: Self)
        ensures
            r.wf(),
            r.pending() == Seq::<Task>::empty(),
    {
        BreadthFirstScheduler { ready: TaskQueue::new(TaskOrder::StepFirst) }
    }
}

impl Scheduler for BreadthFirstScheduler {
    closed spec fn wf(&self) -> bool {
        self.ready.wf() && self.ready.order() == TaskOrder::StepFirst
    }

    closed spec fn pending(&self) -> Seq<Task> {
        self.ready.pending()
    }

    open spec fn precedes(&self, a: Task, b: Task) -> bool {
        task_le(TaskOrder::StepFirst, a, b)
    }

    fn select_next(&mut self, max_tasks: usize) -> (r: SchedulerDecision)
        ensures
            sorted_by(TaskOrder::StepFirst, final(self).pending()),
    {
        let tasks = self.ready.take_first(max_tasks);
        SchedulerDecision::execute(tasks)
    }

    fn task_completed(&mut self, _task: Task) {
    }

    fn notify_new_tasks(&mut self, tasks: &[Task])
        ensures
            sorted_by(TaskOrder::StepFirst, final(self).pending()),
    {
        self.ready.push_all(tasks);
    }

    fn reset(&mut self) {
        self.ready.clear();
    }
}

impl BreadthFirstScheduler {
    /// The held tasks are in priority order.
    pub proof fn lemma_sorted(&self)
        requires
            self.wf(),
        ensures
            sorted_by(TaskOrder::StepFirst, self.pending()),
    {
    }
}

} // verus!
