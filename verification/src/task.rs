//! A [`Task`] is a single unit of work: executing a specific step for a
//! specific item. Tasks are identified by `(item_index, step_index)` pairs.

use crate::flow::FlowResult;
use vstd::prelude::*;

verus! {

/// A single unit of work in the execution engine: one step of one item.
#[derive(Debug, Clone, Copy, PartialEq, Eq, Hash, Structural)]
pub struct Task {
    /// The item that the task runs a step of.
    pub item_index: u32,
    /// Index of the step to execute within the item's flow.
    pub step_index: usize,
}

impl Task {
    /// Create a new task.
    pub fn new(item_index: u32, step_index: usize) -> (r: Self)
        ensures
            r.item_index == item_index,
            r.step_index == step_index,
    {
        Task { item_index, step_index }
    }
}

/// The result of executing a step, with the step it belongs to.
pub struct StepRunResult {
    pub step_index: usize,
    pub step_name: String,
    pub component: String,
    pub result: FlowResult,
}

impl StepRunResult {
    pub fn new(step_index: usize, step_name: String, component: String, result: FlowResult) -> (r: Self)
        ensures
            r.step_index == step_index,
            r.step_name == step_name,
            r.component == component,
            r.result == result,
    {
        StepRunResult { step_index, step_name, component, result }
    }

    /// Get the step index.
    pub fn step_index(&self) -> (r: usize)
        ensures
            r == self.step_index,
    {
        self.step_index
    }

    /// Get the step id.
    pub fn step_id(&self) -> (r: &str)
        ensures
            r@ == self.step_name@,
    {
        self.step_name.as_str()
    }

    /// Get the component path.
    pub fn component(&self) -> (r: &str)
        ensures
            r@ == self.component@,
    {
        self.component.as_str()
    }

    /// Check if the result is a success.
    pub fn is_success(&self) -> (r: bool)
        ensures
            r == (self.result is Success),
    {
        self.result.is_success()
    }

    /// Check if the result is a failure.
    pub fn is_failed(&self) -> (r: bool)
        ensures
            r == (self.result is Failed),
    {
        self.result.is_failed()
    }
}

/// The result of executing a task: the item index with the step's result.
pub struct TaskResult {
    pub item_index: u32,
    pub step: StepRunResult,
}

impl TaskResult {
    /// Create a new task result from a task and step result.
    pub fn new(task: Task, step: StepRunResult) -> (r: Self)
        ensures
            r.item_index == task.item_index,
            r.step == step,
    {
        TaskResult { item_index: task.item_index, step }
    }

    /// Reconstruct the Task from this result.
    pub fn task(&self) -> (r: Task)
        ensures
            r == (Task { item_index: self.item_index, step_index: self.step.step_index }),
    {
        Task::new(self.item_index, self.step.step_index())
    }

    /// Get the step index.
    pub fn step_index(&self) -> (r: usize)
        ensures
            r == self.step.step_index,
    {
        self.step.step_index()
    }

    /// Get a reference to the flow result.
    pub fn result(&self) -> (r: &FlowResult)
        ensures
            *r == self.step.result,
    {
        &self.step.result
    }

    /// Check if the result is a success.
    pub fn is_success(&self) -> (r: bool)
        ensures
            r == (self.step.result is Success),
    {
        self.step.is_success()
    }

    /// Check if the result is a failure.
    pub fn is_failed(&self) -> (r: bool)
        ensures
            r == (self.step.result is Failed),
    {
        self.step.is_failed()
    }
}

} // verus!
