//! The decision a scheduler returns: no task is ready, or a non-empty list of
//! tasks to run.

use crate::task::Task;
use nonempty::NonEmpty;
use vstd::prelude::*;

verus! {

#[verifier::external_type_specification]
#[verifier::external_body]
#[verifier::reject_recursive_types(T)]
pub struct ExNonEmpty<T>(nonempty::NonEmpty<T>);

/// The tasks of a non-empty list, in order.
pub uninterp spec fn nonempty_tasks(ne: NonEmpty<Task>) -> Seq<Task>;

/// `NonEmpty::from_vec`: `None` for an empty vector; otherwise the list holds
/// the vector's elements in order (its head is the first, its tail the rest).
#[verifier::external_body]
fn nonempty_from_vec(v: Vec<Task>) -> (r: Option<NonEmpty<Task>>)
    ensures
        r is None <==> v@.len() == 0,
        r matches Some(ne) ==> nonempty_tasks(ne) == v@,
{
    NonEmpty::from_vec(v)
}

/// `Vec::from(NonEmpty)`: the head followed by the tail, so at least one task.
#[verifier::external_body]
fn nonempty_into_vec(ne: NonEmpty<Task>) -> (r: Vec<Task>)
    ensures
        r@ == nonempty_tasks(ne),
        r@.len() >= 1,
{
    Vec::from(ne)
}

/// Decision returned by the scheduler.
#[derive(Debug, PartialEq, Eq)]
pub enum SchedulerDecision {
    /// No tasks are ready; the executor waits for in-flight tasks.
    Idle,
    /// Execute these tasks; the list is never empty.
    Execute(NonEmpty<Task>),
}

/// The tasks a decision hands out, in order.
pub open spec fn decision_tasks(d: SchedulerDecision) -> Seq<Task> {
    match d {
        SchedulerDecision::Idle => Seq::empty(),
        SchedulerDecision::Execute(ne) => nonempty_tasks(ne),
    }
}

impl SchedulerDecision {
    /// Create an Idle decision.
    pub fn idle() -> (r: Self)
        ensures
            r is Idle,
    {
        SchedulerDecision::Idle
    }

    /// Create an Execute decision with the given tasks; `Idle` if there are none.
    pub fn execute(tasks: Vec<Task>) -> (r: Self)
        ensures
            r is Idle <==> tasks@.len() == 0,
            decision_tasks(r) == tasks@,
    {
        match nonempty_from_vec(tasks) {
            Some(ne) => SchedulerDecision::Execute(ne),
            None => SchedulerDecision::Idle,
        }
    }

    /// Check if this is an Idle decision.
    pub fn is_idle(&self) -> (r: bool)
        ensures
            r == (*self is Idle),
    {
        match self {
            SchedulerDecision::Idle => true,
            _ => false,
        }
    }

    /// Convert into the task list, if any.
    pub fn into_tasks(self) -> (r: Option<NonEmpty<Task>>)
        ensures
            r matches Some(ne) ==> self == SchedulerDecision::Execute(ne),
            r is None <==> self is Idle,
    {
        match self {
            SchedulerDecision::Idle => None,
            SchedulerDecision::Execute(tasks) => Some(tasks),
        }
    }

    /// The tasks to run, in order (empty for `Idle`).
    pub fn task_list(self) -> (r: Vec<Task>)
        ensures
            r@ == decision_tasks(self),
    {
        match self {
            SchedulerDecision::Idle => Vec::new(),
            SchedulerDecision::Execute(tasks) => nonempty_into_vec(tasks),
        }
    }
}

} // verus!
