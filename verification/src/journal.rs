//! The events of the execution journal: the durable record from which a run's
//! state is rebuilt after a restart.

use crate::flow::FlowResult;
use vstd::prelude::*;

verus! {

/// The status a run finishes with.
#[derive(Debug, Clone, Copy, PartialEq, Eq, Structural)]
pub enum ExecutionStatus {
    Running,
    Completed,
    Failed,
}

/// The status of a step, as the metadata store records it.
#[derive(Debug, Clone, Copy, PartialEq, Eq, Structural)]
pub enum StepStatus {
    /// It waits for dependencies.
    Blocked,
    /// All its dependencies have completed.
    Runnable,
    /// A task of it has started.
    Running,
    /// It finished with a result.
    Completed,
    /// It finished with a failure.
    Failed,
}

/// One attempt of a task, as recorded when it starts.
pub struct TaskAttempt {
    pub item_index: u32,
    pub step_index: usize,
    pub attempt: u32,
    pub task_id: String,
}

/// The attempts started for one run.
pub struct RunTaskAttempts {
    pub run_id: u128,
    pub tasks: Vec<TaskAttempt>,
}

/// An event of the execution journal. All events of an execution tree (the
/// root run and its sub-flows) share one journal.
pub enum JournalEvent {
    /// The root run was created.
    RootRunCreated {
        run_id: u128,
        flow_id: String,
        inputs: Vec<serde_json::Value>,
        variables: Vec<(String, serde_json::Value)>,
    },
    /// A sub-flow run was created by a step of a parent run.
    SubRunCreated {
        run_id: u128,
        flow_id: String,
        inputs: Vec<serde_json::Value>,
        variables: Vec<(String, serde_json::Value)>,
        parent_run_id: u128,
        item_index: u32,
        step_index: usize,
        subflow_key: u128,
    },
    /// The steps an item of a run needs were determined.
    StepsNeeded { run_id: u128, item_index: u32, step_indices: Vec<usize> },
    /// Tasks were started.
    TasksStarted { runs: Vec<RunTaskAttempts> },
    /// A task completed with a result.
    TaskCompleted { run_id: u128, item_index: u32, step_index: usize, result: FlowResult },
    /// Steps became ready after a completion.
    StepsUnblocked { run_id: u128, item_index: u32, step_indices: Vec<usize> },
    /// A run finished.
    RunCompleted { run_id: u128, status: ExecutionStatus },
}

} // verus!
