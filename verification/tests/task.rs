use std::collections::HashSet;

use stepflow_execution::flow::FlowResult;
use stepflow_execution::task::{StepRunResult, Task, TaskResult};

#[test]
fn test_task_creation() {
    let task = Task::new(5, 10);
    assert_eq!(task.item_index, 5);
    assert_eq!(task.step_index, 10);
}

#[test]
fn test_task_equality() {
    let task1 = Task::new(1, 2);
    let task2 = Task::new(1, 2);
    let task3 = Task::new(1, 3);

    assert_eq!(task1, task2);
    assert_ne!(task1, task3);
}

#[test]
fn test_task_hash() {
    let mut set = HashSet::new();
    set.insert(Task::new(1, 2));
    set.insert(Task::new(1, 2)); // duplicate
    set.insert(Task::new(3, 4));

    assert_eq!(set.len(), 2);
}

#[test]
fn test_task_result() {
    let task = Task::new(0, 1);
    let result = FlowResult::Success(serde_json::Value::from(42));
    let step_result = StepRunResult::new(1, "test_step".to_string(), "/mock/test".to_string(), result);
    let task_result = TaskResult::new(task, step_result);

    assert_eq!(task_result.item_index, 0);
    assert_eq!(task_result.step_index(), 1);
    assert_eq!(task_result.step.step_id(), "test_step");
    assert!(task_result.is_success());
    match task_result.result() {
        FlowResult::Success(v) => assert_eq!(v, &serde_json::Value::from(42)),
        _ => panic!("Expected Success"),
    }
}

#[test]
fn task_result_round_trips_its_task() {
    let task = Task::new(3, 7);
    let failed = FlowResult::Failed(stepflow_execution::flow::FlowError::new(500, "boom".to_string()));
    let step_result = StepRunResult::new(7, "s".to_string(), "/c".to_string(), failed);
    let task_result = TaskResult::new(task, step_result);
    assert_eq!(task_result.task(), task);
    assert!(task_result.is_failed());
    assert!(!task_result.is_success());
    assert_eq!(task_result.step.component(), "/c");
}
