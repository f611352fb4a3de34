use stepflow_execution::execution::{
    classify_failure, decide_retry, final_status, group_attempts, group_unblocked, max_concurrency_for, max_to_start,
    needs_steps_needed, step_status_for, submit_outcome, take_recovered_subflow, FailureKind, RetryDecision,
    RetryReason, RetryState, SubmitOutcome,
};
use stepflow_execution::flow::{ErrorAction, FlowError, FlowResult};
use stepflow_execution::journal::{ExecutionStatus, StepStatus};
use stepflow_execution::step_runner::{apply_error_action, runnable_input};
use stepflow_execution::task::Task;

fn failed(code: i64) -> FlowResult {
    FlowResult::Failed(FlowError::new(code, "error".to_string()))
}

#[test]
fn max_to_start_leaves_at_least_one_slot() {
    assert_eq!(max_to_start(10, 3, None), 7);
    assert_eq!(max_to_start(10, 10, None), 1);
    assert_eq!(max_to_start(2, 5, None), 1);
    assert_eq!(max_to_start(10, 3, Some(4)), 4);
    assert_eq!(max_to_start(10, 3, Some(9)), 7);
    assert_eq!(max_to_start(10, 3, Some(0)), 0);
}

#[test]
fn concurrency_defaults_to_item_count() {
    assert_eq!(max_concurrency_for(Some(3), 10), 3);
    assert_eq!(max_concurrency_for(None, 10), 10);
}

#[test]
fn step_status_and_final_status() {
    assert!(step_status_for(&failed(1)) == StepStatus::Failed);
    assert!(step_status_for(&FlowResult::Skipped) == StepStatus::Completed);
    assert!(final_status(&vec![FlowResult::Skipped, failed(2)]) == ExecutionStatus::Failed);
    assert!(final_status(&vec![FlowResult::Success(serde_json::Value::Null)]) == ExecutionStatus::Completed);
    assert!(final_status(&vec![]) == ExecutionStatus::Completed);
}

#[test]
fn failures_are_classified_by_code() {
    assert!(classify_failure(&failed(500), true) == FailureKind::Transport);
    assert!(classify_failure(&failed(-32100), false) == FailureKind::ComponentExecution);
    assert!(classify_failure(&failed(-32199), false) == FailureKind::ComponentExecution);
    assert!(classify_failure(&failed(-32200), false) == FailureKind::Other);
    assert!(classify_failure(&failed(-32099), false) == FailureKind::Other);
    assert!(classify_failure(&FlowResult::Skipped, false) == FailureKind::Other);
}

#[test]
fn transport_retries_stop_at_the_budget() {
    let mut st = RetryState::new();
    assert!(
        decide_retry(FailureKind::Transport, &mut st, 2, None)
            == RetryDecision::Retry { reason: RetryReason::TransportError, retry_count: 1 }
    );
    assert!(
        decide_retry(FailureKind::Transport, &mut st, 2, None)
            == RetryDecision::Retry { reason: RetryReason::TransportError, retry_count: 2 }
    );
    assert!(
        decide_retry(FailureKind::Transport, &mut st, 2, None)
            == RetryDecision::Complete { exhausted: Some(RetryReason::TransportError) }
    );
    assert_eq!(st.transport_retries, 2);
    assert_eq!(st.component_retries, 0);
}

#[test]
fn component_errors_use_the_step_budget() {
    let mut st = RetryState::new();
    assert!(
        decide_retry(FailureKind::ComponentExecution, &mut st, 5, Some(1))
            == RetryDecision::Retry { reason: RetryReason::ComponentError, retry_count: 1 }
    );
    assert!(
        decide_retry(FailureKind::ComponentExecution, &mut st, 5, Some(1))
            == RetryDecision::Complete { exhausted: Some(RetryReason::ComponentError) }
    );
    let mut fresh = RetryState::new();
    assert!(decide_retry(FailureKind::ComponentExecution, &mut fresh, 5, None) == RetryDecision::Complete { exhausted: None });
    assert!(decide_retry(FailureKind::Other, &mut fresh, 5, Some(3)) == RetryDecision::Complete { exhausted: Some(RetryReason::ComponentError) });
    assert!(decide_retry(FailureKind::Transport, &mut fresh, 0, None) == RetryDecision::Complete { exhausted: None });
}

#[test]
fn submit_outcomes() {
    assert!(submit_outcome(true, false, 2) == SubmitOutcome::Schedule);
    assert!(submit_outcome(false, true, 0) == SubmitOutcome::FinishEmpty);
    assert!(submit_outcome(false, true, 3) == SubmitOutcome::FinishWithoutSteps);
    assert!(submit_outcome(false, false, 3) == SubmitOutcome::Wait);
}

#[test]
fn recovered_runs_owe_records_only_when_listed() {
    assert!(needs_steps_needed(1, &vec![], &vec![]));
    assert!(!needs_steps_needed(1, &vec![1], &vec![]));
    assert!(needs_steps_needed(1, &vec![1], &vec![1]));
}

#[test]
fn recovered_subflow_is_taken_once() {
    let key = (1u128, 0u32, 2usize, 9u128);
    let mut map = vec![(key, 100u128), ((2, 0, 0, 9), 200)];
    assert_eq!(take_recovered_subflow(&mut map, key), Some(100));
    assert_eq!(take_recovered_subflow(&mut map, key), None);
    assert_eq!(map, vec![((2, 0, 0, 9), 200)]);
}

#[test]
fn attempts_are_grouped_by_run() {
    let entries = vec![(7u128, Task::new(0, 1), 1u32), (8u128, Task::new(1, 0), 2u32), (7u128, Task::new(2, 3), 1u32)];
    let groups = group_attempts(&entries);
    assert_eq!(groups.len(), 2);
    assert_eq!(groups[0].run_id, 7);
    assert_eq!(groups[0].tasks.len(), 2);
    assert_eq!((groups[0].tasks[1].item_index, groups[0].tasks[1].step_index, groups[0].tasks[1].attempt), (2, 3, 1));
    assert_eq!(groups[1].run_id, 8);
    assert_eq!(groups[1].tasks[0].attempt, 2);
}

#[test]
fn unblocked_tasks_are_grouped_by_item() {
    let groups = group_unblocked(&vec![Task::new(1, 2), Task::new(0, 1), Task::new(1, 4)]);
    assert_eq!(groups, vec![(1, vec![2, 4]), (0, vec![1])]);
}

#[test]
fn unresolved_input_skips_the_component() {
    match runnable_input(FlowResult::Success(serde_json::Value::from(3))) {
        Ok(v) => assert_eq!(v, serde_json::Value::from(3)),
        Err(_) => panic!("Expected a value"),
    }
    assert!(matches!(runnable_input(FlowResult::Skipped), Err(FlowResult::Skipped)));
}

#[test]
fn error_actions() {
    let with_default = ErrorAction::UseDefault { default_value: Some(serde_json::Value::from("fallback")) };
    match apply_error_action(failed(1), &with_default) {
        FlowResult::Success(v) => assert_eq!(v, serde_json::Value::from("fallback")),
        _ => panic!("Expected the default"),
    }
    match apply_error_action(failed(1), &ErrorAction::UseDefault { default_value: None }) {
        FlowResult::Success(v) => assert!(v.is_null()),
        _ => panic!("Expected null"),
    }
    assert!(apply_error_action(failed(1), &ErrorAction::Fail).is_failed());
    assert!(apply_error_action(failed(1), &ErrorAction::Retry { max_retries: 3 }).is_failed());
    assert!(apply_error_action(FlowResult::Skipped, &with_default).is_success() == false);
    assert_eq!(ErrorAction::Retry { max_retries: 3 }.max_retries(), Some(3));
    assert_eq!(ErrorAction::Fail.max_retries(), None);
}
