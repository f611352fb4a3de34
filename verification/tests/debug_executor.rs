use std::sync::Arc;
use stepflow_execution::debug_executor::DebugExecutor;
use stepflow_execution::error::ExecutionError;
use stepflow_execution::flow::{ErrorAction, Flow, FlowError, FlowResult, Step, ValueExpr, SkipAction};
use stepflow_execution::journal::StepStatus;

fn step(id: &str, input: ValueExpr, must_execute: bool) -> Step {
    Step { id: id.to_string(), component: format!("/mock/{id}"), input, must_execute, on_error: ErrorAction::Fail }
}

fn step_ref(id: &str) -> ValueExpr {
    ValueExpr::Step { step: id.to_string(), path: String::new(), on_skip: SkipAction::Skip }
}

fn flow() -> Arc<Flow> {
    Arc::new(Flow {
        name: None,
        steps: vec![
            step("step1", ValueExpr::Input { path: String::new() }, false),
            step("step2", step_ref("step1"), false),
            step("audit", ValueExpr::Input { path: String::new() }, true),
        ],
        output: step_ref("step2"),
        variable_defaults: vec![],
    })
}

fn session() -> DebugExecutor {
    DebugExecutor::new(42, flow(), serde_json::Value::from(1), vec![])
}

fn ok(v: i64) -> FlowResult {
    FlowResult::Success(serde_json::Value::from(v))
}

#[test]
fn queueing_a_step_queues_its_dependencies() {
    let mut d = session();
    assert_eq!(d.run_id(), 42);
    let queued = d.queue_step("step2").ok().unwrap();
    assert_eq!(queued, vec!["step1".to_string(), "step2".to_string()]);
    assert_eq!(d.ready_steps(), vec![0]);
    // queueing again adds nothing
    assert!(d.queue_step("step2").ok().unwrap().is_empty());
    assert_eq!(d.queue_step("missing").err(), Some(ExecutionError::StepNotFound));

    let listed: Vec<(usize, String, StepStatus)> =
        d.get_queued_steps().into_iter().map(|e| (e.step_index, e.step_id, e.status)).collect();
    assert_eq!(listed, vec![(0, "step1".to_string(), StepStatus::Runnable), (1, "step2".to_string(), StepStatus::Blocked)]);
}

#[test]
fn must_execute_steps_are_queued() {
    let mut d = session();
    assert_eq!(d.queue_must_execute(), vec!["audit".to_string()]);
    assert_eq!(d.ready_steps(), vec![2]);
}

#[test]
fn completing_steps_unblocks_and_records_results() {
    let mut d = session();
    d.queue_step("step2").ok().unwrap();
    assert_eq!(d.complete_step(0, ok(7)), vec![1]);
    assert_eq!(d.complete_step(0, ok(8)), Vec::<usize>::new());
    assert!(d.is_step_completed(0));
    match d.get_step_output("step1") {
        Ok(FlowResult::Success(v)) => assert_eq!(v, serde_json::Value::from(7)),
        _ => panic!("Expected step1's result"),
    }
    assert_eq!(d.get_step_output("step2").err(), Some(ExecutionError::StepNotCompleted));
    assert_eq!(d.get_step_output("nope").err(), Some(ExecutionError::StepNotFound));
    assert!(d.get_step_result("step2").is_none());
}

#[test]
fn evaluating_a_step() {
    let mut d = session();
    assert!(matches!(d.begin_eval_step("step2"), Ok(None)));
    assert!(matches!(d.eval_step_progress(1), Ok(None)));
    d.complete_step(0, ok(1));
    d.complete_step(1, ok(2));
    match d.eval_step_progress(1) {
        Ok(Some(FlowResult::Success(v))) => assert_eq!(v, serde_json::Value::from(2)),
        _ => panic!("Expected the result"),
    }
    // a completed step gives its result at once
    assert!(matches!(d.begin_eval_step("step1"), Ok(Some(FlowResult::Success(_)))));
    assert_eq!(d.begin_eval_step("other").err(), Some(ExecutionError::StepNotFound));
}

#[test]
fn evaluating_a_step_that_cannot_progress_is_a_deadlock() {
    let d = session();
    // nothing queued, nothing ready, step not completed
    assert_eq!(d.eval_step_progress(1).err(), Some(ExecutionError::Deadlock));
}

#[test]
fn evaluating_the_output() {
    let mut d = session();
    d.begin_eval_output();
    assert!(matches!(d.eval_output_progress(), Ok(None)));
    d.complete_step(0, ok(1));
    d.complete_step(2, ok(0));
    assert!(matches!(d.eval_output_progress(), Ok(None)));
    d.complete_step(1, ok(9));
    match d.eval_output_progress() {
        Ok(Some(FlowResult::Success(v))) => assert_eq!(v, serde_json::Value::from(9)),
        _ => panic!("Expected the output"),
    }
}

#[test]
fn a_failed_must_execute_step_fails_the_output() {
    let mut d = session();
    d.begin_eval_output();
    d.complete_step(0, ok(1));
    d.complete_step(1, ok(2));
    d.complete_step(2, FlowResult::Failed(FlowError::new(4, "audit failed".to_string())));
    match d.eval_output_progress() {
        Ok(Some(FlowResult::Failed(e))) => assert_eq!(e.code, 4),
        _ => panic!("Expected the must-execute failure"),
    }
}

#[test]
fn inspecting_and_listing_steps() {
    let mut d = session();
    d.queue_step("step1").ok().unwrap();
    let ins = d.inspect_step("step1").ok().unwrap();
    assert_eq!(ins.metadata.step_index, 0);
    assert_eq!(ins.metadata.component, "/mock/step1");
    assert!(ins.state == StepStatus::Runnable);
    assert!(matches!(&ins.input, ValueExpr::Input { path } if path.is_empty()));
    let ins2 = d.inspect_step("step2").ok().unwrap();
    assert!(matches!(&ins2.input, ValueExpr::Step { step, .. } if step == "step1"));
    assert!(matches!(ins2.on_error, ErrorAction::Fail));
    assert_eq!(d.inspect_step("zzz").err().map(|e| e == ExecutionError::StepNotFound), Some(true));

    let all: Vec<(usize, StepStatus)> =
        d.list_all_steps(&vec![(2, StepStatus::Completed)]).into_iter().map(|e| (e.step_index, e.status)).collect();
    assert_eq!(all, vec![(0, StepStatus::Runnable), (1, StepStatus::Blocked), (2, StepStatus::Completed)]);
}

#[test]
fn restoring_a_session() {
    let mut d = session();
    let fixes = d.restore(&vec![(0, ok(3))], &vec![(1, StepStatus::Blocked)], &Some(vec!["step2".to_string()]));
    assert!(d.is_step_completed(0));
    assert_eq!(d.ready_steps(), vec![1]);
    // statuses are checked before the queue is restored: nothing was needed
    assert!(fixes.is_empty());

    let completed = d.get_completed_steps(&vec![(0, "step1".to_string(), ok(3))]);
    assert_eq!(completed.len(), 1);
    assert_eq!(completed[0].step_id(), "step1");
    let results = d.results_for_steps(&vec![0, 1]);
    assert_eq!(results.len(), 1);
    assert_eq!(results[0].step_index(), 0);
}

#[test]
fn restoring_corrects_stale_statuses() {
    let mut d = session();
    d.queue_step("step2").ok().unwrap();
    // step2 becomes ready once step1's result is restored; the store still
    // records it as blocked, and records nothing for step1's dependents
    let fixes = d.restore(&vec![(0, ok(3))], &vec![(1, StepStatus::Blocked)], &None);
    assert_eq!(fixes, vec![1]);
    let unchanged = d.restore(&vec![], &vec![(1, StepStatus::Runnable)], &None);
    assert!(unchanged.is_empty());
}
