use std::sync::Arc;
use stepflow_execution::error::ExecutionError;
use stepflow_execution::execution::{FailureKind, RetryDecision, RetryReason, SubmitOutcome};
use stepflow_execution::flow::{ErrorAction, Flow, FlowError, FlowResult, Step, ValueExpr, SkipAction};
use stepflow_execution::flow_executor::{FlowExecutor, FlowExecutorBuilder, SubflowRequest, SubmitResult};
use stepflow_execution::journal::{ExecutionStatus, JournalEvent, StepStatus};
use stepflow_execution::recovery::SubflowMetadata;
use stepflow_execution::replay::Replay;
use stepflow_execution::run_state::RunState;
use stepflow_execution::task::Task;

fn step(id: &str, input: ValueExpr, on_error: ErrorAction) -> Step {
    Step { id: id.to_string(), component: "/mock/test".to_string(), input, must_execute: false, on_error }
}

fn chain_flow(on_error: ErrorAction) -> Arc<Flow> {
    Arc::new(Flow {
        name: None,
        steps: vec![
            step("step1", ValueExpr::Input { path: String::new() }, on_error),
            step("step2", ValueExpr::Step { step: "step1".to_string(), path: String::new(), on_skip: SkipAction::Skip }, ErrorAction::Fail),
        ],
        output: ValueExpr::Step { step: "step2".to_string(), path: String::new(), on_skip: SkipAction::Skip },
        variable_defaults: vec![],
    })
}

fn executor(root: u128, inputs: Vec<serde_json::Value>, on_error: ErrorAction, interval: usize) -> FlowExecutor {
    let run = RunState::new(root, "flow".to_string(), chain_flow(on_error), inputs, vec![]);
    FlowExecutorBuilder::new(run).max_concurrency(4).build(interval)
}

#[test]
fn builder_defaults() {
    let run = RunState::new(1, "flow".to_string(), chain_flow(ErrorAction::Fail), vec![], vec![]);
    let b = FlowExecutorBuilder::new(run);
    assert!(b.validation_required());
    let b = b.skip_validation();
    assert!(!b.validation_required());
    let ex = b.build(0);
    assert_eq!(ex.max_in_flight(), 10);
    assert_eq!(ex.root_run_id(), 1);
    assert!(!ex.cleanup_enabled());
}

#[test]
fn a_chain_runs_to_completion() {
    let root = 10u128;
    let mut ex = executor(root, vec![serde_json::Value::from(1), serde_json::Value::from(2)], ErrorAction::Fail, 0);
    let (ready, events) = ex.initialize_runs();
    assert_eq!(ready, vec![(root, Task::new(0, 0)), (root, Task::new(1, 0))]);
    assert_eq!(events.len(), 2);
    match &events[0] {
        JournalEvent::StepsNeeded { run_id, item_index, step_indices } => {
            assert_eq!((*run_id, *item_index), (root, 0));
            assert_eq!(step_indices, &vec![0, 1]);
        }
        _ => panic!("Expected StepsNeeded"),
    }

    let started = ex.start_tasks(&ready);
    assert_eq!(started.len(), 1);
    assert_eq!(started[0].run_id, root);
    assert_eq!(started[0].tasks.len(), 2);
    assert_eq!(started[0].tasks[1].attempt, 1);

    assert_eq!(ex.finish().err(), Some(ExecutionError::Deadlock));

    let c = ex.complete_task(root, Task::new(0, 0), FlowResult::Success(serde_json::Value::from(5))).ok().unwrap();
    assert_eq!(c.new_tasks, vec![Task::new(0, 1)]);
    assert_eq!(c.unblocked, vec![(0, vec![1])]);
    assert!(c.step_status == StepStatus::Completed);
    assert!(c.finished.is_none());

    ex.complete_task(root, Task::new(0, 1), FlowResult::Success(serde_json::Value::from(6))).ok().unwrap();
    ex.complete_task(root, Task::new(1, 0), FlowResult::Failed(FlowError::new(3, "bad".to_string()))).ok().unwrap();
    ex.complete_task(root, Task::new(1, 1), FlowResult::Skipped).ok().unwrap();

    let (status, outputs) = ex.finish().ok().unwrap();
    assert!(status == ExecutionStatus::Completed);
    assert_eq!(outputs.len(), 2);
    match &outputs[0] {
        Ok(FlowResult::Success(v)) => assert_eq!(v, &serde_json::Value::from(6)),
        _ => panic!("Expected item 0's output"),
    }
    assert!(matches!(outputs[1], Ok(FlowResult::Skipped)));
}

#[test]
fn a_failed_output_fails_the_run() {
    let root = 11u128;
    let mut ex = executor(root, vec![serde_json::Value::from(1)], ErrorAction::Fail, 0);
    ex.initialize_runs();
    ex.complete_task(root, Task::new(0, 0), FlowResult::Success(serde_json::Value::from(1))).ok().unwrap();
    let c = ex.complete_task(root, Task::new(0, 1), FlowResult::Failed(FlowError::new(9, "x".to_string()))).ok().unwrap();
    assert!(c.step_status == StepStatus::Failed);
    let (status, _) = ex.finish().ok().unwrap();
    assert!(status == ExecutionStatus::Failed);
}

#[test]
fn completing_a_task_of_an_unknown_run_is_an_error() {
    let mut ex = executor(12, vec![serde_json::Value::from(1)], ErrorAction::Fail, 0);
    ex.initialize_runs();
    assert_eq!(ex.complete_task(99, Task::new(0, 0), FlowResult::Skipped).err(), Some(ExecutionError::StateError));
}

#[test]
fn retries_follow_the_step_budget() {
    let root = 13u128;
    let mut ex = executor(root, vec![serde_json::Value::from(1)], ErrorAction::Retry { max_retries: 1 }, 0);
    let (ready, _) = ex.initialize_runs();
    ex.start_tasks(&ready);
    let first = ex.maybe_retry(root, Task::new(0, 0), FailureKind::ComponentExecution, 0);
    assert!(first.decision == RetryDecision::Retry { reason: RetryReason::ComponentError, retry_count: 1 });
    assert_eq!(first.attempt, Some(2));
    let second = ex.maybe_retry(root, Task::new(0, 0), FailureKind::ComponentExecution, 0);
    assert!(second.decision == RetryDecision::Complete { exhausted: Some(RetryReason::ComponentError) });
    assert_eq!(second.attempt, None);
    let transport = ex.maybe_retry(root, Task::new(0, 0), FailureKind::Transport, 1);
    assert!(transport.decision == RetryDecision::Retry { reason: RetryReason::TransportError, retry_count: 1 });
    assert_eq!(transport.attempt, Some(3));
}

#[test]
fn checkpoints_are_due_after_the_interval() {
    let root = 14u128;
    let mut ex = executor(root, vec![serde_json::Value::from(1)], ErrorAction::Fail, 2);
    assert!(ex.cleanup_enabled());
    ex.initialize_runs();
    ex.record_entry(1);
    assert!(ex.maybe_checkpoint().ok().unwrap().is_none());
    ex.record_entry(2);
    let cp = ex.maybe_checkpoint().ok().unwrap().expect("a checkpoint is due");
    assert_eq!(cp.sequence, 2);
    assert_eq!(cp.runs.len(), 1);
    assert_eq!(cp.runs[0].run_id, root);
    ex.checkpoint_written();
    assert!(ex.maybe_checkpoint().ok().unwrap().is_none());
}

fn sub_request(run_id: u128, parent: u128, key: u128, inputs: Vec<serde_json::Value>, flow: Arc<Flow>) -> SubflowRequest {
    SubflowRequest {
        run_id,
        parent_run_id: parent,
        item_index: 0,
        step_index: 0,
        subflow_key: key,
        flow_id: "sub".to_string(),
        flow,
        inputs,
        variables: vec![],
    }
}

#[test]
fn a_submitted_subflow_is_created_and_scheduled() {
    let root = 15u128;
    let mut ex = executor(root, vec![serde_json::Value::from(1)], ErrorAction::Fail, 0);
    ex.initialize_runs();
    match ex.handle_submit(sub_request(16, root, 1, vec![serde_json::Value::from(2)], chain_flow(ErrorAction::Fail))) {
        SubmitResult::Created { run_id, initial_tasks, events, outcome, item_results, .. } => {
            assert_eq!(run_id, 16);
            assert_eq!(initial_tasks, vec![Task::new(0, 0)]);
            assert!(outcome == SubmitOutcome::Schedule);
            assert!(item_results.is_empty());
            assert!(matches!(events[0], JournalEvent::SubRunCreated { run_id: 16, parent_run_id: 15, .. }));
            assert!(matches!(events[1], JournalEvent::StepsNeeded { run_id: 16, item_index: 0, .. }));
            assert_eq!(events.len(), 2);
        }
        SubmitResult::Existing(_) => panic!("Expected a new sub-flow"),
    }
    assert!(ex.run_state(16).is_some());
    ex.complete_task(16, Task::new(0, 0), FlowResult::Success(serde_json::Value::from(1))).ok().unwrap();
    let c = ex.complete_task(16, Task::new(0, 1), FlowResult::Success(serde_json::Value::from(2))).ok().unwrap();
    let (status, outputs, _) = c.finished.expect("the sub-flow finished");
    assert!(status == ExecutionStatus::Completed);
    assert_eq!(outputs.len(), 1);
    assert!(ex.run_state(16).is_none());
}

#[test]
fn an_empty_subflow_completes_at_once() {
    let root = 17u128;
    let mut ex = executor(root, vec![serde_json::Value::from(1)], ErrorAction::Fail, 0);
    ex.initialize_runs();
    match ex.handle_submit(sub_request(18, root, 1, vec![], chain_flow(ErrorAction::Fail))) {
        SubmitResult::Created { outcome, events, .. } => {
            assert!(outcome == SubmitOutcome::FinishEmpty);
            assert!(matches!(events.last(), Some(JournalEvent::RunCompleted { run_id: 18, status: ExecutionStatus::Completed })));
        }
        SubmitResult::Existing(_) => panic!("Expected a new sub-flow"),
    }
    assert!(ex.run_state(18).is_none());
}

#[test]
fn a_recovered_subflow_is_reused() {
    let root = 19u128;
    let run = RunState::new(root, "flow".to_string(), chain_flow(ErrorAction::Fail), vec![serde_json::Value::from(1)], vec![]);
    let sub = RunState::new_subflow(20, "sub".to_string(), root, root, chain_flow(ErrorAction::Fail), vec![serde_json::Value::from(2)], vec![]);
    let mut ex = FlowExecutorBuilder::new(run)
        .with_recovered_subflows(vec![sub], vec![((root, 0, 0, 5), 20)], vec![])
        .build(0);
    match ex.handle_submit(sub_request(21, root, 5, vec![], chain_flow(ErrorAction::Fail))) {
        SubmitResult::Existing(id) => assert_eq!(id, 20),
        _ => panic!("Expected the recovered sub-flow"),
    }
    match ex.handle_submit(sub_request(22, root, 5, vec![], chain_flow(ErrorAction::Fail))) {
        SubmitResult::Created { run_id, .. } => assert_eq!(run_id, 22),
        _ => panic!("The recovered sub-flow is taken once"),
    }
}

#[test]
fn replaying_started_tasks_restores_attempt_counts() {
    let root = 31u128;
    let inputs = vec![serde_json::Value::from(1), serde_json::Value::from(2)];
    let mut ex = executor(root, inputs.clone(), ErrorAction::Retry { max_retries: 2 }, 0);
    let (ready, needed) = ex.initialize_runs();
    let first = ex.start_tasks(&ready);
    let again = ex.start_tasks(&vec![(root, Task::new(1, 0))]);
    assert_eq!(again[0].tasks[0].attempt, 2);

    let mut replayed = RunState::new(root, "flow".to_string(), chain_flow(ErrorAction::Retry { max_retries: 2 }), inputs, vec![]);
    for e in &needed {
        replayed.apply_event(e);
    }
    replayed.apply_event(&JournalEvent::TasksStarted { runs: first });
    replayed.apply_event(&JournalEvent::TasksStarted { runs: again });
    let live = ex.run_state(root).unwrap();
    for item in 0..2u32 {
        assert_eq!(
            replayed.items_state().item(item).attempt_count(0),
            live.items_state().item(item).attempt_count(0)
        );
    }
    assert_eq!(replayed.items_state().item(1).attempt_count(0), 2);
}

#[test]
fn test_subflow_hierarchy_correctly_persisted() {
    let root = 40u128;
    let mut ex = executor(root, vec![serde_json::Value::from(1)], ErrorAction::Fail, 0);
    ex.initialize_runs();
    let flow = Arc::new(Flow {
        name: Some("child".to_string()),
        steps: vec![step("step1", ValueExpr::Input { path: String::new() }, ErrorAction::Fail)],
        output: ValueExpr::Step { step: "step1".to_string(), path: String::new(), on_skip: SkipAction::Skip },
        variable_defaults: vec![],
    });
    match ex.handle_submit(sub_request(41, root, 9, vec![serde_json::Value::from(2)], flow)) {
        SubmitResult::Created { run_id, record, .. } => {
            assert_eq!(run_id, 41);
            assert_eq!(record.run_id, 41);
            assert_eq!(record.root_run_id, root, "Subflow should have root_run_id pointing to the top-level run");
            assert_eq!(record.parent_run_id, root, "Subflow should have parent_run_id pointing to the run that submitted it");
            assert_eq!(record.flow_id, "sub");
            assert_eq!(record.inputs, vec![serde_json::Value::from(2)]);
            assert_eq!(record.workflow_name, Some("child".to_string()));
        }
        SubmitResult::Existing(_) => panic!("Expected a new sub-flow"),
    }
    assert!(ex.run_state(41).is_some());
}

#[test]
fn a_replayed_subflow_matches_the_one_created() {
    let root = 50u128;
    let mut ex = executor(root, vec![serde_json::Value::from(1)], ErrorAction::Fail, 0);
    ex.initialize_runs();
    let mut req = sub_request(51, root, 3, vec![serde_json::Value::from(2), serde_json::Value::from(3)], chain_flow(ErrorAction::Fail));
    req.variables = vec![("api_key".to_string(), serde_json::Value::from("secret-value"))];
    let events = match ex.handle_submit(req) {
        SubmitResult::Created { events, .. } => events,
        SubmitResult::Existing(_) => panic!("Expected a new sub-flow"),
    };
    match &events[0] {
        JournalEvent::SubRunCreated { variables, inputs, .. } => {
            assert_eq!(variables, &vec![("api_key".to_string(), serde_json::Value::from("secret-value"))]);
            assert_eq!(inputs.len(), 2);
        }
        _ => panic!("Expected the creation record first"),
    }
    let live = ex.run_state(51).expect("the sub-flow is kept");
    let fresh = RunState::new(root, "flow".to_string(), chain_flow(ErrorAction::Fail), vec![serde_json::Value::from(1)], vec![]);
    let mut replay = Replay::new(fresh);
    let meta = SubflowMetadata { known: vec![51], completed: vec![] };
    replay.apply_event(1, &events[0], Some(chain_flow(ErrorAction::Fail)), &meta).ok().expect("replayed");
    let recovered = replay.finish();
    let rebuilt = &recovered.subflow_runs[0];
    assert_eq!(rebuilt.run_id(), live.run_id());
    assert_eq!(rebuilt.parent_run_id(), live.parent_run_id());
    assert_eq!(rebuilt.root_run_id(), live.root_run_id());
    assert_eq!(rebuilt.variables(), live.variables());
    assert_eq!(rebuilt.inputs(), live.inputs());
}
