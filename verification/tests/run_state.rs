use std::sync::Arc;
use stepflow_execution::flow::{ErrorAction, Flow, FlowResult, Step, ValueExpr, SkipAction};
use stepflow_execution::journal::{ExecutionStatus, JournalEvent};
use stepflow_execution::run_state::RunState;
use stepflow_execution::task::Task;

fn obj(fields: &[(&str, serde_json::Value)]) -> serde_json::Value {
    let mut m = serde_json::Map::new();
    for (k, v) in fields {
        m.insert(k.to_string(), v.clone());
    }
    serde_json::Value::Object(m)
}

fn x(n: i64) -> serde_json::Value {
    obj(&[("x", serde_json::Value::from(n))])
}

fn result(n: i64) -> FlowResult {
    FlowResult::Success(obj(&[("result", serde_json::Value::from(n))]))
}

fn step(id: &str, input: ValueExpr) -> Step {
    Step {
        id: id.to_string(),
        component: "/mock/test".to_string(),
        input,
        must_execute: false,
        on_error: ErrorAction::Fail,
    }
}

fn step_ref(id: &str) -> ValueExpr {
    ValueExpr::Step { step: id.to_string(), path: String::new(), on_skip: SkipAction::Skip }
}

fn create_test_flow() -> Arc<Flow> {
    Arc::new(Flow {
        name: None,
        steps: vec![step("step1", ValueExpr::Input { path: String::new() })],
        output: step_ref("step1"),
        variable_defaults: vec![],
    })
}

fn create_chain_flow() -> Arc<Flow> {
    // step1 -> step2 -> step3
    Arc::new(Flow {
        name: None,
        steps: vec![
            step("step1", ValueExpr::Input { path: String::new() }),
            step("step2", step_ref("step1")),
            step("step3", step_ref("step2")),
        ],
        output: step_ref("step3"),
        variable_defaults: vec![],
    })
}

fn flow_id() -> String {
    "flow-blob".to_string()
}

/// The journal events that record the needed steps of each item.
fn steps_needed_events(run: &RunState) -> Vec<JournalEvent> {
    let mut events = Vec::new();
    for i in 0..run.item_count() {
        events.push(JournalEvent::StepsNeeded {
            run_id: run.run_id(),
            item_index: i,
            step_indices: run.items_state().item(i).needed_step_indices(),
        });
    }
    events
}

#[test]
fn test_run_state_creation() {
    let run_id = 11u128;
    let mut run_state = RunState::new(run_id, flow_id(), create_test_flow(), vec![x(1)], vec![]);

    assert_eq!(run_state.run_id(), run_id);
    assert_eq!(run_state.root_run_id(), run_id);
    assert!(run_state.parent_run_id().is_none());
    assert_eq!(run_state.flow_id(), &flow_id());
    assert_eq!(run_state.item_count(), 1);

    // before initialization, items are trivially complete
    assert!(run_state.is_complete());

    let tasks = run_state.initialize_all();
    assert!(!tasks.is_empty());
    assert!(!run_state.is_complete());
}

#[test]
fn test_subflow_run_state_creation() {
    let run_id = 21u128;
    let root_run_id = 22u128;
    let parent_run_id = 23u128;
    let run_state = RunState::new_subflow(run_id, flow_id(), root_run_id, parent_run_id, create_test_flow(), vec![x(1)], vec![]);

    assert_eq!(run_state.run_id(), run_id);
    assert_eq!(run_state.root_run_id(), root_run_id);
    assert_eq!(run_state.parent_run_id(), Some(parent_run_id));
}

#[test]
fn test_items_state_access() {
    let mut run_state = RunState::new(31, flow_id(), create_test_flow(), vec![x(1), x(2)], vec![]);

    assert_eq!(run_state.items_state().item_count(), 2);

    let tasks = run_state.items_state_mut().initialize_all();
    assert_eq!(tasks.len(), 2);
}

#[test]
fn test_from_recovery_data_no_completed() {
    let run_id = 41u128;
    let mut run_state = RunState::from_recovery_data(run_id, flow_id(), create_chain_flow(), vec![x(1)], vec![], &[], run_id, None);

    assert_eq!(run_state.run_id(), run_id);
    assert_eq!(run_state.flow_id(), &flow_id());
    assert!(run_state.parent_run_id().is_none());

    let ready = run_state.initialize_all();

    assert_eq!(ready.len(), 1);
    assert_eq!(ready[0].step_index, 0);
    assert!(!run_state.is_complete());
}

#[test]
fn test_from_recovery_data_partial_completion() {
    let run_id = 42u128;
    let completed_tasks = vec![(0u32, 0usize, result(1))];

    let mut run_state =
        RunState::from_recovery_data(run_id, flow_id(), create_chain_flow(), vec![x(1)], vec![], &completed_tasks, run_id, None);

    let ready = run_state.initialize_all();

    assert_eq!(ready.len(), 1);
    assert_eq!(ready[0].step_index, 1);
    assert!(!run_state.is_complete());

    let item = run_state.items_state().item(0);
    assert!(item.is_completed(0));
    let result = item.get_step_result(0).unwrap();
    assert!(matches!(result, FlowResult::Success(_)));
}

#[test]
fn test_from_recovery_data_mostly_complete() {
    let run_id = 43u128;
    let completed_tasks = vec![(0u32, 0usize, result(1)), (0u32, 1usize, result(2))];

    let mut run_state =
        RunState::from_recovery_data(run_id, flow_id(), create_chain_flow(), vec![x(1)], vec![], &completed_tasks, run_id, None);

    let ready = run_state.initialize_all();

    assert_eq!(ready.len(), 1);
    assert_eq!(ready[0].step_index, 2);
    assert!(!run_state.is_complete());
}

#[test]
fn test_from_recovery_data_fully_complete() {
    let run_id = 44u128;
    let completed_tasks = vec![(0u32, 0usize, result(1)), (0u32, 1usize, result(2)), (0u32, 2usize, result(3))];

    let mut run_state =
        RunState::from_recovery_data(run_id, flow_id(), create_chain_flow(), vec![x(1)], vec![], &completed_tasks, run_id, None);

    let ready = run_state.initialize_all();

    assert!(ready.is_empty());
    assert!(run_state.is_complete());
}

#[test]
fn test_from_recovery_data_subflow() {
    let run_id = 45u128;
    let root_run_id = 46u128;
    let parent_run_id = 47u128;

    let run_state = RunState::from_recovery_data(
        run_id,
        flow_id(),
        create_test_flow(),
        vec![x(1)],
        vec![],
        &[],
        root_run_id,
        Some(parent_run_id),
    );

    assert_eq!(run_state.run_id(), run_id);
    assert_eq!(run_state.root_run_id(), root_run_id);
    assert_eq!(run_state.parent_run_id(), Some(parent_run_id));
}

#[test]
fn test_from_recovery_data_multiple_items() {
    let run_id = 48u128;
    // item 0 and item 2 completed, item 1 not
    let completed_tasks = vec![(0u32, 0usize, result(1)), (2u32, 0usize, result(3))];

    let mut run_state = RunState::from_recovery_data(
        run_id,
        flow_id(),
        create_test_flow(),
        vec![x(1), x(2), x(3)],
        vec![],
        &completed_tasks,
        run_id,
        None,
    );

    let ready = run_state.initialize_all();

    assert_eq!(ready.len(), 1);
    assert_eq!(ready[0].item_index, 1);
    assert_eq!(ready[0].step_index, 0);
    assert!(!run_state.is_complete());
}

#[test]
fn test_apply_event_run_initialized() {
    let run_id = 51u128;
    let flow = create_chain_flow();

    // execution: initialize and record the needed steps
    let mut exec_state = RunState::new(run_id, flow_id(), flow.clone(), vec![x(1)], vec![]);
    let exec_ready = exec_state.initialize_all();
    let events = steps_needed_events(&exec_state);

    // recovery: apply the recorded needed steps
    let mut recovery_state = RunState::new(run_id, flow_id(), flow.clone(), vec![x(1)], vec![]);
    let mut recovery_ready = Vec::new();
    for e in &events {
        recovery_ready.extend(recovery_state.apply_event(e));
    }

    assert_eq!(exec_ready.len(), recovery_ready.len());
    for (e, r) in exec_ready.iter().zip(recovery_ready.iter()) {
        assert_eq!(e.item_index, r.item_index);
        assert_eq!(e.step_index, r.step_index);
    }

    let exec_needed = exec_state.items_state().item(0).needed_step_indices();
    let recovery_needed = recovery_state.items_state().item(0).needed_step_indices();
    assert_eq!(exec_needed, recovery_needed);
}

#[test]
fn test_apply_event_task_completed() {
    let run_id = 52u128;
    let flow = create_chain_flow();

    let mut exec_state = RunState::new(run_id, flow_id(), flow.clone(), vec![x(1)], vec![]);
    exec_state.initialize_all();

    let mut recovery_state = RunState::new(run_id, flow_id(), flow.clone(), vec![x(1)], vec![]);
    recovery_state.initialize_all();

    let task = Task::new(0, 0);

    let exec_ready = exec_state.items_state_mut().complete_task_and_get_ready(task, result(1));

    let recovery_ready = recovery_state.apply_event(&JournalEvent::TaskCompleted {
        run_id,
        item_index: 0,
        step_index: 0,
        result: result(1),
    });

    assert_eq!(exec_ready.len(), recovery_ready.len());
    for (e, r) in exec_ready.iter().zip(recovery_ready.iter()) {
        assert_eq!(e.step_index, r.step_index);
    }

    assert!(exec_state.items_state().item(0).is_completed(0));
    assert!(recovery_state.items_state().item(0).is_completed(0));

    assert!(exec_state.items_state().item(0).ready_steps().contains(1));
    assert!(recovery_state.items_state().item(0).ready_steps().contains(1));
}

#[test]
fn test_apply_events_full_execution_sequence() {
    let run_id = 53u128;
    let flow = create_chain_flow();

    // ===== execution =====
    let mut exec_state = RunState::new(run_id, flow_id(), flow.clone(), vec![x(1)], vec![]);

    let initial_ready = exec_state.initialize_all();
    let mut events = steps_needed_events(&exec_state);
    assert_eq!(initial_ready.len(), 1);

    let done = |name: &str| FlowResult::Success(obj(&[(name, serde_json::Value::from("done"))]));

    let ready_after_0 = exec_state.items_state_mut().complete_task_and_get_ready(Task::new(0, 0), done("step1"));
    events.push(JournalEvent::TaskCompleted { run_id, item_index: 0, step_index: 0, result: done("step1") });
    assert_eq!(ready_after_0.len(), 1);

    let ready_after_1 = exec_state.items_state_mut().complete_task_and_get_ready(Task::new(0, 1), done("step2"));
    events.push(JournalEvent::TaskCompleted { run_id, item_index: 0, step_index: 1, result: done("step2") });
    assert_eq!(ready_after_1.len(), 1);

    let ready_after_2 = exec_state.items_state_mut().complete_task_and_get_ready(Task::new(0, 2), done("step3"));
    events.push(JournalEvent::TaskCompleted { run_id, item_index: 0, step_index: 2, result: done("step3") });
    assert!(ready_after_2.is_empty());

    assert!(exec_state.is_complete());

    // ===== recovery =====
    let mut recovery_state = RunState::new(run_id, flow_id(), flow.clone(), vec![x(1)], vec![]);
    for e in &events {
        recovery_state.apply_event(e);
    }

    assert!(recovery_state.is_complete());
    assert!(recovery_state.items_state().item(0).ready_steps().is_empty());

    let exec_item = exec_state.items_state().item(0);
    let recovery_item = recovery_state.items_state().item(0);

    for step_idx in 0..3 {
        assert!(exec_item.is_completed(step_idx));
        assert!(recovery_item.is_completed(step_idx));

        let exec_result = exec_item.get_step_result(step_idx).unwrap();
        let recovery_result = recovery_item.get_step_result(step_idx).unwrap();
        match (exec_result, recovery_result) {
            (FlowResult::Success(e), FlowResult::Success(r)) => assert_eq!(e, r),
            _ => panic!("Results should both be Success"),
        }
    }
}

#[test]
fn test_apply_events_partial_recovery() {
    let run_id = 54u128;
    let flow = create_chain_flow();

    // journal of an execution that stopped after step1 completed
    let events = vec![
        JournalEvent::StepsNeeded { run_id, item_index: 0, step_indices: vec![0, 1, 2] },
        JournalEvent::TaskCompleted {
            run_id,
            item_index: 0,
            step_index: 0,
            result: FlowResult::Success(obj(&[("step1", serde_json::Value::from("done"))])),
        },
    ];

    let mut recovery_state = RunState::new(run_id, flow_id(), flow.clone(), vec![x(1)], vec![]);
    for e in &events {
        recovery_state.apply_event(e);
    }

    let schedulable: Vec<usize> = recovery_state.items_state().item(0).ready_steps().iter().collect();
    assert_eq!(schedulable.len(), 1);
    assert_eq!(schedulable[0], 1);

    let item = recovery_state.items_state().item(0);
    assert!(item.is_completed(0));
    assert!(!item.is_completed(1));
    assert!(!item.is_completed(2));

    assert!(!recovery_state.is_complete());
}

#[test]
fn events_of_other_runs_change_nothing() {
    let run_id = 55u128;
    let mut st = RunState::new(run_id, flow_id(), create_chain_flow(), vec![x(1)], vec![]);
    st.initialize_all();
    let ready = st.apply_event(&JournalEvent::TaskCompleted { run_id: 99, item_index: 0, step_index: 0, result: result(1) });
    assert!(ready.is_empty());
    assert!(!st.items_state().item(0).is_completed(0));
    let ready = st.apply_event(&JournalEvent::RunCompleted { run_id, status: ExecutionStatus::Completed });
    assert!(ready.is_empty());
    assert!(!st.is_complete());
}

#[test]
fn accepts_checks_event_bounds() {
    let run_id = 56u128;
    let st = RunState::new(run_id, flow_id(), create_chain_flow(), vec![x(1)], vec![]);
    assert!(st.accepts(&JournalEvent::TaskCompleted { run_id, item_index: 0, step_index: 2, result: result(1) }));
    assert!(!st.accepts(&JournalEvent::TaskCompleted { run_id, item_index: 0, step_index: 3, result: result(1) }));
    assert!(!st.accepts(&JournalEvent::TaskCompleted { run_id, item_index: 1, step_index: 0, result: result(1) }));
    assert!(st.accepts(&JournalEvent::TaskCompleted { run_id: 7, item_index: 9, step_index: 9, result: result(1) }));
    assert!(!st.accepts(&JournalEvent::StepsNeeded { run_id, item_index: 0, step_indices: vec![0, 5] }));
}

#[test]
fn run_checkpoint_round_trip() {
    let run_id = 57u128;
    let flow = create_chain_flow();
    let mut st = RunState::new(run_id, flow_id(), flow.clone(), vec![x(1), x(2)], vec![("k".to_string(), serde_json::Value::from(1))]);
    st.initialize_all();
    st.complete_task(Task::new(1, 0), result(5));
    let cp = st.to_checkpoint();
    assert_eq!(cp.run_id, run_id);
    assert_eq!(cp.items.len(), 2);
    assert_eq!(cp.inputs, vec![x(1), x(2)]);
    let restored = RunState::from_checkpoint(&cp, flow.clone()).unwrap();
    assert_eq!(restored.run_id(), run_id);
    assert!(restored.items_state().item(1).is_completed(0));
    assert!(!restored.items_state().item(0).is_completed(0));
    let got: Vec<usize> = restored.items_state().item(1).ready_steps().iter().collect();
    assert_eq!(got, vec![1]);

    // a checkpoint of another flow does not restore
    let short = Arc::new(Flow { name: None, steps: vec![], output: ValueExpr::Literal(serde_json::Value::Null), variable_defaults: vec![] });
    assert!(RunState::from_checkpoint(&cp, short).is_err());
}
