use std::sync::Arc;
use stepflow_execution::checkpoint::{CheckpointData, CheckpointDeserializeError, CHECKPOINT_VERSION};
use stepflow_execution::flow::{ErrorAction, Flow, FlowResult, Step, ValueExpr, SkipAction};
use stepflow_execution::journal::JournalEvent;
use stepflow_execution::run_state::RunState;

fn obj(fields: &[(&str, serde_json::Value)]) -> serde_json::Value {
    let mut m = serde_json::Map::new();
    for (k, v) in fields {
        m.insert(k.to_string(), v.clone());
    }
    serde_json::Value::Object(m)
}

fn step(id: &str, input: ValueExpr) -> Step {
    Step {
        id: id.to_string(),
        component: "/mock/test".to_string(),
        input,
        must_execute: false,
        on_error: ErrorAction::Fail,
    }
}

fn two_step_flow() -> Arc<Flow> {
    Arc::new(Flow {
        name: None,
        steps: vec![
            step("step1", ValueExpr::Input { path: String::new() }),
            step("step2", ValueExpr::Step { step: "step1".to_string(), path: String::new(), on_skip: SkipAction::Skip }),
        ],
        output: ValueExpr::Step { step: "step2".to_string(), path: String::new(), on_skip: SkipAction::Skip },
        variable_defaults: vec![],
    })
}

fn create_test_run_state(run_id: u128) -> RunState {
    let inputs = vec![obj(&[("x", serde_json::Value::from(1))])];
    let mut state = RunState::new(run_id, "flow-blob".to_string(), two_step_flow(), inputs, vec![]);
    state.initialize_all();
    state
}

fn complete_step(state: &mut RunState, step_index: usize, n: i64) {
    let run_id = state.run_id();
    state.apply_event(&JournalEvent::TaskCompleted {
        run_id,
        item_index: 0,
        step_index,
        result: FlowResult::Success(obj(&[("result", serde_json::Value::from(n))])),
    });
}

#[test]
fn test_checkpoint_roundtrip() {
    let run_state = create_test_run_state(100);
    let run_id = run_state.run_id();
    let runs = vec![run_state];

    let checkpoint = CheckpointData::capture(&runs, &vec![], 42);
    assert_eq!(checkpoint.version, CHECKPOINT_VERSION);
    assert_eq!(checkpoint.sequence, 42);
    assert_eq!(checkpoint.runs.len(), 1);
    assert!(checkpoint.subflow_map.is_empty());

    // the decoded checkpoint is accepted as it is
    let restored = checkpoint.check_version().ok().expect("deserialize should succeed");
    assert_eq!(restored.version, CHECKPOINT_VERSION);
    assert_eq!(restored.sequence, 42);
    assert_eq!(restored.runs.len(), 1);
    assert_eq!(restored.runs[0].run_id, run_id);
}

#[test]
fn test_checkpoint_with_completed_steps() {
    let mut state = create_test_run_state(200);
    complete_step(&mut state, 0, 1);

    let runs = vec![state];
    let checkpoint = CheckpointData::capture(&runs, &vec![], 5);
    let restored = checkpoint.check_version().ok().expect("deserialize");

    let item = &restored.runs[0].items[0];
    assert_eq!(item.completed, vec![0]);
    assert_eq!(item.results.len(), 1);
    assert_eq!(item.results[0].0, 0);
}

#[test]
fn test_checkpoint_with_subflow_mappings() {
    let run_state = create_test_run_state(300);
    let run_id = run_state.run_id();
    let runs = vec![run_state];

    let subflow_key = 301u128;
    let subflow_run_id = 302u128;
    let subflow_map = vec![((run_id, 0u32, 0usize, subflow_key), subflow_run_id)];

    let checkpoint = CheckpointData::capture(&runs, &subflow_map, 10);
    assert_eq!(checkpoint.subflow_map.len(), 1);

    let restored = checkpoint.check_version().ok().expect("deserialize");

    assert_eq!(restored.subflow_map.len(), 1);
    assert_eq!(restored.subflow_map[0].parent_run_id, run_id);
    assert_eq!(restored.subflow_map[0].subflow_run_id, subflow_run_id);
    assert_eq!(restored.subflow_map[0].subflow_key, subflow_key);
}

#[test]
fn test_checkpoint_restore_produces_equivalent_state() {
    let flow = two_step_flow();
    let run_id = 400u128;
    let inputs = vec![obj(&[("x", serde_json::Value::from(1))])];
    let mut state = RunState::new(run_id, "flow-blob".to_string(), flow.clone(), inputs, vec![]);
    state.initialize_all();
    complete_step(&mut state, 0, 1);

    let checkpoint = state.to_checkpoint();
    let checkpoint_data = CheckpointData { version: 1, sequence: 5, runs: vec![checkpoint], subflow_map: vec![] };
    let restored_data = checkpoint_data.check_version().ok().expect("deserialize");

    let restored = RunState::from_checkpoint(&restored_data.runs[0], flow).expect("checkpoint restore");

    assert_eq!(restored.run_id(), state.run_id());
    assert_eq!(restored.is_complete(), state.is_complete());

    let live_item = state.items_state().item(0);
    let restored_item = restored.items_state().item(0);
    assert!(live_item.is_completed(0));
    assert!(restored_item.is_completed(0));
    assert!(live_item.get_step_result(0).is_some());
    assert!(restored_item.get_step_result(0).is_some());

    let live_schedulable: Vec<usize> = live_item.ready_steps().iter().collect();
    let restored_schedulable: Vec<usize> = restored_item.ready_steps().iter().collect();
    assert_eq!(live_schedulable, restored_schedulable);

    let mut live = state;
    complete_step(&mut live, 1, 2);
    let mut restored = restored;
    complete_step(&mut restored, 1, 2);

    assert_eq!(live.is_complete(), restored.is_complete());
}

#[test]
fn test_empty_checkpoint() {
    let checkpoint = CheckpointData { version: CHECKPOINT_VERSION, sequence: 0, runs: Vec::new(), subflow_map: Vec::new() };

    let restored = checkpoint.check_version().ok().expect("deserialize");

    assert_eq!(restored.version, CHECKPOINT_VERSION);
    assert!(restored.runs.is_empty());
    assert!(restored.subflow_map.is_empty());
}

#[test]
fn test_deserialize_version_mismatch() {
    let checkpoint = CheckpointData { version: 999, sequence: 0, runs: Vec::new(), subflow_map: Vec::new() };

    match checkpoint.check_version() {
        Err(CheckpointDeserializeError::VersionMismatch { expected: 1, actual: 999 }) => {}
        _ => panic!("Expected VersionMismatch error"),
    }
}

#[test]
fn test_capture_deterministic_ordering() {
    let runs: Vec<RunState> = [505u128, 501, 504, 502, 503].iter().map(|id| create_test_run_state(*id)).collect();

    let cp1 = CheckpointData::capture(&runs, &vec![], 1);
    let cp2 = CheckpointData::capture(&runs, &vec![], 1);

    let ids1: Vec<u128> = cp1.runs.iter().map(|r| r.run_id).collect();
    let ids2: Vec<u128> = cp2.runs.iter().map(|r| r.run_id).collect();
    assert_eq!(ids1, ids2, "Capture should produce deterministic run ordering");

    for w in ids1.windows(2) {
        assert!(w[0] < w[1], "Runs should be sorted by run_id");
    }
}

#[test]
fn capture_order_does_not_depend_on_input_order() {
    let a: Vec<RunState> = [3u128, 1, 2].iter().map(|id| create_test_run_state(*id)).collect();
    let b: Vec<RunState> = [2u128, 3, 1].iter().map(|id| create_test_run_state(*id)).collect();
    let ids_a: Vec<u128> = CheckpointData::capture(&a, &vec![], 0).runs.iter().map(|r| r.run_id).collect();
    let ids_b: Vec<u128> = CheckpointData::capture(&b, &vec![], 0).runs.iter().map(|r| r.run_id).collect();
    assert_eq!(ids_a, vec![1, 2, 3]);
    assert_eq!(ids_a, ids_b);
}

#[test]
fn find_run_locates_a_captured_run() {
    let runs: Vec<RunState> = [7u128, 5].iter().map(|id| create_test_run_state(*id)).collect();
    let cp = CheckpointData::capture(&runs, &vec![], 0);
    assert_eq!(cp.find_run(5), Some(0));
    assert_eq!(cp.find_run(7), Some(1));
    assert_eq!(cp.find_run(6), None);
}
