use bit_set::BitSet;
use std::sync::Arc;
use stepflow_execution::flow::{ErrorAction, Flow, FlowResult, Step, ValueExpr, SkipAction};
use stepflow_execution::item_state::ItemState;

fn assert_bitset_eq(actual: &BitSet, expected: &[usize]) {
    let got: Vec<usize> = actual.iter().collect();
    assert_eq!(got, expected.to_vec(), "Expected {:?}, got {:?}", expected, got);
}

fn success_result() -> FlowResult {
    FlowResult::Success(serde_json::Value::Null)
}

fn step(id: &str, input: ValueExpr) -> Step {
    Step {
        id: id.to_string(),
        component: "/mock/test".to_string(),
        input,
        must_execute: false,
        on_error: ErrorAction::Fail,
    }
}

fn input() -> ValueExpr {
    ValueExpr::Input { path: String::new() }
}

fn create_flow(step_names: &[&str]) -> Flow {
    Flow {
        name: None,
        steps: step_names.iter().map(|n| step(n, input())).collect(),
        output: ValueExpr::Literal(serde_json::Value::Null),
        variable_defaults: vec![],
    }
}

fn create_item_state(flow: Arc<Flow>) -> ItemState {
    ItemState::new(flow, serde_json::Value::Null, Arc::new(Vec::new()))
}

fn create_item_state_with_all_needed(flow: Arc<Flow>) -> ItemState {
    let num_steps = flow.steps.len();
    let mut state = create_item_state(flow);
    for i in 0..num_steps {
        state.mark_needed(i);
    }
    state
}

#[test]
fn item_state_test_ready_steps_basic() {
    let flow = Arc::new(create_flow(&["step1", "step2"]));
    let mut state = create_item_state_with_all_needed(flow);

    assert_bitset_eq(&state.ready_steps(), &[0, 1]);

    state.mark_completed(0, success_result());
    assert_bitset_eq(&state.ready_steps(), &[1]);

    state.mark_completed(1, success_result());
    assert_bitset_eq(&state.ready_steps(), &[]);
}

#[test]
fn item_state_test_waiting_on_mechanism() {
    let flow = Arc::new(create_flow(&["step1", "step2", "step3"]));
    let mut state = create_item_state_with_all_needed(flow);

    // step3 is waiting on step1 and step2
    let mut waiting = BitSet::new();
    waiting.insert(0);
    waiting.insert(1);
    state.set_waiting(2, waiting);

    assert_bitset_eq(&state.ready_steps(), &[0, 1]);

    let newly_unblocked = state.mark_completed(0, success_result());
    assert_bitset_eq(&newly_unblocked, &[]);

    let newly_unblocked = state.mark_completed(1, success_result());
    assert_bitset_eq(&newly_unblocked, &[2]);

    assert_bitset_eq(&state.ready_steps(), &[2]);
}

#[test]
fn test_executing_excluded_from_ready() {
    let flow = Arc::new(create_flow(&["step1", "step2"]));
    let mut state = create_item_state_with_all_needed(flow);

    assert_bitset_eq(&state.ready_steps(), &[0, 1]);

    state.mark_executing(0);
    assert_bitset_eq(&state.ready_steps(), &[1]);

    state.mark_executing(1);
    assert_bitset_eq(&state.ready_steps(), &[]);
}

#[test]
fn test_is_complete() {
    let flow = Arc::new(create_flow(&["step1", "step2"]));
    let mut state = create_item_state(flow);

    assert!(state.is_complete());

    state.mark_needed(0);
    assert!(!state.is_complete());

    state.mark_completed(0, success_result());
    assert!(state.is_complete());

    state.mark_needed(1);
    assert!(!state.is_complete());

    state.mark_completed(1, success_result());
    assert!(state.is_complete());
}

#[test]
fn item_state_test_step_context_implementation() {
    let flow = Arc::new(create_flow(&["step1", "step2"]));
    let mut state = create_item_state(flow);

    assert_eq!(state.step_index_map().step_index("step1"), Some(0));
    assert_eq!(state.step_index_map().step_index("step2"), Some(1));
    assert_eq!(state.step_index_map().step_index("unknown"), None);

    assert!(!state.is_completed(0));

    state.mark_needed(0);
    state.mark_completed(0, FlowResult::Success(serde_json::Value::from(42)));

    assert!(state.is_completed(0));

    let result = state.get_step_result(0);
    assert!(result.is_some());
    match result.unwrap() {
        FlowResult::Success(v) => assert_eq!(v, &serde_json::Value::from(42)),
        _ => panic!("Expected Success"),
    }
}

#[test]
fn test_variables() {
    let flow = create_flow(&["step1"]);
    let variables = vec![("api_key".to_string(), serde_json::Value::from("secret123"))];

    let state = ItemState::new(Arc::new(flow), serde_json::Value::Null, Arc::new(variables));

    let var = state.get_variable(&"api_key".to_string());
    assert!(var.is_some());
    assert_eq!(var.unwrap(), serde_json::Value::from("secret123"));

    assert!(state.get_variable(&"unknown".to_string()).is_none());
}

#[test]
fn test_add_or_update_needed_with_dependencies() {
    let flow = Flow {
        name: None,
        steps: vec![
            step("step1", input()),
            step("step2", ValueExpr::Step { step: "step1".to_string(), path: String::new(), on_skip: SkipAction::Skip }),
        ],
        output: ValueExpr::Step { step: "step2".to_string(), path: String::new(), on_skip: SkipAction::Skip },
        variable_defaults: vec![],
    };

    let mut state = create_item_state(Arc::new(flow));

    // Adding step2 discovers step1 as a dependency
    let newly_needed = state.add_or_update_needed(1);

    assert!(state.is_needed(0));
    assert!(state.is_needed(1));

    assert!(newly_needed.contains(0));
    assert!(newly_needed.contains(1));

    // step1 is ready, step2 waits
    assert_bitset_eq(&state.ready_steps(), &[0]);
}

#[test]
fn flow_default_applies_when_variable_not_given() {
    let mut flow = create_flow(&["step1"]);
    flow.variable_defaults = vec![
        ("region".to_string(), serde_json::Value::from("eu")),
        ("api_key".to_string(), serde_json::Value::from("default-key")),
    ];
    let variables = vec![("api_key".to_string(), serde_json::Value::from("given"))];
    let state = ItemState::new(Arc::new(flow), serde_json::Value::Null, Arc::new(variables));
    assert_eq!(state.get_variable(&"api_key".to_string()), Some(serde_json::Value::from("given")));
    assert_eq!(state.get_variable(&"region".to_string()), Some(serde_json::Value::from("eu")));
    assert!(state.has_variable(&"region".to_string()));
    assert!(!state.has_variable(&"other".to_string()));
}

#[test]
fn completing_again_unblocks_nothing() {
    let flow = Flow {
        name: None,
        steps: vec![
            step("step1", input()),
            step("step2", ValueExpr::Step { step: "step1".to_string(), path: String::new(), on_skip: SkipAction::Skip }),
        ],
        output: ValueExpr::Step { step: "step2".to_string(), path: String::new(), on_skip: SkipAction::Skip },
        variable_defaults: vec![],
    };
    let mut state = create_item_state(Arc::new(flow));
    state.add_or_update_needed(1);
    let first = state.mark_completed(0, success_result());
    assert_bitset_eq(&first, &[1]);
    let second = state.mark_completed(0, success_result());
    assert_bitset_eq(&second, &[]);
    assert_bitset_eq(&state.ready_steps(), &[1]);
}

#[test]
fn attempts_are_counted_per_step() {
    let flow = Arc::new(create_flow(&["a", "b"]));
    let mut state = create_item_state(flow);
    assert_eq!(state.attempt_count(0), 0);
    assert_eq!(state.record_attempt(0), 1);
    assert_eq!(state.record_attempt(0), 2);
    assert_eq!(state.attempt_count(0), 2);
    assert_eq!(state.attempt_count(1), 0);
}

#[test]
fn item_checkpoint_restores_the_same_state() {
    let flow = Arc::new(Flow {
        name: None,
        steps: vec![
            step("step1", input()),
            step("step2", ValueExpr::Step { step: "step1".to_string(), path: String::new(), on_skip: SkipAction::Skip }),
        ],
        output: ValueExpr::Step { step: "step2".to_string(), path: String::new(), on_skip: SkipAction::Skip },
        variable_defaults: vec![],
    });
    let mut state = create_item_state(flow.clone());
    state.add_or_update_needed(1);
    state.record_attempt(0);
    state.mark_completed(0, FlowResult::Success(serde_json::Value::from(1)));
    let cp = state.to_checkpoint();
    assert_eq!(cp.completed, vec![0]);
    assert_eq!(cp.needed, vec![0, 1]);
    assert_eq!(cp.attempts, vec![1, 0]);
    let restored = ItemState::from_checkpoint(&cp, flow, serde_json::Value::Null, Arc::new(Vec::new())).unwrap();
    assert!(restored.is_completed(0));
    assert!(!restored.is_completed(1));
    assert_eq!(restored.attempt_count(0), 1);
    let got: Vec<usize> = restored.ready_steps().iter().collect();
    assert_eq!(got, vec![1]);
}

#[test]
fn waiting_sets_from_index_lists() {
    let set = stepflow_execution::bitset::bitset_from_indices(&vec![3, 1, 3]);
    let members: Vec<usize> = set.iter().collect();
    assert_eq!(members, vec![1, 3]);
    let flow = Arc::new(create_flow(&["step1", "step2", "step3"]));
    let mut state = create_item_state_with_all_needed(flow);
    state.set_waiting(2, stepflow_execution::bitset::bitset_from_indices(&vec![0, 1]));
    assert_bitset_eq(&state.ready_steps(), &[0, 1]);
}
