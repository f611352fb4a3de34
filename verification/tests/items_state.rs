use std::sync::Arc;
use stepflow_execution::error::ExecutionError;
use stepflow_execution::flow::{ErrorAction, Flow, FlowError, FlowResult, Step, ValueExpr, SkipAction};
use stepflow_execution::items_state::ItemsState;
use stepflow_execution::task::Task;

fn success_result() -> FlowResult {
    FlowResult::Success(serde_json::Value::Null)
}

fn obj(fields: &[(&str, serde_json::Value)]) -> serde_json::Value {
    let mut m = serde_json::Map::new();
    for (k, v) in fields {
        m.insert(k.to_string(), v.clone());
    }
    serde_json::Value::Object(m)
}

fn step(id: &str, input: ValueExpr) -> Step {
    Step {
        id: id.to_string(),
        component: "/mock/test".to_string(),
        input,
        must_execute: false,
        on_error: ErrorAction::Fail,
    }
}

fn input() -> ValueExpr {
    ValueExpr::Input { path: String::new() }
}

fn step_ref(id: &str) -> ValueExpr {
    ValueExpr::Step { step: id.to_string(), path: String::new(), on_skip: SkipAction::Skip }
}

fn create_simple_flow(step_names: &[&str]) -> Flow {
    Flow {
        name: None,
        steps: step_names.iter().map(|n| step(n, input())).collect(),
        output: ValueExpr::Literal(serde_json::Value::Null),
        variable_defaults: vec![],
    }
}

fn two_step_flow() -> Arc<Flow> {
    Arc::new(Flow {
        name: None,
        steps: vec![step("step1", input()), step("step2", step_ref("step1"))],
        output: step_ref("step2"),
        variable_defaults: vec![],
    })
}

#[test]
fn test_single_item() {
    let mut state = ItemsState::single(0, two_step_flow(), obj(&[]), vec![]);

    assert_eq!(state.item_count(), 1);
    // before initializing, the state is trivially complete
    assert_eq!(state.incomplete(), 0);

    state.initialize_item(0);
    assert_eq!(state.incomplete(), 1);
}

#[test]
fn test_batch_items() {
    let flow = Arc::new(create_simple_flow(&["step1"]));
    let inputs = vec![
        obj(&[("x", serde_json::Value::from(1))]),
        obj(&[("x", serde_json::Value::from(2))]),
        obj(&[("x", serde_json::Value::from(3))]),
    ];
    let state = ItemsState::batch(0, flow, inputs, vec![]);

    assert_eq!(state.item_count(), 3);
}

#[test]
fn test_add_item_dynamically() {
    let mut state = ItemsState::new(0, vec![]);
    assert_eq!(state.item_count(), 0);

    let flow1 = Arc::new(create_simple_flow(&["step1"]));
    let idx1 = state.add_item(flow1.clone(), serde_json::Value::from(1));
    assert_eq!(idx1, 0);
    assert_eq!(state.item_count(), 1);

    let flow2 = Arc::new(create_simple_flow(&["a", "b", "c"]));
    let idx2 = state.add_item(flow2, serde_json::Value::from(2));
    assert_eq!(idx2, 1);
    assert_eq!(state.item_count(), 2);

    // items can have different flows
    assert_eq!(state.item(0).num_steps(), 1);
    assert_eq!(state.item(1).num_steps(), 3);
}

#[test]
fn test_initialize_all_returns_ready_tasks() {
    let mut state = ItemsState::batch(
        0,
        two_step_flow(),
        vec![serde_json::Value::from(1), serde_json::Value::from(2)],
        vec![],
    );

    let ready = state.initialize_all();

    assert_eq!(ready.len(), 2);
    assert!(ready.contains(&Task::new(0, 0)));
    assert!(ready.contains(&Task::new(1, 0)));
}

#[test]
fn test_complete_task() {
    let mut state = ItemsState::single(0, two_step_flow(), obj(&[]), vec![]);

    let ready = state.initialize_item(0);
    assert_eq!(ready.len(), 1);
    assert_eq!(ready[0], Task::new(0, 0));

    state.mark_executing(Task::new(0, 0));
    let newly_ready = state.complete_task_and_get_ready(Task::new(0, 0), success_result());

    assert_eq!(newly_ready.len(), 1);
    assert_eq!(newly_ready[0], Task::new(0, 1));
}

#[test]
fn test_incomplete_count() {
    let flow = Arc::new(Flow {
        name: None,
        steps: vec![step("step1", input())],
        output: step_ref("step1"),
        variable_defaults: vec![],
    });

    let mut state = ItemsState::batch(0, flow, vec![serde_json::Value::from(1), serde_json::Value::from(2)], vec![]);

    assert_eq!(state.incomplete(), 0);

    state.initialize_item(0);
    assert_eq!(state.incomplete(), 1);

    state.complete_task(Task::new(0, 0), success_result());
    assert_eq!(state.incomplete(), 0);

    state.initialize_item(1);
    assert_eq!(state.incomplete(), 1);

    state.complete_task(Task::new(1, 0), success_result());
    assert_eq!(state.incomplete(), 0);
}

#[test]
fn test_shared_variables() {
    let variables = vec![("api_key".to_string(), serde_json::Value::from("secret"))];

    let flow = Arc::new(create_simple_flow(&["step1"]));
    let state = ItemsState::batch(0, flow, vec![serde_json::Value::from(1), serde_json::Value::from(2)], variables);

    assert_eq!(state.item(0).get_variable(&"api_key".to_string()).unwrap(), serde_json::Value::from("secret"));
    assert_eq!(state.item(1).get_variable(&"api_key".to_string()).unwrap(), serde_json::Value::from("secret"));
}

#[test]
fn test_initialize_item() {
    let mut state = ItemsState::single(0, two_step_flow(), obj(&[]), vec![]);

    let ready_tasks = state.initialize_item(0);

    assert_eq!(ready_tasks.len(), 1);
    assert_eq!(ready_tasks[0], Task::new(0, 0));

    let item = state.item(0);
    assert!(item.is_needed(0));
    assert!(item.is_needed(1));
}

#[test]
fn test_get_item_result_evaluates_output_expression() {
    // the output addresses field `result` of step1's result
    let flow = Arc::new(Flow {
        name: None,
        steps: vec![step("step1", input())],
        output: ValueExpr::Step { step: "step1".to_string(), path: "$.result".to_string(), on_skip: SkipAction::Skip },
        variable_defaults: vec![],
    });

    let mut state = ItemsState::single(0, flow, obj(&[("input", serde_json::Value::from("data"))]), vec![]);

    state.initialize_item(0);

    assert!(state.get_item_result(0).is_none());

    state.complete_task(
        Task::new(0, 0),
        FlowResult::Success(obj(&[
            ("result", serde_json::Value::from("hello world")),
            ("extra", serde_json::Value::from("ignored")),
        ])),
    );

    let result = state.get_item_result(0).expect("Should be complete").unwrap();
    match result {
        FlowResult::Success(value) => {
            assert_eq!(value, serde_json::Value::from("hello world"));
        }
        _ => panic!("Expected success"),
    }
}

#[test]
fn test_get_item_result_with_input_expression() {
    let mut must = step("step1", input());
    must.must_execute = true;
    let flow = Arc::new(Flow {
        name: None,
        steps: vec![must],
        output: ValueExpr::Input { path: "$.message".to_string() },
        variable_defaults: vec![],
    });

    let mut state = ItemsState::single(0, flow, obj(&[("message", serde_json::Value::from("hello from input"))]), vec![]);

    state.initialize_item(0);

    state.complete_task(Task::new(0, 0), FlowResult::Success(serde_json::Value::Null));

    let result = state.get_item_result(0).expect("Should be complete").unwrap();
    match result {
        FlowResult::Success(value) => {
            assert_eq!(value, serde_json::Value::from("hello from input"));
        }
        _ => panic!("Expected success"),
    }
}

#[test]
fn output_path_missing_is_an_error() {
    let flow = Arc::new(Flow {
        name: None,
        steps: vec![step("step1", input())],
        output: ValueExpr::Step { step: "step1".to_string(), path: "missing".to_string(), on_skip: SkipAction::Skip },
        variable_defaults: vec![],
    });
    let mut state = ItemsState::single(0, flow, obj(&[]), vec![]);
    state.initialize_item(0);
    state.complete_task(Task::new(0, 0), FlowResult::Success(obj(&[("result", serde_json::Value::from(1))])));
    assert_eq!(state.get_item_result(0).unwrap().err(), Some(ExecutionError::UndefinedField));
}

#[test]
fn failed_step_result_passes_through_path() {
    let flow = Arc::new(Flow {
        name: None,
        steps: vec![step("step1", input())],
        output: ValueExpr::Step { step: "step1".to_string(), path: "$.result".to_string(), on_skip: SkipAction::Skip },
        variable_defaults: vec![],
    });
    let mut state = ItemsState::single(0, flow, obj(&[]), vec![]);
    state.initialize_item(0);
    state.complete_task(Task::new(0, 0), FlowResult::Failed(FlowError::new(500, "bad".to_string())));
    match state.get_item_result(0).unwrap().unwrap() {
        FlowResult::Failed(e) => {
            assert_eq!(e.code, 500);
            assert_eq!(e.message, "bad");
        }
        _ => panic!("Expected the failure"),
    }
}

#[test]
fn object_output_collects_fields_in_order() {
    let flow = Arc::new(Flow {
        name: None,
        steps: vec![step("a", input()), step("b", input())],
        output: ValueExpr::Object(vec![
            ("first".to_string(), step_ref("a")),
            ("second".to_string(), step_ref("b")),
            ("constant".to_string(), ValueExpr::Literal(serde_json::Value::from(7))),
        ]),
        variable_defaults: vec![],
    });
    let mut state = ItemsState::single(0, flow, obj(&[]), vec![]);
    let ready = state.initialize_item(0);
    assert_eq!(ready, vec![Task::new(0, 0), Task::new(0, 1)]);
    state.complete_task(Task::new(0, 0), FlowResult::Success(serde_json::Value::from(1)));
    assert!(state.get_item_result(0).is_none());
    state.complete_task(Task::new(0, 1), FlowResult::Success(serde_json::Value::from(2)));
    let value = match state.get_item_result(0).unwrap().unwrap() {
        FlowResult::Success(v) => v,
        _ => panic!("Expected success"),
    };
    assert_eq!(
        value,
        obj(&[
            ("first", serde_json::Value::from(1)),
            ("second", serde_json::Value::from(2)),
            ("constant", serde_json::Value::from(7)),
        ])
    );
}

#[test]
fn skipped_field_makes_object_skipped() {
    let flow = Arc::new(Flow {
        name: None,
        steps: vec![step("a", input())],
        output: ValueExpr::Object(vec![("first".to_string(), step_ref("a"))]),
        variable_defaults: vec![],
    });
    let mut state = ItemsState::single(0, flow, obj(&[]), vec![]);
    state.initialize_item(0);
    state.complete_task(Task::new(0, 0), FlowResult::Skipped);
    assert!(matches!(state.get_item_result(0).unwrap().unwrap(), FlowResult::Skipped));
}

#[test]
fn variable_default_expression_is_used_when_unset() {
    let flow = Arc::new(Flow {
        name: None,
        steps: vec![step("a", input())],
        output: ValueExpr::Variable {
            variable: "missing_var".to_string(),
            default: Some(Box::new(ValueExpr::Literal(serde_json::Value::from("default_value")))),
        },
        variable_defaults: vec![],
    });
    let state = ItemsState::single(0, flow.clone(), obj(&[]), vec![]);
    match state.get_item_result(0).unwrap().unwrap() {
        FlowResult::Success(v) => assert_eq!(v, serde_json::Value::from("default_value")),
        _ => panic!("Expected success"),
    }
    let flow2 = Arc::new(Flow {
        name: None,
        steps: vec![],
        output: ValueExpr::Variable { variable: "missing_var".to_string(), default: None },
        variable_defaults: vec![],
    });
    let state2 = ItemsState::single(0, flow2, obj(&[]), vec![]);
    assert_eq!(state2.get_item_result(0).unwrap().err(), Some(ExecutionError::UndefinedValue));
}
