use std::sync::Arc;
use stepflow_execution::error::ExecutionError;
use stepflow_execution::flow::{ErrorAction, Flow, FlowResult, Step, ValueExpr, SkipAction};
use stepflow_execution::items_state::ItemsState;
use stepflow_execution::resolve::{resolve, split_path};
use stepflow_execution::task::Task;

fn obj(fields: &[(&str, serde_json::Value)]) -> serde_json::Value {
    let mut m = serde_json::Map::new();
    for (k, v) in fields {
        m.insert(k.to_string(), v.clone());
    }
    serde_json::Value::Object(m)
}

fn one_step_state(input: serde_json::Value) -> ItemsState {
    let flow = Arc::new(Flow {
        name: None,
        steps: vec![Step {
            id: "step1".to_string(),
            component: "/mock/test".to_string(),
            input: ValueExpr::Input { path: String::new() },
            must_execute: false,
            on_error: ErrorAction::Fail,
        }],
        output: ValueExpr::Step { step: "step1".to_string(), path: String::new(), on_skip: SkipAction::Skip },
        variable_defaults: vec![],
    });
    ItemsState::single(0, flow, input, vec![])
}

fn success(r: Result<FlowResult, ExecutionError>) -> Option<serde_json::Value> {
    match r {
        Ok(FlowResult::Success(v)) => Some(v),
        _ => None,
    }
}

#[test]
fn paths_name_fields_between_dots() {
    assert_eq!(split_path("$.a.b"), vec!["a".to_string(), "b".to_string()]);
    assert_eq!(split_path("user"), vec!["user".to_string()]);
    assert_eq!(split_path("a..b."), vec!["a".to_string(), "b".to_string()]);
    assert!(split_path("").is_empty());
    assert!(split_path("$").is_empty());
}

#[test]
fn input_paths_follow_nested_fields() {
    let input = obj(&[("user", obj(&[("name", serde_json::Value::from("Alice"))])), ("age", serde_json::Value::from(30))]);
    let state = one_step_state(input.clone());
    let item = state.item(0);
    let at = |p: &str| resolve(item, &ValueExpr::Input { path: p.to_string() });
    assert_eq!(success(at("$.user.name")), Some(serde_json::Value::from("Alice")));
    assert_eq!(success(at("age")), Some(serde_json::Value::from(30)));
    assert_eq!(success(at("$")), Some(input.clone()));
    assert_eq!(success(at("")), Some(input));
    assert_eq!(at("$.user.missing").err(), Some(ExecutionError::UndefinedField));
    assert_eq!(at("age.value").err(), Some(ExecutionError::UndefinedField));
}

#[test]
fn step_paths_apply_to_successful_results() {
    let mut state = one_step_state(obj(&[]));
    state.initialize_item(0);
    state.complete_task(Task::new(0, 0), FlowResult::Success(obj(&[("result", obj(&[("count", serde_json::Value::from(3))]))])));
    let item = state.item(0);
    let r = resolve(item, &ValueExpr::Step { step: "step1".to_string(), path: "$.result.count".to_string(), on_skip: SkipAction::Skip });
    assert_eq!(success(r), Some(serde_json::Value::from(3)));
}

#[test]
fn test_resolve_skipped_step_with_default() {
    let mut state = one_step_state(obj(&[]));
    state.initialize_item(0);
    state.complete_task(Task::new(0, 0), FlowResult::Skipped);
    let item = state.item(0);
    let with_default = ValueExpr::Step {
        step: "step1".to_string(),
        path: String::new(),
        on_skip: SkipAction::use_default(Some(serde_json::Value::from("fallback"))),
    };
    let result = resolve(item, &with_default);
    assert_eq!(success(result), Some(serde_json::Value::from("fallback")), "Expected successful result with default value");
    let plain = ValueExpr::Step { step: "step1".to_string(), path: String::new(), on_skip: SkipAction::Skip };
    assert!(matches!(resolve(item, &plain), Ok(FlowResult::Skipped)));
    let null_default = ValueExpr::Step { step: "step1".to_string(), path: String::new(), on_skip: SkipAction::use_default(None) };
    assert_eq!(success(resolve(item, &null_default)), Some(serde_json::Value::Null));
}

#[test]
fn arrays_resolve_member_by_member() {
    let mut state = one_step_state(obj(&[("items", serde_json::Value::from(7))]));
    let item = state.item(0);
    let arr = ValueExpr::Array(vec![
        ValueExpr::Literal(serde_json::Value::from(1)),
        ValueExpr::Input { path: "$.items".to_string() },
    ]);
    assert_eq!(success(resolve(item, &arr)), Some(serde_json::Value::Array(vec![serde_json::Value::from(1), serde_json::Value::from(7)])));
    let with_step = ValueExpr::Array(vec![
        ValueExpr::Literal(serde_json::Value::from(1)),
        ValueExpr::Step { step: "step1".to_string(), path: String::new(), on_skip: SkipAction::Skip },
    ]);
    assert_eq!(resolve(item, &with_step).err(), Some(ExecutionError::StepNotCompleted));
    state.initialize_item(0);
    state.complete_task(Task::new(0, 0), FlowResult::Skipped);
    let item = state.item(0);
    assert!(matches!(resolve(item, &with_step), Ok(FlowResult::Skipped)));
    assert_eq!(success(resolve(item, &ValueExpr::Array(vec![]))), Some(serde_json::Value::Array(vec![])));
}

#[test]
fn array_outputs_need_the_steps_they_name() {
    let flow = Arc::new(Flow {
        name: None,
        steps: vec![
            Step {
                id: "a".to_string(),
                component: "/mock/test".to_string(),
                input: ValueExpr::Input { path: String::new() },
                must_execute: false,
                on_error: ErrorAction::Fail,
            },
            Step {
                id: "b".to_string(),
                component: "/mock/test".to_string(),
                input: ValueExpr::Input { path: String::new() },
                must_execute: false,
                on_error: ErrorAction::Fail,
            },
        ],
        output: ValueExpr::Array(vec![ValueExpr::Step { step: "b".to_string(), path: String::new(), on_skip: SkipAction::Skip }]),
        variable_defaults: vec![],
    });
    let mut state = ItemsState::single(0, flow, obj(&[]), vec![]);
    let ready = state.initialize_item(0);
    assert_eq!(ready, vec![Task::new(0, 1)]);
    assert_eq!(state.item(0).needed_step_indices(), vec![1]);
}
