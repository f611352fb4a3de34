//! What running a step decides without the plugin: whether its resolved
//! input allows it to run, and what a failure becomes under the step's error
//! action.

use crate::flow::{json_is_null, json_null, ErrorAction, FlowResult};
use vstd::prelude::*;

verus! {

/// The value to run a step with, or the result the step gets without
/// running when its input did not resolve to a value.
pub fn runnable_input(step_input: FlowResult) -> (r: Result<serde_json::Value, FlowResult>)
    ensures
        match step_input {
            FlowResult::Success(v) => r == Ok::<serde_json::Value, FlowResult>(v),
            other => r == Err::<serde_json::Value, FlowResult>(other),
        },
{
    match step_input {
        FlowResult::Success(v) => Ok(v),
        other => Err(other),
    }
}

/// The result of a step after its error action: a failure under
/// `UseDefault` becomes a success with the default value (`null` when none
/// is given); every other result stays. A `Retry` action leaves the failure
/// for the executor's retry logic.
pub fn apply_error_action(result: FlowResult, action: &ErrorAction) -> (r: FlowResult)
    ensures
        match (result, *action) {
            (FlowResult::Failed(_), ErrorAction::UseDefault { default_value: Some(v) }) => r == FlowResult::Success(v),
            (FlowResult::Failed(_), ErrorAction::UseDefault { default_value: None }) => r matches FlowResult::Success(v)
                && json_is_null(v),
            _ => r == result,
        },
{
    match result {
        FlowResult::Failed(e) => match action {
            ErrorAction::UseDefault { default_value } => match default_value {
                Some(v) => FlowResult::Success(v.clone()),
                None => FlowResult::Success(json_null()),
            },
            _ => FlowResult::Failed(e),
        },
        other => other,
    }
}

} // verus!
