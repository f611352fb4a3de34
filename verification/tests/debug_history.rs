use stepflow_execution::debug_history::{DebugEvent, DebugHistory, PendingAction};
use stepflow_execution::flow::FlowResult;

fn empty_obj() -> serde_json::Value {
    serde_json::Value::Object(serde_json::Map::new())
}

#[test]
fn test_debug_history_new() {
    let history = DebugHistory::new();
    assert!(history.is_empty());
    assert_eq!(history.len(), 0);
    assert!(history.pending_action().is_awaiting_input());
}

#[test]
fn test_debug_history_from_events() {
    let events = vec![DebugEvent::step_queued(0, "step1"), DebugEvent::step_queued(1, "step2")];
    let history = DebugHistory::from_events(events);

    assert_eq!(history.len(), 2);
    assert!(!history.is_empty());
}

#[test]
fn test_completed_step_indices() {
    let events = vec![
        DebugEvent::step_completed(0, "step1", FlowResult::Success(empty_obj())),
        DebugEvent::step_queued(1, "step2"),
        DebugEvent::step_completed(2, "step3", FlowResult::Success(empty_obj())),
    ];
    let history = DebugHistory::from_events(events);

    let completed = history.completed_step_indices();
    assert!(completed.contains(&0));
    assert!(!completed.contains(&1));
    assert!(completed.contains(&2));
}

#[test]
fn test_pending_step_ids() {
    let events = vec![
        DebugEvent::step_queued(0, "step1"),
        DebugEvent::step_completed(0, "step1", FlowResult::Success(empty_obj())),
        DebugEvent::step_queued(1, "step2"),
    ];
    let history = DebugHistory::from_events(events);

    let pending = history.pending_step_ids();
    assert!(!pending.contains(&"step1".to_string()));
    assert!(pending.contains(&"step2".to_string()));
}

#[test]
fn test_is_step_completed() {
    let events = vec![
        DebugEvent::step_queued(0, "step1"),
        DebugEvent::step_completed(0, "step1", FlowResult::Success(empty_obj())),
    ];
    let history = DebugHistory::from_events(events);

    assert!(history.is_step_completed(0));
    assert!(!history.is_step_completed(1));
}

#[test]
fn test_is_step_queued() {
    let history = DebugHistory::from_events(vec![DebugEvent::step_queued(0, "step1")]);

    assert!(history.is_step_queued(0));
    assert!(!history.is_step_queued(1));
}

#[test]
fn test_pending_action_awaiting_input() {
    let history = DebugHistory::new();
    assert!(history.pending_action().is_awaiting_input());
}

#[test]
fn test_pending_action_execute_step() {
    let history = DebugHistory::from_events(vec![DebugEvent::step_queued(0, "step1")]);

    let action = history.pending_action();
    assert!(action.is_execute_step());
    if let PendingAction::ExecuteStep { step_index, step_id } = action {
        assert_eq!(step_index, 0);
        assert_eq!(step_id, "step1");
    }
}

#[test]
fn test_pending_action_complete() {
    let history = DebugHistory::from_events(vec![DebugEvent::run_completed(0, true)]);

    assert!(history.pending_action().is_complete());
}

#[test]
fn test_pending_action_after_partial_completion() {
    // newest first
    let events = vec![
        DebugEvent::step_queued(1, "step2"),
        DebugEvent::step_completed(0, "step1", FlowResult::Success(empty_obj())),
        DebugEvent::step_queued(0, "step1"),
    ];
    let history = DebugHistory::from_events(events);

    let action = history.pending_action();
    assert!(action.is_execute_step());
    if let PendingAction::ExecuteStep { step_id, .. } = action {
        assert_eq!(step_id, "step2");
    }
}

#[test]
fn test_debug_event_step_started() {
    let mut m = serde_json::Map::new();
    m.insert("key".to_string(), serde_json::Value::from("value"));
    let input = serde_json::Value::Object(m);
    let event = DebugEvent::step_started(1, "step2", input.clone());

    if let DebugEvent::StepStarted { step_index, step_id, input: event_input } = event {
        assert_eq!(step_index, 1);
        assert_eq!(step_id, "step2");
        assert_eq!(event_input, input);
    } else {
        panic!("Expected StepStarted event");
    }
}

#[test]
fn test_debug_event_step_completed() {
    let mut m = serde_json::Map::new();
    m.insert("output".to_string(), serde_json::Value::from(42));
    let value = serde_json::Value::Object(m);
    let event = DebugEvent::step_completed(2, "step3", FlowResult::Success(value.clone()));

    if let DebugEvent::StepCompleted { step_index, step_id, result: event_result } = event {
        assert_eq!(step_index, 2);
        assert_eq!(step_id, "step3");
        match event_result {
            FlowResult::Success(v) => assert_eq!(v, value),
            _ => panic!("Expected the success result"),
        }
    } else {
        panic!("Expected StepCompleted event");
    }
}

#[test]
fn test_debug_event_accessors() {
    let event = DebugEvent::step_queued(5, "my_step");
    assert_eq!(event.step_index(), Some(5));
    assert_eq!(event.step_id(), Some("my_step"));

    let run_event = DebugEvent::run_completed(0, true);
    assert_eq!(run_event.step_index(), None);
    assert_eq!(run_event.step_id(), None);
}

#[test]
fn test_pending_action_checks() {
    assert!(PendingAction::Complete.is_complete());
    assert!(!PendingAction::Complete.is_execute_step());
    assert!(!PendingAction::Complete.is_awaiting_input());

    assert!(PendingAction::execute_step(0, "s").is_execute_step());
    assert!(!PendingAction::execute_step(0, "s").is_complete());

    assert!(PendingAction::AwaitingInput.is_awaiting_input());
    assert!(!PendingAction::AwaitingInput.is_complete());
}

#[test]
fn pending_action_takes_the_first_listed_uncompleted_queue() {
    // listed newest first: step3 was queued last, step1 first and completed
    let events = vec![
        DebugEvent::step_queued(3, "step3"),
        DebugEvent::step_queued(2, "step2"),
        DebugEvent::step_completed(1, "step1", FlowResult::Skipped),
        DebugEvent::step_queued(1, "step1"),
    ];
    let history = DebugHistory::from_events(events);
    match history.pending_action() {
        PendingAction::ExecuteStep { step_index, step_id } => {
            assert_eq!(step_index, 3);
            assert_eq!(step_id, "step3");
        }
        _ => panic!("Expected a step to execute"),
    }
    assert_eq!(history.pending_step_ids(), vec!["step3".to_string(), "step2".to_string()]);
}

#[test]
fn run_completion_wins_over_queued_steps() {
    let events = vec![DebugEvent::run_completed(9, false), DebugEvent::step_queued(0, "step1")];
    let history = DebugHistory::from_events(events);
    assert!(history.pending_action().is_complete());
}
