use stepflow_execution::breadth_first::BreadthFirstScheduler;
use stepflow_execution::decision::SchedulerDecision;
use stepflow_execution::depth_first::DepthFirstScheduler;
use stepflow_execution::flow::{ErrorAction, Flow, FlowResult, Step, ValueExpr, SkipAction};
use stepflow_execution::items_state::ItemsState;
use stepflow_execution::scheduler::Scheduler;
use stepflow_execution::task::Task;
use std::sync::Arc;

fn step(id: &str, input: ValueExpr) -> Step {
    Step {
        id: id.to_string(),
        component: "/mock/test".to_string(),
        input,
        must_execute: false,
        on_error: ErrorAction::Fail,
    }
}

fn step_ref(id: &str) -> ValueExpr {
    ValueExpr::Step { step: id.to_string(), path: String::new(), on_skip: SkipAction::Skip }
}

fn input() -> ValueExpr {
    ValueExpr::Input { path: String::new() }
}

fn two_step_flow() -> Arc<Flow> {
    Arc::new(Flow {
        name: None,
        steps: vec![step("step1", input()), step("step2", step_ref("step1"))],
        output: step_ref("step2"),
        variable_defaults: vec![],
    })
}

fn all_tasks(decision: SchedulerDecision) -> Vec<Task> {
    decision.into_tasks().unwrap().into_iter().collect()
}

#[test]
fn test_scheduler_decision_idle() {
    let decision = SchedulerDecision::idle();
    assert!(decision.is_idle());
    assert!(decision.into_tasks().is_none());
}

#[test]
fn test_scheduler_decision_execute() {
    let decision = SchedulerDecision::execute(vec![Task::new(0, 1), Task::new(1, 2)]);
    assert!(!decision.is_idle());

    let tasks = decision.into_tasks().unwrap();
    assert_eq!(tasks.len(), 2);
}

#[test]
fn test_scheduler_decision_empty_execute_becomes_idle() {
    let decision = SchedulerDecision::execute(vec![]);
    assert!(decision.is_idle());
}

#[test]
fn decision_task_list_keeps_order() {
    let decision = SchedulerDecision::execute(vec![Task::new(2, 0), Task::new(0, 1)]);
    assert_eq!(decision.task_list(), vec![Task::new(2, 0), Task::new(0, 1)]);
    assert!(SchedulerDecision::idle().task_list().is_empty());
}

#[test]
fn test_breadth_first_ordering() {
    let mut scheduler = BreadthFirstScheduler::new();
    scheduler.notify_new_tasks(&[Task::new(1, 0), Task::new(0, 1), Task::new(0, 0), Task::new(1, 1)]);

    let tasks = all_tasks(scheduler.select_next(10));

    // sorted by (step_index, item_index)
    assert_eq!(tasks.len(), 4);
    assert_eq!(tasks[0], Task::new(0, 0));
    assert_eq!(tasks[1], Task::new(1, 0));
    assert_eq!(tasks[2], Task::new(0, 1));
    assert_eq!(tasks[3], Task::new(1, 1));
}

#[test]
fn test_breadth_first_groups_by_step() {
    let mut scheduler = BreadthFirstScheduler::new();
    scheduler.notify_new_tasks(&[Task::new(0, 0), Task::new(1, 0), Task::new(2, 0)]);

    let tasks = all_tasks(scheduler.select_next(10));

    assert_eq!(tasks.len(), 3);
    for task in &tasks {
        assert_eq!(task.step_index, 0);
    }
    assert_eq!(tasks[0].item_index, 0);
    assert_eq!(tasks[1].item_index, 1);
    assert_eq!(tasks[2].item_index, 2);
}

#[test]
fn test_breadth_first_with_limit() {
    let mut scheduler = BreadthFirstScheduler::new();
    scheduler.notify_new_tasks(&[
        Task::new(0, 0),
        Task::new(0, 1),
        Task::new(0, 2),
        Task::new(1, 0),
        Task::new(1, 1),
        Task::new(1, 2),
    ]);

    let tasks = all_tasks(scheduler.select_next(2));
    assert_eq!(tasks.len(), 2);
    for task in &tasks {
        assert_eq!(task.step_index, 0);
    }
}

#[test]
fn breadth_first_test_notify_new_tasks() {
    let mut scheduler = BreadthFirstScheduler::new();
    scheduler.notify_new_tasks(&[Task::new(0, 1), Task::new(1, 0), Task::new(0, 0)]);

    // every held task comes out, in priority order
    let tasks = all_tasks(scheduler.select_next(usize::MAX));
    assert_eq!(tasks[0], Task::new(0, 0));
    assert_eq!(tasks[1], Task::new(1, 0));
    assert_eq!(tasks[2], Task::new(0, 1));
}

#[test]
fn breadth_first_test_incremental_notification() {
    let mut scheduler = BreadthFirstScheduler::new();
    scheduler.notify_new_tasks(&[Task::new(0, 0)]);

    let task = scheduler.select_next(1).into_tasks().unwrap().head;
    assert_eq!(task, Task::new(0, 0));

    scheduler.task_completed(task);
    scheduler.notify_new_tasks(&[Task::new(0, 1)]);

    let task = scheduler.select_next(1).into_tasks().unwrap().head;
    assert_eq!(task, Task::new(0, 1));
}

#[test]
fn breadth_first_test_empty_returns_idle() {
    let mut scheduler = BreadthFirstScheduler::new();
    assert!(scheduler.select_next(10).is_idle());
}

#[test]
fn breadth_first_test_reset() {
    let mut scheduler = BreadthFirstScheduler::new();
    scheduler.notify_new_tasks(&[Task::new(0, 0), Task::new(1, 0)]);
    scheduler.reset();

    assert!(scheduler.select_next(usize::MAX).is_idle());
    assert!(scheduler.select_next(10).is_idle());
}

#[test]
fn breadth_first_test_integration_with_state() {
    let mut state = ItemsState::single(0, two_step_flow(), serde_json::Value::Object(serde_json::Map::new()), vec![]);
    let mut scheduler = BreadthFirstScheduler::new();

    let initial_tasks = state.initialize_item(0);
    scheduler.notify_new_tasks(&initial_tasks);

    assert_eq!(initial_tasks.len(), 1);
    assert_eq!(initial_tasks[0], Task::new(0, 0));

    let task = scheduler.select_next(1).into_tasks().unwrap().head;
    assert_eq!(task, Task::new(0, 0));
    state.mark_executing(task);

    let new_ready = state.complete_task_and_get_ready(task, FlowResult::Success(serde_json::Value::Null));
    scheduler.task_completed(task);
    scheduler.notify_new_tasks(&new_ready);

    assert_eq!(new_ready.len(), 1);
    assert_eq!(new_ready[0], Task::new(0, 1));

    let next = scheduler.select_next(1).into_tasks().unwrap().head;
    assert_eq!(next, Task::new(0, 1));
}

#[test]
fn test_depth_first_ordering() {
    let mut scheduler = DepthFirstScheduler::new();
    scheduler.notify_new_tasks(&[Task::new(1, 0), Task::new(0, 1), Task::new(0, 0), Task::new(1, 1)]);

    let tasks = all_tasks(scheduler.select_next(10));

    // sorted by (item_index, step_index)
    assert_eq!(tasks.len(), 4);
    assert_eq!(tasks[0], Task::new(0, 0));
    assert_eq!(tasks[1], Task::new(0, 1));
    assert_eq!(tasks[2], Task::new(1, 0));
    assert_eq!(tasks[3], Task::new(1, 1));
}

#[test]
fn test_depth_first_with_limit() {
    let mut scheduler = DepthFirstScheduler::new();
    scheduler.notify_new_tasks(&[
        Task::new(0, 0),
        Task::new(0, 1),
        Task::new(0, 2),
        Task::new(1, 0),
        Task::new(1, 1),
        Task::new(1, 2),
    ]);

    let tasks = all_tasks(scheduler.select_next(2));
    assert_eq!(tasks.len(), 2);
    for task in &tasks {
        assert_eq!(task.item_index, 0);
    }
}

#[test]
fn depth_first_test_notify_new_tasks() {
    let mut scheduler = DepthFirstScheduler::new();
    scheduler.notify_new_tasks(&[Task::new(1, 0), Task::new(0, 1), Task::new(0, 0)]);

    let tasks = all_tasks(scheduler.select_next(usize::MAX));
    assert_eq!(tasks[0], Task::new(0, 0));
    assert_eq!(tasks[1], Task::new(0, 1));
    assert_eq!(tasks[2], Task::new(1, 0));
}

#[test]
fn depth_first_test_incremental_notification() {
    let mut scheduler = DepthFirstScheduler::new();
    scheduler.notify_new_tasks(&[Task::new(0, 0)]);

    let task = scheduler.select_next(1).into_tasks().unwrap().head;
    assert_eq!(task, Task::new(0, 0));

    scheduler.task_completed(task);
    scheduler.notify_new_tasks(&[Task::new(0, 1)]);

    let task = scheduler.select_next(1).into_tasks().unwrap().head;
    assert_eq!(task, Task::new(0, 1));
}

#[test]
fn depth_first_test_empty_returns_idle() {
    let mut scheduler = DepthFirstScheduler::new();
    assert!(scheduler.select_next(10).is_idle());
}

#[test]
fn depth_first_test_reset() {
    let mut scheduler = DepthFirstScheduler::new();
    scheduler.notify_new_tasks(&[Task::new(0, 0), Task::new(1, 0)]);
    scheduler.reset();

    assert!(scheduler.select_next(usize::MAX).is_idle());
    assert!(scheduler.select_next(10).is_idle());
}

#[test]
fn depth_first_test_integration_with_state() {
    let mut state = ItemsState::single(0, two_step_flow(), serde_json::Value::Object(serde_json::Map::new()), vec![]);
    let initial_tasks = state.initialize_item(0);

    let mut scheduler = DepthFirstScheduler::new();
    scheduler.notify_new_tasks(&initial_tasks);

    assert_eq!(initial_tasks.len(), 1);
    assert_eq!(initial_tasks[0], Task::new(0, 0));

    let task = scheduler.select_next(1).into_tasks().unwrap().head;
    assert_eq!(task, Task::new(0, 0));

    let new_ready = state.complete_task_and_get_ready(task, FlowResult::Success(serde_json::Value::Null));
    scheduler.task_completed(task);
    scheduler.notify_new_tasks(&new_ready);

    assert_eq!(new_ready.len(), 1);
    assert_eq!(new_ready[0], Task::new(0, 1));

    let next = scheduler.select_next(1).into_tasks().unwrap().head;
    assert_eq!(next, Task::new(0, 1));
}

#[test]
fn equal_tasks_are_both_kept() {
    let mut scheduler = DepthFirstScheduler::new();
    scheduler.notify_new_tasks(&[Task::new(0, 0), Task::new(0, 0)]);
    let tasks = all_tasks(scheduler.select_next(10));
    assert_eq!(tasks, vec![Task::new(0, 0), Task::new(0, 0)]);
}

#[test]
fn selection_leaves_the_rest_in_order() {
    let mut scheduler = BreadthFirstScheduler::new();
    scheduler.notify_new_tasks(&[Task::new(2, 1), Task::new(0, 0), Task::new(1, 1)]);
    assert_eq!(all_tasks(scheduler.select_next(1)), vec![Task::new(0, 0)]);
    scheduler.notify_new_tasks(&[Task::new(0, 1)]);
    assert_eq!(all_tasks(scheduler.select_next(10)), vec![Task::new(0, 1), Task::new(1, 1), Task::new(2, 1)]);
}
