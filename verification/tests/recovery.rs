use std::sync::Arc;
use stepflow_execution::error::ExecutionError;
use stepflow_execution::flow::{ErrorAction, Flow, FlowResult, Step, ValueExpr, SkipAction};
use stepflow_execution::journal::{ExecutionStatus, JournalEvent, RunTaskAttempts, StepStatus, TaskAttempt};
use stepflow_execution::recovery::{
    claim_decision, orphan_query_limit, select_trees, ClaimAction, LeaseOutcome, RecoveryResult, RunRecoveryInfo,
    SubflowMetadata,
};
use stepflow_execution::checkpoint::{CheckpointData, SubflowMapping};
use stepflow_execution::replay::{entries_after, replay_from_checkpoint, root_run_from_journal, Replay, ReplayAction};
use stepflow_execution::run_state::RunState;

fn step(id: &str, input: ValueExpr) -> Step {
    Step { id: id.to_string(), component: "/mock/test".to_string(), input, must_execute: false, on_error: ErrorAction::Fail }
}

fn chain_flow() -> Arc<Flow> {
    Arc::new(Flow {
        name: None,
        steps: vec![
            step("step1", ValueExpr::Input { path: String::new() }),
            step("step2", ValueExpr::Step { step: "step1".to_string(), path: String::new(), on_skip: SkipAction::Skip }),
        ],
        output: ValueExpr::Step { step: "step2".to_string(), path: String::new(), on_skip: SkipAction::Skip },
        variable_defaults: vec![],
    })
}

fn info(root: u128, seq: u64) -> RunRecoveryInfo {
    RunRecoveryInfo { root_run_id: root, flow_id: format!("flow-{root}"), start_sequence: seq }
}

#[test]
fn orphan_limit_subtracts_own_runs() {
    assert_eq!(orphan_query_limit(10, 3), 7);
    assert_eq!(orphan_query_limit(3, 10), 0);
}

#[test]
fn claims_follow_the_lease() {
    let me = "orch-a".to_string();
    let (a, w) = claim_decision(&None, &me, &LeaseOutcome::Acquired);
    assert!(a == ClaimAction::Recover);
    assert_eq!(w, Some("orch-a".to_string()));

    let (a, w) = claim_decision(&Some("orch-b".to_string()), &me, &LeaseOutcome::Acquired);
    assert!(a == ClaimAction::Recover);
    assert_eq!(w, None);

    let (a, w) = claim_decision(&Some("orch-b".to_string()), &me, &LeaseOutcome::OwnedBy { owner: "orch-c".to_string() });
    assert!(a == ClaimAction::Skip);
    assert_eq!(w, Some("orch-c".to_string()));

    let (a, w) = claim_decision(&Some("orch-c".to_string()), &me, &LeaseOutcome::OwnedBy { owner: "orch-c".to_string() });
    assert!(a == ClaimAction::Skip);
    assert_eq!(w, None);

    let (a, w) = claim_decision(&None, &me, &LeaseOutcome::Failed);
    assert!(a == ClaimAction::Skip);
    assert_eq!(w, None);
}

#[test]
fn trees_are_recovered_once_per_root_skipping_active_ones() {
    let claims = vec![info(1, 10), info(2, 20), info(1, 30), info(3, 40)];
    let trees = select_trees(&claims, &vec![3]);
    let roots: Vec<(u128, u64)> = trees.iter().map(|t| (t.root_run_id, t.start_sequence)).collect();
    assert_eq!(roots, vec![(2, 20), (1, 30)]);
}

#[test]
fn recovery_result_counts() {
    let mut r = RecoveryResult::new();
    r.record_success(5);
    r.record_failure(6, "missing flow".to_string());
    r.record_success(7);
    assert_eq!(r.recovered, 2);
    assert_eq!(r.failed, 1);
    assert_eq!(r.recovered_run_ids, vec![5, 7]);
    assert_eq!(r.failed_runs, vec![(6, "missing flow".to_string())]);
}

#[test]
fn subflow_metadata_skips_the_root() {
    let runs = vec![(1u128, ExecutionStatus::Running), (2, ExecutionStatus::Completed), (3, ExecutionStatus::Running), (4, ExecutionStatus::Failed)];
    let meta = SubflowMetadata::from_runs(1, &runs);
    assert_eq!(meta.known, vec![2, 3, 4]);
    assert_eq!(meta.completed, vec![2, 4]);
}

#[test]
fn replaying_a_journal_resumes_the_run() {
    let root = 1000u128;
    let flow = chain_flow();
    let fresh = RunState::new(root, "flow".to_string(), flow.clone(), vec![serde_json::Value::from(1)], vec![]);
    let mut replay = Replay::new(fresh);
    let meta = SubflowMetadata { known: vec![], completed: vec![] };

    let events = vec![
        JournalEvent::StepsNeeded { run_id: root, item_index: 0, step_indices: vec![0, 1] },
        JournalEvent::TasksStarted {
            runs: vec![RunTaskAttempts {
                run_id: root,
                tasks: vec![TaskAttempt { item_index: 0, step_index: 0, attempt: 1, task_id: "t-1".to_string() }],
            }],
        },
        JournalEvent::TaskCompleted { run_id: root, item_index: 0, step_index: 0, result: FlowResult::Success(serde_json::Value::from(5)) },
        JournalEvent::StepsUnblocked { run_id: root, item_index: 0, step_indices: vec![1] },
    ];

    let mut statuses: Vec<(usize, StepStatus, u64)> = Vec::new();
    for (i, e) in events.iter().enumerate() {
        assert!(replay.fits(e, &None));
        let actions = replay.apply_event(i as u64 + 1, e, None, &meta).ok().expect("replay");
        for a in actions {
            if let ReplayAction::UpdateStepStatus(u) = a {
                assert_eq!(u.run_id, root);
                statuses.push((u.step_index, u.status, u.sequence));
            }
        }
    }
    assert_eq!(
        statuses,
        vec![(0, StepStatus::Running, 2), (0, StepStatus::Completed, 3), (1, StepStatus::Runnable, 4)]
    );
    assert_eq!(replay.event_count(), 4);

    let recovered = replay.finish();
    assert_eq!(recovered.last_sequence, Some(4));
    assert!(recovered.root_terminal_status.is_none());
    assert!(recovered.recovered_task_ids.is_empty());
    let item = recovered.run_state.items_state().item(0);
    assert!(item.is_completed(0));
    let ready: Vec<usize> = item.ready_steps().iter().collect();
    assert_eq!(ready, vec![1]);
}

#[test]
fn started_but_unfinished_tasks_keep_their_ids() {
    let root = 2000u128;
    let fresh = RunState::new(root, "flow".to_string(), chain_flow(), vec![serde_json::Value::from(1)], vec![]);
    let mut replay = Replay::new(fresh);
    let meta = SubflowMetadata { known: vec![], completed: vec![] };
    let started = JournalEvent::TasksStarted {
        runs: vec![RunTaskAttempts {
            run_id: root,
            tasks: vec![TaskAttempt { item_index: 0, step_index: 0, attempt: 2, task_id: "t-9".to_string() }],
        }],
    };
    replay.apply_event(1, &JournalEvent::StepsNeeded { run_id: root, item_index: 0, step_indices: vec![0, 1] }, None, &meta).ok().unwrap();
    replay.apply_event(2, &started, None, &meta).ok().unwrap();
    replay.apply_event(3, &JournalEvent::RunCompleted { run_id: root, status: ExecutionStatus::Failed }, None, &meta).ok().unwrap();
    let recovered = replay.finish();
    assert_eq!(recovered.recovered_task_ids, vec![((root, 0, 0), "t-9".to_string())]);
    assert_eq!(recovered.root_terminal_status, Some(ExecutionStatus::Failed));
    assert_eq!(recovered.run_state.items_state().item(0).attempt_count(0), 2);
}

#[test]
fn sub_run_without_its_flow_fails_replay() {
    let root = 3000u128;
    let fresh = RunState::new(root, "flow".to_string(), chain_flow(), vec![serde_json::Value::from(1)], vec![]);
    let mut replay = Replay::new(fresh);
    let meta = SubflowMetadata { known: vec![], completed: vec![] };
    let created = JournalEvent::SubRunCreated {
        run_id: 3001,
        flow_id: "sub".to_string(),
        inputs: vec![serde_json::Value::from(2)],
        variables: vec![],
        parent_run_id: root,
        item_index: 0,
        step_index: 1,
        subflow_key: 77,
    };
    assert!(replay.apply_event(1, &created, None, &meta).is_err());
    let actions = replay.apply_event(1, &created, Some(chain_flow()), &meta).ok().expect("sub-run created");
    assert!(matches!(actions[0], ReplayAction::CreateRunRecord { run_id: 3001, .. }));
    let recovered = replay.finish();
    assert_eq!(recovered.subflow_map, vec![((root, 0, 1, 77), 3001)]);
    assert_eq!(recovered.subflow_runs.len(), 1);
    assert_eq!(recovered.runs_needing_step_updates, vec![3001]);
}

#[test]
fn the_journal_starts_with_the_root_run() {
    let created = JournalEvent::RootRunCreated {
        run_id: 5,
        flow_id: "flow".to_string(),
        inputs: vec![serde_json::Value::from(1), serde_json::Value::from(2)],
        variables: vec![("k".to_string(), serde_json::Value::from("v"))],
    };
    let st = root_run_from_journal(&created, 5, "flow".to_string(), chain_flow()).ok().unwrap();
    assert_eq!(st.run_id(), 5);
    assert_eq!(st.root_run_id(), 5);
    assert_eq!(st.item_count(), 2);
    assert_eq!(st.inputs(), vec![serde_json::Value::from(1), serde_json::Value::from(2)]);
    assert_eq!(st.variables().len(), 1);
    assert_eq!(root_run_from_journal(&created, 6, "flow".to_string(), chain_flow()).err(), Some(ExecutionError::RecoveryFailed));
    let other = JournalEvent::RunCompleted { run_id: 5, status: ExecutionStatus::Completed };
    assert_eq!(root_run_from_journal(&other, 5, "flow".to_string(), chain_flow()).err(), Some(ExecutionError::RecoveryFailed));
}

fn checkpointed_tree(root: u128, sub: u128) -> CheckpointData {
    let mut root_state = RunState::new(root, "flow".to_string(), chain_flow(), vec![serde_json::Value::from(1)], vec![]);
    root_state.initialize_all();
    root_state.apply_event(&JournalEvent::TaskCompleted {
        run_id: root,
        item_index: 0,
        step_index: 0,
        result: FlowResult::Success(serde_json::Value::from(5)),
    });
    let mut sub_state =
        RunState::new_subflow(sub, "sub-flow".to_string(), root, root, chain_flow(), vec![serde_json::Value::from(2)], vec![]);
    sub_state.initialize_all();
    CheckpointData::capture(&vec![sub_state, root_state], &vec![((root, 0, 1, 77), sub)], 10)
}

#[test]
fn checkpoint_restores_the_whole_tree() {
    let (root, sub) = (4000u128, 4001u128);
    let data = checkpointed_tree(root, sub);
    let sub_flows: Vec<Option<Arc<Flow>>> =
        data.runs.iter().map(|rc| if rc.run_id == root { None } else { Some(chain_flow()) }).collect();
    let replay = replay_from_checkpoint(root, chain_flow(), &data, &sub_flows).ok().expect("checkpoint restores");
    assert_eq!(replay.event_count(), 0);
    let recovered = replay.finish();
    assert_eq!(recovered.run_state.run_id(), root);
    assert!(recovered.run_state.items_state().item(0).is_completed(0));
    assert!(!recovered.run_state.items_state().item(0).is_completed(1));
    assert_eq!(recovered.subflow_runs.len(), 1);
    assert_eq!(recovered.subflow_runs[0].run_id(), sub);
    assert_eq!(recovered.subflow_runs[0].parent_run_id(), Some(root));
    assert!(!recovered.subflow_runs[0].items_state().item(0).is_completed(0));
    assert_eq!(recovered.subflow_map, vec![((root, 0, 1, 77), sub)]);
    assert!(recovered.runs_needing_step_updates.is_empty());
    assert!(recovered.recovered_task_ids.is_empty());
    assert!(recovered.last_sequence.is_none());
}

#[test]
fn checkpoint_without_the_root_or_a_sub_flow_is_unusable() {
    let (root, sub) = (5000u128, 5001u128);
    let data = checkpointed_tree(root, sub);
    let all: Vec<Option<Arc<Flow>>> = data.runs.iter().map(|_| Some(chain_flow())).collect();
    assert_eq!(replay_from_checkpoint(6000, chain_flow(), &data, &all).err(), Some(ExecutionError::CheckpointError));
    let missing: Vec<Option<Arc<Flow>>> = data.runs.iter().map(|_| None).collect();
    assert_eq!(replay_from_checkpoint(root, chain_flow(), &data, &missing).err(), Some(ExecutionError::CheckpointError));
    let one_step = Arc::new(Flow {
        name: None,
        steps: vec![step("step1", ValueExpr::Input { path: String::new() })],
        output: ValueExpr::Step { step: "step1".to_string(), path: String::new(), on_skip: SkipAction::Skip },
        variable_defaults: vec![],
    });
    assert_eq!(replay_from_checkpoint(root, one_step, &data, &all).err(), Some(ExecutionError::CheckpointError));
}

#[test]
fn later_checkpoint_mappings_replace_earlier_ones() {
    let (root, sub) = (7000u128, 7001u128);
    let mut data = checkpointed_tree(root, sub);
    data.subflow_map.push(SubflowMapping { parent_run_id: root, item_index: 0, step_index: 1, subflow_key: 77, subflow_run_id: 7002 });
    let all: Vec<Option<Arc<Flow>>> = data.runs.iter().map(|_| Some(chain_flow())).collect();
    let recovered = replay_from_checkpoint(root, chain_flow(), &data, &all).ok().unwrap().finish();
    assert_eq!(recovered.subflow_map, vec![((root, 0, 1, 77), 7002)]);
}

#[test]
fn only_records_after_the_checkpoint_are_replayed() {
    let done = |id: u128| JournalEvent::RunCompleted { run_id: id, status: ExecutionStatus::Completed };
    let entries = vec![(3u64, done(1)), (9, done(2)), (10, done(3)), (11, done(4)), (15, done(5))];
    let tail = entries_after(entries, 10);
    let seqs: Vec<u64> = tail.iter().map(|e| e.0).collect();
    assert_eq!(seqs, vec![11, 15]);
    assert!(matches!(tail[0].1, JournalEvent::RunCompleted { run_id: 4, .. }));
    assert!(entries_after(vec![], 0).is_empty());
}

#[test]
fn test_crash_multiple_subflows_mixed_states() {
    let root = 8000u128;
    let fresh = RunState::new(root, "flow".to_string(), chain_flow(), vec![serde_json::Value::from(1)], vec![]);
    let mut replay = Replay::new(fresh);
    let meta = SubflowMetadata { known: vec![8001, 8002], completed: vec![] };
    let created = |run_id: u128, key: u128| JournalEvent::SubRunCreated {
        run_id,
        flow_id: "sub".to_string(),
        inputs: vec![serde_json::Value::from(2)],
        variables: vec![],
        parent_run_id: root,
        item_index: 0,
        step_index: 1,
        subflow_key: key,
    };
    replay.apply_event(1, &JournalEvent::StepsNeeded { run_id: root, item_index: 0, step_indices: vec![0, 1] }, None, &meta).ok().unwrap();
    replay.apply_event(2, &created(8001, 1), Some(chain_flow()), &meta).ok().unwrap();
    replay.apply_event(3, &JournalEvent::StepsNeeded { run_id: 8001, item_index: 0, step_indices: vec![0, 1] }, None, &meta).ok().unwrap();
    replay.apply_event(4, &created(8002, 2), Some(chain_flow()), &meta).ok().unwrap();
    let recovered = replay.finish();
    assert!(!recovered.runs_needing_step_updates.contains(&8001), "Subflow 1 should NOT need step updates (already initialized)");
    assert!(recovered.runs_needing_step_updates.contains(&8002), "Subflow 2 should need step updates (crash before StepsNeeded)");
    assert!(!recovered.runs_needing_step_updates.contains(&root));
}
