//! Execution-state core of a workflow engine: dependency tracking per item,
//! cross-item coordination, task scheduling, debug-history derivation, journal
//! replay and checkpoint snapshots.

pub mod bitset;
pub mod json;
pub mod error;
pub mod flow;
pub mod step_index;
pub mod deps;
pub mod item_state;
pub mod task;
pub mod items_state;
pub mod decision;
pub mod task_queue;
pub mod scheduler;
pub mod breadth_first;
pub mod depth_first;
pub mod debug_history;
pub mod journal;
pub mod run_state;
pub mod checkpoint;
pub mod checkpointer;
pub mod recovery;
pub mod replay;
pub mod execution;
pub mod resolve;
pub mod step_runner;
pub mod debug_executor;
pub mod flow_executor;
pub mod laws;
