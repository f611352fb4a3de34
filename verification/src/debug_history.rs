//! Debug history and the state derived from it for interactive workflow
//! debugging: which steps were queued, which completed, and what the
//! debugger should do next.

use std::collections::HashSet;

use crate::flow::FlowResult;
use vstd::prelude::*;

verus! {

broadcast use vstd::std_specs::hash::group_hash_axioms;

/// An event of a debug session.
pub enum DebugEvent {
    /// A step was added to the set of steps to run.
    StepQueued { step_index: usize, step_id: String },
    /// A step started with the given input.
    StepStarted { step_index: usize, step_id: String, input: serde_json::Value },
    /// A step completed with the given result.
    StepCompleted { step_index: usize, step_id: String, result: FlowResult },
    /// The run completed.
    RunCompleted { run_id: u128, success: bool },
}

impl DebugEvent {
    pub fn step_queued(step_index: usize, step_id: &str) -> (r: Self)
        ensures
            r matches DebugEvent::StepQueued { step_index: i, step_id: s } && i == step_index && s@ == step_id@,
    {
        DebugEvent::StepQueued { step_index, step_id: step_id.to_owned() }
    }

    pub fn step_started(step_index: usize, step_id: &str, input: serde_json::Value) -> (r: Self)
        ensures
            r matches DebugEvent::StepStarted { step_index: i, step_id: s, input: v } && i == step_index
                && s@ == step_id@ && v == input,
    {
        DebugEvent::StepStarted { step_index, step_id: step_id.to_owned(), input }
    }

    pub fn step_completed(step_index: usize, step_id: &str, result: FlowResult) -> (r: Self)
        ensures
            r matches DebugEvent::StepCompleted { step_index: i, step_id: s, result: v } && i
                == step_index && s@ == step_id@ && v == result,
    {
        DebugEvent::StepCompleted { step_index, step_id: step_id.to_owned(), result }
    }

    pub fn run_completed(run_id: u128, success: bool) -> (r: Self)
        ensures
            r == (DebugEvent::RunCompleted { run_id, success }),
    {
        DebugEvent::RunCompleted { run_id, success }
    }

    /// The step index of a step event.
    pub fn step_index(&self) -> (r: Option<usize>)
        ensures
            r == event_step_index(*self),
    {
        match self {
            DebugEvent::StepQueued { step_index, .. } => Some(*step_index),
            DebugEvent::StepStarted { step_index, .. } => Some(*step_index),
            DebugEvent::StepCompleted { step_index, .. } => Some(*step_index),
            DebugEvent::RunCompleted { .. } => None,
        }
    }

    /// The step id of a step event.
    pub fn step_id(&self) -> (r: Option<&str>)
        ensures
            r matches Some(s) ==> event_step_id(*self) == Some(s@),
            r is None <==> event_step_id(*self) is None,
    {
        match self {
            DebugEvent::StepQueued { step_id, .. } => Some(step_id.as_str()),
            DebugEvent::StepStarted { step_id, .. } => Some(step_id.as_str()),
            DebugEvent::StepCompleted { step_id, .. } => Some(step_id.as_str()),
            DebugEvent::RunCompleted { .. } => None,
        }
    }
}

pub open spec fn event_step_index(e: DebugEvent) -> Option<usize> {
    match e {
        DebugEvent::StepQueued { step_index, .. } => Some(step_index),
        DebugEvent::StepStarted { step_index, .. } => Some(step_index),
        DebugEvent::StepCompleted { step_index, .. } => Some(step_index),
        DebugEvent::RunCompleted { .. } => None,
    }
}

pub open spec fn event_step_id(e: DebugEvent) -> Option<Seq<char>> {
    match e {
        DebugEvent::StepQueued { step_id, .. } => Some(step_id@),
        DebugEvent::StepStarted { step_id, .. } => Some(step_id@),
        DebugEvent::StepCompleted { step_id, .. } => Some(step_id@),
        DebugEvent::RunCompleted { .. } => None,
    }
}

/// What the debugger should do next.
pub enum PendingAction {
    /// The run has completed.
    Complete,
    /// Execute the given step.
    ExecuteStep { step_index: usize, step_id: String },
    /// Nothing is queued: wait for the user.
    AwaitingInput,
}

impl PendingAction {
    pub fn execute_step(step_index: usize, step_id: &str) -> (r: Self)
        ensures
            r matches PendingAction::ExecuteStep { step_index: i, step_id: s } && i == step_index && s@ == step_id@,
    {
        PendingAction::ExecuteStep { step_index, step_id: step_id.to_owned() }
    }

    pub fn is_complete(&self) -> (r: bool)
        ensures
            r == (*self is Complete),
    {
        match self {
            PendingAction::Complete => true,
            _ => false,
        }
    }

    pub fn is_execute_step(&self) -> (r: bool)
        ensures
            r == (*self is ExecuteStep),
    {
        match self {
            PendingAction::ExecuteStep { .. } => true,
            _ => false,
        }
    }

    pub fn is_awaiting_input(&self) -> (r: bool)
        ensures
            r == (*self is AwaitingInput),
    {
        match self {
            PendingAction::AwaitingInput => true,
            _ => false,
        }
    }
}

/// The indices of the completed steps.
pub open spec fn completed_indices(events: Seq<DebugEvent>) -> Set<usize> {
    Set::new(
        |i: usize|
            exists|k: int|
                0 <= k < events.len() && (#[trigger] events[k] matches DebugEvent::StepCompleted {
                    step_index,
                    ..
                } && step_index == i),
    )
}

/// The ids of the queued steps whose index is not in `done`, in event order.
pub open spec fn pending_ids(events: Seq<DebugEvent>, done: Set<usize>) -> Seq<Seq<char>>
    decreases events.len(),
{
    if events.len() == 0 {
        Seq::empty()
    } else {
        let rest = pending_ids(events.drop_last(), done);
        match events.last() {
            DebugEvent::StepQueued { step_index, step_id } => if done.contains(step_index) {
                rest
            } else {
                rest.push(step_id@)
            },
            _ => rest,
        }
    }
}

/// The first queued step whose index is not in `done`.
pub open spec fn first_pending(events: Seq<DebugEvent>, done: Set<usize>) -> Option<(usize, Seq<char>)>
    decreases events.len(),
{
    if events.len() == 0 {
        None
    } else {
        match first_pending(events.drop_last(), done) {
            Some(p) => Some(p),
            None => match events.last() {
                DebugEvent::StepQueued { step_index, step_id } => if done.contains(step_index) {
                    None
                } else {
                    Some((step_index, step_id@))
                },
                _ => None,
            },
        }
    }
}

/// Some event records the run's completion.
pub open spec fn has_run_completed(events: Seq<DebugEvent>) -> bool {
    exists|k: int| 0 <= k < events.len() && #[trigger] events[k] is RunCompleted
}

/// Debug history and state derivation for a debug session: a view of the
/// events of the session, newest first.
pub struct DebugHistory {
    events: Vec<DebugEvent>,
}

impl DebugHistory {
    /// The events, newest first.
    pub closed spec fn events_spec(&self) -> Seq<DebugEvent> {
        self.events@
    }

    /// Create a debug history from a list of events (newest first).
    pub fn from_events(events: Vec<DebugEvent>) -> (r: Self)
        ensures
            r.events_spec() == events@,
    {
        DebugHistory { events }
    }

    /// Create an empty debug history.
    pub fn new() -> (r: Self)
        ensures
            r.events_spec() == Seq::<DebugEvent>::empty(),
    {
        DebugHistory { events: Vec::new() }
    }

    /// Get the events (newest first).
    pub fn events(&self) -> (r: &[DebugEvent])
        ensures
            r@ == self.events_spec(),
    {
        self.events.as_slice()
    }

    /// Get the number of events.
    pub fn len(&self) -> (r: usize)
        ensures
            r == self.events_spec().len(),
    {
        self.events.len()
    }

    /// Check if there are no events.
    pub fn is_empty(&self) -> (r: bool)
        ensures
            r == (self.events_spec().len() == 0),
    {
        self.events.len() == 0
    }

    /// Get the set of step indices that have been completed.
    pub fn completed_step_indices(&self) -> (r: HashSet<usize>)
        ensures
            r@ == completed_indices(self.events_spec()),
    {
        let mut set: HashSet<usize> = HashSet::new();
        let mut k: usize = 0;
        while k < self.events.len()
            invariant
                k <= self.events@.len(),
                set@ == completed_indices(self.events@.take(k as int)),
            decreases self.events@.len() - k,
        {
            let ghost before = self.events@.take(k as int);
            let ghost after = self.events@.take(k + 1);
            match &self.events[k] {
                DebugEvent::StepCompleted { step_index, .. } => {
                    set.insert(*step_index);
                },
                _ => {},
            }
            proof {
                assert forall|i: usize| #[trigger] completed_indices(after).contains(i) <==> (
                    completed_indices(before).contains(i) || (self.events@[k as int] matches
                    DebugEvent::StepCompleted { step_index, .. } && step_index == i)) by {
                    if completed_indices(after).contains(i) {
                        let j = choose|j: int| 0 <= j < after.len() && (#[trigger] after[j] matches
                            DebugEvent::StepCompleted { step_index, .. } && step_index == i);
                        if j < k {
                            assert(before[j] == after[j]);
                        }
                    }
                    if completed_indices(before).contains(i) {
                        let j = choose|j: int| 0 <= j < before.len() && (#[trigger] before[j] matches
                            DebugEvent::StepCompleted { step_index, .. } && step_index == i);
                        assert(before[j] == after[j]);
                    }
                    if self.events@[k as int] matches DebugEvent::StepCompleted { step_index, .. } && step_index == i {
                        assert(after[k as int] == self.events@[k as int]);
                    }
                }
                assert(set@ =~= completed_indices(after));
            }
            k = k + 1;
        }
        proof {
            assert(self.events@.take(self.events@.len() as int) =~= self.events@);
        }
        set
    }

    /// Get the ids of the steps that have been queued but not completed, in
    /// event order.
    pub fn pending_step_ids(&self) -> (r: Vec<String>)
        ensures
            r@.map_values(|s: String| s@) == pending_ids(self.events_spec(), completed_indices(self.events_spec())),
    {
        let completed = self.completed_step_indices();
        let ghost done = completed_indices(self.events@);
        let mut out: Vec<String> = Vec::new();
        let mut k: usize = 0;
        while k < self.events.len()
            invariant
                k <= self.events@.len(),
                completed@ == done,
                out@.map_values(|s: String| s@) == pending_ids(self.events@.take(k as int), done),
            decreases self.events@.len() - k,
        {
            let ghost t = self.events@.take(k + 1);
            proof {
                assert(t.drop_last() =~= self.events@.take(k as int));
                assert(t.last() == self.events@[k as int]);
            }
            match &self.events[k] {
                DebugEvent::StepQueued { step_index, step_id } => {
                    if !completed.contains(step_index) {
                        out.push(step_id.clone());
                    }
                },
                _ => {},
            }
            proof {
                assert(out@.map_values(|s: String| s@) =~= pending_ids(t, done));
            }
            k = k + 1;
        }
        proof {
            assert(self.events@.take(self.events@.len() as int) =~= self.events@);
        }
        out
    }

    /// Check if a specific step has been completed.
    pub fn is_step_completed(&self, step_index: usize) -> (r: bool)
        ensures
            r == completed_indices(self.events_spec()).contains(step_index),
    {
        let mut k: usize = 0;
        while k < self.events.len()
            invariant
                k <= self.events@.len(),
                forall|j: int| 0 <= j < k ==> !(#[trigger] self.events@[j] matches DebugEvent::StepCompleted {
                    step_index: idx,
                    ..
                } && idx == step_index),
            decreases self.events@.len() - k,
        {
            match &self.events[k] {
                DebugEvent::StepCompleted { step_index: idx, .. } => {
                    if *idx == step_index {
                        return true;
                    }
                },
                _ => {},
            }
            k = k + 1;
        }
        false
    }

    /// Check if a specific step has been queued.
    pub fn is_step_queued(&self, step_index: usize) -> (r: bool)
        ensures
            r == exists|k: int|
                0 <= k < self.events_spec().len() && (#[trigger] self.events_spec()[k] matches
                DebugEvent::StepQueued { step_index: idx, .. } && idx == step_index),
    {
        let mut k: usize = 0;
        while k < self.events.len()
            invariant
                k <= self.events@.len(),
                forall|j: int| 0 <= j < k ==> !(#[trigger] self.events@[j] matches DebugEvent::StepQueued {
                    step_index: idx,
                    ..
                } && idx == step_index),
            decreases self.events@.len() - k,
        {
            match &self.events[k] {
                DebugEvent::StepQueued { step_index: idx, .. } => {
                    if *idx == step_index {
                        assert(self.events_spec()[k as int] matches DebugEvent::StepQueued { step_index: idx, .. } && idx == step_index);
                        return true;
                    }
                },
                _ => {},
            }
            k = k + 1;
        }
        false
    }

    /// Derive the pending action from the events: `Complete` if the run
    /// completed, else the first queued step that has not completed, else
    /// `AwaitingInput`.
    pub fn pending_action(&self) -> (r: PendingAction)
        ensures
            has_run_completed(self.events_spec()) ==> r is Complete,
            !has_run_completed(self.events_spec()) ==> match first_pending(
                self.events_spec(),
                completed_indices(self.events_spec()),
            ) {
                Some(p) => r matches PendingAction::ExecuteStep { step_index, step_id } && step_index == p.0
                    && step_id@ == p.1,
                None => r is AwaitingInput,
            },
    {
        let mut k: usize = 0;
        while k < self.events.len()
            invariant
                k <= self.events@.len(),
                forall|j: int| 0 <= j < k ==> !(#[trigger] self.events@[j] is RunCompleted),
            decreases self.events@.len() - k,
        {
            match &self.events[k] {
                DebugEvent::RunCompleted { .. } => {
                    assert(self.events_spec()[k as int] is RunCompleted);
                    return PendingAction::Complete;
                },
                _ => {},
            }
            k = k + 1;
        }
        assert(!has_run_completed(self.events_spec()));
        let completed = self.completed_step_indices();
        let ghost done = completed_indices(self.events@);
        let mut k: usize = 0;
        while k < self.events.len()
            invariant
                k <= self.events@.len(),
                !has_run_completed(self.events_spec()),
                done == completed_indices(self.events@),
                completed@ == done,
                first_pending(self.events@.take(k as int), done) is None,
            decreases self.events@.len() - k,
        {
            let ghost t = self.events@.take(k + 1);
            proof {
                assert(t.drop_last() =~= self.events@.take(k as int));
                assert(t.last() == self.events@[k as int]);
            }
            match &self.events[k] {
                DebugEvent::StepQueued { step_index, step_id } => {
                    if !completed.contains(step_index) {
                        proof {
                            assert(first_pending(t, done) == Some((*step_index, step_id@)));
                            lemma_first_pending_prefix(self.events@, done, k + 1);
                        }
                        let a = PendingAction::execute_step(*step_index, step_id.as_str());
                        assert(first_pending(self.events@, done) == first_pending(t, done));
                        assert(done == completed_indices(self.events_spec()));
                        assert(first_pending(self.events_spec(), completed_indices(self.events_spec())) == Some((*step_index, step_id@)));
                        return a;
                    }
                },
                _ => {},
            }
            k = k + 1;
        }
        proof {
            assert(self.events@.take(self.events@.len() as int) =~= self.events@);
        }
        PendingAction::AwaitingInput
    }
}

/// Once a prefix has a pending step, the whole sequence has the same first
/// pending step.
pub proof fn lemma_first_pending_prefix(events: Seq<DebugEvent>, done: Set<usize>, k: int)
    requires
        0 <= k <= events.len(),
        first_pending(events.take(k), done) is Some,
    ensures
        first_pending(events, done) == first_pending(events.take(k), done),
    decreases events.len() - k,
{
    if k < events.len() {
        let t = events.take(k + 1);
        assert(t.drop_last() =~= events.take(k));
        lemma_first_pending_prefix(events, done, k + 1);
    } else {
        assert(events.take(k) =~= events);
    }
}

} // verus!
