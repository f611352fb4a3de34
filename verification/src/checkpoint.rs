//! Checkpoints: snapshots of execution state at a journal position, so that
//! recovery replays only the journal events after it.

use crate::flow::FlowResult;
use crate::item_state::ItemView;
use crate::run_state::RunState;
use vstd::prelude::*;

verus! {

/// Current checkpoint format version.
pub const CHECKPOINT_VERSION: u32 = 1;

/// Checkpoint of a single item's execution state.
pub struct ItemCheckpoint {
    /// Indices of completed steps, increasing.
    pub completed: Vec<usize>,
    /// `(step_index, result)` for completed steps, in the order of `completed`.
    pub results: Vec<(usize, FlowResult)>,
    /// Indices of needed steps, increasing.
    pub needed: Vec<usize>,
    /// `(step_index, dependencies)` for steps that wait on something, by
    /// increasing step index; each dependency list increasing.
    pub waiting_on: Vec<(usize, Vec<usize>)>,
    /// Attempt count of every step.
    pub attempts: Vec<u32>,
}

/// Checkpoint of a single run's state.
pub struct RunCheckpoint {
    pub run_id: u128,
    pub flow_id: String,
    pub root_run_id: u128,
    pub parent_run_id: Option<u128>,
    pub inputs: Vec<serde_json::Value>,
    pub variables: Vec<(String, serde_json::Value)>,
    pub items: Vec<ItemCheckpoint>,
}

/// A single entry of the sub-flow deduplication map.
#[derive(Debug, Clone, Copy, PartialEq, Eq, Structural)]
pub struct SubflowMapping {
    pub parent_run_id: u128,
    pub item_index: u32,
    pub step_index: usize,
    pub subflow_key: u128,
    pub subflow_run_id: u128,
}

/// Serializable checkpoint of execution state at a journal position.
pub struct CheckpointData {
    /// Format version.
    pub version: u32,
    /// Journal sequence number this checkpoint reflects.
    pub sequence: u64,
    /// State of each run of the execution tree.
    pub runs: Vec<RunCheckpoint>,
    /// Sub-flow deduplication map entries.
    pub subflow_map: Vec<SubflowMapping>,
}

/// Why a stored checkpoint cannot be used.
pub enum CheckpointDeserializeError {
    /// The bytes do not decode.
    Decode { message: String },
    /// The checkpoint was written in another format version.
    VersionMismatch { expected: u32, actual: u32 },
}

impl CheckpointData {
    /// Capture a checkpoint of the execution tree at a journal position: the
    /// checkpoint of every run, ordered by run ID so that the same state
    /// always gives the same checkpoint, and every entry of the sub-flow
    /// deduplication map.
    pub fn capture(
        runs: &Vec<RunState>,
        subflow_map: &Vec<((u128, u32, usize, u128), u128)>,
        sequence: u64,
    ) -> (r: CheckpointData)
        requires
            forall|j: int| 0 <= j < runs@.len() ==> #[trigger] runs@[j].wf(),
        ensures
            r.version == CHECKPOINT_VERSION,
            r.sequence == sequence,
            runs_sorted(r.runs@),
            forall|i: int| 0 <= i < r.runs@.len() ==> #[trigger] captured_from(r.runs@[i], runs@),
            forall|j: int| 0 <= j < runs@.len() ==> #[trigger] has_run(r.runs@, runs@[j].run_id_spec()),
            r.subflow_map@ == subflow_map@.map_values(|e: ((u128, u32, usize, u128), u128)| mapping_of(e)),
    {
        let mut out: Vec<RunCheckpoint> = Vec::new();
        let mut last: Option<u128> = None;
        proof {
            reveal(all_captured);
            reveal(covers_upto);
        }
        loop
            invariant
                forall|j: int| 0 <= j < runs@.len() ==> #[trigger] runs@[j].wf(),
                runs_sorted(out@),
                last is None <==> out@.len() == 0,
                last matches Some(l) ==> l == out@.last().run_id,
                all_captured(out@, runs@),
                covers_upto(out@, runs@, last),
            ensures
                runs_sorted(out@),
                all_captured(out@, runs@),
                covers_upto(out@, runs@, Some(u128::MAX)),
            decreases (match last { Some(l) => u128::MAX - l, None => u128::MAX + 1 }),
        {
            let best = next_run_above(runs, last);
            match best {
                None => {
                    proof {
                        lemma_covers_all(out@, runs@, last);
                    }
                    break;
                },
                Some(b) => {
                    let cp = runs[b].to_checkpoint();
                    let id = cp.run_id;
                    proof {
                        lemma_capture_step(out@, runs@, last, b as int, cp);
                    }
                    out.push(cp);
                    last = Some(id);
                },
            }
        }
        proof {
            reveal(all_captured);
            reveal(covers_upto);
        }
        let mappings = mappings_of(subflow_map);
        CheckpointData { version: CHECKPOINT_VERSION, sequence, runs: out, subflow_map: mappings }
    }

    /// The position of the first run checkpoint of run `run_id`.
    pub fn find_run(&self, run_id: u128) -> (r: Option<usize>)
        ensures
            match r {
                Some(k) => k < self.runs@.len() && self.runs@[k as int].run_id == run_id && forall|j: int|
                    0 <= j < k ==> #[trigger] self.runs@[j].run_id != run_id,
                None => forall|j: int| 0 <= j < self.runs@.len() ==> #[trigger] self.runs@[j].run_id != run_id,
            },
    {
        let mut k: usize = 0;
        while k < self.runs.len()
            invariant
                k <= self.runs@.len(),
                forall|j: int| 0 <= j < k ==> #[trigger] self.runs@[j].run_id != run_id,
            decreases self.runs@.len() - k,
        {
            if self.runs[k].run_id == run_id {
                return Some(k);
            }
            k = k + 1;
        }
        None
    }

    /// Accept a decoded checkpoint only if it has the current format
    /// version.
    pub fn check_version(self) -> (r: Result<CheckpointData, CheckpointDeserializeError>)
        ensures
            self.version == CHECKPOINT_VERSION ==> r == Ok::<CheckpointData, CheckpointDeserializeError>(self),
            self.version != CHECKPOINT_VERSION ==> r == Err::<CheckpointData, CheckpointDeserializeError>(
                CheckpointDeserializeError::VersionMismatch { expected: CHECKPOINT_VERSION, actual: self.version },
            ),
    {
        if self.version != CHECKPOINT_VERSION {
            let actual = self.version;
            return Err(CheckpointDeserializeError::VersionMismatch { expected: CHECKPOINT_VERSION, actual });
        }
        Ok(self)
    }
}

/// `s` is strictly increasing.
pub open spec fn strictly_increasing(s: Seq<usize>) -> bool {
    forall|i: int, j: int| 0 <= i < j < s.len() ==> s[i] < s[j]
}

/// Every element of `s` is below `n`.
pub open spec fn all_below(s: Seq<usize>, n: nat) -> bool {
    forall|i: int| 0 <= i < s.len() ==> #[trigger] s[i] < n
}

/// The result recorded for step `s` (the last entry for it).
pub open spec fn result_for(entries: Seq<(usize, FlowResult)>, s: usize) -> Option<FlowResult>
    decreases entries.len(),
{
    if entries.len() == 0 {
        None
    } else if entries.last().0 == s {
        Some(entries.last().1)
    } else {
        result_for(entries.drop_last(), s)
    }
}

/// What step `s` waits on (the last entry for it; nothing without one).
pub open spec fn waits_for(entries: Seq<(usize, Vec<usize>)>, s: usize) -> Set<usize>
    decreases entries.len(),
{
    if entries.len() == 0 {
        Set::empty()
    } else if entries.last().0 == s {
        entries.last().1@.to_set()
    } else {
        waits_for(entries.drop_last(), s)
    }
}

/// The checkpoint of an item of a flow with `n` steps is well formed.
pub open spec fn item_checkpoint_valid(cp: ItemCheckpoint, n: nat) -> bool {
    &&& strictly_increasing(cp.completed@)
    &&& all_below(cp.completed@, n)
    &&& cp.results@.len() == cp.completed@.len()
    &&& forall|k: int| 0 <= k < cp.results@.len() ==> (#[trigger] cp.results@[k]).0 == cp.completed@[k]
    &&& strictly_increasing(cp.needed@)
    &&& all_below(cp.needed@, n)
    &&& strictly_increasing(cp.waiting_on@.map_values(|e: (usize, Vec<usize>)| e.0))
    &&& forall|k: int| 0 <= k < cp.waiting_on@.len() ==> (#[trigger] cp.waiting_on@[k]).0 < n
    &&& forall|k: int|
        0 <= k < cp.waiting_on@.len() ==> strictly_increasing((#[trigger] cp.waiting_on@[k]).1@)
            && all_below(cp.waiting_on@[k].1@, n)
    &&& cp.attempts@.len() == n
}

/// The item state a checkpoint describes. Nothing is executing.
pub open spec fn checkpoint_item_view(cp: ItemCheckpoint, n: nat) -> ItemView {
    ItemView {
        num_steps: n,
        needed: cp.needed@.to_set(),
        completed: cp.completed@.to_set(),
        executing: Set::empty(),
        waiting_on: Seq::new(n, |s: int| waits_for(cp.waiting_on@, s as usize)),
        results: Seq::new(n, |s: int| result_for(cp.results@, s as usize)),
        attempts: cp.attempts@,
    }
}

/// The entries of the sub-flow deduplication map, in order.
fn mappings_of(subflow_map: &Vec<((u128, u32, usize, u128), u128)>) -> (r: Vec<SubflowMapping>)
    ensures
        r@ == subflow_map@.map_values(|e: ((u128, u32, usize, u128), u128)| mapping_of(e)),
{
    let mut mappings: Vec<SubflowMapping> = Vec::new();
    let mut k: usize = 0;
    while k < subflow_map.len()
        invariant
            k <= subflow_map@.len(),
            mappings@ == subflow_map@.take(k as int).map_values(|e: ((u128, u32, usize, u128), u128)| mapping_of(e)),
        decreases subflow_map@.len() - k,
    {
        let ((parent_run_id, item_index, step_index, subflow_key), subflow_run_id) = subflow_map[k];
        mappings.push(SubflowMapping { parent_run_id, item_index, step_index, subflow_key, subflow_run_id });
        proof {
            assert(subflow_map@.take(k + 1).map_values(|e: ((u128, u32, usize, u128), u128)| mapping_of(e)) =~= subflow_map@.take(
                k as int,
            ).map_values(|e: ((u128, u32, usize, u128), u128)| mapping_of(e)).push(mapping_of(subflow_map@[k as int])));
        }
        k = k + 1;
    }
    proof {
        assert(subflow_map@.take(subflow_map@.len() as int) =~= subflow_map@);
    }
    mappings
}

/// Every checkpoint in `out` is the capture of one of `runs`.
#[verifier::opaque]
pub open spec fn all_captured(out: Seq<RunCheckpoint>, runs: Seq<RunState>) -> bool {
    forall|i: int| 0 <= i < out.len() ==> #[trigger] captured_from(out[i], runs)
}

/// `cp` is the capture of one of `runs`.
pub open spec fn captured_from(cp: RunCheckpoint, runs: Seq<RunState>) -> bool {
    exists|j: int| 0 <= j < runs.len() && #[trigger] run_captured(cp, runs[j])
}

/// Every run whose ID is at most `last` has a checkpoint in `out`.
#[verifier::opaque]
pub open spec fn covers_upto(out: Seq<RunCheckpoint>, runs: Seq<RunState>, last: Option<u128>) -> bool {
    forall|j: int|
        0 <= j < runs.len() && id_at_most(runs[j].run_id_spec(), last) ==> #[trigger] has_run(out, runs[j].run_id_spec())
}

/// Some checkpoint in `out` is of run `id`.
pub open spec fn has_run(out: Seq<RunCheckpoint>, id: u128) -> bool {
    exists|i: int| 0 <= i < out.len() && #[trigger] out[i].run_id == id
}

proof fn lemma_covers_all(out: Seq<RunCheckpoint>, runs: Seq<RunState>, last: Option<u128>)
    requires
        covers_upto(out, runs, last),
        forall|k: int| 0 <= k < runs.len() ==> id_at_most(#[trigger] runs[k].run_id_spec(), last),
    ensures
        covers_upto(out, runs, Some(u128::MAX)),
{
    reveal(covers_upto);
    assert forall|j: int|
        0 <= j < runs.len() && id_at_most(runs[j].run_id_spec(), Some(u128::MAX)) implies #[trigger] has_run(
            out,
            runs[j].run_id_spec(),
        ) by {
        assert(id_at_most(runs[j].run_id_spec(), last));
    }
}

proof fn lemma_capture_step(out: Seq<RunCheckpoint>, runs: Seq<RunState>, last: Option<u128>, b: int, cp: RunCheckpoint)
    requires
        0 <= b < runs.len(),
        run_captured(cp, runs[b]),
        cp.run_id == runs[b].run_id_spec(),
        last matches Some(l) ==> runs[b].run_id_spec() > l,
        forall|k: int|
            0 <= k < runs.len() ==> id_at_most(#[trigger] runs[k].run_id_spec(), last)
                || runs[b].run_id_spec() <= runs[k].run_id_spec(),
        runs_sorted(out),
        last is None <==> out.len() == 0,
        last matches Some(l) ==> l == out.last().run_id,
        all_captured(out, runs),
        covers_upto(out, runs, last),
    ensures
        runs_sorted(out.push(cp)),
        all_captured(out.push(cp), runs),
        covers_upto(out.push(cp), runs, Some(cp.run_id)),
{
    reveal(all_captured);
    reveal(covers_upto);
    let o = out.push(cp);
    assert forall|i: int| 0 <= i < out.len() implies #[trigger] o[i] == out[i] by {}
    assert(captured_from(cp, runs));
    assert forall|i: int| 0 <= i < o.len() implies #[trigger] captured_from(o[i], runs) by {
        if i < out.len() {
            assert(o[i] == out[i]);
        }
    }
    assert forall|k: int|
        0 <= k < runs.len() && id_at_most(runs[k].run_id_spec(), Some(cp.run_id)) implies #[trigger] has_run(
            o,
            runs[k].run_id_spec(),
        ) by {
        if id_at_most(runs[k].run_id_spec(), last) {
            assert(has_run(out, runs[k].run_id_spec()));
            let i0 = choose|i: int| 0 <= i < out.len() && #[trigger] out[i].run_id == runs[k].run_id_spec();
            assert(o[i0] == out[i0]);
        } else {
            assert(o[out.len() as int].run_id == runs[k].run_id_spec());
        }
    }
    assert forall|i: int, j: int| 0 <= i < j < o.len() implies o[i].run_id < o[j].run_id by {
        if j == out.len() {
            if let Some(l) = last {
                assert(out[i].run_id <= l);
            }
        }
    }
}

/// `id` is at most `last`; nothing is at most `None`.
pub open spec fn id_at_most(id: u128, last: Option<u128>) -> bool {
    match last {
        Some(l) => id <= l,
        None => false,
    }
}

/// The run with the smallest ID above `last` (any run when `last` is
/// `None`), if there is one.
fn next_run_above(runs: &Vec<RunState>, last: Option<u128>) -> (r: Option<usize>)
    ensures
        r is None ==> forall|k: int|
            0 <= k < runs@.len() ==> id_at_most(#[trigger] runs@[k].run_id_spec(), last),
        r matches Some(b) ==> {
            &&& b < runs@.len()
            &&& last matches Some(l) ==> runs@[b as int].run_id_spec() > l
            &&& forall|k: int|
                0 <= k < runs@.len() ==> id_at_most(#[trigger] runs@[k].run_id_spec(), last)
                    || runs@[b as int].run_id_spec() <= runs@[k].run_id_spec()
        },
{
    let n = runs.len();
    let mut best: Option<usize> = None;
    let mut j: usize = 0;
    while j < n
        invariant
            n == runs@.len(),
            j <= n,
            best matches Some(b) ==> b < j && (last matches Some(l) ==> runs@[b as int].run_id_spec() > l),
            best is None ==> forall|k: int| 0 <= k < j ==> id_at_most(#[trigger] runs@[k].run_id_spec(), last),
            best matches Some(b) ==> forall|k: int|
                0 <= k < j ==> id_at_most(#[trigger] runs@[k].run_id_spec(), last)
                    || runs@[b as int].run_id_spec() <= runs@[k].run_id_spec(),
        decreases n - j,
    {
        let id = runs[j].run_id();
        let above = match last {
            Some(l) => id > l,
            None => true,
        };
        if above {
            match best {
                Some(b) => {
                    if id < runs[b].run_id() {
                        best = Some(j);
                    }
                },
                None => {
                    best = Some(j);
                },
            }
        }
        j = j + 1;
    }
    best
}

/// `cp` is the checkpoint of run `st`: its identity, inputs and variables,
/// and the checkpoint of each of its items.
#[verifier::opaque]
pub open spec fn run_captured(cp: RunCheckpoint, st: RunState) -> bool {
    let items = st.items().items_spec();
    &&& cp.run_id == st.run_id_spec()
    &&& cp.flow_id@ == st.flow_id_spec()
    &&& cp.root_run_id == st.root_run_id_spec()
    &&& cp.parent_run_id == st.parent_run_id_spec()
    &&& cp.variables@ == st.items().variables_spec()
    &&& cp.inputs@.len() == items.len()
    &&& cp.items@.len() == items.len()
    &&& forall|i: int| 0 <= i < cp.inputs@.len() ==> #[trigger] cp.inputs@[i] == items[i].input_spec()
    &&& forall|i: int|
        0 <= i < cp.items@.len() ==> {
            &&& item_checkpoint_valid(#[trigger] cp.items@[i], items[i]@.num_steps)
            &&& checkpoint_item_view(cp.items@[i], items[i]@.num_steps) == (ItemView {
                executing: Set::<usize>::empty(),
                ..items[i]@
            })
        }
}

/// The runs of a checkpoint come in strictly increasing run-ID order.
pub open spec fn runs_sorted(runs: Seq<RunCheckpoint>) -> bool {
    forall|i: int, j: int| 0 <= i < j < runs.len() ==> runs[i].run_id < runs[j].run_id
}

/// The entry of the sub-flow map for `(parent, item, step, key) -> run`.
pub open spec fn mapping_of(e: ((u128, u32, usize, u128), u128)) -> SubflowMapping {
    SubflowMapping {
        parent_run_id: e.0.0,
        item_index: e.0.1,
        step_index: e.0.2,
        subflow_key: e.0.3,
        subflow_run_id: e.1,
    }
}

} // verus!
