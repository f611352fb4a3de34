//! Per-item execution state: which steps are needed, executing and completed,
//! what each step still waits for, and the results of completed steps.

use std::sync::Arc;

use crate::bitset::{
    bit_members, bitset_clone, bitset_contains, bitset_difference_with, bitset_insert,
    bitset_is_empty, bitset_is_subset, bitset_new, bitset_remove, bitset_to_vec,
    bitset_with_capacity, bitset_clear, lemma_seq_to_set, lemma_take_contains, lemma_bounded_set_len,
};
use crate::deps::{
    lemma_expr_refs_bound, lemma_reach_closed, lemma_reach_outside_base, lemma_reach_self,
    lemma_reach_step, lemma_reach_trans, reach_set, step_deps, DepGraph,
};
use crate::flow::{
    expr_refs, fields_refs, lemma_lookup_name_bound, members_refs, step_names, Flow, FlowResult, Step, ValueExpr,
};
use crate::step_index::StepIndex;
use crate::checkpoint::{
    all_below, checkpoint_item_view, item_checkpoint_valid, result_for, strictly_increasing,
    waits_for, ItemCheckpoint,
};
use bit_set::BitSet;
use vstd::prelude::*;

verus! {

/// The abstract state of an item.
pub struct ItemView {
    pub num_steps: nat,
    pub needed: Set<usize>,
    pub completed: Set<usize>,
    pub executing: Set<usize>,
    /// For each step, the steps it waits for before it is evaluated again.
    pub waiting_on: Seq<Set<usize>>,
    /// For each step, its result once completed.
    pub results: Seq<Option<FlowResult>>,
    /// For each step, how many times it has been attempted.
    pub attempts: Seq<u32>,
}

/// The steps that are ready: needed, not executing, not completed, and
/// waiting for nothing.
pub open spec fn ready_set(v: ItemView) -> Set<usize> {
    Set::new(
        |s: usize|
            s < v.num_steps && v.needed.contains(s) && !v.executing.contains(s)
                && !v.completed.contains(s) && v.waiting_on[s as int] == Set::<usize>::empty(),
    )
}

/// Every needed step has completed.
pub open spec fn view_complete(v: ItemView) -> bool {
    v.needed.subset_of(v.completed)
}

/// The steps whose only remaining wait is on `step`.
pub open spec fn unblocked_by(v: ItemView, step: usize) -> Set<usize> {
    Set::new(
        |w: usize|
            w < v.num_steps && v.waiting_on[w as int].contains(step) && v.waiting_on[w as int].remove(
                step,
            ) == Set::<usize>::empty(),
    )
}

/// The state after `step` completes with `result`. A step that had already
/// completed only stops executing.
pub open spec fn completed_view(v: ItemView, step: usize, result: FlowResult) -> ItemView {
    if v.completed.contains(step) {
        ItemView { executing: v.executing.remove(step), ..v }
    } else {
        ItemView {
            executing: v.executing.remove(step),
            completed: v.completed.insert(step),
            results: v.results.update(step as int, Some(result)),
            waiting_on: Seq::new(v.waiting_on.len(), |w: int| v.waiting_on[w].remove(step)),
            ..v
        }
    }
}

/// The state after asking for step `s`: every step reachable from `s` through
/// steps not yet needed becomes needed, and each of them, with `s`, now waits
/// for its uncompleted dependencies.
pub open spec fn added_view(v: ItemView, g: DepGraph, s: usize) -> ItemView {
    let r = reach_set(g, v.needed, s);
    ItemView {
        needed: v.needed.union(r),
        waiting_on: Seq::new(
            v.waiting_on.len(),
            |i: int|
                if r.contains(i as usize) {
                    step_deps(g, i as usize)
                } else {
                    v.waiting_on[i]
                },
        ),
        ..v
    }
}

/// The names of a list of (name, value) pairs.
pub open spec fn pair_names(s: Seq<(String, serde_json::Value)>) -> Set<Seq<char>> {
    Set::new(|name: Seq<char>| exists|j: int| 0 <= j < s.len() && (#[trigger] s[j]).0@ == name)
}

/// Execution state for a single item in a batch.
///
/// The value named `name` in a list of named values: the first one.
pub open spec fn named_value(vars: Seq<(String, serde_json::Value)>, name: Seq<char>) -> Option<serde_json::Value>
    decreases vars.len(),
{
    if vars.len() == 0 {
        None
    } else if vars[0].0@ == name {
        Some(vars[0].1)
    } else {
        named_value(vars.drop_first(), name)
    }
}

/// The value named `name`, the first one.
pub fn find_named(vars: &Vec<(String, serde_json::Value)>, name: &String) -> (r: Option<serde_json::Value>)
    ensures
        r == named_value(vars@, name@),
{
    let mut i: usize = 0;
    proof {
        assert(vars@.skip(0) =~= vars@);
    }
    while i < vars.len()
        invariant
            i <= vars@.len(),
            named_value(vars@.skip(i as int), name@) == named_value(vars@, name@),
        decreases vars@.len() - i,
    {
        proof {
            assert(vars@.skip(i as int).drop_first() =~= vars@.skip(i + 1));
            assert(vars@.skip(i as int)[0] == vars@[i as int]);
        }
        if vars[i].0 == *name {
            return Some(vars[i].1.clone());
        }
        i = i + 1;
    }
    proof {
        assert(vars@.skip(i as int) =~= Seq::<(String, serde_json::Value)>::empty());
    }
    None
}

/// Tracks which steps have completed, which are waiting on dependencies,
/// and caches step results.
pub struct ItemState {
    flow: Arc<Flow>,
    step_index: Arc<StepIndex>,
    executing: BitSet,
    completed: BitSet,
    results: Vec<Option<FlowResult>>,
    needed: BitSet,
    waiting_on: Vec<BitSet>,
    waiters: Vec<BitSet>,
    attempts: Vec<u32>,
    input: serde_json::Value,
    variables: Arc<Vec<(String, serde_json::Value)>>,
}

impl View for ItemState {
    type V = ItemView;

    closed spec fn view(&self) -> ItemView {
        ItemView {
            num_steps: self.flow.steps@.len(),
            needed: bit_members(self.needed),
            completed: bit_members(self.completed),
            executing: bit_members(self.executing),
            waiting_on: Seq::new(
                self.waiting_on@.len(),
                |i: int| bit_members(self.waiting_on@[i]),
            ),
            results: self.results@,
            attempts: self.attempts@,
        }
    }
}

impl ItemState {
    /// The state of a new item of a flow with `n` steps.
    pub open spec fn initial_view(n: nat) -> ItemView {
        ItemView {
            num_steps: n,
            needed: Set::empty(),
            completed: Set::empty(),
            executing: Set::empty(),
            waiting_on: Seq::new(n, |i: int| Set::<usize>::empty()),
            results: Seq::new(n, |i: int| None::<FlowResult>),
            attempts: Seq::new(n, |i: int| 0u32),
        }
    }

    /// The flow of the item.
    pub closed spec fn flow_spec(&self) -> Flow {
        *self.flow
    }

    /// The item's input.
    pub closed spec fn input_spec(&self) -> serde_json::Value {
        self.input
    }

    /// The variables given to the item.
    pub closed spec fn variables_spec(&self) -> Seq<(String, serde_json::Value)> {
        self.variables@
    }

    /// The variables that have a value, given or defaulted by the flow.
    pub open spec fn defined_names(&self) -> Set<Seq<char>> {
        pair_names(self.variables_spec()).union(pair_names(self.flow_spec().variable_defaults@))
    }

    /// What dependency discovery reads of the item.
    pub open spec fn graph(&self) -> DepGraph {
        DepGraph {
            names: step_names(self.flow_spec().steps@),
            inputs: self.flow_spec().steps@.map_values(|s: Step| s.input),
            defined: self.defined_names(),
            completed: self@.completed,
        }
    }

    /// Everything but the execution state is the same in `self` and `other`.
    pub open spec fn same_context(&self, other: &ItemState) -> bool {
        &&& self.flow_spec() == other.flow_spec()
        &&& self.input_spec() == other.input_spec()
        &&& self.variables_spec() == other.variables_spec()
    }

    pub closed spec fn wf(&self) -> bool {
        let n = self.flow.steps@.len();
        &&& n < usize::MAX
        &&& self.step_index.wf()
        &&& self.step_index.names() == step_names(self.flow.steps@)
        &&& self.waiting_on@.len() == n
        &&& self.waiters@.len() == n
        &&& self.results@.len() == n
        &&& self.attempts@.len() == n
        &&& forall|s: usize| #[trigger] bit_members(self.needed).contains(s) ==> s < n
        &&& forall|s: usize| #[trigger] bit_members(self.completed).contains(s) ==> s < n
        &&& forall|s: usize| #[trigger] bit_members(self.executing).contains(s) ==> s < n
        &&& forall|i: int, s: usize|
            0 <= i < n && #[trigger] bit_members(self.waiting_on@[i]).contains(s) ==> s < n
        &&& forall|i: int, s: usize|
            0 <= i < n && #[trigger] bit_members(self.waiters@[i]).contains(s) ==> s < n
        &&& forall|i: usize, j: usize|
            i < n && j < n ==> (#[trigger] bit_members(self.waiters@[i as int]).contains(j)
                <==> #[trigger] bit_members(self.waiting_on@[j as int]).contains(i))
        &&& forall|i: int|
            0 <= i < n ==> (#[trigger] self.results@[i] is Some <==> bit_members(
                self.completed,
            ).contains(i as usize))
    }

    /// Facts that every well-formed item has.
    pub proof fn lemma_wf(&self)
        requires
            self.wf(),
        ensures
            self@.num_steps < usize::MAX,
            self@.waiting_on.len() == self@.num_steps,
            self@.results.len() == self@.num_steps,
            self@.num_steps == self.flow_spec().steps@.len(),
            forall|s: usize| #[trigger] self@.needed.contains(s) ==> s < self@.num_steps,
            forall|s: usize| #[trigger] self@.completed.contains(s) ==> s < self@.num_steps,
            forall|s: usize| #[trigger] self@.executing.contains(s) ==> s < self@.num_steps,
            forall|i: int, s: usize|
                0 <= i < self@.num_steps && #[trigger] self@.waiting_on[i].contains(s) ==> s
                    < self@.num_steps,
            forall|i: int|
                0 <= i < self@.num_steps ==> (#[trigger] self@.results[i] is Some
                    <==> self@.completed.contains(i as usize)),
    {
        assert(self.step_index.names().len() == self.flow.steps@.len());
    }

    /// Create a new item state for executing a flow with the given input.
    pub fn new(
        flow: Arc<Flow>,
        input: serde_json::Value,
        variables: Arc<Vec<(String, serde_json::Value)>>,
    ) -> (r: Self)
        requires
            flow.steps@.len() < usize::MAX,
        ensures
            r.wf(),
            r.flow_spec() == *flow,
            r.input_spec() == input,
            r.variables_spec() == variables@,
            r@ == Self::initial_view(flow.steps@.len()),
    {
        let step_index = Arc::new(StepIndex::from_flow(&flow));
        let num_steps = step_index.num_steps();
        let mut results: Vec<Option<FlowResult>> = Vec::new();
        let mut waiting_on: Vec<BitSet> = Vec::new();
        let mut waiters: Vec<BitSet> = Vec::new();
        let mut attempts: Vec<u32> = Vec::new();
        let mut i: usize = 0;
        while i < num_steps
            invariant
                i <= num_steps,
                results@.len() == i,
                waiting_on@.len() == i,
                waiters@.len() == i,
                attempts@.len() == i,
                forall|j: int| 0 <= j < i ==> #[trigger] attempts@[j] == 0,
                forall|j: int| 0 <= j < i ==> #[trigger] results@[j] is None,
                forall|j: int| 0 <= j < i ==> #[trigger] bit_members(waiting_on@[j]) == Set::<usize>::empty(),
                forall|j: int| 0 <= j < i ==> #[trigger] bit_members(waiters@[j]) == Set::<usize>::empty(),
            decreases num_steps - i,
        {
            results.push(None);
            waiting_on.push(bitset_new());
            waiters.push(bitset_new());
            attempts.push(0);
            i = i + 1;
        }
        let r = ItemState {
            flow,
            step_index,
            executing: bitset_with_capacity(num_steps),
            completed: bitset_with_capacity(num_steps),
            results,
            needed: bitset_with_capacity(num_steps),
            waiting_on,
            waiters,
            attempts,
            input,
            variables,
        };
        assert(r@.waiting_on =~= Seq::new(r.flow.steps@.len(), |i: int| Set::<usize>::empty()));
        assert(r@.results =~= Seq::new(r.flow.steps@.len(), |i: int| None::<FlowResult>));
        assert(r@.attempts =~= Seq::new(r.flow.steps@.len(), |i: int| 0u32));
        r
    }

    /// Get the flow for this item.
    pub fn flow(&self) -> (r: &Arc<Flow>)
        ensures
            **r == self.flow_spec(),
    {
        &self.flow
    }

    /// Get the step index for this item.
    pub fn step_index_map(&self) -> (r: &Arc<StepIndex>)
        requires
            self.wf(),
        ensures
            r.wf(),
            r.names() == step_names(self.flow_spec().steps@),
    {
        &self.step_index
    }

    /// Get the number of steps in this item's flow.
    pub fn num_steps(&self) -> (r: usize)
        requires
            self.wf(),
        ensures
            r == self@.num_steps,
    {
        self.step_index.num_steps()
    }

    /// Add a step to the needed set.
    pub fn mark_needed(&mut self, step_index: usize)
        requires
            old(self).wf(),
            step_index < old(self)@.num_steps,
        ensures
            final(self).wf(),
            final(self).same_context(old(self)),
            final(self)@ == (ItemView { needed: old(self)@.needed.insert(step_index), ..old(self)@ }),
    {
        bitset_insert(&mut self.needed, step_index);
        proof {
            assert(self@.waiting_on =~= old(self)@.waiting_on);
        }
    }

    /// Set what a step is waiting on for re-evaluation (a set built, for
    /// instance, by `bitset_from_indices`).
    pub fn set_waiting(&mut self, step: usize, waiting: BitSet)
        requires
            old(self).wf(),
            step < old(self)@.num_steps,
            forall|s: usize| #[trigger] bit_members(waiting).contains(s) ==> s < old(self)@.num_steps,
        ensures
            final(self).wf(),
            final(self).same_context(old(self)),
            final(self)@ == (ItemView {
                waiting_on: old(self)@.waiting_on.update(step as int, bit_members(waiting)),
                ..old(self)@
            }),
    {
        proof {
            self.lemma_wf();
        }
        let n = self.step_index.num_steps();
        let old_list = bitset_to_vec(&self.waiting_on[step]);
        let ghost old_waiting = bit_members(self.waiting_on@[step as int]);
        proof {
            lemma_seq_to_set(old_list@);
            assert forall|j: int| 0 <= j < old_list@.len() implies #[trigger] old_list@[j] < n by {
                assert(old_waiting.contains(old_list@[j]));
            }
        }
        let mut k: usize = 0;
        while k < old_list.len()
            invariant
                n == self.flow.steps@.len(),
                step < n,
                k <= old_list@.len(),
                old_list@.to_set() == old_waiting,
                self.waiters@.len() == n,
                self.waiting_on == old(self).waiting_on,
                self.flow == old(self).flow,
                self.step_index == old(self).step_index,
                self.needed == old(self).needed,
                self.completed == old(self).completed,
                self.executing == old(self).executing,
                self.results == old(self).results,
                self.input == old(self).input,
                self.variables == old(self).variables,
                self.attempts == old(self).attempts,
                forall|i: usize, s: usize|
                    i < n ==> (#[trigger] bit_members(self.waiters@[i as int]).contains(s) <==> (
                        bit_members(old(self).waiters@[i as int]).contains(s)
                            && !(s == step && old_list@.take(k as int).contains(i)))),
                forall|j: int| 0 <= j < old_list@.len() ==> #[trigger] old_list@[j] < n,
            decreases old_list@.len() - k,
        {
            let w = old_list[k];
            bitset_remove(&mut self.waiters[w], step);
            proof {
                assert forall|i: usize| #[trigger] old_list@.take(k + 1).contains(i) <==> (
                    old_list@.take(k as int).contains(i) || old_list@[k as int] == i) by {
                    lemma_take_contains(old_list@, k as int, i);
                }
            }
            k = k + 1;
        }
        proof {
            assert(old_list@.take(old_list@.len() as int) =~= old_list@);
        }
        let new_list = bitset_to_vec(&waiting);
        proof {
            lemma_seq_to_set(new_list@);
            assert forall|j: int| 0 <= j < new_list@.len() implies #[trigger] new_list@[j] < n by {
                assert(bit_members(waiting).contains(new_list@[j]));
            }
        }
        let mut k: usize = 0;
        while k < new_list.len()
            invariant
                n == self.flow.steps@.len(),
                step < n,
                k <= new_list@.len(),
                new_list@.to_set() == bit_members(waiting),
                old_list@.to_set() == old_waiting,
                self.waiters@.len() == n,
                self.waiting_on == old(self).waiting_on,
                self.flow == old(self).flow,
                self.step_index == old(self).step_index,
                self.needed == old(self).needed,
                self.completed == old(self).completed,
                self.executing == old(self).executing,
                self.results == old(self).results,
                self.input == old(self).input,
                self.variables == old(self).variables,
                self.attempts == old(self).attempts,
                forall|i: usize, s: usize|
                    i < n ==> (#[trigger] bit_members(self.waiters@[i as int]).contains(s) <==> (
                        (bit_members(old(self).waiters@[i as int]).contains(s)
                            && !(s == step && old_waiting.contains(i)))
                        || (s == step && new_list@.take(k as int).contains(i)))),
                forall|j: int| 0 <= j < new_list@.len() ==> #[trigger] new_list@[j] < n,
            decreases new_list@.len() - k,
        {
            let w = new_list[k];
            bitset_insert(&mut self.waiters[w], step);
            proof {
                assert forall|i: usize| #[trigger] new_list@.take(k + 1).contains(i) <==> (
                    new_list@.take(k as int).contains(i) || new_list@[k as int] == i) by {
                    lemma_take_contains(new_list@, k as int, i);
                }
            }
            k = k + 1;
        }
        proof {
            assert(new_list@.take(new_list@.len() as int) =~= new_list@);
        }
        self.waiting_on.set(step, waiting);
        proof {
            assert(self@.waiting_on =~= old(self)@.waiting_on.update(step as int, bit_members(waiting)));
        }
    }

    /// Clear a step's waiting set.
    pub fn clear_waiting(&mut self, step: usize)
        requires
            old(self).wf(),
            step < old(self)@.num_steps,
        ensures
            final(self).wf(),
            final(self).same_context(old(self)),
            final(self)@ == (ItemView {
                waiting_on: old(self)@.waiting_on.update(step as int, Set::<usize>::empty()),
                ..old(self)@
            }),
    {
        self.set_waiting(step, bitset_new());
    }

    /// Mark a step as currently executing.
    pub fn mark_executing(&mut self, step: usize)
        requires
            old(self).wf(),
            step < old(self)@.num_steps,
        ensures
            final(self).wf(),
            final(self).same_context(old(self)),
            final(self)@ == (ItemView { executing: old(self)@.executing.insert(step), ..old(self)@ }),
    {
        bitset_insert(&mut self.executing, step);
        proof {
            assert(self@.waiting_on =~= old(self)@.waiting_on);
        }
    }

    /// Mark a step as completed with its result.
    ///
    /// Returns the set of steps that became newly unblocked: those whose only
    /// remaining wait was on this step. A step that had already completed only
    /// stops executing, and nothing is unblocked.
    pub fn mark_completed(&mut self, step: usize, result: FlowResult) -> (r: BitSet)
        requires
            old(self).wf(),
            step < old(self)@.num_steps,
        ensures
            final(self).wf(),
            final(self).same_context(old(self)),
            final(self)@ == completed_view(old(self)@, step, result),
            bit_members(r) == (if old(self)@.completed.contains(step) {
                Set::<usize>::empty()
            } else {
                unblocked_by(old(self)@, step)
            }),
    {
        proof {
            self.lemma_wf();
        }
        let n = self.step_index.num_steps();
        bitset_remove(&mut self.executing, step);
        if !bitset_insert(&mut self.completed, step) {
            proof {
                assert(self@.waiting_on =~= old(self)@.waiting_on);
                assert(bit_members(self.completed) =~= bit_members(old(self).completed));
            }
            return bitset_new();
        }
        self.results.set(step, Some(result));
        let list = bitset_to_vec(&self.waiters[step]);
        bitset_clear(&mut self.waiters[step]);
        let ghost old_waiters = bit_members(old(self).waiters@[step as int]);
        proof {
            lemma_seq_to_set(list@);
            assert forall|j: int| 0 <= j < list@.len() implies #[trigger] list@[j] < n by {
                assert(old_waiters.contains(list@[j]));
            }
        }
        let mut newly = bitset_new();
        let mut k: usize = 0;
        while k < list.len()
            invariant
                n == self.flow.steps@.len(),
                n == old(self).flow.steps@.len(),
                step < n,
                k <= list@.len(),
                list@.to_set() == old_waiters,
                forall|j: int| 0 <= j < list@.len() ==> #[trigger] list@[j] < n,
                forall|i: int, j: int| 0 <= i < j < list@.len() ==> list@[i] < list@[j],
                self.waiting_on@.len() == n,
                self.waiters@ == old(self).waiters@.update(step as int, self.waiters@[step as int]),
                bit_members(self.waiters@[step as int]) == Set::<usize>::empty(),
                self.waiters@.len() == n,
                self.flow == old(self).flow,
                self.step_index == old(self).step_index,
                self.needed == old(self).needed,
                bit_members(self.completed) == bit_members(old(self).completed).insert(step),
                bit_members(self.executing) == bit_members(old(self).executing).remove(step),
                self.results@ == old(self).results@.update(step as int, Some(result)),
                self.input == old(self).input,
                self.variables == old(self).variables,
                self.attempts == old(self).attempts,
                forall|w: usize|
                    w < n ==> #[trigger] bit_members(self.waiting_on@[w as int]) == (if list@.take(
                        k as int,
                    ).contains(w) {
                        bit_members(old(self).waiting_on@[w as int]).remove(step)
                    } else {
                        bit_members(old(self).waiting_on@[w as int])
                    }),
                forall|w: usize|
                    #[trigger] bit_members(newly).contains(w) <==> (list@.take(k as int).contains(w)
                        && bit_members(old(self).waiting_on@[w as int]).remove(step)
                        == Set::<usize>::empty()),
            decreases list@.len() - k,
        {
            let w = list[k];
            bitset_remove(&mut self.waiting_on[w], step);
            if bitset_is_empty(&self.waiting_on[w]) {
                bitset_insert(&mut newly, w);
            }
            proof {
                assert forall|x: usize| #[trigger] list@.take(k + 1).contains(x) <==> (
                    list@.take(k as int).contains(x) || list@[k as int] == x) by {
                    lemma_take_contains(list@, k as int, x);
                }
                assert forall|x: usize| list@.take(k as int).contains(x) implies x != w by {
                    let j = choose|j: int| 0 <= j < k && #[trigger] list@.take(k as int)[j] == x;
                    assert(list@[j] == x);
                }
            }
            k = k + 1;
        }
        proof {
            assert(list@.take(list@.len() as int) =~= list@);
            // the waiters of `step` are exactly the steps waiting on it
            assert forall|w: usize| w < n implies (#[trigger] list@.contains(w) <==> bit_members(
                old(self).waiting_on@[w as int],
            ).contains(step)) by {
                assert(list@.contains(w) <==> list@.to_set().contains(w));
            }
            assert(self@.waiting_on =~= Seq::new(
                old(self)@.waiting_on.len(),
                |w: int| old(self)@.waiting_on[w].remove(step),
            )) by {
                assert forall|w: int| 0 <= w < n implies #[trigger] self@.waiting_on[w] == old(
                    self,
                )@.waiting_on[w].remove(step) by {
                    let wu = w as usize;
                    assert(list@.contains(wu) <==> list@.to_set().contains(wu));
                    if !list@.contains(wu) {
                        assert(old(self)@.waiting_on[w].remove(step) =~= old(self)@.waiting_on[w]);
                    }
                }
            }
            assert(bit_members(newly) =~= unblocked_by(old(self)@, step)) by {
                assert forall|w: usize| #[trigger] bit_members(newly).contains(w) <==> unblocked_by(
                    old(self)@,
                    step,
                ).contains(w) by {
                    if bit_members(newly).contains(w) {
                        assert(list@.contains(w));
                        assert(list@.to_set().contains(w));
                        assert(w < n);
                    }
                    if unblocked_by(old(self)@, step).contains(w) {
                        assert(list@.contains(w) <==> list@.to_set().contains(w));
                    }
                }
            }
            assert forall|i: usize, j: usize| i < n && j < n implies (#[trigger] bit_members(
                self.waiters@[i as int],
            ).contains(j) <==> #[trigger] bit_members(self.waiting_on@[j as int]).contains(i)) by {
                assert(list@.contains(j) <==> list@.to_set().contains(j));
                if i != step {
                    assert(self.waiters@[i as int] == old(self).waiters@[i as int]);
                }
            }
            assert forall|i: int, x: usize|
                0 <= i < n && #[trigger] bit_members(self.waiting_on@[i]).contains(x) implies x < n by {
                assert(bit_members(old(self).waiting_on@[i]).contains(x));
            }
            assert forall|i: int, x: usize|
                0 <= i < n && #[trigger] bit_members(self.waiters@[i]).contains(x) implies x < n by {
                if i != step {
                    assert(self.waiters@[i] == old(self).waiters@[i]);
                }
            }
            assert forall|i: int| 0 <= i < n implies (#[trigger] self.results@[i] is Some
                <==> bit_members(self.completed).contains(i as usize)) by {
                if i != step {
                    assert(old(self).results@[i] is Some <==> bit_members(old(self).completed).contains(i as usize));
                }
            }
        }
        newly
    }

    /// Get the set of steps that are ready to execute.
    ///
    /// A step is ready if it is needed, not executing, not completed,
    /// and has no waiting dependencies.
    pub fn ready_steps(&self) -> (r: BitSet)
        requires
            self.wf(),
        ensures
            bit_members(r) == ready_set(self@),
    {
        proof {
            self.lemma_wf();
        }
        let mut ready = bitset_clone(&self.needed);
        bitset_difference_with(&mut ready, &self.executing);
        bitset_difference_with(&mut ready, &self.completed);
        let list = bitset_to_vec(&ready);
        proof {
            lemma_seq_to_set(list@);
        }
        let mut out = bitset_new();
        let mut k: usize = 0;
        while k < list.len()
            invariant
                self.wf(),
                k <= list@.len(),
                list@.to_set() == bit_members(ready),
                bit_members(ready) == self@.needed.difference(self@.executing).difference(self@.completed),
                forall|x: usize|
                    #[trigger] bit_members(out).contains(x) <==> (list@.take(k as int).contains(x)
                        && self@.waiting_on[x as int] == Set::<usize>::empty()),
            decreases list@.len() - k,
        {
            let s = list[k];
            proof {
                assert(list@.to_set().contains(s));
                assert(self@.needed.contains(s));
            }
            if bitset_is_empty(&self.waiting_on[s]) {
                bitset_insert(&mut out, s);
            }
            proof {
                assert forall|x: usize| #[trigger] list@.take(k + 1).contains(x) <==> (
                    list@.take(k as int).contains(x) || list@[k as int] == x) by {
                    lemma_take_contains(list@, k as int, x);
                }
            }
            k = k + 1;
        }
        proof {
            assert(list@.take(list@.len() as int) =~= list@);
            assert forall|x: usize| #[trigger] bit_members(out).contains(x) <==> ready_set(self@).contains(x) by {
                assert(list@.contains(x) <==> list@.to_set().contains(x));
            }
            assert(bit_members(out) =~= ready_set(self@));
        }
        out
    }

    /// Check if all needed steps have completed.
    pub fn is_complete(&self) -> (r: bool)
        ensures
            r == view_complete(self@),
    {
        bitset_is_subset(&self.needed, &self.completed)
    }

    /// Check if a step has been marked as needed.
    pub fn is_needed(&self, step: usize) -> (r: bool)
        ensures
            r == self@.needed.contains(step),
    {
        bitset_contains(&self.needed, step)
    }

    /// Check if a step has completed execution.
    pub fn is_completed(&self, step: usize) -> (r: bool)
        ensures
            r == self@.completed.contains(step),
    {
        bitset_contains(&self.completed, step)
    }

    /// Get the result for a completed step.
    pub fn get_step_result(&self, step: usize) -> (r: Option<&FlowResult>)
        requires
            self.wf(),
        ensures
            r == (if step < self@.num_steps {
                match self@.results[step as int] {
                    Some(v) => Some(&v),
                    None => None,
                }
            } else {
                None
            }),
    {
        if step < self.results.len() {
            match &self.results[step] {
                Some(v) => Some(v),
                None => None,
            }
        } else {
            None
        }
    }

    /// Get a reference to the input value.
    pub fn input(&self) -> (r: &serde_json::Value)
        ensures
            *r == self.input_spec(),
    {
        &self.input
    }

    /// The value of a variable: the one given to the item, else the flow's
    /// default, else none.
    pub fn get_variable(&self, name: &String) -> (r: Option<serde_json::Value>)
        ensures
            r == (match named_value(self.variables_spec(), name@) {
                Some(v) => Some(v),
                None => named_value(self.flow_spec().variable_defaults@, name@),
            }),
    {
        match find_named(&self.variables, name) {
            Some(v) => Some(v),
            None => find_named(&self.flow.variable_defaults, name),
        }
    }

    /// Whether a variable has a value: given to the item, or defaulted by the flow.
    pub fn has_variable(&self, name: &String) -> (r: bool)
        ensures
            r == self.defined_names().contains(name@),
    {
        let vars: &Vec<(String, serde_json::Value)> = &self.variables;
        let mut i: usize = 0;
        while i < vars.len()
            invariant
                vars@ == self.variables_spec(),
                i <= vars@.len(),
                forall|j: int| 0 <= j < i ==> #[trigger] vars@[j].0@ != name@,
            decreases vars@.len() - i,
        {
            if vars[i].0 == *name {
                proof {
                    assert(vars@[i as int].0@ == name@);
                }
                return true;
            }
            i = i + 1;
        }
        let defaults: &Vec<(String, serde_json::Value)> = &self.flow.variable_defaults;
        let mut i: usize = 0;
        while i < defaults.len()
            invariant
                defaults@ == self.flow_spec().variable_defaults@,
                i <= defaults@.len(),
                forall|j: int| 0 <= j < i ==> #[trigger] defaults@[j].0@ != name@,
            decreases defaults@.len() - i,
        {
            if defaults[i].0 == *name {
                proof {
                    assert(defaults@[i as int].0@ == name@);
                }
                return true;
            }
            i = i + 1;
        }
        false
    }

    /// Adds to `acc` the uncompleted steps that `e` refers to.
    fn collect_refs(&self, e: &ValueExpr, acc: &mut BitSet)
        requires
            self.wf(),
        ensures
            bit_members(*final(acc)) == bit_members(*old(acc)).union(
                expr_refs(*e, self.graph().names, self.graph().defined).difference(self@.completed),
            ),
        decreases e,
    {
        proof {
            self.lemma_wf();
        }
        match e {
            ValueExpr::Literal(_) => {
                assert(bit_members(*acc) =~= bit_members(*old(acc)).union(Set::<usize>::empty().difference(self@.completed)));
            },
            ValueExpr::Input { .. } => {
                assert(bit_members(*acc) =~= bit_members(*old(acc)).union(Set::<usize>::empty().difference(self@.completed)));
            },
            ValueExpr::Variable { variable, default } => {
                if self.has_variable(variable) {
                    assert(bit_members(*acc) =~= bit_members(*old(acc)).union(Set::<usize>::empty().difference(self@.completed)));
                } else {
                    match default {
                        Some(d) => {
                            self.collect_refs(&**d, acc);
                        },
                        None => {
                            assert(bit_members(*acc) =~= bit_members(*old(acc)).union(Set::<usize>::empty().difference(self@.completed)));
                        },
                    }
                }
            },
            ValueExpr::Step { step, .. } => {
                let found = self.step_index.step_index(step.as_str());
                proof {
                    lemma_lookup_name_bound(self.graph().names, step@);
                }
                match found {
                    Some(i) => {
                        if !bitset_contains(&self.completed, i) {
                            bitset_insert(acc, i);
                        }
                        assert(bit_members(*acc) =~= bit_members(*old(acc)).union(Set::<usize>::empty().insert(i).difference(self@.completed)));
                    },
                    None => {
                        assert(bit_members(*acc) =~= bit_members(*old(acc)).union(Set::<usize>::empty().difference(self@.completed)));
                    },
                }
            },
            ValueExpr::Object(fields) => {
                let ghost names = self.graph().names;
                let ghost defined = self.graph().defined;
                let mut i: usize = 0;
                assert(fields@.take(0) =~= Seq::<(String, ValueExpr)>::empty());
                assert(bit_members(*acc) =~= bit_members(*old(acc)).union(fields_refs(fields@.take(0), names, defined).difference(self@.completed)));
                while i < fields.len()
                    invariant
                        self.wf(),
                        *e == ValueExpr::Object(*fields),
                        names == self.graph().names,
                        defined == self.graph().defined,
                        i <= fields@.len(),
                        bit_members(*acc) == bit_members(*old(acc)).union(
                            fields_refs(fields@.take(i as int), names, defined).difference(self@.completed)),
                    decreases fields@.len() - i,
                {
                    proof {
                        assert(*fields == (*e)->Object_0);
                        assert(decreases_to!(*e => (*e)->Object_0));
                        assert(decreases_to!(*fields => fields@));
                        assert(decreases_to!(fields@ => fields@[i as int]));
                        assert(decreases_to!(fields@[i as int] => fields@[i as int].1));
                        assert(decreases_to!(*e => fields@[i as int].1));
                    }
                    self.collect_refs(&fields[i].1, acc);
                    proof {
                        let t = fields@.take(i + 1);
                        assert(t.drop_last() =~= fields@.take(i as int));
                        assert(t.last() == fields@[i as int]);
                        assert(fields_refs(t, names, defined) == fields_refs(fields@.take(i as int), names, defined).union(expr_refs(fields@[i as int].1, names, defined)));
                        assert(bit_members(*acc) =~= bit_members(*old(acc)).union(
                            fields_refs(t, names, defined).difference(self@.completed)));
                    }
                    i = i + 1;
                }
                assert(fields@.take(fields@.len() as int) =~= fields@);
            },
            ValueExpr::Array(members) => {
                let ghost names = self.graph().names;
                let ghost defined = self.graph().defined;
                let mut i: usize = 0;
                assert(members@.take(0) =~= Seq::<ValueExpr>::empty());
                assert(bit_members(*acc) =~= bit_members(*old(acc)).union(members_refs(members@.take(0), names, defined).difference(self@.completed)));
                while i < members.len()
                    invariant
                        self.wf(),
                        *e == ValueExpr::Array(*members),
                        names == self.graph().names,
                        defined == self.graph().defined,
                        i <= members@.len(),
                        bit_members(*acc) == bit_members(*old(acc)).union(
                            members_refs(members@.take(i as int), names, defined).difference(self@.completed)),
                    decreases members@.len() - i,
                {
                    proof {
                        assert(*members == (*e)->Array_0);
                        assert(decreases_to!(*e => (*e)->Array_0));
                        assert(decreases_to!(*members => members@));
                        assert(decreases_to!(members@ => members@[i as int]));
                        assert(decreases_to!(*e => members@[i as int]));
                    }
                    self.collect_refs(&members[i], acc);
                    proof {
                        let t = members@.take(i + 1);
                        assert(t.drop_last() =~= members@.take(i as int));
                        assert(t.last() == members@[i as int]);
                        assert(members_refs(t, names, defined) == members_refs(members@.take(i as int), names, defined).union(expr_refs(members@[i as int], names, defined)));
                        assert(bit_members(*acc) =~= bit_members(*old(acc)).union(
                            members_refs(t, names, defined).difference(self@.completed)));
                    }
                    i = i + 1;
                }
                assert(members@.take(members@.len() as int) =~= members@);
            },
        }
    }

    /// The steps that `e` needs and that have not completed.
    pub fn needed_steps(&self, e: &ValueExpr) -> (r: BitSet)
        requires
            self.wf(),
        ensures
            bit_members(r) == expr_refs(*e, self.graph().names, self.graph().defined).difference(
                self@.completed,
            ),
    {
        let mut acc = bitset_new();
        self.collect_refs(e, &mut acc);
        assert(bit_members(acc) =~= expr_refs(*e, self.graph().names, self.graph().defined).difference(self@.completed));
        acc
    }

    /// The number of steps not yet needed.
    pub closed spec fn unneeded_count(&self) -> int {
        self@.num_steps - self@.needed.len()
    }

    /// Depth-first discovery from `x`. Steps that become needed here are
    /// reachable from `x` through steps outside `base`, and every one of them,
    /// with `x`, has all its dependencies needed on return.
    fn add_needed_recursive(&mut self, x: usize, newly: &mut BitSet, Ghost(base): Ghost<Set<usize>>)
        requires
            old(self).wf(),
            x < old(self)@.num_steps,
            base.subset_of(old(self)@.needed),
            bit_members(*old(newly)) == old(self)@.needed.difference(base),
        ensures
            final(self).wf(),
            final(self).same_context(old(self)),
            final(self)@.completed == old(self)@.completed,
            final(self)@.executing == old(self)@.executing,
            final(self)@.results == old(self)@.results,
            final(self)@.attempts == old(self)@.attempts,
            final(self)@.num_steps == old(self)@.num_steps,
            old(self)@.needed.insert(x).subset_of(final(self)@.needed),
            forall|v: usize|
                #[trigger] final(self)@.needed.contains(v) && !old(self)@.needed.contains(v)
                    ==> reach_set(old(self).graph(), base, x).contains(v),
            forall|v: usize, d: usize|
                (v == x || (final(self)@.needed.contains(v) && !old(self)@.needed.contains(v)))
                    && #[trigger] step_deps(old(self).graph(), v).contains(d)
                    ==> final(self)@.needed.contains(d),
            forall|i: int|
                0 <= i < old(self)@.num_steps ==> #[trigger] final(self)@.waiting_on[i] == (if i == x
                    || (final(self)@.needed.contains(i as usize) && !old(self)@.needed.contains(
                    i as usize,
                )) {
                    step_deps(old(self).graph(), i as usize)
                } else {
                    old(self)@.waiting_on[i]
                }),
            bit_members(*final(newly)) == final(self)@.needed.difference(base),
        decreases old(self).unneeded_count(), (if old(self)@.needed.contains(x) {
            1int
        } else {
            0int
        }),
    {
        proof {
            self.lemma_wf();
            lemma_bounded_set_len(self@.needed, self@.needed, self@.num_steps as usize);
            lemma_expr_refs_bound(self.graph().inputs[x as int], self.graph().names, self.graph().defined);
        }
        let ghost g = self.graph();
        let ghost s0 = self@;
        let ghost n = self@.num_steps;
        let is_new = !bitset_contains(&self.needed, x);
        self.mark_needed(x);
        if is_new {
            bitset_insert(newly, x);
        }
        let mut deps = bitset_new();
        self.collect_refs(&self.flow.steps[x].input, &mut deps);
        proof {
            assert(bit_members(deps) =~= step_deps(g, x));
            lemma_reach_self(g, base, x);
        }
        if bitset_is_empty(&deps) {
            self.clear_waiting(x);
            proof {
                assert(self@.needed =~= s0.needed.insert(x));
                assert(bit_members(*newly) =~= self@.needed.difference(base));
            }
            return;
        }
        let list = bitset_to_vec(&deps);
        proof {
            lemma_seq_to_set(list@);
            assert forall|j: int| 0 <= j < list@.len() implies #[trigger] list@[j] < n by {
                assert(step_deps(g, x).contains(list@[j]));
            }
        }
        self.set_waiting(x, deps);
        let mut k: usize = 0;
        while k < list.len()
            invariant
                self.wf(),
                self.same_context(old(self)),
                self.graph() == g,
                self@.completed == s0.completed,
                self@.executing == s0.executing,
                self@.results == s0.results,
                self@.attempts == s0.attempts,
                self@.num_steps == n,
                n == s0.num_steps,
                s0 == old(self)@,
                g == old(self).graph(),
                x < n,
                base.subset_of(s0.needed),
                k <= list@.len(),
                list@.to_set() == step_deps(g, x),
                forall|j: int| 0 <= j < list@.len() ==> #[trigger] list@[j] < n,
                s0.needed.insert(x).subset_of(self@.needed),
                forall|j: int| 0 <= j < k ==> self@.needed.contains(#[trigger] list@[j]),
                forall|v: usize|
                    #[trigger] self@.needed.contains(v) && !s0.needed.contains(v) ==> reach_set(
                        g,
                        base,
                        x,
                    ).contains(v),
                forall|v: usize, d: usize|
                    (v != x && self@.needed.contains(v) && !s0.needed.contains(v))
                        && #[trigger] step_deps(g, v).contains(d) ==> self@.needed.contains(d),
                forall|i: int|
                    0 <= i < n ==> #[trigger] self@.waiting_on[i] == (if i == x || (
                    self@.needed.contains(i as usize) && !s0.needed.contains(i as usize)) {
                        step_deps(g, i as usize)
                    } else {
                        s0.waiting_on[i]
                    }),
                bit_members(*newly) == self@.needed.difference(base),
            decreases list@.len() - k,
        {
            let d = list[k];
            proof {
                assert(list@.to_set().contains(d));
                assert(step_deps(g, x).contains(d));
            }
            if !self.is_completed(d) {
                if !bitset_contains(&self.needed, d) {
                    proof {
                        self.lemma_wf();
                        lemma_bounded_set_len(s0.needed, self@.needed, n as usize);
                        lemma_bounded_set_len(self@.needed, self@.needed, n as usize);
                        if !s0.needed.contains(x) {
                            assert(self@.needed.contains(x));
                        }
                    }
                    let ghost s1 = self@;
                    self.add_needed_recursive(d, newly, Ghost(base));
                    proof {
                        lemma_reach_self(g, base, x);
                        lemma_reach_step(g, base, x, x, d);
                        assert forall|v: usize|
                            #[trigger] self@.needed.contains(v) && !s0.needed.contains(v) implies reach_set(
                            g,
                            base,
                            x,
                        ).contains(v) by {
                            if !s1.needed.contains(v) {
                                lemma_reach_trans(g, base, x, d, v);
                            }
                        }
                    }
                }
            }
            k = k + 1;
        }
        proof {
            assert forall|dd: usize| #[trigger] step_deps(g, x).contains(dd) implies self@.needed.contains(dd) by {
                assert(list@.to_set().contains(dd));
                let j = choose|j: int| 0 <= j < list@.len() && list@[j] == dd;
                assert(self@.needed.contains(list@[j]));
            }
        }
    }

    /// Add a step as needed and recursively discover all transitively needed
    /// steps.
    ///
    /// Every step reachable from `step_idx` along uncompleted dependencies,
    /// without passing through a step that was already needed, becomes needed,
    /// and each of them, with `step_idx`, now waits for its uncompleted
    /// dependencies. Returns the steps that were not needed before.
    pub fn add_or_update_needed(&mut self, step_idx: usize) -> (r: BitSet)
        requires
            old(self).wf(),
            step_idx < old(self)@.num_steps,
        ensures
            final(self).wf(),
            final(self).same_context(old(self)),
            final(self)@ == added_view(old(self)@, old(self).graph(), step_idx),
            bit_members(r) == reach_set(old(self).graph(), old(self)@.needed, step_idx).difference(
                old(self)@.needed,
            ),
    {
        let ghost g = self.graph();
        let ghost s0 = self@;
        let mut newly = bitset_new();
        proof {
            assert(bit_members(newly) =~= s0.needed.difference(s0.needed));
        }
        self.add_needed_recursive(step_idx, &mut newly, Ghost(s0.needed));
        proof {
            let r = reach_set(g, s0.needed, step_idx);
            let c = self@.needed.difference(s0.needed).insert(step_idx);
            lemma_reach_self(g, s0.needed, step_idx);
            assert forall|v: usize, d: usize|
                c.contains(v) && #[trigger] step_deps(g, v).contains(d) && !s0.needed.contains(d) implies c.contains(d) by {
            }
            lemma_reach_closed(g, s0.needed, step_idx, c);
            assert forall|v: usize| #[trigger] r.contains(v) <==> c.contains(v) by {
                if r.contains(v) && v != step_idx {
                    lemma_reach_outside_base(g, s0.needed, step_idx, v);
                }
            }
            assert(self@.needed =~= s0.needed.union(r));
            assert(self@.waiting_on =~= added_view(s0, g, step_idx).waiting_on);
            assert(bit_members(newly) =~= r.difference(s0.needed));
        }
        newly
    }

    /// Record a new attempt of a step; returns the step's attempt count after
    /// it (the count stops at `u32::MAX`).
    pub fn record_attempt(&mut self, step: usize) -> (r: u32)
        requires
            old(self).wf(),
            step < old(self)@.num_steps,
        ensures
            final(self).wf(),
            final(self).same_context(old(self)),
            r == (if old(self)@.attempts[step as int] < u32::MAX {
                (old(self)@.attempts[step as int] + 1) as u32
            } else {
                old(self)@.attempts[step as int]
            }),
            final(self)@ == (ItemView { attempts: old(self)@.attempts.update(step as int, r), ..old(self)@ }),
    {
        proof {
            self.lemma_wf();
        }
        let a = self.attempts[step];
        let next = if a < u32::MAX {
            a + 1
        } else {
            a
        };
        self.attempts.set(step, next);
        proof {
            assert(self@.waiting_on =~= old(self)@.waiting_on);
        }
        next
    }

    /// Set a step's attempt count to the attempt recorded when its task
    /// started.
    pub fn set_attempt(&mut self, step: usize, attempt: u32)
        requires
            old(self).wf(),
            step < old(self)@.num_steps,
        ensures
            final(self).wf(),
            final(self).same_context(old(self)),
            final(self)@ == (ItemView { attempts: old(self)@.attempts.update(step as int, attempt), ..old(self)@ }),
    {
        proof {
            self.lemma_wf();
        }
        self.attempts.set(step, attempt);
        proof {
            assert(self@.waiting_on =~= old(self)@.waiting_on);
        }
    }

    /// The number of attempts of a step so far.
    pub fn attempt_count(&self, step: usize) -> (r: u32)
        requires
            self.wf(),
            step < self@.num_steps,
        ensures
            r == self@.attempts[step as int],
    {
        proof {
            self.lemma_wf();
        }
        self.attempts[step]
    }

    /// The needed steps, in increasing order.
    pub fn needed_step_indices(&self) -> (r: Vec<usize>)
        requires
            self.wf(),
        ensures
            r@ == crate::bitset::sorted_below(self@.needed, self@.num_steps),
    {
        proof {
            self.lemma_wf();
        }
        let list = bitset_to_vec(&self.needed);
        proof {
            crate::bitset::lemma_sorted_unique(list@, self@.needed, self@.num_steps);
        }
        list
    }

    /// Snapshot the item's state. Which steps are executing is not recorded:
    /// restored tasks are dispatched again.
    pub fn to_checkpoint(&self) -> (r: ItemCheckpoint)
        requires
            self.wf(),
        ensures
            item_checkpoint_valid(r, self@.num_steps),
            checkpoint_item_view(r, self@.num_steps) == (ItemView { executing: Set::<usize>::empty(), ..self@ }),
    {
        proof {
            self.lemma_wf();
        }
        let ghost v = self@;
        let n = self.step_index.num_steps();
        let completed = bitset_to_vec(&self.completed);
        proof {
            lemma_seq_to_set(completed@);
            assert forall|i: int| 0 <= i < completed@.len() implies #[trigger] completed@[i] < n by {
                assert(v.completed.contains(completed@[i]));
            }
        }
        let mut results: Vec<(usize, FlowResult)> = Vec::new();
        let mut k: usize = 0;
        while k < completed.len()
            invariant
                self.wf(),
                v == self@,
                n == v.num_steps,
                k <= completed@.len(),
                completed@.to_set() == v.completed,
                all_below(completed@, n as nat),
                results@.len() == k,
                forall|j: int| 0 <= j < k ==> (#[trigger] results@[j]).0 == completed@[j],
                forall|t: usize|
                    #[trigger] result_for(results@, t) == (if completed@.take(k as int).contains(t) {
                        v.results[t as int]
                    } else {
                        None
                    }),
            decreases completed@.len() - k,
        {
            let st = completed[k];
            proof {
                assert(completed@.to_set().contains(st));
                assert(v.results[st as int] is Some);
            }
            match &self.results[st] {
                Some(res) => {
                    let ghost before = results@;
                    let c = res.clone();
                    results.push((st, c));
                    proof {
                        assert(results@.drop_last() =~= before);
                        assert(results@.last() == (st, *res));
                        assert(v.results[st as int] == Some(*res));
                        assert forall|t: usize| #[trigger] result_for(results@, t) == (if completed@.take(k + 1).contains(t) {
                            v.results[t as int]
                        } else {
                            None
                        }) by {
                            lemma_take_contains(completed@, k as int, t);
                            if t == st {
                                assert(result_for(results@, t) == Some(*res));
                            } else {
                                assert(result_for(results@, t) == result_for(before, t));
                            }
                        }
                    }
                },
                None => {
                    assert(false);
                },
            }
            k = k + 1;
        }
        proof {
            assert(completed@.take(completed@.len() as int) =~= completed@);
        }
        let needed = bitset_to_vec(&self.needed);
        proof {
            lemma_seq_to_set(needed@);
            assert forall|i: int| 0 <= i < needed@.len() implies #[trigger] needed@[i] < n by {
                assert(v.needed.contains(needed@[i]));
            }
        }
        let mut waiting: Vec<(usize, Vec<usize>)> = Vec::new();
        let mut k: usize = 0;
        while k < n
            invariant
                self.wf(),
                v == self@,
                n == v.num_steps,
                k <= n,
                forall|j: int| 0 <= j < waiting@.len() ==> (#[trigger] waiting@[j]).0 < k,
                strictly_increasing(waiting@.map_values(|e: (usize, Vec<usize>)| e.0)),
                forall|j: int|
                    0 <= j < waiting@.len() ==> strictly_increasing((#[trigger] waiting@[j]).1@)
                        && all_below(waiting@[j].1@, n as nat),
                forall|t: usize|
                    #[trigger] waits_for(waiting@, t) == (if t < k {
                        v.waiting_on[t as int]
                    } else {
                        Set::<usize>::empty()
                    }),
            decreases n - k,
        {
            let empty = bitset_is_empty(&self.waiting_on[k]);
            proof {
                assert(v.waiting_on[k as int] == bit_members(self.waiting_on@[k as int]));
            }
            let ghost before_w = waiting@;
            if !empty {
                let list = bitset_to_vec(&self.waiting_on[k]);
                let ghost before = waiting@;
                proof {
                    lemma_seq_to_set(list@);
                    assert forall|i: int| 0 <= i < list@.len() implies #[trigger] list@[i] < n by {
                        assert(v.waiting_on[k as int].contains(list@[i]));
                    }
                }
                waiting.push((k, list));
                proof {
                    assert(waiting@.drop_last() =~= before);
                    assert(waiting@.last().0 == k);
                    assert(waiting@.last().1@.to_set() == v.waiting_on[k as int]);
                    assert forall|t: usize| #[trigger] waits_for(waiting@, t) == (if t < k + 1 {
                        v.waiting_on[t as int]
                    } else {
                        Set::<usize>::empty()
                    }) by {
                        if t == k {
                        } else {
                            assert(waits_for(waiting@, t) == waits_for(before, t));
                        }
                    }
                    let keys = waiting@.map_values(|e: (usize, Vec<usize>)| e.0);
                    assert forall|i: int, j: int| 0 <= i < j < keys.len() implies keys[i] < keys[j] by {
                        if j == keys.len() - 1 {
                            assert(before[i].0 < k);
                        } else {
                            let bkeys = before.map_values(|e: (usize, Vec<usize>)| e.0);
                            assert(bkeys[i] < bkeys[j]);
                        }
                    }
                }
            } else {
                proof {
                    assert forall|t: usize| #[trigger] waits_for(waiting@, t) == (if t < k + 1 {
                        v.waiting_on[t as int]
                    } else {
                        Set::<usize>::empty()
                    }) by {
                        assert(waits_for(waiting@, t) == waits_for(before_w, t));
                    }
                }
            }
            k = k + 1;
        }
        let r = ItemCheckpoint {
            completed,
            results,
            needed,
            waiting_on: waiting,
            attempts: self.attempts.clone(),
        };
        proof {
            assert(r.attempts@ =~= self.attempts@);
            assert(checkpoint_item_view(r, n as nat).waiting_on =~= v.waiting_on);
            assert forall|t: int| 0 <= t < n implies #[trigger] checkpoint_item_view(r, n as nat).results[t] == v.results[t] by {
                let tu = t as usize;
                assert(completed@.contains(tu) <==> completed@.to_set().contains(tu));
            }
            assert(checkpoint_item_view(r, n as nat).results =~= v.results);
        }
        r
    }

    /// Rebuild an item from its checkpoint. Fails, with a message, when the
    /// checkpoint is not well formed for the flow.
    pub fn from_checkpoint(
        cp: &ItemCheckpoint,
        flow: Arc<Flow>,
        input: serde_json::Value,
        variables: Arc<Vec<(String, serde_json::Value)>>,
    ) -> (r: Result<ItemState, String>)
        requires
            flow.steps@.len() < usize::MAX,
        ensures
            r is Ok <==> item_checkpoint_valid(*cp, flow.steps@.len()),
            r matches Ok(it) ==> {
                &&& it.wf()
                &&& it.flow_spec() == *flow
                &&& it.input_spec() == input
                &&& it.variables_spec() == variables@
                &&& it@ == checkpoint_item_view(*cp, flow.steps@.len())
            },
    {
        let n = flow.steps.len();
        if !item_checkpoint_is_valid(cp, n) {
            return Err("item checkpoint does not match the flow".to_owned());
        }
        let mut it = ItemState::new(flow, input, variables);
        let ghost init = it@;
        proof {
            assert(cp.completed@.take(0) =~= Seq::<usize>::empty());
            assert(cp.results@.take(0) =~= Seq::<(usize, FlowResult)>::empty());
            assert(it@.results =~= Seq::new(n as nat, |t: int| result_for(cp.results@.take(0), t as usize)));
            assert(it@.completed =~= cp.completed@.take(0).to_set());
        }
        let mut k: usize = 0;
        while k < cp.results.len()
            invariant
                it.wf(),
                it.flow_spec() == *flow,
                it.input_spec() == input,
                it.variables_spec() == variables@,
                n == it@.num_steps,
                item_checkpoint_valid(*cp, n as nat),
                k <= cp.results@.len(),
                it@ == (ItemView {
                    completed: cp.completed@.take(k as int).to_set(),
                    results: Seq::new(n as nat, |t: int| result_for(cp.results@.take(k as int), t as usize)),
                    ..init
                }),
                init == ItemState::initial_view(n as nat),
            decreases cp.results@.len() - k,
        {
            let st = cp.results[k].0;
            let res = cp.results[k].1.clone();
            proof {
                assert(cp.results@[k as int].0 == cp.completed@[k as int]);
                assert(!cp.completed@.take(k as int).contains(st)) by {
                    if cp.completed@.take(k as int).contains(st) {
                        let j = choose|j: int| 0 <= j < k && cp.completed@.take(k as int)[j] == st;
                        assert(cp.completed@[j] < cp.completed@[k as int]);
                    }
                }
                assert(cp.completed@.take(k as int).to_set().contains(st) <==> cp.completed@.take(k as int).contains(st));
            }
            it.mark_completed(st, res);
            proof {
                let tc = cp.completed@.take(k + 1);
                let tr = cp.results@.take(k + 1);
                assert(tc =~= cp.completed@.take(k as int).push(st));
                assert(tr.drop_last() =~= cp.results@.take(k as int));
                assert(tr.last() == cp.results@[k as int]);
                assert(it@.completed =~= tc.to_set()) by {
                    assert forall|x: usize| it@.completed.contains(x) <==> tc.to_set().contains(x) by {
                        lemma_take_contains(cp.completed@, k as int, x);
                        assert(tc.to_set().contains(x) <==> tc.contains(x));
                        assert(cp.completed@.take(k as int).to_set().contains(x) <==> cp.completed@.take(k as int).contains(x));
                    }
                }
                assert(it@.results =~= Seq::new(n as nat, |t: int| result_for(tr, t as usize)));
                assert(it@.executing =~= init.executing);
                assert forall|w: int| 0 <= w < n implies #[trigger] it@.waiting_on[w] == init.waiting_on[w] by {
                    assert(it@.waiting_on[w] =~= Set::<usize>::empty());
                }
                assert(it@.waiting_on =~= init.waiting_on);
            }
            k = k + 1;
        }
        proof {
            assert(cp.completed@.take(cp.completed@.len() as int) =~= cp.completed@);
            assert(cp.results@.take(cp.results@.len() as int) =~= cp.results@);
        }
        let mut k: usize = 0;
        let ghost v1 = it@;
        proof {
            assert(cp.needed@.take(0).to_set() =~= Set::<usize>::empty());
        }
        while k < cp.needed.len()
            invariant
                it.wf(),
                it.flow_spec() == *flow,
                it.input_spec() == input,
                it.variables_spec() == variables@,
                n == it@.num_steps,
                item_checkpoint_valid(*cp, n as nat),
                k <= cp.needed@.len(),
                it@ == (ItemView { needed: cp.needed@.take(k as int).to_set(), ..v1 }),
                v1.needed == Set::<usize>::empty(),
            decreases cp.needed@.len() - k,
        {
            let st = cp.needed[k];
            it.mark_needed(st);
            proof {
                let t = cp.needed@.take(k + 1);
                assert forall|x: usize| it@.needed.contains(x) <==> t.to_set().contains(x) by {
                    lemma_take_contains(cp.needed@, k as int, x);
                    assert(t.to_set().contains(x) <==> t.contains(x));
                    assert(cp.needed@.take(k as int).to_set().contains(x) <==> cp.needed@.take(k as int).contains(x));
                }
                assert(it@.needed =~= t.to_set());
            }
            k = k + 1;
        }
        proof {
            assert(cp.needed@.take(cp.needed@.len() as int) =~= cp.needed@);
        }
        let ghost v2 = it@;
        let mut k: usize = 0;
        proof {
            assert(cp.waiting_on@.take(0) =~= Seq::<(usize, Vec<usize>)>::empty());
            assert(it@.waiting_on =~= Seq::new(n as nat, |t: int| waits_for(cp.waiting_on@.take(0), t as usize)));
        }
        while k < cp.waiting_on.len()
            invariant
                it.wf(),
                it.flow_spec() == *flow,
                it.input_spec() == input,
                it.variables_spec() == variables@,
                n == it@.num_steps,
                item_checkpoint_valid(*cp, n as nat),
                k <= cp.waiting_on@.len(),
                it@ == (ItemView {
                    waiting_on: Seq::new(n as nat, |t: int| waits_for(cp.waiting_on@.take(k as int), t as usize)),
                    ..v2
                }),
            decreases cp.waiting_on@.len() - k,
        {
            let key = cp.waiting_on[k].0;
            let bs = bitset_from_list(&cp.waiting_on[k].1);
            proof {
                assert(all_below(cp.waiting_on@[k as int].1@, n as nat));
                lemma_seq_to_set(cp.waiting_on@[k as int].1@);
                assert forall|x: usize| #[trigger] bit_members(bs).contains(x) implies x < n by {
                    let j = choose|j: int| 0 <= j < cp.waiting_on@[k as int].1@.len() && cp.waiting_on@[k as int].1@[j] == x;
                    assert(cp.waiting_on@[k as int].1@[j] < n);
                }
            }
            it.set_waiting(key, bs);
            proof {
                let t = cp.waiting_on@.take(k + 1);
                assert(t.drop_last() =~= cp.waiting_on@.take(k as int));
                assert(t.last() == cp.waiting_on@[k as int]);
                assert(it@.waiting_on =~= Seq::new(n as nat, |u: int| waits_for(t, u as usize)));
            }
            k = k + 1;
        }
        proof {
            assert(cp.waiting_on@.take(cp.waiting_on@.len() as int) =~= cp.waiting_on@);
        }
        let mut attempts: Vec<u32> = Vec::new();
        let mut k: usize = 0;
        while k < cp.attempts.len()
            invariant
                k <= cp.attempts@.len(),
                attempts@ == cp.attempts@.take(k as int),
            decreases cp.attempts@.len() - k,
        {
            attempts.push(cp.attempts[k]);
            proof {
                assert(cp.attempts@.take(k + 1) =~= cp.attempts@.take(k as int).push(cp.attempts@[k as int]));
            }
            k = k + 1;
        }
        proof {
            assert(cp.attempts@.take(cp.attempts@.len() as int) =~= cp.attempts@);
        }
        it.attempts = attempts;
        proof {
            assert(it@.waiting_on =~= checkpoint_item_view(*cp, n as nat).waiting_on);
            assert(it@.results =~= checkpoint_item_view(*cp, n as nat).results);
        }
        Ok(it)
    }
}

/// A bit set holding the elements of `v`.
fn bitset_from_list(v: &Vec<usize>) -> (r: BitSet)
    requires
        forall|i: int| 0 <= i < v@.len() ==> #[trigger] v@[i] < usize::MAX,
    ensures
        bit_members(r) == v@.to_set(),
{
    let mut r = bitset_new();
    let mut k: usize = 0;
    while k < v.len()
        invariant
            k <= v@.len(),
            forall|i: int| 0 <= i < v@.len() ==> #[trigger] v@[i] < usize::MAX,
            bit_members(r) == v@.take(k as int).to_set(),
        decreases v@.len() - k,
    {
        bitset_insert(&mut r, v[k]);
        proof {
            assert forall|x: usize| bit_members(r).contains(x) <==> v@.take(k + 1).to_set().contains(x) by {
                lemma_take_contains(v@, k as int, x);
                assert(v@.take(k + 1).to_set().contains(x) <==> v@.take(k + 1).contains(x));
                assert(v@.take(k as int).to_set().contains(x) <==> v@.take(k as int).contains(x));
            }
            assert(bit_members(r) =~= v@.take(k + 1).to_set());
        }
        k = k + 1;
    }
    proof {
        assert(v@.take(v@.len() as int) =~= v@);
    }
    r
}

/// Whether `s` is strictly increasing with every element below `n`.
fn increasing_below(s: &Vec<usize>, n: usize) -> (r: bool)
    ensures
        r == (strictly_increasing(s@) && all_below(s@, n as nat)),
{
    let mut k: usize = 0;
    while k < s.len()
        invariant
            k <= s@.len(),
            strictly_increasing(s@.take(k as int)),
            all_below(s@.take(k as int), n as nat),
        decreases s@.len() - k,
    {
        if s[k] >= n {
            assert(!all_below(s@, n as nat));
            return false;
        }
        if k > 0 && s[k - 1] >= s[k] {
            assert(!strictly_increasing(s@));
            return false;
        }
        proof {
            let t = s@.take(k + 1);
            assert forall|i: int, j: int| 0 <= i < j < t.len() implies t[i] < t[j] by {
                if j == k && i < k - 1 {
                    assert(s@.take(k as int)[i] < s@.take(k as int)[k - 1]);
                }
            }
            assert forall|i: int| 0 <= i < t.len() implies #[trigger] t[i] < n by {
                if i < k {
                    assert(s@.take(k as int)[i] < n);
                }
            }
        }
        k = k + 1;
    }
    proof {
        assert(s@.take(s@.len() as int) =~= s@);
    }
    true
}

/// Whether a checkpoint is well formed for a flow with `n` steps.
pub fn item_checkpoint_is_valid(cp: &ItemCheckpoint, n: usize) -> (r: bool)
    ensures
        r == item_checkpoint_valid(*cp, n as nat),
{
    if !increasing_below(&cp.completed, n) || !increasing_below(&cp.needed, n) {
        return false;
    }
    if cp.results.len() != cp.completed.len() || cp.attempts.len() != n {
        return false;
    }
    let mut k: usize = 0;
    while k < cp.results.len()
        invariant
            k <= cp.results@.len(),
            cp.results@.len() == cp.completed@.len(),
            forall|j: int| 0 <= j < k ==> (#[trigger] cp.results@[j]).0 == cp.completed@[j],
        decreases cp.results@.len() - k,
    {
        if cp.results[k].0 != cp.completed[k] {
            return false;
        }
        k = k + 1;
    }
    let ghost keys = cp.waiting_on@.map_values(|e: (usize, Vec<usize>)| e.0);
    let mut k: usize = 0;
    while k < cp.waiting_on.len()
        invariant
            k <= cp.waiting_on@.len(),
            keys == cp.waiting_on@.map_values(|e: (usize, Vec<usize>)| e.0),
            strictly_increasing(keys.take(k as int)),
            forall|j: int| 0 <= j < k ==> (#[trigger] cp.waiting_on@[j]).0 < n,
            forall|j: int|
                0 <= j < k ==> strictly_increasing((#[trigger] cp.waiting_on@[j]).1@) && all_below(
                    cp.waiting_on@[j].1@,
                    n as nat,
                ),
        decreases cp.waiting_on@.len() - k,
    {
        let key = cp.waiting_on[k].0;
        if key >= n {
            return false;
        }
        if k > 0 && cp.waiting_on[k - 1].0 >= key {
            assert(keys[k - 1] >= keys[k as int]);
            return false;
        }
        if !increasing_below(&cp.waiting_on[k].1, n) {
            return false;
        }
        proof {
            let t = keys.take(k + 1);
            assert forall|i: int, j: int| 0 <= i < j < t.len() implies t[i] < t[j] by {
                if j == k && i < k - 1 {
                    assert(keys.take(k as int)[i] < keys.take(k as int)[k - 1]);
                }
            }
        }
        k = k + 1;
    }
    proof {
        assert(keys.take(keys.len() as int) =~= keys);
    }
    true
}

} // verus!
