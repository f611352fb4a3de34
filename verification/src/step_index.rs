//! Lookup from step ids to step indices.

use crate::flow::{lookup_name, step_names, Flow};
use vstd::prelude::*;

verus! {

/// Step index mapping for execution tracking: the number of steps of a flow
/// and the index that each step id names.
pub struct StepIndex {
    num_steps: usize,
    names: Vec<String>,
}

impl StepIndex {
    /// The step ids, in step order.
    pub closed spec fn names(&self) -> Seq<Seq<char>> {
        self.names@.map_values(|s: String| s@)
    }

    pub closed spec fn wf(&self) -> bool {
        self.num_steps == self.names@.len()
    }

    /// Create a step index from a flow's steps.
    pub fn from_flow(flow: &Flow) -> (r: Self)
        ensures
            r.wf(),
            r.names() == step_names(flow.steps@),
    {
        let n = flow.steps.len();
        let mut names: Vec<String> = Vec::new();
        let mut i: usize = 0;
        while i < n
            invariant
                n == flow.steps@.len(),
                i <= n,
                names@.len() == i,
                forall|j: int| 0 <= j < i ==> #[trigger] names@[j]@ == flow.steps@[j].id@,
            decreases n - i,
        {
            names.push(flow.steps[i].id.clone());
            i = i + 1;
        }
        let r = StepIndex { num_steps: n, names };
        assert(r.names() =~= step_names(flow.steps@));
        r
    }

    /// Get the number of steps.
    pub fn num_steps(&self) -> (r: usize)
        requires
            self.wf(),
        ensures
            r == self.names().len(),
    {
        self.num_steps
    }

    /// Get the index of a step by its id: the last step with that id.
    pub fn step_index(&self, name: &str) -> (r: Option<usize>)
        requires
            self.wf(),
        ensures
            r == lookup_name(self.names(), name@),
    {
        let key: String = name.to_owned();
        let mut i: usize = self.names.len();
        assert(self.names().take(i as int) =~= self.names());
        while i > 0
            invariant
                i <= self.names@.len(),
                key@ == name@,
                lookup_name(self.names(), name@) == lookup_name(self.names().take(i as int), name@),
            decreases i,
        {
            let ghost prefix = self.names().take(i as int);
            assert(prefix.drop_last() =~= self.names().take(i - 1));
            if self.names[i - 1] == key {
                return Some(i - 1);
            }
            i = i - 1;
        }
        assert(self.names().take(0) =~= Seq::<Seq<char>>::empty());
        None
    }
}

} // verus!
