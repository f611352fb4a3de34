//! An ordered queue of ready tasks, kept sorted by a scheduling key.

use crate::task::Task;
use vstd::multiset::Multiset;
use vstd::prelude::*;

verus! {

/// The key a queue orders its tasks by.
#[derive(Debug, Clone, Copy, PartialEq, Eq, Structural)]
pub enum TaskOrder {
    /// By `(item_index, step_index)`: finish one item before the next.
    ItemFirst,
    /// By `(step_index, item_index)`: run one step across items before the next.
    StepFirst,
}

/// `a` comes no later than `b` under the order.
pub open spec fn task_le(o: TaskOrder, a: Task, b: Task) -> bool {
    match o {
        TaskOrder::ItemFirst => a.item_index < b.item_index || (a.item_index == b.item_index
            && a.step_index <= b.step_index),
        TaskOrder::StepFirst => a.step_index < b.step_index || (a.step_index == b.step_index
            && a.item_index <= b.item_index),
    }
}

/// `s` is in order.
pub open spec fn sorted_by(o: TaskOrder, s: Seq<Task>) -> bool {
    forall|i: int, j: int| 0 <= i < j < s.len() ==> task_le(o, #[trigger] s[i], #[trigger] s[j])
}

/// The order is total, and two tasks that come no later than each other are
/// the same task.
pub proof fn lemma_task_le_total(o: TaskOrder, a: Task, b: Task)
    ensures
        task_le(o, a, b) || task_le(o, b, a),
        task_le(o, a, b) && task_le(o, b, a) ==> a == b,
{
}

pub proof fn lemma_task_le_trans(o: TaskOrder, a: Task, b: Task, c: Task)
    requires
        task_le(o, a, b),
        task_le(o, b, c),
    ensures
        task_le(o, a, c),
{
}

/// Compares two tasks under the order.
fn task_le_exec(o: TaskOrder, a: Task, b: Task) -> (r: bool)
    ensures
        r == task_le(o, a, b),
{
    match o {
        TaskOrder::ItemFirst => a.item_index < b.item_index || (a.item_index == b.item_index
            && a.step_index <= b.step_index),
        TaskOrder::StepFirst => a.step_index < b.step_index || (a.step_index == b.step_index
            && a.item_index <= b.item_index),
    }
}

/// Ready tasks, in order.
pub struct TaskQueue {
    order: TaskOrder,
    tasks: Vec<Task>,
}

impl TaskQueue {
    /// The queued tasks, first to be handed out first.
    pub closed spec fn pending(&self) -> Seq<Task> {
        self.tasks@
    }

    pub closed spec fn order(&self) -> TaskOrder {
        self.order
    }

    pub open spec fn wf(&self) -> bool {
        sorted_by(self.order(), self.pending())
    }

    /// An empty queue with the given order.
    pub fn new(order: TaskOrder) -> (r: Self)
        ensures
            r.wf(),
            r.order() == order,
            r.pending() == Seq::<Task>::empty(),
    {
        TaskQueue { order, tasks: Vec::new() }
    }

    /// Adds a task after every queued task that comes no later than it.
    pub fn push(&mut self, t: Task)
        requires
            old(self).wf(),
        ensures
            final(self).wf(),
            final(self).order() == old(self).order(),
            final(self).pending().to_multiset() == old(self).pending().to_multiset().insert(t),
    {
        let o = self.order;
        let mut p: usize = 0;
        while p < self.tasks.len() && task_le_exec(o, self.tasks[p], t)
            invariant
                o == self.order,
                self == old(self),
                sorted_by(o, self.tasks@),
                p <= self.tasks@.len(),
                forall|i: int| 0 <= i < p ==> task_le(o, #[trigger] self.tasks@[i], t),
            decreases self.tasks@.len() - p,
        {
            p = p + 1;
        }
        let ghost old_tasks = self.tasks@;
        proof {
            // every task after position p comes strictly later than t
            assert forall|j: int| p <= j < old_tasks.len() implies task_le(o, t, #[trigger] old_tasks[j]) by {
                lemma_task_le_total(o, old_tasks[p as int], t);
                if j > p {
                    lemma_task_le_trans(o, t, old_tasks[p as int], old_tasks[j]);
                }
            }
        }
        self.tasks.insert(p, t);
        proof {
            broadcast use vstd::seq_lib::to_multiset_insert;
            assert(self.tasks@ == old_tasks.insert(p as int, t));
            assert forall|i: int, j: int| 0 <= i < j < self.tasks@.len() implies task_le(
                o,
                #[trigger] self.tasks@[i],
                #[trigger] self.tasks@[j],
            ) by {
                if j < p {
                } else if j == p {
                } else if i < p {
                    lemma_task_le_trans(o, old_tasks[i], t, old_tasks[j - 1]);
                } else if i == p {
                } else {
                }
            }
        }
    }

    /// Adds every task of `tasks`.
    pub fn push_all(&mut self, tasks: &[Task])
        requires
            old(self).wf(),
        ensures
            final(self).wf(),
            final(self).order() == old(self).order(),
            final(self).pending().to_multiset() == old(self).pending().to_multiset().add(
                tasks@.to_multiset(),
            ),
    {
        let mut k: usize = 0;
        proof {
            broadcast use vstd::seq_lib::group_to_multiset_ensures;
            assert(tasks@.take(0) =~= Seq::<Task>::empty());
            assert(Seq::<Task>::empty().to_multiset() =~= Multiset::<Task>::empty());
            assert(old(self).pending().to_multiset().add(tasks@.take(0).to_multiset()) =~= old(self).pending().to_multiset());
        }
        while k < tasks.len()
            invariant
                self.wf(),
                self.order() == old(self).order(),
                k <= tasks@.len(),
                self.pending().to_multiset() == old(self).pending().to_multiset().add(
                    tasks@.take(k as int).to_multiset(),
                ),
            decreases tasks@.len() - k,
        {
            self.push(tasks[k]);
            proof {
                broadcast use vstd::seq_lib::to_multiset_build;
                assert(tasks@.take(k + 1) =~= tasks@.take(k as int).push(tasks@[k as int]));
                assert(self.pending().to_multiset() =~= old(self).pending().to_multiset().add(
                    tasks@.take(k + 1).to_multiset(),
                ));
            }
            k = k + 1;
        }
        proof {
            assert(tasks@.take(tasks@.len() as int) =~= tasks@);
        }
    }

    /// Removes and returns the first `min(max_tasks, len)` tasks, in order.
    pub fn take_first(&mut self, max_tasks: usize) -> (r: Vec<Task>)
        requires
            old(self).wf(),
        ensures
            final(self).wf(),
            final(self).order() == old(self).order(),
            ({
                let k = if max_tasks < old(self).pending().len() {
                    max_tasks as int
                } else {
                    old(self).pending().len() as int
                };
                &&& r@ == old(self).pending().take(k)
                &&& final(self).pending() == old(self).pending().skip(k)
            }),
    {
        let k = if max_tasks < self.tasks.len() {
            max_tasks
        } else {
            self.tasks.len()
        };
        let mut taken = self.tasks.split_off(k);
        std::mem::swap(&mut taken, &mut self.tasks);
        proof {
            assert(taken@ =~= old(self).tasks@.take(k as int));
            assert(self.tasks@ =~= old(self).tasks@.skip(k as int));
        }
        taken
    }

    /// Removes every task.
    pub fn clear(&mut self)
        ensures
            final(self).wf(),
            final(self).order() == old(self).order(),
            final(self).pending() == Seq::<Task>::empty(),
    {
        self.tasks.clear();
    }
}

} // verus!
