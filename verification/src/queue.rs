//! The dependency-ordered priority queue of tasks scheduled by a bottom-up build.
use vstd::prelude::*;

use crate::graph::TopoOrder;
use crate::store::{Store, TaskNode};

verus! {

/// A set of scheduled task nodes, from which tasks are taken in reverse topological order: a task that other queued
/// tasks depend on comes out before them.
pub struct Queue {
    vec: Vec<TaskNode>,
}

/// Removing the element at `i` from a sequence without duplicates removes that element from its set.
proof fn lemma_swap_remove_set(s: Seq<TaskNode>, i: int)
    requires
        s.no_duplicates(),
        0 <= i < s.len(),
    ensures
        s.update(i, s.last()).drop_last().no_duplicates(),
        s.update(i, s.last()).drop_last().to_set() == s.to_set().remove(s[i]),
{
    let t = s.update(i, s.last()).drop_last();
    let last = s.len() - 1;
    assert forall|a: int, b: int| 0 <= a < t.len() && 0 <= b < t.len() && a != b implies t[a] != t[b] by {
        let sa = if a == i { last } else { a };
        let sb = if b == i { last } else { b };
        assert(t[a] == s[sa]);
        assert(t[b] == s[sb]);
    }
    assert forall|x: TaskNode| t.to_set().contains(x) <==> s.to_set().remove(s[i]).contains(x) by {
        if t.contains(x) {
            let k = choose|k: int| 0 <= k < t.len() && t[k] == x;
            let sk = if k == i { last } else { k };
            assert(s[sk] == x);
            assert(sk != i);
        }
        if s.contains(x) && x != s[i] {
            let k = choose|k: int| 0 <= k < s.len() && s[k] == x;
            if k == last {
                assert(t[i] == x);
            } else {
                assert(t[k] == x);
            }
        }
    }
    assert(t.to_set() =~= s.to_set().remove(s[i]));
}

impl Queue {
    /// The scheduled task nodes.
    pub closed spec fn elements(&self) -> Set<TaskNode> {
        self.vec@.to_set()
    }

    /// No task node is scheduled twice.
    pub closed spec fn wf(&self) -> bool {
        self.vec@.no_duplicates()
    }

    /// Every scheduled node is a task node of `store`.
    pub open spec fn tasks_of(&self, store: Store<impl Sized>) -> bool {
        forall|n: TaskNode| #[trigger] self.elements().contains(n) ==> store.is_task_node(n.0 as int)
    }

    /// Creates an empty queue.
    pub fn new() -> (r: Queue)
        ensures
            r.wf(),
            r.elements() == Set::<TaskNode>::empty(),
    {
        let r = Queue { vec: Vec::new() };
        assert(r.vec@.to_set() =~= Set::<TaskNode>::empty());
        r
    }

    /// Checks whether the queue is not empty.
    pub fn is_not_empty(&self) -> (r: bool)
        requires
            self.wf(),
        ensures
            r == !self.elements().is_empty(),
    {
        if self.vec.len() == 0 {
            assert(self.vec@.to_set() =~= Set::<TaskNode>::empty());
            false
        } else {
            assert(self.elements().contains(self.vec@[0]));
            true
        }
    }

    /// Checks whether `node` is scheduled.
    pub fn contains(&self, node: &TaskNode) -> (r: bool)
        ensures
            r == self.elements().contains(*node),
    {
        let mut i: usize = 0;
        while i < self.vec.len()
            invariant
                i <= self.vec@.len(),
                forall|j: int| 0 <= j < i ==> self.vec@[j] != *node,
            decreases self.vec@.len() - i,
        {
            if self.vec[i] == *node {
                assert(self.vec@.contains(*node));
                return true;
            }
            i = i + 1;
        }
        false
    }

    /// Schedules `node`. Does nothing if it is already scheduled.
    pub fn add(&mut self, node: TaskNode)
        requires
            old(self).wf(),
        ensures
            final(self).wf(),
            final(self).elements() == old(self).elements().insert(node),
    {
        if self.contains(&node) {
            assert(self.elements() =~= old(self).elements().insert(node));
            return ;
        }
        let ghost before = self.vec@;
        self.vec.push(node);
        assert forall|a: int, b: int|
            0 <= a < self.vec@.len() && 0 <= b < self.vec@.len() && a != b implies self.vec@[a] != self.vec@[b] by {
            if a < before.len() && b < before.len() {
                assert(before[a] != before[b]);
            } else if a < before.len() {
                assert(before.contains(before[a]));
            } else {
                assert(before.contains(before[b]));
            }
        }
        assert forall|x: TaskNode| self.vec@.contains(x) <==> (before.contains(x) || x == node) by {
            if self.vec@.contains(x) {
                let k = choose|k: int| 0 <= k < self.vec@.len() && self.vec@[k] == x;
                if k < before.len() {
                    assert(before[k] == x);
                }
            }
            if before.contains(x) {
                let k = choose|k: int| 0 <= k < before.len() && before[k] == x;
                assert(self.vec@[k] == x);
            }
            if x == node {
                assert(self.vec@[before.len() as int] == x);
            }
        }
        assert(self.elements() =~= old(self).elements().insert(node));
    }

    /// Removes the element at position `i` and returns it.
    fn take_at(&mut self, i: usize) -> (r: TaskNode)
        requires
            old(self).wf(),
            i < old(self).vec@.len(),
        ensures
            final(self).wf(),
            r == old(self).vec@[i as int],
            old(self).elements().contains(r),
            final(self).elements() == old(self).elements().remove(r),
    {
        proof {
            lemma_swap_remove_set(self.vec@, i as int);
            assert(self.vec@.contains(self.vec@[i as int]));
        }
        self.vec.swap_remove(i)
    }

    /// Removes the task that comes last in topological order among the scheduled tasks: a task that no other
    /// scheduled task is depended on by. Returns `None` if the queue is empty.
    pub fn pop<T>(&mut self, store: &Store<T>) -> (r: Option<TaskNode>)
        requires
            old(self).wf(),
            store.wf(),
            old(self).tasks_of(*store),
        ensures
            final(self).wf(),
            r is None <==> old(self).elements().is_empty(),
            r is None ==> final(self).elements() == old(self).elements(),
            r matches Some(n) ==> old(self).elements().contains(n) && final(self).elements() == old(
                self,
            ).elements().remove(n) && forall|m: TaskNode| #[trigger]
                old(self).elements().contains(m) ==> store.topo(m.0 as int) <= store.topo(n.0 as int),
    {
        if self.vec.len() == 0 {
            assert(self.vec@.to_set() =~= Set::<TaskNode>::empty());
            return None;
        }
        proof {
            store.lemma_wf_nodes();
            assert(self.elements().contains(self.vec@[0]));
        }
        let mut best: usize = 0;
        let mut i: usize = 1;
        while i < self.vec.len()
            invariant
                self.wf(),
                store.wf(),
                self.tasks_of(*store),
                forall|n: int| #[trigger] store.is_task_node(n) ==> 0 <= n < store.len(),
                1 <= i <= self.vec@.len(),
                best < i,
                forall|j: int| 0 <= j < i ==> store.topo(#[trigger] self.vec@[j].0 as int) <= store.topo(
                    self.vec@[best as int].0 as int,
                ),
            decreases self.vec@.len() - i,
        {
            proof {
                assert(self.elements().contains(self.vec@[i as int]));
                assert(self.elements().contains(self.vec@[best as int]));
            }
            match store.topologically_compare(&self.vec[i], &self.vec[best]) {
                TopoOrder::After => {
                    best = i;
                },
                _ => {},
            }
            i = i + 1;
        }
        proof {
            assert forall|m: TaskNode| #[trigger] self.elements().contains(m) implies store.topo(m.0 as int)
                <= store.topo(self.vec@[best as int].0 as int) by {
                let k = choose|k: int| 0 <= k < self.vec@.len() && self.vec@[k] == m;
                assert(store.topo(self.vec@[k].0 as int) <= store.topo(self.vec@[best as int].0 as int));
            }
        }
        Some(self.take_at(best))
    }

    /// Removes the task that comes last in topological order among the scheduled tasks that are `depender` or that
    /// `depender` depends on, directly or indirectly. Returns `None` if there is no such task.
    pub fn pop_least_task_with_dependency_from<T>(&mut self, depender: &TaskNode, store: &Store<T>) -> (r: Option<
        TaskNode,
    >)
        requires
            old(self).wf(),
            store.wf(),
            old(self).tasks_of(*store),
            store.is_task_node(depender.0 as int),
        ensures
            final(self).wf(),
            r is None <==> !exists|m: TaskNode| #[trigger]
                old(self).elements().contains(m) && (m == *depender || store.reaches(depender.0 as int, m.0 as int)),
            r is None ==> final(self).elements() == old(self).elements(),
            r matches Some(n) ==> old(self).elements().contains(n) && (n == *depender || store.reaches(
                depender.0 as int,
                n.0 as int,
            )) && final(self).elements() == old(self).elements().remove(n) && forall|m: TaskNode| #[trigger]
                old(self).elements().contains(m) && (m == *depender || store.reaches(depender.0 as int, m.0 as int))
                    ==> store.topo(m.0 as int) <= store.topo(n.0 as int),
    {
        proof {
            store.lemma_wf_nodes();
        }
        let mut found: Option<usize> = None;
        let mut i: usize = 0;
        while i < self.vec.len()
            invariant
                self.wf(),
                store.wf(),
                self.tasks_of(*store),
                store.is_task_node(depender.0 as int),
                forall|n: int| #[trigger] store.is_task_node(n) ==> 0 <= n < store.len(),
                i <= self.vec@.len(),
                found matches Some(b) ==> b < i && (self.vec@[b as int] == *depender || store.reaches(
                    depender.0 as int,
                    self.vec@[b as int].0 as int,
                )),
                forall|j: int|
                    0 <= j < i && (self.vec@[j] == *depender || store.reaches(
                        depender.0 as int,
                        #[trigger] self.vec@[j].0 as int,
                    )) ==> (found matches Some(b) && store.topo(self.vec@[j].0 as int) <= store.topo(
                        self.vec@[b as int].0 as int,
                    )),
            decreases self.vec@.len() - i,
        {
            proof {
                assert(self.elements().contains(self.vec@[i as int]));
            }
            let candidate = self.vec[i] == *depender || store.contains_transitive_task_dependency(
                depender,
                &self.vec[i],
            );
            if candidate {
                match found {
                    None => {
                        found = Some(i);
                    },
                    Some(b) => {
                        proof {
                            assert(self.elements().contains(self.vec@[b as int]));
                        }
                        match store.topologically_compare(&self.vec[i], &self.vec[b]) {
                            TopoOrder::After => {
                                found = Some(i);
                            },
                            _ => {},
                        }
                    },
                }
            }
            i = i + 1;
        }
        match found {
            Some(b) => {
                proof {
                    assert forall|m: TaskNode| #[trigger]
                        self.elements().contains(m) && (m == *depender || store.reaches(
                            depender.0 as int,
                            m.0 as int,
                        )) implies store.topo(m.0 as int) <= store.topo(self.vec@[b as int].0 as int) by {
                        let k = choose|k: int| 0 <= k < self.vec@.len() && self.vec@[k] == m;
                        assert(self.vec@[k] == *depender || store.reaches(depender.0 as int, self.vec@[k].0 as int));
                    }
                }
                Some(self.take_at(b))
            },
            None => {
                proof {
                    assert forall|m: TaskNode| #[trigger] self.elements().contains(m) implies !(m == *depender
                        || store.reaches(depender.0 as int, m.0 as int)) by {
                        let k = choose|k: int| 0 <= k < self.vec@.len() && self.vec@[k] == m;
                        assert(!(self.vec@[k] == *depender || store.reaches(depender.0 as int, self.vec@[k].0 as int)));
                    }
                }
                None
            },
        }
    }
}

/// The task that `pop` takes out, the last in topological order among the scheduled tasks, depends on no other
/// scheduled task, directly or indirectly.
pub proof fn lemma_popped_task_depends_on_no_scheduled_task<T>(store: Store<T>, scheduled: Set<TaskNode>, n: TaskNode)
    requires
        store.wf(),
        scheduled.contains(n),
        forall|m: TaskNode| #[trigger] scheduled.contains(m) ==> store.is_task_node(m.0 as int),
        forall|m: TaskNode| #[trigger] scheduled.contains(m) ==> store.topo(m.0 as int) <= store.topo(n.0 as int),
    ensures
        forall|m: TaskNode| #[trigger] scheduled.contains(m) && m != n ==> !store.reaches(n.0 as int, m.0 as int),
{
    store.lemma_wf_nodes();
    assert forall|m: TaskNode| #[trigger] scheduled.contains(m) && m != n implies !store.reaches(n.0 as int, m.0 as int) by {
        if store.reaches(n.0 as int, m.0 as int) {
            store.lemma_dependency_order(n.0 as int, m.0 as int);
        }
    }
}

} // verus!
