//! The build system: the persistent state, build sessions, and top-down incremental building.
use vstd::prelude::*;

use crate::dependency::{
    Dependency,
    DependencyView,
    ResourceDependency,
    ResourceDependencyView,
    TaskDependency,
    TaskDependencyView,
};
use crate::resource::file::FsError;
use crate::resource::{value_outcome, ResourceCheckerObj, ResourceState};
use crate::store::{ResourceNode, Store, TaskNode};
use crate::collection::{AnyView, TypeToAnyMap};
use crate::queue::Queue;
use crate::task::OutputCheckerObj;
use crate::tracker::{Tracker, TrackEvent};
use crate::value::{KeyObj, Val, ValueObj};
use crate::{Context, PieError, Task};

verus! {

/// Main entry point: the persistent state of the build system, kept between builds.
pub struct Pie<T, A, S> {
    store: Store<T>,
    tracker: A,
    resource_state: S,
}

/// A build session. Within a session, a task that was made consistent is neither checked nor executed again when it
/// is required.
pub struct Session<'p, T, A, S> {
    pie: &'p mut Pie<T, A, S>,
    current_executing_task: Option<TaskNode>,
    consistent: Vec<TaskNode>,
    dependency_check_errors: Vec<FsError>,
    scheduled: Queue,
    bottom_up: bool,
    executed: Ghost<Seq<(Val, Val)>>,
    fresh: Ghost<Seq<bool>>,
    ever_scheduled: Ghost<Set<TaskNode>>,
    refused: Vec<PieError>,
}

impl<T, A, S: ResourceState> Pie<T, A, S> {
    /// The store of this build system.
    pub closed spec fn store(&self) -> Store<T> {
        self.store
    }

    /// The tracker of this build system.
    pub closed spec fn spec_tracker(&self) -> A {
        self.tracker
    }

    /// The resource state of this build system.
    pub closed spec fn spec_resource_state(&self) -> S {
        self.resource_state
    }

    /// The build system is in a consistent state: its store is well formed and the invariant of its resource state
    /// holds.
    pub closed spec fn wf(&self) -> bool {
        self.store.wf() && self.resource_state.state_inv()
    }

    /// Creates a build system with `tracker` and `resource_state`.
    pub fn with_tracker_and_state(tracker: A, resource_state: S) -> (r: Pie<T, A, S>)
        requires
            resource_state.state_inv(),
        ensures
            r.wf(),
            r.store().len() == 0,
    {
        Pie { store: Store::new(), tracker, resource_state }
    }

    /// Gets the tracker.
    pub fn tracker(&self) -> (r: &A)
        ensures
            *r == self.spec_tracker(),
    {
        &self.tracker
    }

    /// Gets the mutable tracker.
    pub fn tracker_mut(&mut self) -> (r: &mut A)
        ensures
            *r == old(self).spec_tracker(),
            final(self).spec_tracker() == *final(r),
            final(self).store() == old(self).store(),
            final(self).spec_resource_state() == old(self).spec_resource_state(),
    {
        &mut self.tracker
    }

    /// Gets the resource state.
    pub fn resource_state(&self) -> (r: &S)
        ensures
            *r == self.spec_resource_state(),
    {
        &self.resource_state
    }

    /// Gets the mutable resource state.
    pub fn resource_state_mut(&mut self) -> (r: &mut S)
        ensures
            *r == old(self).spec_resource_state(),
            final(self).spec_resource_state() == *final(r),
            final(self).store() == old(self).store(),
            final(self).spec_tracker() == old(self).spec_tracker(),
            old(self).wf() ==> r.state_inv(),
            old(self).wf() ==> (final(self).wf() <==> final(r).state_inv()),
    {
        &mut self.resource_state
    }

    /// Creates a new build session. Only one session can be active at once.
    pub fn new_session(&mut self) -> (r: Session<'_, T, A, S>)
        requires
            old(self).wf(),
        ensures
            r.session_inv(),
            r.spec_consistent().len() == 0,
            r.spec_current() is None,
            r.spec_scheduled().elements() == Set::<TaskNode>::empty(),
            !r.spec_bottom_up(),
            r.spec_errors().len() == 0,
            r.spec_executed() == Seq::<(Val, Val)>::empty(),
            r.spec_store() == old(self).store(),
            r.spec_tracker() == old(self).spec_tracker(),
            r.spec_resource_state() == old(self).spec_resource_state(),
            *final(self) == *final(r.spec_pie()),
    {
        Session {
            pie: self,
            current_executing_task: None,
            consistent: Vec::new(),
            dependency_check_errors: Vec::new(),
            scheduled: Queue::new(),
            bottom_up: false,
            executed: Ghost(Seq::empty()),
            fresh: Ghost(Seq::empty()),
            ever_scheduled: Ghost(Set::empty()),
            refused: Vec::new(),
        }
    }
}

impl<T: Task, A: Tracker, S: ResourceState> Pie<T, A, S> {
    /// Runs `f` in a new build session, returning what it returns.
    pub fn run_in_session<R>(&mut self, f: impl FnOnce(Session<'_, T, A, S>) -> R) -> (r: R)
        requires
            old(self).wf(),
            forall|session: Session<'_, T, A, S>|
                session.session_inv() && session.spec_consistent().len() == 0 && session.spec_current() is None
                    ==> #[trigger] f.requires((session,)),
        ensures
            exists|session: Session<'_, T, A, S>|
                session.session_inv() && session.spec_consistent().len() == 0 && session.spec_current() is None
                    && session.spec_errors().len() == 0 && session.spec_store() == old(self).store()
                    && session.spec_tracker() == old(self).spec_tracker() && session.spec_resource_state() == old(
                    self,
                ).spec_resource_state() && *final(self) == *final(session.spec_pie()) && #[trigger] f.ensures(
                    (session,),
                    r,
                ),
    {
        let session = self.new_session();
        f(session)
    }
}

impl<T> Pie<T, (), TypeToAnyMap> {
    /// Creates a build system without tracker, with an empty map of resource state.
    pub fn new() -> (r: Pie<T, (), TypeToAnyMap>)
        ensures
            r.wf(),
            r.store().len() == 0,
            r.spec_resource_state()@ == Map::<Val, AnyView>::empty(),
    {
        Pie { store: Store::new(), tracker: (), resource_state: TypeToAnyMap::new() }
    }
}

impl<T, A> Pie<T, A, TypeToAnyMap> {
    /// Creates a build system with `tracker`, with an empty map of resource state.
    pub fn with_tracker(tracker: A) -> (r: Pie<T, A, TypeToAnyMap>)
        ensures
            r.wf(),
            r.store().len() == 0,
            r.spec_tracker() == tracker,
            r.spec_resource_state()@ == Map::<Val, AnyView>::empty(),
    {
        Pie { store: Store::new(), tracker, resource_state: TypeToAnyMap::new() }
    }
}

impl<'p, T, A, S: ResourceState> Session<'p, T, A, S> {
    /// The store of the build system.
    pub closed spec fn spec_store(&self) -> Store<T> {
        self.pie.store
    }

    /// The task that is currently executing, if any.
    pub closed spec fn spec_current(&self) -> Option<TaskNode> {
        self.current_executing_task
    }

    /// The tasks that are consistent in this session.
    pub closed spec fn spec_consistent(&self) -> Seq<TaskNode> {
        self.consistent@
    }

    /// The errors met while checking dependencies.
    pub closed spec fn spec_errors(&self) -> Seq<FsError> {
        self.dependency_check_errors@
    }

    /// The invariant of the resource state of the build system holds.
    pub closed spec fn spec_state_inv(&self) -> bool {
        self.pie.resource_state.state_inv()
    }

    /// The tracker of the build system.
    pub closed spec fn spec_tracker(&self) -> A {
        self.pie.tracker
    }

    /// The resource state of the build system.
    pub closed spec fn spec_resource_state(&self) -> S {
        self.pie.resource_state
    }

    /// The build system this session works on, which keeps what the session changed.
    pub closed spec fn spec_pie(&self) -> &'p mut Pie<T, A, S> {
        self.pie
    }

    /// The tasks scheduled by a bottom-up build.
    pub closed spec fn spec_scheduled(&self) -> Queue {
        self.scheduled
    }

    /// The executions this session has made, in order: the key of each executed task and the output it returned.
    pub closed spec fn spec_executed(&self) -> Seq<(Val, Val)> {
        self.executed@
    }

    /// For each execution of this session, in order, whether the executed task had no cached output when it was
    /// executed.
    pub closed spec fn spec_fresh(&self) -> Seq<bool> {
        self.fresh@
    }

    /// The requests of tasks that this session refused, in order: cyclic task dependencies, hidden dependencies and
    /// overlapping writes.
    pub closed spec fn spec_refused(&self) -> Seq<PieError> {
        self.refused@
    }

    /// The tasks that have been scheduled at some point in this session.
    pub closed spec fn spec_ever_scheduled(&self) -> Set<TaskNode> {
        self.ever_scheduled@
    }

    /// How many task executions this session has made.
    pub open spec fn spec_executions(&self) -> nat {
        self.spec_executed().len()
    }

    /// Whether the session is updating affected tasks bottom-up.
    pub closed spec fn spec_bottom_up(&self) -> bool {
        self.bottom_up
    }

    /// The session is in a consistent state: the store is well formed, the executing task is a task, and every
    /// consistent task is a task with an output.
    pub open spec fn session_inv(&self) -> bool {
        &&& self.spec_store().wf()
        &&& (self.spec_current() matches Some(c) ==> self.spec_store().is_task_node(c.0 as int))
        &&& forall|i: int|
            0 <= i < self.spec_consistent().len() ==> self.spec_store().is_task_node(
                (#[trigger] self.spec_consistent()[i]).0 as int,
            ) && self.spec_store().output_of(self.spec_consistent()[i].0 as int) is Some
        &&& self.spec_scheduled().wf()
        &&& self.spec_scheduled().tasks_of(self.spec_store())
        &&& self.spec_state_inv()
        &&& self.spec_fresh().len() == self.spec_executions()
        &&& self.spec_scheduled().elements().subset_of(self.spec_ever_scheduled())
        &&& forall|i: int| 0 <= i < self.spec_refused().len() ==> !(#[trigger] self.spec_refused()[i] is Resource)
        &&& self.spec_consistent().no_duplicates()
    }

    /// This session is a later state of `old`: the store extends that of `old` and keeps its outputs, the executing
    /// task and the mode are the same, executions are only added, tasks consistent in `old` stay consistent, and tasks
    /// scheduled in `old` stay scheduled until they are consistent.
    pub open spec fn session_extends(&self, old: &Self) -> bool {
        &&& self.spec_store().extends(&old.spec_store())
        &&& self.spec_store().keeps_outputs(&old.spec_store())
        &&& self.spec_current() == old.spec_current()
        &&& self.spec_bottom_up() == old.spec_bottom_up()
        &&& self.spec_executions() >= old.spec_executions()
        &&& forall|i: int|
            0 <= i < old.spec_executions() ==> #[trigger] self.spec_executed()[i] == old.spec_executed()[i]
        &&& forall|n: TaskNode| #[trigger] old.spec_consistent().contains(n) ==> self.spec_consistent().contains(n)
        &&& forall|n: TaskNode|
            #[trigger] old.spec_scheduled().elements().contains(n) ==> self.spec_scheduled().elements().contains(n)
                || (self.spec_consistent().contains(n) && executed_since(*self, *old, n))
        &&& forall|i: int| 0 <= i < old.spec_executions() ==> #[trigger] self.spec_fresh()[i] == old.spec_fresh()[i]
        &&& old.spec_ever_scheduled().subset_of(self.spec_ever_scheduled())
        &&& old.spec_refused().len() <= self.spec_refused().len()
        &&& forall|i: int| 0 <= i < old.spec_refused().len() ==> #[trigger] self.spec_refused()[i] == old.spec_refused()[i]
        &&& old.spec_bottom_up() ==> forall|i: int|
            old.spec_executions() <= i < self.spec_executions() ==> #[trigger] bottom_up_cause(*self, i)
    }

    /// Gets all errors met while checking dependencies.
    pub fn dependency_check_errors(&self) -> (r: &Vec<FsError>)
        ensures
            r@ == self.spec_errors(),
    {
        &self.dependency_check_errors
    }

    /// Whether task `node` is consistent in this session.
    fn is_consistent_node(&self, node: &TaskNode) -> (r: bool)
        ensures
            r == self.spec_consistent().contains(*node),
    {
        let mut i: usize = 0;
        while i < self.consistent.len()
            invariant
                i <= self.consistent@.len(),
                forall|j: int| 0 <= j < i ==> self.consistent@[j] != *node,
            decreases self.consistent@.len() - i,
        {
            if self.consistent[i] == *node {
                return true;
            }
            i = i + 1;
        }
        false
    }
}

/// Extending a store is transitive.
pub proof fn lemma_store_extends_trans<T>(a: Store<T>, b: Store<T>, c: Store<T>)
    requires
        b.extends(&a),
        c.extends(&b),
    ensures
        c.extends(&a),
{
    assert forall|i: int| 0 <= i < a.len() implies (#[trigger] c.is_task_node(i) == a.is_task_node(i)
        && c.is_resource_node(i) == a.is_resource_node(i) && c.node_key(i) == a.node_key(i) && c.task_of(i)
        == a.task_of(i)) by {
        assert(b.is_task_node(i) == a.is_task_node(i));
        assert(c.is_task_node(i) == b.is_task_node(i));
    }
}

/// Popping `popped_node` from the queue of `before`, then executing it in a way that extends the session and makes it
/// consistent, extends `before`.
proof fn lemma_extends_after_pop<'p, T, A, S: ResourceState>(
    before: Session<'p, T, A, S>,
    popped: Session<'p, T, A, S>,
    after: Session<'p, T, A, S>,
    popped_node: TaskNode,
)
    requires
        popped.spec_store() == before.spec_store(),
        popped.spec_current() == before.spec_current(),
        popped.spec_bottom_up() == before.spec_bottom_up(),
        popped.spec_executed() == before.spec_executed(),
        popped.spec_consistent() == before.spec_consistent(),
        forall|n: TaskNode|
            #[trigger] before.spec_scheduled().elements().contains(n) && n != popped_node
                ==> popped.spec_scheduled().elements().contains(n),
        after.session_extends(&popped),
        after.spec_consistent().contains(popped_node),
        executed_since(after, popped, popped_node),
        popped.spec_fresh() == before.spec_fresh(),
        popped.spec_ever_scheduled() == before.spec_ever_scheduled(),
        popped.spec_refused() == before.spec_refused(),
    ensures
        after.session_extends(&before),
{
    assert forall|n: TaskNode| #[trigger] before.spec_scheduled().elements().contains(n) implies after.spec_scheduled().elements().contains(n) || (after.spec_consistent().contains(n) && executed_since(after, before, n)) by {
        if n != popped_node {
            assert(popped.spec_scheduled().elements().contains(n));
        }
        if !after.spec_scheduled().elements().contains(n) {
            lemma_executed_since_widen(after, popped, after, before, n);
        }
    }
}

/// The `i`-th execution of session `s` was of a task that had no cached output, or of a task that has been scheduled
/// in the session.
pub open spec fn bottom_up_cause<'p, T, A, S: ResourceState>(s: Session<'p, T, A, S>, i: int) -> bool {
    ||| s.spec_fresh()[i]
    ||| exists|n: TaskNode|
        #[trigger] s.spec_ever_scheduled().contains(n) && 0 <= n.0 < s.spec_store().len() && s.spec_store().is_task_node(
            n.0 as int,
        ) && s.spec_store().node_key(n.0 as int) == s.spec_executed()[i].0
}

/// The cause of the `i`-th execution of `b` stays that of a later session `c`.
proof fn lemma_cause_kept<'p, T, A, S: ResourceState>(b: Session<'p, T, A, S>, c: Session<'p, T, A, S>, i: int)
    requires
        bottom_up_cause(b, i),
        0 <= i < b.spec_executions(),
        c.spec_store().extends(&b.spec_store()),
        c.spec_executions() >= b.spec_executions(),
        forall|j: int| 0 <= j < b.spec_executions() ==> #[trigger] c.spec_executed()[j] == b.spec_executed()[j],
        forall|j: int| 0 <= j < b.spec_executions() ==> #[trigger] c.spec_fresh()[j] == b.spec_fresh()[j],
        b.spec_ever_scheduled().subset_of(c.spec_ever_scheduled()),
    ensures
        bottom_up_cause(c, i),
{
    assert(c.spec_executed()[i] == b.spec_executed()[i]);
    assert(c.spec_fresh()[i] == b.spec_fresh()[i]);
    if !b.spec_fresh()[i] {
        let n = choose|n: TaskNode|
            #[trigger] b.spec_ever_scheduled().contains(n) && 0 <= n.0 < b.spec_store().len() && b.spec_store().is_task_node(
                n.0 as int,
            ) && b.spec_store().node_key(n.0 as int) == b.spec_executed()[i].0;
        assert(c.spec_store().is_task_node(n.0 as int) == b.spec_store().is_task_node(n.0 as int));
        assert(c.spec_ever_scheduled().contains(n));
    }
}

/// Task node `n` of session `before` was executed between `before` and `after`.
pub open spec fn executed_since<'p, T, A, S: ResourceState>(
    after: Session<'p, T, A, S>,
    before: Session<'p, T, A, S>,
    n: TaskNode,
) -> bool {
    0 <= n.0 < before.spec_store().len() ==> exists|o: Val|
        #[trigger] executed_during(after, before, before.spec_store().node_key(n.0 as int), o)
}

/// What `executed_since` says of `after` and `before` holds of sessions with the same or more executions after, the
/// same or fewer before, and stores that agree on the keys of the nodes of the store of `before2`.
proof fn lemma_executed_since_widen<'p, T, A, S: ResourceState>(
    after: Session<'p, T, A, S>,
    before: Session<'p, T, A, S>,
    after2: Session<'p, T, A, S>,
    before2: Session<'p, T, A, S>,
    n: TaskNode,
)
    requires
        executed_since(after, before, n),
        before2.spec_executions() <= before.spec_executions(),
        after.spec_executions() <= after2.spec_executions(),
        forall|i: int| 0 <= i < after.spec_executions() ==> #[trigger] after2.spec_executed()[i] == after.spec_executed()[i],
        before.spec_store().extends(&before2.spec_store()),
    ensures
        executed_since(after2, before2, n),
{
    if 0 <= n.0 < before2.spec_store().len() {
        let key = before2.spec_store().node_key(n.0 as int);
        assert(before.spec_store().is_task_node(n.0 as int) == before2.spec_store().is_task_node(n.0 as int));
        assert(before.spec_store().node_key(n.0 as int) == key);
        let o = choose|o: Val| #[trigger] executed_during(after, before, key, o);
        let i = choose|i: int| before.spec_executions() <= i < after.spec_executions() && #[trigger] after.spec_executed()[i] == (key, o);
        assert(after2.spec_executed()[i] == (key, o));
        assert(executed_during(after2, before2, key, o));
    }
}

/// Extending a session depends only on the stores, executions, consistent and scheduled tasks, executing task and
/// mode of the sessions.
proof fn lemma_session_extends_same<'p, T, A, S: ResourceState>(
    a: Session<'p, T, A, S>,
    b: Session<'p, T, A, S>,
    a2: Session<'p, T, A, S>,
    b2: Session<'p, T, A, S>,
)
    requires
        b.session_extends(&a),
        a2.spec_store() == a.spec_store(),
        a2.spec_executed() == a.spec_executed(),
        a2.spec_consistent() == a.spec_consistent(),
        a2.spec_scheduled().elements() == a.spec_scheduled().elements(),
        a2.spec_current() == a.spec_current(),
        a2.spec_bottom_up() == a.spec_bottom_up(),
        b2.spec_store() == b.spec_store(),
        b2.spec_executed() == b.spec_executed(),
        b2.spec_consistent() == b.spec_consistent(),
        b2.spec_scheduled().elements() == b.spec_scheduled().elements(),
        b2.spec_current() == b.spec_current(),
        b2.spec_bottom_up() == b.spec_bottom_up(),
        a2.spec_fresh() == a.spec_fresh(),
        a2.spec_ever_scheduled() == a.spec_ever_scheduled(),
        b2.spec_fresh() == b.spec_fresh(),
        b2.spec_ever_scheduled() == b.spec_ever_scheduled(),
        a2.spec_refused() == a.spec_refused(),
        b2.spec_refused() == b.spec_refused(),
    ensures
        b2.session_extends(&a2),
{
    if a.spec_bottom_up() {
        assert forall|i: int| a2.spec_executions() <= i < b2.spec_executions() implies #[trigger] bottom_up_cause(b2, i) by {
            assert(bottom_up_cause(b, i));
        }
    }
    assert forall|n: TaskNode| #[trigger] a2.spec_scheduled().elements().contains(n) implies b2.spec_scheduled().elements().contains(n)
        || (b2.spec_consistent().contains(n) && executed_since(b2, a2, n)) by {
        if !b.spec_scheduled().elements().contains(n) {
            lemma_executed_since_widen(b, a, b2, a2, n);
        }
    }
}

/// Recording one more refused request, a cyclic task dependency, hidden dependency or overlapping write, keeps the
/// session consistent and extends it.
proof fn lemma_refused_push<'p, T, A, S: ResourceState>(before: Session<'p, T, A, S>, after: Session<'p, T, A, S>, e: PieError)
    requires
        before.session_inv(),
        !(e is Resource),
        after.spec_refused() == before.spec_refused().push(e),
        after.spec_store() == before.spec_store(),
        after.spec_current() == before.spec_current(),
        after.spec_consistent() == before.spec_consistent(),
        after.spec_scheduled() == before.spec_scheduled(),
        after.spec_bottom_up() == before.spec_bottom_up(),
        after.spec_executed() == before.spec_executed(),
        after.spec_fresh() == before.spec_fresh(),
        after.spec_ever_scheduled() == before.spec_ever_scheduled(),
        after.spec_state_inv() == before.spec_state_inv(),
    ensures
        after.session_inv(),
        after.session_extends(&before),
{
    assert forall|i: int| 0 <= i < after.spec_refused().len() implies !(#[trigger] after.spec_refused()[i] is Resource) by {
        if i < before.spec_refused().len() {
            assert(after.spec_refused()[i] == before.spec_refused()[i]);
        }
    }
    assert forall|i: int| 0 <= i < before.spec_refused().len() implies #[trigger] after.spec_refused()[i] == before.spec_refused()[i] by {
    }
}

/// Extending a session is transitive.
pub proof fn lemma_session_extends_trans<'p, T, A, S: ResourceState>(
    a: Session<'p, T, A, S>,
    b: Session<'p, T, A, S>,
    c: Session<'p, T, A, S>,
)
    requires
        b.session_extends(&a),
        c.session_extends(&b),
    ensures
        c.session_extends(&a),
{
    lemma_store_extends_trans(a.spec_store(), b.spec_store(), c.spec_store());
    assert forall|i: int| 0 <= i < a.spec_store().len() && (#[trigger] a.spec_store().output_of(i)) is Some implies c.spec_store().output_of(i) is Some by {
        assert(b.spec_store().output_of(i) is Some);
    }
    assert forall|n: TaskNode| #[trigger] a.spec_scheduled().elements().contains(n) implies c.spec_scheduled().elements().contains(n)
        || (c.spec_consistent().contains(n) && executed_since(c, a, n)) by {
        if 0 <= n.0 < a.spec_store().len() {
            let key = a.spec_store().node_key(n.0 as int);
            assert(b.spec_store().is_task_node(n.0 as int) == a.spec_store().is_task_node(n.0 as int));
            assert(b.spec_store().node_key(n.0 as int) == key);
            if b.spec_scheduled().elements().contains(n) {
                if !c.spec_scheduled().elements().contains(n) {
                    let o = choose|o: Val| #[trigger] executed_during(c, b, key, o);
                    let i = choose|i: int| b.spec_executions() <= i < c.spec_executions() && #[trigger] c.spec_executed()[i] == (key, o);
                    assert(executed_during(c, a, key, o));
                }
            } else {
                let o = choose|o: Val| #[trigger] executed_during(b, a, key, o);
                let i = choose|i: int| a.spec_executions() <= i < b.spec_executions() && #[trigger] b.spec_executed()[i] == (key, o);
                assert(c.spec_executed()[i] == b.spec_executed()[i]);
                assert(executed_during(c, a, key, o));
            }
        }
    }
    assert forall|i: int| 0 <= i < a.spec_executions() implies #[trigger] c.spec_fresh()[i] == a.spec_fresh()[i] by {
        assert(b.spec_fresh()[i] == a.spec_fresh()[i]);
    }
    assert forall|i: int| 0 <= i < a.spec_refused().len() implies #[trigger] c.spec_refused()[i] == a.spec_refused()[i] by {
        assert(b.spec_refused()[i] == a.spec_refused()[i]);
    }
    if a.spec_bottom_up() {
        assert forall|i: int| a.spec_executions() <= i < c.spec_executions() implies #[trigger] bottom_up_cause(c, i) by {
            if i < b.spec_executions() {
                assert(bottom_up_cause(b, i));
                lemma_cause_kept(b, c, i);
            }
        }
    }
}

impl<'p, T: Task, A: Tracker, S: ResourceState> Session<'p, T, A, S> {
    /// Reserves a require dependency from the executing task to task `dst`, before making `dst` consistent, so
    /// that cycles are caught before executing any task.
    fn reserve_require_dependency(&mut self, dst: &TaskNode) -> (r: Result<(), PieError>)
        requires
            old(self).session_inv(),
            old(self).spec_store().is_task_node(dst.0 as int),
        ensures
            final(self).session_inv(),
            final(self).session_extends(old(self)),
            final(self).spec_consistent() == old(self).spec_consistent(),
            forall|i: int|
                0 <= i < old(self).spec_store().len() ==> #[trigger] final(self).spec_store().output_of(i)
                    == old(self).spec_store().output_of(i),
            old(self).spec_current() is None ==> r is Ok && final(self).spec_store() == old(self).spec_store(),
            old(self).spec_current() matches Some(c) ==> (r is Err <==> (c.0 == dst.0
                || old(self).spec_store().reaches(dst.0 as int, c.0 as int))),
            r matches Err(e) ==> e == PieError::CyclicTaskDependency,
            old(self).spec_current() matches Some(c) ==> (r is Ok ==> final(self).spec_store().has_edge(
                c.0 as int,
                dst.0 as int,
            )),
            forall|n: int|
                (old(self).spec_current() matches Some(c) ==> n != c.0) ==> #[trigger] crate::store::edges_from(
                    final(self).spec_store().edge_seq(),
                    n,
                ) == crate::store::edges_from(old(self).spec_store().edge_seq(), n),
            final(self).spec_executed() == old(self).spec_executed(),
            final(self).spec_resource_state() == old(self).spec_resource_state(),
            final(self).spec_tracker() == old(self).spec_tracker(),
            final(self).spec_refused() == old(self).spec_refused(),
    {
        match self.current_executing_task {
            Some(src) => {
                let ghost old_store = self.pie.store;
                proof {
                    old_store.lemma_wf_nodes();
                }
                let added = self.pie.store.add_dependency(&src, dst.0, Dependency::ReservedRequire);
                proof {
                    assert forall|n: int| n != src.0 implies #[trigger] crate::store::edges_from(
                        self.pie.store.edge_seq(),
                        n,
                    ) == crate::store::edges_from(old_store.edge_seq(), n) by {
                        if self.pie.store.edge_seq() != old_store.edge_seq() {
                            old_store.edge_seq().lemma_filter_push(
                                crate::store::EdgeView { src: src.0 as int, dst: dst.0 as int, dependency: DependencyView::ReservedRequire },
                                |e: crate::store::EdgeView| e.src == n,
                            );
                        }
                    }
                    assert forall|i: int| 0 <= i < self.consistent@.len() implies self.pie.store.is_task_node(
                        (#[trigger] self.consistent@[i]).0 as int,
                    ) && self.pie.store.output_of(self.consistent@[i].0 as int) is Some by {
                        assert(old_store.is_task_node(self.consistent@[i].0 as int));
                    }
                }
                match added {
                    Ok(()) => Ok(()),
                    Err(()) => Err(PieError::CyclicTaskDependency),
                }
            },
            None => Ok(()),
        }
    }

    /// Records the require dependency from the executing task to task `dst`, replacing its reserved dependency.
    /// Returns whether a dependency was recorded.
    fn update_require_dependency(
        &mut self,
        dst: &TaskNode,
        key: KeyObj,
        checker: OutputCheckerObj,
        stamp: ValueObj,
    ) -> (r: bool)
        requires
            old(self).session_inv(),
            old(self).spec_store().is_task_node(dst.0 as int),
        ensures
            final(self).spec_executed() == old(self).spec_executed(),
            final(self).spec_tracker() == old(self).spec_tracker(),
            final(self).session_inv(),
            final(self).session_extends(old(self)),
            final(self).spec_consistent() == old(self).spec_consistent(),
            forall|i: int|
                0 <= i < old(self).spec_store().len() ==> #[trigger] final(self).spec_store().output_of(i)
                    == old(self).spec_store().output_of(i),
            old(self).spec_current() is None ==> !r && final(self).spec_store() == old(self).spec_store(),
            old(self).spec_current() matches Some(c) ==> (r ==> final(self).spec_store().has_dependency(
                c.0 as int,
                dst.0 as int,
                DependencyView::Require(TaskDependencyView { task: key@, checker, stamp: stamp@ }),
            )),
            old(self).spec_current() matches Some(c) ==> (old(self).spec_store().has_edge(c.0 as int, dst.0 as int)
                ==> r),
    {
        match self.current_executing_task {
            Some(src) => {
                let ghost old_store = self.pie.store;
                proof {
                    old_store.lemma_wf_nodes();
                }
                let ghost view = DependencyView::Require(TaskDependencyView { task: key@, checker, stamp: stamp@ });
                let dependency = Dependency::Require(TaskDependency::new(key, checker, stamp));
                let updated = self.pie.store.set_dependency(&src, dst.0, dependency);
                proof {
                    assert forall|i: int| 0 <= i < self.consistent@.len() implies self.pie.store.is_task_node(
                        (#[trigger] self.consistent@[i]).0 as int,
                    ) && self.pie.store.output_of(self.consistent@[i].0 as int) is Some by {
                        assert(old_store.is_task_node(self.consistent@[i].0 as int));
                    }
                    if updated {
                        let k = choose|k: int|
                            0 <= k < old_store.edge_seq().len() && #[trigger] old_store.edge_seq()[k].src == src.0 as int
                                && old_store.edge_seq()[k].dst == dst.0 as int;
                        assert(self.pie.store.edge_seq()[k].dependency == view);
                    }
                }
                updated
            },
            None => false,
        }
    }
}


impl<'p, T: Task, A: Tracker, S: ResourceState> Session<'p, T, A, S> {
    /// Keeps the session invariant over a change of store that extends the store and keeps the outputs of the
    /// consistent tasks.
    proof fn lemma_inv_after_store_change(&self, old: Self)
        requires
            old.session_inv(),
            self.spec_store().wf(),
            self.spec_store().extends(&old.spec_store()),
            self.spec_current() == old.spec_current(),
            self.spec_consistent() == old.spec_consistent(),
            self.spec_scheduled() == old.spec_scheduled(),
            self.spec_bottom_up() == old.spec_bottom_up(),
            self.spec_executed() == old.spec_executed(),
            self.spec_fresh() == old.spec_fresh(),
            self.spec_ever_scheduled() == old.spec_ever_scheduled(),
            self.spec_refused() == old.spec_refused(),
            self.spec_state_inv(),
            forall|i: int|
                0 <= i < old.spec_consistent().len() ==> #[trigger] self.spec_store().output_of(
                    old.spec_consistent()[i].0 as int,
                ) is Some,
        ensures
            self.session_inv(),
            self.spec_store().keeps_outputs(&old.spec_store()) ==> self.session_extends(&old),
    {
        old.spec_store().lemma_wf_nodes();
        assert forall|n: TaskNode| #[trigger] self.spec_scheduled().elements().contains(n) implies self.spec_store().is_task_node(n.0 as int) by {
            assert(old.spec_store().is_task_node(n.0 as int));
        }
        assert forall|i: int| 0 <= i < self.spec_consistent().len() implies self.spec_store().is_task_node(
            (#[trigger] self.spec_consistent()[i]).0 as int,
        ) && self.spec_store().output_of(self.spec_consistent()[i].0 as int) is Some by {
            assert(old.spec_store().is_task_node(old.spec_consistent()[i].0 as int));
        }
        if let Some(c) = self.spec_current() {
            assert(old.spec_store().is_task_node(c.0 as int));
        }
    }

    /// Removes `node` from the consistent tasks.
    fn forget_consistent(&mut self, node: TaskNode)
        requires
            old(self).session_inv(),
        ensures
            final(self).session_inv(),
            final(self).spec_store() == old(self).spec_store(),
            final(self).spec_scheduled() == old(self).spec_scheduled(),
            final(self).spec_current() == old(self).spec_current(),
            final(self).spec_bottom_up() == old(self).spec_bottom_up(),
            final(self).spec_executed() == old(self).spec_executed(),
            final(self).spec_errors() == old(self).spec_errors(),
            final(self).spec_tracker() == old(self).spec_tracker(),
            final(self).spec_fresh() == old(self).spec_fresh(),
            final(self).spec_ever_scheduled() == old(self).spec_ever_scheduled(),
            final(self).spec_refused() == old(self).spec_refused(),
            !final(self).spec_consistent().contains(node),
            forall|n: TaskNode| #[trigger] final(self).spec_consistent().contains(n) ==> old(self).spec_consistent().contains(n),
            forall|n: TaskNode| #[trigger] old(self).spec_consistent().contains(n) && n != node ==> final(self).spec_consistent().contains(n),
    {
        let ghost old_consistent = self.consistent@;
        let mut kept: Vec<TaskNode> = Vec::new();
        let mut i: usize = 0;
        while i < self.consistent.len()
            invariant
                old_consistent == self.consistent@,
                i <= self.consistent@.len(),
                forall|j: int| 0 <= j < kept@.len() ==> #[trigger] kept@[j] != node,
                forall|j: int| 0 <= j < kept@.len() ==> old_consistent.contains(#[trigger] kept@[j]),
                forall|j: int| 0 <= j < i && old_consistent[j] != node ==> kept@.contains(#[trigger] old_consistent[j]),
                forall|j: int| 0 <= j < kept@.len() ==> old_consistent.subrange(0, i as int).contains(#[trigger] kept@[j]),
                kept@.no_duplicates(),
                old_consistent.no_duplicates(),
            decreases self.consistent@.len() - i,
        {
            let ghost kept_before = kept@;
            if self.consistent[i] != node {
                assert(old_consistent.contains(self.consistent@[i as int]));
                proof {
                    if kept_before.contains(old_consistent[i as int]) {
                        let m = choose|m: int| 0 <= m < kept_before.len() && kept_before[m] == old_consistent[i as int];
                        assert(old_consistent.subrange(0, i as int).contains(kept_before[m]));
                        let q = choose|q: int| 0 <= q < i && old_consistent.subrange(0, i as int)[q] == kept_before[m];
                        assert(old_consistent[q] == old_consistent[i as int]);
                    }
                }
                kept.push(self.consistent[i]);
                assert(kept@[kept@.len() - 1] == old_consistent[i as int]);
            }
            proof {
                assert forall|j: int| 0 <= j < kept@.len() implies old_consistent.subrange(0, i + 1).contains(#[trigger] kept@[j]) by {
                    if j < kept_before.len() {
                        assert(kept@[j] == kept_before[j]);
                        let q = choose|q: int| 0 <= q < i && old_consistent.subrange(0, i as int)[q] == kept_before[j];
                        assert(old_consistent.subrange(0, i + 1)[q] == kept_before[j]);
                    } else {
                        assert(old_consistent.subrange(0, i + 1)[i as int] == kept@[j]);
                    }
                }
            }
            assert forall|j: int| 0 <= j < i + 1 && old_consistent[j] != node implies kept@.contains(#[trigger] old_consistent[j]) by {
                if j < i {
                    let m = choose|m: int| 0 <= m < kept_before.len() && kept_before[m] == old_consistent[j];
                    assert(kept@[m] == old_consistent[j]);
                }
            }
            i = i + 1;
        }
        self.consistent = kept;
        proof {
            assert forall|i: int| 0 <= i < self.spec_consistent().len() implies self.spec_store().is_task_node(
                (#[trigger] self.spec_consistent()[i]).0 as int,
            ) && self.spec_store().output_of(self.spec_consistent()[i].0 as int) is Some by {
                let n = self.spec_consistent()[i];
                assert(old_consistent.contains(n));
                let j = choose|j: int| 0 <= j < old_consistent.len() && old_consistent[j] == n;
                assert(old(self).spec_consistent()[j] == n);
            }
            assert forall|n: TaskNode| #[trigger] self.spec_consistent().contains(n) implies old(self).spec_consistent().contains(n) by {
                let j = choose|j: int| 0 <= j < self.consistent@.len() && self.consistent@[j] == n;
                assert(old_consistent.contains(kept@[j]));
            }
            assert forall|n: TaskNode| #[trigger] old(self).spec_consistent().contains(n) && n != node implies self.spec_consistent().contains(n) by {
                let j = choose|j: int| 0 <= j < old_consistent.len() && old_consistent[j] == n;
                assert(kept@.contains(old_consistent[j]));
            }
        }
    }

    /// Records `node` as consistent, unless it already is.
    fn insert_consistent(&mut self, node: TaskNode)
        requires
            old(self).session_inv(),
            old(self).spec_store().is_task_node(node.0 as int),
            old(self).spec_store().output_of(node.0 as int) is Some,
        ensures
            final(self).session_inv(),
            final(self).session_extends(old(self)),
            final(self).spec_store() == old(self).spec_store(),
            final(self).spec_scheduled() == old(self).spec_scheduled(),
            final(self).spec_executed() == old(self).spec_executed(),
            final(self).spec_tracker() == old(self).spec_tracker(),
            final(self).spec_fresh() == old(self).spec_fresh(),
            final(self).spec_ever_scheduled() == old(self).spec_ever_scheduled(),
            final(self).spec_refused() == old(self).spec_refused(),
            final(self).spec_consistent().contains(node),
    {
        if !self.is_consistent_node(&node) {
            let ghost before = self.consistent@;
            self.consistent.push(node);
            proof {
                assert forall|a: int, b: int| 0 <= a < b < self.consistent@.len() implies self.consistent@[a] != self.consistent@[b] by {
                    if b == before.len() {
                        assert(self.consistent@[a] == before[a]);
                    } else {
                        assert(self.consistent@[a] == before[a] && self.consistent@[b] == before[b]);
                    }
                }
            }
            proof {
                assert forall|i: int| 0 <= i < self.spec_consistent().len() implies self.spec_store().is_task_node(
                    (#[trigger] self.spec_consistent()[i]).0 as int,
                ) && self.spec_store().output_of(self.spec_consistent()[i].0 as int) is Some by {
                    if i < before.len() {
                        assert(self.spec_consistent()[i] == old(self).spec_consistent()[i]);
                    }
                }
                assert(self.consistent@[before.len() as int] == node);
                assert forall|n: TaskNode| #[trigger] old(self).spec_consistent().contains(n) implies self.spec_consistent().contains(n) by {
                    let j = choose|j: int| 0 <= j < before.len() && before[j] == n;
                    assert(self.consistent@[j] == n);
                }
            }
        }
    }

    /// Executes `task`, identified by `key` and `node`: forgets its dependencies and output, executes it with `node`
    /// as the executing task, and stores its output.
    fn execute(&mut self, task: &T, key: &KeyObj, node: TaskNode) -> (r: ValueObj)
        requires
            old(self).session_inv(),
            old(self).spec_store().is_task_node(node.0 as int),
            old(self).spec_store().node_key(node.0 as int) == key@,
            old(self).spec_bottom_up() ==> old(self).spec_store().output_of(node.0 as int) is None || old(
                self,
            ).spec_ever_scheduled().contains(node),
        ensures
            final(self).session_inv(),
            final(self).session_extends(old(self)),
            final(self).spec_store().output_of(node.0 as int) == Some(r@),
            final(self).spec_bottom_up() == old(self).spec_bottom_up(),
            final(self).spec_executions() >= old(self).spec_executions() + 1,
            final(self).spec_executed().last() == (key@, r@),
            framed(
                final(self).spec_tracker(),
                old(self).spec_tracker(),
                seq![TrackEvent::ExecuteStart(key@)],
                seq![TrackEvent::ExecuteEnd(key@, r@)],
            ),
    {
        let ghost old_self = *self;
        self.forget_consistent(node);
        let ghost before_reset = *self;
        let ghost before_reset_store = self.pie.store;
        proof {
            before_reset_store.lemma_wf_nodes();
        }
        self.pie.store.reset_task(&node);
        proof {
            assert forall|i: int| 0 <= i < before_reset.spec_consistent().len() implies #[trigger] self.spec_store().output_of(
                before_reset.spec_consistent()[i].0 as int,
            ) is Some by {
                let n = before_reset.spec_consistent()[i];
                assert(before_reset_store.is_task_node(n.0 as int));
                assert(before_reset.spec_consistent().contains(n));
            }
            self.lemma_inv_after_store_change(before_reset);
        }
        let previous = self.current_executing_task;
        self.current_executing_task = Some(node);
        let ghost tracker_before = self.pie.tracker;
        self.pie.tracker.execute_start(key);
        let ghost before_execute = *self;
        proof {
            lemma_follows_one(before_execute.spec_tracker(), tracker_before, TrackEvent::ExecuteStart(key@));
        }
        let output = task.execute(self);
        let ghost after_task = *self;
        proof {
            self.executed = Ghost(self.executed@.push((key@, output@)));
            self.fresh = Ghost(self.fresh@.push(old_self.spec_store().output_of(node.0 as int) is None));
        }
        let ghost tracker_after_task = self.pie.tracker;
        self.pie.tracker.execute_end(key, &output);
        proof {
            lemma_follows_one(self.pie.tracker, tracker_after_task, TrackEvent::ExecuteEnd(key@, output@));
            assert(follows_all(before_execute.spec_tracker(), tracker_before, seq![TrackEvent::ExecuteStart(key@)]));
            assert(follows_all(self.pie.tracker, tracker_after_task, seq![TrackEvent::ExecuteEnd(key@, output@)]));
        }
        self.current_executing_task = previous;
        let ghost before_set = *self;
        let ghost before_set_store = self.pie.store;
        proof {
            before_set_store.lemma_wf_nodes();
            lemma_store_extends_trans(before_reset_store, before_execute.spec_store(), before_set_store);
        }
        self.pie.store.set_task_output(&node, output.copy());
        proof {
            assert forall|i: int| 0 <= i < before_set.spec_consistent().len() implies #[trigger] self.spec_store().output_of(
                before_set.spec_consistent()[i].0 as int,
            ) is Some by {
                let n = before_set.spec_consistent()[i];
                assert(before_set_store.is_task_node(n.0 as int));
            }
            assert(before_set.spec_store().is_task_node(node.0 as int));
            if let Some(c) = previous {
                assert(before_reset_store.is_task_node(c.0 as int));
            }
            self.lemma_inv_after_store_change(before_set);
            lemma_store_extends_trans(before_reset_store, before_set_store, self.spec_store());
            lemma_store_extends_trans(old_self.spec_store(), before_reset_store, self.spec_store());
            old_self.spec_store().lemma_wf_nodes();
            assert forall|i: int| 0 <= i < old_self.spec_store().len() && (#[trigger] old_self.spec_store().output_of(i)) is Some implies self.spec_store().output_of(i) is Some by {
                if i != node.0 {
                    assert(before_reset_store.output_of(i) is Some);
                    assert(before_execute.spec_store().output_of(i) is Some);
                    assert(before_set_store.output_of(i) is Some);
                    assert(self.spec_store().output_of(i) == before_set_store.output_of(i));
                }
            }
        }
        let ghost before_insert = *self;
        self.insert_consistent(node);
        proof {
            assert forall|i: int| 0 <= i < old_self.spec_executions() implies #[trigger] self.spec_executed()[i]
                == old_self.spec_executed()[i] by {
                assert(before_execute.spec_executed()[i] == old_self.spec_executed()[i]);
                assert(after_task.spec_executed()[i] == before_execute.spec_executed()[i]);
                assert(before_insert.spec_executed()[i] == after_task.spec_executed()[i]);
            }
            assert forall|i: int| 0 <= i < after_task.spec_executions() implies #[trigger] self.spec_fresh()[i]
                == after_task.spec_fresh()[i] by {
                assert(before_insert.spec_fresh()[i] == after_task.spec_fresh()[i]);
            }
            assert forall|i: int| 0 <= i < after_task.spec_executions() implies #[trigger] self.spec_executed()[i]
                == after_task.spec_executed()[i] by {
                assert(before_insert.spec_executed()[i] == after_task.spec_executed()[i]);
            }
            assert(before_execute.spec_fresh() == old_self.spec_fresh());
            assert(before_execute.spec_ever_scheduled() == old_self.spec_ever_scheduled());
            assert forall|i: int| 0 <= i < old_self.spec_executions() implies #[trigger] self.spec_fresh()[i]
                == old_self.spec_fresh()[i] by {
                assert(after_task.spec_fresh()[i] == before_execute.spec_fresh()[i]);
                assert(self.spec_fresh()[i] == after_task.spec_fresh()[i]);
            }
            assert(old_self.spec_ever_scheduled().subset_of(self.spec_ever_scheduled()));
            if old_self.spec_bottom_up() {
                self.spec_store().lemma_wf_nodes();
                assert forall|i: int| old_self.spec_executions() <= i < self.spec_executions() implies #[trigger] bottom_up_cause(*self, i) by {
                    if i < after_task.spec_executions() {
                        assert(bottom_up_cause(after_task, i));
                        lemma_store_extends_trans(after_task.spec_store(), before_set_store, self.spec_store());
                        lemma_cause_kept(after_task, *self, i);
                    } else {
                        assert(i == self.spec_executions() - 1);
                        assert(self.spec_executed()[i] == (key@, output@));
                        if !(old_self.spec_store().output_of(node.0 as int) is None) {
                            assert(self.spec_ever_scheduled().contains(node));
                            assert(self.spec_store().is_task_node(node.0 as int));
                        }
                    }
                }
            }
            assert(self.spec_executions() >= old_self.spec_executions());
            assert(self.spec_store().extends(&old_self.spec_store()));
            assert(self.spec_store().keeps_outputs(&old_self.spec_store()));
            assert(self.spec_current() == old_self.spec_current());
            assert(self.spec_bottom_up() == old_self.spec_bottom_up());
            assert forall|n: TaskNode| #[trigger] old_self.spec_scheduled().elements().contains(n) implies self.spec_scheduled().elements().contains(n) || (self.spec_consistent().contains(n) && executed_since(*self, old_self, n)) by {
                assert(before_execute.spec_scheduled().elements().contains(n));
                assert(after_task.spec_scheduled().elements().contains(n) || after_task.spec_consistent().contains(n));
                if after_task.spec_consistent().contains(n) {
                    assert(before_insert.spec_consistent().contains(n));
                }
                if !after_task.spec_scheduled().elements().contains(n) {
                    assert forall|i: int| 0 <= i < after_task.spec_executions() implies #[trigger] self.spec_executed()[i] == after_task.spec_executed()[i] by {
                        assert(before_insert.spec_executed()[i] == after_task.spec_executed()[i]);
                    }
                    lemma_store_extends_trans(old_self.spec_store(), before_reset_store, before_execute.spec_store());
                    lemma_executed_since_widen(after_task, before_execute, *self, old_self, n);
                }
            }
            assert forall|n: TaskNode| #[trigger] old_self.spec_consistent().contains(n) implies self.spec_consistent().contains(n) by {
                if n != node {
                    assert(before_reset.spec_consistent().contains(n));
                    assert(before_execute.spec_consistent().contains(n));
                    assert(before_set.spec_consistent().contains(n));
                    assert(before_insert.spec_consistent().contains(n));
                }
            }
        }
        output
    }

    /// When the task with `key` is consistent in `old`, its node is `node` and still has the same output, after a
    /// change of store that extends the store of `old` and keeps its outputs and consistent tasks.
    proof fn lemma_consistent_output_found(&self, old: Self, node: TaskNode, key: Val)
        requires
            old.session_inv(),
            self.session_inv(),
            self.spec_store().extends(&old.spec_store()),
            forall|i: int| 0 <= i < old.spec_store().len() ==> #[trigger] self.spec_store().output_of(i) == old.spec_store().output_of(i),
            self.spec_consistent() == old.spec_consistent(),
            self.spec_store().is_task_node(node.0 as int),
            self.spec_store().node_key(node.0 as int) == key,
        ensures
            consistent_output_of(old, key) matches Some(o) ==> self.spec_consistent().contains(node)
                && self.spec_store().output_of(node.0 as int) == Some(o),
            consistent_output_of(old, key) is None ==> !self.spec_consistent().contains(node),
    {
        old.spec_store().lemma_wf_nodes();
        if exists|n: TaskNode| #[trigger] old.spec_consistent().contains(n) && old.spec_store().node_key(n.0 as int) == key {
            let n = choose|n: TaskNode| #[trigger] old.spec_consistent().contains(n) && old.spec_store().node_key(n.0 as int) == key;
            let i = choose|i: int| 0 <= i < old.spec_consistent().len() && old.spec_consistent()[i] == n;
            assert(old.spec_store().is_task_node(old.spec_consistent()[i].0 as int));
            assert(self.spec_store().is_task_node(n.0 as int));
            self.spec_store().lemma_task_key_unique(n.0 as int, node.0 as int);
        } else {
            if self.spec_consistent().contains(node) {
                let i = choose|i: int| 0 <= i < old.spec_consistent().len() && old.spec_consistent()[i] == node;
                assert(old.spec_store().is_task_node(old.spec_consistent()[i].0 as int));
                assert(old.spec_consistent().contains(node) && old.spec_store().node_key(node.0 as int) == key);
            }
        }
    }

    /// Makes `task`, identified by `key`, consistent, returning its node and its consistent output: the cached
    /// output when the task is consistent in this session or when all its dependencies are consistent, otherwise
    /// the output of executing it. Checking the dependencies of required tasks recurses at most `fuel` levels deep;
    /// beyond that a dependency counts as inconsistent, which is always sound.
    fn make_task_consistent(&mut self, task: &T, key: &KeyObj, fuel: u64) -> (r: (TaskNode, ValueObj))
        requires
            old(self).session_inv(),
            !old(self).spec_bottom_up(),
        ensures
            final(self).session_inv(),
            final(self).session_extends(old(self)),
            final(self).spec_store().is_task_node(r.0.0 as int),
            final(self).spec_store().node_key(r.0.0 as int) == key@,
            final(self).spec_store().output_of(r.0.0 as int) == Some(r.1@),
            final(self).spec_consistent().contains(r.0),
            final(self).spec_bottom_up() == old(self).spec_bottom_up(),
            consistent_output_of(*old(self), key@) matches Some(o) ==> r.1@ == o && final(self).spec_executed()
                == old(self).spec_executed(),
            has_done_no_work(old(self).spec_store(), key@) ==> executed_during(*final(self), *old(self), key@, r.1@),
            has_done_no_work(old(self).spec_store(), key@) ==> framed(
                final(self).spec_tracker(),
                old(self).spec_tracker(),
                seq![TrackEvent::ExecuteStart(key@)],
                seq![TrackEvent::ExecuteEnd(key@, r.1@)],
            ),
            forall|o: Val|
                #[trigger] reusable(old(self).spec_store(), key@, o) ==> r.1@ == o && final(self).spec_executions()
                    == old(self).spec_executions(),
            consistent_output_of(*old(self), key@) is None ==> exists|
                checks: Seq<(bool, Session<'p, T, A, S>, Session<'p, T, A, S>)>,
                start: Session<'p, T, A, S>,
                end: Session<'p, T, A, S>,
            |
                all_checked(
                    checks,
                    crate::store::edges_from(old(self).spec_store().edge_seq(), r.0.0 as int),
                    fuel,
                ) && #[trigger] checks_chain(checks, start, end) && node_found(start, *old(self), r.0.0 as int, key@) && if all_consistent(
                    checks,
                    crate::store::edges_from(old(self).spec_store().edge_seq(), r.0.0 as int),
                    end,
                    r.0.0 as int,
                ) {
                    end.spec_store().output_of(r.0.0 as int) == Some(r.1@) && final(self).spec_executed()
                        == end.spec_executed()
                } else {
                    executed_during(*final(self), end, key@, r.1@)
                },
        decreases fuel, 2nat,
    {
        let ghost old_self = *self;
        let ghost start_store = self.pie.store;
        let node = self.pie.store.get_or_create_task_node(task, key);
        proof {
            start_store.lemma_wf_nodes();
            assert forall|i: int| 0 <= i < old_self.spec_consistent().len() implies #[trigger] self.spec_store().output_of(
                old_self.spec_consistent()[i].0 as int,
            ) is Some by {
                assert(start_store.is_task_node(old_self.spec_consistent()[i].0 as int));
            }
            self.lemma_inv_after_store_change(old_self);
        }
        let ghost after_node = *self;
        proof {
            self.lemma_consistent_output_found(old_self, node, key@);
            if has_done_no_work(old_self.spec_store(), key@) {
                if (node.0 as int) < old_self.spec_store().len() {
                    assert(old_self.spec_store().is_task_node(node.0 as int));
                } else {
                    lemma_no_edges_from_missing_node(old_self.spec_store(), node.0 as int);
                }
                assert(self.spec_store().output_of(node.0 as int) is None);
                assert(crate::store::edges_from(self.spec_store().edge_seq(), node.0 as int).len() == 0);
            }
            assert forall|o: Val| #[trigger] reusable(old_self.spec_store(), key@, o) implies self.spec_store().output_of(
                node.0 as int,
            ) == Some(o) && crate::store::edges_from(self.spec_store().edge_seq(), node.0 as int).len() == 0 by {
                let n = choose|n: int|
                    #[trigger] old_self.spec_store().is_task_node(n) && old_self.spec_store().node_key(n) == key@
                        && old_self.spec_store().output_of(n) == Some(o) && crate::store::edges_from(
                        old_self.spec_store().edge_seq(),
                        n,
                    ).len() == 0;
                assert(self.spec_store().is_task_node(n));
                self.spec_store().lemma_wf_nodes();
                self.spec_store().lemma_task_key_unique(n, node.0 as int);
            }
        }
        if self.is_consistent_node(&node) {
            match self.pie.store.get_task_output(&node) {
                Some(o) => {
                    let output = o.copy();
                    proof {
                        if has_done_no_work(old_self.spec_store(), key@) {
                            let k = choose|k: int| 0 <= k < self.consistent@.len() && self.consistent@[k] == node;
                            assert(self.spec_store().output_of(self.spec_consistent()[k].0 as int) is Some);
                        }
                    }
                    return (node, output);
                },
                None => {
                    proof {
                        let i = choose|i: int| 0 <= i < self.consistent@.len() && self.consistent@[i] == node;
                        assert(self.spec_store().output_of(self.spec_consistent()[i].0 as int) is Some);
                    }
                    return vstd::pervasive::unreached();
                },
            }
        }
        proof {
            assert(node_found(after_node, old_self, node.0 as int, key@));
        }
        let checked = self.check_task(&node, fuel);
        let ghost after_check = *self;
        let ghost checks = choose|checks: Seq<(bool, Session<'p, T, A, S>, Session<'p, T, A, S>)>|
            #[trigger] all_checked(
                checks,
                crate::store::edges_from(after_node.spec_store().edge_seq(), node.0 as int),
                fuel,
            ) && (checked is Some ==> checks.len() == crate::store::edges_from(
                after_node.spec_store().edge_seq(),
                node.0 as int,
            ).len() && forall|k: int| 0 <= k < checks.len() ==> (#[trigger] checks[k]).0) && (checked is None ==> (
            checks.len() > 0 && !checks.last().0) || after_check.spec_store().output_of(node.0 as int) is None)
                && checks_chain(checks, after_node, after_check);
        let output = match checked {
            Some(o) => o,
            None => {
                let ghost before_execute = *self;
                proof {
                    after_node.spec_store().lemma_wf_nodes();
                }
                proof {
                    assert(self.spec_store().is_task_node(node.0 as int) == after_node.spec_store().is_task_node(node.0 as int));
                    assert(self.spec_store().node_key(node.0 as int) == key@);
                }
                let o = self.execute(task, key, node);
                proof {
                    lemma_session_extends_trans(after_node, before_execute, *self);
                    assert(self.spec_executed()[self.spec_executions() - 1] == (key@, o@));
                    assert(executed_during(*self, old_self, key@, o@));
                    assert(executed_during(*self, after_check, key@, o@));
                }
                o
            },
        };
        proof {
            let deps = crate::store::edges_from(old_self.spec_store().edge_seq(), node.0 as int);
            assert(deps == crate::store::edges_from(after_node.spec_store().edge_seq(), node.0 as int));
            if checked is None {
                if checks.len() > 0 && !checks.last().0 {
                    assert(!(#[trigger] checks[checks.len() - 1]).0);
                }
                assert(!all_consistent(checks, deps, after_check, node.0 as int));
            } else {
                assert(all_consistent(checks, deps, after_check, node.0 as int));
            }
        }
        proof {
            if has_done_no_work(old_self.spec_store(), key@) {
                assert(checked is None);
            }
        }
        let ghost before_insert = *self;
        proof {
            lemma_session_extends_trans(old_self, after_node, *self);
            after_node.spec_store().lemma_wf_nodes();
            assert(self.spec_store().is_task_node(node.0 as int));
            assert(self.spec_store().node_key(node.0 as int) == key@);
        }
        self.insert_consistent(node);
        proof {
            lemma_session_extends_trans(old_self, before_insert, *self);
            if has_done_no_work(old_self.spec_store(), key@) {
                let k = choose|k: int|
                    old_self.spec_executions() <= k < before_insert.spec_executions()
                        && #[trigger] before_insert.spec_executed()[k] == (key@, output@);
                assert(self.spec_executed()[k] == (key@, output@));
            }
            if checked is None {
                let k = choose|k: int|
                    after_check.spec_executions() <= k < before_insert.spec_executions()
                        && #[trigger] before_insert.spec_executed()[k] == (key@, output@);
                assert(self.spec_executed()[k] == (key@, output@));
                assert(executed_during(*self, after_check, key@, output@));
            }
            assert(self.spec_executed() == before_insert.spec_executed());
        }
        (node, output)
    }

    /// Checks whether task `src` is consistent, returning `Some(output)` with its cached output when it is, and
    /// `None` when it is not and must be executed. A task is consistent when it has an output and all its
    /// dependencies are consistent. An error checking a dependency is recorded and makes the task inconsistent.
    fn check_task(&mut self, src: &TaskNode, fuel: u64) -> (r: Option<ValueObj>)
        requires
            old(self).session_inv(),
            !old(self).spec_bottom_up(),
            old(self).spec_store().is_task_node(src.0 as int),
        ensures
            final(self).session_inv(),
            final(self).session_extends(old(self)),
            final(self).spec_bottom_up() == old(self).spec_bottom_up(),
            r matches Some(o) ==> final(self).spec_store().output_of(src.0 as int) == Some(o@),
            crate::store::edges_from(old(self).spec_store().edge_seq(), src.0 as int).len() == 0 ==> (r is Some
                <==> old(self).spec_store().output_of(src.0 as int) is Some) && *final(self) == *old(self),
            (exists|k: int|
                0 <= k < crate::store::edges_from(old(self).spec_store().edge_seq(), src.0 as int).len()
                    && (#[trigger] crate::store::edges_from(old(self).spec_store().edge_seq(), src.0 as int)[k]).dependency
                    is ReservedRequire) ==> r is None,
            exists|checks: Seq<(bool, Session<'p, T, A, S>, Session<'p, T, A, S>)>|
                #[trigger] all_checked(
                    checks,
                    crate::store::edges_from(old(self).spec_store().edge_seq(), src.0 as int),
                    fuel,
                ) && (r is Some ==> checks.len() == crate::store::edges_from(
                    old(self).spec_store().edge_seq(),
                    src.0 as int,
                ).len() && forall|k: int| 0 <= k < checks.len() ==> (#[trigger] checks[k]).0) && (r is None ==> (
                checks.len() > 0 && !checks.last().0) || final(self).spec_store().output_of(src.0 as int) is None)
                    && checks_chain(checks, *old(self), *final(self)),
        decreases fuel, 1nat,
    {
        let ghost old_self = *self;
        let dependencies = self.pie.store.get_dependencies_from_task(src);
        let ghost deps = crate::store::edges_from(old_self.spec_store().edge_seq(), src.0 as int);
        proof {
            assert(dependencies@.map_values(|d: Dependency| d@).len() == deps.map_values(|e: crate::store::EdgeView| e.dependency).len());
        }
        let ghost mut checks: Seq<(bool, Session<'p, T, A, S>, Session<'p, T, A, S>)> = Seq::empty();
        let mut i: usize = 0;
        while i < dependencies.len()
            invariant
                all_checked(checks, deps, fuel),
                checks.len() == i,
                forall|k: int| 0 <= k < checks.len() ==> (#[trigger] checks[k]).0,
                dependencies@.map_values(|d: Dependency| d@) == deps.map_values(|e: crate::store::EdgeView| e.dependency),
                forall|j: int| 0 <= j < i ==> !(#[trigger] dependencies@[j]@ is ReservedRequire),
                dependencies@.len() == deps.len(),
                deps == crate::store::edges_from(old_self.spec_store().edge_seq(), src.0 as int),
                i == 0 ==> *self == old_self,
                checks_chain(checks, old_self, *self),
                self.session_inv(),
                self.session_extends(&old_self),
                self.spec_bottom_up() == old_self.spec_bottom_up(),
                !old_self.spec_bottom_up(),
                old_self == *old(self),
                old_self.session_inv(),
                old_self.spec_store().is_task_node(src.0 as int),
                i <= dependencies@.len(),
            decreases dependencies@.len() - i,
        {
            let ghost before = *self;
            proof {
                assert(dependencies@.map_values(|d: Dependency| d@)[i as int] == dependencies@[i as int]@);
                assert(deps.map_values(|e: crate::store::EdgeView| e.dependency)[i as int] == deps[i as int].dependency);
            }
            let consistent = match &dependencies[i] {
                Dependency::ReservedRequire => false,
                Dependency::Require(d) => self.is_task_dependency_consistent(d, fuel),
                Dependency::Read(d) => {
                    let checked = self.is_resource_dependency_consistent(d);
                    proof {
                        self.lemma_resource_checked(before, d@, checked, checked == Ok::<bool, FsError>(true));
                    }
                    match checked {
                        Ok(b) => b,
                        Err(e) => {
                            self.dependency_check_errors.push(e);
                            false
                        },
                    }
                },
                Dependency::Write(d) => {
                    let checked = self.is_resource_dependency_consistent(d);
                    proof {
                        self.lemma_resource_checked(before, d@, checked, checked == Ok::<bool, FsError>(true));
                    }
                    match checked {
                        Ok(b) => b,
                        Err(e) => {
                            self.dependency_check_errors.push(e);
                            false
                        },
                    }
                },
            };
            proof {
                lemma_session_extends_trans(old_self, before, *self);
                assert(dependency_checked(deps[i as int].dependency, consistent, fuel, before, *self));
                let next = checks.push((consistent, before, *self));
                lemma_chain_push(checks, old_self, before, *self, consistent);
                assert forall|k: int| 0 <= k < next.len() implies dependency_checked(
                    deps[k].dependency,
                    (#[trigger] next[k]).0,
                    fuel,
                    next[k].1,
                    next[k].2,
                ) by {
                    if k < checks.len() {
                        assert(next[k] == checks[k]);
                    }
                }
                checks = next;
            }
            if !consistent {
                proof {
                    assert(checks.last().0 == false);
                    assert(all_checked(checks, deps, fuel));
                }
                return None;
            }
            i = i + 1;
        }
        proof {
            old_self.spec_store().lemma_wf_nodes();
            assert forall|k: int| 0 <= k < deps.len() implies (#[trigger] deps[k]).dependency !is ReservedRequire by {
                assert(dependencies@.map_values(|d: Dependency| d@)[k] == dependencies@[k]@);
                assert(deps.map_values(|e: crate::store::EdgeView| e.dependency)[k] == deps[k].dependency);
                assert(!(dependencies@[k]@ is ReservedRequire));
            }
        }
        proof {
            assert(all_checked(checks, deps, fuel));
        }
        match self.pie.store.get_task_output(src) {
            Some(o) => Some(o.copy()),
            None => None,
        }
    }

    /// What checking a resource dependency `d` from session `before` gave, `checked`, and the error recorded
    /// afterwards, if any, are what `resource_checked` says.
    proof fn lemma_resource_checked(
        &self,
        before: Self,
        d: crate::dependency::ResourceDependencyView,
        checked: Result<bool, FsError>,
        consistent: bool,
    )
        requires
            consistent == (checked == Ok::<bool, FsError>(true)),
            exists|stamped: Result<Val, FsError>|
                #[trigger] self.spec_resource_state().stamp_gives(
                    before.spec_resource_state(),
                    d.resource,
                    d.checker,
                    stamped,
                ) && check_result(stamp_outcome(stamped, d.stamp), d.stamp, checked) && follows_two(
                    self.spec_tracker(),
                    before.spec_tracker(),
                    TrackEvent::CheckResourceStart(d.resource, d.checker, d.stamp),
                    TrackEvent::CheckResourceEnd(d.resource, d.checker, d.stamp, stamp_outcome(stamped, d.stamp)),
                ),
            self.spec_errors() == before.spec_errors(),
        ensures
            forall|after: Self|
                after.spec_tracker() == self.spec_tracker() && after.spec_resource_state() == self.spec_resource_state()
                    && (match checked {
                    Ok(_) => after.spec_errors() == self.spec_errors(),
                    Err(e) => after.spec_errors() == self.spec_errors().push(e),
                }) ==> #[trigger] resource_checked(d, consistent, before, after),
    {
        let stamped = choose|stamped: Result<Val, FsError>|
            #[trigger] self.spec_resource_state().stamp_gives(before.spec_resource_state(), d.resource, d.checker, stamped)
                && check_result(stamp_outcome(stamped, d.stamp), d.stamp, checked) && follows_two(
                self.spec_tracker(),
                before.spec_tracker(),
                TrackEvent::CheckResourceStart(d.resource, d.checker, d.stamp),
                TrackEvent::CheckResourceEnd(d.resource, d.checker, d.stamp, stamp_outcome(stamped, d.stamp)),
            );
        assert forall|after: Self|
            after.spec_tracker() == self.spec_tracker() && after.spec_resource_state() == self.spec_resource_state()
                && (match checked {
                Ok(_) => after.spec_errors() == self.spec_errors(),
                Err(e) => after.spec_errors() == self.spec_errors().push(e),
            }) implies #[trigger] resource_checked(d, consistent, before, after) by {
            assert(after.spec_resource_state().stamp_gives(before.spec_resource_state(), d.resource, d.checker, stamped));
            assert(follows_two(
                after.spec_tracker(),
                before.spec_tracker(),
                TrackEvent::CheckResourceStart(d.resource, d.checker, d.stamp),
                TrackEvent::CheckResourceEnd(d.resource, d.checker, d.stamp, stamp_outcome(stamped, d.stamp)),
            ));
        }
    }

    /// Checks whether a require dependency is consistent: makes the required task consistent and checks its output
    /// against the stamp of the dependency.
    fn is_task_dependency_consistent(&mut self, dependency: &TaskDependency, fuel: u64) -> (r: bool)
        requires
            old(self).session_inv(),
            !old(self).spec_bottom_up(),
        ensures
            final(self).session_inv(),
            final(self).session_extends(old(self)),
            final(self).spec_bottom_up() == old(self).spec_bottom_up(),
            r ==> fuel > 0 && exists|o: Val|
                #[trigger] required(*final(self), dependency@.task, o) && dependency@.checker.spec_check_obj(
                    o,
                    dependency@.stamp,
                ) is None,
            !r ==> fuel == 0 || (forall|n: int|
                #[trigger] old(self).spec_store().is_task_node(n) ==> old(self).spec_store().node_key(n)
                    != dependency@.task) || exists|o: Val|
                #[trigger] required(*final(self), dependency@.task, o) && dependency@.checker.spec_check_obj(
                    o,
                    dependency@.stamp,
                ) is Some,
        decreases fuel, 0nat,
    {
        if fuel == 0 {
            return false;
        }
        let node = match self.pie.store.get_task_node(dependency.task()) {
            Some(n) => n,
            None => return false,
        };
        let task = self.pie.store.get_task(&node).clone();
        let key = dependency.task().copy();
        self.pie.tracker.check_task_start(&key, dependency.checker(), dependency.stamp());
        let ghost before_make = *self;
        let (made, output) = self.make_task_consistent(&task, &key, fuel - 1);
        let ghost after_make = *self;
        let inconsistency = dependency.check(&output);
        match &inconsistency {
            Some(i) => self.pie.tracker.check_task_end(&key, dependency.checker(), dependency.stamp(), Some(i)),
            None => self.pie.tracker.check_task_end(&key, dependency.checker(), dependency.stamp(), None),
        }
        proof {
            assert(self.spec_store() == after_make.spec_store());
            assert(self.spec_consistent() == after_make.spec_consistent());
            assert(self.spec_consistent().contains(made));
            assert(self.spec_store().output_of(made.0 as int) == Some(output@));
            assert(required(*self, dependency@.task, output@));
            lemma_session_extends_same(before_make, after_make, *old(self), *self);
        }
        inconsistency.is_none()
    }

    /// Checks whether a resource dependency is consistent, by stamping the resource anew and comparing the stamp
    /// with the stamp of the dependency.
    fn is_resource_dependency_consistent(&mut self, dependency: &ResourceDependency) -> (r: Result<bool, FsError>)
        requires
            old(self).session_inv(),
        ensures
            final(self).session_inv(),
            final(self).session_extends(old(self)),
            final(self).spec_consistent() == old(self).spec_consistent(),
            final(self).spec_store() == old(self).spec_store(),
            final(self).spec_scheduled() == old(self).spec_scheduled(),
            final(self).spec_errors() == old(self).spec_errors(),
            final(self).spec_state_inv(),
            exists|stamped: Result<Val, FsError>|
                #[trigger] final(self).spec_resource_state().stamp_gives(
                    old(self).spec_resource_state(),
                    dependency@.resource,
                    dependency@.checker,
                    stamped,
                ) && check_result(stamp_outcome(stamped, dependency@.stamp), dependency@.stamp, r) && follows_two(
                    final(self).spec_tracker(),
                    old(self).spec_tracker(),
                    TrackEvent::CheckResourceStart(dependency@.resource, dependency@.checker, dependency@.stamp),
                    TrackEvent::CheckResourceEnd(
                        dependency@.resource,
                        dependency@.checker,
                        dependency@.stamp,
                        stamp_outcome(stamped, dependency@.stamp),
                    ),
                ),
            final(self).spec_executions() == old(self).spec_executions(),
    {
        let ghost before = self.pie.tracker;
        self.pie.tracker.check_resource_start(dependency.resource(), dependency.checker(), dependency.stamp());
        let ghost mid = self.pie.tracker;
        let ghost state_before = self.pie.resource_state;
        let r = dependency.is_consistent(&mut self.pie.resource_state, &mut self.pie.tracker, None);
        proof {
            let stamped = choose|stamped: Result<Val, FsError>|
                #[trigger] self.pie.resource_state.stamp_gives(state_before, dependency@.resource, dependency@.checker, stamped)
                    && check_result(stamp_outcome(stamped, dependency@.stamp), dependency@.stamp, r) && self.pie.tracker.follows(
                    mid,
                    crate::dependency::check_end_event(dependency@, None, stamp_outcome(stamped, dependency@.stamp)),
                );
            assert(before == old(self).spec_tracker());
            assert(state_before == old(self).spec_resource_state());
            assert(mid.follows(before, TrackEvent::CheckResourceStart(dependency@.resource, dependency@.checker, dependency@.stamp)));
            assert(self.pie.tracker.follows(mid, TrackEvent::CheckResourceEnd(dependency@.resource, dependency@.checker, dependency@.stamp, stamp_outcome(stamped, dependency@.stamp))));
            assert(self.spec_resource_state().stamp_gives(
                old(self).spec_resource_state(),
                dependency@.resource,
                dependency@.checker,
                stamped,
            ));
        }
        r
    }
}

/// Tracker `after` is tracker `before` after it took in `first` and then `second`.
pub open spec fn follows_two<A: Tracker>(after: A, before: A, first: TrackEvent, second: TrackEvent) -> bool {
    exists|mid: A| #[trigger] mid.follows(before, first) && after.follows(mid, second)
}

/// What checking a resource dependency with stamp `stamp` finds when stamping the resource anew gave `stamped`: no
/// inconsistency when the new stamp equals `stamp`, the new stamp when it differs, or the error.
pub open spec fn stamp_outcome(stamped: Result<Val, FsError>, stamp: Val) -> Result<Option<Val>, FsError> {
    match stamped {
        Ok(new_stamp) => if new_stamp == stamp {
            Ok(None)
        } else {
            Ok(Some(new_stamp))
        },
        Err(e) => Err(e),
    }
}

/// `r` is what checking a resource dependency with stamp `stamp` returns when it reports `outcome`: consistent when
/// it found no inconsistency, inconsistent when it found a new stamp, which differs from `stamp`, or the error.
pub open spec fn check_result(outcome: Result<Option<Val>, FsError>, stamp: Val, r: Result<bool, FsError>) -> bool {
    match outcome {
        Ok(None) => r == Ok::<bool, FsError>(true),
        Ok(Some(new_stamp)) => new_stamp != stamp && r == Ok::<bool, FsError>(false),
        Err(e) => r == Err::<bool, FsError>(e),
    }
}

/// Session `after` is session `before` after the check of a read or write dependency with stamp `stamp` of task
/// `task_node` reported `outcome`: the task is scheduled when the check found an inconsistency, a new stamp that
/// differs from `stamp`, or an error, which is recorded; it is left alone when the check found none.
pub open spec fn scheduled_by_outcome<'p, T, A, S: ResourceState>(
    after: Session<'p, T, A, S>,
    before: Session<'p, T, A, S>,
    task_node: TaskNode,
    outcome: Result<Option<Val>, FsError>,
    stamp: Val,
) -> bool {
    match outcome {
        Ok(None) => after.spec_scheduled().elements() == before.spec_scheduled().elements() && after.spec_errors()
            == before.spec_errors(),
        Ok(Some(new_stamp)) => new_stamp != stamp && after.spec_scheduled().elements()
            == before.spec_scheduled().elements().insert(task_node) && after.spec_errors() == before.spec_errors(),
        Err(e) => after.spec_scheduled().elements() == before.spec_scheduled().elements().insert(task_node)
            && after.spec_errors() == before.spec_errors().push(e),
    }
}

/// Tracker `after` is tracker `before` after it took in `first`, then any events, then `last`.
pub open spec fn brackets<A: Tracker>(after: A, before: A, first: TrackEvent, last: TrackEvent) -> bool {
    exists|a: A, b: A| #[trigger] a.follows(before, first) && #[trigger] after.follows(b, last)
}

/// Tracker `after` is tracker `before` after it took in `outer_first`, then `inner_first`, then any events, then
/// `inner_last`, then `outer_last`.
pub open spec fn nested_brackets<A: Tracker>(
    after: A,
    before: A,
    outer_first: TrackEvent,
    inner_first: TrackEvent,
    inner_last: TrackEvent,
    outer_last: TrackEvent,
) -> bool {
    &&& exists|a: A, b: A| #[trigger] a.follows(before, outer_first) && #[trigger] b.follows(a, inner_first)
    &&& exists|c: A, d: A| #[trigger] d.follows(c, inner_last) && #[trigger] after.follows(d, outer_last)
}

/// Tracker `after` is tracker `before` after it took in `events`, in order.
pub open spec fn follows_all<A: Tracker>(after: A, before: A, events: Seq<TrackEvent>) -> bool
    decreases events.len(),
{
    if events.len() == 0 {
        after == before
    } else {
        exists|mid: A| follows_all(mid, before, events.drop_last()) && #[trigger] after.follows(mid, events.last())
    }
}

/// Tracker `after` is tracker `before` after it took in the events `opening`, in order, then any events, then the
/// events `closing`, in order.
pub open spec fn framed<A: Tracker>(after: A, before: A, opening: Seq<TrackEvent>, closing: Seq<TrackEvent>) -> bool {
    exists|a: A, b: A| #[trigger] follows_all(a, before, opening) && #[trigger] follows_all(after, b, closing)
}

/// A tracker that took in `first` and then `events` took in `seq![first] + events`.
proof fn lemma_follows_all_prepend<A: Tracker>(after: A, mid: A, before: A, first: TrackEvent, events: Seq<TrackEvent>)
    requires
        mid.follows(before, first),
        follows_all(after, mid, events),
    ensures
        follows_all(after, before, seq![first] + events),
    decreases events.len(),
{
    let all = seq![first] + events;
    if events.len() == 0 {
        assert(all.drop_last() =~= Seq::<TrackEvent>::empty());
        assert(all.last() == first);
        assert(follows_all(before, before, all.drop_last()));
    } else {
        let m = choose|m: A| follows_all(m, mid, events.drop_last()) && #[trigger] after.follows(m, events.last());
        lemma_follows_all_prepend(m, mid, before, first, events.drop_last());
        assert(all.drop_last() =~= seq![first] + events.drop_last());
        assert(all.last() == events.last());
    }
}

/// A tracker that took in one event takes it in as a sequence of one event.
proof fn lemma_follows_one<A: Tracker>(after: A, before: A, event: TrackEvent)
    requires
        after.follows(before, event),
    ensures
        follows_all(after, before, seq![event]),
{
    let one = seq![event];
    assert(one.drop_last() =~= Seq::<TrackEvent>::empty());
    assert(one.last() == event);
    assert(follows_all(before, before, one.drop_last()));
    assert(follows_all(before, before, one.drop_last()) && after.follows(before, one.last()));
    assert(one.len() > 0);
}

/// Taking in `first` before and `last` after a framed stretch frames it with one more event on each side.
proof fn lemma_framed_wrap<A: Tracker>(
    after: A,
    inner_after: A,
    inner_before: A,
    before: A,
    first: TrackEvent,
    opening: Seq<TrackEvent>,
    closing: Seq<TrackEvent>,
    last: TrackEvent,
)
    requires
        inner_before.follows(before, first),
        framed(inner_after, inner_before, opening, closing),
        after.follows(inner_after, last),
    ensures
        framed(after, before, seq![first] + opening, closing.push(last)),
{
    let (a, b) = choose|a: A, b: A| #[trigger] follows_all(a, inner_before, opening) && #[trigger] follows_all(
        inner_after,
        b,
        closing,
    );
    lemma_follows_all_prepend(a, inner_before, before, first, opening);
    lemma_follows_all_push(after, inner_after, b, closing, last);
}

/// An event tracker whose events are indexed keeps them indexed through any history of tracking: the index of each
/// event kind stays in step with the events it lists.
pub proof fn lemma_events_stay_indexed(
    after: crate::tracker::event::EventTracker,
    before: crate::tracker::event::EventTracker,
    history: Seq<TrackEvent>,
)
    requires
        follows_all(after, before, history),
        crate::tracker::event::indexed(before.events()),
    ensures
        crate::tracker::event::indexed(after.events()),
    decreases history.len(),
{
    if history.len() > 0 {
        let mid = choose|mid: crate::tracker::event::EventTracker|
            follows_all(mid, before, history.drop_last()) && #[trigger] after.follows(mid, history.last());
        lemma_events_stay_indexed(mid, before, history.drop_last());
    }
}

/// The events of checking, in order, the first `outcomes.len()` read or write dependencies of `edges`, from tasks of
/// `store`, whose checks found `outcomes`.
pub open spec fn read_check_events<T>(
    store: Store<T>,
    edges: Seq<crate::store::EdgeView>,
    outcomes: Seq<Result<Option<Val>, FsError>>,
) -> Seq<TrackEvent>
    decreases outcomes.len(),
{
    if outcomes.len() == 0 {
        Seq::empty()
    } else {
        let k = outcomes.len() - 1;
        let d = crate::store::resource_dependency_of(edges[k].dependency);
        let key = store.node_key(edges[k].src);
        read_check_events(store, edges, outcomes.drop_last()).push(
            TrackEvent::CheckTaskReadResourceStart(key, d.checker, d.stamp),
        ).push(TrackEvent::CheckTaskReadResourceEnd(key, d.checker, d.stamp, outcomes[k]))
    }
}

/// The tasks of the first `outcomes.len()` dependencies of `edges` whose check found an inconsistency or failed.
pub open spec fn flagged(edges: Seq<crate::store::EdgeView>, outcomes: Seq<Result<Option<Val>, FsError>>) -> Set<
    TaskNode,
> {
    Set::new(
        |n: TaskNode|
            exists|k: int|
                0 <= k < outcomes.len() && edges[k].src == n.0 as int && !(#[trigger] outcomes[k] matches Ok(None)),
    )
}

/// The errors among `outcomes`, in order.
pub open spec fn errors_of(outcomes: Seq<Result<Option<Val>, FsError>>) -> Seq<FsError>
    decreases outcomes.len(),
{
    if outcomes.len() == 0 {
        Seq::empty()
    } else {
        let rest = errors_of(outcomes.drop_last());
        match outcomes.last() {
            Err(e) => rest.push(e),
            _ => rest,
        }
    }
}

/// Session `after` is session `before` after checking, in order, the first `outcomes.len()` read or write
/// dependencies of `edges`, from tasks of `store`, whose checks found `outcomes`: the tracker took in each check, a
/// new stamp found differs from the stamp of its dependency, exactly the tasks whose check found an inconsistency or
/// failed were scheduled, and the errors found were appended, in order, to the errors of the session.
pub open spec fn checked_dependencies<'p, T, A: Tracker, S: ResourceState>(
    after: Session<'p, T, A, S>,
    before: Session<'p, T, A, S>,
    store: Store<T>,
    edges: Seq<crate::store::EdgeView>,
    outcomes: Seq<Result<Option<Val>, FsError>>,
) -> bool {
    &&& outcomes.len() <= edges.len()
    &&& follows_all(after.spec_tracker(), before.spec_tracker(), read_check_events(store, edges, outcomes))
    &&& forall|k: int|
        0 <= k < outcomes.len() ==> match #[trigger] outcomes[k] {
            Ok(Some(new_stamp)) => new_stamp != crate::store::resource_dependency_of(edges[k].dependency).stamp,
            _ => true,
        }
    &&& after.spec_scheduled().elements() == before.spec_scheduled().elements().union(flagged(edges, outcomes))
    &&& after.spec_errors() == before.spec_errors() + errors_of(outcomes)
    &&& exists|states: Seq<S>, stampeds: Seq<Result<Val, FsError>>|
        #[trigger] stamped_in_turn(states, stampeds, edges, outcomes) && states[0] == before.spec_resource_state()
            && states.last() == after.spec_resource_state()
}

/// Starting from `states[0]`, stamping, in order, the resources of the first `outcomes.len()` read or write
/// dependencies of `edges` gave `stampeds` and took the resource state through `states`; the check of each found
/// its outcome in `outcomes`, comparing the new stamp with the stamp of the dependency.
pub open spec fn stamped_in_turn<S: ResourceState>(
    states: Seq<S>,
    stampeds: Seq<Result<Val, FsError>>,
    edges: Seq<crate::store::EdgeView>,
    outcomes: Seq<Result<Option<Val>, FsError>>,
) -> bool {
    &&& states.len() == outcomes.len() + 1
    &&& stampeds.len() == outcomes.len()
    &&& forall|k: int|
        0 <= k < outcomes.len() ==> {
            let d = crate::store::resource_dependency_of(edges[k].dependency);
            &&& outcomes[k] == stamp_outcome(#[trigger] stampeds[k], d.stamp)
            &&& states[k + 1].stamp_gives(states[k], d.resource, d.checker, stampeds[k])
        }
}

/// A tracker that took in `events` and then `event` took in `events.push(event)`.
proof fn lemma_follows_all_push<A: Tracker>(after: A, mid: A, before: A, events: Seq<TrackEvent>, event: TrackEvent)
    requires
        follows_all(mid, before, events),
        after.follows(mid, event),
    ensures
        follows_all(after, before, events.push(event)),
{
    let pushed = events.push(event);
    assert(pushed.drop_last() =~= events);
    assert(pushed.len() > 0);
    assert(pushed.last() == event);
    assert(follows_all(mid, before, pushed.drop_last()) && after.follows(mid, pushed.last()));
}

/// Checking no dependency changes neither the tracker nor the scheduled tasks.
proof fn lemma_checked_none<'p, T, A: Tracker, S: ResourceState>(
    after: Session<'p, T, A, S>,
    before: Session<'p, T, A, S>,
    store: Store<T>,
    edges: Seq<crate::store::EdgeView>,
)
    requires
        after.spec_tracker() == before.spec_tracker(),
        after.spec_scheduled().elements() == before.spec_scheduled().elements(),
        after.spec_errors() == before.spec_errors(),
        after.spec_resource_state() == before.spec_resource_state(),
    ensures
        checked_dependencies(after, before, store, edges, Seq::empty()),
{
    let states = seq![before.spec_resource_state()];
    let stampeds = Seq::<Result<Val, FsError>>::empty();
    assert(stamped_in_turn(states, stampeds, edges, Seq::empty()));
    assert(before.spec_errors() + errors_of(Seq::empty()) =~= after.spec_errors());
    assert(before.spec_scheduled().elements().union(flagged(edges, Seq::empty())) =~= after.spec_scheduled().elements());
}

/// Checking one more dependency, the `i`-th of `edges` from task `task_node`, which found `outcome`, extends the
/// checks made so far.
proof fn lemma_checked_step<'p, T, A: Tracker, S: ResourceState>(
    start: Session<'p, T, A, S>,
    mid: Session<'p, T, A, S>,
    after: Session<'p, T, A, S>,
    store: Store<T>,
    edges: Seq<crate::store::EdgeView>,
    outcomes: Seq<Result<Option<Val>, FsError>>,
    task_node: TaskNode,
    outcome: Result<Option<Val>, FsError>,
    stamped: Result<Val, FsError>,
)
    requires
        checked_dependencies(mid, start, store, edges, outcomes),
        outcome == stamp_outcome(
            stamped,
            crate::store::resource_dependency_of(edges[outcomes.len() as int].dependency).stamp,
        ),
        after.spec_resource_state().stamp_gives(
            mid.spec_resource_state(),
            crate::store::resource_dependency_of(edges[outcomes.len() as int].dependency).resource,
            crate::store::resource_dependency_of(edges[outcomes.len() as int].dependency).checker,
            stamped,
        ),
        outcomes.len() < edges.len(),
        task_node.0 as int == edges[outcomes.len() as int].src,
        scheduled_by_outcome(
            after,
            mid,
            task_node,
            outcome,
            crate::store::resource_dependency_of(edges[outcomes.len() as int].dependency).stamp,
        ),
        follows_two(
            after.spec_tracker(),
            mid.spec_tracker(),
            TrackEvent::CheckTaskReadResourceStart(
                store.node_key(edges[outcomes.len() as int].src),
                crate::store::resource_dependency_of(edges[outcomes.len() as int].dependency).checker,
                crate::store::resource_dependency_of(edges[outcomes.len() as int].dependency).stamp,
            ),
            TrackEvent::CheckTaskReadResourceEnd(
                store.node_key(edges[outcomes.len() as int].src),
                crate::store::resource_dependency_of(edges[outcomes.len() as int].dependency).checker,
                crate::store::resource_dependency_of(edges[outcomes.len() as int].dependency).stamp,
                outcome,
            ),
        ),
    ensures
        checked_dependencies(after, start, store, edges, outcomes.push(outcome)),
{
    let i = outcomes.len() as int;
    let next = outcomes.push(outcome);
    let (states, stampeds) = choose|states: Seq<S>, stampeds: Seq<Result<Val, FsError>>|
        #[trigger] stamped_in_turn(states, stampeds, edges, outcomes) && states[0] == start.spec_resource_state()
            && states.last() == mid.spec_resource_state();
    let states2 = states.push(after.spec_resource_state());
    let stampeds2 = stampeds.push(stamped);
    assert forall|k: int| 0 <= k < next.len() implies {
        let d = crate::store::resource_dependency_of(edges[k].dependency);
        &&& next[k] == stamp_outcome(#[trigger] stampeds2[k], d.stamp)
        &&& states2[k + 1].stamp_gives(states2[k], d.resource, d.checker, stampeds2[k])
    } by {
        if k < i {
            assert(stampeds2[k] == stampeds[k]);
            assert(next[k] == outcomes[k]);
            assert(states2[k] == states[k]);
            assert(states2[k + 1] == states[k + 1]);
        } else {
            assert(states2[k] == states.last());
        }
    }
    assert(stamped_in_turn(states2, stampeds2, edges, next));
    let d = crate::store::resource_dependency_of(edges[i].dependency);
    let key = store.node_key(edges[i].src);
    let first = TrackEvent::CheckTaskReadResourceStart(key, d.checker, d.stamp);
    let second = TrackEvent::CheckTaskReadResourceEnd(key, d.checker, d.stamp, outcome);
    let events = read_check_events(store, edges, outcomes);
    assert(next.drop_last() =~= outcomes);
    assert(read_check_events(store, edges, next) == events.push(first).push(second));
    let m = choose|m: A| #[trigger] m.follows(mid.spec_tracker(), first) && after.spec_tracker().follows(m, second);
    lemma_follows_all_push(m, mid.spec_tracker(), start.spec_tracker(), events, first);
    lemma_follows_all_push(after.spec_tracker(), m, start.spec_tracker(), events.push(first), second);
    assert forall|k: int| 0 <= k < next.len() implies match #[trigger] next[k] {
        Ok(Some(new_stamp)) => new_stamp != crate::store::resource_dependency_of(edges[k].dependency).stamp,
        _ => true,
    } by {
        if k < i {
            assert(next[k] == outcomes[k]);
        }
    }
    assert forall|n: TaskNode| flagged(edges, next).contains(n) == (flagged(edges, outcomes).contains(n) || (n
        == task_node && !(outcome matches Ok(None)))) by {
        if flagged(edges, next).contains(n) {
            let k = choose|k: int|
                0 <= k < next.len() && edges[k].src == n.0 as int && !(#[trigger] next[k] matches Ok(None));
            if k < i {
                assert(next[k] == outcomes[k]);
                assert(flagged(edges, outcomes).contains(n));
            }
        }
        if flagged(edges, outcomes).contains(n) {
            let k = choose|k: int|
                0 <= k < outcomes.len() && edges[k].src == n.0 as int && !(#[trigger] outcomes[k] matches Ok(None));
            assert(next[k] == outcomes[k]);
        }
        if n == task_node && !(outcome matches Ok(None)) {
            assert(next[i] == outcome);
        }
    }
    assert(after.spec_scheduled().elements() =~= start.spec_scheduled().elements().union(flagged(edges, next)));
    assert(next.last() == outcome);
    match outcome {
        Err(e) => {
            assert(errors_of(next) == errors_of(outcomes).push(e));
            assert(after.spec_errors() =~= start.spec_errors() + errors_of(next));
        },
        _ => {
            assert(errors_of(next) == errors_of(outcomes));
        },
    }
}

/// In `store`, the read dependencies to resource node `d` were checked, in order, between two sessions later than
/// `since`, and exactly the tasks in `f` were found inconsistent or failed their check.
pub open spec fn readers_flagged<'p, T, A: Tracker, S: ResourceState>(
    store: Store<T>,
    d: int,
    f: Set<TaskNode>,
    since: Session<'p, T, A, S>,
) -> bool {
    exists|before: Session<'p, T, A, S>, after: Session<'p, T, A, S>, outcomes: Seq<Result<Option<Val>, FsError>>|
        #[trigger] checked_dependencies(after, before, store, crate::store::reads_to(store.edge_seq(), d), outcomes)
            && outcomes.len() == crate::store::reads_to(store.edge_seq(), d).len() && f == flagged(
            crate::store::reads_to(store.edge_seq(), d),
            outcomes,
        ) && before.session_extends(&since)
}

/// The union of the sets `sets`.
pub open spec fn union_all(sets: Seq<Set<TaskNode>>) -> Set<TaskNode>
    decreases sets.len(),
{
    if sets.len() == 0 {
        Set::empty()
    } else {
        union_all(sets.drop_last()).union(sets.last())
    }
}

/// Session `after` is the end of executing task node `node`, whose execution ended in session `mid` with output
/// `output`, and then scheduling the tasks it affects: the scheduled tasks are exactly those of `mid`, the readers
/// `flags[i]` whose check failed for each resource that the task wrote, in order, and the tasks that require it and
/// whose checker finds `output` inconsistent.
pub open spec fn scheduled_after_execution<'p, T, A: Tracker, S: ResourceState>(
    after: Session<'p, T, A, S>,
    mid: Session<'p, T, A, S>,
    flags: Seq<Set<TaskNode>>,
    node: int,
    output: Val,
) -> bool {
    let ws = crate::store::writes_from(after.spec_store().edge_seq(), node);
    &&& flags.len() == ws.len()
    &&& forall|i: int| 0 <= i < ws.len() ==> readers_flagged(after.spec_store(), (#[trigger] ws[i]).dst, flags[i], mid)
    &&& after.spec_scheduled().elements() == mid.spec_scheduled().elements().union(union_all(flags)).union(
        inconsistent_requirers(
            after.spec_store(),
            node,
            output,
            crate::store::requires_to(after.spec_store().edge_seq(), node).len() as int,
        ),
    )
}

/// Task node `n` has a read or write dependency to the resource with key `resource` in `store`.
pub open spec fn touches_resource<T>(store: Store<T>, n: TaskNode, resource: Val) -> bool {
    exists|k: int|
        0 <= k < store.edge_seq().len() && #[trigger] store.edge_seq()[k].src == n.0 as int
            && crate::store::is_read_or_write(store.edge_seq()[k].dependency) && store.node_key(store.edge_seq()[k].dst)
            == resource && store.is_resource_node(store.edge_seq()[k].dst)
}

/// The `k`-th read or write dependency to node `dst` is one of the edges of `store`.
proof fn lemma_filter_source<T>(store: Store<T>, dst: int, k: int)
    requires
        0 <= k < crate::store::reads_or_writes_to(store.edge_seq(), dst).len(),
    ensures
        exists|j: int|
            0 <= j < store.edge_seq().len() && store.edge_seq()[j] == crate::store::reads_or_writes_to(
                store.edge_seq(),
                dst,
            )[k],
{
    crate::store::lemma_filter_element(
        store.edge_seq(),
        |e: crate::store::EdgeView| e.dst == dst && crate::store::is_read_or_write(e.dependency),
        k,
    );
}

impl<'p, T: Task, A: Tracker, S: ResourceState> Session<'p, T, A, S> {
    /// Checks whether the read or write dependency `dependency` of task `reading_task` is consistent, by stamping
    /// the resource anew and comparing the stamp with the stamp of the dependency.
    fn is_read_dependency_consistent(&mut self, reading_task: &KeyObj, dependency: &ResourceDependency) -> (r: Result<
        bool,
        FsError,
    >)
        requires
            old(self).session_inv(),
        ensures
            final(self).session_inv(),
            final(self).session_extends(old(self)),
            final(self).spec_consistent() == old(self).spec_consistent(),
            final(self).spec_store() == old(self).spec_store(),
            final(self).spec_scheduled() == old(self).spec_scheduled(),
            final(self).spec_errors() == old(self).spec_errors(),
            final(self).spec_state_inv(),
            exists|stamped: Result<Val, FsError>|
                #[trigger] final(self).spec_resource_state().stamp_gives(
                    old(self).spec_resource_state(),
                    dependency@.resource,
                    dependency@.checker,
                    stamped,
                ) && check_result(stamp_outcome(stamped, dependency@.stamp), dependency@.stamp, r) && follows_two(
                    final(self).spec_tracker(),
                    old(self).spec_tracker(),
                    TrackEvent::CheckTaskReadResourceStart(reading_task@, dependency@.checker, dependency@.stamp),
                    TrackEvent::CheckTaskReadResourceEnd(
                        reading_task@,
                        dependency@.checker,
                        dependency@.stamp,
                        stamp_outcome(stamped, dependency@.stamp),
                    ),
                ),
            final(self).spec_executions() == old(self).spec_executions(),
    {
        let ghost before = self.pie.tracker;
        self.pie.tracker.check_task_read_resource_start(reading_task, dependency.checker(), dependency.stamp());
        let ghost mid = self.pie.tracker;
        let ghost state_before = self.pie.resource_state;
        let r = dependency.is_consistent(&mut self.pie.resource_state, &mut self.pie.tracker, Some(reading_task));
        proof {
            let stamped = choose|stamped: Result<Val, FsError>|
                #[trigger] self.pie.resource_state.stamp_gives(state_before, dependency@.resource, dependency@.checker, stamped)
                    && check_result(stamp_outcome(stamped, dependency@.stamp), dependency@.stamp, r) && self.pie.tracker.follows(
                    mid,
                    crate::dependency::check_end_event(dependency@, Some(reading_task@), stamp_outcome(stamped, dependency@.stamp)),
                );
            assert(before == old(self).spec_tracker());
            assert(state_before == old(self).spec_resource_state());
            assert(mid.follows(before, TrackEvent::CheckTaskReadResourceStart(reading_task@, dependency@.checker, dependency@.stamp)));
            assert(self.pie.tracker.follows(mid, TrackEvent::CheckTaskReadResourceEnd(reading_task@, dependency@.checker, dependency@.stamp, stamp_outcome(stamped, dependency@.stamp))));
            assert(self.spec_resource_state().stamp_gives(
                old(self).spec_resource_state(),
                dependency@.resource,
                dependency@.checker,
                stamped,
            ));
        }
        r
    }

    /// Schedules task `task_node` when its read or write dependency `dependency` is inconsistent, or when checking it
    /// fails, recording the error.
    fn try_schedule_task_by_resource_dependency(&mut self, task_node: TaskNode, dependency: &ResourceDependency)
        requires
            old(self).session_inv(),
            old(self).spec_store().is_task_node(task_node.0 as int),
        ensures
            final(self).session_inv(),
            final(self).session_extends(old(self)),
            final(self).spec_store() == old(self).spec_store(),
            final(self).spec_consistent() == old(self).spec_consistent(),
            final(self).spec_scheduled().elements() == old(self).spec_scheduled().elements()
                || final(self).spec_scheduled().elements() == old(self).spec_scheduled().elements().insert(task_node),
            exists|stamped: Result<Val, FsError>|
                #[trigger] final(self).spec_resource_state().stamp_gives(
                    old(self).spec_resource_state(),
                    dependency@.resource,
                    dependency@.checker,
                    stamped,
                ) && scheduled_by_outcome(
                    *final(self),
                    *old(self),
                    task_node,
                    stamp_outcome(stamped, dependency@.stamp),
                    dependency@.stamp,
                ) && follows_two(
                    final(self).spec_tracker(),
                    old(self).spec_tracker(),
                    TrackEvent::CheckTaskReadResourceStart(
                        old(self).spec_store().node_key(task_node.0 as int),
                        dependency@.checker,
                        dependency@.stamp,
                    ),
                    TrackEvent::CheckTaskReadResourceEnd(
                        old(self).spec_store().node_key(task_node.0 as int),
                        dependency@.checker,
                        dependency@.stamp,
                        stamp_outcome(stamped, dependency@.stamp),
                    ),
                ),
            final(self).spec_executions() == old(self).spec_executions(),
    {
        let ghost old_self = *self;
        proof {
            self.spec_store().lemma_wf_nodes();
        }
        let key = self.pie.store.get_task_key(&task_node).copy();
        let r = self.is_read_dependency_consistent(&key, dependency);
        let ghost after_check = *self;
        let ghost stamped = choose|stamped: Result<Val, FsError>|
            #[trigger] after_check.spec_resource_state().stamp_gives(
                old_self.spec_resource_state(),
                dependency@.resource,
                dependency@.checker,
                stamped,
            ) && check_result(stamp_outcome(stamped, dependency@.stamp), dependency@.stamp, r) && follows_two(
                after_check.spec_tracker(),
                old_self.spec_tracker(),
                TrackEvent::CheckTaskReadResourceStart(key@, dependency@.checker, dependency@.stamp),
                TrackEvent::CheckTaskReadResourceEnd(
                    key@,
                    dependency@.checker,
                    dependency@.stamp,
                    stamp_outcome(stamped, dependency@.stamp),
                ),
            );
        let ghost outcome = stamp_outcome(stamped, dependency@.stamp);
        match r {
            Ok(true) => {},
            Ok(false) => {
                self.scheduled.add(task_node);
                proof {
                    self.ever_scheduled = Ghost(self.ever_scheduled@.insert(task_node));
                }
            },
            Err(e) => {
                self.dependency_check_errors.push(e);
                self.scheduled.add(task_node);
                proof {
                    self.ever_scheduled = Ghost(self.ever_scheduled@.insert(task_node));
                }
            },
        }
        proof {
            assert(check_result(outcome, dependency@.stamp, r));
            assert(scheduled_by_outcome(*self, old_self, task_node, outcome, dependency@.stamp));
            assert(self.spec_resource_state() == after_check.spec_resource_state());
        }
    }

    /// Schedules the tasks affected by a change to `resource`: the tasks whose read or write dependency to it is
    /// inconsistent.
    fn schedule_affected_by(&mut self, resource: &KeyObj)
        requires
            old(self).session_inv(),
        ensures
            final(self).session_inv(),
            final(self).session_extends(old(self)),
            final(self).spec_consistent() == old(self).spec_consistent(),
            old(self).spec_scheduled().elements().subset_of(final(self).spec_scheduled().elements()),
            forall|n: TaskNode| #[trigger]
                final(self).spec_scheduled().elements().contains(n) ==> old(self).spec_scheduled().elements().contains(
                    n,
                ) || touches_resource(final(self).spec_store(), n, resource@),
            exists|d: int, outcomes: Seq<Result<Option<Val>, FsError>>|
                #[trigger] checked_dependencies(
                    *final(self),
                    *old(self),
                    final(self).spec_store(),
                    crate::store::reads_or_writes_to(final(self).spec_store().edge_seq(), d),
                    outcomes,
                ) && final(self).spec_store().is_resource_node(d) && final(self).spec_store().node_key(d) == resource@
                    && outcomes.len() == crate::store::reads_or_writes_to(final(self).spec_store().edge_seq(), d).len(),
            final(self).spec_executions() == old(self).spec_executions(),
            forall|i: int|
                0 <= i < old(self).spec_store().len() ==> #[trigger] final(self).spec_store().output_of(i) == old(
                    self,
                ).spec_store().output_of(i),
    {
        let ghost old_self = *self;
        let ghost start_store = self.pie.store;
        let node = self.pie.store.get_or_create_resource_node(resource);
        proof {
            start_store.lemma_wf_nodes();
            assert forall|i: int| 0 <= i < old_self.spec_consistent().len() implies #[trigger] self.spec_store().output_of(
                old_self.spec_consistent()[i].0 as int,
            ) is Some by {
                assert(start_store.is_task_node(old_self.spec_consistent()[i].0 as int));
            }
            self.lemma_inv_after_store_change(old_self);
        }
        let ghost after_node = *self;
        let ghost store = self.pie.store;
        let dependencies = self.pie.store.get_read_and_write_dependencies_to_resource(&node);
        let ghost rs = crate::store::reads_or_writes_to(store.edge_seq(), node.0 as int);
        proof {
            store.lemma_reads_or_writes_to_valid(node.0 as int);
            assert(dependencies@.map_values(|x: (TaskNode, ResourceDependency)| (x.0.0 as int, x.1@)).len() == rs.map_values(|e: crate::store::EdgeView| (e.src, crate::store::resource_dependency_of(e.dependency))).len());
            lemma_checked_none(after_node, old_self, store, rs);
        }
        let ghost mut outcomes: Seq<Result<Option<Val>, FsError>> = Seq::empty();
        let mut i: usize = 0;
        while i < dependencies.len()
            invariant
                checked_dependencies(*self, old_self, store, rs, outcomes),
                outcomes.len() == i,
                self.spec_executions() == old_self.spec_executions(),
                self.session_inv(),
                self.session_extends(&after_node),
                after_node.session_inv(),
                after_node.session_extends(&old_self),
                old_self.spec_scheduled().elements() == after_node.spec_scheduled().elements(),
                self.spec_store() == store,
                self.spec_consistent() == old_self.spec_consistent(),
                store.is_resource_node(node.0 as int),
                store.node_key(node.0 as int) == resource@,
                rs == crate::store::reads_or_writes_to(store.edge_seq(), node.0 as int),
                dependencies@.map_values(|x: (TaskNode, ResourceDependency)| (x.0.0 as int, x.1@)) == rs.map_values(
                    |e: crate::store::EdgeView| (e.src, crate::store::resource_dependency_of(e.dependency)),
                ),
                dependencies@.len() == rs.len(),
                forall|k: int|
                    0 <= k < rs.len() ==> store.is_task_node((#[trigger] rs[k]).src) && rs[k].dst == node.0 as int
                        && crate::store::is_read_or_write(rs[k].dependency),
                i <= dependencies@.len(),
                old_self.spec_scheduled().elements().subset_of(self.spec_scheduled().elements()),
                forall|n: TaskNode| #[trigger]
                    self.spec_scheduled().elements().contains(n) ==> old_self.spec_scheduled().elements().contains(n)
                        || touches_resource(store, n, resource@),
            decreases dependencies@.len() - i,
        {
            let ghost before = *self;
            let pair = &dependencies[i];
            proof {
                assert(dependencies@.map_values(|x: (TaskNode, ResourceDependency)| (x.0.0 as int, x.1@))[i as int]
                    == rs.map_values(|e: crate::store::EdgeView| (e.src, crate::store::resource_dependency_of(e.dependency)))[i as int]);
                assert(pair.0.0 as int == rs[i as int].src);
                assert(store.is_task_node(rs[i as int].src));
                lemma_filter_source(store, node.0 as int, i as int);
                assert(touches_resource(store, pair.0, resource@));
            }
            self.try_schedule_task_by_resource_dependency(pair.0, &pair.1);
            proof {
                lemma_session_extends_trans(after_node, before, *self);
                let stamped = choose|stamped: Result<Val, FsError>|
                    #[trigger] self.spec_resource_state().stamp_gives(
                        before.spec_resource_state(),
                        pair.1@.resource,
                        pair.1@.checker,
                        stamped,
                    ) && scheduled_by_outcome(
                        *self,
                        before,
                        pair.0,
                        stamp_outcome(stamped, pair.1@.stamp),
                        pair.1@.stamp,
                    ) && follows_two(
                        self.spec_tracker(),
                        before.spec_tracker(),
                        TrackEvent::CheckTaskReadResourceStart(
                            store.node_key(pair.0.0 as int),
                            pair.1@.checker,
                            pair.1@.stamp,
                        ),
                        TrackEvent::CheckTaskReadResourceEnd(
                            store.node_key(pair.0.0 as int),
                            pair.1@.checker,
                            pair.1@.stamp,
                            stamp_outcome(stamped, pair.1@.stamp),
                        ),
                    );
                let outcome = stamp_outcome(stamped, pair.1@.stamp);
                lemma_checked_step(old_self, before, *self, store, rs, outcomes, pair.0, outcome, stamped);
                outcomes = outcomes.push(outcome);
            }
            i = i + 1;
        }
        proof {
            lemma_session_extends_trans(old_self, after_node, *self);
            assert(checked_dependencies(*self, old_self, self.spec_store(), crate::store::reads_or_writes_to(
                self.spec_store().edge_seq(),
                node.0 as int,
            ), outcomes));
        }
    }
}

impl<'p, T: Task, A: Tracker, S: ResourceState> Session<'p, T, A, S> {
    /// Checks whether the require dependency `dependency` of task `requiring_task` is consistent with `output`, the
    /// new output of the required task.
    fn is_task_dependency_consistent_with(
        &mut self,
        requiring_task: &KeyObj,
        dependency: &TaskDependency,
        output: &ValueObj,
    ) -> (r: bool)
        requires
            old(self).session_inv(),
        ensures
            final(self).session_inv(),
            final(self).session_extends(old(self)),
            final(self).spec_consistent() == old(self).spec_consistent(),
            final(self).spec_store() == old(self).spec_store(),
            final(self).spec_scheduled() == old(self).spec_scheduled(),
            final(self).spec_executed() == old(self).spec_executed(),
            r == (dependency@.checker.spec_check_obj(output@, dependency@.stamp) is None),
    {
        self.pie.tracker.check_task_require_task_start(requiring_task, dependency.checker(), dependency.stamp());
        let inconsistency = dependency.check(output);
        match &inconsistency {
            Some(i) => self.pie.tracker.check_task_require_task_end(
                requiring_task,
                dependency.checker(),
                dependency.stamp(),
                Some(i),
            ),
            None => self.pie.tracker.check_task_require_task_end(
                requiring_task,
                dependency.checker(),
                dependency.stamp(),
                None,
            ),
        }
        inconsistency.is_none()
    }

    /// Schedules the tasks that read resource `resource_node` and whose read dependency is inconsistent.
    fn schedule_readers_of(&mut self, resource_node: ResourceNode)
        requires
            old(self).session_inv(),
        ensures
            final(self).session_inv(),
            final(self).session_extends(old(self)),
            final(self).spec_consistent() == old(self).spec_consistent(),
            final(self).spec_store() == old(self).spec_store(),
            exists|outcomes: Seq<Result<Option<Val>, FsError>>|
                #[trigger] checked_dependencies(
                    *final(self),
                    *old(self),
                    old(self).spec_store(),
                    crate::store::reads_to(old(self).spec_store().edge_seq(), resource_node.0 as int),
                    outcomes,
                ) && outcomes.len() == crate::store::reads_to(
                    old(self).spec_store().edge_seq(),
                    resource_node.0 as int,
                ).len(),
            final(self).spec_executions() == old(self).spec_executions(),
    {
        let ghost old_self = *self;
        let ghost store = self.pie.store;
        let readers = self.pie.store.get_read_dependencies_to_resource(&resource_node);
        let ghost rs = crate::store::reads_to(store.edge_seq(), resource_node.0 as int);
        proof {
            store.lemma_reads_to_valid(resource_node.0 as int);
            assert(readers@.map_values(|x: (TaskNode, ResourceDependency)| (x.0.0 as int, x.1@)).len() == rs.map_values(|e: crate::store::EdgeView| (e.src, crate::store::resource_dependency_of(e.dependency))).len());
            lemma_checked_none(old_self, old_self, store, rs);
        }
        let ghost mut outcomes: Seq<Result<Option<Val>, FsError>> = Seq::empty();
        let mut j: usize = 0;
        while j < readers.len()
            invariant
                checked_dependencies(*self, old_self, store, rs, outcomes),
                outcomes.len() == j,
                self.spec_executions() == old_self.spec_executions(),
                self.session_inv(),
                self.session_extends(&old_self),
                self.spec_store() == store,
                self.spec_consistent() == old_self.spec_consistent(),
                rs == crate::store::reads_to(store.edge_seq(), resource_node.0 as int),
                readers@.map_values(|x: (TaskNode, ResourceDependency)| (x.0.0 as int, x.1@)) == rs.map_values(
                    |e: crate::store::EdgeView| (e.src, crate::store::resource_dependency_of(e.dependency)),
                ),
                readers@.len() == rs.len(),
                forall|k: int| 0 <= k < rs.len() ==> store.is_task_node((#[trigger] rs[k]).src),
                j <= readers@.len(),
            decreases readers@.len() - j,
        {
            let ghost before = *self;
            let pair = &readers[j];
            proof {
                assert(readers@.map_values(|x: (TaskNode, ResourceDependency)| (x.0.0 as int, x.1@))[j as int]
                    == rs.map_values(|e: crate::store::EdgeView| (e.src, crate::store::resource_dependency_of(e.dependency)))[j as int]);
                assert(store.is_task_node(rs[j as int].src));
            }
            self.try_schedule_task_by_resource_dependency(pair.0, &pair.1);
            proof {
                lemma_session_extends_trans(old_self, before, *self);
                let stamped = choose|stamped: Result<Val, FsError>|
                    #[trigger] self.spec_resource_state().stamp_gives(
                        before.spec_resource_state(),
                        pair.1@.resource,
                        pair.1@.checker,
                        stamped,
                    ) && scheduled_by_outcome(
                        *self,
                        before,
                        pair.0,
                        stamp_outcome(stamped, pair.1@.stamp),
                        pair.1@.stamp,
                    ) && follows_two(
                        self.spec_tracker(),
                        before.spec_tracker(),
                        TrackEvent::CheckTaskReadResourceStart(
                            store.node_key(pair.0.0 as int),
                            pair.1@.checker,
                            pair.1@.stamp,
                        ),
                        TrackEvent::CheckTaskReadResourceEnd(
                            store.node_key(pair.0.0 as int),
                            pair.1@.checker,
                            pair.1@.stamp,
                            stamp_outcome(stamped, pair.1@.stamp),
                        ),
                    );
                let outcome = stamp_outcome(stamped, pair.1@.stamp);
                lemma_checked_step(old_self, before, *self, store, rs, outcomes, pair.0, outcome, stamped);
                outcomes = outcomes.push(outcome);
            }
            j = j + 1;
        }
    }

    /// Executes the task of `node`, then schedules the tasks affected by it: the tasks that read a resource it wrote
    /// and whose read dependency is inconsistent, and the tasks that require it and whose require dependency is
    /// inconsistent with its new output. Returns its output.
    fn execute_and_schedule(&mut self, node: TaskNode) -> (r: ValueObj)
        requires
            old(self).session_inv(),
            old(self).spec_store().is_task_node(node.0 as int),
            old(self).spec_bottom_up() ==> old(self).spec_ever_scheduled().contains(node),
        ensures
            final(self).session_inv(),
            final(self).session_extends(old(self)),
            final(self).spec_store().output_of(node.0 as int) == Some(r@),
            final(self).spec_consistent().contains(node),
            final(self).spec_executions() >= old(self).spec_executions() + 1,
            executed_since(*final(self), *old(self), node),
            exists|mid: Session<'p, T, A, S>, flags: Seq<Set<TaskNode>>|
                #[trigger] scheduled_after_execution(*final(self), mid, flags, node.0 as int, r@) && mid.session_extends(
                    old(self),
                ) && mid.spec_executions() == final(self).spec_executions() && mid.spec_executed().last() == (
                old(self).spec_store().node_key(node.0 as int),
                r@,
            ),
    {
        let ghost old_self = *self;
        let task = self.pie.store.get_task(&node).clone();
        let key = self.pie.store.get_task_key(&node).copy();
        let output = self.execute(&task, &key, node);
        let ghost after_execute = *self;
        let ghost store = self.pie.store;
        proof {
            old_self.spec_store().lemma_wf_nodes();
            store.lemma_wf_nodes();
            assert(after_execute.spec_executed()[after_execute.spec_executions() - 1] == (key@, output@));
            assert(executed_during(after_execute, old_self, key@, output@));
            assert(executed_since(after_execute, old_self, node));
        }
        let written = self.pie.store.get_resources_written_by(&node);
        let ghost ws = crate::store::writes_from(store.edge_seq(), node.0 as int);
        proof {
            store.lemma_writes_from_valid(node.0 as int);
            assert(written@.map_values(|n: ResourceNode| n.0 as int).len() == ws.map_values(|e: crate::store::EdgeView| e.dst).len());
            assert(after_execute.spec_scheduled().elements().union(union_all(Seq::<Set<TaskNode>>::empty())) =~= after_execute.spec_scheduled().elements());
        }
        let ghost mut flags: Seq<Set<TaskNode>> = Seq::empty();
        let mut i: usize = 0;
        while i < written.len()
            invariant
                self.session_inv(),
                self.session_extends(&after_execute),
                self.spec_store() == store,
                self.spec_executed() == after_execute.spec_executed(),
                store.output_of(node.0 as int) == Some(output@),
                store.is_task_node(node.0 as int),
                i <= written@.len(),
                ws == crate::store::writes_from(store.edge_seq(), node.0 as int),
                written@.map_values(|n: ResourceNode| n.0 as int) == ws.map_values(|e: crate::store::EdgeView| e.dst),
                written@.len() == ws.len(),
                flags.len() == i,
                forall|j: int| 0 <= j < i ==> readers_flagged(store, (#[trigger] ws[j]).dst, flags[j], after_execute),
                self.spec_scheduled().elements() == after_execute.spec_scheduled().elements().union(union_all(flags)),
            decreases written@.len() - i,
        {
            let ghost before = *self;
            self.schedule_readers_of(written[i]);
            proof {
                lemma_session_extends_trans(after_execute, before, *self);
                assert(written@.map_values(|n: ResourceNode| n.0 as int)[i as int] == ws.map_values(|e: crate::store::EdgeView| e.dst)[i as int]);
                assert(written@.map_values(|n: ResourceNode| n.0 as int)[i as int] == written@[i as int].0 as int);
                assert(ws.map_values(|e: crate::store::EdgeView| e.dst)[i as int] == ws[i as int].dst);
                let d = ws[i as int].dst;
                let outcomes = choose|outcomes: Seq<Result<Option<Val>, FsError>>|
                    #[trigger] checked_dependencies(
                        *self,
                        before,
                        before.spec_store(),
                        crate::store::reads_to(before.spec_store().edge_seq(), d),
                        outcomes,
                    ) && outcomes.len() == crate::store::reads_to(before.spec_store().edge_seq(), d).len();
                let f = flagged(crate::store::reads_to(store.edge_seq(), d), outcomes);
                assert(readers_flagged(store, d, f, after_execute));
                let next = flags.push(f);
                assert(next.drop_last() =~= flags);
                assert(union_all(next) == union_all(flags).union(f));
                assert(self.spec_scheduled().elements() =~= after_execute.spec_scheduled().elements().union(union_all(next)));
                assert forall|j: int| 0 <= j < i + 1 implies readers_flagged(store, (#[trigger] ws[j]).dst, next[j], after_execute) by {
                    if j < i {
                        assert(next[j] == flags[j]);
                    }
                }
                flags = next;
            }
            i = i + 1;
        }
        let ghost after_readers = *self;
        proof {
            assert(self.session_extends(&after_readers));
            assert(inconsistent_requirers(store, node.0 as int, output@, 0) =~= Set::<TaskNode>::empty());
            assert(self.spec_scheduled().elements() =~= after_readers.spec_scheduled().elements().union(
                inconsistent_requirers(store, node.0 as int, output@, 0),
            ));
        }
        let requirers = self.pie.store.get_require_dependencies_to_task(&node);
        let ghost qs = crate::store::requires_to(store.edge_seq(), node.0 as int);
        proof {
            store.lemma_requires_to_valid(node.0 as int);
            assert(requirers@.map_values(|x: (TaskNode, TaskDependency)| (x.0.0 as int, x.1@)).len() == qs.map_values(|e: crate::store::EdgeView| (e.src, crate::store::task_dependency_of(e.dependency))).len());
        }
        let mut k: usize = 0;
        while k < requirers.len()
            invariant
                self.session_inv(),
                self.session_extends(&after_execute),
                self.session_extends(&after_readers),
                after_readers.session_inv(),
                self.spec_store() == store,
                self.spec_executed() == after_execute.spec_executed(),
                store.output_of(node.0 as int) == Some(output@),
                store.is_task_node(node.0 as int),
                qs == crate::store::requires_to(store.edge_seq(), node.0 as int),
                requirers@.map_values(|x: (TaskNode, TaskDependency)| (x.0.0 as int, x.1@)) == qs.map_values(
                    |e: crate::store::EdgeView| (e.src, crate::store::task_dependency_of(e.dependency)),
                ),
                requirers@.len() == qs.len(),
                forall|j: int| 0 <= j < qs.len() ==> store.is_task_node((#[trigger] qs[j]).src),
                k <= requirers@.len(),
                self.spec_scheduled().elements() == after_readers.spec_scheduled().elements().union(
                    inconsistent_requirers(store, node.0 as int, output@, k as int),
                ),
            decreases requirers@.len() - k,
        {
            let ghost before = *self;
            let pair = &requirers[k];
            proof {
                assert(requirers@.map_values(|x: (TaskNode, TaskDependency)| (x.0.0 as int, x.1@))[k as int]
                    == qs.map_values(|e: crate::store::EdgeView| (e.src, crate::store::task_dependency_of(e.dependency)))[k as int]);
                assert(store.is_task_node(qs[k as int].src));
            }
            let requiring_key = self.pie.store.get_task_key(&pair.0).copy();
            let found = self.is_task_dependency_consistent_with(&requiring_key, &pair.1, &output);
            if !found {
                self.scheduled.add(pair.0);
                proof {
                    self.ever_scheduled = Ghost(self.ever_scheduled@.insert(pair.0));
                }
            }
            proof {
                lemma_session_extends_trans(after_execute, before, *self);
                lemma_session_extends_trans(after_readers, before, *self);
                let irq = inconsistent_requirers(store, node.0 as int, output@, k as int);
                let irq2 = inconsistent_requirers(store, node.0 as int, output@, k + 1);
                assert forall|n: TaskNode| #[trigger] irq2.contains(n) implies irq.contains(n) || (n == pair.0 && !found) by {
                    let j = choose|j: int|
                        0 <= j < k + 1 && j < crate::store::requires_to(store.edge_seq(), node.0 as int).len() && (#[trigger] crate::store::requires_to(
                            store.edge_seq(),
                            node.0 as int,
                        )[j]).src == n.0 as int && crate::store::task_dependency_of(
                            crate::store::requires_to(store.edge_seq(), node.0 as int)[j].dependency,
                        ).checker.spec_check_obj(
                            output@,
                            crate::store::task_dependency_of(crate::store::requires_to(store.edge_seq(), node.0 as int)[j].dependency).stamp,
                        ) is Some;
                    if j < k {
                        assert(irq.contains(n));
                    } else {
                        assert(n == pair.0);
                    }
                }
                assert forall|n: TaskNode| irq.contains(n) implies #[trigger] irq2.contains(n) by {
                    let j = choose|j: int|
                        0 <= j < k && j < crate::store::requires_to(store.edge_seq(), node.0 as int).len() && (#[trigger] crate::store::requires_to(
                            store.edge_seq(),
                            node.0 as int,
                        )[j]).src == n.0 as int && crate::store::task_dependency_of(
                            crate::store::requires_to(store.edge_seq(), node.0 as int)[j].dependency,
                        ).checker.spec_check_obj(
                            output@,
                            crate::store::task_dependency_of(crate::store::requires_to(store.edge_seq(), node.0 as int)[j].dependency).stamp,
                        ) is Some;
                    assert(j < k + 1);
                }
                if !found {
                    assert(irq2.contains(pair.0)) by {
                        assert(crate::store::requires_to(store.edge_seq(), node.0 as int)[k as int].src == pair.0.0 as int);
                    }
                    assert(self.spec_scheduled().elements() =~= after_readers.spec_scheduled().elements().union(irq2));
                } else {
                    assert(self.spec_scheduled().elements() =~= after_readers.spec_scheduled().elements().union(irq2));
                }
            }
            k = k + 1;
        }
        let ghost before_insert = *self;
        self.insert_consistent(node);
        proof {
            lemma_session_extends_trans(after_execute, before_insert, *self);
            lemma_session_extends_trans(old_self, after_execute, *self);
            lemma_session_extends_trans(after_readers, before_insert, *self);
            lemma_executed_since_widen(after_execute, old_self, *self, old_self, node);
            assert(qs.len() == k);
            assert(self.spec_scheduled().elements() =~= after_execute.spec_scheduled().elements().union(union_all(flags)).union(
                inconsistent_requirers(store, node.0 as int, output@, qs.len() as int),
            ));
            assert(scheduled_after_execution(*self, after_execute, flags, node.0 as int, output@));
            assert(key@ == old_self.spec_store().node_key(node.0 as int));
        }
        output
    }

    /// Executes scheduled tasks, and the tasks they schedule in turn, until no task is scheduled (or a bound of
    /// `u64::MAX` executions is reached).
    fn execute_scheduled(&mut self)
        requires
            old(self).session_inv(),
        ensures
            final(self).session_inv(),
            final(self).session_extends(old(self)),
            final(self).spec_scheduled().elements().is_empty() || final(self).spec_executions()
                >= old(self).spec_executions() + u64::MAX,
            old(self).spec_scheduled().elements().is_empty() ==> final(self).spec_executed() == old(
                self,
            ).spec_executed(),
    {
        let ghost old_self = *self;
        let mut fuel: u64 = u64::MAX;
        let mut done = false;
        while !done && fuel > 0
            invariant
                self.session_inv(),
                self.session_extends(&old_self),
                old_self.spec_scheduled().elements().is_empty() ==> self.spec_executed() == old_self.spec_executed()
                    && self.spec_scheduled().elements().is_empty(),
                !done ==> self.spec_executions() >= old_self.spec_executions() + (u64::MAX - fuel),
                done ==> self.spec_scheduled().elements().is_empty(),
            decreases fuel,
        {
            fuel = fuel - 1;
            let ghost before = *self;
            match self.scheduled.pop(&self.pie.store) {
                Some(node) => {
                    proof {
                        assert(before.spec_scheduled().elements().contains(node));
                        assert forall|n: TaskNode| #[trigger] self.spec_scheduled().elements().contains(n) implies self.spec_store().is_task_node(n.0 as int) by {
                            assert(before.spec_scheduled().elements().contains(n));
                        }
                    }
                    let ghost popped = *self;
                    self.execute_and_schedule(node);
                    proof {
                        lemma_extends_after_pop(before, popped, *self, node);
                        lemma_session_extends_trans(old_self, before, *self);
                    }
                },
                None => {
                    proof {
                        lemma_session_extends_same(old_self, before, old_self, *self);
                    }
                    done = true;
                },
            }
        }
    }

    /// Executes the scheduled tasks that `node` is or depends on, least dependent first, scheduling the tasks they
    /// affect, until `node` itself is executed. Returns the output of `node` when it was executed, or `None` when it
    /// was not scheduled.
    fn require_scheduled_now(&mut self, node: &TaskNode) -> (r: Option<ValueObj>)
        requires
            old(self).session_inv(),
            old(self).spec_store().is_task_node(node.0 as int),
        ensures
            final(self).session_inv(),
            final(self).session_extends(old(self)),
            r matches Some(o) ==> final(self).spec_store().output_of(node.0 as int) == Some(o@)
                && final(self).spec_consistent().contains(*node),
            r is None ==> !final(self).spec_scheduled().elements().contains(*node) || final(self).spec_executions()
                >= old(self).spec_executions() + u64::MAX,
    {
        let ghost old_self = *self;
        proof {
            old_self.spec_store().lemma_wf_nodes();
        }
        let mut fuel: u64 = u64::MAX;
        while fuel > 0 && self.scheduled.is_not_empty()
            invariant
                self.session_inv(),
                self.session_extends(&old_self),
                self.spec_executions() >= old_self.spec_executions() + (u64::MAX - fuel),
                old_self == *old(self),
                old_self.spec_store().is_task_node(node.0 as int),
                (node.0 as int) < old_self.spec_store().len(),
            decreases fuel,
        {
            fuel = fuel - 1;
            let ghost before = *self;
            proof {
                assert(self.spec_store().is_task_node(node.0 as int));
            }
            match self.scheduled.pop_least_task_with_dependency_from(node, &self.pie.store) {
                Some(min) => {
                    proof {
                        assert(before.spec_scheduled().elements().contains(min));
                        assert forall|n: TaskNode| #[trigger] self.spec_scheduled().elements().contains(n) implies self.spec_store().is_task_node(n.0 as int) by {
                            assert(before.spec_scheduled().elements().contains(n));
                        }
                    }
                    let ghost popped = *self;
                    let output = self.execute_and_schedule(min);
                    proof {
                        lemma_extends_after_pop(before, popped, *self, min);
                        lemma_session_extends_trans(old_self, before, *self);
                    }
                    if min == *node {
                        return Some(output);
                    }
                },
                None => {
                    proof {
                        lemma_session_extends_same(old_self, before, old_self, *self);
                    }
                    return None;
                },
            }
        }
        None
    }

    /// Makes task `task`, identified by `key` and `node`, consistent in a bottom-up build, returning its output: the
    /// cached output when it is consistent in this session; the output of executing it when it is new; the output of
    /// executing it when it was scheduled, directly or through the tasks it depends on; otherwise its cached output,
    /// which no change can have affected.
    fn make_task_consistent_bottom_up(&mut self, task: &T, key: &KeyObj, node: TaskNode) -> (r: ValueObj)
        requires
            old(self).session_inv(),
            old(self).spec_store().is_task_node(node.0 as int),
            old(self).spec_store().node_key(node.0 as int) == key@,
        ensures
            final(self).session_inv(),
            final(self).session_extends(old(self)),
            final(self).spec_store().output_of(node.0 as int) == Some(r@),
            consistent_output_of(*old(self), key@) matches Some(o) ==> r@ == o,
            old(self).spec_store().output_of(node.0 as int) is None ==> executed_during(
                *final(self),
                *old(self),
                key@,
                r@,
            ),
    {
        proof {
            self.spec_store().lemma_wf_nodes();
            self.lemma_consistent_output_found(*self, node, key@);
        }
        if self.is_consistent_node(&node) {
            match self.pie.store.get_task_output(&node) {
                Some(o) => {
                    proof {
                        if old(self).spec_store().output_of(node.0 as int) is None {
                            let k = choose|k: int| 0 <= k < self.consistent@.len() && self.consistent@[k] == node;
                            assert(self.spec_store().output_of(self.spec_consistent()[k].0 as int) is Some);
                        }
                    }
                    return o.copy();
                },
                None => {
                    proof {
                        let i = choose|i: int| 0 <= i < self.consistent@.len() && self.consistent@[i] == node;
                        assert(self.spec_store().output_of(self.spec_consistent()[i].0 as int) is Some);
                    }
                    return vstd::pervasive::unreached();
                },
            }
        }
        if self.pie.store.get_task_output(&node).is_none() {
            let o = self.execute(task, key, node);
            proof {
                assert(self.spec_executed()[self.spec_executions() - 1] == (key@, o@));
            }
            return o;
        }
        let ghost before = *self;
        match self.require_scheduled_now(&node) {
            Some(output) => output,
            None => {
                proof {
                    assert(before.spec_store().output_of(node.0 as int) is Some);
                    assert(self.spec_store().output_of(node.0 as int) is Some);
                }
                match self.pie.store.get_task_output(&node) {
                    Some(o) => o.copy(),
                    None => vstd::pervasive::unreached(),
                }
            },
        }
    }
}

/// The check of resource dependency `d`, which took session `before` to session `after`, found it `consistent` or
/// not: the tracker took in the check and its outcome, which is no inconsistency exactly when the dependency was
/// found consistent, a new stamp that differs from the stamp of the dependency, or an error, which was recorded.
pub open spec fn resource_checked<'p, T, A: Tracker, S: ResourceState>(
    d: crate::dependency::ResourceDependencyView,
    consistent: bool,
    before: Session<'p, T, A, S>,
    after: Session<'p, T, A, S>,
) -> bool {
    exists|stamped: Result<Val, FsError>|
        #[trigger] after.spec_resource_state().stamp_gives(before.spec_resource_state(), d.resource, d.checker, stamped)
            && follows_two(
            after.spec_tracker(),
            before.spec_tracker(),
            TrackEvent::CheckResourceStart(d.resource, d.checker, d.stamp),
            TrackEvent::CheckResourceEnd(d.resource, d.checker, d.stamp, stamp_outcome(stamped, d.stamp)),
        ) && (consistent <==> stamped == Ok::<Val, FsError>(d.stamp)) && match stamped {
            Ok(_) => after.spec_errors() == before.spec_errors(),
            Err(e) => after.spec_errors() == before.spec_errors().push(e),
        }
}

/// The check of dependency `dependency` with a depth of `fuel`, which took session `before` to session `after`,
/// found it `consistent` or not. A reserved require dependency is never consistent. A require dependency is
/// consistent when the required task is made consistent with an output that its checker finds consistent with the
/// stamp of the dependency; it is inconsistent when the depth ran out, the task is unknown, or its checker finds an
/// inconsistency. A read or write dependency is as `resource_checked` says.
pub open spec fn dependency_checked<'p, T, A: Tracker, S: ResourceState>(
    dependency: DependencyView,
    consistent: bool,
    fuel: u64,
    before: Session<'p, T, A, S>,
    after: Session<'p, T, A, S>,
) -> bool {
    match dependency {
        DependencyView::ReservedRequire => !consistent,
        DependencyView::Require(d) => {
            &&& consistent ==> exists|o: Val|
                #[trigger] required(after, d.task, o) && d.checker.spec_check_obj(o, d.stamp) is None
            &&& !consistent ==> fuel == 0 || (forall|n: int|
                #[trigger] before.spec_store().is_task_node(n) ==> before.spec_store().node_key(n) != d.task)
                || exists|o: Val| #[trigger] required(after, d.task, o) && d.checker.spec_check_obj(o, d.stamp) is Some
        },
        DependencyView::Read(d) => resource_checked(d, consistent, before, after),
        DependencyView::Write(d) => resource_checked(d, consistent, before, after),
    }
}

/// `checks` are the checks, in order, of the first `checks.len()` dependencies `deps`, each with whether it was found
/// consistent and the sessions before and after it.
pub open spec fn all_checked<'p, T, A: Tracker, S: ResourceState>(
    checks: Seq<(bool, Session<'p, T, A, S>, Session<'p, T, A, S>)>,
    deps: Seq<crate::store::EdgeView>,
    fuel: u64,
) -> bool {
    &&& checks.len() <= deps.len()
    &&& forall|k: int|
        0 <= k < checks.len() ==> dependency_checked(
            deps[k].dependency,
            (#[trigger] checks[k]).0,
            fuel,
            checks[k].1,
            checks[k].2,
        )
}

/// The checks `checks` took session `start` to session `end`, one after another: each starts from the session that
/// the previous one ended with.
pub open spec fn checks_chain<'p, T, A, S: ResourceState>(
    checks: Seq<(bool, Session<'p, T, A, S>, Session<'p, T, A, S>)>,
    start: Session<'p, T, A, S>,
    end: Session<'p, T, A, S>,
) -> bool {
    &&& checks.len() == 0 ==> end == start
    &&& checks.len() > 0 ==> checks[0].1 == start && checks.last().2 == end
    &&& forall|j: int, k: int|
        #![trigger checks[j], checks[k]]
        0 <= j && k == j + 1 && k < checks.len() ==> checks[j].2 == checks[k].1
}

/// One more check, from the session that `checks` ended with, extends the chain.
proof fn lemma_chain_push<'p, T, A, S: ResourceState>(
    checks: Seq<(bool, Session<'p, T, A, S>, Session<'p, T, A, S>)>,
    start: Session<'p, T, A, S>,
    mid: Session<'p, T, A, S>,
    end: Session<'p, T, A, S>,
    consistent: bool,
)
    requires
        checks_chain(checks, start, mid),
    ensures
        checks_chain(checks.push((consistent, mid, end)), start, end),
{
    let next = checks.push((consistent, mid, end));
    assert forall|j: int, k: int| 0 <= j && k == j + 1 && k < next.len() implies #[trigger] next[j].2 == #[trigger] next[k].1 by {
        if k < checks.len() {
            assert(next[j] == checks[j] && next[k] == checks[k]);
        } else {
            assert(next[j] == checks[j]);
        }
    }
    if checks.len() > 0 {
        assert(next[0] == checks[0]);
    }
}

/// Every one of the dependencies `deps` of task node `node` was checked in `checks` and found consistent, and the
/// task has a cached output in session `end`, where the checks ended: the output can be reused.
pub open spec fn all_consistent<'p, T, A, S: ResourceState>(
    checks: Seq<(bool, Session<'p, T, A, S>, Session<'p, T, A, S>)>,
    deps: Seq<crate::store::EdgeView>,
    end: Session<'p, T, A, S>,
    node: int,
) -> bool {
    &&& checks.len() == deps.len()
    &&& forall|k: int| 0 <= k < checks.len() ==> (#[trigger] checks[k]).0
    &&& end.spec_store().output_of(node) is Some
}

/// Making the task with key `key`, not consistent in session `before`, consistent gave `output` in session `after`:
/// the dependencies that its node had in `before` were checked in turn, from a session with the executions and the
/// resource state of `before`, with a depth of `fuel`; the cached output was reused, with no execution after the
/// checks, exactly when every dependency was found consistent and the task had an output, and otherwise the task was
/// executed after the checks and returned `output`.
pub open spec fn reused_or_executed<'p, T, A: Tracker, S: ResourceState>(
    after: Session<'p, T, A, S>,
    before: Session<'p, T, A, S>,
    key: Val,
    output: Val,
    fuel: u64,
) -> bool {
    exists|
        n: int,
        checks: Seq<(bool, Session<'p, T, A, S>, Session<'p, T, A, S>)>,
        start: Session<'p, T, A, S>,
        end: Session<'p, T, A, S>,
    |
        #[trigger] checks_chain(checks, start, end) && after.spec_store().is_task_node(n) && #[trigger] after.spec_store().node_key(n)
            == key && all_checked(checks, crate::store::edges_from(before.spec_store().edge_seq(), n), fuel)
            && start.spec_executed() == before.spec_executed() && start.spec_resource_state()
            == before.spec_resource_state() && if all_consistent(
            checks,
            crate::store::edges_from(before.spec_store().edge_seq(), n),
            end,
            n,
        ) {
            end.spec_store().output_of(n) == Some(output) && after.spec_executed() == end.spec_executed()
        } else {
            executed_during(after, end, key, output)
        }
}

/// What `reused_or_executed` says of sessions depends only on their stores, executions and resource states.
proof fn lemma_reused_or_executed_same<'p, T, A: Tracker, S: ResourceState>(
    after: Session<'p, T, A, S>,
    before: Session<'p, T, A, S>,
    after2: Session<'p, T, A, S>,
    before2: Session<'p, T, A, S>,
    key: Val,
    output: Val,
    fuel: u64,
)
    requires
        reused_or_executed(after, before, key, output, fuel),
        after2.spec_store() == after.spec_store(),
        after2.spec_executed() == after.spec_executed(),
        before2.spec_store() == before.spec_store(),
        before2.spec_executed() == before.spec_executed(),
        before2.spec_resource_state() == before.spec_resource_state(),
    ensures
        reused_or_executed(after2, before2, key, output, fuel),
{
    let (n, checks, start, end) = choose|
        n: int,
        checks: Seq<(bool, Session<'p, T, A, S>, Session<'p, T, A, S>)>,
        start: Session<'p, T, A, S>,
        end: Session<'p, T, A, S>,
    |
        #[trigger] checks_chain(checks, start, end) && after.spec_store().is_task_node(n) && #[trigger] after.spec_store().node_key(n)
            == key && all_checked(checks, crate::store::edges_from(before.spec_store().edge_seq(), n), fuel)
            && start.spec_executed() == before.spec_executed() && start.spec_resource_state()
            == before.spec_resource_state() && if all_consistent(
            checks,
            crate::store::edges_from(before.spec_store().edge_seq(), n),
            end,
            n,
        ) {
            end.spec_store().output_of(n) == Some(output) && after.spec_executed() == end.spec_executed()
        } else {
            executed_during(after, end, key, output)
        };
    if !all_consistent(checks, crate::store::edges_from(before.spec_store().edge_seq(), n), end, n) {
        let k = choose|k: int|
            end.spec_executions() <= k < after.spec_executions() && #[trigger] after.spec_executed()[k] == (key, output);
        assert(after2.spec_executed()[k] == (key, output));
    }
    assert(checks_chain(checks, start, end) && after2.spec_store().node_key(n) == key);
}

/// Session `start` is session `old` in which the node `node` of the task with key `key` was found or created, with
/// nothing else changed.
pub open spec fn node_found<'p, T, A, S: ResourceState>(
    start: Session<'p, T, A, S>,
    old: Session<'p, T, A, S>,
    node: int,
    key: Val,
) -> bool {
    &&& start.session_extends(&old)
    &&& start.spec_executed() == old.spec_executed()
    &&& start.spec_tracker() == old.spec_tracker()
    &&& start.spec_resource_state() == old.spec_resource_state()
    &&& start.spec_errors() == old.spec_errors()
    &&& start.spec_consistent() == old.spec_consistent()
    &&& start.spec_store().edge_seq() == old.spec_store().edge_seq()
    &&& start.spec_store().is_task_node(node)
    &&& start.spec_store().node_key(node) == key
    &&& node >= old.spec_store().len() ==> start.spec_store().output_of(node) is None
}

/// The tasks of the first `upto` require dependencies to task node `node` in `store` whose checker finds `output`
/// inconsistent with the stamp of the dependency.
pub open spec fn inconsistent_requirers<T>(store: Store<T>, node: int, output: Val, upto: int) -> Set<TaskNode> {
    Set::new(
        |n: TaskNode|
            exists|j: int|
                0 <= j < upto && j < crate::store::requires_to(store.edge_seq(), node).len() && (#[trigger] crate::store::requires_to(
                    store.edge_seq(),
                    node,
                )[j]).src == n.0 as int && crate::store::task_dependency_of(
                    crate::store::requires_to(store.edge_seq(), node)[j].dependency,
                ).checker.spec_check_obj(
                    output,
                    crate::store::task_dependency_of(crate::store::requires_to(store.edge_seq(), node)[j].dependency).stamp,
                ) is Some,
    )
}

/// Requiring the task with key `key` from the executing task `current` closes a cycle in `store`: the task is the
/// executing task, or depends on it, directly or indirectly.
pub open spec fn requiring_closes_cycle<T>(store: Store<T>, current: Option<TaskNode>, key: Val) -> bool {
    current matches Some(c) && exists|d: int|
        #[trigger] store.is_task_node(d) && store.node_key(d) == key && (c.0 == d || store.reaches(d, c.0 as int))
}

/// Adding the task node `dst` for `key` to `old` (or finding it there) keeps the question of a cycle through the
/// executing task `c` the same.
proof fn lemma_cycle_condition<T>(old: Store<T>, new: Store<T>, dst: int, key: Val, c: int)
    requires
        old.wf(),
        new.wf(),
        new.extends(&old),
        new.is_task_node(dst),
        new.node_key(dst) == key,
        dst < old.len() ==> new == old,
        dst >= old.len() ==> forall|b: int| !#[trigger] new.reaches(dst, b),
        old.is_task_node(c),
    ensures
        (c == dst || new.reaches(dst, c)) <==> exists|d: int|
            #[trigger] old.is_task_node(d) && old.node_key(d) == key && (c == d || old.reaches(d, c)),
{
    old.lemma_wf_nodes();
    new.lemma_wf_nodes();
    if dst < old.len() {
        if exists|d: int| #[trigger] old.is_task_node(d) && old.node_key(d) == key && (c == d || old.reaches(d, c)) {
            let d = choose|d: int| #[trigger] old.is_task_node(d) && old.node_key(d) == key && (c == d || old.reaches(d, c));
            old.lemma_task_key_unique(d, dst);
        }
        if c == dst || new.reaches(dst, c) {
            assert(old.is_task_node(dst));
        }
    } else {
        if exists|d: int| #[trigger] old.is_task_node(d) && old.node_key(d) == key && (c == d || old.reaches(d, c)) {
            let d = choose|d: int| #[trigger] old.is_task_node(d) && old.node_key(d) == key && (c == d || old.reaches(d, c));
            assert(new.is_task_node(d));
            new.lemma_task_key_unique(d, dst);
        }
        assert(!new.reaches(dst, c));
    }
}

/// Session `after` is session `before` after executions among which the task with key `key` was executed and
/// returned `output`.
pub open spec fn executed_during<'p, T, A, S: ResourceState>(
    after: Session<'p, T, A, S>,
    before: Session<'p, T, A, S>,
    key: Val,
    output: Val,
) -> bool {
    exists|i: int|
        before.spec_executions() <= i < after.spec_executions() && #[trigger] after.spec_executed()[i] == (key, output)
}

/// The task with key `key` has done no work in `store`: it has no node, or its node has neither an output nor
/// dependencies.
pub open spec fn has_done_no_work<T>(store: Store<T>, key: Val) -> bool {
    forall|n: int|
        #[trigger] store.is_task_node(n) && store.node_key(n) == key ==> store.output_of(n) is None
            && crate::store::edges_from(store.edge_seq(), n).len() == 0
}

/// The task with key `key` has output `output` in `store` and no dependencies, so nothing can make it inconsistent.
pub open spec fn reusable<T>(store: Store<T>, key: Val, output: Val) -> bool {
    exists|n: int|
        #[trigger] store.is_task_node(n) && store.node_key(n) == key && store.output_of(n) == Some(output)
            && crate::store::edges_from(store.edge_seq(), n).len() == 0
}

/// A node that a well-formed store does not have has no dependencies in it.
proof fn lemma_no_edges_from_missing_node<T>(store: Store<T>, n: int)
    requires
        store.wf(),
        n >= store.len(),
    ensures
        crate::store::edges_from(store.edge_seq(), n).len() == 0,
{
    store.lemma_wf_nodes();
    store.lemma_edge_bounds();
    if crate::store::edges_from(store.edge_seq(), n).len() > 0 {
        crate::store::lemma_filter_element(store.edge_seq(), |e: crate::store::EdgeView| e.src == n, 0);
    }
}

/// The output of the task with key `key` when that task is consistent in `session`, or `None` when it is not.
pub open spec fn consistent_output_of<'p, T, A, S: ResourceState>(session: Session<'p, T, A, S>, key: Val) -> Option<Val> {
    if exists|n: TaskNode| #[trigger] session.spec_consistent().contains(n) && session.spec_store().node_key(n.0 as int) == key {
        let n = choose|n: TaskNode| #[trigger] session.spec_consistent().contains(n) && session.spec_store().node_key(n.0 as int) == key;
        session.spec_store().output_of(n.0 as int)
    } else {
        None
    }
}

/// Task node `c` has a dependency to the resource node with key `key` in `store`.
pub open spec fn depends_on_resource<T>(store: Store<T>, c: int, key: Val) -> bool {
    exists|d: int| #[trigger] store.is_resource_node(d) && store.node_key(d) == key && store.has_edge(c, d)
}

/// `after`, grown from `before`, has a dependency from task `src` to the resource node of `resource`, and where
/// `before` had none, that dependency is `dependency`.
pub open spec fn resource_recorded<T>(
    before: Store<T>,
    after: Store<T>,
    src: int,
    resource: Val,
    dependency: DependencyView,
) -> bool {
    exists|d: int|
        #[trigger] after.is_resource_node(d) && after.node_key(d) == resource && after.has_edge(src, d) && (
        !before.has_edge(src, d) ==> after.has_dependency(src, d, dependency))
}

/// `node` is a task node with key `key` whose output is `output` and that is consistent in `session`.
pub open spec fn required<'p, T, A, S: ResourceState>(session: Session<'p, T, A, S>, key: Val, output: Val) -> bool {
    exists|n: TaskNode|
        session.spec_store().is_task_node(n.0 as int) && session.spec_store().node_key(n.0 as int) == key
            && session.spec_store().output_of(n.0 as int) == Some(output) && #[trigger] session.spec_consistent().contains(
            n,
        )
}

/// Writing to resource node `dst` from task `src` is valid: no task writes to it yet, and every task that reads it
/// is another task that depends, directly or indirectly, on `src`.
pub open spec fn write_is_valid<T>(store: Store<T>, src: int, dst: int) -> bool {
    &&& crate::store::writes_to(store.edge_seq(), dst).len() == 0
    &&& forall|k: int|
        0 <= k < crate::store::reads_to(store.edge_seq(), dst).len() ==> {
            let reader = #[trigger] crate::store::reads_to(store.edge_seq(), dst)[k].src;
            reader != src && store.reaches(reader, src)
        }
}

/// Reading the resource with key `resource` from task `src` is a hidden dependency in `store`: a task writes the
/// resource (the first of its writers, in the order of the dependencies), and `src` is not another task that
/// depends on that task, directly or indirectly.
pub open spec fn read_hidden<T>(store: Store<T>, src: int, resource: Val) -> bool {
    exists|d: int|
        #[trigger] store.is_resource_node(d) && store.node_key(d) == resource && crate::store::writes_to(
            store.edge_seq(),
            d,
        ).len() > 0 && !(src != crate::store::writes_to(store.edge_seq(), d)[0].src && store.reaches(
            src,
            crate::store::writes_to(store.edge_seq(), d)[0].src,
        ))
}

/// Checking the writer of node `dst`, the node that `created` has for `resource`, found or made from `old`, tells
/// whether reading the resource from task `src` is a hidden dependency in `old`.
proof fn lemma_read_hidden<T>(old: Store<T>, created: Store<T>, dst: int, src: int, resource: Val)
    requires
        old.wf(),
        old.is_task_node(src),
        created.is_resource_node(dst),
        created.node_key(dst) == resource,
        created.edge_seq() == old.edge_seq(),
        dst < old.len() ==> created == old,
        dst >= old.len() ==> forall|i: int| #[trigger] old.is_resource_node(i) ==> old.node_key(i) != resource,
        forall|a: int, b: int|
            0 <= a < old.len() && 0 <= b < old.len() ==> (#[trigger] created.reaches(a, b) == old.reaches(a, b)),
    ensures
        read_hidden(old, src, resource) <==> (crate::store::writes_to(created.edge_seq(), dst).len() > 0 && !(src
            != crate::store::writes_to(created.edge_seq(), dst)[0].src && created.reaches(
            src,
            crate::store::writes_to(created.edge_seq(), dst)[0].src,
        ))),
{
    old.lemma_wf_nodes();
    old.lemma_edge_bounds();
    let edges = old.edge_seq();
    if dst < old.len() {
        if read_hidden(old, src, resource) {
            let d = choose|d: int|
                #[trigger] old.is_resource_node(d) && old.node_key(d) == resource && crate::store::writes_to(
                    old.edge_seq(),
                    d,
                ).len() > 0 && !(src != crate::store::writes_to(old.edge_seq(), d)[0].src && old.reaches(
                    src,
                    crate::store::writes_to(old.edge_seq(), d)[0].src,
                ));
            old.lemma_resource_key_unique(d, dst);
        }
    } else {
        if crate::store::writes_to(edges, dst).len() > 0 {
            crate::store::lemma_filter_element(edges, |e: crate::store::EdgeView| e.dst == dst && crate::store::is_write(e.dependency), 0);
        }
    }
}

/// Writing to the resource with key `resource` from task `src` is refused in `store`: it has a resource node for
/// `resource` to which the write is not valid (see `write_is_valid`). A resource without a node takes any write.
pub open spec fn write_refused<T>(store: Store<T>, src: int, resource: Val) -> bool {
    exists|d: int| #[trigger] store.is_resource_node(d) && store.node_key(d) == resource && !write_is_valid(store, src, d)
}

/// Validating a write to node `dst`, the node that `created` has for `resource`, found or made from `old`, tells
/// whether the write is refused in `old`.
proof fn lemma_write_refused<T>(old: Store<T>, created: Store<T>, dst: int, src: int, resource: Val)
    requires
        old.wf(),
        created.is_resource_node(dst),
        created.node_key(dst) == resource,
        created.edge_seq() == old.edge_seq(),
        dst < old.len() ==> created == old,
        dst >= old.len() ==> forall|i: int| #[trigger] old.is_resource_node(i) ==> old.node_key(i) != resource,
    ensures
        write_is_valid(created, src, dst) <==> !write_refused(old, src, resource),
{
    if dst < old.len() {
        if write_refused(old, src, resource) {
            let d = choose|d: int|
                #[trigger] old.is_resource_node(d) && old.node_key(d) == resource && !write_is_valid(old, src, d);
            old.lemma_resource_key_unique(d, dst);
        }
    } else {
        old.lemma_edge_bounds();
        let edges = old.edge_seq();
        if crate::store::writes_to(edges, dst).len() > 0 {
            crate::store::lemma_filter_element(edges, |e: crate::store::EdgeView| e.dst == dst && crate::store::is_write(e.dependency), 0);
        }
        if crate::store::reads_to(edges, dst).len() > 0 {
            crate::store::lemma_filter_element(edges, |e: crate::store::EdgeView| e.dst == dst && crate::store::is_read(e.dependency), 0);
        }
        old.lemma_wf_nodes();
    }
}

impl<'p, T: Task, A: Tracker, S: ResourceState> Session<'p, T, A, S> {
    /// Validates a write to resource `dst` by task `src`: fails with an overlapping write when another write
    /// dependency to `dst` exists, and with a hidden dependency when a task reading `dst` does not depend on `src`.
    pub fn validate_write(&self, src: &TaskNode, dst: &ResourceNode) -> (r: Result<(), PieError>)
        requires
            self.session_inv(),
            self.spec_store().is_task_node(src.0 as int),
        ensures
            r is Ok <==> write_is_valid(self.spec_store(), src.0 as int, dst.0 as int),
            r matches Err(e) ==> (e == PieError::OverlappingWrite <==> crate::store::writes_to(self.spec_store().edge_seq(), dst.0 as int).len() > 0),
            r matches Err(e) ==> (e == PieError::OverlappingWrite || e == PieError::HiddenDependency),
    {
        proof {
            self.spec_store().lemma_wf_nodes();
            self.spec_store().lemma_edge_bounds();
        }
        if let Some(_) = self.pie.store.get_task_writing_to_resource(dst) {
            return Err(PieError::OverlappingWrite);
        }
        let readers = self.pie.store.get_tasks_reading_from_resource(dst);
        let ghost rs = crate::store::reads_to(self.spec_store().edge_seq(), dst.0 as int);
        proof {
            assert forall|k: int| 0 <= k < rs.len() implies self.spec_store().is_task_node(#[trigger] rs[k].src) by {
                self.spec_store().edge_seq().lemma_filter_pred(|e: crate::store::EdgeView| e.dst == dst.0 as int && crate::store::is_read(e.dependency), k);
                assert(self.spec_store().edge_seq().filter(|e: crate::store::EdgeView| e.dst == dst.0 as int && crate::store::is_read(e.dependency)).contains(rs[k]));
                self.spec_store().edge_seq().lemma_filter_contains_rev(|e: crate::store::EdgeView| e.dst == dst.0 as int && crate::store::is_read(e.dependency), rs[k]);
            }
        }
        proof {
            assert(readers@.map_values(|t: TaskNode| t.0 as int).len() == readers@.len());
        }
        let mut i: usize = 0;
        while i < readers.len()
            invariant
                self.session_inv(),
                self.spec_store().is_task_node(src.0 as int),
                readers@.map_values(|t: TaskNode| t.0 as int) == rs.map_values(|e: crate::store::EdgeView| e.src),
                rs == crate::store::reads_to(self.spec_store().edge_seq(), dst.0 as int),
                crate::store::writes_to(self.spec_store().edge_seq(), dst.0 as int).len() == 0,
                readers@.len() == rs.len(),
                forall|k: int| 0 <= k < rs.len() ==> self.spec_store().is_task_node(#[trigger] rs[k].src),
                i <= readers@.len(),
                forall|k: int| 0 <= k < i ==> {
                    let reader = #[trigger] rs[k].src;
                    reader != src.0 && self.spec_store().reaches(reader, src.0 as int)
                },
            decreases readers@.len() - i,
        {
            proof {
                assert(readers@.map_values(|t: TaskNode| t.0 as int)[i as int] == readers@[i as int].0 as int);
                assert(rs.map_values(|e: crate::store::EdgeView| e.src)[i as int] == rs[i as int].src);
                self.spec_store().lemma_wf_nodes();
            }
            if !self.pie.store.contains_transitive_task_dependency(&readers[i], src) {
                return Err(PieError::HiddenDependency);
            }
            i = i + 1;
        }
        proof {
            assert(readers@.map_values(|t: TaskNode| t.0 as int).len() == rs.map_values(|e: crate::store::EdgeView| e.src).len());
        }
        Ok(())
    }
}

impl<'p, T: Task, A: Tracker, S: ResourceState> Session<'p, T, A, S> {
    /// Requires `task` using `checker` for consistency checking, creating a require dependency from the executing
    /// task and returning the consistent output of `task`: its cached output when it is consistent in this session.
    /// Fails, exactly when the required task is the executing task or depends on it, with a cyclic dependency.
    /// Tasks require other tasks through this method (or `Context::require`).
    #[verifier::spinoff_prover]
    pub fn require_task(&mut self, task: &T, checker: OutputCheckerObj) -> (r: Result<ValueObj, PieError>)
        requires
            old(self).session_inv(),
        ensures
            final(self).session_inv(),
            final(self).session_extends(old(self)),
            r matches Ok(o) ==> required(*final(self), task.spec_key(), o@),
            r matches Err(e) ==> e == PieError::CyclicTaskDependency,
            r is Err <==> requiring_closes_cycle(old(self).spec_store(), old(self).spec_current(), task.spec_key()),
            r matches Err(e) ==> final(self).spec_refused() == old(self).spec_refused().push(e),
            r matches Ok(v) ==> (consistent_output_of(*old(self), task.spec_key()) matches Some(o) ==> v@ == o),
            r matches Ok(v) ==> brackets(
                final(self).spec_tracker(),
                old(self).spec_tracker(),
                TrackEvent::RequireStart(task.spec_key(), checker),
                TrackEvent::RequireEnd(task.spec_key(), checker, checker.spec_stamp_obj(v@), v@),
            ),
            forall|o: Val|
                #[trigger] reusable(old(self).spec_store(), task.spec_key(), o) && !old(self).spec_bottom_up() ==> (
                r matches Ok(v) ==> v@ == o && final(self).spec_executions() == old(self).spec_executions()),
            r matches Ok(v) ==> (has_done_no_work(old(self).spec_store(), task.spec_key()) ==> executed_during(
                *final(self),
                *old(self),
                task.spec_key(),
                v@,
            )),
            r matches Ok(v) ==> (!old(self).spec_bottom_up() && consistent_output_of(*old(self), task.spec_key())
                is None ==> reused_or_executed(*final(self), *old(self), task.spec_key(), v@, u64::MAX)),
            !old(self).spec_bottom_up() && consistent_output_of(*old(self), task.spec_key()) is Some
                ==> final(self).spec_executed() == old(self).spec_executed(),
            r matches Ok(v) ==> (!old(self).spec_bottom_up() && has_done_no_work(
                old(self).spec_store(),
                task.spec_key(),
            ) ==> framed(
                final(self).spec_tracker(),
                old(self).spec_tracker(),
                seq![TrackEvent::RequireStart(task.spec_key(), checker), TrackEvent::ExecuteStart(task.spec_key())],
                seq![
                    TrackEvent::ExecuteEnd(task.spec_key(), v@),
                    TrackEvent::RequireEnd(task.spec_key(), checker, checker.spec_stamp_obj(v@), v@),
                ],
            )),
    {
        let key = task.key();
        let ghost tracker_before = self.pie.tracker;
        self.pie.tracker.require_start(&key, checker);
        let ghost old_self = *self;
        let ghost start_store = self.pie.store;
        let dst = self.pie.store.get_or_create_task_node(task, &key);
        proof {
            start_store.lemma_wf_nodes();
            assert forall|i: int| 0 <= i < old_self.spec_consistent().len() implies #[trigger] self.spec_store().output_of(
                old_self.spec_consistent()[i].0 as int,
            ) is Some by {
                assert(start_store.is_task_node(old_self.spec_consistent()[i].0 as int));
            }
            self.lemma_inv_after_store_change(old_self);
        }
        let ghost after_node = *self;
        proof {
            if let Some(c) = old_self.spec_current() {
                lemma_cycle_condition(start_store, after_node.spec_store(), dst.0 as int, key@, c.0 as int);
            }
        }
        match self.reserve_require_dependency(&dst) {
            Err(e) => {
                let ghost before_refusal = *self;
                self.refused.push(e);
                proof {
                    lemma_refused_push(before_refusal, *self, e);
                    lemma_session_extends_trans(old_self, before_refusal, *self);
                    assert(before_refusal.spec_refused() == old(self).spec_refused());
                }
                return Err(e);
            },
            Ok(()) => {},
        }
        let ghost after_reserve = *self;
        proof {
            after_node.spec_store().lemma_wf_nodes();
            assert(self.spec_store().is_task_node(dst.0 as int));
            assert(self.spec_store().node_key(dst.0 as int) == key@);
            start_store.lemma_wf_nodes();
            assert forall|i: int| 0 <= i < old_self.spec_store().len() implies #[trigger] self.spec_store().output_of(i) == old_self.spec_store().output_of(i) by {
                assert(after_node.spec_store().output_of(i) == old_self.spec_store().output_of(i));
            }
            self.lemma_consistent_output_found(old_self, dst, key@);
            self.lemma_consistent_output_found(*self, dst, key@);
            if has_done_no_work(old_self.spec_store(), key@) {
                if (dst.0 as int) < old_self.spec_store().len() {
                    assert(old_self.spec_store().is_task_node(dst.0 as int));
                } else {
                    lemma_no_edges_from_missing_node(old_self.spec_store(), dst.0 as int);
                }
                assert(after_node.spec_store().output_of(dst.0 as int) is None);
                assert(crate::store::edges_from(after_node.spec_store().edge_seq(), dst.0 as int).len() == 0);
                assert(crate::store::edges_from(self.spec_store().edge_seq(), dst.0 as int) == crate::store::edges_from(
                    after_node.spec_store().edge_seq(),
                    dst.0 as int,
                ));
                self.spec_store().lemma_wf_nodes();
                assert forall|n: int|
                    #[trigger] self.spec_store().is_task_node(n) && self.spec_store().node_key(n) == key@ implies self.spec_store().output_of(n) is None
                        && crate::store::edges_from(self.spec_store().edge_seq(), n).len() == 0 by {
                    self.spec_store().lemma_task_key_unique(n, dst.0 as int);
                }
                assert(has_done_no_work(self.spec_store(), key@));
            }
            assert forall|o: Val| #[trigger] reusable(old_self.spec_store(), key@, o) implies reusable(self.spec_store(), key@, o) by {
                let n = choose|n: int|
                    #[trigger] old_self.spec_store().is_task_node(n) && old_self.spec_store().node_key(n) == key@
                        && old_self.spec_store().output_of(n) == Some(o) && crate::store::edges_from(
                        old_self.spec_store().edge_seq(),
                        n,
                    ).len() == 0;
                assert(after_node.spec_store().is_task_node(n));
                after_node.spec_store().lemma_wf_nodes();
                after_node.spec_store().lemma_task_key_unique(n, dst.0 as int);
                assert(after_node.spec_store() == old_self.spec_store());
                assert(self.spec_store().output_of(n) == Some(o));
                assert(self.spec_store().is_task_node(n));
            }
        }
        let (node, output) = if self.bottom_up {
            let o = self.make_task_consistent_bottom_up(task, &key, dst);
            let ghost before_insert = *self;
            self.insert_consistent(dst);
            proof {
                lemma_session_extends_trans(after_reserve, before_insert, *self);
                assert(self.spec_store().node_key(dst.0 as int) == key@);
            }
            (dst, o)
        } else {
            self.make_task_consistent(task, &key, u64::MAX)
        };
        let ghost after_make = *self;
        proof {
            if !old_self.spec_bottom_up() && consistent_output_of(old_self, key@) is None {
                assert(consistent_output_of(after_reserve, key@) is None);
            }
        }
        proof {
            if has_done_no_work(old_self.spec_store(), key@) {
                assert(executed_during(*self, after_reserve, key@, output@));
                let k = choose|k: int|
                    after_reserve.spec_executions() <= k < self.spec_executions()
                        && #[trigger] self.spec_executed()[k] == (key@, output@);
                assert(after_reserve.spec_executions() >= old_self.spec_executions());
            }
            lemma_session_extends_trans(after_node, after_reserve, *self);
            lemma_session_extends_trans(old_self, after_node, *self);
            assert(self.spec_store().is_task_node(dst.0 as int));
            assert(self.spec_store().node_key(dst.0 as int) == key@);
            self.spec_store().lemma_task_key_unique(node.0 as int, dst.0 as int);
        }
        let ghost after_make = *self;
        let stamp = checker.stamp_obj(&output);
        let ghost tracker_before_end = self.pie.tracker;
        self.pie.tracker.require_end(&key, checker, &stamp, &output);
        let ghost before_update = *self;
        proof {
            assert(old_self.spec_tracker().follows(tracker_before, TrackEvent::RequireStart(key@, checker)));
            assert(before_update.spec_tracker().follows(
                tracker_before_end,
                TrackEvent::RequireEnd(key@, checker, checker.spec_stamp_obj(output@), output@),
            ));
        }
        proof {
            lemma_session_extends_same(old_self, after_make, old_self, before_update);
            assert forall|n: TaskNode| #[trigger] old_self.spec_consistent().contains(n) implies before_update.spec_consistent().contains(n) by {
                assert(after_make.spec_consistent().contains(n));
            }
        }
        self.update_require_dependency(&dst, key, checker, stamp);
        proof {
            before_update.spec_store().lemma_wf_nodes();
            lemma_session_extends_trans(old_self, before_update, *self);
            assert(self.spec_consistent().contains(node));
            assert(self.spec_store().output_of(node.0 as int) == Some(output@));
            assert(self.spec_store().node_key(node.0 as int) == task.spec_key());
            assert(self.spec_store().is_task_node(node.0 as int));
            if has_done_no_work(old_self.spec_store(), key@) {
                let k = choose|k: int|
                    after_reserve.spec_executions() <= k < after_make.spec_executions()
                        && #[trigger] after_make.spec_executed()[k] == (key@, output@);
                assert(before_update.spec_executed()[k] == after_make.spec_executed()[k]);
                assert(self.spec_executed()[k] == (key@, output@));
                assert(after_reserve.spec_executions() >= old_self.spec_executions());
                assert(executed_during(*self, old_self, key@, output@));
            }
            if !old_self.spec_bottom_up() && consistent_output_of(old_self, key@) is None {
                let (checks, start, end) = choose|
                    checks: Seq<(bool, Session<'p, T, A, S>, Session<'p, T, A, S>)>,
                    start: Session<'p, T, A, S>,
                    end: Session<'p, T, A, S>,
                |
                    all_checked(
                        checks,
                        crate::store::edges_from(after_reserve.spec_store().edge_seq(), node.0 as int),
                        u64::MAX,
                    ) && #[trigger] checks_chain(checks, start, end) && node_found(
                        start,
                        after_reserve,
                        node.0 as int,
                        key@,
                    ) && if all_consistent(
                        checks,
                        crate::store::edges_from(after_reserve.spec_store().edge_seq(), node.0 as int),
                        end,
                        node.0 as int,
                    ) {
                        end.spec_store().output_of(node.0 as int) == Some(output@) && after_make.spec_executed()
                            == end.spec_executed()
                    } else {
                        executed_during(after_make, end, key@, output@)
                    };
                assert(crate::store::edges_from(after_reserve.spec_store().edge_seq(), node.0 as int)
                    == crate::store::edges_from(after_node.spec_store().edge_seq(), node.0 as int));
                assert(crate::store::edges_from(after_node.spec_store().edge_seq(), node.0 as int)
                    == crate::store::edges_from(old(self).spec_store().edge_seq(), node.0 as int));
                if !all_consistent(
                    checks,
                    crate::store::edges_from(after_reserve.spec_store().edge_seq(), node.0 as int),
                    end,
                    node.0 as int,
                ) {
                    let k = choose|k: int|
                        end.spec_executions() <= k < after_make.spec_executions()
                            && #[trigger] after_make.spec_executed()[k] == (key@, output@);
                    assert(self.spec_executed()[k] == (key@, output@));
                }
                assert(self.spec_store().node_key(node.0 as int) == key@);
                assert(self.spec_store().is_task_node(node.0 as int));
                assert(after_reserve.spec_executed() == old(self).spec_executed());
                assert(after_reserve.spec_resource_state() == old(self).spec_resource_state());
                assert(start.spec_executed() == old(self).spec_executed());
                assert(start.spec_resource_state() == old(self).spec_resource_state());
                assert(self.spec_executed() == after_make.spec_executed());
                assert(all_checked(
                    checks,
                    crate::store::edges_from(old(self).spec_store().edge_seq(), node.0 as int),
                    u64::MAX,
                ));
                assert(checks_chain(checks, start, end));
                assert(reused_or_executed(*self, *old(self), key@, output@, u64::MAX));
            }
            if !old_self.spec_bottom_up() && has_done_no_work(old_self.spec_store(), key@) {
                lemma_framed_wrap(
                    before_update.spec_tracker(),
                    after_make.spec_tracker(),
                    after_reserve.spec_tracker(),
                    tracker_before,
                    TrackEvent::RequireStart(key@, checker),
                    seq![TrackEvent::ExecuteStart(key@)],
                    seq![TrackEvent::ExecuteEnd(key@, output@)],
                    TrackEvent::RequireEnd(key@, checker, checker.spec_stamp_obj(output@), output@),
                );
                assert(seq![TrackEvent::RequireStart(key@, checker)] + seq![TrackEvent::ExecuteStart(key@)] =~= seq![
                    TrackEvent::RequireStart(key@, checker),
                    TrackEvent::ExecuteStart(key@),
                ]);
                assert(seq![TrackEvent::ExecuteEnd(key@, output@)].push(
                    TrackEvent::RequireEnd(key@, checker, checker.spec_stamp_obj(output@), output@),
                ) =~= seq![
                    TrackEvent::ExecuteEnd(key@, output@),
                    TrackEvent::RequireEnd(key@, checker, checker.spec_stamp_obj(output@), output@),
                ]);
            }
            assert(self.session_extends(&old_self));
            lemma_session_extends_same(old_self, *self, *old(self), *self);
            assert(old_self.spec_store() == old(self).spec_store());
            assert(old_self.spec_consistent() == old(self).spec_consistent());
            assert(old_self.spec_scheduled() == old(self).spec_scheduled());
            assert(old_self.spec_executed() == old(self).spec_executed());
        }
        Ok(output)
    }

    /// Reads `resource`, creating a read dependency from the executing task using `checker`, and returns its
    /// content. Fails with a hidden dependency when the task that writes `resource` is not a dependency of the
    /// executing task.
    pub fn read(&mut self, resource: &KeyObj, checker: ResourceCheckerObj) -> (r: Result<ValueObj, PieError>)
        requires
            old(self).session_inv(),
        ensures
            r matches Err(e) ==> (!(e is Resource) ==> final(self).spec_refused() == old(self).spec_refused().push(e)),
            (r is Ok || (r matches Err(PieError::Resource(_)))) ==> final(self).spec_refused() == old(
                self,
            ).spec_refused(),
            final(self).session_inv(),
            final(self).session_extends(old(self)),
            old(self).spec_current() matches Some(c) ==> (r is Ok ==> depends_on_resource(
                final(self).spec_store(),
                c.0 as int,
                resource@,
            )),
            r matches Err(e) ==> e == PieError::HiddenDependency || e == PieError::OverlappingWrite || e is Resource,
            r matches Err(e) && (e == PieError::HiddenDependency || e == PieError::OverlappingWrite) ==> old(
                self,
            ).spec_current() is Some,
            old(self).spec_current() matches Some(c) ==> (r matches Err(PieError::HiddenDependency) ==> read_hidden(
                old(self).spec_store(),
                c.0 as int,
                resource@,
            )),
            old(self).spec_current() matches Some(c) ==> (read_hidden(old(self).spec_store(), c.0 as int, resource@)
                ==> r is Err),
            r matches Err(PieError::OverlappingWrite) ==> false,
            r matches Ok(v) ==> exists|mid: S|
                #[trigger] mid.read_gives(old(self).spec_resource_state(), resource@, Ok(v@)) && match old(
                    self,
                ).spec_current() {
                    None => final(self).spec_resource_state() == mid && final(self).spec_tracker() == old(
                        self,
                    ).spec_tracker(),
                    Some(c) => exists|stamp: Val|
                        #[trigger] final(self).spec_resource_state().stamp_gives(mid, resource@, checker, Ok(stamp))
                            && follows_two(
                            final(self).spec_tracker(),
                            old(self).spec_tracker(),
                            TrackEvent::ReadStart(resource@, checker),
                            TrackEvent::ReadEnd(resource@, checker, stamp),
                        ) && resource_recorded(
                            old(self).spec_store(),
                            final(self).spec_store(),
                            c.0 as int,
                            resource@,
                            DependencyView::Read((ResourceDependencyView { resource: resource@, checker, stamp })),
                        ),
                },
            r matches Err(PieError::Resource(e)) ==> final(self).spec_resource_state().read_gives(
                old(self).spec_resource_state(),
                resource@,
                Err(e),
            ) || exists|mid: S, v: Val|
                #[trigger] mid.read_gives(old(self).spec_resource_state(), resource@, Ok(v)) && final(self).spec_resource_state().stamp_gives(
                    mid,
                    resource@,
                    checker,
                    Err(e),
                ),
    {
        let content = match self.pie.resource_state.read_resource(resource) {
            Ok(c) => c,
            Err(e) => {
                return Err(PieError::Resource(e));
            },
        };
        let ghost mid = self.pie.resource_state;
        let ghost tracker_before = self.pie.tracker;
        match self.current_executing_task {
            Some(src) => {
                self.pie.tracker.read_start(resource, checker);
                let ghost old_self = *self;
                let ghost start_store = self.pie.store;
                let dst = self.pie.store.get_or_create_resource_node(resource);
                let ghost created = self.pie.store;
                proof {
                    start_store.lemma_wf_nodes();
                    assert forall|i: int| 0 <= i < old_self.spec_consistent().len() implies #[trigger] self.spec_store().output_of(
                        old_self.spec_consistent()[i].0 as int,
                    ) is Some by {
                        assert(start_store.is_task_node(old_self.spec_consistent()[i].0 as int));
                    }
                    self.lemma_inv_after_store_change(old_self);
                    self.spec_store().lemma_wf_nodes();
                    self.spec_store().lemma_edge_bounds();
                    lemma_read_hidden(start_store, self.spec_store(), dst.0 as int, src.0 as int, resource@);
                }
                let ghost tracker_started = self.pie.tracker;
                if let Some(writer) = self.pie.store.get_task_writing_to_resource(&dst) {
                    proof {
                        let ws = crate::store::writes_to(self.spec_store().edge_seq(), dst.0 as int);
                        self.spec_store().edge_seq().lemma_filter_pred(|e: crate::store::EdgeView| e.dst == dst.0 as int && crate::store::is_write(e.dependency), 0);
                        assert(self.spec_store().edge_seq().filter(|e: crate::store::EdgeView| e.dst == dst.0 as int && crate::store::is_write(e.dependency)).contains(ws[0]));
                        self.spec_store().edge_seq().lemma_filter_contains_rev(|e: crate::store::EdgeView| e.dst == dst.0 as int && crate::store::is_write(e.dependency), ws[0]);
                    }
                    if !self.pie.store.contains_transitive_task_dependency(&src, &writer) {
                        let ghost before_refusal = *self;
                        self.refused.push(PieError::HiddenDependency);
                        proof {
                            lemma_refused_push(before_refusal, *self, PieError::HiddenDependency);
                        }
                        return Err(PieError::HiddenDependency);
                    }
                }
                let stamp = match self.pie.resource_state.stamp_resource(resource, checker) {
                    Ok(s) => s,
                    Err(e) => {
                        proof {
                            assert(mid.read_gives(old(self).spec_resource_state(), resource@, Ok(content@)));
                        }
                        return Err(PieError::Resource(e));
                    },
                };
                self.pie.tracker.read_end(resource, checker, &stamp);
                proof {
                    assert(tracker_started.follows(tracker_before, TrackEvent::ReadStart(resource@, checker)));
                    assert(self.pie.tracker.follows(tracker_started, TrackEvent::ReadEnd(resource@, checker, stamp@)));
                    assert(self.pie.resource_state.stamp_gives(mid, resource@, checker, Ok(stamp@)));
                }
                let ghost stamp_view = stamp@;
                let dependency = Dependency::Read(ResourceDependency::new(resource.copy(), checker, stamp));
                let ghost before_add = *self;
                let _ = self.pie.store.add_dependency(&src, dst.0, dependency);
                proof {
                    assert forall|i: int| 0 <= i < before_add.spec_consistent().len() implies #[trigger] self.spec_store().output_of(
                        before_add.spec_consistent()[i].0 as int,
                    ) is Some by {
                        assert(before_add.spec_store().is_task_node(before_add.spec_consistent()[i].0 as int));
                    }
                    self.lemma_inv_after_store_change(before_add);
                    lemma_store_extends_trans(old_self.spec_store(), before_add.spec_store(), self.spec_store());
                    before_add.spec_store().lemma_wf_nodes();
                    assert(created.is_resource_node(dst.0 as int) && created.node_key(dst.0 as int) == resource@);
                    assert(before_add.spec_store() == created);
                    before_add.spec_store().lemma_resource_reaches_nothing(dst.0 as int, src.0 as int);
                    assert(self.spec_store().is_task_node(dst.0 as int) == before_add.spec_store().is_task_node(dst.0 as int));
                    assert(self.spec_store().is_resource_node(dst.0 as int));
                    assert(depends_on_resource(self.spec_store(), src.0 as int, resource@));
                    if !old_self.spec_store().has_edge(src.0 as int, dst.0 as int) {
                        assert(self.spec_store().edge_seq().last() == crate::store::EdgeView {
                            src: src.0 as int,
                            dst: dst.0 as int,
                            dependency: DependencyView::Read((ResourceDependencyView { resource: resource@, checker, stamp: stamp_view })),
                        });
                    }
                    assert(resource_recorded(
                        old_self.spec_store(),
                        self.spec_store(),
                        src.0 as int,
                        resource@,
                        DependencyView::Read((ResourceDependencyView { resource: resource@, checker, stamp: stamp_view })),
                    ));
                    assert(self.spec_resource_state().stamp_gives(mid, resource@, checker, Ok(stamp_view)) && follows_two(
                        self.spec_tracker(),
                        tracker_before,
                        TrackEvent::ReadStart(resource@, checker),
                        TrackEvent::ReadEnd(resource@, checker, stamp_view),
                    ));
                }
            },
            None => {},
        }
        proof {
            assert(mid.read_gives(old(self).spec_resource_state(), resource@, Ok(content@)));
        }
        Ok(content)
    }

    /// Writes `content` to `resource`, creating a write dependency from the executing task using `checker`. Fails
    /// on an overlapping write or a hidden dependency (see `validate_write`), before writing.
    pub fn write(&mut self, resource: &KeyObj, checker: ResourceCheckerObj, content: &ValueObj) -> (r: Result<
        (),
        PieError,
    >)
        requires
            old(self).session_inv(),
        ensures
            r matches Err(e) ==> (!(e is Resource) ==> final(self).spec_refused() == old(self).spec_refused().push(e)),
            (r is Ok || (r matches Err(PieError::Resource(_)))) ==> final(self).spec_refused() == old(
                self,
            ).spec_refused(),
            final(self).session_inv(),
            final(self).session_extends(old(self)),
            old(self).spec_current() matches Some(c) ==> (r is Ok ==> depends_on_resource(
                final(self).spec_store(),
                c.0 as int,
                resource@,
            )),
            r matches Err(e) ==> e == PieError::HiddenDependency || e == PieError::OverlappingWrite || e is Resource,
            r matches Err(e) && (e == PieError::HiddenDependency || e == PieError::OverlappingWrite) ==> old(
                self,
            ).spec_current() is Some,
            old(self).spec_current() matches Some(c) ==> ((r matches Err(e) && (e == PieError::HiddenDependency
                || e == PieError::OverlappingWrite)) <==> write_refused(old(self).spec_store(), c.0 as int, resource@)),
            r matches Err(e) && !(e is Resource) ==> final(self).spec_resource_state() == old(
                self,
            ).spec_resource_state(),
            r is Ok ==> exists|mid: S|
                #[trigger] mid.write_gives(old(self).spec_resource_state(), resource@, content@, Ok(())) && match old(
                    self,
                ).spec_current() {
                    None => final(self).spec_resource_state() == mid && final(self).spec_tracker() == old(
                        self,
                    ).spec_tracker(),
                    Some(c) => exists|stamp: Val|
                        #[trigger] final(self).spec_resource_state().stamp_gives(mid, resource@, checker, Ok(stamp))
                            && follows_two(
                            final(self).spec_tracker(),
                            old(self).spec_tracker(),
                            TrackEvent::WriteStart(resource@, checker),
                            TrackEvent::WriteEnd(resource@, checker, stamp),
                        ) && resource_recorded(
                            old(self).spec_store(),
                            final(self).spec_store(),
                            c.0 as int,
                            resource@,
                            DependencyView::Write((ResourceDependencyView { resource: resource@, checker, stamp })),
                        ),
                },
            r matches Err(PieError::Resource(e)) ==> final(self).spec_resource_state().write_gives(
                old(self).spec_resource_state(),
                resource@,
                content@,
                Err(e),
            ) || exists|mid: S|
                #[trigger] mid.write_gives(old(self).spec_resource_state(), resource@, content@, Ok(())) && final(self).spec_resource_state().stamp_gives(
                    mid,
                    resource@,
                    checker,
                    Err(e),
                ),
    {
        let ghost old_self = *self;
        let ghost tracker_before = self.pie.tracker;
        let ghost state_before = self.pie.resource_state;
        let ghost mut tracker_started = self.pie.tracker;
        let ghost mut created = self.pie.store;
        let target = match self.current_executing_task {
            Some(src) => {
                self.pie.tracker.write_start(resource, checker);
                proof {
                    tracker_started = self.pie.tracker;
                }
                let ghost start_store = self.pie.store;
                let dst = self.pie.store.get_or_create_resource_node(resource);
                proof {
                    created = self.pie.store;
                }
                proof {
                    start_store.lemma_wf_nodes();
                    assert forall|i: int| 0 <= i < old_self.spec_consistent().len() implies #[trigger] self.spec_store().output_of(
                        old_self.spec_consistent()[i].0 as int,
                    ) is Some by {
                        assert(start_store.is_task_node(old_self.spec_consistent()[i].0 as int));
                    }
                    self.lemma_inv_after_store_change(old_self);
                }
                proof {
                    lemma_write_refused(start_store, self.spec_store(), dst.0 as int, src.0 as int, resource@);
                }
                match self.validate_write(&src, &dst) {
                    Err(e) => {
                        let ghost before_refusal = *self;
                        self.refused.push(e);
                        proof {
                            lemma_refused_push(before_refusal, *self, e);
                        }
                        return Err(e);
                    },
                    Ok(()) => {},
                }
                Some((src, dst))
            },
            None => None,
        };
        proof {
            assert(self.pie.resource_state == state_before);
        }
        let written = self.pie.resource_state.write_resource(resource, content);
        proof {
            assert(self.pie.resource_state.write_gives(state_before, resource@, content@, written));
        }
        match written {
            Ok(()) => {},
            Err(e) => {
                return Err(PieError::Resource(e));
            },
        }
        let ghost mid = self.pie.resource_state;
        proof {
            assert(written matches Ok(u) && u == ());
            assert(written == Ok::<(), FsError>(()));
        }
        if let Some((src, dst)) = target {
            let stamp = match self.pie.resource_state.stamp_resource(resource, checker) {
                Ok(s) => s,
                Err(e) => {
                    proof {
                        assert(mid.write_gives(state_before, resource@, content@, Ok(())));
                        assert(state_before == old(self).spec_resource_state());
                    }
                    return Err(PieError::Resource(e));
                },
            };
            self.pie.tracker.write_end(resource, checker, &stamp);
            let ghost stamp_view = stamp@;
            proof {
                assert(tracker_started.follows(tracker_before, TrackEvent::WriteStart(resource@, checker)));
                assert(self.pie.tracker.follows(tracker_started, TrackEvent::WriteEnd(resource@, checker, stamp@)));
            }
            let dependency = Dependency::Write(ResourceDependency::new(resource.copy(), checker, stamp));
            let ghost before_add = *self;
            proof {
                self.spec_store().lemma_wf_nodes();
            }
            let _ = self.pie.store.add_dependency(&src, dst.0, dependency);
            proof {
                assert forall|i: int| 0 <= i < before_add.spec_consistent().len() implies #[trigger] self.spec_store().output_of(
                    before_add.spec_consistent()[i].0 as int,
                ) is Some by {
                    assert(before_add.spec_store().is_task_node(before_add.spec_consistent()[i].0 as int));
                }
                self.lemma_inv_after_store_change(before_add);
                lemma_store_extends_trans(old_self.spec_store(), before_add.spec_store(), self.spec_store());
                before_add.spec_store().lemma_wf_nodes();
                assert(created.is_resource_node(dst.0 as int) && created.node_key(dst.0 as int) == resource@);
                    assert(before_add.spec_store() == created);
                    before_add.spec_store().lemma_resource_reaches_nothing(dst.0 as int, src.0 as int);
                assert(self.spec_store().is_task_node(dst.0 as int) == before_add.spec_store().is_task_node(dst.0 as int));
                assert(self.spec_store().is_resource_node(dst.0 as int));
                assert(depends_on_resource(self.spec_store(), src.0 as int, resource@));
                if !old_self.spec_store().has_edge(src.0 as int, dst.0 as int) {
                    assert(self.spec_store().edge_seq().last() == crate::store::EdgeView {
                        src: src.0 as int,
                        dst: dst.0 as int,
                        dependency: DependencyView::Write((ResourceDependencyView { resource: resource@, checker, stamp: stamp_view })),
                    });
                }
                assert(resource_recorded(
                    old_self.spec_store(),
                    self.spec_store(),
                    src.0 as int,
                    resource@,
                    DependencyView::Write((ResourceDependencyView { resource: resource@, checker, stamp: stamp_view })),
                ));
                assert(self.spec_resource_state().stamp_gives(mid, resource@, checker, Ok(stamp_view)) && follows_two(
                    self.spec_tracker(),
                    tracker_before,
                    TrackEvent::WriteStart(resource@, checker),
                    TrackEvent::WriteEnd(resource@, checker, stamp_view),
                ));
            }
        }
        proof {
            assert(mid.write_gives(state_before, resource@, content@, Ok(())));
            assert(state_before == old(self).spec_resource_state());
        }
        Ok(())
    }

    /// Creates a write dependency from the executing task to `resource` using `checker`, after the task wrote to
    /// it. Fails on an overlapping write or a hidden dependency (see `validate_write`).
    pub fn written_to(&mut self, resource: &KeyObj, checker: ResourceCheckerObj) -> (r: Result<(), PieError>)
        requires
            old(self).session_inv(),
        ensures
            r matches Err(e) ==> (!(e is Resource) ==> final(self).spec_refused() == old(self).spec_refused().push(e)),
            (r is Ok || (r matches Err(PieError::Resource(_)))) ==> final(self).spec_refused() == old(
                self,
            ).spec_refused(),
            final(self).session_inv(),
            final(self).session_extends(old(self)),
            old(self).spec_current() matches Some(c) ==> (r is Ok ==> depends_on_resource(
                final(self).spec_store(),
                c.0 as int,
                resource@,
            )),
            r matches Err(e) ==> e == PieError::HiddenDependency || e == PieError::OverlappingWrite || e is Resource,
            r matches Err(e) && (e == PieError::HiddenDependency || e == PieError::OverlappingWrite) ==> old(
                self,
            ).spec_current() is Some,
            old(self).spec_current() matches Some(c) ==> ((r matches Err(e) && (e == PieError::HiddenDependency
                || e == PieError::OverlappingWrite)) <==> write_refused(old(self).spec_store(), c.0 as int, resource@)),
            r matches Err(e) && !(e is Resource) ==> final(self).spec_resource_state() == old(
                self,
            ).spec_resource_state(),
            r matches Err(PieError::Resource(e)) ==> final(self).spec_resource_state().stamp_gives(
                old(self).spec_resource_state(),
                resource@,
                checker,
                Err(e),
            ),
            r is Ok ==> match old(self).spec_current() {
                None => final(self).spec_resource_state() == old(self).spec_resource_state()
                    && final(self).spec_tracker() == old(self).spec_tracker() && final(self).spec_store() == old(
                    self,
                ).spec_store(),
                Some(c) => exists|stamp: Val|
                    #[trigger] final(self).spec_resource_state().stamp_gives(
                        old(self).spec_resource_state(),
                        resource@,
                        checker,
                        Ok(stamp),
                    ) && follows_two(
                        final(self).spec_tracker(),
                        old(self).spec_tracker(),
                        TrackEvent::WriteStart(resource@, checker),
                        TrackEvent::WriteEnd(resource@, checker, stamp),
                    ) && resource_recorded(
                        old(self).spec_store(),
                        final(self).spec_store(),
                        c.0 as int,
                        resource@,
                        DependencyView::Write((ResourceDependencyView { resource: resource@, checker, stamp })),
                    ),
            },
    {
        let ghost tracker_before = self.pie.tracker;
        let ghost state_before = self.pie.resource_state;
        match self.current_executing_task {
            Some(src) => {
                self.pie.tracker.write_start(resource, checker);
                let ghost tracker_started = self.pie.tracker;
                let ghost old_self = *self;
                let ghost start_store = self.pie.store;
                let dst = self.pie.store.get_or_create_resource_node(resource);
                let ghost created = self.pie.store;
                proof {
                    start_store.lemma_wf_nodes();
                    assert forall|i: int| 0 <= i < old_self.spec_consistent().len() implies #[trigger] self.spec_store().output_of(
                        old_self.spec_consistent()[i].0 as int,
                    ) is Some by {
                        assert(start_store.is_task_node(old_self.spec_consistent()[i].0 as int));
                    }
                    self.lemma_inv_after_store_change(old_self);
                }
                proof {
                    lemma_write_refused(start_store, self.spec_store(), dst.0 as int, src.0 as int, resource@);
                }
                match self.validate_write(&src, &dst) {
                    Err(e) => {
                        let ghost before_refusal = *self;
                        self.refused.push(e);
                        proof {
                            lemma_refused_push(before_refusal, *self, e);
                        }
                        return Err(e);
                    },
                    Ok(()) => {},
                }
                let stamp = match self.pie.resource_state.stamp_resource(resource, checker) {
                    Ok(s) => s,
                    Err(e) => {
                        return Err(PieError::Resource(e));
                    },
                };
                self.pie.tracker.write_end(resource, checker, &stamp);
                let ghost stamp_view = stamp@;
                proof {
                    assert(tracker_started.follows(tracker_before, TrackEvent::WriteStart(resource@, checker)));
                    assert(self.pie.tracker.follows(tracker_started, TrackEvent::WriteEnd(resource@, checker, stamp@)));
                }
                let dependency = Dependency::Write(ResourceDependency::new(resource.copy(), checker, stamp));
                let ghost before_add = *self;
                proof {
                    self.spec_store().lemma_wf_nodes();
                }
                let _ = self.pie.store.add_dependency(&src, dst.0, dependency);
                proof {
                    assert forall|i: int| 0 <= i < before_add.spec_consistent().len() implies #[trigger] self.spec_store().output_of(
                        before_add.spec_consistent()[i].0 as int,
                    ) is Some by {
                        assert(before_add.spec_store().is_task_node(before_add.spec_consistent()[i].0 as int));
                    }
                    self.lemma_inv_after_store_change(before_add);
                    lemma_store_extends_trans(old_self.spec_store(), before_add.spec_store(), self.spec_store());
                    before_add.spec_store().lemma_wf_nodes();
                    assert(created.is_resource_node(dst.0 as int) && created.node_key(dst.0 as int) == resource@);
                    assert(before_add.spec_store() == created);
                    before_add.spec_store().lemma_resource_reaches_nothing(dst.0 as int, src.0 as int);
                    assert(self.spec_store().is_task_node(dst.0 as int) == before_add.spec_store().is_task_node(dst.0 as int));
                    assert(self.spec_store().is_resource_node(dst.0 as int));
                    assert(depends_on_resource(self.spec_store(), src.0 as int, resource@));
                    if !old_self.spec_store().has_edge(src.0 as int, dst.0 as int) {
                        assert(self.spec_store().edge_seq().last() == crate::store::EdgeView {
                            src: src.0 as int,
                            dst: dst.0 as int,
                            dependency: DependencyView::Write((ResourceDependencyView { resource: resource@, checker, stamp: stamp_view })),
                        });
                    }
                    assert(resource_recorded(
                        old_self.spec_store(),
                        self.spec_store(),
                        src.0 as int,
                        resource@,
                        DependencyView::Write((ResourceDependencyView { resource: resource@, checker, stamp: stamp_view })),
                    ));
                    assert(self.spec_resource_state().stamp_gives(state_before, resource@, checker, Ok(stamp_view)) && follows_two(
                        self.spec_tracker(),
                        tracker_before,
                        TrackEvent::WriteStart(resource@, checker),
                        TrackEvent::WriteEnd(resource@, checker, stamp_view),
                    ));
                    assert(old_self.spec_store() == old(self).spec_store());
                    assert(tracker_before == old(self).spec_tracker());
                    assert(state_before == old(self).spec_resource_state());
                }
            },
            None => {},
        }
        Ok(())
    }
}

impl<'p, T: Task, A: Tracker, S: ResourceState> Session<'p, T, A, S> {
    /// Requires `task` in a new top-down build, returning its consistent output, as `require` does when no request
    /// is refused.
    fn require_output(&mut self, task: &T) -> (r: ValueObj)
        requires
            old(self).session_inv(),
            !old(self).spec_bottom_up(),
        ensures
            final(self).session_inv(),
            final(self).session_extends(old(self)),
            required_by_build(*final(self), *old(self), *task, r@),
    {
        let ghost old_self = *self;
        let previous = self.current_executing_task;
        let previous_bottom_up = self.bottom_up;
        self.current_executing_task = None;
        self.bottom_up = false;
        self.pie.tracker.build_start();
        let ghost started = *self;
        proof {
            assert(consistent_output_of(started, task.spec_key()) == consistent_output_of(old_self, task.spec_key()));
        }
        let output = match self.require_task(task, OutputCheckerObj::AlwaysConsistent) {
            Ok(o) => o,
            Err(_) => vstd::pervasive::unreached(),
        };
        let ghost ended = *self;
        proof {
            assert forall|o: Val| #[trigger] reusable(old_self.spec_store(), task.spec_key(), o) implies output@ == o
                && ended.spec_executions() == old_self.spec_executions() by {
                assert(reusable(started.spec_store(), task.spec_key(), o));
            }
        }
        self.pie.tracker.build_end();
        self.current_executing_task = previous;
        self.bottom_up = previous_bottom_up;
        proof {
            lemma_store_extends_trans(old_self.spec_store(), started.spec_store(), self.spec_store());
            old_self.spec_store().lemma_wf_nodes();
            if let Some(c) = previous {
                assert(old_self.spec_store().is_task_node(c.0 as int));
            }
            assert forall|i: int| 0 <= i < old_self.spec_store().len() && (#[trigger] old_self.spec_store().output_of(i)) is Some implies self.spec_store().output_of(i) is Some by {
                assert(started.spec_store().output_of(i) is Some);
            }
            let n = choose|n: TaskNode|
                ended.spec_store().is_task_node(n.0 as int) && ended.spec_store().node_key(n.0 as int) == task.spec_key()
                    && ended.spec_store().output_of(n.0 as int) == Some(output@) && #[trigger] ended.spec_consistent().contains(n);
            let start_event = TrackEvent::RequireStart(task.spec_key(), OutputCheckerObj::AlwaysConsistent);
            let end_event = TrackEvent::RequireEnd(
                task.spec_key(),
                OutputCheckerObj::AlwaysConsistent,
                OutputCheckerObj::AlwaysConsistent.spec_stamp_obj(output@),
                output@,
            );
            let (a, b) = choose|a: A, b: A|
                #[trigger] a.follows(started.spec_tracker(), start_event) && #[trigger] ended.spec_tracker().follows(b, end_event);
            assert(started.spec_tracker().follows(old_self.spec_tracker(), TrackEvent::BuildStart));
            assert(a.follows(started.spec_tracker(), start_event));
            assert(ended.spec_tracker().follows(b, end_event));
            assert(self.spec_tracker().follows(ended.spec_tracker(), TrackEvent::BuildEnd));
            assert(self.spec_consistent().contains(n));
            if has_done_no_work(old_self.spec_store(), task.spec_key()) {
                let k = choose|k: int|
                    started.spec_executions() <= k < ended.spec_executions()
                        && #[trigger] ended.spec_executed()[k] == (task.spec_key(), output@);
                assert(self.spec_executed()[k] == (task.spec_key(), output@));
            }
            assert forall|m: TaskNode| #[trigger] old_self.spec_scheduled().elements().contains(m) implies self.spec_scheduled().elements().contains(m) || (self.spec_consistent().contains(m) && executed_since(*self, old_self, m)) by {
                assert(started.spec_scheduled().elements().contains(m));
                assert(ended.spec_scheduled().elements().contains(m) || ended.spec_consistent().contains(m));
                if !ended.spec_scheduled().elements().contains(m) {
                    lemma_executed_since_widen(ended, started, *self, old_self, m);
                }
            }
            assert forall|m: TaskNode| #[trigger] old_self.spec_consistent().contains(m) implies self.spec_consistent().contains(m) by {
                assert(started.spec_consistent().contains(m));
                assert(ended.spec_consistent().contains(m));
            }
            if consistent_output_of(old_self, task.spec_key()) is None {
                lemma_reused_or_executed_same(ended, started, *self, old_self, task.spec_key(), output@, u64::MAX);
            }
            assert forall|i: int| 0 <= i < old_self.spec_executions() implies #[trigger] self.spec_fresh()[i]
                == old_self.spec_fresh()[i] by {
                assert(ended.spec_fresh()[i] == started.spec_fresh()[i]);
            }
            assert(old_self.spec_ever_scheduled().subset_of(self.spec_ever_scheduled()));
            if has_done_no_work(old_self.spec_store(), task.spec_key()) {
                let key = task.spec_key();
                let ac = OutputCheckerObj::AlwaysConsistent;
                lemma_framed_wrap(
                    self.spec_tracker(),
                    ended.spec_tracker(),
                    started.spec_tracker(),
                    old_self.spec_tracker(),
                    TrackEvent::BuildStart,
                    seq![TrackEvent::RequireStart(key, ac), TrackEvent::ExecuteStart(key)],
                    seq![TrackEvent::ExecuteEnd(key, output@), TrackEvent::RequireEnd(key, ac, ac.spec_stamp_obj(output@), output@)],
                    TrackEvent::BuildEnd,
                );
                assert(seq![TrackEvent::BuildStart] + seq![TrackEvent::RequireStart(key, ac), TrackEvent::ExecuteStart(key)]
                    =~= seq![TrackEvent::BuildStart, TrackEvent::RequireStart(key, ac), TrackEvent::ExecuteStart(key)]);
                assert(seq![TrackEvent::ExecuteEnd(key, output@), TrackEvent::RequireEnd(key, ac, ac.spec_stamp_obj(output@), output@)].push(
                    TrackEvent::BuildEnd,
                ) =~= seq![
                    TrackEvent::ExecuteEnd(key, output@),
                    TrackEvent::RequireEnd(key, ac, ac.spec_stamp_obj(output@), output@),
                    TrackEvent::BuildEnd,
                ]);
            }
        }
        output
    }

    /// Requires `task` in a new top-down build, returning its consistent output. When the build refused a request
    /// of a task, a cyclic task dependency, a hidden dependency or an overlapping write, fails with the first one.
    pub fn require(&mut self, task: &T) -> (r: Result<ValueObj, PieError>)
        requires
            old(self).session_inv(),
            !old(self).spec_bottom_up(),
        ensures
            final(self).session_inv(),
            final(self).session_extends(old(self)),
            r is Err <==> final(self).spec_refused().len() > old(self).spec_refused().len(),
            r matches Err(e) ==> e == final(self).spec_refused()[old(self).spec_refused().len() as int] && !(e is Resource),
            r matches Ok(v) ==> final(self).spec_refused() == old(self).spec_refused() && required_by_build(
                *final(self),
                *old(self),
                *task,
                v@,
            ),
    {
        let refused_before = self.refused.len();
        let output = self.require_output(task);
        if self.refused.len() > refused_before {
            Err(self.refused[refused_before])
        } else {
            proof {
                assert(self.spec_refused() =~= old(self).spec_refused());
            }
            Ok(output)
        }
    }

    /// Creates a bottom-up build. Schedule the tasks affected by each changed resource with
    /// `schedule_tasks_affected_by`, then update all affected tasks with `update_affected_tasks`. Afterwards, `require`
    /// gives up-to-date outputs.
    pub fn create_bottom_up_build<'s>(&'s mut self) -> (r: BottomUpBuild<'s, 'p, T, A, S>)
        requires
            old(self).session_inv(),
        ensures
            r.spec_session().session_inv(),
            r.spec_session().spec_store() == old(self).spec_store(),
            r.spec_session().spec_tracker() == old(self).spec_tracker(),
            r.spec_session().spec_current() == old(self).spec_current(),
            r.spec_session().spec_bottom_up() == old(self).spec_bottom_up(),
            r.spec_session().spec_executions() == old(self).spec_executions(),
            r.spec_session().spec_errors() == old(self).spec_errors(),
            r.spec_session().spec_consistent() == old(self).spec_consistent(),
            r.spec_session().spec_scheduled().elements() == Set::<TaskNode>::empty(),
            *final(self) == *final(r.session_ref()),
    {
        self.scheduled = Queue::new();
        BottomUpBuild { session: self }
    }

    /// Updates the tasks scheduled by a bottom-up build: executes them, least dependent first, scheduling the tasks
    /// they affect in turn.
    fn update_affected(&mut self)
        requires
            old(self).session_inv(),
        ensures
            final(self).session_inv(),
            final(self).session_extends(old(self)),
            final(self).spec_scheduled().elements().is_empty() || final(self).spec_executions()
                >= old(self).spec_executions() + u64::MAX,
            old(self).spec_scheduled().elements().is_empty() ==> final(self).spec_executed() == old(
                self,
            ).spec_executed(),
            forall|i: int|
                old(self).spec_executions() <= i < final(self).spec_executions() ==> #[trigger] bottom_up_cause(
                    *final(self),
                    i,
                ),
    {
        let ghost old_self = *self;
        let previous = self.current_executing_task;
        let previous_bottom_up = self.bottom_up;
        self.current_executing_task = None;
        self.bottom_up = true;
        self.pie.tracker.build_start();
        let ghost started = *self;
        self.execute_scheduled();
        let ghost ended = *self;
        self.pie.tracker.build_end();
        self.current_executing_task = previous;
        self.bottom_up = previous_bottom_up;
        proof {
            lemma_store_extends_trans(old_self.spec_store(), started.spec_store(), self.spec_store());
            old_self.spec_store().lemma_wf_nodes();
            if let Some(c) = previous {
                assert(old_self.spec_store().is_task_node(c.0 as int));
            }
            assert forall|i: int| 0 <= i < old_self.spec_store().len() && (#[trigger] old_self.spec_store().output_of(i)) is Some implies self.spec_store().output_of(i) is Some by {
                assert(started.spec_store().output_of(i) is Some);
            }
            assert forall|n: TaskNode| #[trigger] old_self.spec_consistent().contains(n) implies self.spec_consistent().contains(n) by {
                assert(started.spec_consistent().contains(n));
            }
            assert forall|n: TaskNode| #[trigger] old_self.spec_scheduled().elements().contains(n) implies self.spec_scheduled().elements().contains(n) || (self.spec_consistent().contains(n) && executed_since(*self, old_self, n)) by {
                assert(started.spec_scheduled().elements().contains(n));
                if !self.spec_scheduled().elements().contains(n) {
                    lemma_executed_since_widen(ended, started, *self, old_self, n);
                }
            }
            assert forall|i: int| 0 <= i < old_self.spec_executions() implies #[trigger] self.spec_fresh()[i]
                == old_self.spec_fresh()[i] by {
                assert(ended.spec_fresh()[i] == started.spec_fresh()[i]);
            }
            assert(old_self.spec_ever_scheduled().subset_of(self.spec_ever_scheduled()));
            assert forall|i: int| old_self.spec_executions() <= i < self.spec_executions() implies #[trigger] bottom_up_cause(*self, i) by {
                assert(bottom_up_cause(ended, i));
            }
        }
    }
}

/// A bottom-up build in a session: schedules the tasks affected by changed resources, then updates them.
pub struct BottomUpBuild<'s, 'p, T, A, S> {
    session: &'s mut Session<'p, T, A, S>,
}

impl<'s, 'p, T, A, S: ResourceState> BottomUpBuild<'s, 'p, T, A, S> {
    /// The session of this build.
    pub closed spec fn spec_session(&self) -> Session<'p, T, A, S> {
        *self.session
    }

    /// The mutable reference to the session of this build.
    pub closed spec fn session_ref(&self) -> &'s mut Session<'p, T, A, S> {
        self.session
    }
}

impl<'s, 'p, T: Task, A: Tracker, S: ResourceState> BottomUpBuild<'s, 'p, T, A, S> {
    /// Schedules the tasks affected by a change to `resource`: the tasks whose read or write dependency to it is
    /// inconsistent.
    pub fn schedule_tasks_affected_by(&mut self, resource: &KeyObj)
        requires
            old(self).spec_session().session_inv(),
        ensures
            final(self).spec_session().session_inv(),
            final(self).spec_session().session_extends(&old(self).spec_session()),
            old(self).spec_session().spec_scheduled().elements().subset_of(
                final(self).spec_session().spec_scheduled().elements(),
            ),
            forall|n: TaskNode| #[trigger]
                final(self).spec_session().spec_scheduled().elements().contains(n) ==> old(
                    self,
                ).spec_session().spec_scheduled().elements().contains(n) || touches_resource(
                    final(self).spec_session().spec_store(),
                    n,
                    resource@,
                ),
            exists|d: int, outcomes: Seq<Result<Option<Val>, FsError>>|
                #[trigger] checked_dependencies(
                    final(self).spec_session(),
                    old(self).spec_session(),
                    final(self).spec_session().spec_store(),
                    crate::store::reads_or_writes_to(final(self).spec_session().spec_store().edge_seq(), d),
                    outcomes,
                ) && final(self).spec_session().spec_store().is_resource_node(d)
                    && final(self).spec_session().spec_store().node_key(d) == resource@ && outcomes.len()
                    == crate::store::reads_or_writes_to(final(self).spec_session().spec_store().edge_seq(), d).len(),
            final(self).spec_session().spec_executions() == old(self).spec_session().spec_executions(),
            forall|i: int|
                0 <= i < old(self).spec_session().spec_store().len()
                    ==> #[trigger] final(self).spec_session().spec_store().output_of(i)
                    == old(self).spec_session().spec_store().output_of(i),
    {
        self.session.schedule_affected_by(resource);
    }

    /// Updates all tasks affected by the changed resources: executes the scheduled tasks, least dependent first,
    /// scheduling the tasks they affect in turn. When the build refused a request of a task, a cyclic task
    /// dependency, a hidden dependency or an overlapping write, fails with the first one.
    pub fn update_affected_tasks(self) -> (r: Result<(), PieError>)
        requires
            self.spec_session().session_inv(),
        ensures
            (*final(self.session_ref())).session_inv(),
            (*final(self.session_ref())).session_extends(&self.spec_session()),
            (*final(self.session_ref())).spec_scheduled().elements().is_empty()
                || (*final(self.session_ref())).spec_executions() >= self.spec_session().spec_executions() + u64::MAX,
            forall|n: TaskNode| #[trigger]
                self.spec_session().spec_scheduled().elements().contains(n)
                    ==> ((*final(self.session_ref())).spec_consistent().contains(n) && executed_since(
                    *final(self.session_ref()),
                    self.spec_session(),
                    n,
                )) || (*final(self.session_ref())).spec_executions() >= self.spec_session().spec_executions()
                    + u64::MAX,
            self.spec_session().spec_scheduled().elements().is_empty()
                ==> (*final(self.session_ref())).spec_executed() == self.spec_session().spec_executed(),
            forall|i: int|
                self.spec_session().spec_executions() <= i < (*final(self.session_ref())).spec_executions()
                    ==> #[trigger] bottom_up_cause(*final(self.session_ref()), i),
            r is Err <==> (*final(self.session_ref())).spec_refused().len() > self.spec_session().spec_refused().len(),
            r matches Err(e) ==> e == (*final(self.session_ref())).spec_refused()[self.spec_session().spec_refused().len() as int]
                && !(e is Resource),
    {
        let refused_before = self.session.refused.len();
        self.session.update_affected();
        if self.session.refused.len() > refused_before {
            Err(self.session.refused[refused_before])
        } else {
            Ok(())
        }
    }
}

/// Requiring `task` in a new top-down build took session `before` to session `after` and gave `output`: the task is
/// consistent with that output; a cached output consistent in `before` is returned; the tracker took in the build and
/// the require; an output that nothing can make inconsistent is reused without executing; a task that has done no
/// work is executed, inside its execute events; otherwise the output is reused exactly when every dependency is found
/// consistent (`reused_or_executed`).
pub open spec fn required_by_build<'p, T: Task, A: Tracker, S: ResourceState>(
    after: Session<'p, T, A, S>,
    before: Session<'p, T, A, S>,
    task: T,
    output: Val,
) -> bool {
    let key = task.spec_key();
    let checker = OutputCheckerObj::AlwaysConsistent;
    &&& required(after, key, output)
    &&& consistent_output_of(before, key) matches Some(o) ==> output == o
    &&& nested_brackets(
        after.spec_tracker(),
        before.spec_tracker(),
        TrackEvent::BuildStart,
        TrackEvent::RequireStart(key, checker),
        TrackEvent::RequireEnd(key, checker, checker.spec_stamp_obj(output), output),
        TrackEvent::BuildEnd,
    )
    &&& forall|o: Val|
        #[trigger] reusable(before.spec_store(), key, o) ==> output == o && after.spec_executions()
            == before.spec_executions()
    &&& has_done_no_work(before.spec_store(), key) ==> executed_during(after, before, key, output)
    &&& consistent_output_of(before, key) is None ==> reused_or_executed(after, before, key, output, u64::MAX)
    &&& consistent_output_of(before, key) is Some ==> after.spec_executed() == before.spec_executed()
    &&& has_done_no_work(before.spec_store(), key) ==> framed(
        after.spec_tracker(),
        before.spec_tracker(),
        seq![TrackEvent::BuildStart, TrackEvent::RequireStart(key, checker), TrackEvent::ExecuteStart(key)],
        seq![
            TrackEvent::ExecuteEnd(key, output),
            TrackEvent::RequireEnd(key, checker, checker.spec_stamp_obj(output), output),
            TrackEvent::BuildEnd,
        ],
    )
}

impl<'p, T: Task, A: Tracker, S: ResourceState> Context<T> for Session<'p, T, A, S> {
    open spec fn inv(&self) -> bool {
        self.session_inv()
    }

    open spec fn extends_from(&self, old: &Self) -> bool {
        self.session_extends(old)
    }

    open spec fn provides(&self, task: T, output: Val) -> bool {
        required(*self, task.spec_key(), output)
    }

    open spec fn closes_cycle(&self, task: T) -> bool {
        requiring_closes_cycle(self.spec_store(), self.spec_current(), task.spec_key())
    }

    open spec fn cached_output(&self, task: T) -> Option<Val> {
        consistent_output_of(*self, task.spec_key())
    }

    open spec fn has_not_run(&self, task: T) -> bool {
        has_done_no_work(self.spec_store(), task.spec_key())
    }

    open spec fn ran(&self, before: Self, task: T, output: Val) -> bool {
        executed_during(*self, before, task.spec_key(), output)
    }

    fn require(&mut self, task: &T, checker: OutputCheckerObj) -> (r: Result<ValueObj, PieError>) {
        self.require_task(task, checker)
    }

    fn read(&mut self, resource: &KeyObj, checker: ResourceCheckerObj) -> (r: Result<ValueObj, PieError>)
        ensures
            old(self).spec_current() matches Some(c) ==> (r is Ok ==> depends_on_resource(
                final(self).spec_store(),
                c.0 as int,
                resource@,
            )),
            r matches Err(e) ==> e == PieError::HiddenDependency || e == PieError::OverlappingWrite || e is Resource,
    {
        Session::read(self, resource, checker)
    }

    fn write(&mut self, resource: &KeyObj, checker: ResourceCheckerObj, content: &ValueObj) -> (r: Result<
        (),
        PieError,
    >)
        ensures
            old(self).spec_current() matches Some(c) ==> (r is Ok ==> depends_on_resource(
                final(self).spec_store(),
                c.0 as int,
                resource@,
            )),
            r matches Err(e) ==> e == PieError::HiddenDependency || e == PieError::OverlappingWrite || e is Resource,
    {
        Session::write(self, resource, checker, content)
    }

    fn written_to(&mut self, resource: &KeyObj, checker: ResourceCheckerObj) -> (r: Result<(), PieError>)
        ensures
            old(self).spec_current() matches Some(c) ==> (r is Ok ==> depends_on_resource(
                final(self).spec_store(),
                c.0 as int,
                resource@,
            )),
            r matches Err(e) ==> e == PieError::HiddenDependency || e == PieError::OverlappingWrite || e is Resource,
    {
        Session::written_to(self, resource, checker)
    }
}

} // verus!
