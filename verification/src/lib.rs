//! PIE: a sound and incremental programmatic build system.
//!
//! Tasks are units of computation that programmatically require other tasks and read from and write to resources,
//! creating precise dynamic dependencies. The build system stores these dependencies in a dependency graph and uses
//! them to re-execute only the tasks that are affected by changes.
use vstd::prelude::*;

pub mod value;
pub mod task;
pub mod graph;
pub mod dependency;
pub mod resource;
pub mod store;
pub mod tracker;
pub mod pie;
pub mod collection;
pub mod queue;
pub mod stamp;
pub mod tagged;
mod text;
pub mod tracking;

use crate::resource::ResourceCheckerObj;
use crate::resource::file::FsError;
use crate::task::OutputCheckerObj;
use crate::value::{KeyObj, Val, ValueObj};

verus! {

/// Errors that a build can end with.
#[derive(Clone, Copy, PartialEq, Eq, Hash, Debug)]
pub enum PieError {
    /// A task requires a task that directly or indirectly requires it.
    CyclicTaskDependency,
    /// A resource is read without a dependency to the task that writes it, or written without a dependency from
    /// the tasks that read it.
    HiddenDependency,
    /// A resource is written by two tasks.
    OverlappingWrite,
    /// Reading, writing or stamping a resource failed.
    Resource(FsError),
}

/// A unit of computation in a programmatic incremental build system.
///
/// Implementations are written by users of the library. The build system identifies a task by its key: tasks with
/// equal keys are the same task.
pub trait Task: Sized + Clone {
    /// The key of the task, by which the build system identifies it.
    spec fn spec_key(&self) -> Val;

    /// Returns the key of the task.
    fn key(&self) -> (r: KeyObj)
        ensures
            r@ == self.spec_key(),
    ;

    /// Executes the task in build `session`, returning its output. An implementation only uses `session` through
    /// its methods, which is what the contract states.
    fn execute<A: tracker::Tracker, S: resource::ResourceState>(&self, session: &mut pie::Session<'_, Self, A, S>) -> (r:
        ValueObj)
        requires
            old(session).session_inv(),
        ensures
            final(session).session_inv(),
            final(session).session_extends(old(session)),
    ;
}

/// Programmatic incremental build context, enabling tasks to require other tasks and to read from and write to
/// resources, creating dependencies.
pub trait Context<T>: Sized {
    /// The context is in a consistent state.
    spec fn inv(&self) -> bool;

    /// This context is a later state of `old`: what `old` knows of tasks and resources persists.
    spec fn extends_from(&self, old: &Self) -> bool;

    /// `task` is consistent in this context, with output `output`.
    spec fn provides(&self, task: T, output: Val) -> bool;

    /// Requiring `task` now would close a cycle of require dependencies.
    spec fn closes_cycle(&self, task: T) -> bool;

    /// The output of `task` when it is consistent in this context, or `None` when it is not.
    spec fn cached_output(&self, task: T) -> Option<Val>;

    /// `task` has done no work in this context: it has neither an output nor dependencies.
    spec fn has_not_run(&self, task: T) -> bool;

    /// This context is `before` after executions among which `task` was executed and returned `output`.
    spec fn ran(&self, before: Self, task: T, output: Val) -> bool;

    /// Requires `task` using `checker` for consistency checking, creating a task dependency and returning its
    /// consistent output: its cached output when it is consistent already, the output of executing it when it has
    /// not run. Fails, exactly when requiring it would close a cycle, with a cyclic dependency.
    fn require(&mut self, task: &T, checker: OutputCheckerObj) -> (r: Result<ValueObj, PieError>)
        requires
            old(self).inv(),
        ensures
            final(self).inv(),
            final(self).extends_from(old(self)),
            r matches Ok(o) ==> final(self).provides(*task, o@),
            r matches Err(e) ==> e == PieError::CyclicTaskDependency,
            r is Err <==> old(self).closes_cycle(*task),
            r matches Ok(v) ==> (old(self).cached_output(*task) matches Some(o) ==> v@ == o),
            r matches Ok(v) ==> (old(self).has_not_run(*task) ==> final(self).ran(*old(self), *task, v@)),
    ;

    /// Reads `resource` and creates a read dependency to it using `checker`, returning its content.
    fn read(&mut self, resource: &KeyObj, checker: ResourceCheckerObj) -> (r: Result<ValueObj, PieError>)
        requires
            old(self).inv(),
        ensures
            final(self).inv(),
            final(self).extends_from(old(self)),
    ;

    /// Writes `content` to `resource` and creates a write dependency to it using `checker`.
    fn write(&mut self, resource: &KeyObj, checker: ResourceCheckerObj, content: &ValueObj) -> (r: Result<
        (),
        PieError,
    >)
        requires
            old(self).inv(),
        ensures
            final(self).inv(),
            final(self).extends_from(old(self)),
    ;

    /// Creates a write dependency to `resource` using `checker`, after the task wrote to it.
    fn written_to(&mut self, resource: &KeyObj, checker: ResourceCheckerObj) -> (r: Result<(), PieError>)
        requires
            old(self).inv(),
        ensures
            final(self).inv(),
            final(self).extends_from(old(self)),
    ;
}

} // verus!
