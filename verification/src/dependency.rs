//! Dependencies between tasks, and from tasks to resources.
use vstd::prelude::*;

use crate::resource::file::FsError;
use crate::resource::{ResourceCheckerObj, ResourceState};
use crate::task::OutputCheckerObj;
use crate::value::{KeyObj, Val, ValueObj};
use crate::tracker::{Tracker, TrackEvent};
use crate::pie::{check_result, stamp_outcome};

verus! {

/// The view of an optional key.
pub open spec fn key_view(key: Option<&KeyObj>) -> Option<Val> {
    match key {
        Some(k) => Some(k@),
        None => None,
    }
}

/// The event that ends the check of resource dependency `d` that found `outcome`: the end of checking the dependency
/// of `reading_task` when there is one, the end of a resource check otherwise.
pub open spec fn check_end_event(
    d: ResourceDependencyView,
    reading_task: Option<Val>,
    outcome: Result<Option<Val>, FsError>,
) -> TrackEvent {
    match reading_task {
        Some(task) => TrackEvent::CheckTaskReadResourceEnd(task, d.checker, d.stamp, outcome),
        None => TrackEvent::CheckResourceEnd(d.resource, d.checker, d.stamp, outcome),
    }
}

/// A require dependency to a task: the required task, the checker, and the stamp the checker made of the output.
pub struct TaskDependency {
    task: KeyObj,
    checker: OutputCheckerObj,
    stamp: ValueObj,
}

/// Mathematical view of a task dependency.
pub struct TaskDependencyView {
    pub task: Val,
    pub checker: OutputCheckerObj,
    pub stamp: Val,
}

impl View for TaskDependency {
    type V = TaskDependencyView;

    closed spec fn view(&self) -> TaskDependencyView {
        TaskDependencyView { task: self.task@, checker: self.checker, stamp: self.stamp@ }
    }
}

impl TaskDependency {
    /// Creates a task dependency.
    pub fn new(task: KeyObj, checker: OutputCheckerObj, stamp: ValueObj) -> (r: TaskDependency)
        ensures
            r@ == (TaskDependencyView { task: task@, checker, stamp: stamp@ }),
    {
        TaskDependency { task, checker, stamp }
    }

    /// Creates a task dependency from `checker` and `stamp`, a stamp that `checker` made of an output of the task.
    pub fn from_typed(task: KeyObj, checker: OutputCheckerObj, stamp: ValueObj) -> (r: TaskDependency)
        ensures
            r@ == (TaskDependencyView { task: task@, checker, stamp: stamp@ }),
    {
        TaskDependency { task, checker, stamp }
    }

    /// The required task.
    pub fn task(&self) -> (r: &KeyObj)
        ensures
            r@ == self@.task,
    {
        &self.task
    }

    /// The checker.
    pub fn checker(&self) -> (r: OutputCheckerObj)
        ensures
            r == self@.checker,
    {
        self.checker
    }

    /// The stamp.
    pub fn stamp(&self) -> (r: &ValueObj)
        ensures
            r@ == self@.stamp,
    {
        &self.stamp
    }

    /// Checks `output` against this dependency, returning `Some(inconsistency)` if inconsistent, `None` otherwise.
    pub fn check(&self, output: &ValueObj) -> (r: Option<ValueObj>)
        ensures
            r matches Some(i) ==> self@.checker.spec_check_obj(output@, self@.stamp) == Some(i@),
            r is None ==> self@.checker.spec_check_obj(output@, self@.stamp) is None,
    {
        self.checker.check_obj(output, &self.stamp)
    }

    /// Returns a copy of this dependency.
    pub fn copy(&self) -> (r: TaskDependency)
        ensures
            r@ == self@,
    {
        TaskDependency { task: self.task.copy(), checker: self.checker, stamp: self.stamp.copy() }
    }

    /// Converts this dependency into a require dependency.
    pub fn into_require(self) -> (r: Dependency)
        ensures
            r@ == DependencyView::Require(self@),
    {
        Dependency::Require(self)
    }
}

/// A dependency to a resource: the resource, the checker, and the stamp the checker made of the resource.
pub struct ResourceDependency {
    resource: KeyObj,
    checker: ResourceCheckerObj,
    stamp: ValueObj,
}

/// Mathematical view of a resource dependency.
pub struct ResourceDependencyView {
    pub resource: Val,
    pub checker: ResourceCheckerObj,
    pub stamp: Val,
}

impl View for ResourceDependency {
    type V = ResourceDependencyView;

    closed spec fn view(&self) -> ResourceDependencyView {
        ResourceDependencyView { resource: self.resource@, checker: self.checker, stamp: self.stamp@ }
    }
}

impl ResourceDependency {
    /// Creates a resource dependency.
    pub fn new(resource: KeyObj, checker: ResourceCheckerObj, stamp: ValueObj) -> (r: ResourceDependency)
        ensures
            r@ == (ResourceDependencyView { resource: resource@, checker, stamp: stamp@ }),
    {
        ResourceDependency { resource, checker, stamp }
    }

    /// Creates a resource dependency (the stamp was made by `checker`).
    pub fn from_typed(resource: KeyObj, checker: ResourceCheckerObj, stamp: ValueObj) -> (r: ResourceDependency)
        ensures
            r@ == (ResourceDependencyView { resource: resource@, checker, stamp: stamp@ }),
    {
        ResourceDependency { resource, checker, stamp }
    }

    /// The resource.
    pub fn resource(&self) -> (r: &KeyObj)
        ensures
            r@ == self@.resource,
    {
        &self.resource
    }

    /// The checker.
    pub fn checker(&self) -> (r: ResourceCheckerObj)
        ensures
            r == self@.checker,
    {
        self.checker
    }

    /// The stamp.
    pub fn stamp(&self) -> (r: &ValueObj)
        ensures
            r@ == self@.stamp,
    {
        &self.stamp
    }

    /// Returns whether `new_stamp`, a fresh stamp of the resource made with the same checker, is consistent with
    /// the stamp of this dependency.
    pub fn is_consistent_with(&self, new_stamp: &ValueObj) -> (r: bool)
        ensures
            r == (new_stamp@ == self@.stamp),
    {
        new_stamp.equals(&self.stamp)
    }

    /// Checks whether this dependency is consistent with the resource as it is now in `state`: stamps the resource
    /// anew with the checker of the dependency and compares the new stamp with the stored one, or fails with the
    /// error of stamping. Reports the end of the check, with the inconsistency found or the error, to `tracker`: as
    /// the end of checking the dependency of `reading_task` when there is one (a bottom-up check), as the end of a
    /// resource check otherwise.
    pub fn is_consistent<S: ResourceState, A: Tracker>(
        &self,
        state: &mut S,
        tracker: &mut A,
        reading_task: Option<&KeyObj>,
    ) -> (r: Result<bool, FsError>)
        requires
            old(state).state_inv(),
        ensures
            final(state).state_inv(),
            exists|stamped: Result<Val, FsError>|
                #[trigger] final(state).stamp_gives(*old(state), self@.resource, self@.checker, stamped)
                    && check_result(stamp_outcome(stamped, self@.stamp), self@.stamp, r) && final(tracker).follows(
                    *old(tracker),
                    check_end_event(self@, key_view(reading_task), stamp_outcome(stamped, self@.stamp)),
                ),
    {
        let ghost state_before = *state;
        let stamped = state.stamp_resource(&self.resource, self.checker);
        let ghost stamped_view = crate::resource::value_outcome(stamped);
        let r = match stamped {
            Ok(new_stamp) => {
                if self.is_consistent_with(&new_stamp) {
                    self.track_check_end(tracker, reading_task, Ok(None));
                    Ok(true)
                } else {
                    self.track_check_end(tracker, reading_task, Ok(Some(&new_stamp)));
                    Ok(false)
                }
            },
            Err(e) => {
                self.track_check_end(tracker, reading_task, Err(&e));
                Err(e)
            },
        };
        proof {
            assert(state.stamp_gives(state_before, self@.resource, self@.checker, stamped_view));
        }
        r
    }

    /// Reports the end of checking this dependency, with `inconsistency`, to `tracker`.
    fn track_check_end<A: Tracker>(
        &self,
        tracker: &mut A,
        reading_task: Option<&KeyObj>,
        inconsistency: Result<Option<&ValueObj>, &FsError>,
    )
        ensures
            final(tracker).follows(
                *old(tracker),
                check_end_event(self@, key_view(reading_task), crate::tracker::check_view(inconsistency)),
            ),
    {
        match reading_task {
            Some(task) => tracker.check_task_read_resource_end(task, self.checker, &self.stamp, inconsistency),
            None => tracker.check_resource_end(&self.resource, self.checker, &self.stamp, inconsistency),
        }
    }

    /// Returns a copy of this dependency.
    pub fn copy(&self) -> (r: ResourceDependency)
        ensures
            r@ == self@,
    {
        ResourceDependency { resource: self.resource.copy(), checker: self.checker, stamp: self.stamp.copy() }
    }

    /// Converts this dependency into a read dependency.
    pub fn into_read(self) -> (r: Dependency)
        ensures
            r@ == DependencyView::Read(self@),
    {
        Dependency::Read(self)
    }

    /// Converts this dependency into a write dependency.
    pub fn into_write(self) -> (r: Dependency)
        ensures
            r@ == DependencyView::Write(self@),
    {
        Dependency::Write(self)
    }
}

/// All kinds of dependencies. A reserved require dependency stands for a require dependency whose required task
/// is still being made consistent.
pub enum Dependency {
    ReservedRequire,
    Require(TaskDependency),
    Read(ResourceDependency),
    Write(ResourceDependency),
}

/// Mathematical view of a dependency.
pub enum DependencyView {
    ReservedRequire,
    Require(TaskDependencyView),
    Read(ResourceDependencyView),
    Write(ResourceDependencyView),
}

impl View for Dependency {
    type V = DependencyView;

    open spec fn view(&self) -> DependencyView {
        match self {
            Dependency::ReservedRequire => DependencyView::ReservedRequire,
            Dependency::Require(d) => DependencyView::Require(d@),
            Dependency::Read(d) => DependencyView::Read(d@),
            Dependency::Write(d) => DependencyView::Write(d@),
        }
    }
}

/// Two dependencies are alike when they are of the same kind and concern the same task or resource; stamps and
/// checkers are not compared.
pub open spec fn spec_dependency_alike(a: DependencyView, b: DependencyView) -> bool {
    match (a, b) {
        (DependencyView::Require(d), DependencyView::Require(o)) => d.task == o.task,
        (DependencyView::Read(d), DependencyView::Read(o)) => d.resource == o.resource,
        (DependencyView::Write(d), DependencyView::Write(o)) => d.resource == o.resource,
        (DependencyView::ReservedRequire, DependencyView::ReservedRequire) => true,
        _ => false,
    }
}

impl Dependency {
    /// Creates a require dependency.
    pub fn from(task_dependency: TaskDependency) -> (r: Dependency)
        ensures
            r@ == DependencyView::Require(task_dependency@),
    {
        Dependency::Require(task_dependency)
    }

    /// Creates a read dependency.
    pub fn from_read(resource_dependency: ResourceDependency) -> (r: Dependency)
        ensures
            r@ == DependencyView::Read(resource_dependency@),
    {
        Dependency::Read(resource_dependency)
    }

    /// Creates a write dependency.
    pub fn from_write(resource_dependency: ResourceDependency) -> (r: Dependency)
        ensures
            r@ == DependencyView::Write(resource_dependency@),
    {
        Dependency::Write(resource_dependency)
    }

    /// Compares the kind and the task or resource of two dependencies, ignoring checkers and stamps.
    pub fn eq(&self, other: &Dependency) -> (r: bool)
        ensures
            r == spec_dependency_alike(self@, other@),
    {
        match (self, other) {
            (Dependency::Require(d), Dependency::Require(o)) => d.task.equals(&o.task),
            (Dependency::Read(d), Dependency::Read(o)) => d.resource.equals(&o.resource),
            (Dependency::Write(d), Dependency::Write(o)) => d.resource.equals(&o.resource),
            (Dependency::ReservedRequire, Dependency::ReservedRequire) => true,
            _ => false,
        }
    }

    /// Returns a copy of this dependency.
    pub fn copy(&self) -> (r: Dependency)
        ensures
            r@ == self@,
    {
        match self {
            Dependency::ReservedRequire => Dependency::ReservedRequire,
            Dependency::Require(d) => Dependency::Require(d.copy()),
            Dependency::Read(d) => Dependency::Read(d.copy()),
            Dependency::Write(d) => Dependency::Write(d.copy()),
        }
    }

    /// Whether this is a read dependency.
    pub fn is_read(&self) -> (r: bool)
        ensures
            r == (self@ is Read),
    {
        match self {
            Dependency::Read(_) => true,
            _ => false,
        }
    }

    /// Whether this is a write dependency.
    pub fn is_write(&self) -> (r: bool)
        ensures
            r == (self@ is Write),
    {
        match self {
            Dependency::Write(_) => true,
            _ => false,
        }
    }
}

} // verus!
