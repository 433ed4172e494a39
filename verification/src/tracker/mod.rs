//! Build event trackers, for logging, event tracing, progress tracking and metrics.
use vstd::prelude::*;

use crate::resource::file::FsError;
use crate::resource::ResourceCheckerObj;
use crate::task::OutputCheckerObj;
use crate::value::{KeyObj, Val, ValueObj};

pub mod event;
pub mod metrics;
pub mod writing;

verus! {

/// A build event as a tracker receives it, with its arguments by their views.
pub enum TrackEvent {
    BuildStart,
    BuildEnd,
    RequireStart(Val, OutputCheckerObj),
    RequireEnd(Val, OutputCheckerObj, Val, Val),
    ReadStart(Val, ResourceCheckerObj),
    ReadEnd(Val, ResourceCheckerObj, Val),
    WriteStart(Val, ResourceCheckerObj),
    WriteEnd(Val, ResourceCheckerObj, Val),
    CheckTaskStart(Val, OutputCheckerObj, Val),
    CheckTaskEnd(Val, OutputCheckerObj, Val, Option<Val>),
    CheckResourceStart(Val, ResourceCheckerObj, Val),
    CheckResourceEnd(Val, ResourceCheckerObj, Val, Result<Option<Val>, FsError>),
    ExecuteStart(Val),
    ExecuteEnd(Val, Val),
    ScheduleAffectedByTaskStart(Val),
    CheckTaskRequireTaskStart(Val, OutputCheckerObj, Val),
    CheckTaskRequireTaskEnd(Val, OutputCheckerObj, Val, Option<Val>),
    ScheduleAffectedByTaskEnd(Val),
    ScheduleAffectedByResourceStart(Val),
    CheckTaskReadResourceStart(Val, ResourceCheckerObj, Val),
    CheckTaskReadResourceEnd(Val, ResourceCheckerObj, Val, Result<Option<Val>, FsError>),
    ScheduleAffectedByResourceEnd(Val),
    ScheduleTask(Val),
}

/// The view of an optional inconsistency.
pub open spec fn option_view(inconsistency: Option<&ValueObj>) -> Option<Val> {
    match inconsistency {
        Some(v) => Some(v@),
        None => None,
    }
}

/// The view of the outcome of checking a resource: an optional inconsistency, or an error.
pub open spec fn check_view(inconsistency: Result<Option<&ValueObj>, &FsError>) -> Result<Option<Val>, FsError> {
    match inconsistency {
        Ok(o) => Ok(option_view(o)),
        Err(e) => Err(*e),
    }
}

/// Build event tracker. An implementation states, in `follows`, how it changes on each event; every method meets
/// that statement for its event.
pub trait Tracker: Sized {
    /// `self` is this tracker after it took in `event`, having been `before` when the event came.
    spec fn follows(&self, before: Self, event: TrackEvent) -> bool;

    /// Start: a new build.
    fn build_start(&mut self)
        ensures
            final(self).follows(*old(self), TrackEvent::BuildStart),
    ;

    /// End: completed build.
    fn build_end(&mut self)
        ensures
            final(self).follows(*old(self), TrackEvent::BuildEnd),
    ;

    /// Start: require `task` using `checker`.
    fn require_start(&mut self, task: &KeyObj, checker: OutputCheckerObj)
        ensures
            final(self).follows(*old(self), TrackEvent::RequireStart(task@, checker)),
    ;

    /// End: required `task`, using `checker` to create `stamp`, resulting in `output`.
    fn require_end(&mut self, task: &KeyObj, checker: OutputCheckerObj, stamp: &ValueObj, output: &ValueObj)
        ensures
            final(self).follows(*old(self), TrackEvent::RequireEnd(task@, checker, stamp@, output@)),
    ;

    /// Start: read `resource` using `checker`.
    fn read_start(&mut self, resource: &KeyObj, checker: ResourceCheckerObj)
        ensures
            final(self).follows(*old(self), TrackEvent::ReadStart(resource@, checker)),
    ;

    /// End: read `resource` using `checker` to create `stamp`.
    fn read_end(&mut self, resource: &KeyObj, checker: ResourceCheckerObj, stamp: &ValueObj)
        ensures
            final(self).follows(*old(self), TrackEvent::ReadEnd(resource@, checker, stamp@)),
    ;

    /// Start: write `resource` using `checker`.
    fn write_start(&mut self, resource: &KeyObj, checker: ResourceCheckerObj)
        ensures
            final(self).follows(*old(self), TrackEvent::WriteStart(resource@, checker)),
    ;

    /// End: wrote `resource` using `checker` to create `stamp`.
    fn write_end(&mut self, resource: &KeyObj, checker: ResourceCheckerObj, stamp: &ValueObj)
        ensures
            final(self).follows(*old(self), TrackEvent::WriteEnd(resource@, checker, stamp@)),
    ;

    /// Start: check consistency of `task` which used `checker` to create `stamp`.
    fn check_task_start(&mut self, task: &KeyObj, checker: OutputCheckerObj, stamp: &ValueObj)
        ensures
            final(self).follows(*old(self), TrackEvent::CheckTaskStart(task@, checker, stamp@)),
    ;

    /// End: checked consistency of `task` which used `checker` to create `stamp`, possibly finding an `inconsistency`.
    fn check_task_end(&mut self, task: &KeyObj, checker: OutputCheckerObj, stamp: &ValueObj, inconsistency: Option<&ValueObj>)
        ensures
            final(self).follows(*old(self), TrackEvent::CheckTaskEnd(task@, checker, stamp@, option_view(inconsistency))),
    ;

    /// Start: check consistency of `resource` which used `checker` to create `stamp`.
    fn check_resource_start(&mut self, resource: &KeyObj, checker: ResourceCheckerObj, stamp: &ValueObj)
        ensures
            final(self).follows(*old(self), TrackEvent::CheckResourceStart(resource@, checker, stamp@)),
    ;

    /// End: checked consistency of `resource` which used `checker` to create `stamp`, possibly finding an `inconsistency` or an error.
    fn check_resource_end(&mut self, resource: &KeyObj, checker: ResourceCheckerObj, stamp: &ValueObj, inconsistency: Result<Option<&ValueObj>, &FsError>)
        ensures
            final(self).follows(*old(self), TrackEvent::CheckResourceEnd(resource@, checker, stamp@, check_view(inconsistency))),
    ;

    /// Start: execute `task`.
    fn execute_start(&mut self, task: &KeyObj)
        ensures
            final(self).follows(*old(self), TrackEvent::ExecuteStart(task@)),
    ;

    /// End: executed `task` resulting in `output`.
    fn execute_end(&mut self, task: &KeyObj, output: &ValueObj)
        ensures
            final(self).follows(*old(self), TrackEvent::ExecuteEnd(task@, output@)),
    ;

    /// Start: schedule tasks affected by changes to the output of `task`.
    fn schedule_affected_by_task_start(&mut self, task: &KeyObj)
        ensures
            final(self).follows(*old(self), TrackEvent::ScheduleAffectedByTaskStart(task@)),
    ;

    /// Start: check consistency of the require dependency of `requiring_task` which used `checker` to create `stamp`.
    fn check_task_require_task_start(&mut self, requiring_task: &KeyObj, checker: OutputCheckerObj, stamp: &ValueObj)
        ensures
            final(self).follows(*old(self), TrackEvent::CheckTaskRequireTaskStart(requiring_task@, checker, stamp@)),
    ;

    /// End: checked consistency of the require dependency of `requiring_task` which used `checker` to create `stamp`, possibly finding an `inconsistency`.
    fn check_task_require_task_end(&mut self, requiring_task: &KeyObj, checker: OutputCheckerObj, stamp: &ValueObj, inconsistency: Option<&ValueObj>)
        ensures
            final(self).follows(*old(self), TrackEvent::CheckTaskRequireTaskEnd(requiring_task@, checker, stamp@, option_view(inconsistency))),
    ;

    /// End: scheduled tasks affected by changes to the output of `task`.
    fn schedule_affected_by_task_end(&mut self, task: &KeyObj)
        ensures
            final(self).follows(*old(self), TrackEvent::ScheduleAffectedByTaskEnd(task@)),
    ;

    /// Start: schedule tasks affected by changes to `resource`.
    fn schedule_affected_by_resource_start(&mut self, resource: &KeyObj)
        ensures
            final(self).follows(*old(self), TrackEvent::ScheduleAffectedByResourceStart(resource@)),
    ;

    /// Start: check consistency of the read dependency of `reading_task` which used `checker` to create `stamp`.
    fn check_task_read_resource_start(&mut self, reading_task: &KeyObj, checker: ResourceCheckerObj, stamp: &ValueObj)
        ensures
            final(self).follows(*old(self), TrackEvent::CheckTaskReadResourceStart(reading_task@, checker, stamp@)),
    ;

    /// End: checked consistency of the read dependency of `reading_task` which used `checker` to create `stamp`, possibly finding an `inconsistency` or an error.
    fn check_task_read_resource_end(&mut self, reading_task: &KeyObj, checker: ResourceCheckerObj, stamp: &ValueObj, inconsistency: Result<Option<&ValueObj>, &FsError>)
        ensures
            final(self).follows(*old(self), TrackEvent::CheckTaskReadResourceEnd(reading_task@, checker, stamp@, check_view(inconsistency))),
    ;

    /// End: scheduled tasks affected by changes to `resource`.
    fn schedule_affected_by_resource_end(&mut self, resource: &KeyObj)
        ensures
            final(self).follows(*old(self), TrackEvent::ScheduleAffectedByResourceEnd(resource@)),
    ;

    /// Schedule `task` for execution.
    fn schedule_task(&mut self, task: &KeyObj)
        ensures
            final(self).follows(*old(self), TrackEvent::ScheduleTask(task@)),
    ;
}

/// The unit tracker ignores every event.
impl Tracker for () {
    open spec fn follows(&self, before: Self, event: TrackEvent) -> bool {
        *self == before
    }

    fn build_start(&mut self) {
    }

    fn build_end(&mut self) {
    }

    fn require_start(&mut self, task: &KeyObj, checker: OutputCheckerObj) {
    }

    fn require_end(&mut self, task: &KeyObj, checker: OutputCheckerObj, stamp: &ValueObj, output: &ValueObj) {
    }

    fn read_start(&mut self, resource: &KeyObj, checker: ResourceCheckerObj) {
    }

    fn read_end(&mut self, resource: &KeyObj, checker: ResourceCheckerObj, stamp: &ValueObj) {
    }

    fn write_start(&mut self, resource: &KeyObj, checker: ResourceCheckerObj) {
    }

    fn write_end(&mut self, resource: &KeyObj, checker: ResourceCheckerObj, stamp: &ValueObj) {
    }

    fn check_task_start(&mut self, task: &KeyObj, checker: OutputCheckerObj, stamp: &ValueObj) {
    }

    fn check_task_end(&mut self, task: &KeyObj, checker: OutputCheckerObj, stamp: &ValueObj, inconsistency: Option<&ValueObj>) {
    }

    fn check_resource_start(&mut self, resource: &KeyObj, checker: ResourceCheckerObj, stamp: &ValueObj) {
    }

    fn check_resource_end(&mut self, resource: &KeyObj, checker: ResourceCheckerObj, stamp: &ValueObj, inconsistency: Result<Option<&ValueObj>, &FsError>) {
    }

    fn execute_start(&mut self, task: &KeyObj) {
    }

    fn execute_end(&mut self, task: &KeyObj, output: &ValueObj) {
    }

    fn schedule_affected_by_task_start(&mut self, task: &KeyObj) {
    }

    fn check_task_require_task_start(&mut self, requiring_task: &KeyObj, checker: OutputCheckerObj, stamp: &ValueObj) {
    }

    fn check_task_require_task_end(&mut self, requiring_task: &KeyObj, checker: OutputCheckerObj, stamp: &ValueObj, inconsistency: Option<&ValueObj>) {
    }

    fn schedule_affected_by_task_end(&mut self, task: &KeyObj) {
    }

    fn schedule_affected_by_resource_start(&mut self, resource: &KeyObj) {
    }

    fn check_task_read_resource_start(&mut self, reading_task: &KeyObj, checker: ResourceCheckerObj, stamp: &ValueObj) {
    }

    fn check_task_read_resource_end(&mut self, reading_task: &KeyObj, checker: ResourceCheckerObj, stamp: &ValueObj, inconsistency: Result<Option<&ValueObj>, &FsError>) {
    }

    fn schedule_affected_by_resource_end(&mut self, resource: &KeyObj) {
    }

    fn schedule_task(&mut self, task: &KeyObj) {
    }
}

/// A tracker that does nothing.
#[derive(Clone, Copy, PartialEq, Eq, Hash, Debug, Default)]
pub struct NoopTracker;

impl Tracker for NoopTracker {
    open spec fn follows(&self, before: Self, event: TrackEvent) -> bool {
        *self == before
    }

    fn build_start(&mut self) {
    }

    fn build_end(&mut self) {
    }

    fn require_start(&mut self, task: &KeyObj, checker: OutputCheckerObj) {
    }

    fn require_end(&mut self, task: &KeyObj, checker: OutputCheckerObj, stamp: &ValueObj, output: &ValueObj) {
    }

    fn read_start(&mut self, resource: &KeyObj, checker: ResourceCheckerObj) {
    }

    fn read_end(&mut self, resource: &KeyObj, checker: ResourceCheckerObj, stamp: &ValueObj) {
    }

    fn write_start(&mut self, resource: &KeyObj, checker: ResourceCheckerObj) {
    }

    fn write_end(&mut self, resource: &KeyObj, checker: ResourceCheckerObj, stamp: &ValueObj) {
    }

    fn check_task_start(&mut self, task: &KeyObj, checker: OutputCheckerObj, stamp: &ValueObj) {
    }

    fn check_task_end(&mut self, task: &KeyObj, checker: OutputCheckerObj, stamp: &ValueObj, inconsistency: Option<&ValueObj>) {
    }

    fn check_resource_start(&mut self, resource: &KeyObj, checker: ResourceCheckerObj, stamp: &ValueObj) {
    }

    fn check_resource_end(&mut self, resource: &KeyObj, checker: ResourceCheckerObj, stamp: &ValueObj, inconsistency: Result<Option<&ValueObj>, &FsError>) {
    }

    fn execute_start(&mut self, task: &KeyObj) {
    }

    fn execute_end(&mut self, task: &KeyObj, output: &ValueObj) {
    }

    fn schedule_affected_by_task_start(&mut self, task: &KeyObj) {
    }

    fn check_task_require_task_start(&mut self, requiring_task: &KeyObj, checker: OutputCheckerObj, stamp: &ValueObj) {
    }

    fn check_task_require_task_end(&mut self, requiring_task: &KeyObj, checker: OutputCheckerObj, stamp: &ValueObj, inconsistency: Option<&ValueObj>) {
    }

    fn schedule_affected_by_task_end(&mut self, task: &KeyObj) {
    }

    fn schedule_affected_by_resource_start(&mut self, resource: &KeyObj) {
    }

    fn check_task_read_resource_start(&mut self, reading_task: &KeyObj, checker: ResourceCheckerObj, stamp: &ValueObj) {
    }

    fn check_task_read_resource_end(&mut self, reading_task: &KeyObj, checker: ResourceCheckerObj, stamp: &ValueObj, inconsistency: Result<Option<&ValueObj>, &FsError>) {
    }

    fn schedule_affected_by_resource_end(&mut self, resource: &KeyObj) {
    }

    fn schedule_task(&mut self, task: &KeyObj) {
    }
}

/// A tracker that forwards events to two trackers.
#[derive(Clone, Copy, PartialEq, Eq, Hash, Debug, Default)]
pub struct CompositeTracker<A1, A2>(pub A1, pub A2);

impl<A1, A2> CompositeTracker<A1, A2> {
    /// Creates a tracker that forwards events to `tracker_1` and then to `tracker_2`.
    pub fn new(tracker_1: A1, tracker_2: A2) -> (r: Self)
        ensures
            r.0 == tracker_1,
            r.1 == tracker_2,
    {
        CompositeTracker(tracker_1, tracker_2)
    }
}

/// Both trackers track each event.
impl<A1: Tracker, A2: Tracker> Tracker for CompositeTracker<A1, A2> {
    open spec fn follows(&self, before: Self, event: TrackEvent) -> bool {
        self.0.follows(before.0, event) && self.1.follows(before.1, event)
    }

    fn build_start(&mut self) {
        self.0.build_start();
        self.1.build_start();
    }

    fn build_end(&mut self) {
        self.0.build_end();
        self.1.build_end();
    }

    fn require_start(&mut self, task: &KeyObj, checker: OutputCheckerObj) {
        self.0.require_start(task, checker);
        self.1.require_start(task, checker);
    }

    fn require_end(&mut self, task: &KeyObj, checker: OutputCheckerObj, stamp: &ValueObj, output: &ValueObj) {
        self.0.require_end(task, checker, stamp, output);
        self.1.require_end(task, checker, stamp, output);
    }

    fn read_start(&mut self, resource: &KeyObj, checker: ResourceCheckerObj) {
        self.0.read_start(resource, checker);
        self.1.read_start(resource, checker);
    }

    fn read_end(&mut self, resource: &KeyObj, checker: ResourceCheckerObj, stamp: &ValueObj) {
        self.0.read_end(resource, checker, stamp);
        self.1.read_end(resource, checker, stamp);
    }

    fn write_start(&mut self, resource: &KeyObj, checker: ResourceCheckerObj) {
        self.0.write_start(resource, checker);
        self.1.write_start(resource, checker);
    }

    fn write_end(&mut self, resource: &KeyObj, checker: ResourceCheckerObj, stamp: &ValueObj) {
        self.0.write_end(resource, checker, stamp);
        self.1.write_end(resource, checker, stamp);
    }

    fn check_task_start(&mut self, task: &KeyObj, checker: OutputCheckerObj, stamp: &ValueObj) {
        self.0.check_task_start(task, checker, stamp);
        self.1.check_task_start(task, checker, stamp);
    }

    fn check_task_end(&mut self, task: &KeyObj, checker: OutputCheckerObj, stamp: &ValueObj, inconsistency: Option<&ValueObj>) {
        self.0.check_task_end(task, checker, stamp, inconsistency);
        self.1.check_task_end(task, checker, stamp, inconsistency);
    }

    fn check_resource_start(&mut self, resource: &KeyObj, checker: ResourceCheckerObj, stamp: &ValueObj) {
        self.0.check_resource_start(resource, checker, stamp);
        self.1.check_resource_start(resource, checker, stamp);
    }

    fn check_resource_end(&mut self, resource: &KeyObj, checker: ResourceCheckerObj, stamp: &ValueObj, inconsistency: Result<Option<&ValueObj>, &FsError>) {
        self.0.check_resource_end(resource, checker, stamp, inconsistency);
        self.1.check_resource_end(resource, checker, stamp, inconsistency);
    }

    fn execute_start(&mut self, task: &KeyObj) {
        self.0.execute_start(task);
        self.1.execute_start(task);
    }

    fn execute_end(&mut self, task: &KeyObj, output: &ValueObj) {
        self.0.execute_end(task, output);
        self.1.execute_end(task, output);
    }

    fn schedule_affected_by_task_start(&mut self, task: &KeyObj) {
        self.0.schedule_affected_by_task_start(task);
        self.1.schedule_affected_by_task_start(task);
    }

    fn check_task_require_task_start(&mut self, requiring_task: &KeyObj, checker: OutputCheckerObj, stamp: &ValueObj) {
        self.0.check_task_require_task_start(requiring_task, checker, stamp);
        self.1.check_task_require_task_start(requiring_task, checker, stamp);
    }

    fn check_task_require_task_end(&mut self, requiring_task: &KeyObj, checker: OutputCheckerObj, stamp: &ValueObj, inconsistency: Option<&ValueObj>) {
        self.0.check_task_require_task_end(requiring_task, checker, stamp, inconsistency);
        self.1.check_task_require_task_end(requiring_task, checker, stamp, inconsistency);
    }

    fn schedule_affected_by_task_end(&mut self, task: &KeyObj) {
        self.0.schedule_affected_by_task_end(task);
        self.1.schedule_affected_by_task_end(task);
    }

    fn schedule_affected_by_resource_start(&mut self, resource: &KeyObj) {
        self.0.schedule_affected_by_resource_start(resource);
        self.1.schedule_affected_by_resource_start(resource);
    }

    fn check_task_read_resource_start(&mut self, reading_task: &KeyObj, checker: ResourceCheckerObj, stamp: &ValueObj) {
        self.0.check_task_read_resource_start(reading_task, checker, stamp);
        self.1.check_task_read_resource_start(reading_task, checker, stamp);
    }

    fn check_task_read_resource_end(&mut self, reading_task: &KeyObj, checker: ResourceCheckerObj, stamp: &ValueObj, inconsistency: Result<Option<&ValueObj>, &FsError>) {
        self.0.check_task_read_resource_end(reading_task, checker, stamp, inconsistency);
        self.1.check_task_read_resource_end(reading_task, checker, stamp, inconsistency);
    }

    fn schedule_affected_by_resource_end(&mut self, resource: &KeyObj) {
        self.0.schedule_affected_by_resource_end(resource);
        self.1.schedule_affected_by_resource_end(resource);
    }

    fn schedule_task(&mut self, task: &KeyObj) {
        self.0.schedule_task(task);
        self.1.schedule_task(task);
    }
}

} // verus!
