//! Convenience for tracking pairs of start and end build events.
use vstd::prelude::*;

use crate::resource::file::FsError;
use crate::resource::ResourceCheckerObj;
use crate::task::OutputCheckerObj;
use crate::tracker::{check_view, option_view, Tracker, TrackEvent};
use crate::value::{KeyObj, ValueObj};

verus! {

/// Tracks pairs of start and end build events on a tracker: each method reports the start event and returns a
/// closure that reports the matching end event.
pub struct Tracking<'a, A>(pub &'a mut A);

impl<'a, A: Tracker> Tracking<'a, A> {
    /// Reports the start of a build, returning a closure that reports its end.
    pub fn build(&mut self) -> (r: impl FnOnce(&mut Tracking<'_, A>))
        ensures
            (*final(self).0).follows(*old(self).0, TrackEvent::BuildStart),
            forall|t: &mut Tracking<'_, A>| #[trigger] r.requires((t,)),
            forall|t: &mut Tracking<'_, A>, u: ()|
                #[trigger] r.ensures((t,), u) ==> (*final(t).0).follows(*t.0, TrackEvent::BuildEnd),
    {
        self.0.build_start();
        |tracking: &mut Tracking<'_, A>|
            ensures
                (*final(tracking).0).follows(*old(tracking).0, TrackEvent::BuildEnd),
            {
                tracking.0.build_end()
            }
    }

    /// Reports the start of requiring `task` with `checker`, returning a closure that reports its end with the stamp and the output.
    pub fn require<'b>(&mut self, task: &'b KeyObj, checker: OutputCheckerObj) -> (r: impl FnOnce(&mut Tracking<'_, A>, &ValueObj, &ValueObj) + 'b)
        ensures
            (*final(self).0).follows(*old(self).0, TrackEvent::RequireStart(task@, checker)),
            forall|t: &mut Tracking<'_, A>, stamp: &ValueObj, output: &ValueObj| #[trigger] r.requires((t, stamp, output,)),
            forall|t: &mut Tracking<'_, A>, stamp: &ValueObj, output: &ValueObj, u: ()|
                #[trigger] r.ensures((t, stamp, output,), u) ==> (*final(t).0).follows(*t.0, TrackEvent::RequireEnd(task@, checker, stamp@, output@)),
    {
        self.0.require_start(task, checker);
        move |tracking: &mut Tracking<'_, A>, stamp: &ValueObj, output: &ValueObj|
            ensures
                (*final(tracking).0).follows(*old(tracking).0, TrackEvent::RequireEnd(task@, checker, stamp@, output@)),
            {
                tracking.0.require_end(task, checker, stamp, output)
            }
    }

    /// Reports the start of reading `resource` with `checker`, returning a closure that reports its end with the stamp.
    pub fn read<'b>(&mut self, resource: &'b KeyObj, checker: ResourceCheckerObj) -> (r: impl FnOnce(&mut Tracking<'_, A>, &ValueObj) + 'b)
        ensures
            (*final(self).0).follows(*old(self).0, TrackEvent::ReadStart(resource@, checker)),
            forall|t: &mut Tracking<'_, A>, stamp: &ValueObj| #[trigger] r.requires((t, stamp,)),
            forall|t: &mut Tracking<'_, A>, stamp: &ValueObj, u: ()|
                #[trigger] r.ensures((t, stamp,), u) ==> (*final(t).0).follows(*t.0, TrackEvent::ReadEnd(resource@, checker, stamp@)),
    {
        self.0.read_start(resource, checker);
        move |tracking: &mut Tracking<'_, A>, stamp: &ValueObj|
            ensures
                (*final(tracking).0).follows(*old(tracking).0, TrackEvent::ReadEnd(resource@, checker, stamp@)),
            {
                tracking.0.read_end(resource, checker, stamp)
            }
    }

    /// Reports the start of writing `resource` with `checker`, returning a closure that reports its end with the stamp.
    pub fn write<'b>(&mut self, resource: &'b KeyObj, checker: ResourceCheckerObj) -> (r: impl FnOnce(&mut Tracking<'_, A>, &ValueObj) + 'b)
        ensures
            (*final(self).0).follows(*old(self).0, TrackEvent::WriteStart(resource@, checker)),
            forall|t: &mut Tracking<'_, A>, stamp: &ValueObj| #[trigger] r.requires((t, stamp,)),
            forall|t: &mut Tracking<'_, A>, stamp: &ValueObj, u: ()|
                #[trigger] r.ensures((t, stamp,), u) ==> (*final(t).0).follows(*t.0, TrackEvent::WriteEnd(resource@, checker, stamp@)),
    {
        self.0.write_start(resource, checker);
        move |tracking: &mut Tracking<'_, A>, stamp: &ValueObj|
            ensures
                (*final(tracking).0).follows(*old(tracking).0, TrackEvent::WriteEnd(resource@, checker, stamp@)),
            {
                tracking.0.write_end(resource, checker, stamp)
            }
    }

    /// Reports the start of checking `task` against `stamp` made by `checker`, returning a closure that reports its end with the inconsistency found, if any.
    pub fn check_task<'b>(&mut self, task: &'b KeyObj, checker: OutputCheckerObj, stamp: &'b ValueObj) -> (r: impl FnOnce(&mut Tracking<'_, A>, Option<&ValueObj>) + 'b)
        ensures
            (*final(self).0).follows(*old(self).0, TrackEvent::CheckTaskStart(task@, checker, stamp@)),
            forall|t: &mut Tracking<'_, A>, inconsistency: Option<&ValueObj>| #[trigger] r.requires((t, inconsistency,)),
            forall|t: &mut Tracking<'_, A>, inconsistency: Option<&ValueObj>, u: ()|
                #[trigger] r.ensures((t, inconsistency,), u) ==> (*final(t).0).follows(*t.0, TrackEvent::CheckTaskEnd(task@, checker, stamp@, option_view(inconsistency))),
    {
        self.0.check_task_start(task, checker, stamp);
        move |tracking: &mut Tracking<'_, A>, inconsistency: Option<&ValueObj>|
            ensures
                (*final(tracking).0).follows(*old(tracking).0, TrackEvent::CheckTaskEnd(task@, checker, stamp@, option_view(inconsistency))),
            {
                tracking.0.check_task_end(task, checker, stamp, inconsistency)
            }
    }

    /// Reports the start of checking `resource` against `stamp` made by `checker`, returning a closure that reports its end with the inconsistency or error found, if any.
    pub fn check_resource<'b>(&mut self, resource: &'b KeyObj, checker: ResourceCheckerObj, stamp: &'b ValueObj) -> (r: impl FnOnce(&mut Tracking<'_, A>, Result<Option<&ValueObj>, &FsError>) + 'b)
        ensures
            (*final(self).0).follows(*old(self).0, TrackEvent::CheckResourceStart(resource@, checker, stamp@)),
            forall|t: &mut Tracking<'_, A>, inconsistency: Result<Option<&ValueObj>, &FsError>| #[trigger] r.requires((t, inconsistency,)),
            forall|t: &mut Tracking<'_, A>, inconsistency: Result<Option<&ValueObj>, &FsError>, u: ()|
                #[trigger] r.ensures((t, inconsistency,), u) ==> (*final(t).0).follows(*t.0, TrackEvent::CheckResourceEnd(resource@, checker, stamp@, check_view(inconsistency))),
    {
        self.0.check_resource_start(resource, checker, stamp);
        move |tracking: &mut Tracking<'_, A>, inconsistency: Result<Option<&ValueObj>, &FsError>|
            ensures
                (*final(tracking).0).follows(*old(tracking).0, TrackEvent::CheckResourceEnd(resource@, checker, stamp@, check_view(inconsistency))),
            {
                tracking.0.check_resource_end(resource, checker, stamp, inconsistency)
            }
    }

    /// Reports the start of executing `task`, returning a closure that reports its end with the output.
    pub fn execute<'b>(&mut self, task: &'b KeyObj) -> (r: impl FnOnce(&mut Tracking<'_, A>, &ValueObj) + 'b)
        ensures
            (*final(self).0).follows(*old(self).0, TrackEvent::ExecuteStart(task@)),
            forall|t: &mut Tracking<'_, A>, output: &ValueObj| #[trigger] r.requires((t, output,)),
            forall|t: &mut Tracking<'_, A>, output: &ValueObj, u: ()|
                #[trigger] r.ensures((t, output,), u) ==> (*final(t).0).follows(*t.0, TrackEvent::ExecuteEnd(task@, output@)),
    {
        self.0.execute_start(task);
        move |tracking: &mut Tracking<'_, A>, output: &ValueObj|
            ensures
                (*final(tracking).0).follows(*old(tracking).0, TrackEvent::ExecuteEnd(task@, output@)),
            {
                tracking.0.execute_end(task, output)
            }
    }

    /// Reports the start of scheduling the tasks affected by `task`, returning a closure that reports its end.
    pub fn schedule_affected_by_task<'b>(&mut self, task: &'b KeyObj) -> (r: impl FnOnce(&mut Tracking<'_, A>) + 'b)
        ensures
            (*final(self).0).follows(*old(self).0, TrackEvent::ScheduleAffectedByTaskStart(task@)),
            forall|t: &mut Tracking<'_, A>| #[trigger] r.requires((t,)),
            forall|t: &mut Tracking<'_, A>, u: ()|
                #[trigger] r.ensures((t,), u) ==> (*final(t).0).follows(*t.0, TrackEvent::ScheduleAffectedByTaskEnd(task@)),
    {
        self.0.schedule_affected_by_task_start(task);
        move |tracking: &mut Tracking<'_, A>|
            ensures
                (*final(tracking).0).follows(*old(tracking).0, TrackEvent::ScheduleAffectedByTaskEnd(task@)),
            {
                tracking.0.schedule_affected_by_task_end(task)
            }
    }

    /// Reports the start of checking a require dependency of `requiring_task` against `stamp` made by `checker`, returning a closure that reports its end with the inconsistency found, if any.
    pub fn check_task_require_task<'b>(&mut self, requiring_task: &'b KeyObj, checker: OutputCheckerObj, stamp: &'b ValueObj) -> (r: impl FnOnce(&mut Tracking<'_, A>, Option<&ValueObj>) + 'b)
        ensures
            (*final(self).0).follows(*old(self).0, TrackEvent::CheckTaskRequireTaskStart(requiring_task@, checker, stamp@)),
            forall|t: &mut Tracking<'_, A>, inconsistency: Option<&ValueObj>| #[trigger] r.requires((t, inconsistency,)),
            forall|t: &mut Tracking<'_, A>, inconsistency: Option<&ValueObj>, u: ()|
                #[trigger] r.ensures((t, inconsistency,), u) ==> (*final(t).0).follows(*t.0, TrackEvent::CheckTaskRequireTaskEnd(requiring_task@, checker, stamp@, option_view(inconsistency))),
    {
        self.0.check_task_require_task_start(requiring_task, checker, stamp);
        move |tracking: &mut Tracking<'_, A>, inconsistency: Option<&ValueObj>|
            ensures
                (*final(tracking).0).follows(*old(tracking).0, TrackEvent::CheckTaskRequireTaskEnd(requiring_task@, checker, stamp@, option_view(inconsistency))),
            {
                tracking.0.check_task_require_task_end(requiring_task, checker, stamp, inconsistency)
            }
    }

    /// Reports the start of scheduling the tasks affected by `resource`, returning a closure that reports its end.
    pub fn schedule_affected_by_resource<'b>(&mut self, resource: &'b KeyObj) -> (r: impl FnOnce(&mut Tracking<'_, A>) + 'b)
        ensures
            (*final(self).0).follows(*old(self).0, TrackEvent::ScheduleAffectedByResourceStart(resource@)),
            forall|t: &mut Tracking<'_, A>| #[trigger] r.requires((t,)),
            forall|t: &mut Tracking<'_, A>, u: ()|
                #[trigger] r.ensures((t,), u) ==> (*final(t).0).follows(*t.0, TrackEvent::ScheduleAffectedByResourceEnd(resource@)),
    {
        self.0.schedule_affected_by_resource_start(resource);
        move |tracking: &mut Tracking<'_, A>|
            ensures
                (*final(tracking).0).follows(*old(tracking).0, TrackEvent::ScheduleAffectedByResourceEnd(resource@)),
            {
                tracking.0.schedule_affected_by_resource_end(resource)
            }
    }

    /// Reports the start of checking a read dependency of `reading_task` against `stamp` made by `checker`, returning a closure that reports its end with the inconsistency or error found, if any.
    pub fn check_task_read_resource<'b>(&mut self, reading_task: &'b KeyObj, checker: ResourceCheckerObj, stamp: &'b ValueObj) -> (r: impl FnOnce(&mut Tracking<'_, A>, Result<Option<&ValueObj>, &FsError>) + 'b)
        ensures
            (*final(self).0).follows(*old(self).0, TrackEvent::CheckTaskReadResourceStart(reading_task@, checker, stamp@)),
            forall|t: &mut Tracking<'_, A>, inconsistency: Result<Option<&ValueObj>, &FsError>| #[trigger] r.requires((t, inconsistency,)),
            forall|t: &mut Tracking<'_, A>, inconsistency: Result<Option<&ValueObj>, &FsError>, u: ()|
                #[trigger] r.ensures((t, inconsistency,), u) ==> (*final(t).0).follows(*t.0, TrackEvent::CheckTaskReadResourceEnd(reading_task@, checker, stamp@, check_view(inconsistency))),
    {
        self.0.check_task_read_resource_start(reading_task, checker, stamp);
        move |tracking: &mut Tracking<'_, A>, inconsistency: Result<Option<&ValueObj>, &FsError>|
            ensures
                (*final(tracking).0).follows(*old(tracking).0, TrackEvent::CheckTaskReadResourceEnd(reading_task@, checker, stamp@, check_view(inconsistency))),
            {
                tracking.0.check_task_read_resource_end(reading_task, checker, stamp, inconsistency)
            }
    }
}

} // verus!
