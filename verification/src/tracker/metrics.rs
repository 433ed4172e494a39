//! A tracker that counts build events and measures how long builds take.
use vstd::prelude::*;

use std::time::{Duration, Instant};

use crate::resource::ResourceCheckerObj;
use crate::task::OutputCheckerObj;
use crate::resource::file::FsError;
use crate::tracker::{Tracker, TrackEvent};
use crate::value::{KeyObj, ValueObj};

verus! {

#[verifier::external_type_specification]
#[verifier::external_body]
pub struct ExInstant(std::time::Instant);

/// The current time (`Instant::now`).
#[verifier::external_body]
fn now() -> Instant {
    Instant::now()
}

/// The time elapsed since `start` (`Instant::elapsed`).
#[verifier::external_body]
fn elapsed(start: &Instant) -> Duration {
    start.elapsed()
}

/// The zero duration (`Duration::default`).
#[verifier::external_body]
fn zero_duration() -> Duration {
    Duration::default()
}

/// Counts of the events of a build, and its duration.
pub struct Report {
    pub total_read_resources: u32,
    pub total_written_resources: u32,
    pub total_required_tasks: u32,
    pub total_executed_tasks: u32,
    pub total_required_tasks_up_to_date: u32,
    pub build_duration: Duration,
}

impl Report {
    /// Creates a report with all counts zero.
    pub fn new() -> (r: Report)
        ensures
            r.total_read_resources == 0,
            r.total_written_resources == 0,
            r.total_required_tasks == 0,
            r.total_executed_tasks == 0,
            r.total_required_tasks_up_to_date == 0,
    {
        Report {
            total_read_resources: 0,
            total_written_resources: 0,
            total_required_tasks: 0,
            total_executed_tasks: 0,
            total_required_tasks_up_to_date: 0,
            build_duration: zero_duration(),
        }
    }

    /// Sets all counts to zero and the duration to zero.
    fn clear(&mut self)
        ensures
            final(self).total_read_resources == 0,
            final(self).total_written_resources == 0,
            final(self).total_required_tasks == 0,
            final(self).total_executed_tasks == 0,
            final(self).total_required_tasks_up_to_date == 0,
    {
        self.total_read_resources = 0;
        self.total_written_resources = 0;
        self.total_required_tasks = 0;
        self.total_executed_tasks = 0;
        self.total_required_tasks_up_to_date = 0;
        self.build_duration = zero_duration();
    }
}

/// A tracker that counts build events in a report. Counts stop at `u32::MAX`.
pub struct MetricsTracker {
    report: Report,
    clear_on_build_start: bool,
    last_build_start: Option<Instant>,
    executed_in_require: Vec<bool>,
}

impl MetricsTracker {
    /// The report of the counts so far.
    pub closed spec fn spec_report(&self) -> Report {
        self.report
    }

    /// Whether each require in progress, innermost last, has executed its task.
    pub closed spec fn requires_in_progress(&self) -> Seq<bool> {
        self.executed_in_require@
    }

    /// Whether the counts are cleared when a build starts.
    pub closed spec fn clears_on_build_start(&self) -> bool {
        self.clear_on_build_start
    }

    /// Creates a tracker with all counts zero, which clears its counts when a build starts.
    pub fn new() -> (r: MetricsTracker)
        ensures
            r.spec_report().total_read_resources == 0,
            r.spec_report().total_written_resources == 0,
            r.spec_report().total_required_tasks == 0,
            r.spec_report().total_executed_tasks == 0,
            r.spec_report().total_required_tasks_up_to_date == 0,
            r.requires_in_progress() == Seq::<bool>::empty(),
            r.clears_on_build_start(),
    {
        MetricsTracker {
            report: Report::new(),
            clear_on_build_start: true,
            last_build_start: None,
            executed_in_require: Vec::new(),
        }
    }

    /// Gets the report.
    pub fn report(&self) -> (r: &Report)
        ensures
            *r == self.spec_report(),
    {
        &self.report
    }
}

/// `n + 1`, or `n` when that does not fit.
pub open spec fn count_up(n: u32) -> u32 {
    if n < u32::MAX {
        (n + 1) as u32
    } else {
        n
    }
}

/// `n + k`, or `u32::MAX` when that does not fit.
pub open spec fn capped_add(n: u32, k: nat) -> u32 {
    if n + k < u32::MAX {
        (n + k) as u32
    } else {
        u32::MAX
    }
}

/// How many of `events` start an execution.
pub open spec fn executions_in(events: Seq<TrackEvent>) -> nat
    decreases events.len(),
{
    if events.len() == 0 {
        0
    } else {
        executions_in(events.drop_last()) + if events.last() is ExecuteStart {
            1nat
        } else {
            0nat
        }
    }
}

/// How many of `events` end a write.
pub open spec fn writes_in(events: Seq<TrackEvent>) -> nat
    decreases events.len(),
{
    if events.len() == 0 {
        0
    } else {
        writes_in(events.drop_last()) + if events.last() is WriteEnd {
            1nat
        } else {
            0nat
        }
    }
}

/// Through any events that do not start a build, a metrics tracker counts exactly the executions started and the
/// writes ended among them (up to `u32::MAX`): no other event changes these counts.
pub proof fn lemma_metrics_count_executions_and_writes(
    after: MetricsTracker,
    before: MetricsTracker,
    events: Seq<TrackEvent>,
)
    requires
        crate::pie::follows_all(after, before, events),
        forall|k: int| 0 <= k < events.len() ==> !(#[trigger] events[k] is BuildStart),
    ensures
        after.spec_report().total_executed_tasks == capped_add(
            before.spec_report().total_executed_tasks,
            executions_in(events),
        ),
        after.spec_report().total_written_resources == capped_add(
            before.spec_report().total_written_resources,
            writes_in(events),
        ),
    decreases events.len(),
{
    if events.len() > 0 {
        let mid = choose|mid: MetricsTracker|
            crate::pie::follows_all(mid, before, events.drop_last()) && #[trigger] after.follows(mid, events.last());
        assert forall|k: int| 0 <= k < events.drop_last().len() implies !(#[trigger] events.drop_last()[k] is BuildStart) by {
            assert(events.drop_last()[k] == events[k]);
        }
        lemma_metrics_count_executions_and_writes(mid, before, events.drop_last());
        assert(!(events[events.len() - 1] is BuildStart));
    }
}

impl Tracker for MetricsTracker {
    open spec fn follows(&self, before: Self, event: TrackEvent) -> bool {
        let r = self.spec_report();
        let b = before.spec_report();
        &&& self.clears_on_build_start() == before.clears_on_build_start()
        &&& match event {
            TrackEvent::BuildStart => {
                &&& before.clears_on_build_start() ==> r.total_required_tasks == 0 && r.total_executed_tasks == 0
                    && r.total_required_tasks_up_to_date == 0 && r.total_read_resources == 0
                    && r.total_written_resources == 0
                &&& self.requires_in_progress() == Seq::<bool>::empty()
            },
            TrackEvent::BuildEnd => {
                &&& r.total_required_tasks == b.total_required_tasks
                &&& r.total_executed_tasks == b.total_executed_tasks
                &&& r.total_required_tasks_up_to_date == b.total_required_tasks_up_to_date
                &&& r.total_read_resources == b.total_read_resources
                &&& r.total_written_resources == b.total_written_resources
                &&& self.requires_in_progress() == before.requires_in_progress()
            },
            TrackEvent::RequireStart(_, _) => {
                &&& r.total_required_tasks == count_up(b.total_required_tasks)
                &&& r.total_executed_tasks == b.total_executed_tasks
                &&& r.total_required_tasks_up_to_date == b.total_required_tasks_up_to_date
                &&& r.total_read_resources == b.total_read_resources
                &&& r.total_written_resources == b.total_written_resources
                &&& self.requires_in_progress() == before.requires_in_progress().push(false)
            },
            TrackEvent::RequireEnd(_, _, _, _) => {
                &&& r.total_required_tasks == b.total_required_tasks
                &&& r.total_executed_tasks == b.total_executed_tasks
                &&& r.total_read_resources == b.total_read_resources
                &&& r.total_written_resources == b.total_written_resources
                &&& r.total_required_tasks_up_to_date == (if before.requires_in_progress().len() > 0
                    && !before.requires_in_progress().last() {
                    count_up(b.total_required_tasks_up_to_date)
                } else {
                    b.total_required_tasks_up_to_date
                })
                &&& self.requires_in_progress() == (if before.requires_in_progress().len() > 0 {
                    before.requires_in_progress().drop_last()
                } else {
                    before.requires_in_progress()
                })
            },
            TrackEvent::ReadEnd(_, _, _) => {
                &&& r.total_read_resources == count_up(b.total_read_resources)
                &&& r.total_written_resources == b.total_written_resources
                &&& r.total_required_tasks == b.total_required_tasks
                &&& r.total_executed_tasks == b.total_executed_tasks
                &&& r.total_required_tasks_up_to_date == b.total_required_tasks_up_to_date
                &&& self.requires_in_progress() == before.requires_in_progress()
            },
            TrackEvent::WriteEnd(_, _, _) => {
                &&& r.total_written_resources == count_up(b.total_written_resources)
                &&& r.total_read_resources == b.total_read_resources
                &&& r.total_required_tasks == b.total_required_tasks
                &&& r.total_executed_tasks == b.total_executed_tasks
                &&& r.total_required_tasks_up_to_date == b.total_required_tasks_up_to_date
                &&& self.requires_in_progress() == before.requires_in_progress()
            },
            TrackEvent::ExecuteStart(_) => {
                &&& r.total_executed_tasks == count_up(b.total_executed_tasks)
                &&& r.total_required_tasks == b.total_required_tasks
                &&& r.total_required_tasks_up_to_date == b.total_required_tasks_up_to_date
                &&& r.total_read_resources == b.total_read_resources
                &&& r.total_written_resources == b.total_written_resources
                &&& self.requires_in_progress() == (if before.requires_in_progress().len() > 0 {
                    before.requires_in_progress().drop_last().push(true)
                } else {
                    before.requires_in_progress()
                })
            },
            _ => *self == before,
        }
    }

    fn build_start(&mut self)
        ensures
            old(self).clears_on_build_start() ==> final(self).spec_report().total_required_tasks == 0
                && final(self).spec_report().total_executed_tasks == 0
                && final(self).spec_report().total_required_tasks_up_to_date == 0
                && final(self).spec_report().total_read_resources == 0
                && final(self).spec_report().total_written_resources == 0,
            final(self).requires_in_progress() == Seq::<bool>::empty(),
            final(self).clears_on_build_start() == old(self).clears_on_build_start(),
    {
        if self.clear_on_build_start {
            self.report.clear();
        }
        self.executed_in_require = Vec::new();
        self.last_build_start = Some(now());
    }

    fn build_end(&mut self)
        ensures
            final(self).spec_report().total_required_tasks == old(self).spec_report().total_required_tasks,
            final(self).spec_report().total_executed_tasks == old(self).spec_report().total_executed_tasks,
            final(self).spec_report().total_required_tasks_up_to_date == old(
                self,
            ).spec_report().total_required_tasks_up_to_date,
            final(self).spec_report().total_read_resources == old(self).spec_report().total_read_resources,
            final(self).spec_report().total_written_resources == old(self).spec_report().total_written_resources,
            final(self).requires_in_progress() == old(self).requires_in_progress(),
            final(self).clears_on_build_start() == old(self).clears_on_build_start(),
    {
        match &self.last_build_start {
            Some(start) => {
                self.report.build_duration = elapsed(start);
            },
            None => {},
        }
    }

    fn require_start(&mut self, task: &KeyObj, checker: OutputCheckerObj)
        ensures
            final(self).spec_report().total_required_tasks == count_up(old(self).spec_report().total_required_tasks),
            final(self).spec_report().total_executed_tasks == old(self).spec_report().total_executed_tasks,
            final(self).spec_report().total_required_tasks_up_to_date == old(
                self,
            ).spec_report().total_required_tasks_up_to_date,
            final(self).spec_report().total_read_resources == old(self).spec_report().total_read_resources,
            final(self).spec_report().total_written_resources == old(self).spec_report().total_written_resources,
            final(self).requires_in_progress() == old(self).requires_in_progress().push(false),
            final(self).clears_on_build_start() == old(self).clears_on_build_start(),
    {
        self.report.total_required_tasks = self.report.total_required_tasks.saturating_add(1);
        self.executed_in_require.push(false);
    }

    fn require_end(&mut self, task: &KeyObj, checker: OutputCheckerObj, stamp: &ValueObj, output: &ValueObj)
        ensures
            final(self).spec_report().total_required_tasks == old(self).spec_report().total_required_tasks,
            final(self).spec_report().total_executed_tasks == old(self).spec_report().total_executed_tasks,
            final(self).spec_report().total_read_resources == old(self).spec_report().total_read_resources,
            final(self).spec_report().total_written_resources == old(self).spec_report().total_written_resources,
            final(self).spec_report().total_required_tasks_up_to_date == (if old(self).requires_in_progress().len()
                > 0 && !old(self).requires_in_progress().last() {
                count_up(old(self).spec_report().total_required_tasks_up_to_date)
            } else {
                old(self).spec_report().total_required_tasks_up_to_date
            }),
            final(self).requires_in_progress() == (if old(self).requires_in_progress().len() > 0 {
                old(self).requires_in_progress().drop_last()
            } else {
                old(self).requires_in_progress()
            }),
            final(self).clears_on_build_start() == old(self).clears_on_build_start(),
    {
        match self.executed_in_require.pop() {
            Some(executed) => {
                if !executed {
                    self.report.total_required_tasks_up_to_date =
                    self.report.total_required_tasks_up_to_date.saturating_add(1);
                }
            },
            None => {},
        }
    }

    fn read_end(&mut self, resource: &KeyObj, checker: ResourceCheckerObj, stamp: &ValueObj)
        ensures
            final(self).spec_report().total_read_resources == count_up(old(self).spec_report().total_read_resources),
            final(self).spec_report().total_written_resources == old(self).spec_report().total_written_resources,
            final(self).spec_report().total_required_tasks == old(self).spec_report().total_required_tasks,
            final(self).spec_report().total_executed_tasks == old(self).spec_report().total_executed_tasks,
            final(self).spec_report().total_required_tasks_up_to_date == old(
                self,
            ).spec_report().total_required_tasks_up_to_date,
            final(self).requires_in_progress() == old(self).requires_in_progress(),
            final(self).clears_on_build_start() == old(self).clears_on_build_start(),
    {
        self.report.total_read_resources = self.report.total_read_resources.saturating_add(1);
    }

    fn write_end(&mut self, resource: &KeyObj, checker: ResourceCheckerObj, stamp: &ValueObj)
        ensures
            final(self).spec_report().total_written_resources == count_up(
                old(self).spec_report().total_written_resources,
            ),
            final(self).spec_report().total_read_resources == old(self).spec_report().total_read_resources,
            final(self).spec_report().total_required_tasks == old(self).spec_report().total_required_tasks,
            final(self).spec_report().total_executed_tasks == old(self).spec_report().total_executed_tasks,
            final(self).spec_report().total_required_tasks_up_to_date == old(
                self,
            ).spec_report().total_required_tasks_up_to_date,
            final(self).requires_in_progress() == old(self).requires_in_progress(),
            final(self).clears_on_build_start() == old(self).clears_on_build_start(),
    {
        self.report.total_written_resources = self.report.total_written_resources.saturating_add(1);
    }

    fn execute_start(&mut self, task: &KeyObj)
        ensures
            final(self).spec_report().total_executed_tasks == count_up(old(self).spec_report().total_executed_tasks),
            final(self).spec_report().total_required_tasks == old(self).spec_report().total_required_tasks,
            final(self).spec_report().total_required_tasks_up_to_date == old(
                self,
            ).spec_report().total_required_tasks_up_to_date,
            final(self).spec_report().total_read_resources == old(self).spec_report().total_read_resources,
            final(self).spec_report().total_written_resources == old(self).spec_report().total_written_resources,
            final(self).requires_in_progress() == (if old(self).requires_in_progress().len() > 0 {
                old(self).requires_in_progress().drop_last().push(true)
            } else {
                old(self).requires_in_progress()
            }),
            final(self).clears_on_build_start() == old(self).clears_on_build_start(),
    {
        self.report.total_executed_tasks = self.report.total_executed_tasks.saturating_add(1);
        let n = self.executed_in_require.len();
        if n > 0 {
            self.executed_in_require.set(n - 1, true);
            assert(self.executed_in_require@ =~= old(self).executed_in_require@.drop_last().push(true));
        }
    }

    fn read_start(&mut self, resource: &KeyObj, checker: ResourceCheckerObj) {
    }

    fn write_start(&mut self, resource: &KeyObj, checker: ResourceCheckerObj) {
    }

    fn check_task_start(&mut self, task: &KeyObj, checker: OutputCheckerObj, stamp: &ValueObj) {
    }

    fn check_task_end(&mut self, task: &KeyObj, checker: OutputCheckerObj, stamp: &ValueObj, inconsistency: Option<&ValueObj>) {
    }

    fn check_resource_start(&mut self, resource: &KeyObj, checker: ResourceCheckerObj, stamp: &ValueObj) {
    }

    fn check_resource_end(&mut self, resource: &KeyObj, checker: ResourceCheckerObj, stamp: &ValueObj, inconsistency: Result<Option<&ValueObj>, &FsError>) {
    }

    fn execute_end(&mut self, task: &KeyObj, output: &ValueObj) {
    }

    fn schedule_affected_by_task_start(&mut self, task: &KeyObj) {
    }

    fn check_task_require_task_start(&mut self, requiring_task: &KeyObj, checker: OutputCheckerObj, stamp: &ValueObj) {
    }

    fn check_task_require_task_end(&mut self, requiring_task: &KeyObj, checker: OutputCheckerObj, stamp: &ValueObj, inconsistency: Option<&ValueObj>) {
    }

    fn schedule_affected_by_task_end(&mut self, task: &KeyObj) {
    }

    fn schedule_affected_by_resource_start(&mut self, resource: &KeyObj) {
    }

    fn check_task_read_resource_start(&mut self, reading_task: &KeyObj, checker: ResourceCheckerObj, stamp: &ValueObj) {
    }

    fn check_task_read_resource_end(&mut self, reading_task: &KeyObj, checker: ResourceCheckerObj, stamp: &ValueObj, inconsistency: Result<Option<&ValueObj>, &FsError>) {
    }

    fn schedule_affected_by_resource_end(&mut self, resource: &KeyObj) {
    }

    fn schedule_task(&mut self, task: &KeyObj) {
    }
}

} // verus!
