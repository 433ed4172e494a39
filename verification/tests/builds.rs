use pie::collection::TypeToAnyMap;
use pie::pie::{Pie, Session};
use pie::resource::{ResourceCheckerObj, ResourceState};
use pie::task::OutputCheckerObj;
use pie::tracker::event::{Event, EventKind, EventTracker, TaskAccess};
use pie::tracker::Tracker;
use pie::value::{KeyObj, Val, ValueObj};
use pie::{Context, PieError, Task};

/// Tasks for testing builds. Map entries are keyed by strings.
#[derive(Clone, Debug)]
enum TestTask {
    /// Returns a constant string.
    Constant(String),
    /// Reads the map entry of the key.
    ReadEntry(String),
    /// Lower-cases the string output of another task.
    ToLower(Box<TestTask>),
    /// Writes the output of another task to the map entry of the key.
    WriteEntry(Box<TestTask>, String),
    /// Requires itself.
    RequireSelf,
    /// Reads the map entry of the key, then writes it to the map entry of the second key.
    Copy(String, String),
}

fn describe(task: &TestTask) -> String {
    match task {
        TestTask::Constant(s) => format!("Constant({})", s),
        TestTask::ReadEntry(k) => format!("ReadEntry({})", k),
        TestTask::ToLower(t) => format!("ToLower({})", describe(t)),
        TestTask::WriteEntry(t, k) => format!("WriteEntry({}, {})", describe(t), k),
        TestTask::RequireSelf => "RequireSelf".to_string(),
        TestTask::Copy(a, b) => format!("Copy({}, {})", a, b),
    }
}

fn entry(k: &str) -> KeyObj {
    KeyObj::from_str(k)
}

fn text(v: &ValueObj) -> String {
    match v {
        ValueObj::Str(s) => s.clone(),
        ValueObj::Opt(Some(b)) => text(b),
        ValueObj::Opt(None) => String::new(),
        _ => panic!("not a string value"),
    }
}

impl Task for TestTask {
    /// The mathematical key, which only the library's proofs read.
    fn spec_key(&self) -> Val {
        Val::Unit
    }

    fn key(&self) -> KeyObj {
        KeyObj::from_str(&describe(self))
    }

    fn execute<A: Tracker, S: ResourceState>(&self, session: &mut Session<'_, Self, A, S>) -> ValueObj {
        match self {
            TestTask::Constant(s) => ValueObj::from_str(s),
            TestTask::ReadEntry(k) => match session.read(&entry(k), ResourceCheckerObj::MapEquals) {
                Ok(v) => ValueObj::Str(text(&v)),
                Err(_) => ValueObj::Unit,
            },
            TestTask::ToLower(t) => match Context::require(session, t.as_ref(), OutputCheckerObj::Equals) {
                Ok(v) => ValueObj::Str(text(&v).to_lowercase()),
                Err(_) => ValueObj::Unit,
            },
            TestTask::WriteEntry(t, k) => match Context::require(session, t.as_ref(), OutputCheckerObj::Equals) {
                Ok(v) => match session.write(&entry(k), ResourceCheckerObj::MapEquals, &v) {
                    Ok(()) => ValueObj::Unit,
                    Err(e) => ValueObj::from_str(&format!("{:?}", e)),
                },
                Err(_) => ValueObj::Unit,
            },
            TestTask::RequireSelf => match Context::require(session, self, OutputCheckerObj::Equals) {
                Ok(_) => ValueObj::from_str("no cycle"),
                Err(e) => ValueObj::from_str(&format!("{:?}", e)),
            },
            TestTask::Copy(a, b) => match session.read(&entry(a), ResourceCheckerObj::MapEquals) {
                Ok(v) => match session.write(&entry(b), ResourceCheckerObj::MapEquals, &v) {
                    Ok(()) => ValueObj::Unit,
                    Err(e) => ValueObj::from_str(&format!("{:?}", e)),
                },
                Err(_) => ValueObj::Unit,
            },
        }
    }
}

fn new_pie() -> Pie<TestTask, EventTracker, TypeToAnyMap> {
    Pie::with_tracker(EventTracker::new())
}

fn set_entry(pie: &mut Pie<TestTask, EventTracker, TypeToAnyMap>, k: &str, v: &str) {
    pie.resource_state_mut().write_resource(&entry(k), &ValueObj::from_str(v)).unwrap();
}

fn require(pie: &mut Pie<TestTask, EventTracker, TypeToAnyMap>, task: &TestTask) -> ValueObj {
    let mut session = pie.new_session();
    session.require(task).expect("the build refuses no request")
}

#[test]
fn execute() {
    let mut pie = new_pie();
    let task = TestTask::Constant("Hello, World!".to_string());
    let output = require(&mut pie, &task);
    assert_eq!(text(&output), "Hello, World!");
    let events = pie.tracker().slice();
    assert_eq!(events.len(), 6);
    assert!(events[0].is_build_start());
    assert!(matches!(&events[1], Event::RequireStart(e) if e.task_equals(&task)));
    assert!(matches!(&events[2], Event::ExecuteStart(e) if e.task_equals(&task)));
    assert!(matches!(&events[3], Event::ExecuteEnd(e) if e.task_equals(&task)));
    assert!(matches!(&events[4], Event::RequireEnd(e) if e.task_equals(&task)));
    assert!(events[5].is_build_end());
}

#[test]
fn reuse() {
    let mut pie = new_pie();
    let task = TestTask::Constant("Hello, World!".to_string());
    let output = require(&mut pie, &task);
    assert_eq!(text(&output), "Hello, World!");
    assert!(pie.tracker().one_execute_of(&task.key()));
    let output = require(&mut pie, &task);
    assert_eq!(text(&output), "Hello, World!");
    assert!(!pie.tracker().any_execute());
}

#[test]
fn build_require_twice_in_one_session_executes_once() {
    let mut pie: Pie<TestTask, EventTracker, TypeToAnyMap> =
        Pie::with_tracker(EventTracker::with_clear_on_build_start(false));
    let task = TestTask::Constant("once".to_string());
    let mut session = pie.new_session();
    let first = session.require(&task).unwrap();
    let second = session.require(&task).unwrap();
    assert_eq!(text(&first), "once");
    assert_eq!(text(&second), "once");
    drop(session);
    assert!(pie.tracker().one_execute_of(&task.key()));
}

#[test]
fn build_read_entry_changes() {
    let mut pie = new_pie();
    set_entry(&mut pie, "in", "HELLO WORLD!");
    let task = TestTask::ReadEntry("in".to_string());
    assert_eq!(text(&require(&mut pie, &task)), "HELLO WORLD!");
    assert!(pie.tracker().one_execute_of(&task.key()));
    // Unchanged entry: not executed.
    assert_eq!(text(&require(&mut pie, &task)), "HELLO WORLD!");
    assert!(!pie.tracker().any_execute_of(&task.key()));
    // Changed entry: executed again.
    set_entry(&mut pie, "in", "!DLROW OLLEH");
    assert_eq!(text(&require(&mut pie, &task)), "!DLROW OLLEH");
    assert!(pie.tracker().one_execute_of(&task.key()));
}

#[test]
fn build_early_cutoff() {
    let mut pie = new_pie();
    set_entry(&mut pie, "in", "HELLO WORLD!");
    let read = TestTask::ReadEntry("in".to_string());
    let lower = TestTask::ToLower(Box::new(read.clone()));
    let write = TestTask::WriteEntry(Box::new(lower.clone()), "out".to_string());
    require(&mut pie, &write);
    assert_eq!(text(&pie.resource_state_mut().read_resource(&entry("out")).unwrap()), "hello world!");
    // Only the case changes: the lower-cased output stays the same, so the writer is not executed again.
    set_entry(&mut pie, "in", "hello world!");
    require(&mut pie, &write);
    let tracker = pie.tracker();
    assert!(tracker.one_execute_of(&read.key()));
    assert!(tracker.one_execute_of(&lower.key()));
    assert!(!tracker.any_execute_of(&write.key()));
}

#[test]
fn build_cycle_is_refused() {
    let mut pie = new_pie();
    let mut session = pie.new_session();
    let result = session.require(&TestTask::RequireSelf);
    assert_eq!(result.err(), Some(PieError::CyclicTaskDependency));
}

#[test]
fn build_overlapping_write_is_refused() {
    let mut pie = new_pie();
    set_entry(&mut pie, "a", "A");
    let first = TestTask::WriteEntry(Box::new(TestTask::Constant("1".to_string())), "out".to_string());
    let second = TestTask::WriteEntry(Box::new(TestTask::Constant("2".to_string())), "out".to_string());
    let mut session = pie.new_session();
    let first_output = session.require(&first).unwrap();
    let second_output = session.require(&second);
    assert!(matches!(first_output, ValueObj::Unit));
    assert_eq!(second_output.err(), Some(PieError::OverlappingWrite));
}

#[test]
fn build_hidden_dependency_is_refused() {
    let mut pie = new_pie();
    set_entry(&mut pie, "a", "A");
    // The reader reads "out" first; a writer that the reader does not depend on then writes it.
    let reader = TestTask::ReadEntry("out".to_string());
    let writer = TestTask::Copy("a".to_string(), "out".to_string());
    let mut session = pie.new_session();
    session.require(&reader).unwrap();
    let output = session.require(&writer);
    assert_eq!(output.err(), Some(PieError::HiddenDependency));
}

#[test]
fn build_bottom_up_directly_and_indirectly_affected() {
    let mut pie = new_pie();
    set_entry(&mut pie, "in", "HELLO WORLD!");
    let read = TestTask::ReadEntry("in".to_string());
    let lower = TestTask::ToLower(Box::new(read.clone()));
    assert_eq!(text(&require(&mut pie, &lower)), "hello world!");

    set_entry(&mut pie, "in", "HELLO WORLD!!");
    {
        let mut session = pie.new_session();
        let mut build = session.create_bottom_up_build();
        build.schedule_tasks_affected_by(&entry("in"));
        build.update_affected_tasks().unwrap();
    }
    let tracker = pie.tracker();
    let read_end = tracker.first_execute_end(&read.key()).expect("read executed");
    assert_eq!(text(&read_end.output), "HELLO WORLD!!");
    let lower_end = tracker.first_execute_end(&lower.key()).expect("lower executed");
    assert_eq!(text(&lower_end.output), "hello world!!");
    assert!(lower_end.index > read_end.index);
}

#[test]
fn test_nothing_affected() {
    let mut pie = new_pie();
    {
        let mut session = pie.new_session();
        let build = session.create_bottom_up_build();
        build.update_affected_tasks().unwrap();
    }
    assert!(!pie.tracker().any_execute());
}

#[test]
fn build_bottom_up_nothing_affected() {
    let mut pie = new_pie();
    set_entry(&mut pie, "in", "x");
    let read = TestTask::ReadEntry("in".to_string());
    require(&mut pie, &read);
    {
        let mut session = pie.new_session();
        let mut build = session.create_bottom_up_build();
        build.schedule_tasks_affected_by(&entry("in"));
        build.update_affected_tasks().unwrap();
    }
    assert!(!pie.tracker().any_execute());
}

#[test]
fn build_event_indices_are_positions() {
    let mut pie = new_pie();
    set_entry(&mut pie, "in", "A");
    let write = TestTask::WriteEntry(Box::new(TestTask::ToLower(Box::new(TestTask::ReadEntry("in".to_string())))), "out".to_string());
    require(&mut pie, &write);
    let tracker = pie.tracker();
    for (i, event) in tracker.slice().iter().enumerate() {
        let index = match event {
            Event::BuildStart | Event::BuildEnd => continue,
            Event::RequireStart(d) => d.index,
            Event::RequireEnd(d) => d.index,
            Event::ReadStart(d) => d.index,
            Event::ReadEnd(d) => d.index,
            Event::WriteStart(d) => d.index,
            Event::WriteEnd(d) => d.index,
            Event::ExecuteStart(d) => d.index,
            Event::ExecuteEnd(d) => d.index,
        };
        assert_eq!(index, i);
    }
    let range = tracker.first_require_range(&write.key()).unwrap();
    assert_eq!(*range.start(), 1);
    assert_eq!(*range.end(), tracker.slice().len() - 2);
    assert!(tracker.first_write(&entry("out")).is_some());
    assert!(tracker.first_read(&entry("in")).is_some());
    assert_eq!(tracker.count_of(EventKind::ExecuteStart, &write.key()), 1);
}

#[test]
fn build_refused_write_leaves_the_entry() {
    let mut pie = new_pie();
    let first = TestTask::WriteEntry(Box::new(TestTask::Constant("1".to_string())), "out".to_string());
    let second = TestTask::WriteEntry(Box::new(TestTask::Constant("2".to_string())), "out".to_string());
    {
        let mut session = pie.new_session();
        session.require(&first).unwrap();
        let second_output = session.require(&second);
        assert_eq!(second_output.err(), Some(PieError::OverlappingWrite));
    }
    assert_eq!(text(&pie.resource_state_mut().read_resource(&entry("out")).unwrap()), "1");
}

#[test]
fn build_reuses_exactly_when_dependencies_are_consistent() {
    let mut pie = new_pie();
    set_entry(&mut pie, "in", "A");
    let read = TestTask::ReadEntry("in".to_string());
    assert_eq!(text(&require(&mut pie, &read)), "A");
    // Unchanged entry: the read dependency is consistent and the output is reused.
    assert_eq!(text(&require(&mut pie, &read)), "A");
    assert!(!pie.tracker().any_execute());
    // Changed entry: the read dependency is inconsistent and the task is executed again.
    set_entry(&mut pie, "in", "B");
    assert_eq!(text(&require(&mut pie, &read)), "B");
    assert!(pie.tracker().one_execute_of(&read.key()));
}

#[test]
fn build_map_state_set_through_pie_is_read_by_tasks() {
    let mut pie = new_pie();
    pie.resource_state_mut().write_resource(&entry("manual key"), &ValueObj::from_str("manual value")).unwrap();
    let read = TestTask::ReadEntry("manual key".to_string());
    assert_eq!(text(&require(&mut pie, &read)), "manual value");
}

#[test]
fn test_indirectly_affected_tasks_early_cutoff() {
    let mut pie = new_pie();
    set_entry(&mut pie, "in", "HELLO WORLD!");
    let read = TestTask::ReadEntry("in".to_string());
    let lower = TestTask::ToLower(Box::new(read.clone()));
    let write = TestTask::WriteEntry(Box::new(lower.clone()), "out".to_string());
    require(&mut pie, &write);

    // Only the case changes: the lower-cased output stays the same, so the writer is neither scheduled nor executed.
    set_entry(&mut pie, "in", "hello world!");
    {
        let mut session = pie.new_session();
        let mut build = session.create_bottom_up_build();
        build.schedule_tasks_affected_by(&entry("in"));
        build.update_affected_tasks().unwrap();
    }
    let tracker = pie.tracker();
    let read_end = tracker.first_execute_end(&read.key()).expect("read executed");
    assert_eq!(text(&read_end.output), "hello world!");
    let lower_end = tracker.first_execute_end(&lower.key()).expect("lower executed");
    assert_eq!(text(&lower_end.output), "hello world!");
    assert!(lower_end.index > read_end.index);
    assert!(!tracker.any_execute_of(&write.key()));
}
