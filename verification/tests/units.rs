use pie::tracker::writing::value_text;
use pie::collection::{AnyKind, AnyValue, GetGlobalMap, TypeToAnyMap};
use pie::dependency::{ResourceDependency, TaskDependency};
use pie::resource::file::{ErrorKind, ExistsChecker, FsError, HashChecker, ModifiedChecker};
use pie::resource::map::{GlobalMap, MapEqualsChecker, MapKey, MapKeyObjToObj, MapKeyToObj};
use pie::resource::{ResourceChecker, ResourceCheckerObj, ResourceState};
use pie::stamp::{FileContent, FileStamp, FileStamper, OutputStamp, OutputStamper, Timestamp, WalkedEntry};
use pie::task::{AlwaysConsistent, ErrEqualsChecker, OkEqualsChecker, OutputChecker, OutputCheckerObj, ResultChecker};
use pie::tracker::metrics::MetricsTracker;
use pie::tracker::Tracker;
use pie::tracking::Tracking;
use pie::tracker::event::{Event, EventTracker};
use pie::value::{KeyObj, ValueObj};

fn ok(v: ValueObj) -> ValueObj {
    ValueObj::Res(Ok(Box::new(v)))
}

fn err(v: ValueObj) -> ValueObj {
    ValueObj::Res(Err(Box::new(v)))
}

#[test]
fn checker_equals_stamp_then_check_is_consistent() {
    for checker in [OutputCheckerObj::Equals, OutputCheckerObj::OkEquals, OutputCheckerObj::ErrEquals, OutputCheckerObj::Result, OutputCheckerObj::AlwaysConsistent] {
        for output in [ValueObj::Int(1), ok(ValueObj::Int(2)), err(ValueObj::Int(3))] {
            let stamp = checker.stamp_obj(&output);
            assert!(checker.check_obj(&output, &stamp).is_none());
        }
    }
}

#[test]
fn checker_ok_equals_ignores_errors() {
    let checker = OkEqualsChecker;
    let stamp = checker.stamp(&err(ValueObj::Int(1)));
    assert!(checker.check(&err(ValueObj::Int(2)), &stamp).is_none());
    assert!(checker.check(&ok(ValueObj::Int(2)), &stamp).is_some());
}

#[test]
fn checker_err_equals_ignores_oks() {
    let checker = ErrEqualsChecker;
    let stamp = checker.stamp(&ok(ValueObj::Int(1)));
    assert!(checker.check(&ok(ValueObj::Int(2)), &stamp).is_none());
    assert!(checker.check(&err(ValueObj::Int(2)), &stamp).is_some());
}

#[test]
fn checker_result_compares_variant_only() {
    let checker = ResultChecker;
    let stamp = checker.stamp(&ok(ValueObj::Int(1)));
    assert!(checker.check(&ok(ValueObj::Int(2)), &stamp).is_none());
    assert!(checker.check(&err(ValueObj::Int(1)), &stamp).is_some());
}

#[test]
fn checker_always_consistent() {
    let checker = AlwaysConsistent;
    let stamp = checker.stamp(&ValueObj::Int(1));
    assert!(checker.check(&ValueObj::Int(2), &stamp).is_none());
}

#[test]
fn dependency_consistency() {
    let dependency = TaskDependency::new(KeyObj::from_str("t"), OutputCheckerObj::Equals, ValueObj::Int(1));
    assert!(dependency.check(&ValueObj::Int(1)).is_none());
    assert!(dependency.check(&ValueObj::Int(2)).is_some());
    let dependency = ResourceDependency::new(KeyObj::from_str("r"), ResourceCheckerObj::Exists, ValueObj::Bool(true));
    assert!(dependency.is_consistent_with(&ValueObj::Bool(true)));
    assert!(!dependency.is_consistent_with(&ValueObj::Bool(false)));
}

#[test]
fn global_map_insert_and_get() {
    let mut map = GlobalMap::new();
    assert!(map.get(&KeyObj::from_str("a")).is_none());
    assert!(map.insert(KeyObj::from_str("a"), ValueObj::Int(1)).is_none());
    assert!(matches!(map.insert(KeyObj::from_str("a"), ValueObj::Int(2)), Some(ValueObj::Int(1))));
    assert!(matches!(map.get(&KeyObj::from_str("a")), Some(ValueObj::Int(2))));
    if let Some(v) = map.get_mut(&KeyObj::from_str("a")) {
        *v = ValueObj::Int(3);
    }
    assert!(matches!(map.get(&KeyObj::from_str("a")), Some(ValueObj::Int(3))));
    let key = KeyObj::from_str("b");
    let mut writer = map.writer(&key);
    assert!(writer.get().is_none());
    assert!(writer.insert(ValueObj::Bool(true)).is_none());
    assert!(matches!(writer.get(), Some(ValueObj::Bool(true))));
}

#[test]
fn map_equals_checker_stamps_value() {
    let mut map = GlobalMap::new();
    let key = KeyObj::from_str("k");
    let empty = MapEqualsChecker.stamp(&key, &map);
    assert!(matches!(empty, ValueObj::Opt(None)));
    map.insert(key.copy(), ValueObj::Int(7));
    let stamp = MapEqualsChecker.stamp(&key, &map);
    assert!(MapEqualsChecker.check(&key, &map, &stamp).is_none());
    assert!(MapEqualsChecker.check(&key, &map, &empty).is_some());
    assert_eq!(MapEqualsChecker.to_obj(), ResourceCheckerObj::MapEquals);
}

#[test]
fn map_keys() {
    let a = MapKeyToObj::new(ValueObj::Int(1));
    assert!(a.map_key().equals(&KeyObj::new(ValueObj::Int(1))));
    let b = MapKeyObjToObj::from(ValueObj::Int(2));
    assert!(b.map_key().equals(&KeyObj::new(ValueObj::Int(2))));
    let c = MapKeyObjToObj::new(KeyObj::from_str("c"));
    assert!(c.map_key().equals(&KeyObj::from_str("c")));
}

#[test]
fn type_to_any_map_defaults_and_kinds() {
    let mut map = TypeToAnyMap::new();
    let ty = KeyObj::from_str("ty");
    assert!(!map.has_state(&ty));
    assert!(matches!(map.get_or_set_default(&ty, AnyKind::Value), AnyValue::Value(ValueObj::Unit)));
    assert!(map.is_of_type(&ty, AnyKind::Value));
    assert!(map.get(&ty, AnyKind::Global).is_none());
    map.set(&ty, AnyValue::Value(ValueObj::Int(4)));
    assert!(matches!(map.get(&ty, AnyKind::Value), Some(AnyValue::Value(ValueObj::Int(4)))));
    // Asking for another kind replaces the state by the default of that kind.
    assert!(matches!(map.get_or_set_default(&ty, AnyKind::Global), AnyValue::Global(_)));
    assert!(map.get(&ty, AnyKind::Value).is_none());
    if let Some(AnyValue::Global(m)) = map.get_any_mut(&ty) {
        m.insert(KeyObj::from_str("x"), ValueObj::Int(1));
    }
    match map.get_boxed_any(&ty) {
        Some(AnyValue::Global(m)) => assert!(matches!(m.get(&KeyObj::from_str("x")), Some(ValueObj::Int(1)))),
        _ => panic!("expected a global map"),
    }
    map.set_boxed_any(&ty, AnyValue::Value(ValueObj::Bool(false)));
    assert!(matches!(map.get_any(&ty), Some(AnyValue::Value(ValueObj::Bool(false)))));
    assert!(matches!(map.get_or_set_default_mut(&ty, AnyKind::Value), AnyValue::Value(ValueObj::Bool(false))));
    assert!(map.get_mut(&ty, AnyKind::Global).is_none());
    assert!(map.get_boxed_any_mut(&ty).is_some());
}

#[test]
fn type_to_any_map_resource_state() {
    let mut state = TypeToAnyMap::new();
    let key = KeyObj::from_str("k");
    assert!(matches!(state.read_resource(&key), Ok(ValueObj::Opt(None))));
    state.write_resource(&key, &ValueObj::Int(5)).unwrap();
    assert!(matches!(state.get_global_map().get(&key), Some(ValueObj::Int(5))));
    let stamp = state.stamp_resource(&key, ResourceCheckerObj::MapEquals).unwrap();
    assert!(matches!(stamp, ValueObj::Opt(Some(ref b)) if matches!(**b, ValueObj::Int(5))));
    assert_eq!(state.stamp_resource(&key, ResourceCheckerObj::Hash).unwrap_err(), FsError(ErrorKind::Unsupported));
    state.get_global_map_mut().insert(key.copy(), ValueObj::Int(6));
    assert!(matches!(state.read_resource(&key), Ok(ValueObj::Opt(Some(ref b))) if matches!(**b, ValueObj::Int(6))));
}

#[test]
fn file_content_hash_is_sha256() {
    let content = FileContent::File(b"hello world".to_vec());
    let digest = content.hash().unwrap();
    let expected: [u8; 32] = [
        0xb9, 0x4d, 0x27, 0xb9, 0x93, 0x4d, 0x3e, 0x08, 0xa5, 0x2e, 0x52, 0xd7, 0xda, 0x7d, 0xab, 0xfa, 0xc4, 0x84,
        0xef, 0xe3, 0x7a, 0x53, 0x80, 0xee, 0x90, 0x88, 0xf7, 0xac, 0xe2, 0xef, 0xcd, 0xe9,
    ];
    assert_eq!(digest, expected);
    // A directory hashes the names of its entries one after the other.
    let directory = FileContent::Directory(vec![b"hello ".to_vec(), b"world".to_vec()]);
    assert_eq!(directory.hash().unwrap(), expected);
    assert!(FileContent::Missing.hash().is_none());
}

#[test]
fn file_stampers() {
    let t = Timestamp { secs: 10, nanos: 5 };
    let content = FileContent::File(b"x".to_vec());
    assert!(FileStamper::Exists.stamp(true, Some(t), &content).equals(&FileStamp::Exists(true)));
    assert!(FileStamper::Modified.stamp(true, Some(t), &content).equals(&FileStamp::Modified(Some(t))));
    assert!(FileStamper::Modified.stamp(false, Some(t), &FileContent::Missing).equals(&FileStamp::Modified(None)));
    assert!(FileStamper::Hash.stamp(false, None, &FileContent::Missing).equals(&FileStamp::Hash(None)));
    assert!(!FileStamper::Hash.stamp(true, Some(t), &content).equals(&FileStamp::Hash(None)));
    assert!(ModifiedChecker.stamp(true, Some(t), &content).equals(&FileStamp::Modified(Some(t))));
    assert!(ExistsChecker.stamp(false, None, &FileContent::Missing).equals(&FileStamp::Exists(false)));
    assert!(HashChecker.stamp(false, None, &FileContent::Missing).equals(&FileStamp::Hash(None)));
    assert_eq!(ModifiedChecker.to_obj(), ResourceCheckerObj::Modified);
    assert_eq!(ExistsChecker.stamper(), FileStamper::Exists);
    assert!(matches!(FileStamp::Exists(true).to_value(), ValueObj::Bool(true)));
    assert!(HashChecker.check_stamp(&ValueObj::Bool(true), &ValueObj::Bool(true)).is_none());
    assert!(HashChecker.check_stamp(&ValueObj::Bool(false), &ValueObj::Bool(true)).is_some());
}

#[test]
fn output_stampers() {
    assert!(matches!(OutputStamper::Equals.stamp(3), OutputStamp::Equals(3)));
    assert!(matches!(OutputStamper::Inconsequential.stamp(3), OutputStamp::Inconsequential));
    let stamp = OutputStamp::Equals(4);
    assert!(matches!(stamp.as_ref(), OutputStamp::Equals(&4)));
}

#[test]
fn metrics_count_events() {
    let mut tracker = MetricsTracker::new();
    let task = KeyObj::from_str("t");
    let dep = KeyObj::from_str("d");
    tracker.build_start();
    tracker.require_start(&task, OutputCheckerObj::Equals);
    tracker.execute_start(&task);
    tracker.require_start(&dep, OutputCheckerObj::Equals);
    tracker.require_end(&dep, OutputCheckerObj::Equals, &ValueObj::Unit, &ValueObj::Unit);
    tracker.read_end(&dep, ResourceCheckerObj::Exists, &ValueObj::Unit);
    tracker.execute_end(&task, &ValueObj::Unit);
    tracker.require_end(&task, OutputCheckerObj::Equals, &ValueObj::Unit, &ValueObj::Unit);
    tracker.build_end();
    let report = tracker.report();
    assert_eq!(report.total_required_tasks, 2);
    assert_eq!(report.total_executed_tasks, 1);
    assert_eq!(report.total_required_tasks_up_to_date, 1);
    assert_eq!(report.total_read_resources, 1);
    assert_eq!(report.total_written_resources, 0);
}

#[test]
fn tracking_pairs_events() {
    let mut events = EventTracker::new();
    let task = KeyObj::from_str("t");
    {
        let mut tracking = Tracking(&mut events);
        let end_build = tracking.build();
        let end_execute = tracking.execute(&task);
        end_execute(&mut tracking, &ValueObj::Int(1));
        end_build(&mut tracking);
    }
    assert!(events.slice()[0].is_build_start());
    assert!(matches!(&events.slice()[1], Event::ExecuteStart(_)));
    assert!(matches!(&events.slice()[2], Event::ExecuteEnd(d) if matches!(d.output, ValueObj::Int(1))));
    assert!(events.slice()[3].is_build_end());
}

#[test]
fn event_tracker_queries() {
    let mut events = EventTracker::new();
    let a = KeyObj::from_str("a");
    let b = KeyObj::from_str("b");
    events.build_start();
    events.execute_start(&a);
    events.execute_end(&a, &ValueObj::Int(1));
    events.execute_start(&b);
    events.execute_end(&b, &ValueObj::Int(2));
    events.build_end();
    assert!(events.first().unwrap().is_build_start());
    assert!(events.last().unwrap().is_build_end());
    assert!(events.get(6).is_none());
    assert!(events.get_from_end(0).unwrap().is_build_end());
    assert_eq!(events.get_index_of_execute_start_of(&b), Some(3));
    assert_eq!(events.get_index_of_execute_end_of(&a), Some(2));
    assert_eq!(events.first_execute_end_index(&b), Some(&4));
    assert_eq!(events.first_execute_range(&a).unwrap(), 1..=2);
    assert!(events.contains_one_execute_start_of(&a));
    assert!(events.contains_no_execute_start_of(&KeyObj::from_str("c")));
    assert!(!events.contains_one_execute_start());
    assert!(!events.contains_no_execute_start());
    assert!(events.any(|e| e.is_execute()));
    assert!(events.contains(|e| e.is_execute_of(&b)));
    assert!(events.contains_no(|e| e.match_read_start(&a).is_some()));
    assert!(events.contains_count(2, |e| e.match_execute_start(&a).is_some() || e.match_execute_end(&a).is_some()));
    assert!(events.one(|e| e.match_execute_end(&b).is_some()));
    assert!(events.contains_one(|e| e.match_execute_end(&b).is_some()));
    assert_eq!(events.get_index_of(|e| e.is_execute_of(&b)), Some(3));
    assert_eq!(events.find_map(|e| e.match_execute_end(&b).map(|d| d.index)), Some(4));
    assert_eq!(events.iter().count(), 6);
    assert_eq!(events.iter_events().count(), 6);
    let taken = events.take_events();
    assert_eq!(taken.len(), 6);
    assert!(events.first().is_none());
    events.execute_start(&a);
    events.clear();
    assert!(events.last().is_none());
}

#[test]
fn file_stamp_description() {
    assert_eq!(FileStamp::Exists(true).describe(), "Exists(true)");
    assert_eq!(FileStamp::Hash(None).describe(), "Hash(None)");
    let mut digest = [0u8; 32];
    digest[0] = 0xff;
    digest[1] = 0xff;
    digest[2] = 0x01;
    digest[3] = 0x02;
    let text = FileStamp::Hash(Some(digest)).describe();
    assert_eq!(text, format!("Hash(Some(1fe03{}))", "00".repeat(14)));
    let modified = FileStamp::Modified(Some(Timestamp { secs: 1, nanos: 2 })).describe();
    assert_eq!(modified, "Modified(Some(SystemTime { tv_sec: 1, tv_nsec: 2 }))");
}

#[test]
fn queue_pops_dependees_first() {
    let mut store: pie::store::Store<u32> = pie::store::Store::new();
    let a = store.get_or_create_task_node(&1, &KeyObj::from_str("a"));
    let b = store.get_or_create_task_node(&2, &KeyObj::from_str("b"));
    let c = store.get_or_create_task_node(&3, &KeyObj::from_str("c"));
    // a requires b, b requires c.
    let dependency = pie::dependency::Dependency::Require(TaskDependency::new(KeyObj::from_str("b"), OutputCheckerObj::Equals, ValueObj::Unit));
    assert!(store.add_dependency(&a, b.0, dependency).is_ok());
    let dependency = pie::dependency::Dependency::Require(TaskDependency::new(KeyObj::from_str("c"), OutputCheckerObj::Equals, ValueObj::Unit));
    assert!(store.add_dependency(&b, c.0, dependency).is_ok());
    // c requiring a would close a cycle.
    let dependency = pie::dependency::Dependency::Require(TaskDependency::new(KeyObj::from_str("a"), OutputCheckerObj::Equals, ValueObj::Unit));
    assert!(store.add_dependency(&c, a.0, dependency).is_err());
    let mut queue = pie::queue::Queue::new();
    queue.add(a);
    queue.add(c);
    queue.add(b);
    queue.add(a);
    assert!(queue.is_not_empty());
    assert!(queue.pop_least_task_with_dependency_from(&b, &store) == Some(c));
    assert!(queue.pop(&store) == Some(b));
    assert!(queue.pop(&store) == Some(a));
    assert!(queue.pop(&store).is_none());
    assert!(!queue.is_not_empty());
}

#[test]
fn writing_tracker_indents() {
    let mut tracker = pie::tracker::writing::WritingTracker::new(String::new());
    let task = KeyObj::from_str("t");
    tracker.build_start();
    tracker.require_start(&task, OutputCheckerObj::Equals);
    tracker.execute_start(&task);
    tracker.execute_end(&task, &ValueObj::Int(1));
    tracker.require_end(&task, OutputCheckerObj::Equals, &ValueObj::Unit, &ValueObj::Int(1));
    tracker.build_end();
    let text = tracker.writer().clone();
    let lines: Vec<&str> = text.lines().collect();
    assert_eq!(lines.len(), 5);
    assert!(lines[0].starts_with("→ "));
    assert!(lines[1].starts_with(" ▶ "));
    assert!(lines[2].starts_with(" ◀ Int(1)"));
    assert!(lines[3].starts_with("← Int(1)"));
    assert_eq!(lines[4], "🏁");
}

#[test]
fn walked_stampers() {
    let entries = vec![
        WalkedEntry { modified: Timestamp { secs: 5, nanos: 0 }, file: None },
        WalkedEntry { modified: Timestamp { secs: 7, nanos: 1 }, file: Some(b"hello ".to_vec()) },
        WalkedEntry { modified: Timestamp { secs: 7, nanos: 0 }, file: Some(b"world".to_vec()) },
    ];
    let modified = FileStamper::ModifiedRecursive.stamp_walked(&entries);
    assert!(modified.equals(&FileStamp::Modified(Some(Timestamp { secs: 7, nanos: 1 }))));
    let hash = FileStamper::HashRecursive.stamp_walked(&entries);
    let expected = FileContent::File(b"hello world".to_vec()).hash();
    assert!(hash.equals(&FileStamp::Hash(expected)));
    assert!(FileStamper::ModifiedRecursive.stamp_walked(&Vec::new()).equals(&FileStamp::Modified(Some(Timestamp { secs: 0, nanos: 0 }))));
}

#[test]
fn value_text_lays_out_values() {
    assert_eq!(value_text(&ValueObj::Unit), "Unit");
    assert_eq!(value_text(&ValueObj::Int(-42)), "Int(-42)");
    assert_eq!(value_text(&ValueObj::Int(i64::MIN)), "Int(-9223372036854775808)");
    assert_eq!(value_text(&ValueObj::Bool(true)), "Bool(true)");
    assert_eq!(value_text(&ValueObj::from_str("hi")), "Str(\"hi\")");
    assert_eq!(value_text(&ValueObj::Bytes(vec![1, 20, 255])), "Bytes([1, 20, 255])");
    assert_eq!(value_text(&ValueObj::Bytes(vec![])), "Bytes([])");
    assert_eq!(value_text(&ValueObj::some(ValueObj::Int(3))), "Opt(Some(Int(3)))");
    assert_eq!(value_text(&ValueObj::Opt(None)), "Opt(None)");
    assert_eq!(value_text(&ValueObj::Res(Err(Box::new(ValueObj::Unit)))), "Res(Err(Unit))");
    assert_eq!(
        value_text(&ValueObj::Pair(Box::new(ValueObj::Int(1)), Box::new(ValueObj::from_str("a")))),
        "Pair(Int(1), Str(\"a\"))"
    );
}

#[test]
fn task_dependency_from_typed_keeps_the_stamp() {
    let dependency = TaskDependency::from_typed(KeyObj::from_str("t"), OutputCheckerObj::AlwaysConsistent, ValueObj::Int(5));
    assert!(dependency.stamp().equals(&ValueObj::Int(5)));
    let stamp = OutputCheckerObj::OkEquals.stamp_obj(&ValueObj::Res(Ok(Box::new(ValueObj::Int(1)))));
    let dependency = TaskDependency::from_typed(KeyObj::from_str("t"), OutputCheckerObj::OkEquals, stamp);
    assert!(dependency.check(&ValueObj::Res(Ok(Box::new(ValueObj::Int(1))))).is_none());
    assert!(dependency.check(&ValueObj::Res(Ok(Box::new(ValueObj::Int(2))))).is_some());
}

#[test]
fn map_writer_entry_inserts_default_once() {
    let mut map = GlobalMap::new();
    let key = KeyObj::from_str("k");
    {
        let mut writer = map.writer(&key);
        let entry = writer.entry();
        assert!(!entry.is_occupied());
        assert!(entry.key().equals(&key));
        let value = entry.or_insert(ValueObj::Int(1));
        assert!(matches!(value, ValueObj::Int(1)));
        *value = ValueObj::Int(2);
    }
    {
        let mut writer = map.writer(&key);
        let entry = writer.entry();
        assert!(entry.is_occupied());
        assert!(matches!(entry.or_insert(ValueObj::Int(9)), ValueObj::Int(2)));
    }
    assert!(matches!(map.get(&key), Some(ValueObj::Int(2))));
}

#[test]
fn timestamp_from_epoch_offset() {
    let after = Timestamp::from_epoch_offset(false, 10, 5).unwrap();
    assert_eq!((after.secs, after.nanos), (10, 5));
    let whole = Timestamp::from_epoch_offset(true, 3, 0).unwrap();
    assert_eq!((whole.secs, whole.nanos), (-3, 0));
    let part = Timestamp::from_epoch_offset(true, 1, 500_000_000).unwrap();
    assert_eq!((part.secs, part.nanos), (-2, 500_000_000));
    assert!(Timestamp::from_epoch_offset(false, u64::MAX, 0).is_none());
}
