use pie::collection::{GetGlobalMap, TypeToAnyMap};
use pie::resource::file::FsError;
use pie::resource::map::MapEqualsChecker;
use pie::resource::{ResourceChecker, ResourceCheckerObj, ResourceState};
use pie::value::{KeyObj, ValueObj};

fn debug_eq(left: &ValueObj, right: &ValueObj) -> bool {
    format!("{:?}", left) == format!("{:?}", right)
}

#[test]
fn test_val_obj() {
    let output_1 = 1i64;
    let output_2 = 2i64;
    let val_1 = ValueObj::Int(output_1);
    let val_2 = ValueObj::Int(output_2);

    // Equality, also through Debug.
    assert!(val_1.equals(&val_1));
    assert!(!val_1.equals(&val_2));
    assert!(debug_eq(&val_1, &val_1));
    assert!(!debug_eq(&val_1, &val_2));
    // Access to the value.
    assert!(matches!(val_1, ValueObj::Int(v) if v == output_1));
    assert!(!matches!(val_1, ValueObj::Int(v) if v == output_2));
    assert!(!matches!(val_2, ValueObj::Int(v) if v == output_1));
    // Clone and copy.
    assert!(val_1.equals(&val_1.clone()));
    assert!(!val_1.equals(&val_2.clone()));
    assert!(!val_2.equals(&val_1.clone()));
    assert!(debug_eq(&val_1, &val_1.copy()));
    assert!(!debug_eq(&val_1, &val_2.copy()));
    assert!(!debug_eq(&val_2, &val_1.copy()));
    // Debug.
    assert_eq!(format!("{:?}", val_1), format!("Int({:?})", output_1));
    assert_ne!(format!("{:?}", val_1), format!("Int({:?})", output_2));
}

#[test]
fn test_key_obj() {
    let task_a = "A";
    let task_b = "B";
    let key_a = KeyObj::from_str(task_a);
    let key_b = KeyObj::from_str(task_b);

    // Equality.
    assert!(key_a.equals(&key_a));
    assert!(!key_a.equals(&key_b));
    // Access to the value.
    assert!(matches!(key_a.as_value(), ValueObj::Str(s) if s == task_a));
    assert!(!matches!(key_a.as_value(), ValueObj::Str(s) if s == task_b));
    assert!(!matches!(key_b.as_value(), ValueObj::Str(s) if s == task_a));
    // Clone and copy.
    assert!(key_a.equals(&key_a.clone()));
    assert!(!key_a.equals(&key_b.clone()));
    assert!(!key_b.equals(&key_a.clone()));
    assert!(key_a.equals(&key_a.copy()));
    assert!(!key_a.equals(&key_b.copy()));
    assert!(!key_b.equals(&key_a.copy()));
    // A key made from the value of another key is equal to it.
    assert!(key_a.equals(&KeyObj::new(key_a.as_value().copy())));
    // Debug.
    assert_eq!(format!("{:?}", key_a), format!("KeyObj {{ value: Str({:?}) }}", task_a));
    assert_ne!(format!("{:?}", key_a), format!("KeyObj {{ value: Str({:?}) }}", task_b));
}

fn check_obj(
    checker: ResourceCheckerObj,
    key: &KeyObj,
    state: &mut TypeToAnyMap,
    stamp: &ValueObj,
) -> Result<Option<ValueObj>, FsError> {
    let new_stamp = state.stamp_resource(key, checker)?;
    Ok(MapEqualsChecker.check_stamp(&new_stamp, stamp))
}

#[test]
fn resource_test_output_checker_obj() -> Result<(), FsError> {
    let key_1 = KeyObj::from_str("key 1");
    let value_1 = ValueObj::Int(1);
    let key_2 = KeyObj::from_str("key 2");

    let map_equals_checker = MapEqualsChecker;
    let resource_checker_obj = map_equals_checker.to_obj();
    let mut resource_state = TypeToAnyMap::new();
    resource_state.get_global_map_mut().insert(key_1.copy(), value_1);
    let stamp_1 = map_equals_checker.stamp(&key_1, resource_state.get_global_map());
    let stamp_2 = map_equals_checker.stamp(&key_2, resource_state.get_global_map());
    assert!(matches!(check_obj(resource_checker_obj, &key_1, &mut resource_state, &stamp_1), Ok(None)));
    assert!(matches!(check_obj(resource_checker_obj, &key_2, &mut resource_state, &stamp_2), Ok(None)));
    assert!(matches!(
        check_obj(resource_checker_obj, &key_1, &mut resource_state, &stamp_2),
        Ok(Some(ValueObj::Opt(Some(ref i)))) if matches!(**i, ValueObj::Int(1))
    ));
    assert!(matches!(
        check_obj(resource_checker_obj, &key_2, &mut resource_state, &stamp_1),
        Ok(Some(ValueObj::Opt(None)))
    ));
    Ok(())
}
