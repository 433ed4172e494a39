use pie::task::{EqualsChecker, OutputChecker, OutputCheckerObj};
use pie::value::ValueObj;

#[test]
fn task_test_output_checker_obj() {
    let output_1 = ValueObj::Int(1);
    let output_2 = ValueObj::Int(2);

    let equals_checker = EqualsChecker;
    let output_checker_obj = OutputCheckerObj::Equals;
    let stamp_obj_1 = output_checker_obj.stamp_obj(&output_1);
    let stamp_obj_2 = output_checker_obj.stamp_obj(&output_2);
    assert!(output_checker_obj.check_obj(&output_1, &stamp_obj_1).is_none());
    assert!(output_checker_obj.check_obj(&output_2, &stamp_obj_2).is_none());
    assert!(output_checker_obj.check_obj(&output_1, &stamp_obj_2).is_some());
    assert!(output_checker_obj.check_obj(&output_2, &stamp_obj_1).is_some());

    let stamp_1 = equals_checker.stamp(&output_1);
    let stamp_2 = equals_checker.stamp(&output_2);
    assert!(output_checker_obj.check_obj(&output_1, &stamp_1).is_none());
    assert!(output_checker_obj.check_obj(&output_2, &stamp_2).is_none());
    assert!(output_checker_obj.check_obj(&output_1, &stamp_2).is_some());
    assert!(output_checker_obj.check_obj(&output_2, &stamp_1).is_some());
}
