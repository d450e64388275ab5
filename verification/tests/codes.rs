use logtime::SubtaskSpec;
use logtime::codes::code_of;
use logtime::num::{parse_i64, i64_to_string, u64_to_string};

#[test]
fn parse_full_code() {
    let sp = SubtaskSpec::parse("PROJ-3-1").unwrap();
    assert_eq!(sp.project_code, "PROJ");
    assert_eq!(sp.task_number, 3);
    assert_eq!(sp.subtask_number, Some(1));
}

#[test]
fn parse_task_code() {
    let sp = SubtaskSpec::parse("P-3").unwrap();
    assert_eq!(sp.project_code, "P");
    assert_eq!(sp.task_number, 3);
    assert_eq!(sp.subtask_number, None);
}

#[test]
fn parse_missing_task_number_fails() {
    assert!(SubtaskSpec::parse("PROJ").is_err());
    assert!(SubtaskSpec::parse("").is_err());
}

#[test]
fn parse_bad_number_fails() {
    assert!(SubtaskSpec::parse("P-x").is_err());
    assert!(SubtaskSpec::parse("P-").is_err());
    assert!(SubtaskSpec::parse("P-1-y").is_err());
    assert!(SubtaskSpec::parse("P-1-").is_err());
}

#[test]
fn parse_ignores_extra_fields() {
    let sp = SubtaskSpec::parse("P-1-2-3").unwrap();
    assert_eq!(sp.project_code, "P");
    assert_eq!(sp.task_number, 1);
    assert_eq!(sp.subtask_number, Some(2));
}

#[test]
fn code_round_trip_task() {
    let sp = SubtaskSpec::parse("P-3").unwrap();
    assert_eq!(sp.code(), "P-3");
}

#[test]
fn code_round_trip_subtask() {
    let sp = SubtaskSpec::parse("P-3-2").unwrap();
    assert_eq!(sp.code(), "P-3-2");
}

#[test]
fn code_of_builds_both_forms() {
    assert_eq!(code_of("ACME", 1, Some(1)), "ACME-1-1");
    assert_eq!(code_of("ACME", 7, None), "ACME-7");
}

#[test]
fn parse_i64_plain() {
    assert_eq!(parse_i64("0"), Some(0));
    assert_eq!(parse_i64("42"), Some(42));
    assert_eq!(parse_i64("+42"), Some(42));
    assert_eq!(parse_i64("-42"), Some(-42));
}

#[test]
fn parse_i64_bounds() {
    assert_eq!(parse_i64("9223372036854775807"), Some(i64::MAX));
    assert_eq!(parse_i64("-9223372036854775808"), Some(i64::MIN));
    assert_eq!(parse_i64("9223372036854775808"), None);
    assert_eq!(parse_i64("-9223372036854775809"), None);
}

#[test]
fn parse_i64_rejects_junk() {
    assert_eq!(parse_i64(""), None);
    assert_eq!(parse_i64("-"), None);
    assert_eq!(parse_i64("+"), None);
    assert_eq!(parse_i64("1a"), None);
    assert_eq!(parse_i64(" 1"), None);
}

#[test]
fn decimal_formatting() {
    assert_eq!(u64_to_string(0), "0");
    assert_eq!(u64_to_string(1234567890), "1234567890");
    assert_eq!(i64_to_string(-45), "-45");
    assert_eq!(i64_to_string(i64::MIN), "-9223372036854775808");
    assert_eq!(i64_to_string(i64::MAX), "9223372036854775807");
}

#[test]
fn decimal_round_trip() {
    for n in [0i64, 1, -1, 99, -100, 123456789, i64::MIN, i64::MAX] {
        assert_eq!(parse_i64(&i64_to_string(n)), Some(n));
    }
}
