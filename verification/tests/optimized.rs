use rust_yaml::optimized::OptimizedValue;
use rust_yaml::Value;
use std::rc::Rc;

#[test]
fn test_rc_string_cloning() {
    let value1 = OptimizedValue::string("hello world".to_string());
    let value2 = value1.clone();

    if let (OptimizedValue::String(s1), OptimizedValue::String(s2)) = (&value1, &value2) {
        assert!(Rc::ptr_eq(s1, s2));
    }
}

#[test]
fn test_rc_sequence_cloning() {
    let value1 = OptimizedValue::sequence_with(vec![OptimizedValue::integer(1), OptimizedValue::integer(2)]);
    let value2 = value1.clone();

    if let (OptimizedValue::Sequence(s1), OptimizedValue::Sequence(s2)) = (&value1, &value2) {
        assert!(Rc::ptr_eq(s1, s2));
    }
}

#[test]
fn test_conversion_roundtrip() {
    let original = Value::Mapping(vec![(Value::String("key".to_string()), Value::Int(42))]);

    let optimized = OptimizedValue::from_value(&original);
    let converted_back = optimized.to_value();

    assert_eq!(original, converted_back);
}

#[test]
fn mapping_keeps_first_place_and_last_value() {
    let m = OptimizedValue::mapping_with(vec![
        (OptimizedValue::string("a".to_string()), OptimizedValue::integer(1)),
        (OptimizedValue::string("b".to_string()), OptimizedValue::integer(2)),
        (OptimizedValue::string("a".to_string()), OptimizedValue::integer(3)),
    ]);
    let entries = m.as_mapping().unwrap();
    assert_eq!(entries.len(), 2);
    assert_eq!(entries[0].0.as_str(), Some("a"));
    assert_eq!(entries[0].1, OptimizedValue::integer(3));
    assert_eq!(m.to_string(), "{a: 3, b: 2}");
    assert!(m.as_sequence().is_none());
    assert!(OptimizedValue::mapping().as_mapping().unwrap().is_empty());
}

#[test]
fn display_of_scalars_and_sequences() {
    let s = OptimizedValue::sequence_with(vec![
        OptimizedValue::null(),
        OptimizedValue::bool(false),
        OptimizedValue::integer(-7),
        OptimizedValue::float("2.5".to_string()),
        OptimizedValue::sequence(),
    ]);
    assert_eq!(s.to_string(), "[null, false, -7, 2.5, []]");
    assert_eq!(s.as_sequence().map(|x| x.len()), Some(5));
    assert_eq!(OptimizedValue::string("q".to_string()).as_str(), Some("q"));
    assert_eq!(OptimizedValue::integer(i64::MIN).to_string(), "-9223372036854775808");
}
