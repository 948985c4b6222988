use rust_yaml::compose::compose_events;
use rust_yaml::float_key::float_eq;
use rust_yaml::optimized::{opt_eq, OptimizedValue};
use rust_yaml::parser::parse::parse_events;
use rust_yaml::scanner::tokenize::scan_tokens;
use rust_yaml::value::value_eq;
use rust_yaml::Value;

#[test]
fn float_spellings_of_one_value_are_equal() {
    assert!(float_eq("1.0", "1.00"));
    assert!(float_eq("1.5", "15e-1"));
    assert!(float_eq("+100.0", "1e2"));
    assert!(float_eq("0.0", "000.000"));
    assert!(float_eq("inf", "Infinity"));
    assert!(float_eq("NaN", "nan"));
    assert!(!float_eq("1.0", "1.01"));
    assert!(!float_eq("-0.0", "0.0"));
    assert!(!float_eq("-inf", "inf"));
}

#[test]
fn equal_float_keys_are_one_key() {
    assert!(value_eq(&Value::Float("1.0".to_string()), &Value::Float("1.00".to_string())));
    assert!(opt_eq(&OptimizedValue::Float("2.50".to_string()), &OptimizedValue::Float("25e-1".to_string())));
    let events = parse_events(&scan_tokens("1.0: a\n1.00: b\n").unwrap()).unwrap();
    let values = compose_events(&events).unwrap();
    match &values[0] {
        Value::Mapping(entries) => {
            assert_eq!(entries.len(), 1);
            assert_eq!(entries[0].1, Value::String("b".to_string()));
        },
        _ => panic!("expected a mapping"),
    }
}
