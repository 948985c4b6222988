use rust_yaml::{BasicResolver, Resolver};

#[test]
fn test_resolver_creation() {
    let resolver = BasicResolver::new();
    assert!(!resolver.is_empty());
}

#[test]
fn test_boolean_resolution() {
    let resolver = BasicResolver::new();

    assert_eq!(resolver.resolve_tag("true", true), Some("tag:yaml.org,2002:bool".to_string()));
    assert_eq!(resolver.resolve_tag("false", true), Some("tag:yaml.org,2002:bool".to_string()));
}

#[test]
fn test_null_resolution() {
    let resolver = BasicResolver::new();

    assert_eq!(resolver.resolve_tag("null", true), Some("tag:yaml.org,2002:null".to_string()));
    assert_eq!(resolver.resolve_tag("~", true), Some("tag:yaml.org,2002:null".to_string()));
}

#[test]
fn test_numeric_resolution() {
    let resolver = BasicResolver::new();

    assert_eq!(resolver.resolve_tag("42", true), Some("tag:yaml.org,2002:int".to_string()));
    assert_eq!(resolver.resolve_tag("3.14", true), Some("tag:yaml.org,2002:float".to_string()));
}

#[test]
fn test_string_resolution() {
    let resolver = BasicResolver::new();

    assert_eq!(resolver.resolve_tag("hello", true), Some("tag:yaml.org,2002:str".to_string()));
}

#[test]
fn test_explicit_tag_resolution() {
    let resolver = BasicResolver::new();

    assert_eq!(resolver.resolve_tag("true", false), None);
}

#[test]
fn test_custom_resolver() {
    let mut resolver = BasicResolver::new();

    resolver.add_implicit_resolver("tag:example.com,2002:custom".to_string(), "CUSTOM".to_string());

    assert_eq!(resolver.resolve_tag("CUSTOM", true), Some("tag:example.com,2002:custom".to_string()));
}

#[test]
fn integer_and_float_syntax() {
    let r = BasicResolver::new();
    assert!(r.is_int("-9223372036854775808"));
    assert!(r.is_int("+007"));
    assert!(!r.is_int("9223372036854775808"));
    assert!(!r.is_int("-"));
    assert!(!r.is_int("1_000"));
    assert!(r.is_float("1e5"));
    assert!(r.is_float(".5"));
    assert!(r.is_float("5."));
    assert!(r.is_float("-Infinity"));
    assert!(r.is_float("NaN"));
    assert!(!r.is_float("."));
    assert!(!r.is_float("1e"));
    assert!(!r.is_float("e5"));
    assert!(!r.is_float("1.2.3"));
    assert_eq!(r.resolve_tag("1e5", true), Some("tag:yaml.org,2002:float".to_string()));
    assert_eq!(r.resolve_tag("TRUE", true), Some("tag:yaml.org,2002:bool".to_string()));
}

#[test]
fn a_later_pattern_replaces_an_earlier_one() {
    let mut r = BasicResolver::default();
    r.add_implicit_resolver("tag:example.com,2002:yes".to_string(), "yes".to_string());
    r.add_implicit_resolver("tag:example.com,2002:affirm".to_string(), "yes".to_string());
    assert_eq!(r.resolve_tag("yes", true), Some("tag:example.com,2002:affirm".to_string()));
    r.reset();
    assert_eq!(r.resolve_tag("null", true), Some("tag:yaml.org,2002:null".to_string()));
}
