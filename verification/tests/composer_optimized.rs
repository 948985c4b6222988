use rust_yaml::composer_optimized::{calculate_complexity, calculate_optimized_structure_depth};
use rust_yaml::optimized::OptimizedValue;
use rust_yaml::{ErrorKind, Limits, OptimizedComposer, ReducedAllocComposer, ScalarStyle};

fn s(text: &str) -> OptimizedValue {
    OptimizedValue::string(text.to_string())
}

fn first_document(yaml: &str) -> OptimizedValue {
    let mut composer = ReducedAllocComposer::new(yaml.to_string());
    composer.compose_document().unwrap().unwrap()
}

fn lookup<'a>(v: &'a OptimizedValue, key: &str) -> Option<&'a OptimizedValue> {
    let entries = v.as_mapping()?;
    entries.iter().find(|(k, _)| k.as_str() == Some(key)).map(|(_, v)| v)
}

#[test]
fn test_optimized_scalar() {
    let mut composer = ReducedAllocComposer::new("42".to_string());
    let result = composer.compose_document().unwrap().unwrap();
    assert_eq!(result, OptimizedValue::Int(42));
}

#[test]
fn test_optimized_sequence() {
    let mut composer = ReducedAllocComposer::new("[1, 2, 3]".to_string());
    let result = composer.compose_document().unwrap().unwrap();

    if let OptimizedValue::Sequence(seq) = result {
        assert_eq!(seq.len(), 3);
    } else {
        panic!("Expected sequence");
    }
}

#[test]
fn test_anchor_rc_sharing() {
    let yaml = r#"
base: &base
  value: 42
ref1: *base
ref2: *base
"#;
    let mut composer = ReducedAllocComposer::new(yaml.to_string());
    let _result = composer.compose_document().unwrap().unwrap();

    // The anchors should use Rc, so cloning should be cheap
    assert!(composer.anchors.len() > 0);
}

#[test]
fn aliases_are_copies_of_the_anchored_value() {
    let doc = first_document("base: &base\n  value: 42\nref1: *base\nref2: *base\n");
    let base = lookup(&doc, "base").unwrap();
    assert_eq!(lookup(base, "value"), Some(&OptimizedValue::Int(42)));
    assert_eq!(lookup(&doc, "ref1"), Some(base));
    assert_eq!(lookup(&doc, "ref2"), Some(base));
}

#[test]
fn scalar_typing_follows_the_preference_order() {
    let c = ReducedAllocComposer::new(String::new());
    let plain = |t: &str| c.compose_scalar_optimized(t, ScalarStyle::Plain).unwrap();
    assert_eq!(plain("42"), OptimizedValue::Int(42));
    assert_eq!(plain("-7"), OptimizedValue::Int(-7));
    assert_eq!(plain("+5"), OptimizedValue::Int(5));
    assert_eq!(plain("9223372036854775808"), OptimizedValue::Float("9223372036854775808".to_string()));
    assert_eq!(plain("3.14"), OptimizedValue::Float("3.14".to_string()));
    assert_eq!(plain("1e3"), OptimizedValue::Float("1e3".to_string()));
    assert_eq!(plain("NaN"), OptimizedValue::Float("NaN".to_string()));
    assert_eq!(plain("inf"), OptimizedValue::Float("inf".to_string()));
    assert_eq!(plain("Yes"), OptimizedValue::Bool(true));
    assert_eq!(plain("ON"), OptimizedValue::Bool(true));
    assert_eq!(plain("tRuE"), OptimizedValue::Bool(true));
    assert_eq!(plain("off"), OptimizedValue::Bool(false));
    assert_eq!(plain("No"), OptimizedValue::Bool(false));
    assert_eq!(plain("NULL"), OptimizedValue::Null);
    assert_eq!(plain("~"), OptimizedValue::Null);
    assert_eq!(plain(""), s(""));
    assert_eq!(plain("hello"), s("hello"));
    assert_eq!(c.compose_scalar_optimized("42", ScalarStyle::SingleQuoted).unwrap(), s("42"));
    assert_eq!(c.compose_scalar_optimized("true", ScalarStyle::DoubleQuoted).unwrap(), s("true"));
    assert_eq!(c.compose_scalar_optimized("42", ScalarStyle::Literal).unwrap(), OptimizedValue::Int(42));
}

#[test]
fn quoted_scalars_in_a_document_stay_strings() {
    let doc = first_document("a: '42'\nb: 42\nc: \"yes\"\n");
    assert_eq!(lookup(&doc, "a"), Some(&s("42")));
    assert_eq!(lookup(&doc, "b"), Some(&OptimizedValue::Int(42)));
    assert_eq!(lookup(&doc, "c"), Some(&s("yes")));
}

#[test]
fn repeated_key_keeps_place_and_takes_later_value() {
    let doc = first_document("a: 1\nb: 2\na: 3\n");
    let entries = doc.as_mapping().unwrap();
    assert_eq!(entries.len(), 2);
    assert_eq!(entries[0], (s("a"), OptimizedValue::Int(3)));
    assert_eq!(entries[1], (s("b"), OptimizedValue::Int(2)));
}

#[test]
fn merge_key_adds_only_missing_keys() {
    let doc = first_document("base: &b\n  x: 1\n  y: 2\nchild:\n  y: 9\n  <<: *b\n");
    let child = lookup(&doc, "child").unwrap();
    let entries = child.as_mapping().unwrap();
    assert_eq!(entries.len(), 2);
    assert_eq!(entries[0], (s("y"), OptimizedValue::Int(9)));
    assert_eq!(entries[1], (s("x"), OptimizedValue::Int(1)));
}

#[test]
fn merge_key_with_a_sequence_of_mappings() {
    let doc = first_document("a: &a {x: 1}\nb: &b {x: 2, y: 3}\nc:\n  <<: [*a, *b]\n");
    let c = lookup(&doc, "c").unwrap();
    let entries = c.as_mapping().unwrap();
    assert_eq!(entries.len(), 2);
    assert_eq!(entries[0], (s("x"), OptimizedValue::Int(1)));
    assert_eq!(entries[1], (s("y"), OptimizedValue::Int(3)));
}

#[test]
fn merge_key_with_a_scalar_is_an_error() {
    let mut composer = ReducedAllocComposer::new("a:\n  <<: 5\n".to_string());
    let err = composer.compose_document().unwrap_err();
    assert_eq!(err.kind, ErrorKind::Construction);
    assert_eq!(err.message, "Merge key value must be a mapping or sequence of mappings");
}

#[test]
fn merge_key_sequence_with_a_scalar_is_an_error() {
    let c = ReducedAllocComposer::new(String::new());
    let mut mapping = Vec::new();
    let value = OptimizedValue::sequence_with(vec![OptimizedValue::mapping(), OptimizedValue::Int(1)]);
    let err = c.process_merge_key(&mut mapping, &value).unwrap_err();
    assert_eq!(err.message, "Merge key sequence can only contain mappings");
}

#[test]
fn process_merge_key_keeps_existing_entries() {
    let c = ReducedAllocComposer::new(String::new());
    let mut mapping = vec![(s("k"), OptimizedValue::Int(1))];
    let source = OptimizedValue::mapping_with(vec![
        (s("k"), OptimizedValue::Int(2)),
        (s("n"), OptimizedValue::Int(3)),
    ]);
    c.process_merge_key(&mut mapping, &source).unwrap();
    assert_eq!(mapping, vec![(s("k"), OptimizedValue::Int(1)), (s("n"), OptimizedValue::Int(3))]);
}

#[test]
fn unknown_anchor_is_an_error() {
    let mut composer = ReducedAllocComposer::new("a: *missing\n".to_string());
    let err = composer.compose_document().unwrap_err();
    assert_eq!(err.kind, ErrorKind::Construction);
    assert_eq!(err.message, "Unknown anchor 'missing'");
}

#[test]
fn alias_depth_attack_is_blocked() {
    let yaml = "a: &a \"base\"\nb: &b [*a]\nc: &c [*b]\nd: &d [*c]\ne: &e [*d]\nf: &f [*e]\ntest: *f\n";
    let mut composer = ReducedAllocComposer::with_limits(yaml.to_string(), Limits { max_alias_depth: 5 });
    let err = composer.compose_document().unwrap_err();
    assert_eq!(err.message, "Alias 'f' creates structure with depth 6 exceeding max_alias_depth 5");

    let mut unbounded = ReducedAllocComposer::new(yaml.to_string());
    assert!(unbounded.compose_document().unwrap().is_some());
}

#[test]
fn zero_alias_depth_rejects_every_alias() {
    let mut composer = ReducedAllocComposer::with_limits("a: &a 1\nb: *a\n".to_string(), Limits { max_alias_depth: 0 });
    let err = composer.compose_document().unwrap_err();
    assert_eq!(err.message, "Maximum alias expansion depth 0 exceeded");
}

#[test]
fn documents_are_composed_one_at_a_time() {
    let mut composer = ReducedAllocComposer::new("--- 1\n--- two\n".to_string());
    assert!(composer.check_document());
    assert_eq!(composer.compose_document().unwrap(), Some(OptimizedValue::Int(1)));
    assert_eq!(composer.compose_document().unwrap(), Some(s("two")));
    assert!(!composer.check_document());
    assert_eq!(composer.compose_document().unwrap(), None);
}

#[test]
fn scanning_error_is_reported_first() {
    let mut composer = ReducedAllocComposer::new("key: \"unterminated".to_string());
    assert!(composer.scanning_error.is_some());
    let err = composer.compose_document().unwrap_err();
    assert_eq!(err.kind, ErrorKind::Parse);
    assert_eq!(composer.compose_document().unwrap(), None);
}

#[test]
fn reset_forgets_anchors() {
    let mut composer = ReducedAllocComposer::new("--- &a 1\n--- *a\n".to_string());
    assert_eq!(composer.compose_document().unwrap(), Some(OptimizedValue::Int(1)));
    composer.reset();
    assert!(composer.anchors.is_empty());
    assert_eq!(composer.position().line, 1);
    let err = composer.compose_document().unwrap_err();
    assert_eq!(err.message, "Unknown anchor 'a'");
}

#[test]
fn structure_depth_counts_levels() {
    assert_eq!(calculate_optimized_structure_depth(&OptimizedValue::Int(1)), 1);
    assert_eq!(calculate_optimized_structure_depth(&OptimizedValue::sequence()), 1);
    let inner = OptimizedValue::sequence_with(vec![OptimizedValue::Int(1)]);
    let outer = OptimizedValue::sequence_with(vec![OptimizedValue::Null, inner.clone()]);
    assert_eq!(calculate_optimized_structure_depth(&inner), 2);
    assert_eq!(calculate_optimized_structure_depth(&outer), 3);
    let m = OptimizedValue::mapping_with(vec![(outer.clone(), OptimizedValue::Int(0))]);
    assert_eq!(calculate_optimized_structure_depth(&m), 2);
    let m2 = OptimizedValue::mapping_with(vec![(s("k"), outer)]);
    assert_eq!(calculate_optimized_structure_depth(&m2), 4);
}

#[test]
fn complexity_scores_items_and_entries() {
    assert_eq!(calculate_complexity(&OptimizedValue::Null).unwrap(), 1);
    let seq = OptimizedValue::sequence_with(vec![OptimizedValue::Int(1), OptimizedValue::Int(2)]);
    assert_eq!(calculate_complexity(&seq).unwrap(), 5);
    let map = OptimizedValue::mapping_with(vec![(s("a"), seq.clone())]);
    assert_eq!(calculate_complexity(&map).unwrap(), 1 + 2 + 1 + 5);
    assert_eq!(calculate_complexity(&OptimizedValue::mapping()).unwrap(), 1);
}

#[test]
fn leading_merge_puts_the_merged_keys_first() {
    let doc = first_document("base: &b\n  x: 1\n  y: 2\nchild:\n  <<: *b\n  y: 9\n  z: 3\n");
    let child = lookup(&doc, "child").unwrap();
    let entries = child.as_mapping().unwrap();
    let keys: Vec<Option<&str>> = entries.iter().map(|(k, _)| k.as_str()).collect();
    assert_eq!(keys, vec![Some("x"), Some("y"), Some("z")]);
    assert_eq!(lookup(child, "y"), Some(&OptimizedValue::Int(9)));
}

#[test]
fn optimized_sequences_keep_every_item_in_order() {
    let doc = first_document("[1, [2, 3], x]");
    let items = doc.as_sequence().unwrap();
    assert_eq!(items.len(), 3);
    assert_eq!(items[0], OptimizedValue::Int(1));
    assert_eq!(items[1].as_sequence().unwrap().len(), 2);
    assert_eq!(items[2], s("x"));
}
