use rust_yaml::{PathSegment, RoundTripDocument, Span, Value};

#[test]
fn identity_round_trip_preserves_bytes() {
    let cases: &[&str] = &[
        "# header\nname: my-app   # inline\n\n# section\nreplicas: 3\n",
        "a: 1\n\nb: 2\n\n\nc: 3\n",
        "root:\n    child:\n        leaf: value\n    sibling: other\n",
        "bare: hello\nsingle: 'hello world'\ndouble: \"hello world\"\nforced: \"123\"\n",
        "literal: |\n  line one\n  line two\nfolded: >\n  this is\n  folded text\n",
        "replicas: 3\nratio: 1.0\nzip: 007\nbig: 12345678901234567\n",
        "flow_map: {a: 1, b: 2}\nflow_seq: [1, 2, 3]\n",
        "zebra: 1\napple: 2\nmango: 3\n",
        "defaults: &defaults\n  timeout: 30\nservice:\n  <<: *defaults\n  name: web\n",
        "a: 1\r\nb: 2\r\n",
        "a: 1   \nb: 2\t\n",
        "\u{feff}a: 1\nb: 2\n",
    ];
    for case in cases {
        let doc = RoundTripDocument::parse(case).expect(case);
        assert_eq!(&doc.to_string(), case, "byte fidelity for {case:?}");
    }
}

#[test]
fn parse_all_reproduces_multi_document_streams() {
    let cases: &[&str] = &["---\na: 1\n---\nb: 2\n", "a: 1\n---\nb: 2\n", "# lead\n---\na: 1\n...\n---\nb: 2\n"];
    for case in cases {
        let docs = RoundTripDocument::parse_all(case).expect(case);
        let joined: String = docs.iter().map(RoundTripDocument::source).collect();
        assert_eq!(&joined, case, "stream fidelity for {case:?}");
    }
}

#[test]
fn parse_rejects_multi_document_input() {
    assert!(RoundTripDocument::parse("---\na: 1\n---\nb: 2\n").is_err());
}

#[test]
fn span_of_resolves_scalars() {
    let input = "name: web\nreplicas: 3\n";
    let doc = RoundTripDocument::parse(input).unwrap();
    let span = doc.span_of(&[PathSegment::Key("replicas")]).unwrap();
    assert_eq!(&input[span.start..span.end], "3");
    assert_eq!(doc.get(&[PathSegment::Key("name")]), Some("web"));
}

#[test]
fn span_of_resolves_nested_and_indexed() {
    let input = "spec:\n  items:\n    - alpha\n    - beta\n";
    let doc = RoundTripDocument::parse(input).unwrap();
    let path = [PathSegment::Key("spec"), PathSegment::Key("items"), PathSegment::Index(1)];
    assert_eq!(doc.get(&path), Some("beta"));
}

#[test]
fn quoted_scalar_span_includes_quotes() {
    let doc = RoundTripDocument::parse("s: 'hello world'\n").unwrap();
    assert_eq!(doc.get(&[PathSegment::Key("s")]), Some("'hello world'"));
}

#[test]
fn plain_scalar_span_excludes_padding_before_comment() {
    let doc = RoundTripDocument::parse("name: web        # frontend\n").unwrap();
    assert_eq!(doc.get(&[PathSegment::Key("name")]), Some("web"));
}

#[test]
fn block_mapping_span_covers_all_entries() {
    let input = "m:\n  a: 1\n  b:\n";
    let doc = RoundTripDocument::parse(input).unwrap();
    let span = doc.span_of(&[PathSegment::Key("m")]).unwrap();
    assert!(input[span.start..span.end].contains('b'));
}

#[test]
fn set_replaces_only_the_addressed_bytes() {
    let input = "# deploy\nreplicas: 3   # scale\nname: web\n";
    let mut doc = RoundTripDocument::parse(input).unwrap();
    doc.set(&[PathSegment::Key("replicas")], "5").unwrap();
    assert_eq!(doc.to_string(), "# deploy\nreplicas: 5   # scale\nname: web\n");
    assert_eq!(doc.value().get_str("replicas"), Some(&Value::Int(5)));
}

#[test]
fn set_on_missing_path_is_an_error_and_leaves_doc_unchanged() {
    let input = "a: 1\n";
    let mut doc = RoundTripDocument::parse(input).unwrap();
    assert!(doc.set(&[PathSegment::Key("nope")], "2").is_err());
    assert_eq!(doc.to_string(), input);
}

#[test]
fn replace_span_rejects_invalid_result_and_rolls_back() {
    let input = "a: 1\n";
    let mut doc = RoundTripDocument::parse(input).unwrap();
    let span = doc.span_of(&[PathSegment::Key("a")]).unwrap();
    assert!(doc.replace_span(span, "[unclosed").is_err());
    assert_eq!(doc.to_string(), input);
}

#[test]
fn replace_span_rejects_non_char_boundaries() {
    let input = "k: \u{e9}t\u{e9}\n";
    let mut doc = RoundTripDocument::parse(input).unwrap();
    assert!(doc.replace_span(Span::new(4, 5), "x").is_err());
    assert_eq!(doc.to_string(), input);
}

#[test]
fn implicit_null_has_no_span_but_typed_value_exists() {
    let doc = RoundTripDocument::parse("key:\nother: 1\n").unwrap();
    assert_eq!(doc.span_of(&[PathSegment::Key("key")]), None);
    assert_eq!(doc.value().get_str("key"), Some(&Value::Null));
}

#[test]
fn merge_key_entries_are_not_addressable() {
    let input = "defaults: &d\n  timeout: 30\nservice:\n  <<: *d\n  name: web\n";
    let doc = RoundTripDocument::parse(input).unwrap();
    let service = doc.value().get_str("service").unwrap();
    assert_eq!(service.get_str("timeout"), Some(&Value::Int(30)));
    let path = [PathSegment::Key("service"), PathSegment::Key("timeout")];
    assert_eq!(doc.span_of(&path), None);
    let alias = [PathSegment::Key("service"), PathSegment::Key("<<")];
    assert_eq!(doc.get(&alias), Some("*d"));
}

#[test]
fn duplicate_keys_resolve_to_last_occurrence() {
    let doc = RoundTripDocument::parse("k: 1\nk: 2\n").unwrap();
    assert_eq!(doc.get(&[PathSegment::Key("k")]), Some("2"));
}

#[test]
fn bom_document_is_preserved_and_addressable() {
    let input = "\u{feff}a: 1\nb: 2\n";
    let doc = RoundTripDocument::parse(input).unwrap();
    assert_eq!(doc.to_string(), input);
    assert_eq!(doc.get(&[PathSegment::Key("a")]), Some("1"));
}

#[test]
fn empty_input_is_one_null_document() {
    let docs = RoundTripDocument::parse_all("").unwrap();
    assert_eq!(docs.len(), 1);
    assert_eq!(docs[0].value(), &Value::Null);
    assert_eq!(docs[0].source(), "");
}

#[test]
fn invalid_yaml_is_an_error() {
    assert!(RoundTripDocument::parse("items: [1, 2").is_err());
}

#[test]
fn multibyte_content_keeps_spans_byte_accurate() {
    let input = "gr\u{fc}\u{df}e: \"h\u{e9}llo\"\nkey: \u{1f600}\n";
    let doc = RoundTripDocument::parse(input).unwrap();
    assert_eq!(doc.to_string(), input);
    assert_eq!(doc.get(&[PathSegment::Key("gr\u{fc}\u{df}e")]), Some("\"h\u{e9}llo\""));
    assert_eq!(doc.get(&[PathSegment::Key("key")]), Some("\u{1f600}"));
}

#[test]
fn typed_values_follow_the_core_schema() {
    let doc = RoundTripDocument::parse(
        "i: -42\nf: 1.5\nb: True\nn: ~\ns: '12'\nt: !!str 7\nl: [a, {x: 1}]\nm: |\n  one\n  two\nk: >-\n  a\n  b\n",
    )
    .unwrap();
    let v = doc.value();
    assert_eq!(v.get_str("i"), Some(&Value::Int(-42)));
    assert_eq!(v.get_str("f"), Some(&Value::Float("1.5".to_string())));
    assert_eq!(v.get_str("b"), Some(&Value::Bool(true)));
    assert_eq!(v.get_str("n"), Some(&Value::Null));
    assert_eq!(v.get_str("s"), Some(&Value::String("12".to_string())));
    assert_eq!(v.get_str("t"), Some(&Value::String("7".to_string())));
    assert_eq!(v.get_str("m"), Some(&Value::String("one\ntwo\n".to_string())));
    assert_eq!(v.get_str("k"), Some(&Value::String("a b".to_string())));
    let inner = Value::Mapping(vec![(Value::String("x".to_string()), Value::Int(1))]);
    assert_eq!(v.get_str("l"), Some(&Value::Sequence(vec![Value::String("a".to_string()), inner])));
}

#[test]
fn anchors_aliases_and_errors() {
    let doc = RoundTripDocument::parse("a: &x [1, 2]\nb: *x\n").unwrap();
    assert_eq!(doc.value().get_str("b"), doc.value().get_str("a"));
    assert!(RoundTripDocument::parse("a: *nope\n").is_err());
    assert!(RoundTripDocument::parse("a: &r [*r]\n").is_err());
    assert!(RoundTripDocument::parse("a: b: c\n").is_err());
    let folded = RoundTripDocument::parse("x: 1\n  - y\n").unwrap();
    assert_eq!(folded.value().get_str("x"), Some(&Value::String("1 - y".to_string())));
    assert!(RoundTripDocument::parse("a: \"unterminated\n").is_err());
    assert!(RoundTripDocument::parse("a: !!int nope\n").is_err());
    assert!(RoundTripDocument::parse("<<: 3\n").is_err());
}

#[test]
fn edits_splice_exactly_and_reparse() {
    let input = "a:\n  - x\n  - y\nb: \"q\"\n";
    let mut doc = RoundTripDocument::parse(input).unwrap();
    doc.set(&[PathSegment::Key("a"), PathSegment::Index(1)], "z").unwrap();
    assert_eq!(doc.to_string(), "a:\n  - x\n  - z\nb: \"q\"\n");
    doc.set(&[PathSegment::Key("b")], "[1, 2]").unwrap();
    assert_eq!(doc.to_string(), "a:\n  - x\n  - z\nb: [1, 2]\n");
    assert!(doc.set(&[PathSegment::Key("a"), PathSegment::Index(5)], "w").is_err());
    assert!(doc.replace_span(Span::new(3, 2), "w").is_err());
    assert!(doc.replace_span(Span::new(0, 1000), "w").is_err());
    let span = doc.span_of(&[PathSegment::Key("a")]).unwrap();
    assert_eq!(&doc.source()[span.start..span.end], "- x\n  - z");
    assert_eq!(Span::new(2, 5).len(), 3);
    assert!(Span::new(4, 4).is_empty());
}

#[test]
fn documents_own_their_trailing_trivia() {
    let docs = RoundTripDocument::parse_all("a: 1\n# after\n---\nb: 2\n...\n# tail\n").unwrap();
    assert_eq!(docs.len(), 2);
    assert_eq!(docs[0].source(), "a: 1\n# after\n");
    assert_eq!(docs[1].source(), "---\nb: 2\n...\n# tail\n");
}

#[test]
fn blank_input_is_one_null_document() {
    let input = "  \t\r\n\n   \n";
    let docs = RoundTripDocument::parse_all(input).unwrap();
    assert_eq!(docs.len(), 1);
    assert_eq!(docs[0].value(), &Value::Null);
    assert_eq!(docs[0].source(), input);
    let doc = RoundTripDocument::parse("\n\n").unwrap();
    assert_eq!(doc.value(), &Value::Null);
}

#[test]
fn replacing_everything_with_blank_text_succeeds() {
    let mut doc = RoundTripDocument::parse("a: 1\n").unwrap();
    assert!(doc.replace_span(Span::new(0, 5), "  \n").is_ok());
    assert_eq!(doc.source(), "  \n");
    assert_eq!(doc.value(), &Value::Null);
}
