use rust_yaml::compose::compose_events;
use rust_yaml::parser::parse::parse_events;
use rust_yaml::scanner::state::{ScannerContext, ScannerState};
use rust_yaml::scanner::tokenize::scan_tokens;
use rust_yaml::{EventType, Position, QuoteStyle, TokenType, Value};

#[test]
fn tokens_of_a_small_mapping() {
    let tokens = scan_tokens("a: 'x' # c\n").unwrap();
    let kinds: Vec<String> = tokens.iter().map(|t| t.token_type.to_string()).collect();
    assert_eq!(
        kinds,
        vec![
            "StreamStart",
            "BlockMappingStart",
            "Key",
            "Scalar(a, Plain)",
            "Value",
            "Scalar(x, Single)",
            "Comment( c)",
            "BlockEnd",
            "StreamEnd"
        ]
    );
    assert_eq!(tokens[5].start_position, Position::at(1, 4, 3));
    assert_eq!(tokens[5].end_position, Position::at(1, 7, 6));
    assert!(matches!(tokens[3].token_type, TokenType::Scalar(_, QuoteStyle::Plain)));
}

#[test]
fn scanner_errors() {
    assert!(scan_tokens("a: \"open").is_err());
    assert!(scan_tokens("a: b: c").is_err());
    assert!(scan_tokens("\"\\q\"").is_err());
    assert!(scan_tokens("|0\n x").is_err());
    assert!(scan_tokens("@x").is_err());
}

#[test]
fn block_scalars_chomp_and_fold() {
    let t = scan_tokens("|+\n a\n\n").unwrap();
    assert_eq!(t[1].token_type, TokenType::BlockScalarLiteral("a\n\n".to_string()));
    let t = scan_tokens(">-\n a\n b\n\n c\n").unwrap();
    assert_eq!(t[1].token_type, TokenType::BlockScalarFolded("a b\nc".to_string()));
    let t = scan_tokens("|2\n   x\n").unwrap();
    assert_eq!(t[1].token_type, TokenType::BlockScalarLiteral(" x\n".to_string()));
}

#[test]
fn escapes_in_double_quotes() {
    let t = scan_tokens("\"a\\tb\\u00e9\\x41\\\n  c\"").unwrap();
    assert_eq!(t[1].token_type, TokenType::Scalar("a\tb\u{e9}Ac".to_string(), QuoteStyle::Double));
    let t = scan_tokens("'a\n\n  b'").unwrap();
    assert_eq!(t[1].token_type, TokenType::Scalar("a\nb".to_string(), QuoteStyle::Single));
}

#[test]
fn events_balance_and_documents() {
    let tokens = scan_tokens("%YAML 1.2\n--- !!str\n...\n- [a, {b: c}]\n").unwrap();
    let events = parse_events(&tokens).unwrap();
    let starts = events.iter().filter(|e| e.is_collection_start()).count();
    let ends = events.iter().filter(|e| e.is_collection_end()).count();
    assert_eq!(starts, ends);
    assert!(matches!(events[1].event_type, EventType::DocumentStart { version: Some((1, 2)), implicit: false, .. }));
    let docs = compose_events(&events).unwrap();
    assert_eq!(docs.len(), 2);
    assert_eq!(docs[0], Value::String(String::new()));
    assert!(parse_events(&scan_tokens("[a, b").unwrap()).is_err());
    assert_eq!(compose_events(&parse_events(&scan_tokens("# only\n").unwrap()).unwrap()).unwrap(), vec![Value::Null]);
}

#[test]
fn merge_keeps_explicit_keys_and_first_source() {
    let tokens = scan_tokens("a: &a {x: 1, y: 1}\nb: &b {y: 2, z: 2}\nc:\n  x: 0\n  <<: [*a, *b]\n").unwrap();
    let docs = compose_events(&parse_events(&tokens).unwrap()).unwrap();
    let c = docs[0].get_str("c").unwrap();
    assert_eq!(c.get_str("x"), Some(&Value::Int(0)));
    assert_eq!(c.get_str("y"), Some(&Value::Int(1)));
    assert_eq!(c.get_str("z"), Some(&Value::Int(2)));
    assert_eq!(c.get_str("<<"), None);
}

#[test]
fn entering_and_leaving_flow_restores_the_context() {
    let mut ctx = ScannerContext::new();
    assert!(ctx.in_block());
    assert!(ctx.simple_key_allowed());
    ctx.save_simple_key(Position::at(1, 2, 1));
    assert!(!ctx.simple_key_allowed());
    ctx.enter_flow();
    assert!(ctx.in_flow());
    assert_eq!(ctx.simple_keys.len(), 2);
    assert!(ctx.simple_key_allowed());
    ctx.exit_flow();
    assert!(ctx.in_block());
    assert_eq!(ctx.simple_keys, vec![Some(Position::at(1, 2, 1))]);
    ctx.clear_simple_key();
    ctx.exit_flow();
    assert_eq!(ctx.flow_level, 0);
    ctx.state = ScannerState::FlowMapping;
    ctx.reset();
    assert_eq!(ctx.state, ScannerState::StreamStart);
    assert_eq!(ctx.simple_keys, vec![None]);
    assert_eq!(ScannerContext::default().simple_keys, vec![None]);
}

#[test]
fn a_lone_scalar_is_one_implicit_document() {
    let tokens = scan_tokens("hello").unwrap();
    let events = parse_events(&tokens).unwrap();
    assert_eq!(events.len(), 5);
    assert!(matches!(events[0].event_type, EventType::StreamStart));
    assert!(matches!(events[1].event_type, EventType::DocumentStart { .. }));
    assert!(matches!(&events[2].event_type, EventType::Scalar { value, .. } if value == "hello"));
    assert_eq!(events[3].event_type, EventType::DocumentEnd { implicit: true });
    assert!(matches!(events[4].event_type, EventType::StreamEnd));
}

#[test]
fn the_stream_end_token_sits_at_the_end_of_the_input() {
    let input = "a: [1, 2]\n# done\n";
    let tokens = scan_tokens(input).unwrap();
    assert_eq!(tokens.last().unwrap().start_position.index, input.len());
}

#[test]
fn composed_sequences_keep_every_item_in_order() {
    let events = parse_events(&scan_tokens("- 1\n- [a, b]\n- x: 2\n").unwrap()).unwrap();
    let values = compose_events(&events).unwrap();
    assert_eq!(values.len(), 1);
    match &values[0] {
        Value::Sequence(items) => {
            assert_eq!(items.len(), 3);
            assert_eq!(items[0], Value::Int(1));
            assert_eq!(items[1], Value::Sequence(vec![Value::String("a".to_string()), Value::String("b".to_string())]));
            assert_eq!(items[2].get_str("x"), Some(&Value::Int(2)));
        },
        _ => panic!("expected a sequence"),
    }
}

#[test]
fn composed_mappings_keep_the_first_place_and_the_last_value() {
    let events = parse_events(&scan_tokens("a: 1\nb: 2\na: 3\n").unwrap()).unwrap();
    let values = compose_events(&events).unwrap();
    match &values[0] {
        Value::Mapping(entries) => {
            assert_eq!(entries.len(), 2);
            assert_eq!(entries[0], (Value::String("a".to_string()), Value::Int(3)));
            assert_eq!(entries[1], (Value::String("b".to_string()), Value::Int(2)));
        },
        _ => panic!("expected a mapping"),
    }
}

#[test]
fn each_document_composes_to_its_own_value() {
    let events = parse_events(&scan_tokens("---\n1\n---\n[2]\n").unwrap()).unwrap();
    let values = compose_events(&events).unwrap();
    assert_eq!(values.len(), 2);
    assert_eq!(values[0], Value::Int(1));
    assert_eq!(values[1], Value::Sequence(vec![Value::Int(2)]));
}
