use rust_yaml::roundtrip::{walk_node, Cursor, LexemeIndex, SpanNode};
use rust_yaml::{Event, Position, QuoteStyle, RoundTripDocument, ScalarStyle, Span, Token, TokenType, Value};

fn p(i: usize) -> Position {
    Position::at(1, 1, i)
}

fn sc(v: &str, i: usize) -> Event {
    Event::scalar(p(i), None, None, v.to_string(), true, false, ScalarStyle::Plain)
}

fn plain_token(v: &str, start: usize, end: usize) -> Token {
    Token::new(TokenType::Scalar(v.to_string(), QuoteStyle::Plain), p(start), p(end))
}

#[test]
fn walk_node_takes_a_block_mapping_end_from_its_last_key() {
    let evs = vec![
        Event::mapping_start(p(0), None, None, false),
        sc("a", 0),
        sc("1", 3),
        sc("b", 5),
        sc("", 7),
        Event::mapping_end(p(8)),
    ];
    let tokens = vec![plain_token("a", 0, 1), plain_token("1", 3, 4), plain_token("b", 5, 6)];
    let lex = LexemeIndex::build(&tokens, "a: 1\nb:\n", 0);
    let mut c = Cursor { events: &evs, pos: 0 };
    let node = walk_node(&mut c, &lex, 0).unwrap();
    assert_eq!(c.pos, 6);
    match node {
        SpanNode::Mapping { span, entries } => {
            assert_eq!(span, Some(Span::new(0, 6)));
            assert_eq!(entries.len(), 2);
            assert_eq!(entries[0].0.as_deref(), Some("a"));
            assert!(matches!(entries[0].1, SpanNode::Scalar { span: Some(s) } if s == Span::new(3, 4)));
            assert_eq!(entries[1].0.as_deref(), Some("b"));
            assert!(matches!(entries[1].1, SpanNode::Scalar { span: None }));
        },
        _ => panic!("expected a mapping"),
    }
}

#[test]
fn single_document_takes_the_only_document() {
    let docs = RoundTripDocument::parse_all("a: 1\n").unwrap();
    let doc = RoundTripDocument::single_document(docs).unwrap();
    assert_eq!(doc.source(), "a: 1\n");
    let two = RoundTripDocument::parse_all("---\na: 1\n---\nb: 2\n").unwrap();
    let err = RoundTripDocument::single_document(two).unwrap_err();
    assert_eq!(err.message, "expected a single YAML document, found 2; use parse_all for streams");
    assert!(RoundTripDocument::single_document(Vec::new()).is_err());
}

#[test]
fn parse_all_gives_each_document_its_value() {
    let docs = RoundTripDocument::parse_all("---\na: 1\n---\nb: 2\n").unwrap();
    assert_eq!(docs.len(), 2);
    assert_eq!(docs[0].source(), "---\na: 1\n");
    assert_eq!(docs[1].source(), "---\nb: 2\n");
    assert_eq!(docs[0].value().get_str("a"), Some(&Value::Int(1)));
    assert_eq!(docs[1].value().get_str("b"), Some(&Value::Int(2)));
}
