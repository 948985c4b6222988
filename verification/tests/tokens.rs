use rust_yaml::{Position, QuoteStyle, Token, TokenType};

#[test]
fn test_token_creation() {
    let pos1 = Position::at(1, 1, 0);
    let pos2 = Position::at(1, 5, 4);

    let token = Token::new(TokenType::Scalar("hello".to_string(), QuoteStyle::Plain), pos1, pos2);

    assert_eq!(token.start_position(), pos1);
    assert_eq!(token.end_position(), pos2);
    assert!(token.is_scalar());
    assert_eq!(token.as_scalar(), Some("hello"));
}

#[test]
fn test_token_type_checks() {
    let scalar_token = Token::simple(TokenType::Scalar("test".to_string(), QuoteStyle::Plain), Position::start());
    let flow_start = Token::simple(TokenType::FlowSequenceStart, Position::start());
    let doc_start = Token::simple(TokenType::DocumentStart, Position::start());

    assert!(scalar_token.is_scalar());
    assert!(!scalar_token.is_flow_collection_start());

    assert!(flow_start.is_flow_collection_start());
    assert!(!flow_start.is_scalar());

    assert!(doc_start.is_document_boundary());
    assert!(!doc_start.is_scalar());
}

#[test]
fn test_token_display() {
    let scalar = Token::simple(TokenType::Scalar("hello".to_string(), QuoteStyle::Plain), Position::start());
    assert_eq!(scalar.to_string(), "SCALAR(hello, Plain)");

    let flow_start = Token::simple(TokenType::FlowSequenceStart, Position::start());
    assert_eq!(flow_start.to_string(), "FLOW-SEQUENCE-START");
}

#[test]
fn test_token_type_display() {
    assert_eq!(TokenType::StreamStart.to_string(), "StreamStart");
    assert_eq!(TokenType::Scalar("test".to_string(), QuoteStyle::Plain).to_string(), "Scalar(test, Plain)");
    assert_eq!(TokenType::FlowSequenceStart.to_string(), "FlowSequenceStart");
}

#[test]
fn directive_tokens_print_their_numbers() {
    assert_eq!(TokenType::YamlDirective(1, 2).to_string(), "YamlDirective(1.2)");
    let t = Token::simple(TokenType::TagDirective("!e!".to_string(), "tag:e.com,2000:".to_string()), Position::start());
    assert_eq!(t.to_string(), "TAG-DIRECTIVE(!e!, tag:e.com,2000:)");
    assert!(!t.is_scalar());
}
