use rust_yaml::scanner::optimizations::{StringScanner, TokenBuffer};
use rust_yaml::scanner::token_processor::{CharClassifier, PatternMatcher, TokenProcessor};
use rust_yaml::{Position, QuoteStyle, Token, TokenType};

#[test]
fn test_string_scanner_quoted_strings() {
    let mut scanner = StringScanner::new();
    let chars: Vec<char> = "'hello world'".chars().collect();

    let result = scanner.scan_quoted_string(&chars, 0, '"').unwrap();
    assert_eq!(result.0, "hello world");
    assert_eq!(result.1, QuoteStyle::Double);
    assert_eq!(result.2, chars.len());
}

#[test]
fn test_string_scanner_escape_sequences() {
    let mut scanner = StringScanner::new();
    let chars: Vec<char> = "'hello\nworld\t!'".chars().collect();

    let result = scanner.scan_quoted_string(&chars, 0, '"').unwrap();
    assert_eq!(result.0, "hello\nworld\t!");
}

#[test]
fn test_string_scanner_plain_scalar() {
    let mut scanner = StringScanner::new();
    let chars: Vec<char> = "hello world: value".chars().collect();

    let result = scanner.scan_plain_scalar(&chars, 0).unwrap();
    assert_eq!(result.0, "hello world");
    assert!(result.1 > 0);
}

#[test]
fn test_whitespace_skipping() {
    let chars: Vec<char> = "   \t  hello".chars().collect();
    let pos = StringScanner::skip_whitespace(&chars, 0);
    assert_eq!(chars[pos], 'h');
}

#[test]
fn test_token_buffer() {
    let mut buffer = TokenBuffer::new();
    assert!(buffer.is_empty());

    let token = Token::new(TokenType::StreamStart, Position::new(), Position::new());

    buffer.push(token);
    assert_eq!(buffer.len(), 1);
    assert!(!buffer.is_empty());
}

#[test]
fn quoted_strings_escapes_and_errors() {
    let mut s = StringScanner::default();
    let chars: Vec<char> = "\"a\\nb\\qc\" rest".chars().collect();
    let r = s.scan_quoted_string(&chars, 0, '"').unwrap();
    assert_eq!(r.0, "a\nb\\qc");
    assert_eq!(r.2, 9);
    let chars: Vec<char> = "'it''s' x".chars().collect();
    let r = s.scan_quoted_string(&chars, 0, '\'').unwrap();
    assert_eq!(r.0, "it's");
    assert_eq!(r.1, QuoteStyle::Single);
    assert_eq!(r.2, 7);
    let chars: Vec<char> = "\"open".chars().collect();
    assert!(s.scan_quoted_string(&chars, 0, '"').is_err());
    assert!(s.scan_quoted_string(&chars, 9, '"').is_err());
    let chars: Vec<char> = "\"ab\\".chars().collect();
    assert!(s.scan_quoted_string(&chars, 0, '"').is_err());
}

#[test]
fn plain_scalars_stop_and_fold() {
    let mut s = StringScanner::new();
    let chars: Vec<char> = "a  b   \nc".chars().collect();
    assert_eq!(s.scan_plain_scalar(&chars, 0).unwrap(), ("a b".to_string(), 4));
    let chars: Vec<char> = "x &y".chars().collect();
    assert_eq!(s.scan_plain_scalar(&chars, 0).unwrap(), ("x".to_string(), 2));
    let chars: Vec<char> = "k\u{a0}".chars().collect();
    assert_eq!(s.scan_plain_scalar(&chars, 0).unwrap(), ("k".to_string(), 2));
    let chars: Vec<char> = "ab\r\ncd".chars().collect();
    assert!(StringScanner::is_line_ending(&chars, 2));
    assert!(!StringScanner::is_line_ending(&chars, 1));
    assert!(!StringScanner::is_line_ending(&chars, 9));
    assert_eq!(StringScanner::skip_to_line_end(&chars, 0), 2);
    assert_eq!(StringScanner::skip_to_line_end(&chars, 4), 6);
}

#[test]
fn token_buffer_keeps_tokens_when_shrinking() {
    let mut b = TokenBuffer::with_capacity(1);
    b.push(Token::simple(TokenType::Key, Position::start()));
    b.shrink_if_needed();
    assert_eq!(b.len(), 1);
    assert_eq!(b.get(0).map(|t| t.token_type.clone()), Some(TokenType::Key));
    assert!(b.get(1).is_none());
    b.clear();
    b.shrink_if_needed();
    assert!(b.is_empty());
    assert!(TokenBuffer::default().is_empty());
}

#[test]
fn classifiers_and_patterns() {
    assert!(CharClassifier::is_flow_indicator(':'));
    assert!(!CharClassifier::is_flow_indicator('-'));
    assert!(CharClassifier::is_identifier_start('_'));
    assert!(!CharClassifier::is_identifier_start('1'));
    assert!(CharClassifier::is_identifier_char('1'));
    assert!(CharClassifier::is_document_indicator('.'));
    assert!(CharClassifier::is_yaml_whitespace('\t'));
    assert!(CharClassifier::is_line_break('\r'));
    assert!(CharClassifier::is_printable_ascii('~'));
    assert!(!CharClassifier::is_printable_ascii('\u{7f}'));
    assert!(CharClassifier::is_digit('7'));
    assert!(CharClassifier::is_hex_digit('F'));
    assert!(!CharClassifier::is_octal_digit('8'));
    assert!(PatternMatcher::is_document_start("a\n--- x", 2));
    assert!(PatternMatcher::is_document_start("---", 0));
    assert!(!PatternMatcher::is_document_start("----", 0));
    assert!(PatternMatcher::is_document_end("...\n", 0));
    assert!(!PatternMatcher::is_document_end("..", 0));
    assert!(PatternMatcher::is_tag_start('!'));
    assert!(PatternMatcher::is_anchor_start('&'));
    assert!(PatternMatcher::is_alias_start('*'));
    assert!(PatternMatcher::is_comment_start('#'));
    let t = TokenProcessor::scalar_token("v".to_string(), QuoteStyle::Single, Position::start());
    assert_eq!(t.as_scalar_with_style(), Some(("v", QuoteStyle::Single)));
    let t = TokenProcessor::anchor_token("a".to_string(), Position::at(2, 3, 9));
    assert_eq!(t.start_position(), Position::at(2, 3, 9));
    assert_eq!(TokenProcessor::simple_token(TokenType::Key, Position::start()).token_type, TokenType::Key);
}
