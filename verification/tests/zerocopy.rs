use rust_yaml::zerocopy::{TokenPool, ZeroScanner, ZeroString, ZeroToken, ZeroTokenType};
use rust_yaml::{Position, QuoteStyle, TokenType};

#[test]
fn test_zero_string_borrowed() {
    let s = "hello world";
    let zs = ZeroString::borrowed(s);

    assert!(zs.is_borrowed());
    assert_eq!(zs.as_str(), "hello world");
    assert_eq!(zs.len(), 11);
    assert!(!zs.is_empty());
}

#[test]
fn test_zero_string_owned() {
    let s = String::from("hello world");
    let zs = ZeroString::owned(s);

    assert!(!zs.is_borrowed());
    assert_eq!(zs.as_str(), "hello world");
    assert_eq!(zs.len(), 11);
}

#[test]
fn test_zero_scanner_basic() {
    let input = "hello: world";
    let mut scanner = ZeroScanner::new(input);

    assert_eq!(scanner.current_char(), Some('h'));
    assert_eq!(scanner.advance(), Some('e'));
    assert_eq!(scanner.current_char(), Some('e'));

    assert_eq!(scanner.peek_char(1), Some('l'));
    assert_eq!(scanner.peek_char(-1), Some('h'));
}

#[test]
fn test_zero_scanner_slicing() {
    let input = "hello: world";
    let mut scanner = ZeroScanner::new(input);

    let start = scanner.position;

    for _ in 0..5 {
        scanner.advance();
    }

    let slice = scanner.slice_from(start).unwrap();
    assert_eq!(slice, "hello");
}

#[test]
fn test_token_pool() {
    let mut pool = TokenPool::with_capacity(2);

    assert_eq!(pool.allocated_count(), 0);
    assert_eq!(pool.used_count(), 0);

    let _token1 = pool.get_token();
    assert_eq!(pool.allocated_count(), 1);
    assert_eq!(pool.used_count(), 1);

    let _token2 = pool.get_token();
    assert_eq!(pool.allocated_count(), 2);
    assert_eq!(pool.used_count(), 2);

    pool.reset();
    assert_eq!(pool.allocated_count(), 2);
    assert_eq!(pool.used_count(), 0);
}

#[test]
fn test_zero_copy_scalar_scanning() {
    let input = "hello world: test";
    let mut scanner = ZeroScanner::new(input);

    let token = scanner.scan_plain_scalar_zero_copy().unwrap();

    if let ZeroTokenType::Scalar(value, _) = token.token_type {
        assert_eq!(value.as_str(), "hello world");
        assert!(value.is_borrowed());
    } else {
        panic!("Expected scalar token");
    }
}

#[test]
fn test_zero_copy_identifier_scanning() {
    let input = "my_anchor_123 ";
    let mut scanner = ZeroScanner::new(input);

    let identifier = scanner.scan_identifier_zero_copy().unwrap();
    assert_eq!(identifier.as_str(), "my_anchor_123");
    assert!(identifier.is_borrowed());
}

#[test]
fn test_zero_copy_trimming() {
    let input = "hello   \n";
    let mut scanner = ZeroScanner::new(input);

    let token = scanner.scan_plain_scalar_zero_copy().unwrap();

    if let ZeroTokenType::Scalar(value, _) = token.token_type {
        assert_eq!(value.as_str(), "hello");
        assert!(!value.is_borrowed());
    } else {
        panic!("Expected scalar token");
    }
}

#[test]
fn scanner_positions_stats_and_bounds() {
    let input = "\u{e9}a\nb # c";
    let mut s = ZeroScanner::new(input);
    assert_eq!(s.peek_char(-1), None);
    assert_eq!(s.peek_char(10), None);
    s.advance();
    s.advance();
    s.advance();
    assert_eq!(s.position, Position::at(2, 1, 4));
    let stats = s.stats();
    assert_eq!(stats.input_length, 9);
    assert_eq!(stats.chars_processed, 3);
    assert_eq!(stats.tokens_used, 0);
    assert!(s.slice_between(Position::at(1, 1, 5), Position::at(1, 1, 4)).is_err());
    assert!(s.slice_between(Position::at(1, 1, 0), Position::at(1, 1, 99)).is_err());
    assert_eq!(s.slice_between(Position::at(1, 1, 0), Position::at(1, 1, 3)).unwrap(), "\u{e9}a");
    let t = s.scan_plain_scalar_zero_copy().unwrap();
    assert_eq!(t.start_position, Position::at(2, 1, 4));
    let owned = t.into_owned();
    assert_eq!(owned.token_type, TokenType::Scalar("b".to_string(), QuoteStyle::Plain));
    s.skip_whitespace();
    assert_eq!(s.current_char(), Some('#'));
    s.reset();
    assert_eq!(s.position, Position::start());
    assert_eq!(s.current_char(), Some('\u{e9}'));
    let z: ZeroString = "x".into();
    assert!(z.is_borrowed());
    let z: ZeroString = String::from("y").into();
    assert!(!z.is_borrowed() && z.clone().into_owned() == "y");
    let tok = ZeroToken::simple(ZeroTokenType::Alias(ZeroString::borrowed("a")), Position::start());
    assert_eq!(tok.into_owned().token_type, TokenType::Alias("a".to_string()));
}

#[test]
fn the_position_getter_follows_the_field() {
    let mut scanner = ZeroScanner::new("ab\ncd");
    assert_eq!(scanner.position(), Position::start());
    scanner.advance();
    scanner.advance();
    scanner.advance();
    assert_eq!(scanner.position(), scanner.position);
    assert_eq!(scanner.position().index, 3);
    assert_eq!(scanner.position().line, 2);
}
