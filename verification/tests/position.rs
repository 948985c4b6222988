use rust_yaml::Position;

#[test]
fn test_position_creation() {
    let pos = Position::at(5, 10, 42);
    assert_eq!(pos.line, 5);
    assert_eq!(pos.column, 10);
    assert_eq!(pos.index, 42);
}

#[test]
fn test_position_start() {
    let pos = Position::start();
    assert_eq!(pos.line, 1);
    assert_eq!(pos.column, 1);
    assert_eq!(pos.index, 0);
}

#[test]
fn test_position_advance() {
    let pos = Position::start();

    let pos1 = pos.advance('a');
    assert_eq!(pos1.line, 1);
    assert_eq!(pos1.column, 2);
    assert_eq!(pos1.index, 1);

    let pos2 = pos1.advance('\n');
    assert_eq!(pos2.line, 2);
    assert_eq!(pos2.column, 1);
    assert_eq!(pos2.index, 2);
}

#[test]
fn test_position_advance_str() {
    let pos = Position::start();
    let pos1 = pos.advance_str("hello\nworld");
    assert_eq!(pos1.line, 2);
    assert_eq!(pos1.column, 6);
    assert_eq!(pos1.index, 11);
}

#[test]
fn test_position_display() {
    let pos = Position::at(42, 13, 1000);
    assert_eq!(pos.to_string(), "line 42, column 13");
}

#[test]
fn test_position_ordering() {
    let pos1 = Position::at(1, 5, 10);
    let pos2 = Position::at(2, 3, 20);
    let pos3 = Position::at(1, 6, 11);

    assert!(pos1 < pos2);
    assert!(pos1 < pos3);
    assert!(pos3 < pos2);
}

#[test]
fn advance_counts_utf8_bytes() {
    let p = Position::start().advance('\u{e9}').advance('\u{1f600}');
    assert_eq!(p, Position::at(1, 3, 6));
    assert_eq!(Position::start().advance_by(3, true), Position::at(4, 1, 3));
    assert_eq!(Position::start().advance_by(3, false), Position::at(1, 4, 3));
    assert_eq!(Position::default(), Position::new());
}
