use rust_yaml::parser::optimizations::{EventBuffer, EventFactory, ParserState, ParserStateMachine};
use rust_yaml::{Event, EventType, Position, ScalarStyle};

#[test]
fn test_event_creation() {
    let pos = Position::at(1, 1, 0);

    let stream_start = Event::stream_start(pos);
    assert!(matches!(stream_start.event_type, EventType::StreamStart));
    assert_eq!(stream_start.position, pos);

    let scalar = Event::scalar(pos, None, None, "hello".to_string(), true, false, ScalarStyle::Plain);

    if let EventType::Scalar { value, style, .. } = &scalar.event_type {
        assert_eq!(value, "hello");
        assert_eq!(*style, ScalarStyle::Plain);
    } else {
        panic!("Expected scalar event");
    }
}

#[test]
fn test_event_type_checks() {
    let pos = Position::start();

    let seq_start = Event::sequence_start(pos, None, None, false);
    let seq_end = Event::sequence_end(pos);
    let doc_start = Event::document_start(pos, None, vec![], true);

    assert!(seq_start.is_collection_start());
    assert!(!seq_start.is_collection_end());

    assert!(!seq_end.is_collection_start());
    assert!(seq_end.is_collection_end());

    assert!(doc_start.is_document_boundary());
    assert!(!doc_start.is_collection_start());
}

#[test]
fn test_event_display() {
    let pos = Position::start();

    let scalar = Event::scalar(pos, None, None, "test".to_string(), true, false, ScalarStyle::DoubleQuoted);

    let display = scalar.to_string();
    assert!(display.contains("SCALAR"));
    assert!(display.contains("test"));
}

#[test]
fn test_event_buffer() {
    let mut buffer = EventBuffer::new();
    assert!(buffer.is_empty());

    let event = Event::new(EventType::StreamStart, Position::new());
    buffer.push(event);
    assert_eq!(buffer.len(), 1);
    assert!(!buffer.is_empty());
}

#[test]
fn test_parser_state_machine() {
    let mut state_machine = ParserStateMachine::new();
    assert!(matches!(state_machine.current_state(), ParserState::StreamStart));

    state_machine.push_state(ParserState::BlockSequence);
    assert!(matches!(state_machine.current_state(), ParserState::BlockSequence));
    assert_eq!(state_machine.depth(), 1);

    let prev_state = state_machine.pop_state();
    assert!(matches!(prev_state, Some(ParserState::BlockSequence)));
    assert!(matches!(state_machine.current_state(), ParserState::StreamStart));
}

#[test]
fn test_event_factory() {
    let mut factory = EventFactory::new();

    let scalar_event = factory.create_scalar("test value".to_string(), None, None, ScalarStyle::Plain);

    if let EventType::Scalar { value, .. } = scalar_event.event_type {
        assert_eq!(value, "test value");
    } else {
        panic!("Expected scalar event");
    }
}

#[test]
fn test_state_machine_context_detection() {
    let mut state_machine = ParserStateMachine::new();

    state_machine.set_state(ParserState::BlockSequence);
    assert!(state_machine.is_block_context());
    assert!(!state_machine.is_flow_context());

    state_machine.set_state(ParserState::FlowSequence { first: true });
    assert!(state_machine.is_flow_context());
    assert!(!state_machine.is_block_context());
}

#[test]
fn pop_after_push_restores_the_machine() {
    let mut m = ParserStateMachine::new();
    m.push_state(ParserState::FlowMapping { first: false });
    m.push_state(ParserState::BlockMappingKey);
    assert_eq!(m.depth(), 2);
    assert_eq!(m.pop_state(), Some(ParserState::BlockMappingKey));
    assert_eq!(*m.current_state(), ParserState::FlowMapping { first: false });
    assert_eq!(m.pop_state(), Some(ParserState::FlowMapping { first: false }));
    assert_eq!(m.pop_state(), None);
    assert_eq!(*m.current_state(), ParserState::StreamStart);
}
