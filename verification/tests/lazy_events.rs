use rust_yaml::parser::optimizations::LazyEventIterator;
use rust_yaml::{Error, Event, EventType, Position};

fn scalar(text: &str) -> Event {
    Event::scalar(Position::new(), None, None, text.to_string(), true, false, rust_yaml::ScalarStyle::Plain)
}

#[test]
fn lazy_iterator_hands_out_events_in_order() {
    let source: Vec<Result<Event, Error>> = (0..20).map(|i| Ok(scalar(&i.to_string()))).collect();
    let mut it = LazyEventIterator::new(source);
    assert_eq!(it.next_event().unwrap().unwrap(), scalar("0"));
    let peeked = it.peek_event().unwrap().unwrap().clone();
    let second = it.next_event().unwrap().unwrap();
    assert_eq!(peeked, second);
    assert_eq!(second, scalar("1"));
    assert_eq!(it.next_event().unwrap().unwrap(), scalar("2"));
}

#[test]
fn lazy_iterator_empty_source_gives_none() {
    let mut it = LazyEventIterator::new(Vec::new());
    assert!(it.next_event().unwrap().is_none());
    assert!(it.peek_event().unwrap().is_none());
}

#[test]
fn lazy_iterator_reports_an_error_in_the_batch() {
    let source = vec![
        Ok(Event::stream_start(Position::new())),
        Err(Error::parse(Position::at(2, 1, 5), "bad token")),
        Ok(scalar("late")),
    ];
    let mut it = LazyEventIterator::new(source);
    let err = it.next_event().unwrap_err();
    assert_eq!(err.message, "bad token");
    assert_eq!(err.position, Position::at(2, 1, 5));
}

#[test]
fn lazy_iterator_hands_out_every_event_up_to_the_stream_end() {
    let source = vec![
        Ok(Event::stream_start(Position::new())),
        Ok(scalar("x")),
        Ok(Event::stream_end(Position::new())),
        Ok(scalar("after")),
    ];
    let mut it = LazyEventIterator::new(source);
    assert!(matches!(it.next_event().unwrap().unwrap().event_type, EventType::StreamStart));
    assert_eq!(it.peek_event().unwrap().unwrap(), &scalar("x"));
    assert_eq!(it.next_event().unwrap().unwrap(), scalar("x"));
    assert!(matches!(it.next_event().unwrap().unwrap().event_type, EventType::StreamEnd));
    // Nothing after the stream end is read.
    assert!(it.next_event().unwrap().is_none());
    assert!(it.peek_event().unwrap().is_none());
}

#[test]
fn lazy_iterator_hands_out_every_event_until_the_source_runs_out() {
    let source = vec![Ok(scalar("a")), Ok(scalar("b"))];
    let mut it = LazyEventIterator::new(source);
    assert_eq!(it.next_event().unwrap().unwrap(), scalar("a"));
    assert_eq!(it.next_event().unwrap().unwrap(), scalar("b"));
    assert!(it.next_event().unwrap().is_none());
    // Peeking at the end does not bring back an event already handed out.
    assert!(it.peek_event().unwrap().is_none());
}

#[test]
fn lazy_iterator_reads_in_batches_of_sixteen() {
    let mut source: Vec<Result<Event, Error>> = (0..20).map(|i| Ok(scalar(&i.to_string()))).collect();
    source.push(Err(Error::parse(Position::new(), "late error")));
    let mut it = LazyEventIterator::new(source);
    for i in 0..16 {
        assert_eq!(it.next_event().unwrap().unwrap(), scalar(&i.to_string()));
    }
    // The second batch reaches the error before handing anything out.
    assert!(it.next_event().is_err());
}
