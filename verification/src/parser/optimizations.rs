//! Parser helpers: an event buffer, the parser's state stack, event
//! construction shortcuts, and a batching event reader.

use crate::error::{Error, Result};
use crate::parser::{Event, EventType, ScalarStyle};
use crate::position::Position;
use crate::scanner::optimizations::{vec_capacity, vec_shrink_to};
use vstd::prelude::*;

verus! {

/// Where the parser is in the grammar.
#[derive(Debug, Clone, Copy, PartialEq, Eq, Structural)]
pub enum ParserState {
    /// Before the stream start.
    StreamStart,
    /// At the start of a document.
    DocumentStart,
    /// In a document's content.
    DocumentContent,
    /// At the end of a document.
    DocumentEnd,
    /// In a block sequence.
    BlockSequence,
    /// At a block mapping key.
    BlockMappingKey,
    /// At a block mapping value.
    BlockMappingValue,
    /// In a flow sequence; `first` before its first entry.
    FlowSequence {
        /// Before the first entry.
        first: bool,
    },
    /// In a flow mapping; `first` before its first entry.
    FlowMapping {
        /// Before the first entry.
        first: bool,
    },
    /// After the stream end.
    StreamEnd,
}

/// A growable buffer of events that can give back spare memory.
#[derive(Debug)]
pub struct EventBuffer {
    events: Vec<Event>,
    capacity: usize,
}

impl View for EventBuffer {
    type V = Seq<Event>;

    closed spec fn view(&self) -> Seq<Event> {
        self.events@
    }
}

impl EventBuffer {
    /// The capacity the buffer shrinks back to.
    pub closed spec fn spec_capacity(&self) -> usize {
        self.capacity
    }

    /// An empty buffer with the default capacity.
    pub fn new() -> (b: Self)
        ensures
            b@ == Seq::<Event>::empty(),
            b.spec_capacity() == 128,
    {
        EventBuffer { events: Vec::new(), capacity: 128 }
    }

    /// An empty buffer with room for `capacity` events.
    pub fn with_capacity(capacity: usize) -> (b: Self)
        ensures
            b@ == Seq::<Event>::empty(),
            b.spec_capacity() == capacity,
    {
        EventBuffer { events: Vec::with_capacity(capacity), capacity }
    }

    /// Append an event.
    pub fn push(&mut self, event: Event)
        ensures
            final(self)@ == old(self)@.push(event),
            final(self).spec_capacity() == old(self).spec_capacity(),
    {
        self.events.push(event);
    }

    /// The event at `index`, if there is one.
    pub fn get(&self, index: usize) -> (r: Option<&Event>)
        ensures
            index < self@.len() ==> r == Some(&self@[index as int]),
            index >= self@.len() ==> r is None,
    {
        if index < self.events.len() {
            Some(&self.events[index])
        } else {
            None
        }
    }

    /// The number of events.
    pub fn len(&self) -> (n: usize)
        ensures
            n == self@.len(),
    {
        self.events.len()
    }

    /// Whether the buffer holds no event.
    pub fn is_empty(&self) -> (b: bool)
        ensures
            b == (self@.len() == 0),
    {
        self.events.len() == 0
    }

    /// Remove every event.
    pub fn clear(&mut self)
        ensures
            final(self)@ == Seq::<Event>::empty(),
            final(self).spec_capacity() == old(self).spec_capacity(),
    {
        self.events.clear();
    }

    /// Make room for `additional` more events; the events are unchanged.
    pub fn reserve(&mut self, additional: usize)
        ensures
            final(self)@ == old(self)@,
            final(self).spec_capacity() == old(self).spec_capacity(),
    {
        self.events.reserve(additional);
    }

    /// Give back spare memory when the buffer is empty and holds more
    /// than twice its default capacity; the events are unchanged.
    pub fn shrink_if_needed(&mut self)
        ensures
            final(self)@ == old(self)@,
            final(self).spec_capacity() == old(self).spec_capacity(),
    {
        let cap = vec_capacity(&self.events);
        if cap > self.capacity && cap - self.capacity > self.capacity && self.events.len() == 0 {
            vec_shrink_to(&mut self.events, self.capacity);
        }
    }
}

impl Default for EventBuffer {
    /// An empty buffer with the default capacity.
    fn default() -> (b: Self)
        ensures
            b@ == Seq::<Event>::empty(),
            b.spec_capacity() == 128,
    {
        Self::new()
    }
}

/// The parser's state stack: the saved states, innermost last, and the
/// current state.
#[derive(Debug, Clone)]
pub struct ParserStateMachine {
    states: Vec<ParserState>,
    current_state: ParserState,
}

/// The saved states and the current state of a state machine.
pub struct MachineModel {
    /// Saved states, innermost last.
    pub states: Seq<ParserState>,
    /// The current state.
    pub current: ParserState,
}

impl View for ParserStateMachine {
    type V = MachineModel;

    closed spec fn view(&self) -> MachineModel {
        MachineModel { states: self.states@, current: self.current_state }
    }
}

/// Entering `s`: the current state is saved and `s` becomes current.
pub open spec fn push_spec(m: MachineModel, s: ParserState) -> MachineModel {
    MachineModel { states: m.states.push(m.current), current: s }
}

/// Leaving the current state: the last saved state becomes current and
/// the left state is returned; nothing changes when none is saved.
pub open spec fn pop_spec(m: MachineModel) -> (MachineModel, Option<ParserState>) {
    if m.states.len() > 0 {
        (MachineModel { states: m.states.drop_last(), current: m.states.last() }, Some(m.current))
    } else {
        (m, None)
    }
}

/// A flow collection state.
pub open spec fn is_flow_state(s: ParserState) -> bool {
    s is FlowSequence || s is FlowMapping
}

/// A block collection state.
pub open spec fn is_block_state(s: ParserState) -> bool {
    s is BlockSequence || s is BlockMappingKey || s is BlockMappingValue
}

impl ParserStateMachine {
    /// A machine at the stream start with nothing saved.
    pub fn new() -> (m: Self)
        ensures
            m@.states == Seq::<ParserState>::empty(),
            m@.current == ParserState::StreamStart,
    {
        ParserStateMachine { states: Vec::with_capacity(16), current_state: ParserState::StreamStart }
    }

    /// Save the current state and make `state` current.
    pub fn push_state(&mut self, state: ParserState)
        ensures
            final(self)@ == push_spec(old(self)@, state),
    {
        let cur = self.current_state;
        self.states.push(cur);
        self.current_state = state;
    }

    /// Return to the last saved state, giving back the one left; `None`
    /// and no change when nothing is saved.
    pub fn pop_state(&mut self) -> (r: Option<ParserState>)
        ensures
            (final(self)@, r) == pop_spec(old(self)@),
    {
        match self.states.pop() {
            Some(prev) => {
                let current = self.current_state;
                self.current_state = prev;
                Some(current)
            },
            None => None,
        }
    }

    /// The current state.
    pub fn current_state(&self) -> (s: &ParserState)
        ensures
            *s == self@.current,
    {
        &self.current_state
    }

    /// Replace the current state.
    pub fn set_state(&mut self, state: ParserState)
        ensures
            final(self)@.current == state,
            final(self)@.states == old(self)@.states,
    {
        self.current_state = state;
    }

    /// The number of saved states.
    pub fn depth(&self) -> (n: usize)
        ensures
            n == self@.states.len(),
    {
        self.states.len()
    }

    /// Whether the current state is in a flow collection.
    pub fn is_flow_context(&self) -> (b: bool)
        ensures
            b == is_flow_state(self@.current),
    {
        matches!(self.current_state, ParserState::FlowSequence { .. } | ParserState::FlowMapping { .. })
    }

    /// Whether the current state is in a block collection.
    pub fn is_block_context(&self) -> (b: bool)
        ensures
            b == is_block_state(self@.current),
    {
        matches!(
            self.current_state,
            ParserState::BlockSequence | ParserState::BlockMappingKey | ParserState::BlockMappingValue
        )
    }
}

impl Default for ParserStateMachine {
    /// A machine at the stream start with nothing saved.
    fn default() -> (m: Self)
        ensures
            m@.states == Seq::<ParserState>::empty(),
            m@.current == ParserState::StreamStart,
    {
        Self::new()
    }
}

/// Popping right after pushing `s` gives `s` back and restores the
/// machine.
pub proof fn lemma_pop_undoes_push(m: MachineModel, s: ParserState)
    ensures
        pop_spec(push_spec(m, s)) == (m, Some(s)),
{
    assert(m.states.push(m.current).drop_last() =~= m.states);
}

/// Pushing adds one saved state; popping a non-empty stack removes one.
pub proof fn lemma_depth_changes(m: MachineModel, s: ParserState)
    ensures
        push_spec(m, s).states.len() == m.states.len() + 1,
        m.states.len() > 0 ==> pop_spec(m).0.states.len() == m.states.len() - 1,
        m.states.len() == 0 ==> pop_spec(m).0 == m,
{
}

/// Shortcuts for building events at the start position.
pub struct EventFactory;

impl EventFactory {
    /// A factory.
    pub fn new() -> (f: Self) {
        EventFactory
    }

    /// A scalar event, implicit in both plain and quoted form.
    pub fn create_scalar(&mut self, value: String, tag: Option<String>, anchor: Option<String>, style:
        ScalarStyle) -> (e: Event)
        ensures
            e == (Event {
                event_type: EventType::Scalar {
                    anchor,
                    tag,
                    value,
                    plain_implicit: true,
                    quoted_implicit: true,
                    style,
                },
                position: Position::spec_start(),
            }),
    {
        Event::new(
            EventType::Scalar { value, tag, anchor, plain_implicit: true, quoted_implicit: true, style },
            Position::new(),
        )
    }

    /// A mapping start event.
    pub fn create_mapping_start(&mut self, tag: Option<String>, anchor: Option<String>, flow_style: bool) -> (e:
        Event)
        ensures
            e == (Event {
                event_type: EventType::MappingStart { anchor, tag, flow_style },
                position: Position::spec_start(),
            }),
    {
        Event::new(EventType::MappingStart { tag, anchor, flow_style }, Position::new())
    }

    /// A sequence start event.
    pub fn create_sequence_start(&mut self, tag: Option<String>, anchor: Option<String>, flow_style: bool) -> (e:
        Event)
        ensures
            e == (Event {
                event_type: EventType::SequenceStart { anchor, tag, flow_style },
                position: Position::spec_start(),
            }),
    {
        Event::new(EventType::SequenceStart { tag, anchor, flow_style }, Position::new())
    }

    /// An alias event.
    pub fn create_alias(&mut self, anchor: String) -> (e: Event)
        ensures
            e == (Event { event_type: EventType::Alias { anchor }, position: Position::spec_start() }),
    {
        Event::new(EventType::Alias { anchor }, Position::new())
    }
}

impl Default for EventFactory {
    /// A factory.
    fn default() -> (f: Self) {
        Self::new()
    }
}

/// A copy of an optional string.
fn copy_opt(s: &Option<String>) -> (r: Option<String>)
    ensures
        r == *s,
{
    match s {
        Some(t) => Some(t.clone()),
        None => None,
    }
}

/// A copy of a list of tag directives.
fn copy_tags(tags: &Vec<(String, String)>) -> (r: Vec<(String, String)>)
    ensures
        r@ == tags@,
{
    let mut r: Vec<(String, String)> = Vec::new();
    let mut i: usize = 0;
    while i < tags.len()
        invariant
            i <= tags@.len(),
            r@ == tags@.subrange(0, i as int),
        decreases tags@.len() - i,
    {
        let h = tags[i].0.clone();
        let p = tags[i].1.clone();
        r.push((h, p));
        proof {
            assert(tags@.subrange(0, i + 1) =~= tags@.subrange(0, i as int).push(tags@[i as int]));
        }
        i = i + 1;
    }
    proof {
        assert(tags@.subrange(0, tags@.len() as int) =~= tags@);
    }
    r
}

/// Two events are alike: the same position and kind, with the same
/// fields (tag directives compared by their contents).
pub open spec fn events_alike(a: Event, b: Event) -> bool {
    &&& a.position == b.position
    &&& match (a.event_type, b.event_type) {
        (
            EventType::DocumentStart { version: v1, tags: t1, implicit: i1 },
            EventType::DocumentStart { version: v2, tags: t2, implicit: i2 },
        ) => v1 == v2 && t1@ == t2@ && i1 == i2,
        (x, y) => x == y,
    }
}

/// A copy of an event.
pub fn copy_event(e: &Event) -> (r: Event)
    ensures
        events_alike(r, *e),
{
    let event_type = match &e.event_type {
        EventType::StreamStart => EventType::StreamStart,
        EventType::StreamEnd => EventType::StreamEnd,
        EventType::DocumentStart { version, tags, implicit } => EventType::DocumentStart {
            version: *version,
            tags: copy_tags(tags),
            implicit: *implicit,
        },
        EventType::DocumentEnd { implicit } => EventType::DocumentEnd { implicit: *implicit },
        EventType::Scalar { anchor, tag, value, plain_implicit, quoted_implicit, style } => EventType::Scalar {
            anchor: copy_opt(anchor),
            tag: copy_opt(tag),
            value: value.clone(),
            plain_implicit: *plain_implicit,
            quoted_implicit: *quoted_implicit,
            style: *style,
        },
        EventType::SequenceStart { anchor, tag, flow_style } => EventType::SequenceStart {
            anchor: copy_opt(anchor),
            tag: copy_opt(tag),
            flow_style: *flow_style,
        },
        EventType::SequenceEnd => EventType::SequenceEnd,
        EventType::MappingStart { anchor, tag, flow_style } => EventType::MappingStart {
            anchor: copy_opt(anchor),
            tag: copy_opt(tag),
            flow_style: *flow_style,
        },
        EventType::MappingEnd => EventType::MappingEnd,
        EventType::Alias { anchor } => EventType::Alias { anchor: anchor.clone() },
    };
    Event { event_type, position: e.position }
}

/// Reading a batch of up to sixteen results from `pending` meets an
/// error: some result among the first sixteen is an error, and every
/// result before it is an event other than the stream end.
pub open spec fn batch_error(pending: Seq<Result<Event>>) -> bool {
    exists|i: int|
        0 <= i < 16 && i < pending.len() && (#[trigger] pending[i]) is Err && forall|j: int|
            0 <= j < i ==> ((#[trigger] pending[j]) matches Ok(e) && !(e.event_type is StreamEnd))
}

/// Reads events from a source in batches of sixteen, handing them out one
/// at a time. The source is the sequence of results an event producer
/// yields; reading stops after the stream end or when the source runs
/// out.
pub struct LazyEventIterator {
    source: Vec<Result<Event>>,
    source_pos: usize,
    buffer: Vec<Event>,
    buffer_index: usize,
    done: bool,
}

impl LazyEventIterator {
    /// The results the source has not yet handed over.
    pub closed spec fn spec_pending(&self) -> Seq<Result<Event>> {
        self.source@.subrange(self.source_pos as int, self.source@.len() as int)
    }

    /// The events read ahead and not yet handed out.
    pub closed spec fn spec_buffered(&self) -> Seq<Event> {
        self.buffer@.subrange(self.buffer_index as int, self.buffer@.len() as int)
    }

    /// Whether the source is exhausted or the stream end has been read.
    pub closed spec fn spec_done(&self) -> bool {
        self.done
    }

    /// Consistent bookkeeping.
    pub closed spec fn wf(&self) -> bool {
        self.source_pos <= self.source@.len() && self.buffer_index <= self.buffer@.len()
    }

    /// A reader over the results of an event source.
    pub fn new(source: Vec<Result<Event>>) -> (it: Self)
        ensures
            it.wf(),
            it.spec_pending() == source@,
            it.spec_buffered() == Seq::<Event>::empty(),
            !it.spec_done(),
    {
        let it = LazyEventIterator { source, source_pos: 0, buffer: Vec::new(), buffer_index: 0, done: false };
        proof {
            assert(it.source@.subrange(0, it.source@.len() as int) =~= it.source@);
            assert(it.buffer@.subrange(0, 0) =~= Seq::<Event>::empty());
        }
        it
    }

    /// Read a fresh batch from the source into the buffer: up to sixteen
    /// results, stopping after the stream end or when the source runs out;
    /// an error the source yields on the way.
    #[verifier::rlimit(50)]
    fn read_batch(&mut self) -> (r: Result<()>)
        requires
            old(self).wf(),
            !old(self).spec_done(),
            old(self).spec_buffered().len() == 0,
        ensures
            final(self).wf(),
            r is Err <==> batch_error(old(self).spec_pending()),
            r is Ok ==> {
                let pend = old(self).spec_pending();
                let n = batch_count(pend, 0);
                &&& final(self).spec_pending() == pend.subrange(n, pend.len() as int)
                &&& final(self).spec_buffered().len() == n
                &&& forall|j: int|
                    0 <= j < n ==> (#[trigger] pend[j] matches Ok(e) && events_alike(final(self).spec_buffered()[j], e))
                &&& final(self).spec_done() == batch_finishes(pend, n)
            },
    {
        self.buffer.clear();
        self.buffer_index = 0;
        let ghost start = self.source_pos;
        let ghost pend = old(self).spec_pending();
        let mut k: usize = 0;
        while k < 16
            invariant_except_break
                forall|j: int|
                    0 <= j < self.buffer@.len() ==> (#[trigger] self.source@[start + j] matches Ok(e) && !(
                    e.event_type is StreamEnd)),
                forall|j: int|
                    0 <= j < self.buffer@.len() ==> (#[trigger] pend[j] matches Ok(e) && !(e.event_type is StreamEnd)),
                k == self.buffer@.len(),
                !self.done,
                batch_count(pend, 0) == batch_count(pend, k as int),
            invariant
                k <= self.buffer@.len() <= k + 1,
                k <= 16,
                self.wf(),
                self.buffer_index == 0,
                start == old(self).source_pos,
                start <= self.source_pos,
                self.source == old(self).source,
                pend == self.source@.subrange(start as int, self.source@.len() as int),
                self.buffer@.len() == self.source_pos - start,
                forall|j: int|
                    0 <= j < self.buffer@.len() ==> (#[trigger] self.source@[start + j] matches Ok(e) && events_alike(
                        self.buffer@[j],
                        e,
                    )),
            ensures
                self.buffer@.len() == batch_count(pend, 0),
                self.done == batch_finishes(pend, self.buffer@.len() as int),
                self.buffer@.len() == 16 || self.source_pos == self.source@.len() || (self.buffer@.len() > 0
                    && (self.source@[self.source_pos - 1] matches Ok(e) && e.event_type is StreamEnd)),
                forall|j: int|
                    0 <= j < self.buffer@.len() - 1 ==> (#[trigger] self.source@[start + j] matches Ok(e) && !(
                    e.event_type is StreamEnd)),
            decreases 16 - k,
        {
            if self.source_pos >= self.source.len() {
                self.done = true;
                break;
            }
            let item = &self.source[self.source_pos];
            match item {
                Ok(event) => {
                    let is_end = matches!(event.event_type, EventType::StreamEnd);
                    let e = copy_event(event);
                    proof {
                        assert(pend[k as int] == self.source@[start + k]);
                    }
                    self.buffer.push(e);
                    self.source_pos = self.source_pos + 1;
                    if is_end {
                        self.done = true;
                        break;
                    }
                },
                Err(err) => {
                    let e = Error { kind: err.kind, position: err.position, message: err.message.clone() };
                    proof {
                        let i = k as int;
                        assert(pend[i] == self.source@[start + i]);
                        assert forall|j: int| 0 <= j < i implies ((#[trigger] pend[j]) matches Ok(e) && !(
                        e.event_type is StreamEnd)) by {
                            assert(pend[j] == self.source@[start + j]);
                        }
                        assert(batch_error(pend));
                    }
                    self.source_pos = self.source_pos + 1;
                    return Err(e);
                },
            }
            k = k + 1;
        }
        proof {
            if batch_error(pend) {
                let i = choose|i: int|
                    0 <= i < 16 && i < pend.len() && (#[trigger] pend[i]) is Err && forall|j: int|
                        0 <= j < i ==> ((#[trigger] pend[j]) matches Ok(e) && !(e.event_type is StreamEnd));
                assert(pend[i] == self.source@[start + i]);
                if i < self.buffer@.len() {
                    assert(self.source@[start + i] is Ok);
                } else if self.buffer@.len() < 16 && self.source_pos < self.source@.len() {
                    let m = self.buffer@.len() - 1;
                    assert(pend[m] == self.source@[start + m]);
                    assert(pend[m] matches Ok(e) && !(e.event_type is StreamEnd));
                }
                assert(false);
            }
            let n = self.buffer@.len() as int;
            assert(self.spec_pending() =~= pend.subrange(n, pend.len() as int));
            assert(self.spec_buffered() =~= self.buffer@);
            assert forall|j: int| 0 <= j < n implies (#[trigger] pend[j] matches Ok(e) && events_alike(
                self.spec_buffered()[j],
                e,
            )) by {
                assert(pend[j] == self.source@[start + j]);
            }
        }
        Ok(())
    }

    /// The next event: a buffered one if any, else the first of a fresh
    /// batch read from the source; `None` once every event up to the
    /// stream end, or up to the end of the source, has been handed out; an
    /// error the source yields while a batch is read.
    pub fn next_event(&mut self) -> (r: Result<Option<Event>>)
        requires
            old(self).wf(),
        ensures
            final(self).wf(),
            old(self).spec_buffered().len() > 0 ==> (r matches Ok(Some(e)) && events_alike(
                e,
                old(self).spec_buffered()[0],
            )) && final(self).spec_buffered() == old(self).spec_buffered().drop_first()
                && final(self).spec_pending() == old(self).spec_pending() && final(self).spec_done()
                == old(self).spec_done(),
            old(self).spec_buffered().len() == 0 && old(self).spec_done() ==> r == Ok::<Option<Event>, Error>(
                None,
            ) && final(self).spec_buffered().len() == 0 && final(self).spec_done(),
            old(self).spec_buffered().len() == 0 && !old(self).spec_done() ==> {
                let pend = old(self).spec_pending();
                let n = batch_count(pend, 0);
                &&& r is Err <==> batch_error(pend)
                &&& pend.len() == 0 ==> r == Ok::<Option<Event>, Error>(None) && final(self).spec_done()
                    && final(self).spec_buffered().len() == 0
                &&& pend.len() > 0 && !batch_error(pend) ==> {
                    &&& r matches Ok(Some(e)) && (pend[0] matches Ok(first) && events_alike(e, first))
                    &&& final(self).spec_pending() == pend.subrange(n, pend.len() as int)
                    &&& final(self).spec_buffered().len() == n - 1
                    &&& forall|j: int|
                        0 <= j < n - 1 ==> (#[trigger] pend[j + 1] matches Ok(e) && events_alike(
                            final(self).spec_buffered()[j],
                            e,
                        ))
                    &&& final(self).spec_done() == batch_finishes(pend, n)
                }
            },
    {
        if self.buffer_index < self.buffer.len() {
            let event = copy_event(&self.buffer[self.buffer_index]);
            proof {
                let b = self.spec_buffered();
                assert(b[0] == self.buffer@[self.buffer_index as int]);
            }
            self.buffer_index = self.buffer_index + 1;
            proof {
                assert(self.spec_buffered() =~= old(self).spec_buffered().drop_first());
            }
            return Ok(Some(event));
        }
        if self.done {
            return Ok(None);
        }
        self.read_batch()?;
        proof {
            lemma_batch_count_bounds(old(self).spec_pending(), 0);
        }
        if self.buffer_index >= self.buffer.len() {
            Ok(None)
        } else {
            let ghost b0 = self.spec_buffered();
            let event = copy_event(&self.buffer[self.buffer_index]);
            proof {
                assert(b0[0] == self.buffer@[self.buffer_index as int]);
            }
            self.buffer_index = self.buffer_index + 1;
            proof {
                assert(self.spec_buffered() =~= b0.drop_first());
                let pend = old(self).spec_pending();
                let n = batch_count(pend, 0);
                assert forall|j: int| 0 <= j < n - 1 implies (#[trigger] pend[j + 1] matches Ok(e) && events_alike(
                    self.spec_buffered()[j],
                    e,
                )) by {
                    assert(self.spec_buffered()[j] == b0[j + 1]);
                }
            }
            Ok(Some(event))
        }
    }

    /// The next event without handing it out: a buffered one if any, else
    /// the first of a fresh batch, which stays buffered; `None` once every
    /// event has been handed out.
    pub fn peek_event(&mut self) -> (r: Result<Option<&Event>>)
        requires
            old(self).wf(),
        ensures
            final(self).wf(),
            old(self).spec_buffered().len() > 0 ==> r == Ok::<Option<&Event>, Error>(
                Some(&old(self).spec_buffered()[0]),
            ) && final(self).spec_buffered() == old(self).spec_buffered() && final(self).spec_pending()
                == old(self).spec_pending() && final(self).spec_done() == old(self).spec_done(),
            old(self).spec_buffered().len() == 0 && old(self).spec_done() ==> r == Ok::<Option<&Event>, Error>(
                None,
            ),
            old(self).spec_buffered().len() == 0 && !old(self).spec_done() ==> {
                let pend = old(self).spec_pending();
                let n = batch_count(pend, 0);
                &&& r is Err <==> batch_error(pend)
                &&& pend.len() == 0 ==> r == Ok::<Option<&Event>, Error>(None)
                &&& pend.len() > 0 && !batch_error(pend) ==> {
                    &&& r matches Ok(Some(e)) && (pend[0] matches Ok(first) && events_alike(*e, first))
                    &&& final(self).spec_pending() == pend.subrange(n, pend.len() as int)
                    &&& final(self).spec_buffered().len() == n
                    &&& forall|j: int|
                        0 <= j < n ==> (#[trigger] pend[j] matches Ok(e) && events_alike(
                            final(self).spec_buffered()[j],
                            e,
                        ))
                    &&& final(self).spec_done() == batch_finishes(pend, n)
                }
            },
            r matches Ok(Some(e)) ==> final(self).spec_buffered().len() > 0 && *e
                == final(self).spec_buffered()[0],
    {
        if self.buffer_index < self.buffer.len() {
            proof {
                assert(self.spec_buffered()[0] == self.buffer@[self.buffer_index as int]);
            }
            return Ok(Some(&self.buffer[self.buffer_index]));
        }
        if self.done {
            return Ok(None);
        }
        self.read_batch()?;
        proof {
            lemma_batch_count_bounds(old(self).spec_pending(), 0);
        }
        if self.buffer_index < self.buffer.len() {
            proof {
                assert(self.spec_buffered()[0] == self.buffer@[self.buffer_index as int]);
            }
            Ok(Some(&self.buffer[self.buffer_index]))
        } else {
            Ok(None)
        }
    }
}

/// The number of results a batch reads from `pending`, counting on from
/// `k` already read: up to sixteen, stopping after the stream end or at
/// the end of the source.
pub open spec fn batch_count(pending: Seq<Result<Event>>, k: int) -> int
    decreases 16 - k,
{
    if k >= 16 || k >= pending.len() {
        k
    } else if pending[k] matches Ok(e) && e.event_type is StreamEnd {
        k + 1
    } else {
        batch_count(pending, k + 1)
    }
}

/// Whether a batch of `n` results read from `pending` ends the reading:
/// it stopped short of sixteen (the stream end was read or the source
/// ran out), or its sixteenth result is the stream end.
pub open spec fn batch_finishes(pending: Seq<Result<Event>>, n: int) -> bool {
    n < 16 || (pending[15] matches Ok(e) && e.event_type is StreamEnd)
}

/// A batch reads at least one result from a non-empty source and never
/// more than it holds.
proof fn lemma_batch_count_bounds(pending: Seq<Result<Event>>, k: int)
    requires
        0 <= k <= 16,
        k <= pending.len(),
    ensures
        k <= batch_count(pending, k) <= pending.len(),
        batch_count(pending, k) <= 16,
        k < 16 && k < pending.len() ==> batch_count(pending, k) > k,
    decreases 16 - k,
{
    if k < 16 && k < pending.len() {
        if !(pending[k] matches Ok(e) && e.event_type is StreamEnd) {
            lemma_batch_count_bounds(pending, k + 1);
        }
    }
}

} // verus!
