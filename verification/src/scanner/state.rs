//! Scanner state management: the scanning context and its flow nesting
//! with one simple-key slot per level.

use crate::position::Position;
use vstd::prelude::*;

verus! {

/// Scanner state for different contexts.
#[derive(Debug, Clone, Copy, PartialEq, Eq, Structural)]
pub enum ScannerState {
    /// Before the stream.
    StreamStart,
    /// After the stream.
    StreamEnd,
    /// At a document start.
    DocumentStart,
    /// Inside a document.
    DocumentContent,
    /// Inside a block mapping.
    BlockMapping,
    /// Inside a block sequence.
    BlockSequence,
    /// Inside a flow mapping.
    FlowMapping,
    /// Inside a flow sequence.
    FlowSequence,
    /// In a scalar.
    Scalar,
    /// In a tag.
    Tag,
    /// In an anchor.
    Anchor,
    /// In an alias.
    Alias,
}

/// Scanner context manager.
#[derive(Debug)]
pub struct ScannerContext {
    /// Current scanner state.
    pub state: ScannerState,
    /// Flow level (0 = block context, >0 = flow context).
    pub flow_level: usize,
    /// Whether we're in a key position.
    pub in_key: bool,
    /// Whether we're in a value position.
    pub in_value: bool,
    /// Whether simple keys are allowed.
    pub allow_simple_key: bool,
    /// Stack of simple key positions, one slot per flow level.
    pub simple_keys: Vec<Option<Position>>,
}

/// The observable content of a scanner context.
pub struct ContextModel {
    /// Current scanner state.
    pub state: ScannerState,
    /// Flow level.
    pub flow_level: nat,
    /// Key position flag.
    pub in_key: bool,
    /// Value position flag.
    pub in_value: bool,
    /// Whether simple keys are allowed.
    pub allow_simple_key: bool,
    /// The simple-key slots, innermost last.
    pub simple_keys: Seq<Option<Position>>,
}

impl View for ScannerContext {
    type V = ContextModel;

    open spec fn view(&self) -> ContextModel {
        ContextModel {
            state: self.state,
            flow_level: self.flow_level as nat,
            in_key: self.in_key,
            in_value: self.in_value,
            allow_simple_key: self.allow_simple_key,
            simple_keys: self.simple_keys@,
        }
    }
}

/// The context at the start of a stream: block context, simple keys
/// allowed, one empty slot.
pub open spec fn initial_context() -> ContextModel {
    ContextModel {
        state: ScannerState::StreamStart,
        flow_level: 0,
        in_key: false,
        in_value: false,
        allow_simple_key: true,
        simple_keys: seq![None],
    }
}

/// Entering a flow collection: one level deeper, with a new empty slot.
pub open spec fn enter_flow_spec(m: ContextModel) -> ContextModel {
    ContextModel { flow_level: m.flow_level + 1, simple_keys: m.simple_keys.push(None), ..m }
}

/// Leaving a flow collection: one level up, dropping its slot; no change
/// in block context.
pub open spec fn exit_flow_spec(m: ContextModel) -> ContextModel {
    if m.flow_level > 0 {
        ContextModel {
            flow_level: (m.flow_level - 1) as nat,
            simple_keys: if m.simple_keys.len() > 0 {
                m.simple_keys.drop_last()
            } else {
                m.simple_keys
            },
            ..m
        }
    } else {
        m
    }
}

/// Setting the innermost simple-key slot, if there is one.
pub open spec fn set_slot_spec(m: ContextModel, slot: Option<Position>) -> ContextModel {
    if m.simple_keys.len() > 0 {
        ContextModel { simple_keys: m.simple_keys.update(m.simple_keys.len() - 1, slot), ..m }
    } else {
        m
    }
}

/// One slot per flow level.
pub open spec fn slots_match(m: ContextModel) -> bool {
    m.simple_keys.len() == m.flow_level + 1
}

impl ScannerContext {
    /// Create a new scanner context.
    pub fn new() -> (c: Self)
        ensures
            c@ == initial_context(),
    {
        let mut simple_keys: Vec<Option<Position>> = Vec::new();
        simple_keys.push(None);
        let c = ScannerContext {
            state: ScannerState::StreamStart,
            flow_level: 0,
            in_key: false,
            in_value: false,
            allow_simple_key: true,
            simple_keys,
        };
        proof {
            assert(c@.simple_keys =~= seq![None]);
        }
        c
    }

    /// Reset the scanner context to the start of a stream.
    pub fn reset(&mut self)
        ensures
            final(self)@ == initial_context(),
    {
        self.state = ScannerState::StreamStart;
        self.flow_level = 0;
        self.in_key = false;
        self.in_value = false;
        self.allow_simple_key = true;
        self.simple_keys.clear();
        self.simple_keys.push(None);
        proof {
            assert(self@.simple_keys =~= seq![None]);
        }
    }

    /// Whether we're in flow context.
    pub fn in_flow(&self) -> (b: bool)
        ensures
            b == (self.flow_level > 0),
    {
        self.flow_level > 0
    }

    /// Whether we're in block context.
    pub fn in_block(&self) -> (b: bool)
        ensures
            b == (self.flow_level == 0),
    {
        self.flow_level == 0
    }

    /// Enter flow context.
    pub fn enter_flow(&mut self)
        requires
            old(self).flow_level < usize::MAX,
        ensures
            final(self)@ == enter_flow_spec(old(self)@),
    {
        self.flow_level = self.flow_level + 1;
        self.simple_keys.push(None);
    }

    /// Exit flow context; nothing happens in block context.
    pub fn exit_flow(&mut self)
        ensures
            final(self)@ == exit_flow_spec(old(self)@),
    {
        if self.flow_level > 0 {
            self.flow_level = self.flow_level - 1;
            self.simple_keys.pop();
        }
    }

    /// Save a simple key position in the innermost slot.
    pub fn save_simple_key(&mut self, position: Position)
        ensures
            final(self)@ == set_slot_spec(old(self)@, Some(position)),
    {
        let n = self.simple_keys.len();
        if n > 0 {
            self.simple_keys.set(n - 1, Some(position));
        }
    }

    /// Clear the innermost simple key.
    pub fn clear_simple_key(&mut self)
        ensures
            final(self)@ == set_slot_spec(old(self)@, None),
    {
        let n = self.simple_keys.len();
        if n > 0 {
            self.simple_keys.set(n - 1, None);
        }
    }

    /// Whether a simple key is possible: simple keys are allowed and the
    /// innermost slot is free.
    pub fn simple_key_allowed(&self) -> (b: bool)
        ensures
            b == (self.allow_simple_key && self.simple_keys@.len() > 0
                && self.simple_keys@.last() is None),
    {
        let n = self.simple_keys.len();
        self.allow_simple_key && n > 0 && self.simple_keys[n - 1].is_none()
    }
}

impl Default for ScannerContext {
    /// The context at the start of a stream.
    fn default() -> (c: Self)
        ensures
            c@ == initial_context(),
    {
        Self::new()
    }
}

/// Leaving a flow collection undoes entering it.
pub proof fn lemma_exit_undoes_enter(m: ContextModel)
    ensures
        exit_flow_spec(enter_flow_spec(m)) == m,
{
    assert(m.simple_keys.push(None).drop_last() =~= m.simple_keys);
}

/// Entering and leaving flow collections keeps one simple-key slot per
/// flow level.
pub proof fn lemma_flow_keeps_slots(m: ContextModel)
    requires
        slots_match(m),
    ensures
        slots_match(enter_flow_spec(m)),
        slots_match(exit_flow_spec(m)),
        slots_match(set_slot_spec(m, None)),
{
}

/// A fresh context has one slot for its block level.
pub proof fn lemma_initial_slots()
    ensures
        slots_match(initial_context()),
{
}

} // verus!
