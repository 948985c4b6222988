//! A composer that builds [`OptimizedValue`]s from the events of a YAML
//! stream, keeping anchored values behind `Rc` so that every alias is a
//! cheap shared copy.

use crate::error::{Error, ErrorKind, Result};
use crate::numbers::{spec_is_int, spec_int_value, spec_is_float, eq_ignore_case, parse_i64, is_float_text, text_eq_ignore_case};
use crate::optimized::{OptimizedValue, same_opt, lacks_opt_key, insert_pair, insert_all, share};
use crate::parser::{Event, EventType, ScalarStyle};
use crate::parser::parse::{parse_events, nesting};
use crate::position::Position;
use crate::roundtrip::skip_starts;
use crate::scanner::tokenize::scan_tokens;
use crate::text::{push_str, str_eq, usize_to_decimal};
use std::rc::Rc;
use vstd::prelude::*;

verus! {

// ---------------------------------------------------------------------
// Scalars
// ---------------------------------------------------------------------

/// `v` is the string `text`.
pub open spec fn is_opt_string(v: OptimizedValue, text: Seq<char>) -> bool {
    v matches OptimizedValue::String(s) && (*s)@ == text
}

/// `true`, `yes` or `on`, in any case.
pub open spec fn is_true_word(t: Seq<char>) -> bool {
    eq_ignore_case(t, "true"@) || eq_ignore_case(t, "yes"@) || eq_ignore_case(t, "on"@)
}

/// `false`, `no` or `off`, in any case.
pub open spec fn is_false_word(t: Seq<char>) -> bool {
    eq_ignore_case(t, "false"@) || eq_ignore_case(t, "no"@) || eq_ignore_case(t, "off"@)
}

/// `null`, in any case, or `~`.
pub open spec fn is_null_word(t: Seq<char>) -> bool {
    eq_ignore_case(t, "null"@) || t == "~"@
}

/// The value a scalar composes to. Quoted text and empty text stay
/// strings. Other text is, in this order of preference, a 64-bit
/// integer, a float, `true`, `false` or null where it spells one, and
/// otherwise a string.
pub open spec fn optimized_scalar(v: OptimizedValue, text: Seq<char>, style: ScalarStyle) -> bool {
    if style == ScalarStyle::SingleQuoted || style == ScalarStyle::DoubleQuoted || text.len() == 0 {
        is_opt_string(v, text)
    } else if spec_is_int(text) {
        v == OptimizedValue::Int(spec_int_value(text) as i64)
    } else if spec_is_float(text) {
        v matches OptimizedValue::Float(t) && t@ == text
    } else if is_true_word(text) {
        v == OptimizedValue::Bool(true)
    } else if is_false_word(text) {
        v == OptimizedValue::Bool(false)
    } else if is_null_word(text) {
        v == OptimizedValue::Null
    } else {
        is_opt_string(v, text)
    }
}

// ---------------------------------------------------------------------
// Keys
// ---------------------------------------------------------------------

/// No two entries have keys that are the same value.
pub open spec fn distinct_opt_keys(es: Seq<(OptimizedValue, OptimizedValue)>) -> bool {
    forall|i: int, j: int| 0 <= i < j < es.len() ==> !same_opt(#[trigger] es[i].0, #[trigger] es[j].0)
}

/// Every mapping inside the value, at any depth, has distinct keys.
pub open spec fn opt_well_keyed(v: OptimizedValue) -> bool
    decreases v,
{
    match v {
        OptimizedValue::Sequence(xs) => forall|i: int|
            0 <= i < (*xs)@.len() ==> opt_well_keyed(#[trigger] (*xs)@[i]),
        OptimizedValue::Mapping(es) => distinct_opt_keys((*es)@) && forall|i: int|
            0 <= i < (*es)@.len() ==> opt_well_keyed((#[trigger] (*es)@[i]).0) && opt_well_keyed((*es)@[i].1),
        _ => true,
    }
}

/// Every key and value of the entries is well keyed.
pub open spec fn entries_opt_keyed(es: Seq<(OptimizedValue, OptimizedValue)>) -> bool {
    forall|i: int| 0 <= i < es.len() ==> opt_well_keyed((#[trigger] es[i]).0) && opt_well_keyed(es[i].1)
}

/// Whether a key is the merge key `<<`.
pub open spec fn is_merge_key(k: OptimizedValue) -> bool {
    is_opt_string(k, "<<"@)
}

/// The entries after merging in each pair in turn: a pair whose key is
/// already present is dropped, any other is appended.
pub open spec fn merge_all(
    es: Seq<(OptimizedValue, OptimizedValue)>,
    pairs: Seq<(OptimizedValue, OptimizedValue)>,
) -> Seq<(OptimizedValue, OptimizedValue)>
    decreases pairs.len(),
{
    if pairs.len() == 0 {
        es
    } else {
        let prev = merge_all(es, pairs.drop_last());
        if lacks_opt_key(prev, pairs.last().0) {
            prev.push(pairs.last())
        } else {
            prev
        }
    }
}

/// The entries after merging in the entries of each mapping of `srcs`
/// in turn; items that are not mappings contribute nothing.
pub open spec fn merge_sources(
    es: Seq<(OptimizedValue, OptimizedValue)>,
    srcs: Seq<OptimizedValue>,
) -> Seq<(OptimizedValue, OptimizedValue)>
    decreases srcs.len(),
{
    if srcs.len() == 0 {
        es
    } else {
        let prev = merge_sources(es, srcs.drop_last());
        match srcs.last() {
            OptimizedValue::Mapping(m) => merge_all(prev, (*m)@),
            _ => prev,
        }
    }
}

/// Merging keeps every entry already present, in place and unchanged:
/// a merge key never overrides a key that the mapping already has.
pub proof fn lemma_merge_keeps_existing(
    es: Seq<(OptimizedValue, OptimizedValue)>,
    pairs: Seq<(OptimizedValue, OptimizedValue)>,
)
    ensures
        merge_all(es, pairs).len() >= es.len(),
        forall|i: int| 0 <= i < es.len() ==> #[trigger] merge_all(es, pairs)[i] == es[i],
    decreases pairs.len(),
{
    if pairs.len() > 0 {
        lemma_merge_keeps_existing(es, pairs.drop_last());
    }
}

/// Merging keeps keys distinct and entries well keyed.
pub proof fn lemma_merge_keeps_keys(
    es: Seq<(OptimizedValue, OptimizedValue)>,
    pairs: Seq<(OptimizedValue, OptimizedValue)>,
)
    requires
        distinct_opt_keys(es),
        entries_opt_keyed(es),
        entries_opt_keyed(pairs),
    ensures
        distinct_opt_keys(merge_all(es, pairs)),
        entries_opt_keyed(merge_all(es, pairs)),
    decreases pairs.len(),
{
    if pairs.len() > 0 {
        let rest = pairs.drop_last();
        assert(entries_opt_keyed(rest)) by {
            assert forall|i: int| 0 <= i < rest.len() implies opt_well_keyed((#[trigger] rest[i]).0)
                && opt_well_keyed(rest[i].1) by {
                assert(rest[i] == pairs[i]);
            }
        }
        lemma_merge_keeps_keys(es, rest);
        let prev = merge_all(es, rest);
        let p = pairs.last();
        assert(opt_well_keyed(pairs[pairs.len() - 1].0) && opt_well_keyed(pairs[pairs.len() - 1].1));
        if lacks_opt_key(prev, p.0) {
            let next = prev.push(p);
            assert forall|i: int, j: int| 0 <= i < j < next.len() implies !same_opt(
                #[trigger] next[i].0,
                #[trigger] next[j].0,
            ) by {
                if j == prev.len() {
                    assert(!same_opt(prev[i].0, p.0));
                } else {
                    assert(next[i] == prev[i] && next[j] == prev[j]);
                }
            }
            assert forall|i: int| 0 <= i < next.len() implies opt_well_keyed((#[trigger] next[i]).0)
                && opt_well_keyed(next[i].1) by {
                if i < prev.len() {
                    assert(next[i] == prev[i]);
                }
            }
        }
    }
}

// ---------------------------------------------------------------------
// Structure depth
// ---------------------------------------------------------------------

/// Whether the value spans at most `d` levels: a scalar or an empty
/// collection spans one level, a sequence one more than its items, a
/// mapping one more than its values.
pub open spec fn fits_depth(v: OptimizedValue, d: int) -> bool
    decreases v,
{
    d >= 1 && match v {
        OptimizedValue::Sequence(xs) => forall|i: int|
            0 <= i < (*xs)@.len() ==> fits_depth(#[trigger] (*xs)@[i], d - 1),
        OptimizedValue::Mapping(es) => forall|i: int|
            0 <= i < (*es)@.len() ==> fits_depth((#[trigger] (*es)@[i]).1, d - 1),
        _ => true,
    }
}

/// A value that fits in `d` levels fits in more.
pub proof fn lemma_fits_depth_mono(v: OptimizedValue, d: int, e: int)
    requires
        fits_depth(v, d),
        d <= e,
    ensures
        fits_depth(v, e),
    decreases v,
{
    match v {
        OptimizedValue::Sequence(xs) => {
            assert forall|i: int| 0 <= i < (*xs)@.len() implies fits_depth(#[trigger] (*xs)@[i], e - 1) by {
                assert(decreases_to!(v => (*xs)@[i]));
                lemma_fits_depth_mono((*xs)@[i], d - 1, e - 1);
            }
        },
        OptimizedValue::Mapping(es) => {
            assert forall|i: int| 0 <= i < (*es)@.len() implies fits_depth((#[trigger] (*es)@[i]).1, e - 1) by {
                assert(decreases_to!(v => (*es)@[i].1));
                lemma_fits_depth_mono((*es)@[i].1, d - 1, e - 1);
            }
        },
        _ => {},
    }
}

/// The number of levels a value spans (see [`fits_depth`]); a depth that
/// does not fit in `usize` is reported as `usize::MAX`.
#[verifier::loop_isolation(false)]
pub fn calculate_optimized_structure_depth(value: &OptimizedValue) -> (d: usize)
    ensures
        1 <= d,
        d < usize::MAX ==> fits_depth(*value, d as int) && !fits_depth(*value, d - 1),
        d == usize::MAX ==> !fits_depth(*value, usize::MAX - 1),
    decreases value,
{
    match value {
        OptimizedValue::Sequence(items) => {
            let xs: &Vec<OptimizedValue> = &**items;
            if xs.len() == 0 {
                return 1;
            }
            let mut m: usize = 0;
            let ghost mut k: int = 0;
            let mut i: usize = 0;
            while i < xs.len()
                invariant
                    i <= xs@.len(),
                    i == 0 ==> m == 0,
                    i > 0 ==> 1 <= m && 0 <= k < i && !fits_depth(xs@[k], m - 1),
                    forall|j: int| 0 <= j < i && m < usize::MAX ==> fits_depth(#[trigger] xs@[j], m as int),
                decreases xs@.len() - i,
            {
                proof {
                    assert(decreases_to!(*xs => xs@));
                    assert(decreases_to!(xs@ => xs@[i as int]));
                }
                let c = calculate_optimized_structure_depth(&xs[i]);
                if c > m {
                    proof {
                        assert forall|j: int| 0 <= j < i && c < usize::MAX implies fits_depth(
                            #[trigger] xs@[j],
                            c as int,
                        ) by {
                            lemma_fits_depth_mono(xs@[j], m as int, c as int);
                        }
                        k = i as int;
                    }
                    m = c;
                } else {
                    proof {
                        if m < usize::MAX {
                            lemma_fits_depth_mono(xs@[i as int], c as int, m as int);
                        }
                    }
                }
                i = i + 1;
            }
            proof {
                if fits_depth(*value, m as int) {
                    assert(fits_depth(xs@[k], m - 1));
                }
                if m == usize::MAX && fits_depth(*value, usize::MAX - 1) {
                    assert(fits_depth(xs@[k], usize::MAX - 2));
                    lemma_fits_depth_mono(xs@[k], usize::MAX - 2, usize::MAX - 1);
                }
            }
            if m == usize::MAX {
                usize::MAX
            } else {
                m + 1
            }
        },
        OptimizedValue::Mapping(entries) => {
            let es: &Vec<(OptimizedValue, OptimizedValue)> = &**entries;
            if es.len() == 0 {
                return 1;
            }
            let mut m: usize = 0;
            let ghost mut k: int = 0;
            let mut i: usize = 0;
            while i < es.len()
                invariant
                    i <= es@.len(),
                    i == 0 ==> m == 0,
                    i > 0 ==> 1 <= m && 0 <= k < i && !fits_depth(es@[k].1, m - 1),
                    forall|j: int| 0 <= j < i && m < usize::MAX ==> fits_depth((#[trigger] es@[j]).1, m as int),
                decreases es@.len() - i,
            {
                proof {
                    assert(decreases_to!(*es => es@));
                    assert(decreases_to!(es@ => es@[i as int]));
                    assert(decreases_to!(es@[i as int] => es@[i as int].1));
                }
                let c = calculate_optimized_structure_depth(&es[i].1);
                if c > m {
                    proof {
                        assert forall|j: int| 0 <= j < i && c < usize::MAX implies fits_depth(
                            (#[trigger] es@[j]).1,
                            c as int,
                        ) by {
                            lemma_fits_depth_mono(es@[j].1, m as int, c as int);
                        }
                        k = i as int;
                    }
                    m = c;
                } else {
                    proof {
                        if m < usize::MAX {
                            lemma_fits_depth_mono(es@[i as int].1, c as int, m as int);
                        }
                    }
                }
                i = i + 1;
            }
            proof {
                if fits_depth(*value, m as int) {
                    assert(fits_depth(es@[k].1, m - 1));
                }
                if m == usize::MAX && fits_depth(*value, usize::MAX - 1) {
                    assert(fits_depth(es@[k].1, usize::MAX - 2));
                    lemma_fits_depth_mono(es@[k].1, usize::MAX - 2, usize::MAX - 1);
                }
            }
            if m == usize::MAX {
                usize::MAX
            } else {
                m + 1
            }
        },
        _ => 1,
    }
}

// ---------------------------------------------------------------------
// Complexity
// ---------------------------------------------------------------------

/// A value's complexity score: one for the value itself, plus, for a
/// sequence, one per item and each item's score, and for a mapping, two
/// per entry and the scores of every key and value.
pub open spec fn complexity(v: OptimizedValue) -> nat
    decreases v, 1int,
{
    match v {
        OptimizedValue::Sequence(xs) => 1 + (*xs)@.len() + items_complexity((*xs)@),
        OptimizedValue::Mapping(es) => 1 + 2 * (*es)@.len() + entries_complexity((*es)@),
        _ => 1,
    }
}

/// The sum of the items' scores.
pub open spec fn items_complexity(xs: Seq<OptimizedValue>) -> nat
    decreases xs, 0int,
{
    if xs.len() == 0 {
        0
    } else {
        items_complexity(xs.drop_last()) + complexity(xs.last())
    }
}

/// The sum of the scores of every key and value.
pub open spec fn entries_complexity(es: Seq<(OptimizedValue, OptimizedValue)>) -> nat
    decreases es, 0int,
{
    if es.len() == 0 {
        0
    } else {
        entries_complexity(es.drop_last()) + complexity(es.last().0) + complexity(es.last().1)
    }
}

/// `n`, or `usize::MAX` where it does not fit.
pub open spec fn saturated(n: int) -> usize {
    if n > usize::MAX {
        usize::MAX
    } else {
        n as usize
    }
}

/// The complexity score of a value (see [`complexity`]), saturating at
/// `usize::MAX`.
#[verifier::loop_isolation(false)]
pub fn calculate_complexity(value: &OptimizedValue) -> (r: Result<usize>)
    ensures
        r matches Ok(c) && c == saturated(complexity(*value) as int),
    decreases value,
{
    let mut score: usize = 1;
    match value {
        OptimizedValue::Sequence(items) => {
            let xs: &Vec<OptimizedValue> = &**items;
            score = score.saturating_add(xs.len());
            let mut i: usize = 0;
            proof {
                assert(xs@.subrange(0, 0) =~= Seq::<OptimizedValue>::empty());
            }
            while i < xs.len()
                invariant
                    i <= xs@.len(),
                    score == saturated((1 + xs@.len() + items_complexity(xs@.subrange(0, i as int))) as int),
                decreases xs@.len() - i,
            {
                proof {
                    assert(decreases_to!(*xs => xs@));
                    assert(decreases_to!(xs@ => xs@[i as int]));
                    let pre = xs@.subrange(0, i + 1);
                    assert(pre.drop_last() =~= xs@.subrange(0, i as int));
                    assert(pre.last() == xs@[i as int]);
                }
                let c = calculate_complexity(&xs[i])?;
                score = score.saturating_add(c);
                i = i + 1;
            }
            proof {
                assert(xs@.subrange(0, xs@.len() as int) =~= xs@);
            }
        },
        OptimizedValue::Mapping(entries) => {
            let es: &Vec<(OptimizedValue, OptimizedValue)> = &**entries;
            let doubled = match es.len().checked_mul(2) {
                Some(d) => d,
                None => usize::MAX,
            };
            score = score.saturating_add(doubled);
            let mut i: usize = 0;
            proof {
                assert(es@.subrange(0, 0) =~= Seq::<(OptimizedValue, OptimizedValue)>::empty());
            }
            while i < es.len()
                invariant
                    i <= es@.len(),
                    score == saturated((1 + 2 * es@.len() + entries_complexity(es@.subrange(0, i as int))) as int),
                decreases es@.len() - i,
            {
                proof {
                    assert(decreases_to!(*es => es@));
                    assert(decreases_to!(es@ => es@[i as int]));
                    assert(decreases_to!(es@[i as int] => es@[i as int].0));
                    assert(decreases_to!(es@[i as int] => es@[i as int].1));
                    let pre = es@.subrange(0, i + 1);
                    assert(pre.drop_last() =~= es@.subrange(0, i as int));
                    assert(pre.last() == es@[i as int]);
                }
                let ck = calculate_complexity(&es[i].0)?;
                score = score.saturating_add(ck);
                let cv = calculate_complexity(&es[i].1)?;
                score = score.saturating_add(cv);
                i = i + 1;
            }
            proof {
                assert(es@.subrange(0, es@.len() as int) =~= es@);
            }
        },
        _ => {},
    }
    Ok(score)
}

// ---------------------------------------------------------------------
// The composer
// ---------------------------------------------------------------------

/// The shape of a parsed stream: it opens with the stream start, closes
/// with the stream end, and closes every collection it opens.
pub open spec fn stream_shaped(events: Seq<Event>) -> bool {
    &&& events.len() >= 2
    &&& events[0].event_type is StreamStart
    &&& events.last().event_type is StreamEnd
    &&& nesting(events) == 0
}

/// Bounds on alias expansion.
#[derive(Debug, Clone, Copy, PartialEq, Eq, Structural)]
pub struct Limits {
    /// The deepest structure an alias may stand for (see [`fits_depth`]),
    /// and the most alias expansions that may be in progress at once.
    pub max_alias_depth: usize,
}

/// A composer that builds one document's value at a time.
pub trait OptimizedComposer {
    /// The composer's own consistency condition.
    spec fn wf(&self) -> bool;

    /// Whether another document follows.
    fn check_document(&self) -> bool;

    /// Compose the next document; `None` once the stream is exhausted.
    fn compose_document(&mut self) -> (r: Result<Option<OptimizedValue>>)
        requires
            old(self).wf(),
        ensures
            final(self).wf(),
    ;

    /// The position of the last event read.
    fn position(&self) -> Position;

    /// Forget anchors and alias state and start over at the current place
    /// of the stream.
    fn reset(&mut self)
        requires
            old(self).wf(),
        ensures
            final(self).wf(),
    ;
}

/// The anchored value last recorded under `name`.
pub open spec fn anchored(anchors: Seq<(String, Rc<OptimizedValue>)>, name: Seq<char>) -> Option<
    OptimizedValue,
>
    decreases anchors.len(),
{
    if anchors.len() == 0 {
        None
    } else if anchors.last().0@ == name {
        Some(*anchors.last().1)
    } else {
        anchored(anchors.drop_last(), name)
    }
}

/// Every anchored value is well keyed.
pub open spec fn anchors_opt_keyed(anchors: Seq<(String, Rc<OptimizedValue>)>) -> bool {
    forall|i: int| 0 <= i < anchors.len() ==> opt_well_keyed(*(#[trigger] anchors[i]).1)
}

/// Whether an alias of `name` is being expanded.
pub open spec fn in_expansion(stack: Seq<String>, name: Seq<char>) -> bool {
    exists|i: int| 0 <= i < stack.len() && (#[trigger] stack[i])@ == name
}

/// `after` is `before` with `v` recorded under the anchor, if there is one.
pub open spec fn recorded(
    before: Seq<(String, Rc<OptimizedValue>)>,
    after: Seq<(String, Rc<OptimizedValue>)>,
    anchor: Option<String>,
    v: OptimizedValue,
) -> bool {
    match anchor {
        None => after == before,
        Some(name) => {
            &&& after.len() == before.len() + 1
            &&& after.drop_last() == before
            &&& after.last().0 == name
            &&& *after.last().1 == v
        },
    }
}

/// An anchored node names its value from then on.
pub open spec fn names_value(anchors: Seq<(String, Rc<OptimizedValue>)>, anchor: Option<String>, v: OptimizedValue) -> bool {
    anchor matches Some(name) ==> anchored(anchors, name@) == Some(v)
}

/// What an alias of `name` composes to: an error while an alias of the
/// same name is being expanded, when as many expansions as the bound
/// allows are in progress, for an unknown anchor, or when the anchored
/// value is deeper than the bound; otherwise the anchored value.
pub open spec fn alias_outcome(
    stack: Seq<String>,
    anchors: Seq<(String, Rc<OptimizedValue>)>,
    limits: Limits,
    name: Seq<char>,
    r: Result<Option<OptimizedValue>>,
) -> bool {
    if in_expansion(stack, name) || stack.len() >= limits.max_alias_depth {
        r is Err
    } else {
        match anchored(anchors, name) {
            None => r is Err,
            Some(v) => {
                &&& fits_depth(v, limits.max_alias_depth as int) ==> r == Ok::<Option<OptimizedValue>, Error>(
                    Some(v),
                )
                &&& !fits_depth(v, limits.max_alias_depth as int) && limits.max_alias_depth < usize::MAX ==> r is Err
            },
        }
    }
}

/// A composer over the events of a whole stream, with anchored values
/// kept behind `Rc`.
pub struct ReducedAllocComposer {
    /// The events of the stream.
    pub events: Vec<Event>,
    /// The index of the next event.
    pub cursor: usize,
    /// The error that scanning or parsing the input stopped at, until it
    /// is reported.
    pub scanning_error: Option<Error>,
    /// The position of the last event read.
    pub position: Position,
    /// Anchored values, latest definition last.
    pub anchors: Vec<(String, Rc<OptimizedValue>)>,
    /// Bounds on alias expansion.
    pub limits: Limits,
    /// The aliases being expanded.
    pub alias_expansion_stack: Vec<String>,
    /// How many collections are open.
    pub current_depth: usize,
}

/// What the composer does with one event.
enum Step {
    /// Stream and document starts and the stream end: go on to the next
    /// event.
    Skip,
    /// The end of a document or of a collection: no node here.
    Stop,
    /// A scalar: its text, anchor and style.
    Scalar(String, Option<String>, ScalarStyle),
    /// A sequence start, with its anchor.
    Sequence(Option<String>),
    /// A mapping start, with its anchor.
    Mapping(Option<String>),
    /// An alias of the named anchor.
    Alias(String),
}

/// A copy of an optional name.
fn copy_name(o: &Option<String>) -> (r: Option<String>)
    ensures
        r == *o,
{
    match o {
        Some(s) => Some(s.clone()),
        None => None,
    }
}

/// The step an event calls for, with the data it needs.
fn step_of(e: &EventType) -> (s: Step)
    ensures
        match *e {
            EventType::StreamStart | EventType::StreamEnd | EventType::DocumentStart { .. } => s is Skip,
            EventType::DocumentEnd { .. } | EventType::SequenceEnd | EventType::MappingEnd => s is Stop,
            EventType::Scalar { value, anchor, style, .. } => s == Step::Scalar(value, anchor, style),
            EventType::SequenceStart { anchor, .. } => s == Step::Sequence(anchor),
            EventType::MappingStart { anchor, .. } => s == Step::Mapping(anchor),
            EventType::Alias { anchor } => s == Step::Alias(anchor),
        },
{
    match e {
        EventType::StreamStart | EventType::StreamEnd | EventType::DocumentStart { .. } => Step::Skip,
        EventType::DocumentEnd { .. } | EventType::SequenceEnd | EventType::MappingEnd => Step::Stop,
        EventType::Scalar { value, anchor, style, .. } => Step::Scalar(value.clone(), copy_name(anchor), *style),
        EventType::SequenceStart { anchor, .. } => Step::Sequence(copy_name(anchor)),
        EventType::MappingStart { anchor, .. } => Step::Mapping(copy_name(anchor)),
        EventType::Alias { anchor } => Step::Alias(anchor.clone()),
    }
}

/// Whether a key is the merge key `<<`.
fn key_is_merge(k: &OptimizedValue) -> (b: bool)
    ensures
        b == is_merge_key(*k),
{
    match k {
        OptimizedValue::String(s) => str_eq((**s).as_str(), "<<"),
        _ => false,
    }
}

/// Whether some entry has a key that is the same value as `k`.
fn has_key(es: &Vec<(OptimizedValue, OptimizedValue)>, k: &OptimizedValue) -> (b: bool)
    ensures
        b == !lacks_opt_key(es@, *k),
{
    let mut i: usize = 0;
    while i < es.len()
        invariant
            i <= es@.len(),
            forall|j: int| 0 <= j < i ==> !same_opt(#[trigger] es@[j].0, *k),
        decreases es@.len() - i,
    {
        if crate::optimized::opt_eq(&es[i].0, k) {
            return true;
        }
        i = i + 1;
    }
    false
}

/// Merge the entries of `src` into `es`, keeping every key already present.
fn merge_entries(es: &mut Vec<(OptimizedValue, OptimizedValue)>, src: &Vec<(OptimizedValue, OptimizedValue)>)
    ensures
        final(es)@ == merge_all(old(es)@, src@),
{
    let ghost start = es@;
    let mut i: usize = 0;
    proof {
        assert(src@.subrange(0, 0) =~= Seq::<(OptimizedValue, OptimizedValue)>::empty());
    }
    while i < src.len()
        invariant
            i <= src@.len(),
            start == old(es)@,
            es@ == merge_all(start, src@.subrange(0, i as int)),
        decreases src@.len() - i,
    {
        proof {
            let pre = src@.subrange(0, i + 1);
            assert(pre.drop_last() =~= src@.subrange(0, i as int));
            assert(pre.last() == src@[i as int]);
        }
        if !has_key(es, &src[i].0) {
            let k = share(&src[i].0);
            let v = share(&src[i].1);
            es.push((k, v));
        }
        i = i + 1;
    }
    proof {
        assert(src@.subrange(0, src@.len() as int) =~= src@);
    }
}

/// Merging the mappings of `srcs` keeps keys distinct and entries well
/// keyed, when every source is well keyed.
proof fn lemma_merge_sources_keeps_keys(es: Seq<(OptimizedValue, OptimizedValue)>, srcs: Seq<OptimizedValue>)
    requires
        distinct_opt_keys(es),
        entries_opt_keyed(es),
        forall|i: int| 0 <= i < srcs.len() ==> opt_well_keyed(#[trigger] srcs[i]),
    ensures
        distinct_opt_keys(merge_sources(es, srcs)),
        entries_opt_keyed(merge_sources(es, srcs)),
    decreases srcs.len(),
{
    if srcs.len() > 0 {
        let rest = srcs.drop_last();
        assert forall|i: int| 0 <= i < rest.len() implies opt_well_keyed(#[trigger] rest[i]) by {
            assert(rest[i] == srcs[i]);
        }
        lemma_merge_sources_keeps_keys(es, rest);
        let last = srcs[srcs.len() - 1];
        assert(opt_well_keyed(last));
        if let OptimizedValue::Mapping(m) = last {
            lemma_merge_keeps_keys(merge_sources(es, rest), (*m)@);
        }
    }
}

/// A value anchored in well-keyed anchors is well keyed.
proof fn lemma_anchored_keyed(anchors: Seq<(String, Rc<OptimizedValue>)>, name: Seq<char>)
    requires
        anchors_opt_keyed(anchors),
    ensures
        anchored(anchors, name) matches Some(v) ==> opt_well_keyed(v),
    decreases anchors.len(),
{
    if anchors.len() > 0 {
        let rest = anchors.drop_last();
        assert forall|i: int| 0 <= i < rest.len() implies opt_well_keyed(*(#[trigger] rest[i]).1) by {
            assert(rest[i] == anchors[i]);
        }
        assert(opt_well_keyed(*anchors[anchors.len() - 1].1));
        lemma_anchored_keyed(rest, name);
    }
}

impl ReducedAllocComposer {
    /// The cursor stays within the events, no more collections are open
    /// than start events were read, and every anchored value is well keyed.
    pub open spec fn inv(&self) -> bool {
        &&& self.cursor <= self.events@.len()
        &&& self.current_depth <= self.cursor
        &&& anchors_opt_keyed(self.anchors@)
    }

    /// A composer for `input` with no bound on alias expansion.
    pub fn new(input: String) -> (c: Self)
        ensures
            c.inv(),
            c.limits.max_alias_depth == usize::MAX,
            c.cursor == 0,
            c.anchors@.len() == 0,
            c.alias_expansion_stack@.len() == 0,
            c.current_depth == 0,
            c.position == Position::spec_start(),
            c.scanning_error is Some <==> c.events@.len() == 0,
            c.scanning_error is None ==> stream_shaped(c.events@),
    {
        Self::with_limits(input, Limits { max_alias_depth: usize::MAX })
    }

    /// A composer for `input` whose alias expansion is bounded by `limits`.
    /// The input is scanned and parsed up front; an error doing so is
    /// reported by the first [`OptimizedComposer::compose_document`].
    pub fn with_limits(input: String, limits: Limits) -> (c: Self)
        ensures
            c.inv(),
            c.limits == limits,
            c.cursor == 0,
            c.anchors@.len() == 0,
            c.alias_expansion_stack@.len() == 0,
            c.current_depth == 0,
            c.position == Position::spec_start(),
            c.scanning_error is Some <==> c.events@.len() == 0,
            c.scanning_error is None ==> stream_shaped(c.events@),
    {
        let (events, scanning_error) = match scan_tokens(input.as_str()) {
            Ok(tokens) => match parse_events(tokens.as_slice()) {
                Ok(events) => (events, None),
                Err(e) => (Vec::new(), Some(e)),
            },
            Err(e) => (Vec::new(), Some(e)),
        };
        ReducedAllocComposer {
            events,
            cursor: 0,
            scanning_error,
            position: Position::new(),
            anchors: Vec::new(),
            limits,
            alias_expansion_stack: Vec::new(),
            current_depth: 0,
        }
    }

    /// The value of a scalar with text `value` and style `style` (see
    /// [`optimized_scalar`]).
    pub fn compose_scalar_optimized(&self, value: &str, style: ScalarStyle) -> (r: Result<OptimizedValue>)
        ensures
            r matches Ok(v) && optimized_scalar(v, value@, style),
    {
        if matches!(style, ScalarStyle::SingleQuoted) || matches!(style, ScalarStyle::DoubleQuoted) {
            return Ok(OptimizedValue::string(value.to_owned()));
        }
        proof {
            reveal_strlit("");
        }
        if str_eq(value, "") {
            return Ok(OptimizedValue::string(value.to_owned()));
        }
        proof {
            assert(value@.len() != 0) by {
                if value@.len() == 0 {
                    assert(value@ =~= ""@);
                }
            }
        }
        if let Some(n) = parse_i64(value) {
            return Ok(OptimizedValue::Int(n));
        }
        if is_float_text(value) {
            return Ok(OptimizedValue::Float(value.to_owned()));
        }
        if text_eq_ignore_case(value, "true") || text_eq_ignore_case(value, "yes") || text_eq_ignore_case(value, "on") {
            return Ok(OptimizedValue::Bool(true));
        }
        if text_eq_ignore_case(value, "false") || text_eq_ignore_case(value, "no") || text_eq_ignore_case(value, "off") {
            return Ok(OptimizedValue::Bool(false));
        }
        if text_eq_ignore_case(value, "null") || str_eq(value, "~") {
            return Ok(OptimizedValue::Null);
        }
        Ok(OptimizedValue::string(value.to_owned()))
    }

    /// The value last anchored under `name`, shared.
    fn find_anchor(&self, name: &str) -> (r: Option<OptimizedValue>)
        ensures
            r == anchored(self.anchors@, name@),
    {
        let mut i = self.anchors.len();
        proof {
            assert(self.anchors@.subrange(0, i as int) =~= self.anchors@);
        }
        while i > 0
            invariant
                i <= self.anchors@.len(),
                anchored(self.anchors@, name@) == anchored(self.anchors@.subrange(0, i as int), name@),
            decreases i,
        {
            proof {
                let pre = self.anchors@.subrange(0, i as int);
                assert(pre.drop_last() =~= self.anchors@.subrange(0, i - 1));
                assert(pre.last() == self.anchors@[i - 1]);
            }
            if str_eq(self.anchors[i - 1].0.as_str(), name) {
                return Some(share(&*self.anchors[i - 1].1));
            }
            i = i - 1;
        }
        None
    }

    /// Whether an alias of `name` is being expanded.
    fn expanding(&self, name: &str) -> (b: bool)
        ensures
            b == in_expansion(self.alias_expansion_stack@, name@),
    {
        let mut i: usize = 0;
        while i < self.alias_expansion_stack.len()
            invariant
                i <= self.alias_expansion_stack@.len(),
                forall|j: int| 0 <= j < i ==> (#[trigger] self.alias_expansion_stack@[j])@ != name@,
            decreases self.alias_expansion_stack@.len() - i,
        {
            if str_eq(self.alias_expansion_stack[i].as_str(), name) {
                return true;
            }
            i = i + 1;
        }
        false
    }
}

/// What composing the node that starts with event `e` does, from
/// composer state `before` to `after`, with result `r`.
///
/// A scalar composes to its typed value ([`optimized_scalar`]) and is
/// recorded under its anchor; a document, sequence or mapping end is no
/// node; an alias composes as [`alias_outcome`] says; a sequence or
/// mapping start composes to a sequence or mapping, which its anchor
/// then names; a mapping that opens with a merge of an anchored mapping
/// ([`leading_merge`]) begins with that mapping's keys. Stream and document starts and the stream end are passed
/// over to the next event.
pub open spec fn node_step(
    e: EventType,
    before: ReducedAllocComposer,
    after: ReducedAllocComposer,
    r: Result<Option<OptimizedValue>>,
) -> bool {
    match e {
        EventType::Scalar { value, anchor, style, .. } => {
            &&& after.cursor == before.cursor + 1
            &&& r matches Ok(Some(v)) && optimized_scalar(v, value@, style) && recorded(
                before.anchors@,
                after.anchors@,
                anchor,
                v,
            )
        },
        EventType::DocumentEnd { .. } | EventType::SequenceEnd | EventType::MappingEnd => {
            &&& after.cursor == before.cursor + 1
            &&& r matches Ok(None)
            &&& after.anchors@ == before.anchors@
        },
        EventType::Alias { anchor } => {
            &&& after.cursor == before.cursor + 1
            &&& after.anchors@ == before.anchors@
            &&& alias_outcome(before.alias_expansion_stack@, before.anchors@, before.limits, anchor@, r)
        },
        EventType::SequenceStart { anchor, .. } => r matches Ok(x) ==> (x matches Some(v) && v is Sequence
            && names_value(after.anchors@, anchor, v)),
        EventType::MappingStart { anchor, .. } => r matches Ok(x) ==> (x matches Some(v) && v is Mapping
            && names_value(after.anchors@, anchor, v) && (leading_merge(
            before.events@,
            before.cursor + 1,
            before.anchors@,
            before.limits,
        ) ==> (v matches OptimizedValue::Mapping(items) && keys_prefix(
            (*items)@,
            leading_merge_entries(before.events@, before.cursor + 1, before.anchors@),
        )))),
        _ => true,
    }
}

/// Whether the event at `at` ends the sequence (`seq`) or the mapping
/// (otherwise) being composed.
pub open spec fn closes_at(events: Seq<Event>, at: int, seq: bool) -> bool {
    &&& 0 <= at < events.len()
    &&& if seq {
        events[at].event_type is SequenceEnd
    } else {
        events[at].event_type is MappingEnd
    }
}

/// Whether a collection being composed stops at `at` without consuming
/// anything: at the end of the events, or at a document boundary or the
/// stream end.
pub open spec fn stops_at(events: Seq<Event>, at: int) -> bool {
    at >= events.len() || events[at].event_type is DocumentEnd || events[at].event_type is DocumentStart
        || events[at].event_type is StreamEnd
}

/// What composing the node that begins at event `q` gives, as far as
/// that event decides: a scalar's typed value; an alias's outcome; a
/// sequence or a mapping, when it succeeds; nothing for an end event.
pub open spec fn document_outcome(
    events: Seq<Event>,
    anchors: Seq<(String, Rc<OptimizedValue>)>,
    stack: Seq<String>,
    limits: Limits,
    q: int,
    r: Result<Option<OptimizedValue>>,
) -> bool {
    match events[q].event_type {
        EventType::Scalar { value, style, .. } => r matches Ok(Some(v)) && optimized_scalar(v, value@, style),
        EventType::Alias { anchor } => alias_outcome(stack, anchors, limits, anchor@, r),
        EventType::SequenceStart { .. } => r is Ok ==> (r matches Ok(Some(v)) && v is Sequence),
        EventType::MappingStart { .. } => r is Ok ==> (r matches Ok(Some(v)) && v is Mapping),
        EventType::DocumentEnd { .. } | EventType::SequenceEnd | EventType::MappingEnd => r
            == Ok::<Option<OptimizedValue>, Error>(None),
        _ => true,
    }
}

/// Whether the mapping whose entries begin at event `c` opens with a
/// merge: an unanchored plain `<<` key whose value is an alias of a
/// mapping anchored under `anchors` and shallow enough to expand.
pub open spec fn leading_merge(
    events: Seq<Event>,
    c: int,
    anchors: Seq<(String, Rc<OptimizedValue>)>,
    limits: Limits,
) -> bool {
    &&& 0 <= c
    &&& c + 1 < events.len()
    &&& events[c].event_type matches EventType::Scalar { value, style, anchor, .. } && value@ == "<<"@ && style
        == ScalarStyle::Plain && anchor is None
    &&& events[c + 1].event_type matches EventType::Alias { anchor } && anchored(anchors, anchor@) matches Some(
        OptimizedValue::Mapping(m),
    ) && fits_depth(OptimizedValue::Mapping(m), limits.max_alias_depth as int)
}

/// The entries of the mapping that a leading merge ([`leading_merge`])
/// brings in.
pub open spec fn leading_merge_entries(
    events: Seq<Event>,
    c: int,
    anchors: Seq<(String, Rc<OptimizedValue>)>,
) -> Seq<(OptimizedValue, OptimizedValue)> {
    match events[c + 1].event_type {
        EventType::Alias { anchor } => match anchored(anchors, anchor@) {
            Some(OptimizedValue::Mapping(m)) => merge_all(Seq::empty(), (*m)@),
            _ => Seq::empty(),
        },
        _ => Seq::empty(),
    }
}

/// The entries `es` begin with the keys of `ps`, in order.
pub open spec fn keys_prefix(es: Seq<(OptimizedValue, OptimizedValue)>, ps: Seq<(OptimizedValue, OptimizedValue)>) -> bool {
    &&& ps.len() <= es.len()
    &&& forall|i: int| 0 <= i < ps.len() ==> (#[trigger] es[i]).0 == ps[i].0
}

/// A plain `<<` composes to the merge key.
proof fn lemma_plain_merge_text(k: OptimizedValue)
    requires
        optimized_scalar(k, "<<"@, ScalarStyle::Plain),
    ensures
        is_merge_key(k),
{
    reveal_strlit("<<");
    reveal_strlit("inf");
    reveal_strlit("infinity");
    reveal_strlit("nan");
    reveal_strlit("true");
    reveal_strlit("yes");
    reveal_strlit("on");
    reveal_strlit("false");
    reveal_strlit("no");
    reveal_strlit("off");
    reveal_strlit("null");
    reveal_strlit("~");
    let t = "<<"@;
    assert(t.len() == 2 && t[0] == '<' && t[1] == '<');
    assert(!crate::numbers::has_sign(t));
    assert(crate::numbers::unsigned_part(t) == t);
    assert(!crate::numbers::is_digit_char(t[0]));
    assert(!spec_is_int(t));
    assert(!eq_ignore_case(t, "on"@)) by {
        assert(crate::numbers::lower(t[0]) != "on"@[0]);
    }
    assert(!eq_ignore_case(t, "no"@)) by {
        assert(crate::numbers::lower(t[0]) != "no"@[0]);
    }
    assert(!crate::numbers::is_mantissa(t)) by {
        assert(!(crate::numbers::is_digit_char(t[0]) || t[0] == '.'));
    }
    assert(!crate::numbers::has_exponent_split(t));
    assert(!spec_is_float(t));
}

/// Merging the mappings of `srcs` keeps every entry already present, in
/// place and unchanged.
proof fn lemma_merge_sources_keeps_existing(es: Seq<(OptimizedValue, OptimizedValue)>, srcs: Seq<OptimizedValue>)
    ensures
        merge_sources(es, srcs).len() >= es.len(),
        forall|i: int| 0 <= i < es.len() ==> #[trigger] merge_sources(es, srcs)[i] == es[i],
    decreases srcs.len(),
{
    if srcs.len() > 0 {
        lemma_merge_sources_keeps_existing(es, srcs.drop_last());
        let prev = merge_sources(es, srcs.drop_last());
        match srcs.last() {
            OptimizedValue::Mapping(m) => {
                lemma_merge_keeps_existing(prev, (*m)@);
                assert forall|i: int| 0 <= i < es.len() implies #[trigger] merge_sources(es, srcs)[i] == es[i] by {
                    assert(prev[i] == es[i]);
                }
            },
            _ => {},
        }
    }
}

/// Whether an event ends a collection being composed without being read:
/// a document boundary or the stream end.
pub open spec fn opt_boundary(e: Event) -> bool {
    e.event_type is DocumentEnd || e.event_type is DocumentStart || e.event_type is StreamEnd
}

/// Whether composing from event `p` gives a node: stream and document
/// starts and the stream end are passed over; an end event gives none.
pub open spec fn opt_gives(events: Seq<Event>, p: int) -> bool
    decreases events.len() - p,
{
    if p < 0 || p >= events.len() {
        false
    } else {
        match events[p].event_type {
            EventType::StreamStart | EventType::StreamEnd | EventType::DocumentStart { .. } => opt_gives(events, p + 1),
            EventType::DocumentEnd { .. } | EventType::SequenceEnd | EventType::MappingEnd => false,
            _ => true,
        }
    }
}

/// Where composing from event `p` stops.
pub open spec fn opt_node_end(events: Seq<Event>, p: int) -> int
    decreases events.len() - p, 0int,
{
    if p < 0 || p >= events.len() {
        p
    } else {
        match events[p].event_type {
            EventType::StreamStart | EventType::StreamEnd | EventType::DocumentStart { .. } => opt_node_end(
                events,
                p + 1,
            ),
            EventType::SequenceStart { .. } => opt_seq_scan(events, p + 1).0,
            EventType::MappingStart { .. } => opt_map_scan(events, p + 1).0,
            _ => p + 1,
        }
    }
}

/// Composing the items of a sequence from event `q`: where it stops and
/// how many items it composes. Its end event is read; a boundary or the
/// end of the events stops it unread; an event that gives no node is read
/// and stops it.
pub open spec fn opt_seq_scan(events: Seq<Event>, q: int) -> (int, nat)
    decreases events.len() - q, 1int,
{
    if q < 0 || q >= events.len() {
        (q, 0)
    } else if events[q].event_type is SequenceEnd {
        (q + 1, 0)
    } else if opt_boundary(events[q]) {
        (q, 0)
    } else {
        let w = opt_node_end(events, q);
        if !opt_gives(events, q) {
            (w, 0)
        } else if q < w <= events.len() {
            let r = opt_seq_scan(events, w);
            (r.0, r.1 + 1)
        } else {
            (q, 0)
        }
    }
}

/// Composing the entries of a mapping from event `q`, each a key and a
/// value (null when none is given), as [`opt_seq_scan`] composes items.
pub open spec fn opt_map_scan(events: Seq<Event>, q: int) -> (int, nat)
    decreases events.len() - q, 1int,
{
    if q < 0 || q >= events.len() {
        (q, 0)
    } else if events[q].event_type is MappingEnd {
        (q + 1, 0)
    } else if opt_boundary(events[q]) {
        (q, 0)
    } else {
        let k = opt_node_end(events, q);
        if !opt_gives(events, q) {
            (k, 0)
        } else if q < k <= events.len() {
            let v = opt_node_end(events, k);
            if k <= v <= events.len() {
                let r = opt_map_scan(events, v);
                (r.0, r.1 + 1)
            } else {
                (q, 0)
            }
        } else {
            (q, 0)
        }
    }
}

/// The event at which item `i` of a sequence whose items start at `q`
/// begins.
pub open spec fn opt_item_start(events: Seq<Event>, q: int, i: nat) -> int
    decreases i,
{
    if i == 0 {
        q
    } else {
        opt_node_end(events, opt_item_start(events, q, (i - 1) as nat))
    }
}

/// The event at which the key of entry `i` of a mapping whose entries
/// start at `q` begins.
pub open spec fn opt_key_start(events: Seq<Event>, q: int, i: nat) -> int
    decreases i,
{
    if i == 0 {
        q
    } else {
        opt_node_end(events, opt_node_end(events, opt_key_start(events, q, (i - 1) as nat)))
    }
}

/// What the event at `q` decides of the value composed from it: a
/// scalar's typed value, the kind of a collection, null for an end event
/// (an absent value).
pub open spec fn opt_shape(events: Seq<Event>, q: int, v: OptimizedValue) -> bool {
    q < events.len() ==> match events[q].event_type {
        EventType::Scalar { value, style, .. } => optimized_scalar(v, value@, style),
        EventType::SequenceStart { .. } => v is Sequence,
        EventType::MappingStart { .. } => v is Mapping,
        EventType::DocumentEnd { .. } | EventType::SequenceEnd | EventType::MappingEnd => v == OptimizedValue::Null,
        _ => true,
    }
}

/// One step of building a mapping from a composed key and value: under
/// the merge key the entries of a mapping (or of each mapping of a
/// sequence) are merged in; any other key is inserted.
pub open spec fn opt_entry_step(
    before: Seq<(OptimizedValue, OptimizedValue)>,
    k: OptimizedValue,
    v: OptimizedValue,
    after: Seq<(OptimizedValue, OptimizedValue)>,
) -> bool {
    if is_merge_key(k) {
        match v {
            OptimizedValue::Mapping(src) => after == merge_all(before, (*src)@),
            OptimizedValue::Sequence(srcs) => after == merge_sources(before, (*srcs)@),
            _ => false,
        }
    } else {
        after == insert_all(before, seq![(k, v)])
    }
}

/// Step `i` of building the mapping that begins at event `p`: the pair
/// composed from the key and value events of entry `i`.
pub open spec fn opt_pair_built(
    events: Seq<Event>,
    p: int,
    pairs: Seq<(OptimizedValue, OptimizedValue)>,
    states: Seq<Seq<(OptimizedValue, OptimizedValue)>>,
    i: int,
) -> bool {
    let k = opt_key_start(events, p + 1, i as nat);
    let kv = opt_node_end(events, k);
    &&& p < k < kv <= events.len()
    &&& opt_shape(events, k, pairs[i].0)
    &&& opt_shape(events, kv, pairs[i].1)
    &&& opt_entry_step(states[i], pairs[i].0, pairs[i].1, states[i + 1])
}

/// The entries `es` of the mapping that begins at event `p` were built
/// from `pairs` through `states`, one step per entry.
pub open spec fn opt_mapping_steps(
    events: Seq<Event>,
    p: int,
    pairs: Seq<(OptimizedValue, OptimizedValue)>,
    states: Seq<Seq<(OptimizedValue, OptimizedValue)>>,
    es: Seq<(OptimizedValue, OptimizedValue)>,
) -> bool {
    let n = opt_map_scan(events, p + 1).1;
    &&& pairs.len() == n
    &&& states.len() == n + 1
    &&& states[0] == Seq::<(OptimizedValue, OptimizedValue)>::empty()
    &&& states[n as int] == es
    &&& forall|i: int| 0 <= i < n ==> #[trigger] opt_pair_built(events, p, pairs, states, i)
}

/// `v` is what composing from event `p` gives: a scalar's typed value; a
/// sequence of its composed items in order; a mapping built entry by
/// entry ([`opt_mapping_steps`]). Stream and document starts and the
/// stream end are passed over. An alias's value depends on the anchors
/// and is not fixed here.
pub open spec fn opt_composed(events: Seq<Event>, p: int, v: OptimizedValue) -> bool
    decreases events.len() - p,
{
    if p < 0 || p >= events.len() {
        false
    } else {
        match events[p].event_type {
            EventType::StreamStart | EventType::StreamEnd | EventType::DocumentStart { .. } => opt_composed(
                events,
                p + 1,
                v,
            ),
            EventType::Scalar { value, style, .. } => optimized_scalar(v, value@, style),
            EventType::Alias { .. } => true,
            EventType::SequenceStart { .. } => {
                &&& v matches OptimizedValue::Sequence(items)
                &&& (*items)@.len() == opt_seq_scan(events, p + 1).1
                &&& forall|i: int|
                    0 <= i < (*items)@.len() ==> {
                        let q = opt_item_start(events, p + 1, i as nat);
                        p < q <= events.len() ==> opt_composed(events, q, #[trigger] (*items)@[i])
                    }
            },
            EventType::MappingStart { .. } => {
                &&& v matches OptimizedValue::Mapping(es)
                &&& exists|pairs: Seq<(OptimizedValue, OptimizedValue)>, states: Seq<Seq<(OptimizedValue, OptimizedValue)>>|
                    #[trigger] opt_mapping_steps(events, p, pairs, states, (*es)@)
            },
            _ => false,
        }
    }
}

/// Item `i` of a sequence whose items start at event `c` composed to
/// `item`.
pub open spec fn opt_item_composed(events: Seq<Event>, c: int, i: int, item: OptimizedValue) -> bool {
    let q = opt_item_start(events, c, i as nat);
    c <= q <= events.len() && opt_composed(events, q, item)
}

/// What composing from an event gives agrees with what that event
/// decides of it.
proof fn lemma_opt_shape(events: Seq<Event>, q: int, v: OptimizedValue)
    requires
        opt_composed(events, q, v),
    ensures
        opt_shape(events, q, v),
{
}

/// A value composed plainly from an event is not the merge key.
proof fn lemma_plain_not_merge(events: Seq<Event>, q: int, v: OptimizedValue)
    requires
        opt_plain(events, q),
        opt_composed(events, q, v),
    ensures
        !is_merge_key(v),
    decreases events.len() - q,
{
    if 0 <= q < events.len() {
        match events[q].event_type {
            EventType::StreamStart | EventType::StreamEnd | EventType::DocumentStart { .. } => {
                lemma_plain_not_merge(events, q + 1, v);
            },
            _ => {},
        }
    }
}

/// Whether composing from event `p` succeeds whatever the anchors: no
/// alias, and no scalar spelling the merge key `<<`.
pub open spec fn opt_plain(events: Seq<Event>, p: int) -> bool
    decreases events.len() - p, 0int,
{
    if p < 0 || p >= events.len() {
        true
    } else {
        match events[p].event_type {
            EventType::StreamStart | EventType::StreamEnd | EventType::DocumentStart { .. } => opt_plain(events, p + 1),
            EventType::Scalar { value, .. } => value@ != "<<"@,
            EventType::Alias { .. } => false,
            EventType::SequenceStart { .. } => opt_seq_plain(events, p + 1),
            EventType::MappingStart { .. } => opt_map_plain(events, p + 1),
            _ => true,
        }
    }
}

/// Whether every item of a sequence from event `q` composes plainly
/// ([`opt_plain`]).
pub open spec fn opt_seq_plain(events: Seq<Event>, q: int) -> bool
    decreases events.len() - q, 1int,
{
    if q < 0 || q >= events.len() || events[q].event_type is SequenceEnd || opt_boundary(events[q]) {
        true
    } else {
        let w = opt_node_end(events, q);
        opt_plain(events, q) && (opt_gives(events, q) && q < w <= events.len() ==> opt_seq_plain(events, w))
    }
}

/// Whether every key and value of a mapping from event `q` composes
/// plainly ([`opt_plain`]).
pub open spec fn opt_map_plain(events: Seq<Event>, q: int) -> bool
    decreases events.len() - q, 1int,
{
    if q < 0 || q >= events.len() || events[q].event_type is MappingEnd || opt_boundary(events[q]) {
        true
    } else {
        let k = opt_node_end(events, q);
        &&& opt_plain(events, q)
        &&& (opt_gives(events, q) && q < k <= events.len() ==> {
            &&& opt_plain(events, k)
            &&& {
                let v = opt_node_end(events, k);
                k <= v <= events.len() ==> opt_map_plain(events, v)
            }
        })
    }
}

/// The parts of the composer that composing a node leaves alone.
pub open spec fn same_frame(before: ReducedAllocComposer, after: ReducedAllocComposer) -> bool {
    &&& after.events == before.events
    &&& after.limits == before.limits
    &&& after.scanning_error == before.scanning_error
    &&& before.cursor <= after.cursor
}

/// A construction error whose message is `prefix`, `name`, `suffix`.
fn named_error(at: Position, prefix: &str, name: &str, suffix: &str) -> (e: Error)
    ensures
        e.kind == ErrorKind::Construction,
        e.position == at,
{
    let mut message = String::new();
    push_str(&mut message, prefix);
    push_str(&mut message, name);
    push_str(&mut message, suffix);
    Error { kind: ErrorKind::Construction, position: at, message }
}

impl ReducedAllocComposer {
    /// Compose the node that starts at the cursor; `None` where there is
    /// no node (an end event, or no events left). What each kind of event
    /// composes to is [`node_step`]; in particular an alias is refused when
    /// its anchored value is deeper than `limits.max_alias_depth`.
    pub fn compose_node(&mut self) -> (r: Result<Option<OptimizedValue>>)
        requires
            old(self).inv(),
        ensures
            final(self).inv(),
            same_frame(*old(self), *final(self)),
            r matches Ok(Some(_)) ==> old(self).cursor < final(self).cursor,
            r is Ok ==> final(self).current_depth == old(self).current_depth
                && final(self).alias_expansion_stack@ == old(self).alias_expansion_stack@,
            r matches Ok(Some(v)) ==> opt_well_keyed(v),
            old(self).cursor == old(self).events@.len() ==> (r matches Ok(None) && final(self).cursor
                == old(self).cursor),
            old(self).cursor < old(self).events@.len() ==> node_step(
                old(self).events@[old(self).cursor as int].event_type,
                *old(self),
                *final(self),
                r,
            ),
            r is Ok ==> final(self).cursor == opt_node_end(old(self).events@, old(self).cursor as int),
            r matches Ok(Some(v)) ==> opt_gives(old(self).events@, old(self).cursor as int) && opt_composed(
                old(self).events@,
                old(self).cursor as int,
                v,
            ),
            r matches Ok(None) ==> !opt_gives(old(self).events@, old(self).cursor as int),
            opt_plain(old(self).events@, old(self).cursor as int) ==> r is Ok,
        decreases old(self).events@.len() - old(self).cursor, 0int,
    {
        if self.cursor >= self.events.len() {
            return Ok(None);
        }
        let idx = self.cursor;
        let step = step_of(&self.events[idx].event_type);
        self.position = self.events[idx].position;
        self.cursor = idx + 1;
        match step {
            Step::Skip => self.compose_node(),
            Step::Stop => Ok(None),
            Step::Scalar(value, anchor, style) => {
                let v = self.compose_scalar_optimized(value.as_str(), style)?;
                proof {
                    lemma_scalar_keyed(v, value@, style);
                }
                if let Some(name) = anchor {
                    self.anchors.push((name, Rc::new(share(&v))));
                    proof {
                        assert(self.anchors@.drop_last() =~= old(self).anchors@);
                    }
                }
                Ok(Some(v))
            },
            Step::Sequence(anchor) => {
                let sequence = self.compose_sequence()?;
                if let Some(name) = anchor {
                    if let Some(seq) = &sequence {
                        self.anchors.push((name, Rc::new(share(seq))));
                    }
                }
                Ok(sequence)
            },
            Step::Mapping(anchor) => {
                let mapping = self.compose_mapping()?;
                if let Some(name) = anchor {
                    if let Some(map) = &mapping {
                        self.anchors.push((name, Rc::new(share(map))));
                    }
                }
                Ok(mapping)
            },
            Step::Alias(anchor) => {
                let at = self.position;
                if self.expanding(anchor.as_str()) {
                    return Err(named_error(at, "Cyclic alias reference detected: '", anchor.as_str(), "'"));
                }
                if self.alias_expansion_stack.len() >= self.limits.max_alias_depth {
                    let mut message = String::new();
                    push_str(&mut message, "Maximum alias expansion depth ");
                    push_str(&mut message, usize_to_decimal(self.limits.max_alias_depth).as_str());
                    push_str(&mut message, " exceeded");
                    return Err(Error { kind: ErrorKind::Construction, position: at, message });
                }
                self.alias_expansion_stack.push(anchor.clone());
                let result = match self.find_anchor(anchor.as_str()) {
                    Some(value) => {
                        let structure_depth = calculate_optimized_structure_depth(&value);
                        if structure_depth > self.limits.max_alias_depth {
                            proof {
                                if fits_depth(value, self.limits.max_alias_depth as int) {
                                    if structure_depth < usize::MAX {
                                        lemma_fits_depth_mono(
                                            value,
                                            self.limits.max_alias_depth as int,
                                            structure_depth - 1,
                                        );
                                    } else {
                                        lemma_fits_depth_mono(
                                            value,
                                            self.limits.max_alias_depth as int,
                                            usize::MAX - 1,
                                        );
                                    }
                                }
                            }
                            let mut message = String::new();
                            push_str(&mut message, "Alias '");
                            push_str(&mut message, anchor.as_str());
                            push_str(&mut message, "' creates structure with depth ");
                            push_str(&mut message, usize_to_decimal(structure_depth).as_str());
                            push_str(&mut message, " exceeding max_alias_depth ");
                            push_str(&mut message, usize_to_decimal(self.limits.max_alias_depth).as_str());
                            return Err(Error { kind: ErrorKind::Construction, position: at, message });
                        }
                        proof {
                            lemma_anchored_keyed(self.anchors@, anchor@);
                            if !fits_depth(value, self.limits.max_alias_depth as int) && structure_depth
                                < usize::MAX {
                                lemma_fits_depth_mono(
                                    value,
                                    structure_depth as int,
                                    self.limits.max_alias_depth as int,
                                );
                            }
                        }
                        Ok(Some(value))
                    },
                    None => Err(named_error(at, "Unknown anchor '", anchor.as_str(), "'")),
                };
                self.alias_expansion_stack.pop();
                proof {
                    assert(self.alias_expansion_stack@ =~= old(self).alias_expansion_stack@);
                }
                result
            },
        }
    }

    /// Compose the items of a sequence whose start was just read, up to
    /// and including its end.
    fn compose_sequence(&mut self) -> (r: Result<Option<OptimizedValue>>)
        requires
            old(self).inv(),
            old(self).current_depth < old(self).cursor,
        ensures
            final(self).inv(),
            same_frame(*old(self), *final(self)),
            r is Ok ==> final(self).current_depth == old(self).current_depth
                && final(self).alias_expansion_stack@ == old(self).alias_expansion_stack@,
            r matches Ok(x) ==> x matches Some(v) && v is Sequence && opt_well_keyed(v),
            closes_at(old(self).events@, old(self).cursor as int, true) ==> (r matches Ok(
                Some(OptimizedValue::Sequence(items)),
            ) && (*items)@.len() == 0 && final(self).cursor == old(self).cursor + 1),
            stops_at(old(self).events@, old(self).cursor as int) ==> (r matches Ok(
                Some(OptimizedValue::Sequence(items)),
            ) && (*items)@.len() == 0 && final(self).cursor == old(self).cursor),
            r is Ok ==> final(self).cursor == opt_seq_scan(old(self).events@, old(self).cursor as int).0,
            r matches Ok(Some(v)) ==> v matches OptimizedValue::Sequence(items) && (*items)@.len() == opt_seq_scan(
                old(self).events@,
                old(self).cursor as int,
            ).1 && forall|i: int|
                0 <= i < (*items)@.len() ==> opt_item_composed(
                    old(self).events@,
                    old(self).cursor as int,
                    i,
                    #[trigger] (*items)@[i],
                ),
            opt_seq_plain(old(self).events@, old(self).cursor as int) ==> r is Ok,
        decreases old(self).events@.len() - old(self).cursor, 1int,
    {
        let ghost c0 = self.cursor as int;
        let ghost evs = self.events@;
        self.current_depth = self.current_depth + 1;
        let mut sequence: Vec<OptimizedValue> = Vec::new();
        loop
            invariant_except_break
                self.cursor == opt_item_start(evs, c0, sequence@.len()),
                opt_seq_scan(evs, c0) == (
                    opt_seq_scan(evs, self.cursor as int).0,
                    sequence@.len() + opt_seq_scan(evs, self.cursor as int).1,
                ),
                opt_seq_plain(evs, c0) ==> opt_seq_plain(evs, self.cursor as int),
                closes_at(old(self).events@, old(self).cursor as int, true) ==> sequence@.len() == 0
                    && self.cursor == old(self).cursor,
                stops_at(old(self).events@, old(self).cursor as int) ==> sequence@.len() == 0 && self.cursor
                    == old(self).cursor,
            invariant
                self.inv(),
                same_frame(*old(self), *self),
                self.current_depth == old(self).current_depth + 1,
                self.alias_expansion_stack@ == old(self).alias_expansion_stack@,
                forall|i: int| 0 <= i < sequence@.len() ==> opt_well_keyed(#[trigger] sequence@[i]),
                evs == old(self).events@,
                c0 == old(self).cursor,
                forall|i: int| 0 <= i < sequence@.len() ==> opt_item_composed(evs, c0, i, #[trigger] sequence@[i]),
            ensures
                self.cursor == opt_seq_scan(evs, c0).0,
                sequence@.len() == opt_seq_scan(evs, c0).1,
                closes_at(old(self).events@, old(self).cursor as int, true) ==> sequence@.len() == 0
                    && self.cursor == old(self).cursor + 1,
                stops_at(old(self).events@, old(self).cursor as int) ==> sequence@.len() == 0 && self.cursor
                    == old(self).cursor,
            decreases self.events@.len() - self.cursor,
        {
            if self.cursor >= self.events.len() {
                break;
            }
            if matches!(self.events[self.cursor].event_type, EventType::SequenceEnd) {
                self.cursor = self.cursor + 1;
                break;
            }
            if matches!(
                self.events[self.cursor].event_type,
                EventType::DocumentEnd { .. } | EventType::DocumentStart { .. } | EventType::StreamEnd
            ) {
                break;
            }
            let ghost cur = self.cursor as int;
            match self.compose_node()? {
                Some(node) => {
                    let ghost before = sequence@;
                    sequence.push(node);
                    proof {
                        assert(opt_item_start(evs, c0, before.len()) == cur);
                        assert forall|i: int| 0 <= i < sequence@.len() implies opt_item_composed(evs, c0, i, #[trigger] sequence@[i]) by {
                            if i < before.len() {
                                assert(sequence@[i] == before[i]);
                            }
                        }
                        assert forall|i: int| 0 <= i < sequence@.len() implies opt_well_keyed(#[trigger] sequence@[i]) by {
                            if i < before.len() {
                                assert(sequence@[i] == before[i]);
                            }
                        }
                    }
                },
                None => {
                    break;
                },
            }
        }
        self.current_depth = self.current_depth - 1;
        let v = OptimizedValue::sequence_with(sequence);
        Ok(Some(v))
    }

    /// Compose the entries of a mapping whose start was just read, up to
    /// and including its end. A repeated key keeps its place and takes the
    /// later value; a `<<` key merges in entries (see
    /// [`Self::process_merge_key`]); a key without a value maps to null.
    fn compose_mapping(&mut self) -> (r: Result<Option<OptimizedValue>>)
        requires
            old(self).inv(),
            old(self).current_depth < old(self).cursor,
        ensures
            final(self).inv(),
            same_frame(*old(self), *final(self)),
            r is Ok ==> final(self).current_depth == old(self).current_depth
                && final(self).alias_expansion_stack@ == old(self).alias_expansion_stack@,
            r matches Ok(x) ==> x matches Some(v) && v is Mapping && opt_well_keyed(v),
            closes_at(old(self).events@, old(self).cursor as int, false) ==> (r matches Ok(
                Some(OptimizedValue::Mapping(items)),
            ) && (*items)@.len() == 0 && final(self).cursor == old(self).cursor + 1),
            stops_at(old(self).events@, old(self).cursor as int) ==> (r matches Ok(
                Some(OptimizedValue::Mapping(items)),
            ) && (*items)@.len() == 0 && final(self).cursor == old(self).cursor),
            leading_merge(old(self).events@, old(self).cursor as int, old(self).anchors@, old(self).limits) && r is Ok
                ==> (r matches Ok(Some(OptimizedValue::Mapping(items))) && keys_prefix(
                (*items)@,
                leading_merge_entries(old(self).events@, old(self).cursor as int, old(self).anchors@),
            )),
            r is Ok ==> final(self).cursor == opt_map_scan(old(self).events@, old(self).cursor as int).0,
            r matches Ok(Some(v)) ==> v matches OptimizedValue::Mapping(es) && exists|
                pairs: Seq<(OptimizedValue, OptimizedValue)>,
                states: Seq<Seq<(OptimizedValue, OptimizedValue)>>,
            | #[trigger] opt_mapping_steps(old(self).events@, old(self).cursor - 1, pairs, states, (*es)@),
            opt_map_plain(old(self).events@, old(self).cursor as int) ==> r is Ok,
        decreases old(self).events@.len() - old(self).cursor, 1int,
    {
        let ghost c0 = self.cursor as int;
        let ghost evs = self.events@;
        let ghost mut pairs: Seq<(OptimizedValue, OptimizedValue)> = Seq::empty();
        let ghost mut states: Seq<Seq<(OptimizedValue, OptimizedValue)>> = seq![
            Seq::<(OptimizedValue, OptimizedValue)>::empty(),
        ];
        let ghost lead = leading_merge(old(self).events@, old(self).cursor as int, old(self).anchors@, old(self).limits);
        let ghost merged = leading_merge_entries(old(self).events@, old(self).cursor as int, old(self).anchors@);
        self.current_depth = self.current_depth + 1;
        let mut mapping: Vec<(OptimizedValue, OptimizedValue)> = Vec::new();
        loop
            invariant_except_break
                lead ==> (self.cursor == old(self).cursor && mapping@.len() == 0 && self.anchors@ == old(
                    self,
                ).anchors@) || keys_prefix(mapping@, merged),
                self.cursor == opt_key_start(evs, c0, pairs.len()),
                opt_map_scan(evs, c0) == (
                    opt_map_scan(evs, self.cursor as int).0,
                    pairs.len() + opt_map_scan(evs, self.cursor as int).1,
                ),
                opt_map_plain(evs, c0) ==> opt_map_plain(evs, self.cursor as int),
                closes_at(old(self).events@, old(self).cursor as int, false) ==> mapping@.len() == 0
                    && self.cursor == old(self).cursor,
                stops_at(old(self).events@, old(self).cursor as int) ==> mapping@.len() == 0 && self.cursor
                    == old(self).cursor,
            invariant
                self.inv(),
                same_frame(*old(self), *self),
                self.current_depth == old(self).current_depth + 1,
                self.alias_expansion_stack@ == old(self).alias_expansion_stack@,
                distinct_opt_keys(mapping@),
                entries_opt_keyed(mapping@),
                lead == leading_merge(old(self).events@, old(self).cursor as int, old(self).anchors@, old(self).limits),
                merged == leading_merge_entries(old(self).events@, old(self).cursor as int, old(self).anchors@),
                evs == old(self).events@,
                c0 == old(self).cursor,
                states.len() == pairs.len() + 1,
                states[0] == Seq::<(OptimizedValue, OptimizedValue)>::empty(),
                states[pairs.len() as int] == mapping@,
                forall|i: int| 0 <= i < pairs.len() ==> #[trigger] opt_pair_built(evs, c0 - 1, pairs, states, i),
            ensures
                lead ==> keys_prefix(mapping@, merged),
                self.cursor == opt_map_scan(evs, c0).0,
                pairs.len() == opt_map_scan(evs, c0).1,
                closes_at(old(self).events@, old(self).cursor as int, false) ==> mapping@.len() == 0
                    && self.cursor == old(self).cursor + 1,
                stops_at(old(self).events@, old(self).cursor as int) ==> mapping@.len() == 0 && self.cursor
                    == old(self).cursor,
            decreases self.events@.len() - self.cursor,
        {
            if self.cursor >= self.events.len() {
                break;
            }
            if matches!(self.events[self.cursor].event_type, EventType::MappingEnd) {
                self.cursor = self.cursor + 1;
                break;
            }
            if matches!(
                self.events[self.cursor].event_type,
                EventType::DocumentEnd { .. } | EventType::DocumentStart { .. } | EventType::StreamEnd
            ) {
                break;
            }
            let ghost at_start = self.cursor == old(self).cursor && mapping@.len() == 0 && self.anchors@ == old(
                self,
            ).anchors@;
            let ghost cur = self.cursor as int;
            let key = match self.compose_node()? {
                Some(k) => k,
                None => {
                    break;
                },
            };
            proof {
                if lead && at_start {
                    lemma_plain_merge_text(key);
                }
                lemma_opt_shape(evs, cur, key);
                if opt_map_plain(evs, c0) {
                    lemma_plain_not_merge(evs, cur, key);
                }
            }
            let ghost kend = self.cursor as int;
            let value = match self.compose_node()? {
                Some(v) => v,
                None => OptimizedValue::Null,
            };
            proof {
                if opt_gives(evs, kend) {
                    lemma_opt_shape(evs, kend, value);
                }
                assert(opt_shape(evs, kend, value));
                assert(opt_key_start(evs, c0, pairs.len()) == cur);
            }
            let ghost gkey = key;
            let ghost gval = value;
            if key_is_merge(&key) {
                let ghost before = mapping@;
                self.process_merge_key(&mut mapping, &value)?;
                let ghost gv = value;
                proof {
                    let n = pairs.len();
                    let old_pairs = pairs;
                    let old_states = states;
                    pairs = pairs.push((gkey, gval));
                    states = states.push(mapping@);
                    assert forall|i: int| 0 <= i < pairs.len() implies #[trigger] opt_pair_built(evs, c0 - 1, pairs, states, i) by {
                        if i < n {
                            assert(pairs[i] == old_pairs[i]);
                            assert(states[i] == old_states[i]);
                            assert(states[i + 1] == old_states[i + 1]);
                            assert(opt_pair_built(evs, c0 - 1, old_pairs, old_states, i));
                        } else {
                            assert(states[i] == before);
                        }
                    }
                    if lead && !at_start {
                        match gv {
                            OptimizedValue::Mapping(src) => {
                                lemma_merge_keeps_existing(before, (*src)@);
                            },
                            OptimizedValue::Sequence(srcs) => {
                                lemma_merge_sources_keeps_existing(before, (*srcs)@);
                            },
                            _ => {},
                        }
                        assert forall|i: int| 0 <= i < merged.len() implies (#[trigger] mapping@[i]).0 == merged[i].0 by {
                            assert(before[i].0 == merged[i].0);
                        }
                    }
                    if lead && at_start {
                        assert(before =~= Seq::<(OptimizedValue, OptimizedValue)>::empty());
                    }
                    assert(opt_well_keyed(value));
                    match value {
                        OptimizedValue::Mapping(src) => {
                            lemma_merge_keeps_keys(before, (*src)@);
                        },
                        OptimizedValue::Sequence(srcs) => {
                            lemma_merge_sources_keeps_keys(before, (*srcs)@);
                        },
                        _ => {},
                    }
                }
                continue;
            }
            let ghost before = mapping@;
            insert_pair(&mut mapping, key, value);
            proof {
                let n = pairs.len();
                let old_pairs = pairs;
                let old_states = states;
                pairs = pairs.push((gkey, gval));
                states = states.push(mapping@);
                assert forall|i: int| 0 <= i < pairs.len() implies #[trigger] opt_pair_built(evs, c0 - 1, pairs, states, i) by {
                    if i < n {
                        assert(pairs[i] == old_pairs[i]);
                        assert(states[i] == old_states[i]);
                        assert(states[i + 1] == old_states[i + 1]);
                        assert(opt_pair_built(evs, c0 - 1, old_pairs, old_states, i));
                    } else {
                        assert(states[i] == before);
                    }
                }
                if lead {
                    assert forall|i: int| 0 <= i < merged.len() implies (#[trigger] mapping@[i]).0 == merged[i].0 by {
                        assert(before[i].0 == merged[i].0);
                        if lacks_opt_key(before, key) {
                            assert(mapping@[i] == before[i]);
                        }
                    }
                }
                if lacks_opt_key(before, key) {
                    assert forall|i: int, j: int| 0 <= i < j < mapping@.len() implies !same_opt(
                        #[trigger] mapping@[i].0,
                        #[trigger] mapping@[j].0,
                    ) by {
                        if j == before.len() {
                            assert(!same_opt(before[i].0, key));
                        } else {
                            assert(mapping@[i] == before[i] && mapping@[j] == before[j]);
                        }
                    }
                    assert forall|i: int| 0 <= i < mapping@.len() implies opt_well_keyed(
                        (#[trigger] mapping@[i]).0,
                    ) && opt_well_keyed(mapping@[i].1) by {
                        if i < before.len() {
                            assert(mapping@[i] == before[i]);
                        }
                    }
                } else {
                    assert forall|i: int, j: int| 0 <= i < j < mapping@.len() implies !same_opt(
                        #[trigger] mapping@[i].0,
                        #[trigger] mapping@[j].0,
                    ) by {
                        assert(mapping@[i].0 == before[i].0 && mapping@[j].0 == before[j].0);
                    }
                    assert forall|i: int| 0 <= i < mapping@.len() implies opt_well_keyed(
                        (#[trigger] mapping@[i]).0,
                    ) && opt_well_keyed(mapping@[i].1) by {
                        assert(mapping@[i].0 == before[i].0);
                    }
                }
            }
        }
        self.current_depth = self.current_depth - 1;
        proof {
            assert(opt_mapping_steps(evs, c0 - 1, pairs, states, mapping@));
        }
        Ok(Some(OptimizedValue::Mapping(Rc::new(mapping))))
    }

    /// Merge the value of a `<<` key into `mapping`: the entries of a
    /// mapping, or of each mapping of a sequence, are added where their
    /// key is not yet present. Any other value is an error, and so is a
    /// sequence with an item that is not a mapping.
    pub fn process_merge_key(
        &self,
        mapping: &mut Vec<(OptimizedValue, OptimizedValue)>,
        merge_value: &OptimizedValue,
    ) -> (r: Result<()>)
        ensures
            match *merge_value {
                OptimizedValue::Mapping(src) => r is Ok && final(mapping)@ == merge_all(old(mapping)@, (*src)@),
                OptimizedValue::Sequence(srcs) => {
                    &&& r is Ok <==> forall|i: int| 0 <= i < (*srcs)@.len() ==> (#[trigger] (*srcs)@[i]) is Mapping
                    &&& r is Ok ==> final(mapping)@ == merge_sources(old(mapping)@, (*srcs)@)
                },
                _ => r is Err,
            },
            r matches Err(e) ==> e.kind == ErrorKind::Construction && e.position == self.position,
    {
        match merge_value {
            OptimizedValue::Mapping(source_map) => {
                merge_entries(mapping, &**source_map);
                Ok(())
            },
            OptimizedValue::Sequence(sources) => {
                let srcs: &Vec<OptimizedValue> = &**sources;
                let ghost start = mapping@;
                let mut i: usize = 0;
                proof {
                    assert(srcs@.subrange(0, 0) =~= Seq::<OptimizedValue>::empty());
                }
                while i < srcs.len()
                    invariant
                        i <= srcs@.len(),
                        *merge_value == OptimizedValue::Sequence(*sources),
                        srcs@ == (**sources)@,
                        start == old(mapping)@,
                        mapping@ == merge_sources(start, srcs@.subrange(0, i as int)),
                        forall|j: int| 0 <= j < i ==> (#[trigger] srcs@[j]) is Mapping,
                    decreases srcs@.len() - i,
                {
                    proof {
                        let pre = srcs@.subrange(0, i + 1);
                        assert(pre.drop_last() =~= srcs@.subrange(0, i as int));
                        assert(pre.last() == srcs@[i as int]);
                    }
                    match &srcs[i] {
                        OptimizedValue::Mapping(source_map) => {
                            merge_entries(mapping, &**source_map);
                        },
                        _ => {
                            return Err(
                                Error::construction(self.position, "Merge key sequence can only contain mappings"),
                            );
                        },
                    }
                    i = i + 1;
                }
                proof {
                    assert(srcs@.subrange(0, srcs@.len() as int) =~= srcs@);
                }
                Ok(())
            },
            _ => Err(
                Error::construction(self.position, "Merge key value must be a mapping or sequence of mappings"),
            ),
        }
    }
}

/// A composed scalar holds no mapping, so it is well keyed.
proof fn lemma_scalar_keyed(v: OptimizedValue, text: Seq<char>, style: ScalarStyle)
    requires
        optimized_scalar(v, text, style),
    ensures
        opt_well_keyed(v),
{
}

impl OptimizedComposer for ReducedAllocComposer {
    open spec fn wf(&self) -> bool {
        self.inv()
    }

    /// Whether an event other than the stream end is next.
    fn check_document(&self) -> (b: bool)
        ensures
            b == (self.cursor < self.events@.len() && !(self.events@[self.cursor as int].event_type is StreamEnd)),
    {
        self.cursor < self.events.len() && !matches!(self.events[self.cursor].event_type, EventType::StreamEnd)
    }

    /// Compose the next document: an error from scanning or parsing the
    /// input is reported first; then document starts are passed over, the
    /// next node is composed, and document ends after it are passed over.
    fn compose_document(&mut self) -> (r: Result<Option<OptimizedValue>>)
        ensures
            old(self).scanning_error matches Some(e) ==> r == Err::<Option<OptimizedValue>, Error>(e),
            final(self).scanning_error is None,
            final(self).events == old(self).events,
            final(self).limits == old(self).limits,
            old(self).cursor <= final(self).cursor,
            r matches Ok(Some(v)) ==> opt_well_keyed(v),
            r is Ok ==> final(self).current_depth == old(self).current_depth
                && final(self).alias_expansion_stack@ == old(self).alias_expansion_stack@,
            old(self).scanning_error is None ==> ({
                let q = skip_starts(old(self).events@, old(self).cursor as int);
                &&& q >= old(self).events@.len() ==> r == Ok::<Option<OptimizedValue>, Error>(None)
                &&& q < old(self).events@.len() ==> document_outcome(
                    old(self).events@,
                    old(self).anchors@,
                    old(self).alias_expansion_stack@,
                    old(self).limits,
                    q,
                    r,
                )
            }),
            r is Ok ==> final(self).cursor == final(self).events@.len() || !(final(self).events@[final(
                self).cursor as int].event_type is DocumentEnd),
            old(self).scanning_error is None ==> (r matches Ok(Some(v)) ==> opt_composed(
                old(self).events@,
                skip_starts(old(self).events@, old(self).cursor as int),
                v,
            )),
            old(self).scanning_error is None && opt_plain(
                old(self).events@,
                skip_starts(old(self).events@, old(self).cursor as int),
            ) ==> r is Ok,
    {
        if let Some(error) = self.scanning_error.take() {
            return Err(error);
        }
        loop
            invariant_except_break
                skip_starts(self.events@, self.cursor as int) == skip_starts(
                    old(self).events@,
                    old(self).cursor as int,
                ),
            invariant
                self.anchors == old(self).anchors,
                self.inv(),
                self.scanning_error is None,
                self.events == old(self).events,
                self.limits == old(self).limits,
                old(self).cursor <= self.cursor,
                self.current_depth == old(self).current_depth,
                self.alias_expansion_stack@ == old(self).alias_expansion_stack@,
            ensures
                self.cursor == skip_starts(old(self).events@, old(self).cursor as int),
            decreases self.events@.len() - self.cursor,
        {
            if self.cursor < self.events.len() && matches!(
                self.events[self.cursor].event_type,
                EventType::DocumentStart { .. }
            ) {
                self.cursor = self.cursor + 1;
            } else {
                break;
            }
        }
        let document = self.compose_node()?;
        loop
            invariant
                self.inv(),
                self.scanning_error is None,
                self.events == old(self).events,
                self.limits == old(self).limits,
                old(self).cursor <= self.cursor,
                self.current_depth == old(self).current_depth,
                self.alias_expansion_stack@ == old(self).alias_expansion_stack@,
            ensures
                self.cursor == self.events@.len() || !(self.events@[self.cursor as int].event_type is DocumentEnd),
            decreases self.events@.len() - self.cursor,
        {
            if self.cursor < self.events.len() && matches!(
                self.events[self.cursor].event_type,
                EventType::DocumentEnd { .. }
            ) {
                self.cursor = self.cursor + 1;
            } else {
                break;
            }
        }
        Ok(document)
    }

    /// The position of the last event read.
    fn position(&self) -> (p: Position)
        ensures
            p == self.position,
    {
        self.position
    }

    /// Forget anchors, alias expansions and open collections, and go back
    /// to the start position; the stream is not rewound.
    fn reset(&mut self)
        ensures
            final(self).position == Position::spec_start(),
            final(self).anchors@.len() == 0,
            final(self).alias_expansion_stack@.len() == 0,
            final(self).current_depth == 0,
            final(self).events == old(self).events,
            final(self).cursor == old(self).cursor,
            final(self).limits == old(self).limits,
            final(self).scanning_error == old(self).scanning_error,
    {
        self.position = Position::new();
        self.anchors.clear();
        self.alias_expansion_stack.clear();
        self.current_depth = 0;
    }
}

} // verus!
