//! The composer: builds the typed value of each document from the event
//! stream, resolving scalars, aliases and merge keys.

use crate::error::{Error, Result};
use crate::numbers::{spec_is_int, spec_int_value, spec_is_float, parse_i64, is_float_text};
use crate::parser::{Event, EventType, ScalarStyle};
use crate::position::Position;
use crate::resolver::{BasicResolver, Resolver, spec_resolve, null_tag, bool_tag, int_tag, float_tag};
use crate::text::str_eq;
use crate::value::{Value, same_value, value_eq, copy_value, well_keyed, distinct_keys, lemma_same_value_well_keyed, lemma_same_value_transitive};
use vstd::prelude::*;

verus! {

/// The spellings of `true`.
pub open spec fn is_true_text(t: Seq<char>) -> bool {
    t == "true"@ || t == "True"@ || t == "TRUE"@
}

/// The spellings of `false`.
pub open spec fn is_false_text(t: Seq<char>) -> bool {
    t == "false"@ || t == "False"@ || t == "FALSE"@
}

/// `v` is the string `text`.
pub open spec fn is_string_of(v: Value, text: Seq<char>) -> bool {
    v matches Value::String(s) && s@ == text
}

/// `v` is the float spelled `text`.
pub open spec fn is_float_of(v: Value, text: Seq<char>) -> bool {
    v matches Value::Float(s) && s@ == text
}

/// The value an untagged plain scalar denotes under the pattern map `m`:
/// empty text is null, else the resolved tag decides.
pub open spec fn implicit_value(v: Value, m: Map<Seq<char>, Seq<char>>, text: Seq<char>) -> bool {
    if text.len() == 0 {
        v == Value::Null
    } else {
        let tag = spec_resolve(m, text);
        if tag == null_tag() {
            v == Value::Null
        } else if tag == bool_tag() {
            v == Value::Bool(is_true_text(text))
        } else if tag == int_tag() {
            if spec_is_int(text) {
                v == Value::Int(spec_int_value(text) as i64)
            } else {
                is_string_of(v, text)
            }
        } else if tag == float_tag() {
            is_float_of(v, text)
        } else {
            is_string_of(v, text)
        }
    }
}

/// A tag naming a core-schema type, in shorthand or in full.
pub open spec fn names_type(tag: Seq<char>, short: Seq<char>, full: Seq<char>) -> bool {
    tag == short || tag == full
}

/// An explicit tag that the text cannot have.
pub open spec fn scalar_rejected(text: Seq<char>, tag: Option<Seq<char>>) -> bool {
    match tag {
        Some(t) => {
            if t == "!"@ || names_type(t, "!!str"@, "tag:yaml.org,2002:str"@) {
                false
            } else if names_type(t, "!!null"@, "tag:yaml.org,2002:null"@) {
                false
            } else if names_type(t, "!!bool"@, "tag:yaml.org,2002:bool"@) {
                !is_true_text(text) && !is_false_text(text)
            } else if names_type(t, "!!int"@, "tag:yaml.org,2002:int"@) {
                !spec_is_int(text)
            } else if names_type(t, "!!float"@, "tag:yaml.org,2002:float"@) {
                !spec_is_float(text)
            } else {
                false
            }
        },
        None => false,
    }
}

/// The value a scalar denotes: quoted and block scalars are strings,
/// untagged plain scalars are typed by their text, and an explicit core
/// tag forces its type; other tags type the text as if untagged.
pub open spec fn scalar_value(
    v: Value,
    m: Map<Seq<char>, Seq<char>>,
    text: Seq<char>,
    plain: bool,
    tag: Option<Seq<char>>,
) -> bool {
    match tag {
        None => if plain {
            implicit_value(v, m, text)
        } else {
            is_string_of(v, text)
        },
        Some(t) => {
            if t == "!"@ || names_type(t, "!!str"@, "tag:yaml.org,2002:str"@) {
                is_string_of(v, text)
            } else if names_type(t, "!!null"@, "tag:yaml.org,2002:null"@) {
                v == Value::Null
            } else if names_type(t, "!!bool"@, "tag:yaml.org,2002:bool"@) {
                v == Value::Bool(is_true_text(text))
            } else if names_type(t, "!!int"@, "tag:yaml.org,2002:int"@) {
                v == Value::Int(spec_int_value(text) as i64)
            } else if names_type(t, "!!float"@, "tag:yaml.org,2002:float"@) {
                is_float_of(v, text)
            } else if plain {
                implicit_value(v, m, text)
            } else {
                is_string_of(v, text)
            }
        },
    }
}

/// The text of an optional tag.
pub open spec fn opt_view(tag: Option<&str>) -> Option<Seq<char>> {
    match tag {
        Some(t) => Some(t@),
        None => None,
    }
}

/// Whether a tag names a core type in shorthand or in full.
fn tag_names(tag: &str, short: &str, full: &str) -> (b: bool)
    ensures
        b == names_type(tag@, short@, full@),
{
    str_eq(tag, short) || str_eq(tag, full)
}

/// Whether the text spells `true`.
fn true_text(t: &str) -> (b: bool)
    ensures
        b == is_true_text(t@),
{
    str_eq(t, "true") || str_eq(t, "True") || str_eq(t, "TRUE")
}

/// Whether the text spells `false`.
fn false_text(t: &str) -> (b: bool)
    ensures
        b == is_false_text(t@),
{
    str_eq(t, "false") || str_eq(t, "False") || str_eq(t, "FALSE")
}

/// The value of an untagged plain scalar.
fn implicit_scalar(resolver: &BasicResolver, text: &str) -> (v: Value)
    ensures
        implicit_value(v, resolver@, text@),
{
    let cs = crate::text::str_to_chars(text);
    if cs.len() == 0 {
        return Value::Null;
    }
    let tag = match resolver.resolve_tag(text, true) {
        Some(t) => t,
        None => {
            return Value::String(text.to_owned());
        },
    };
    let t = tag.as_str();
    if str_eq(t, "tag:yaml.org,2002:null") {
        Value::Null
    } else if str_eq(t, "tag:yaml.org,2002:bool") {
        Value::Bool(true_text(text))
    } else if str_eq(t, "tag:yaml.org,2002:int") {
        match parse_i64(text) {
            Some(n) => Value::Int(n),
            None => Value::String(text.to_owned()),
        }
    } else if str_eq(t, "tag:yaml.org,2002:float") {
        Value::Float(text.to_owned())
    } else {
        Value::String(text.to_owned())
    }
}

/// Build the value of a scalar from its text, whether it is plain, and
/// its tag; an error when an explicit core tag does not fit the text.
pub fn construct_scalar(resolver: &BasicResolver, text: &str, plain: bool, tag: Option<&str>) -> (r:
    Result<Value>)
    ensures
        r is Err <==> scalar_rejected(text@, opt_view(tag)),
        r matches Ok(v) ==> scalar_value(v, resolver@, text@, plain, opt_view(tag)),
{
    match tag {
        None => {
            proof {
                assert(opt_view(tag) == Option::<Seq<char>>::None);
            }
            if plain {
                Ok(implicit_scalar(resolver, text))
            } else {
                Ok(Value::String(text.to_owned()))
            }
        },
        Some(t) => {
            if str_eq(t, "!") || tag_names(t, "!!str", "tag:yaml.org,2002:str") {
                Ok(Value::String(text.to_owned()))
            } else if tag_names(t, "!!null", "tag:yaml.org,2002:null") {
                Ok(Value::Null)
            } else if tag_names(t, "!!bool", "tag:yaml.org,2002:bool") {
                let yes = true_text(text);
                if yes || false_text(text) {
                    Ok(Value::Bool(yes))
                } else {
                    Err(Error::construction(Position::new(), "a !!bool scalar must be true or false"))
                }
            } else if tag_names(t, "!!int", "tag:yaml.org,2002:int") {
                match parse_i64(text) {
                    Some(n) => Ok(Value::Int(n)),
                    None => Err(Error::construction(Position::new(), "a !!int scalar must be an integer")),
                }
            } else if tag_names(t, "!!float", "tag:yaml.org,2002:float") {
                if is_float_text(text) {
                    Ok(Value::Float(text.to_owned()))
                } else {
                    Err(Error::construction(Position::new(), "a !!float scalar must be a number"))
                }
            } else if plain {
                Ok(implicit_scalar(resolver, text))
            } else {
                Ok(Value::String(text.to_owned()))
            }
        },
    }
}

/// Entry `i` is the first whose key is the same value as `k`.
pub open spec fn is_first_key(es: Seq<(Value, Value)>, k: Value, i: int) -> bool {
    &&& 0 <= i < es.len()
    &&& same_value(es[i].0, k)
    &&& forall|j: int| 0 <= j < i ==> !same_value(#[trigger] es[j].0, k)
}

/// No entry has a key that is the same value as `k`.
pub open spec fn lacks_key(es: Seq<(Value, Value)>, k: Value) -> bool {
    forall|j: int| 0 <= j < es.len() ==> !same_value(#[trigger] es[j].0, k)
}

/// The index of the first entry whose key is the same value as `k`.
pub fn find_key(es: &Vec<(Value, Value)>, k: &Value) -> (r: Option<usize>)
    ensures
        r matches Some(i) ==> is_first_key(es@, *k, i as int),
        r is None ==> lacks_key(es@, *k),
{
    let mut i: usize = 0;
    while i < es.len()
        invariant
            i <= es@.len(),
            forall|j: int| 0 <= j < i ==> !same_value(#[trigger] es@[j].0, *k),
        decreases es@.len() - i,
    {
        if value_eq(&es[i].0, k) {
            return Some(i);
        }
        i = i + 1;
    }
    None
}

/// Mapping entries with distinct keys, every key and value well keyed.
pub open spec fn entries_well_keyed(es: Seq<(Value, Value)>) -> bool {
    &&& distinct_keys(es)
    &&& forall|i: int| 0 <= i < es.len() ==> well_keyed((#[trigger] es[i]).0) && well_keyed(es[i].1)
}

/// Add an entry to a mapping: a key already present keeps its place and
/// takes the new value; a new key goes at the end.
pub fn insert_entry(es: &mut Vec<(Value, Value)>, k: Value, v: Value)
    ensures
        forall|i: int| is_first_key(old(es)@, k, i) ==> final(es)@ == old(es)@.update(i, (old(es)@[i].0, v)),
        lacks_key(old(es)@, k) ==> final(es)@ == old(es)@.push((k, v)),
        entries_well_keyed(old(es)@) && well_keyed(k) && well_keyed(v) ==> entries_well_keyed(final(es)@),
{
    match find_key(es, &k) {
        Some(i) => {
            let mut slot: Vec<(Value, Value)> = Vec::new();
            std::mem::swap(&mut slot, es);
            let (old_key, _) = slot.remove(i);
            slot.insert(i, (old_key, v));
            proof {
                assert forall|j: int| is_first_key(old(es)@, k, j) implies j == i by {
                    if j < i {
                        assert(!same_value(old(es)@[j].0, k));
                    }
                    if j > i {
                        assert(!same_value(old(es)@[i as int].0, k));
                    }
                }
                assert(slot@ =~= old(es)@.update(i as int, (old(es)@[i as int].0, v)));
            }
            std::mem::swap(&mut slot, es);
        },
        None => {
            es.push((k, v));
        },
    }
}

/// Add a merged-in entry: only a key not yet present is added.
pub fn merge_entry(es: &mut Vec<(Value, Value)>, k: Value, v: Value)
    ensures
        !lacks_key(old(es)@, k) ==> final(es)@ == old(es)@,
        lacks_key(old(es)@, k) ==> final(es)@ == old(es)@.push((k, v)),
        entries_well_keyed(old(es)@) && well_keyed(k) && well_keyed(v) ==> entries_well_keyed(final(es)@),
{
    match find_key(es, &k) {
        Some(_) => {},
        None => {
            es.push((k, v));
        },
    }
}

/// Merge the entries of `src` (a mapping, or a sequence of mappings taken
/// in order) into `es`, keeping every key already present.
#[verifier::loop_isolation(false)]
pub fn merge_into(es: &mut Vec<(Value, Value)>, src: &Value, at: Position) -> (r: Result<()>)
    ensures
        entries_well_keyed(old(es)@) && well_keyed(*src) ==> entries_well_keyed(final(es)@),
        r is Err <==> !(src is Mapping || (src matches Value::Sequence(items) && forall|i: int|
            0 <= i < items@.len() ==> (#[trigger] items@[i]) is Mapping)),
        r matches Err(e) ==> e.kind == crate::error::ErrorKind::Construction && e.position == at,
        r is Ok ==> keeps_entries(old(es)@, final(es)@),
        src matches Value::Mapping(from) ==> has_keys_of(final(es)@, from@) && added_from(
            final(es)@,
            old(es)@.len() as int,
            from@,
        ),
        r is Ok ==> (src matches Value::Sequence(items) ==> forall|m: int|
            0 <= m < items@.len() ==> ((#[trigger] items@[m]) matches Value::Mapping(from) ==> has_keys_of(
                final(es)@,
                from@,
            ))),
{
    match src {
        Value::Mapping(entries) => {
            proof {
                if well_keyed(*src) {
                    assert(entries_well_keyed(entries@));
                }
            }
            merge_entries(es, entries);
            Ok(())
        },
        Value::Sequence(items) => {
            let mut i: usize = 0;
            while i < items.len()
                invariant
                    i <= items@.len(),
                    forall|j: int| 0 <= j < i ==> (#[trigger] items@[j]) is Mapping,
                    entries_well_keyed(old(es)@) && well_keyed(*src) ==> entries_well_keyed(es@),
                    keeps_entries(old(es)@, es@),
                    forall|m: int|
                        0 <= m < i ==> ((#[trigger] items@[m]) matches Value::Mapping(from) ==> has_keys_of(
                            es@,
                            from@,
                        )),
                decreases items@.len() - i,
            {
                match &items[i] {
                    Value::Mapping(entries) => {
                        proof {
                            if well_keyed(*src) {
                                assert(well_keyed(items@[i as int]));
                                assert(entries_well_keyed(entries@));
                            }
                        }
                        let ghost before = es@;
                        merge_entries(es, entries);
                        proof {
                            assert forall|m: int|
                                0 <= m < i + 1 implies ((#[trigger] items@[m]) matches Value::Mapping(from) ==> has_keys_of(
                                es@,
                                from@,
                            )) by {
                                if m < i {
                                    if let Value::Mapping(from) = items@[m] {
                                        assert forall|j: int| 0 <= j < from@.len() implies !lacks_key(
                                            es@,
                                            (#[trigger] from@[j]).0,
                                        ) by {
                                            assert(!lacks_key(before, from@[j].0));
                                            let w = choose|w: int|
                                                0 <= w < before.len() && same_value(before[w].0, from@[j].0);
                                            assert(es@[w] == before[w]);
                                        }
                                    }
                                }
                            }
                        }
                    },
                    _ => {
                        return Err(Error::construction(at, "Merge key sequence can only contain mappings"));
                    },
                }
                i = i + 1;
            }
            Ok(())
        },
        _ => Err(Error::construction(at, "Merge key value must be a mapping or sequence of mappings")),
    }
}

/// The entries of `before` are kept, in place and unchanged, at the start
/// of `after`.
pub open spec fn keeps_entries(before: Seq<(Value, Value)>, after: Seq<(Value, Value)>) -> bool {
    &&& before.len() <= after.len()
    &&& forall|i: int| 0 <= i < before.len() ==> #[trigger] after[i] == before[i]
}

/// Every key of `from` is present in `es`.
pub open spec fn has_keys_of(es: Seq<(Value, Value)>, from: Seq<(Value, Value)>) -> bool {
    forall|j: int| 0 <= j < from.len() ==> !lacks_key(es, (#[trigger] from[j]).0)
}

/// Every entry after the first `n` is a copy of an entry of `from`.
pub open spec fn added_from(es: Seq<(Value, Value)>, n: int, from: Seq<(Value, Value)>) -> bool {
    forall|i: int|
        n <= i < es.len() ==> exists|j: int|
            0 <= j < from.len() && same_value((#[trigger] es[i]).0, (#[trigger] from[j]).0) && same_value(
                es[i].1,
                from[j].1,
            )
}

/// Merge every entry of `from` into `es`, keeping keys already present.
fn merge_entries(es: &mut Vec<(Value, Value)>, from: &Vec<(Value, Value)>)
    ensures
        entries_well_keyed(old(es)@) && entries_well_keyed(from@) ==> entries_well_keyed(final(es)@),
        keeps_entries(old(es)@, final(es)@),
        has_keys_of(final(es)@, from@),
        added_from(final(es)@, old(es)@.len() as int, from@),
{
    let ghost start = es@;
    let mut i: usize = 0;
    while i < from.len()
        invariant
            i <= from@.len(),
            start == old(es)@,
            entries_well_keyed(old(es)@) && entries_well_keyed(from@) ==> entries_well_keyed(es@),
            keeps_entries(start, es@),
            forall|j: int| 0 <= j < i ==> !lacks_key(es@, (#[trigger] from@[j]).0),
            added_from(es@, start.len() as int, from@),
        decreases from@.len() - i,
    {
        let k = copy_value(&from[i].0);
        let v = copy_value(&from[i].1);
        proof {
            if entries_well_keyed(from@) {
                lemma_same_value_well_keyed(k, from@[i as int].0);
                lemma_same_value_well_keyed(v, from@[i as int].1);
            }
        }
        let ghost before = es@;
        merge_entry(es, k, v);
        proof {
            assert forall|j: int| 0 <= j <= i implies !lacks_key(es@, (#[trigger] from@[j]).0) by {
                if j < i {
                    assert(!lacks_key(before, from@[j].0));
                    let m = choose|m: int| 0 <= m < before.len() && same_value(before[m].0, from@[j].0);
                    assert(es@[m] == before[m]);
                } else if lacks_key(before, k) {
                    assert(es@[before.len() as int].0 == k);
                    assert(same_value(k, from@[i as int].0));
                } else {
                    let m = choose|m: int| 0 <= m < before.len() && same_value(before[m].0, k);
                    lemma_same_value_transitive(before[m].0, k, from@[i as int].0);
                    assert(same_value(es@[m].0, from@[j].0));
                }
            }
            assert forall|x: int| start.len() <= x < es@.len() implies exists|j: int|
                0 <= j < from@.len() && same_value((#[trigger] es@[x]).0, (#[trigger] from@[j]).0)
                    && same_value(es@[x].1, from@[j].1) by {
                if x < before.len() {
                    assert(es@[x] == before[x]);
                } else {
                    assert(es@[x] == (k, v));
                    assert(same_value(es@[x].0, from@[i as int].0));
                }
            }
        }
        i = i + 1;
    }
}

/// The composing state of one document: the resolver for plain scalars,
/// the anchored values seen so far, and the anchors of the collections
/// being composed.
pub struct Composer {
    /// Types plain scalars.
    pub resolver: BasicResolver,
    /// Anchored values, latest definition last.
    pub anchors: Vec<(String, Value)>,
    /// Anchors of the collections still being composed.
    pub active: Vec<String>,
}

/// Every anchored value is well keyed.
pub open spec fn anchors_well_keyed(anchors: Seq<(String, Value)>) -> bool {
    forall|i: int| 0 <= i < anchors.len() ==> well_keyed(#[trigger] anchors[i].1)
}

/// The value last anchored under `name`.
pub open spec fn last_definition(anchors: Seq<(String, Value)>, name: Seq<char>) -> Option<Value>
    decreases anchors.len(),
{
    if anchors.len() == 0 {
        None
    } else if anchors.last().0@ == name {
        Some(anchors.last().1)
    } else {
        last_definition(anchors.drop_last(), name)
    }
}

/// Whether an event is the plain, untagged merge key `<<`.
fn is_merge_key(e: &Event) -> (b: bool)
    ensures
        b == (e.event_type matches EventType::Scalar { value, tag, style, .. } && tag is None
            && style == ScalarStyle::Plain && value@ == "<<"@),
{
    match &e.event_type {
        EventType::Scalar { value, tag, style, .. } => tag.is_none() && matches!(style, ScalarStyle::Plain)
            && str_eq(value.as_str(), "<<"),
        _ => false,
    }
}

/// The scalar parts of an optional tag.
fn tag_str(tag: &Option<String>) -> (r: Option<&str>)
    ensures
        opt_view(r) == match tag {
            Some(t) => Some(t@),
            None => None::<Seq<char>>,
        },
{
    match tag {
        Some(t) => Some(t.as_str()),
        None => None,
    }
}

/// Whether an event is the merge key: an untagged plain `<<`.
pub open spec fn merge_event(e: Event) -> bool {
    e.event_type matches EventType::Scalar { value, tag, style, .. } && tag is None && style
        == ScalarStyle::Plain && value@ == "<<"@
}

/// Where composing the node at event `p` stops: just past a scalar or an
/// alias, past the end event of a collection.
pub open spec fn cnode_end(events: Seq<Event>, p: int) -> int
    decreases events.len() - p, 0int,
{
    if p < 0 || p >= events.len() {
        p
    } else {
        match events[p].event_type {
            EventType::Scalar { .. } | EventType::Alias { .. } => p + 1,
            EventType::SequenceStart { .. } => cseq_scan(events, p + 1).0,
            EventType::MappingStart { .. } => cmap_scan(events, p + 1).0,
            _ => p,
        }
    }
}

/// Composing the items of a sequence from event `q`: where it stops (past
/// the sequence's end) and how many items it composes.
pub open spec fn cseq_scan(events: Seq<Event>, q: int) -> (int, nat)
    decreases events.len() - q, 1int,
{
    if q < 0 || q >= events.len() {
        (q, 0)
    } else if events[q].event_type is SequenceEnd {
        (q + 1, 0)
    } else {
        let w = cnode_end(events, q);
        if q < w <= events.len() {
            let r = cseq_scan(events, w);
            (r.0, r.1 + 1)
        } else {
            (q, 0)
        }
    }
}

/// Composing the entries of a mapping from event `q`, each a key node
/// then a value node: where it stops (past the mapping's end) and how
/// many entries it composes.
pub open spec fn cmap_scan(events: Seq<Event>, q: int) -> (int, nat)
    decreases events.len() - q, 1int,
{
    if q < 0 || q >= events.len() {
        (q, 0)
    } else if events[q].event_type is MappingEnd {
        (q + 1, 0)
    } else {
        let k = cnode_end(events, q);
        if q < k <= events.len() {
            let v = cnode_end(events, k);
            if k < v <= events.len() {
                let r = cmap_scan(events, v);
                (r.0, r.1 + 1)
            } else {
                (q, 0)
            }
        } else {
            (q, 0)
        }
    }
}

/// The event at which item `i` of a sequence whose items start at `q`
/// begins.
pub open spec fn citem_start(events: Seq<Event>, q: int, i: nat) -> int
    decreases i,
{
    if i == 0 {
        q
    } else {
        cnode_end(events, citem_start(events, q, (i - 1) as nat))
    }
}

/// The event at which the key of entry `i` of a mapping whose entries
/// start at `q` begins.
pub open spec fn ckey_start(events: Seq<Event>, q: int, i: nat) -> int
    decreases i,
{
    if i == 0 {
        q
    } else {
        cnode_end(events, cnode_end(events, ckey_start(events, q, (i - 1) as nat)))
    }
}

/// One step of building a mapping: a key already present keeps its place
/// and takes the new value; a new key goes at the end.
pub open spec fn insert_step(before: Seq<(Value, Value)>, k: Value, v: Value, after: Seq<(Value, Value)>) -> bool {
    &&& forall|i: int| is_first_key(before, k, i) ==> after == before.update(i, (before[i].0, v))
    &&& lacks_key(before, k) ==> after == before.push((k, v))
}

/// One merge step: the entries already present stay, in place and
/// unchanged, and every key of each mapping merged in is present; entries
/// merged from a single mapping are copies of its entries.
pub open spec fn merge_step(before: Seq<(Value, Value)>, src: Value, after: Seq<(Value, Value)>) -> bool {
    &&& keeps_entries(before, after)
    &&& src matches Value::Mapping(from) ==> has_keys_of(after, from@) && added_from(after, before.len() as int, from@)
    &&& src matches Value::Sequence(items) ==> forall|m: int|
        0 <= m < items@.len() ==> ((#[trigger] items@[m]) matches Value::Mapping(from) ==> has_keys_of(after, from@))
}

/// What the first event of a node decides of its composed value `v`: a
/// scalar's typed value, or the kind of a collection.
pub open spec fn node_shape(events: Seq<Event>, q: int, m: Map<Seq<char>, Seq<char>>, v: Value) -> bool {
    0 <= q < events.len() && match events[q].event_type {
        EventType::Scalar { value, tag, style, .. } => scalar_value(
            v,
            m,
            value@,
            style == ScalarStyle::Plain,
            match tag {
                Some(t) => Some(t@),
                None => None::<Seq<char>>,
            },
        ),
        EventType::Alias { .. } => true,
        EventType::SequenceStart { .. } => v is Sequence,
        EventType::MappingStart { .. } => v is Mapping,
        _ => false,
    }
}

/// The entries `es` of the mapping that begins at event `p` were built
/// from `pairs`, the composed key and value of each entry in order
/// ([`node_shape`] of each), through `states`, the entries before each
/// step and after the last: each entry inserted ([`insert_step`]) or,
/// under a `<<` key, merged in ([`merge_step`]).
pub open spec fn mapping_steps(
    events: Seq<Event>,
    p: int,
    m: Map<Seq<char>, Seq<char>>,
    pairs: Seq<(Value, Value)>,
    states: Seq<Seq<(Value, Value)>>,
    es: Seq<(Value, Value)>,
) -> bool {
    let n = cmap_scan(events, p + 1).1;
    &&& pairs.len() == n
    &&& states.len() == n + 1
    &&& states[0] == Seq::<(Value, Value)>::empty()
    &&& states[n as int] == es
    &&& forall|i: int| 0 <= i < n ==> #[trigger] pair_composed(events, p, m, pairs, states, i)
}

/// `v` is what composing the node at event `p` gives, with `m` typing
/// plain scalars: a scalar typed by [`scalar_value`]; a sequence of its
/// composed items in order; a mapping built from its composed keys and
/// values in order, each entry inserted ([`insert_step`]) or, under a `<<`
/// key, merged in ([`merge_step`]). An alias's value depends on the
/// anchors defined before it and is not fixed here.
pub open spec fn composed(events: Seq<Event>, p: int, m: Map<Seq<char>, Seq<char>>, v: Value) -> bool
    decreases events.len() - p, 1int,
{
    if p < 0 || p >= events.len() {
        false
    } else {
        match events[p].event_type {
            EventType::Scalar { value, tag, style, .. } => scalar_value(
                v,
                m,
                value@,
                style == ScalarStyle::Plain,
                match tag {
                    Some(t) => Some(t@),
                    None => None::<Seq<char>>,
                },
            ),
            EventType::Alias { .. } => true,
            EventType::SequenceStart { .. } => {
                &&& v matches Value::Sequence(items)
                &&& items@.len() == cseq_scan(events, p + 1).1
                &&& forall|i: int|
                    0 <= i < items@.len() ==> {
                        let q = citem_start(events, p + 1, i as nat);
                        p < q <= events.len() ==> composed(events, q, m, #[trigger] items@[i])
                    }
            },
            EventType::MappingStart { .. } => {
                &&& v matches Value::Mapping(es)
                &&& exists|pairs: Seq<(Value, Value)>, states: Seq<Seq<(Value, Value)>>|
                    #[trigger] mapping_steps(events, p, m, pairs, states, es@)
            },
            _ => false,
        }
    }
}

/// Item `j` of the sequence that begins at event `p` composed to `item`.
pub open spec fn item_composed(events: Seq<Event>, p: int, m: Map<Seq<char>, Seq<char>>, j: int, item: Value) -> bool {
    let q = citem_start(events, p + 1, j as nat);
    p < q <= events.len() && composed(events, q, m, item)
}

/// Entry `i` of the mapping that begins at event `p` was built from
/// `pairs[i]`.
pub open spec fn pair_composed(
    events: Seq<Event>,
    p: int,
    m: Map<Seq<char>, Seq<char>>,
    pairs: Seq<(Value, Value)>,
    states: Seq<Seq<(Value, Value)>>,
    i: int,
) -> bool {
    let k = ckey_start(events, p + 1, i as nat);
    let kv = cnode_end(events, k);
    p < k && k < kv && kv <= events.len() && node_shape(events, k, m, pairs[i].0) && node_shape(
        events,
        kv,
        m,
        pairs[i].1,
    ) && if merge_event(events[k]) {
        merge_step(states[i], pairs[i].1, states[i + 1])
    } else {
        insert_step(states[i], pairs[i].0, pairs[i].1, states[i + 1])
    }
}

/// Whether composing the node at event `p` succeeds whatever anchors are
/// defined: no alias, every scalar accepted by its tag, every collection
/// closed by its end event, and every `<<` key followed by a mapping.
pub open spec fn composable(events: Seq<Event>, p: int) -> bool
    decreases events.len() - p, 0int,
{
    if p < 0 || p >= events.len() {
        false
    } else {
        match events[p].event_type {
            EventType::Scalar { value, tag, .. } => !scalar_rejected(
                value@,
                match tag {
                    Some(t) => Some(t@),
                    None => None::<Seq<char>>,
                },
            ),
            EventType::SequenceStart { .. } => cseq_composable(events, p + 1),
            EventType::MappingStart { .. } => cmap_composable(events, p + 1),
            _ => false,
        }
    }
}

/// Whether the items of a sequence from event `q` all compose, up to its
/// end event.
pub open spec fn cseq_composable(events: Seq<Event>, q: int) -> bool
    decreases events.len() - q, 1int,
{
    if q < 0 || q >= events.len() {
        false
    } else if events[q].event_type is SequenceEnd {
        true
    } else {
        let w = cnode_end(events, q);
        composable(events, q) && q < w <= events.len() && cseq_composable(events, w)
    }
}

/// Whether the entries of a mapping from event `q` all compose, up to its
/// end event, each `<<` key followed by a mapping.
pub open spec fn cmap_composable(events: Seq<Event>, q: int) -> bool
    decreases events.len() - q, 1int,
{
    if q < 0 || q >= events.len() {
        false
    } else if events[q].event_type is MappingEnd {
        true
    } else {
        let k = cnode_end(events, q);
        &&& composable(events, q)
        &&& q < k < events.len()
        &&& composable(events, k)
        &&& (merge_event(events[q]) ==> events[k].event_type is MappingStart)
        &&& {
            let v = cnode_end(events, k);
            k < v <= events.len() && cmap_composable(events, v)
        }
    }
}

impl Composer {
    /// A composer with the standard resolver and no anchors.
    pub fn new() -> (c: Composer)
        ensures
            c.resolver@ == crate::resolver::standard_map(),
            c.anchors@.len() == 0,
            c.active@.len() == 0,
    {
        Composer { resolver: BasicResolver::new(), anchors: Vec::new(), active: Vec::new() }
    }

    /// A copy of the value last anchored under `name`.
    fn find_anchor(&self, name: &str) -> (r: Option<Value>)
        requires
            anchors_well_keyed(self.anchors@),
        ensures
            r matches Some(v) ==> well_keyed(v),
            match last_definition(self.anchors@, name@) {
                Some(v0) => r matches Some(v) && same_value(v, v0),
                None => r is None,
            },
    {
        let mut i = self.anchors.len();
        proof {
            assert(self.anchors@.subrange(0, i as int) =~= self.anchors@);
        }
        while i > 0
            invariant
                i <= self.anchors@.len(),
                anchors_well_keyed(self.anchors@),
                last_definition(self.anchors@, name@) == last_definition(
                    self.anchors@.subrange(0, i as int),
                    name@,
                ),
            decreases i,
        {
            proof {
                let pre = self.anchors@.subrange(0, i as int);
                assert(pre.drop_last() =~= self.anchors@.subrange(0, i - 1));
                assert(pre.last() == self.anchors@[i - 1]);
            }
            if str_eq(self.anchors[i - 1].0.as_str(), name) {
                let v = copy_value(&self.anchors[i - 1].1);
                proof {
                    lemma_same_value_well_keyed(v, self.anchors@[i - 1].1);
                }
                return Some(v);
            }
            i = i - 1;
        }
        None
    }

    /// Whether `name` anchors a collection still being composed.
    fn is_active(&self, name: &str) -> (b: bool)
        ensures
            b == exists|i: int| 0 <= i < self.active@.len() && (#[trigger] self.active@[i])@ == name@,
    {
        let mut i: usize = 0;
        while i < self.active.len()
            invariant
                i <= self.active@.len(),
                forall|j: int| 0 <= j < i ==> (#[trigger] self.active@[j])@ != name@,
            decreases self.active@.len() - i,
        {
            if str_eq(self.active[i].as_str(), name) {
                return true;
            }
            i = i + 1;
        }
        false
    }

    /// Record the value of an anchored node.
    fn define(&mut self, anchor: &Option<String>, v: &Value)
        requires
            anchors_well_keyed(old(self).anchors@),
            well_keyed(*v),
        ensures
            final(self).resolver == old(self).resolver,
            anchors_well_keyed(final(self).anchors@),
            final(self).active == old(self).active,
            anchor is None ==> final(self).anchors@ == old(self).anchors@,
            anchor matches Some(name) ==> {
                &&& final(self).anchors@.len() == old(self).anchors@.len() + 1
                &&& final(self).anchors@.drop_last() == old(self).anchors@
                &&& final(self).anchors@.last().0@ == name@
                &&& same_value(final(self).anchors@.last().1, *v)
            },
    {
        if let Some(name) = anchor {
            let copy = copy_value(v);
            proof {
                lemma_same_value_well_keyed(copy, *v);
            }
            self.anchors.push((name.clone(), copy));
        }
    }

    /// Compose the node whose first event is at `pos`; returns its value
    /// and the position after its last event. A scalar is typed by
    /// [`construct_scalar`]; an alias is a copy of the value last anchored
    /// under its name; in a mapping a repeated key takes the later value,
    /// and a `<<` key merges in entries whose keys are not yet present.
    pub fn compose_node(&mut self, events: &[Event], pos: usize) -> (r: Result<(Value, usize)>)
        requires
            pos <= events@.len(),
            anchors_well_keyed(old(self).anchors@),
        ensures
            r matches Ok((_, p)) ==> pos < p <= events@.len(),
            anchors_well_keyed(final(self).anchors@),
            r matches Ok((v, _)) ==> well_keyed(v),
            final(self).resolver == old(self).resolver,
            pos < events@.len() ==> (events@[pos as int].event_type matches EventType::Alias { anchor } ==> (
            match last_definition(old(self).anchors@, anchor@) {
                Some(v0) => (r is Ok <==> !(exists|i: int|
                    0 <= i < old(self).active@.len() && (#[trigger] old(self).active@[i])@ == anchor@))
                    && (r matches Ok((v, p)) ==> p == pos + 1 && same_value(v, v0)),
                None => r is Err,
            })),
            r matches Ok((v, _)) ==> (events@[pos as int].event_type is SequenceStart ==> v is Sequence),
            r matches Ok((v, _)) ==> (events@[pos as int].event_type is MappingStart ==> v is Mapping),
            r matches Ok((v, p)) ==> p == cnode_end(events@, pos as int) && composed(
                events@,
                pos as int,
                old(self).resolver@,
                v,
            ),
            composable(events@, pos as int) ==> r is Ok,
            r matches Ok((v, p)) ==> (events@[pos as int].event_type matches EventType::Scalar {
                value,
                tag,
                style,
                ..
            } ==> p == pos + 1 && scalar_value(
                v,
                old(self).resolver@,
                value@,
                style == ScalarStyle::Plain,
                match tag {
                    Some(t) => Some(t@),
                    None => None::<Seq<char>>,
                },
            )),
        decreases events@.len() - pos,
    {
        if pos >= events.len() {
            return Err(Error::construction(Position::new(), "unexpected end of the events"));
        }
        let e = &events[pos];
        match &e.event_type {
            EventType::Alias { anchor } => {
                if self.is_active(anchor.as_str()) {
                    return Err(Error::construction(e.position, "an alias refers to a node that contains it"));
                }
                match self.find_anchor(anchor.as_str()) {
                    Some(v) => Ok((v, pos + 1)),
                    None => Err(Error::construction(e.position, "found an undefined alias")),
                }
            },
            EventType::Scalar { anchor, tag, value, style, .. } => {
                let plain = matches!(style, ScalarStyle::Plain);
                let v = match construct_scalar(&self.resolver, value.as_str(), plain, tag_str(tag)) {
                    Ok(v) => v,
                    Err(mut err) => {
                        err.position = e.position;
                        return Err(err);
                    },
                };
                self.define(anchor, &v);
                Ok((v, pos + 1))
            },
            EventType::SequenceStart { anchor, .. } => {
                if let Some(name) = anchor {
                    self.active.push(name.clone());
                }
                let mut items: Vec<Value> = Vec::new();
                let mut cur = pos + 1;
                loop
                    invariant_except_break
                        cur == citem_start(events@, pos + 1, items@.len()),
                        cseq_scan(events@, pos + 1) == (
                            cseq_scan(events@, cur as int).0,
                            items@.len() + cseq_scan(events@, cur as int).1,
                        ),
                        composable(events@, pos as int) ==> cseq_composable(events@, cur as int),
                    invariant
                        pos < cur <= events@.len(),
                        self.resolver == old(self).resolver,
                        events@[pos as int].event_type is SequenceStart,
                        anchors_well_keyed(self.anchors@),
                        forall|j: int| 0 <= j < items@.len() ==> well_keyed(#[trigger] items@[j]),
                        forall|j: int| 0 <= j < items@.len() ==> item_composed(events@, pos as int, old(self).resolver@, j, #[trigger] items@[j]),
                    ensures
                        cur == cseq_scan(events@, pos + 1).0,
                        items@.len() == cseq_scan(events@, pos + 1).1,
                    decreases events@.len() - cur,
                {
                    if cur >= events.len() {
                        return Err(Error::construction(e.position, "unterminated sequence"));
                    }
                    if matches!(events[cur].event_type, EventType::SequenceEnd) {
                        cur = cur + 1;
                        break;
                    }
                    let ghost before = items@;
                    let (item, next) = self.compose_node(events, cur)?;
                    items.push(item);
                    proof {
                        assert(citem_start(events@, pos + 1, before.len()) == cur);
                        assert forall|j: int| 0 <= j < items@.len() implies item_composed(events@, pos as int, old(self).resolver@, j, #[trigger] items@[j]) by {
                            if j < before.len() {
                                assert(items@[j] == before[j]);
                            }
                        }
                        assert forall|j: int| 0 <= j < items@.len() implies well_keyed(#[trigger] items@[j]) by {
                            if j < before.len() {
                                assert(items@[j] == before[j]);
                            }
                        }
                    }
                    cur = next;
                }
                if anchor.is_some() {
                    self.active.pop();
                }
                let v = Value::Sequence(items);
                self.define(anchor, &v);
                Ok((v, cur))
            },
            EventType::MappingStart { anchor, .. } => {
                if let Some(name) = anchor {
                    self.active.push(name.clone());
                }
                let mut entries: Vec<(Value, Value)> = Vec::new();
                let mut cur = pos + 1;
                let ghost mut pairs: Seq<(Value, Value)> = Seq::empty();
                let ghost mut states: Seq<Seq<(Value, Value)>> = seq![Seq::<(Value, Value)>::empty()];
                loop
                    invariant_except_break
                        cur == ckey_start(events@, pos + 1, pairs.len()),
                        cmap_scan(events@, pos + 1) == (
                            cmap_scan(events@, cur as int).0,
                            pairs.len() + cmap_scan(events@, cur as int).1,
                        ),
                        composable(events@, pos as int) ==> cmap_composable(events@, cur as int),
                    invariant
                        pos < cur <= events@.len(),
                        self.resolver == old(self).resolver,
                        events@[pos as int].event_type is MappingStart,
                        anchors_well_keyed(self.anchors@),
                        entries_well_keyed(entries@),
                        states.len() == pairs.len() + 1,
                        states[0] == Seq::<(Value, Value)>::empty(),
                        states[pairs.len() as int] == entries@,
                        forall|i: int| 0 <= i < pairs.len() ==> pair_composed(events@, pos as int, old(self).resolver@, pairs, states, i),
                    ensures
                        cur == cmap_scan(events@, pos + 1).0,
                        pairs.len() == cmap_scan(events@, pos + 1).1,
                    decreases events@.len() - cur,
                {
                    if cur >= events.len() {
                        return Err(Error::construction(e.position, "unterminated mapping"));
                    }
                    if matches!(events[cur].event_type, EventType::MappingEnd) {
                        cur = cur + 1;
                        break;
                    }
                    let merge = is_merge_key(&events[cur]);
                    let at = events[cur].position;
                    let (key, after_key) = self.compose_node(events, cur)?;
                    let (val, after_val) = self.compose_node(events, after_key)?;
                    let ghost gk = key;
                    let ghost gv = val;
                    let ghost before = entries@;
                    if merge {
                        merge_into(&mut entries, &val, at)?;
                    } else {
                        insert_entry(&mut entries, key, val);
                    }
                    proof {
                        let n = pairs.len();
                        assert(ckey_start(events@, pos + 1, n) == cur);
                        let old_pairs = pairs;
                        let old_states = states;
                        pairs = pairs.push((gk, gv));
                        states = states.push(entries@);
                        assert forall|i: int| 0 <= i < pairs.len() implies pair_composed(events@, pos as int, old(self).resolver@, pairs, states, i) by {
                            if i < n {
                                assert(pairs[i] == old_pairs[i]);
                                assert(states[i] == old_states[i]);
                                assert(states[i + 1] == old_states[i + 1]);
                                assert(pair_composed(events@, pos as int, old(self).resolver@, old_pairs, old_states, i));
                            } else {
                                assert(states[i] == before);
                            }
                        }
                    }
                    cur = after_val;
                }
                if anchor.is_some() {
                    self.active.pop();
                }
                proof {
                    let m = old(self).resolver@;
                    assert(mapping_steps(events@, pos as int, m, pairs, states, entries@));
                    assert(exists|pairs2: Seq<(Value, Value)>, states2: Seq<Seq<(Value, Value)>>|
                        #[trigger] mapping_steps(events@, pos as int, m, pairs2, states2, entries@));
                    let gv = Value::Mapping(entries);
                    assert(gv matches Value::Mapping(es) && es@ == entries@);
                    assert(composed(events@, pos as int, m, gv));
                }
                let v = Value::Mapping(entries);
                self.define(anchor, &v);
                Ok((v, cur))
            },
            _ => Err(Error::construction(e.position, "expected a node")),
        }
    }
}

/// The value of the first document, whose root node begins at event 2,
/// as far as that event decides: a scalar typed by the standard
/// resolver, or a sequence or a mapping.
pub open spec fn first_document_value(events: Seq<Event>, v: Value) -> bool {
    match events[2].event_type {
        EventType::Scalar { value, tag, style, .. } => scalar_value(
            v,
            crate::resolver::standard_map(),
            value@,
            style == ScalarStyle::Plain,
            match tag {
                Some(t) => Some(t@),
                None => None::<Seq<char>>,
            },
        ),
        EventType::SequenceStart { .. } => v is Sequence,
        EventType::MappingStart { .. } => v is Mapping,
        _ => true,
    }
}

/// Composing the documents of a stream from event `c`: the number of
/// documents, each a document start, a node and a document end, before
/// the stream end.
pub open spec fn cdoc_count(events: Seq<Event>, c: int) -> nat
    decreases events.len() - c,
{
    if c < 0 || c >= events.len() || !(events[c].event_type is DocumentStart) {
        0
    } else {
        let e = cnode_end(events, c + 1);
        if c + 1 < e < events.len() && events[e].event_type is DocumentEnd {
            1 + cdoc_count(events, e + 1)
        } else {
            0
        }
    }
}

/// The event at which document `i` counted from event `c` starts.
pub open spec fn cdoc_at(events: Seq<Event>, c: int, i: nat) -> int
    decreases i,
{
    if i == 0 {
        c
    } else {
        cnode_end(events, cdoc_at(events, c, (i - 1) as nat) + 1) + 1
    }
}

/// Whether the documents of a stream from event `c` all compose whatever
/// anchors are defined ([`composable`]), each closed by its document end,
/// up to the stream end.
pub open spec fn cstream_composable(events: Seq<Event>, c: int) -> bool
    decreases events.len() - c,
{
    if c < 0 || c >= events.len() {
        false
    } else if events[c].event_type is StreamEnd {
        true
    } else {
        let e = cnode_end(events, c + 1);
        &&& events[c].event_type is DocumentStart
        &&& composable(events, c + 1)
        &&& c + 1 < e < events.len()
        &&& events[e].event_type is DocumentEnd
        &&& cstream_composable(events, e + 1)
    }
}

/// Compose each document of an event stream into its value. A stream
/// without documents composes to a single null.
pub fn compose_events(events: &[Event]) -> (r: Result<Vec<Value>>)
    ensures
        r matches Ok(values) ==> values@.len() >= 1,
        r matches Ok(values) ==> forall|i: int| 0 <= i < values@.len() ==> well_keyed(#[trigger] values@[i]),
        events@.len() >= 2 && events@[0].event_type is StreamStart && events@[1].event_type is StreamEnd ==> (r matches Ok(
            values,
        ) && values@ == seq![Value::Null]),
        events@.len() == 0 || !(events@[0].event_type is StreamStart) ==> r is Err,
        r matches Ok(values) ==> (events@.len() > 2 && events@[1].event_type is DocumentStart ==> first_document_value(
            events@,
            values@[0],
        )),
        events@.len() > 2 && events@[0].event_type is StreamStart && events@[1].event_type is DocumentStart
            && events@[2].event_type is Alias ==> r is Err,
        r matches Ok(values) ==> (cdoc_count(events@, 1) > 0 ==> values@.len() == cdoc_count(events@, 1)),
        r matches Ok(values) ==> forall|i: int|
            0 <= i < cdoc_count(events@, 1) ==> composed(
                events@,
                cdoc_at(events@, 1, i as nat) + 1,
                crate::resolver::standard_map(),
                #[trigger] values@[i],
            ),
        events@.len() > 0 && events@[0].event_type is StreamStart && cstream_composable(events@, 1) ==> r is Ok,
{
    if events.len() == 0 || !matches!(events[0].event_type, EventType::StreamStart) {
        return Err(Error::construction(Position::new(), "expected the start of the stream"));
    }
    let mut values: Vec<Value> = Vec::new();
    let mut cur: usize = 1;
    loop
        invariant
            1 <= cur <= events@.len(),
            forall|i: int| 0 <= i < values@.len() ==> well_keyed(#[trigger] values@[i]),
            cur == 1 ==> values@.len() == 0,
            events@.len() >= 2 && events@[1].event_type is StreamEnd ==> cur == 1,
            cur > 1 && events@.len() > 2 && events@[1].event_type is DocumentStart ==> values@.len() >= 1
                && first_document_value(events@, values@[0]),
            events@.len() > 2 && events@[1].event_type is DocumentStart && events@[2].event_type is Alias ==> cur
                == 1,
            cur == cdoc_at(events@, 1, values@.len()),
            cdoc_count(events@, 1) == values@.len() + cdoc_count(events@, cur as int),
            forall|i: int|
                0 <= i < values@.len() ==> composed(
                    events@,
                    cdoc_at(events@, 1, i as nat) + 1,
                    crate::resolver::standard_map(),
                    #[trigger] values@[i],
                ),
            cstream_composable(events@, 1) ==> cstream_composable(events@, cur as int),
        ensures
            cur < events@.len() && events@[cur as int].event_type is StreamEnd,
        decreases events@.len() - cur,
    {
        if cur >= events.len() {
            return Err(Error::construction(Position::new(), "expected the end of the stream"));
        }
        match &events[cur].event_type {
            EventType::StreamEnd => {
                break;
            },
            EventType::DocumentStart { .. } => {
                let mut composer = Composer::new();
                let (v, next) = composer.compose_node(events, cur + 1)?;
                if next >= events.len() || !matches!(events[next].event_type, EventType::DocumentEnd { .. }) {
                    return Err(Error::construction(Position::new(), "expected the end of a document"));
                }
                let ghost before = values@;
                values.push(v);
                proof {
                    assert(cdoc_at(events@, 1, before.len()) == cur);
                    assert forall|i: int|
                        0 <= i < values@.len() implies composed(
                            events@,
                            cdoc_at(events@, 1, i as nat) + 1,
                            crate::resolver::standard_map(),
                            #[trigger] values@[i],
                        ) by {
                        if i < before.len() {
                            assert(values@[i] == before[i]);
                        }
                    }
                    assert forall|i: int| 0 <= i < values@.len() implies well_keyed(#[trigger] values@[i]) by {
                        if i < before.len() {
                            assert(values@[i] == before[i]);
                        }
                    }
                }
                cur = next + 1;
            },
            _ => {
                return Err(Error::construction(events[cur].position, "expected the start of a document"));
            },
        }
    }
    if values.len() == 0 {
        values.push(Value::Null);
        proof {
            assert(well_keyed(Value::Null));
            assert(values@ =~= seq![Value::Null]);
        }
    }
    Ok(values)
}

} // verus!
