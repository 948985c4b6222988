//! Tag resolution: which core-schema type a plain scalar's text denotes.

use crate::numbers::{spec_is_int, spec_is_float, parse_i64, is_float_text};
use vstd::prelude::*;

verus! {

/// Resolves the tag of a scalar from its text.
pub trait Resolver {
    /// The tag for implicit typing of `value`; `None` when the scalar is
    /// not implicitly typed.
    fn resolve_tag(&self, value: &str, implicit: bool) -> Option<String>;

    /// Map the exact text `pattern` to `tag`.
    fn add_implicit_resolver(&mut self, tag: String, pattern: String);

    /// Reset the resolver's state.
    fn reset(&mut self);
}

/// The tags of the core schema.
pub open spec fn bool_tag() -> Seq<char> {
    "tag:yaml.org,2002:bool"@
}

/// The null tag.
pub open spec fn null_tag() -> Seq<char> {
    "tag:yaml.org,2002:null"@
}

/// The integer tag.
pub open spec fn int_tag() -> Seq<char> {
    "tag:yaml.org,2002:int"@
}

/// The floating-point tag.
pub open spec fn float_tag() -> Seq<char> {
    "tag:yaml.org,2002:float"@
}

/// The string tag.
pub open spec fn str_tag() -> Seq<char> {
    "tag:yaml.org,2002:str"@
}

/// The pattern-to-tag map of a list of entries; a later entry for the
/// same pattern wins.
pub open spec fn entries_map(es: Seq<(String, String)>) -> Map<Seq<char>, Seq<char>>
    decreases es.len(),
{
    if es.len() == 0 {
        Map::empty()
    } else {
        entries_map(es.drop_last()).insert(es.last().0@, es.last().1@)
    }
}

/// No pattern occurs twice.
pub open spec fn patterns_unique(es: Seq<(String, String)>) -> bool {
    forall|i: int, j: int| 0 <= i < j < es.len() ==> (#[trigger] es[i]).0@ != (#[trigger] es[j]).0@
}

/// The standard patterns: the spellings of booleans and nulls.
pub open spec fn standard_map() -> Map<Seq<char>, Seq<char>> {
    Map::empty().insert("true"@, bool_tag()).insert("True"@, bool_tag()).insert("TRUE"@, bool_tag()).insert(
        "false"@,
        bool_tag(),
    ).insert("False"@, bool_tag()).insert("FALSE"@, bool_tag()).insert("null"@, null_tag()).insert(
        "Null"@,
        null_tag(),
    ).insert("NULL"@, null_tag()).insert("~"@, null_tag())
}

/// The tag of a text under a pattern map: an exact pattern first, then
/// integer syntax, then floating-point syntax, else string.
pub open spec fn spec_resolve(m: Map<Seq<char>, Seq<char>>, v: Seq<char>) -> Seq<char> {
    if m.contains_key(v) {
        m[v]
    } else if spec_is_int(v) {
        int_tag()
    } else if spec_is_float(v) {
        float_tag()
    } else {
        str_tag()
    }
}

/// Replacing the entry of a pattern replaces its tag in the map.
proof fn lemma_entries_map_update(es: Seq<(String, String)>, i: int, e: (String, String))
    requires
        patterns_unique(es),
        0 <= i < es.len(),
        es[i].0@ == e.0@,
    ensures
        entries_map(es.update(i, e)) == entries_map(es).insert(e.0@, e.1@),
    decreases es.len(),
{
    let u = es.update(i, e);
    if i == es.len() - 1 {
        assert(u.drop_last() =~= es.drop_last());
        assert(entries_map(u) =~= entries_map(es).insert(e.0@, e.1@));
    } else {
        let d = es.drop_last();
        assert(u.drop_last() =~= d.update(i, e));
        assert(patterns_unique(d)) by {
            assert forall|a: int, b: int| 0 <= a < b < d.len() implies (#[trigger] d[a]).0@ != (#[trigger] d[b]).0@ by {
                assert(d[a] == es[a] && d[b] == es[b]);
            }
        }
        lemma_entries_map_update(d, i, e);
        assert(es[i].0@ != es.last().0@);
        assert(entries_map(u) =~= entries_map(es).insert(e.0@, e.1@));
    }
}

/// Resolver with the core schema's implicit typing: booleans and nulls by
/// exact spelling, then integers, then floats, else strings.
#[derive(Debug)]
pub struct BasicResolver {
    implicit_resolvers: Vec<(String, String)>,
}

impl View for BasicResolver {
    type V = Map<Seq<char>, Seq<char>>;

    closed spec fn view(&self) -> Map<Seq<char>, Seq<char>> {
        entries_map(self.implicit_resolvers@)
    }
}

impl BasicResolver {
    /// Each pattern has one entry.
    #[verifier::type_invariant]
    spec fn wf(self) -> bool {
        patterns_unique(self.implicit_resolvers@)
    }

    /// Whether the resolver maps no pattern.
    pub closed spec fn spec_is_empty(self) -> bool {
        self.implicit_resolvers@.len() == 0
    }

    /// A resolver with the standard patterns.
    pub fn new() -> (r: Self)
        ensures
            r@ == standard_map(),
    {
        let mut r = BasicResolver { implicit_resolvers: Vec::new() };
        proof {
            assert(r@ =~= Map::empty());
        }
        r.add_standard_resolvers();
        r
    }

    /// Whether the resolver maps no pattern.
    pub fn is_empty(&self) -> (b: bool)
        ensures
            b == (self@.dom().len() == 0),
    {
        proof {
            use_type_invariant(self);
            lemma_entries_map_size(self.implicit_resolvers@);
        }
        self.implicit_resolvers.len() == 0
    }

    /// Map `pattern` to `tag`, replacing an earlier tag for it.
    fn insert_pattern(&mut self, pattern: String, tag: String)
        ensures
            final(self)@ == old(self)@.insert(pattern@, tag@),
    {
        proof {
            use_type_invariant(&*self);
        }
        let mut i: usize = 0;
        let n = self.implicit_resolvers.len();
        while i < n
            invariant
                i <= n == self.implicit_resolvers@.len(),
                self.implicit_resolvers@ == old(self).implicit_resolvers@,
                patterns_unique(self.implicit_resolvers@),
                forall|j: int| 0 <= j < i ==> (#[trigger] self.implicit_resolvers@[j]).0@ != pattern@,
            decreases n - i,
        {
            if self.implicit_resolvers[i].0 == pattern {
                let ghost es = self.implicit_resolvers@;
                let e = (pattern, tag);
                proof {
                    lemma_entries_map_update(es, i as int, e);
                    assert(patterns_unique(es.update(i as int, e))) by {
                        assert forall|a: int, b: int| 0 <= a < b < es.len() implies (#[trigger] es.update(i as int, e)[a]).0@ != (#[trigger] es.update(i as int, e)[b]).0@ by {
                            assert(es[i as int].0@ == e.0@);
                        }
                    }
                }
                let mut v: Vec<(String, String)> = Vec::new();
                std::mem::swap(&mut v, &mut self.implicit_resolvers);
                v.set(i, e);
                self.implicit_resolvers = v;
                return;
            }
            i = i + 1;
        }
        let ghost es = self.implicit_resolvers@;
        let mut v: Vec<(String, String)> = Vec::new();
        std::mem::swap(&mut v, &mut self.implicit_resolvers);
        v.push((pattern, tag));
        proof {
            assert(v@.drop_last() =~= es);
            assert(patterns_unique(v@)) by {
                assert forall|a: int, b: int| 0 <= a < b < v@.len() implies (#[trigger] v@[a]).0@ != (#[trigger] v@[b]).0@ by {
                    if b == es.len() {
                        assert(v@[a] == es[a]);
                    }
                }
            }
        }
        self.implicit_resolvers = v;
    }

    /// Map the spellings of booleans and nulls to their tags.
    fn add_standard_resolvers(&mut self)
        ensures
            final(self)@ == old(self)@.insert("true"@, bool_tag()).insert("True"@, bool_tag()).insert(
                "TRUE"@,
                bool_tag(),
            ).insert("false"@, bool_tag()).insert("False"@, bool_tag()).insert("FALSE"@, bool_tag()).insert(
                "null"@,
                null_tag(),
            ).insert("Null"@, null_tag()).insert("NULL"@, null_tag()).insert("~"@, null_tag()),
    {
        self.insert_pattern("true".to_owned(), "tag:yaml.org,2002:bool".to_owned());
        self.insert_pattern("True".to_owned(), "tag:yaml.org,2002:bool".to_owned());
        self.insert_pattern("TRUE".to_owned(), "tag:yaml.org,2002:bool".to_owned());
        self.insert_pattern("false".to_owned(), "tag:yaml.org,2002:bool".to_owned());
        self.insert_pattern("False".to_owned(), "tag:yaml.org,2002:bool".to_owned());
        self.insert_pattern("FALSE".to_owned(), "tag:yaml.org,2002:bool".to_owned());
        self.insert_pattern("null".to_owned(), "tag:yaml.org,2002:null".to_owned());
        self.insert_pattern("Null".to_owned(), "tag:yaml.org,2002:null".to_owned());
        self.insert_pattern("NULL".to_owned(), "tag:yaml.org,2002:null".to_owned());
        self.insert_pattern("~".to_owned(), "tag:yaml.org,2002:null".to_owned());
    }

    /// The tag `value` maps to, if some pattern matches it exactly.
    fn lookup(&self, value: &str) -> (r: Option<String>)
        ensures
            r is Some <==> self@.contains_key(value@),
            r matches Some(t) ==> t@ == self@[value@],
    {
        let ghost es = self.implicit_resolvers@;
        let mut i: usize = self.implicit_resolvers.len();
        proof {
            assert(es.subrange(0, i as int) =~= es);
        }
        while i > 0
            invariant
                i <= es.len(),
                es == self.implicit_resolvers@,
                entries_map(es).contains_key(value@) == entries_map(es.subrange(0, i as int)).contains_key(
                    value@,
                ),
                entries_map(es).contains_key(value@) ==> entries_map(es)[value@] == entries_map(
                    es.subrange(0, i as int),
                )[value@],
            decreases i,
        {
            let ghost sub = es.subrange(0, i as int);
            proof {
                assert(sub.drop_last() =~= es.subrange(0, i - 1));
                assert(sub.last() == es[i - 1]);
            }
            if crate::text::str_eq(self.implicit_resolvers[i - 1].0.as_str(), value) {
                return Some(self.implicit_resolvers[i - 1].1.clone());
            }
            i = i - 1;
        }
        proof {
            assert(entries_map(es.subrange(0, 0)) =~= Map::empty());
        }
        None
    }

    /// Whether the text has the integer syntax of a signed 64-bit integer.
    pub fn is_int(&self, value: &str) -> (b: bool)
        ensures
            b == spec_is_int(value@),
    {
        parse_i64(value).is_some()
    }

    /// Whether the text has the decimal floating-point syntax.
    pub fn is_float(&self, value: &str) -> (b: bool)
        ensures
            b == spec_is_float(value@),
    {
        is_float_text(value)
    }
}

/// The number of patterns of a list with unique patterns is its length.
proof fn lemma_entries_map_size(es: Seq<(String, String)>)
    requires
        patterns_unique(es),
    ensures
        entries_map(es).dom().finite(),
        entries_map(es).dom().len() == es.len(),
    decreases es.len(),
{
    if es.len() > 0 {
        let d = es.drop_last();
        assert(patterns_unique(d)) by {
            assert forall|a: int, b: int| 0 <= a < b < d.len() implies (#[trigger] d[a]).0@ != (#[trigger] d[b]).0@ by {
                assert(d[a] == es[a] && d[b] == es[b]);
            }
        }
        lemma_entries_map_size(d);
        lemma_entries_map_keys(d);
        assert(!entries_map(d).dom().contains(es.last().0@)) by {
            if entries_map(d).dom().contains(es.last().0@) {
                let k = choose|k: int| 0 <= k < d.len() && (#[trigger] d[k]).0@ == es.last().0@;
                assert(es[k].0@ != es[es.len() - 1].0@);
            }
        }
    }
}

/// A pattern is in the map exactly when some entry has it.
proof fn lemma_entries_map_keys(es: Seq<(String, String)>)
    ensures
        forall|p: Seq<char>| #[trigger] entries_map(es).dom().contains(p) <==> exists|k: int| 0 <= k < es.len() && (#[trigger] es[k]).0@ == p,
    decreases es.len(),
{
    if es.len() > 0 {
        let d = es.drop_last();
        lemma_entries_map_keys(d);
        assert forall|p: Seq<char>| #[trigger] entries_map(es).dom().contains(p) <==> exists|k: int| 0 <= k < es.len() && (#[trigger] es[k]).0@ == p by {
            if entries_map(es).dom().contains(p) {
                if p != es.last().0@ {
                    assert(entries_map(es) == entries_map(d).insert(es.last().0@, es.last().1@));
                    assert(entries_map(d).dom().contains(p));
                    assert(exists|k: int| 0 <= k < d.len() && (#[trigger] d[k]).0@ == p);
                    let k = choose|k: int| 0 <= k < d.len() && (#[trigger] d[k]).0@ == p;
                    assert(es[k] == d[k]);
                } else {
                    assert(es[es.len() - 1].0@ == p);
                }
            }
            if exists|k: int| 0 <= k < es.len() && (#[trigger] es[k]).0@ == p {
                let k = choose|k: int| 0 <= k < es.len() && (#[trigger] es[k]).0@ == p;
                assert(entries_map(es) == entries_map(d).insert(es.last().0@, es.last().1@));
                if k < es.len() - 1 {
                    assert(d[k] == es[k]);
                    assert(exists|k2: int| 0 <= k2 < d.len() && (#[trigger] d[k2]).0@ == p);
                    assert(entries_map(d).dom().contains(p));
                }
            }
        }
    }
}

impl Resolver for BasicResolver {
    /// The tag of `value` under implicit typing: an exact pattern's tag,
    /// else the integer, float or string tag by its syntax; `None` when not
    /// implicit.
    fn resolve_tag(&self, value: &str, implicit: bool) -> (r: Option<String>)
        ensures
            !implicit ==> r is None,
            implicit ==> (r matches Some(t) && t@ == spec_resolve(self@, value@)),
    {
        if !implicit {
            return None;
        }
        match self.lookup(value) {
            Some(t) => Some(t),
            None => {
                if self.is_int(value) {
                    Some("tag:yaml.org,2002:int".to_owned())
                } else if self.is_float(value) {
                    Some("tag:yaml.org,2002:float".to_owned())
                } else {
                    Some("tag:yaml.org,2002:str".to_owned())
                }
            },
        }
    }

    /// Map the exact text `pattern` to `tag`, replacing an earlier tag for
    /// the same pattern.
    fn add_implicit_resolver(&mut self, tag: String, pattern: String)
        ensures
            final(self)@ == old(self)@.insert(pattern@, tag@),
    {
        self.insert_pattern(pattern, tag);
    }

    /// Keeps every pattern: the standard ones are part of the schema.
    fn reset(&mut self)
        ensures
            final(self)@ == old(self)@,
    {
    }
}

impl Default for BasicResolver {
    /// A resolver with the standard patterns.
    fn default() -> (r: Self)
        ensures
            r@ == standard_map(),
    {
        Self::new()
    }
}

/// After a pattern is added, its text resolves to the added tag, and
/// every other text resolves as before.
pub proof fn lemma_added_pattern_resolves(
    m: Map<Seq<char>, Seq<char>>,
    tag: Seq<char>,
    pattern: Seq<char>,
    other: Seq<char>,
)
    ensures
        spec_resolve(m.insert(pattern, tag), pattern) == tag,
        other != pattern ==> spec_resolve(m.insert(pattern, tag), other) == spec_resolve(m, other),
{
}

} // verus!

verus! {

/// `d` is the upper-case letter of the lower-case letter `c`.
pub open spec fn is_upper_of(d: char, c: char) -> bool {
    'a' <= c <= 'z' && d as u32 + 32 == c as u32
}

/// `s` spells the lower-case word `w` in one of the three cases YAML
/// accepts for its core words: all lower case, all upper case, or
/// capitalized.
pub open spec fn spelled_as(s: Seq<char>, w: Seq<char>) -> bool {
    &&& s.len() == w.len()
    &&& w.len() > 0
    &&& {
        ||| forall|i: int| 0 <= i < s.len() ==> s[i] == w[i]
        ||| forall|i: int| 0 <= i < s.len() ==> is_upper_of(s[i], w[i])
        ||| is_upper_of(s[0], w[0]) && forall|i: int| 1 <= i < s.len() ==> s[i] == w[i]
    }
}

/// Characters with the same code are the same character.
proof fn lemma_same_code(c: char, d: char)
    requires
        c as u32 == d as u32,
    ensures
        c == d,
{
    vstd::utf8::char_u32_cast(c, c as u32);
    vstd::utf8::char_u32_cast(d, d as u32);
}

/// A spelling in one of the three cases of a four- or five-letter word is
/// one of three texts.
proof fn lemma_spelled_as(s: Seq<char>, w: Seq<char>, cap: Seq<char>, up: Seq<char>)
    requires
        spelled_as(s, w),
        cap.len() == w.len() && up.len() == w.len(),
        forall|i: int| 0 <= i < w.len() ==> 'a' <= #[trigger] w[i] <= 'z',
        forall|i: int| 0 <= i < w.len() ==> is_upper_of(#[trigger] up[i], w[i]),
        cap[0] == up[0],
        forall|i: int| 1 <= i < w.len() ==> #[trigger] cap[i] == w[i],
    ensures
        s == w || s == cap || s == up,
{
    if forall|i: int| 0 <= i < s.len() ==> s[i] == w[i] {
        assert(s =~= w);
    } else if forall|i: int| 0 <= i < s.len() ==> is_upper_of(s[i], w[i]) {
        assert forall|i: int| 0 <= i < s.len() implies s[i] == up[i] by {
            assert(is_upper_of(s[i], w[i]) && is_upper_of(up[i], w[i]));
            lemma_same_code(s[i], up[i]);
        }
        assert(s =~= up);
    } else {
        assert(is_upper_of(s[0], w[0]) && is_upper_of(up[0], w[0]));
        lemma_same_code(s[0], up[0]);
        assert(s =~= cap);
    }
}

/// The standard resolver gives the boolean tag to exactly the spellings
/// of `true` and `false` in lower, upper or capitalized case, and the
/// null tag to exactly those of `null` and to `~`; every other text is
/// typed by its syntax as an integer, a float or a string.
pub proof fn law_standard_resolution(s: Seq<char>)
    ensures
        spec_resolve(standard_map(), s) == bool_tag() <==> spelled_as(s, "true"@) || spelled_as(s, "false"@),
        spec_resolve(standard_map(), s) == null_tag() <==> spelled_as(s, "null"@) || s == "~"@,
        !(spelled_as(s, "true"@) || spelled_as(s, "false"@) || spelled_as(s, "null"@) || s == "~"@)
            ==> spec_resolve(standard_map(), s) == (if spec_is_int(s) {
            int_tag()
        } else if spec_is_float(s) {
            float_tag()
        } else {
            str_tag()
        }),
{
    reveal_strlit("true");
    reveal_strlit("True");
    reveal_strlit("TRUE");
    reveal_strlit("false");
    reveal_strlit("False");
    reveal_strlit("FALSE");
    reveal_strlit("null");
    reveal_strlit("Null");
    reveal_strlit("NULL");
    reveal_strlit("~");
    reveal_strlit("tag:yaml.org,2002:bool");
    reveal_strlit("tag:yaml.org,2002:null");
    reveal_strlit("tag:yaml.org,2002:int");
    reveal_strlit("tag:yaml.org,2002:float");
    reveal_strlit("tag:yaml.org,2002:str");
    let m = standard_map();
    assert(bool_tag() != null_tag()) by {
        assert(bool_tag()[18] != null_tag()[18]);
    }
    assert(int_tag().len() != bool_tag().len() && str_tag().len() != bool_tag().len() && float_tag().len()
        != bool_tag().len());
    assert(int_tag().len() != null_tag().len() && str_tag().len() != null_tag().len() && float_tag().len()
        != null_tag().len());
    // The spellings accepted.
    if spelled_as(s, "true"@) {
        lemma_spelled_as(s, "true"@, "True"@, "TRUE"@);
    }
    if spelled_as(s, "false"@) {
        lemma_spelled_as(s, "false"@, "False"@, "FALSE"@);
    }
    if spelled_as(s, "null"@) {
        lemma_spelled_as(s, "null"@, "Null"@, "NULL"@);
    }
    // The keys of the map are spellings.
    assert(spelled_as("true"@, "true"@));
    assert(spelled_as("True"@, "true"@));
    assert(spelled_as("TRUE"@, "true"@));
    assert(spelled_as("false"@, "false"@));
    assert(spelled_as("False"@, "false"@));
    assert(spelled_as("FALSE"@, "false"@));
    assert(spelled_as("null"@, "null"@));
    assert(spelled_as("Null"@, "null"@));
    assert(spelled_as("NULL"@, "null"@));
    assert(!spelled_as("~"@, "true"@) && !spelled_as("~"@, "false"@) && !spelled_as("~"@, "null"@));
    assert(!spelled_as("true"@, "null"@) && !spelled_as("True"@, "null"@) && !spelled_as("TRUE"@, "null"@));
    assert(!spelled_as("false"@, "null"@) && !spelled_as("False"@, "null"@) && !spelled_as("FALSE"@, "null"@));
    assert(!spelled_as("null"@, "true"@) && !spelled_as("Null"@, "true"@) && !spelled_as("NULL"@, "true"@));
    assert(!spelled_as("null"@, "false"@) && !spelled_as("Null"@, "false"@) && !spelled_as("NULL"@, "false"@));
}

} // verus!
