//! Byte-offset views of strings: slicing at character boundaries and the
//! facts about UTF-8 encodings that the rest of the library relies on.

use vstd::prelude::*;
use vstd::string::StringSliceAdditionalSpecFns;
use vstd::utf8::{encode_utf8, is_char_boundary, is_continuation_byte, valid_utf8};

verus! {

broadcast use vstd::utf8::group_utf8_lib;

/// The UTF-8 bytes of a character sequence.
pub open spec fn bytes_of(cs: Seq<char>) -> Seq<u8> {
    encode_utf8(cs)
}

/// Encoding distributes over concatenation.
pub proof fn lemma_encode_concat(a: Seq<char>, b: Seq<char>)
    ensures
        encode_utf8(a + b) == encode_utf8(a) + encode_utf8(b),
    decreases a.len(),
{
    if a.len() == 0 {
        assert(a + b =~= b);
        assert(encode_utf8(a) =~= Seq::<u8>::empty());
        assert(encode_utf8(a) + encode_utf8(b) =~= encode_utf8(b));
    } else {
        assert((a + b).drop_first() =~= a.drop_first() + b);
        assert((a + b)[0] == a[0]);
        lemma_encode_concat(a.drop_first(), b);
        assert(encode_utf8(a + b) =~= vstd::utf8::encode_scalar(a[0] as u32) + encode_utf8(
            a.drop_first() + b,
        ));
    }
}

/// Encoding is injective.
pub proof fn lemma_encode_injective(a: Seq<char>, b: Seq<char>)
    requires
        encode_utf8(a) == encode_utf8(b),
    ensures
        a == b,
{
    vstd::utf8::encode_utf8_decode_utf8(a);
    vstd::utf8::encode_utf8_decode_utf8(b);
}

/// In valid UTF-8, an in-range index is a character boundary exactly when
/// its byte is not a continuation byte; the end is always a boundary.
pub proof fn lemma_boundary_by_byte(bytes: Seq<u8>, index: int)
    requires
        valid_utf8(bytes),
        0 <= index <= bytes.len(),
    ensures
        index < bytes.len() ==> (is_char_boundary(bytes, index) <==> !is_continuation_byte(
            bytes[index],
        )),
        index == bytes.len() ==> is_char_boundary(bytes, index),
        index == 0 ==> is_char_boundary(bytes, index),
{
    vstd::utf8::is_char_boundary_start_end_of_seq(bytes);
    if index < bytes.len() {
        vstd::utf8::is_char_boundary_iff_not_is_continuation_byte(bytes, index);
    }
}

/// The slice `s[start..end]` of a string, by byte offsets on character
/// boundaries.
pub fn slice_str(s: &str, start: usize, end: usize) -> (r: &str)
    requires
        start <= end <= s.spec_bytes().len(),
        is_char_boundary(s.spec_bytes(), start as int),
        is_char_boundary(s.spec_bytes(), end as int),
    ensures
        r.spec_bytes() == s.spec_bytes().subrange(start as int, end as int),
{
    let ghost bytes = s.spec_bytes();
    proof {
        vstd::utf8::encode_utf8_valid_utf8(s@);
    }
    let (_, tail) = s.split_at(start);
    proof {
        vstd::utf8::encode_utf8_valid_utf8(tail@);
        let tb = tail.spec_bytes();
        let j = (end - start) as int;
        lemma_boundary_by_byte(bytes, end as int);
        lemma_boundary_by_byte(tb, j);
        if j < tb.len() {
            assert(tb[j] == bytes[end as int]);
        }
    }
    let (head, _) = tail.split_at(end - start);
    proof {
        assert(head.spec_bytes() =~= bytes.subrange(start as int, end as int));
    }
    head
}

/// Whether a byte is a UTF-8 continuation byte.
pub fn is_continuation(b: u8) -> (r: bool)
    ensures
        r == is_continuation_byte(b),
{
    0x80 <= b && b <= 0xBF
}

/// Whether byte offset `i` of `s` is on a character boundary.
pub fn str_is_char_boundary(s: &str, i: usize) -> (r: bool)
    ensures
        r == is_char_boundary(s.spec_bytes(), i as int),
{
    s.is_char_boundary(i)
}

} // verus!

verus! {

/// The length of `s` in bytes.
pub fn str_byte_len(s: &str) -> (n: usize)
    ensures
        n == s.spec_bytes().len(),
{
    s.as_bytes().len()
}

} // verus!

verus! {

/// The number of UTF-8 bytes of a character sequence.
pub open spec fn utf8_len(cs: Seq<char>) -> nat {
    encode_utf8(cs).len()
}

/// Appending a character adds its UTF-8 width to the byte length.
pub proof fn lemma_utf8_len_push(cs: Seq<char>, c: char)
    ensures
        utf8_len(cs.push(c)) == utf8_len(cs) + crate::chars::spec_len_utf8(c),
{
    lemma_encode_concat(cs, seq![c]);
    assert(cs.push(c) =~= cs + seq![c]);
    assert(seq![c].drop_first() =~= Seq::<char>::empty());
    assert(encode_utf8(seq![c]) =~= vstd::utf8::encode_scalar(c as u32) + encode_utf8(Seq::<char>::empty()));
    vstd::utf8::char_is_scalar(c);
}

/// Byte length grows with the prefix taken.
pub proof fn lemma_utf8_len_prefix(cs: Seq<char>, i: int, j: int)
    requires
        0 <= i <= j <= cs.len(),
    ensures
        utf8_len(cs.subrange(0, i)) <= utf8_len(cs.subrange(0, j)),
        i <= utf8_len(cs.subrange(0, i)),
    decreases j,
{
    if j > 0 {
        if i < j {
            lemma_utf8_len_prefix(cs, i, j - 1);
            assert(cs.subrange(0, j) =~= cs.subrange(0, j - 1).push(cs[j - 1]));
            lemma_utf8_len_push(cs.subrange(0, j - 1), cs[j - 1]);
        } else {
            lemma_utf8_len_prefix(cs, i - 1, j - 1);
            assert(cs.subrange(0, j) =~= cs.subrange(0, j - 1).push(cs[j - 1]));
            lemma_utf8_len_push(cs.subrange(0, j - 1), cs[j - 1]);
        }
    } else {
        assert(cs.subrange(0, 0) =~= Seq::<char>::empty());
    }
}

/// The byte length of a prefix of a character sequence is a character
/// boundary of the sequence's encoding.
pub proof fn lemma_prefix_is_boundary(cs: Seq<char>, k: int)
    requires
        0 <= k <= cs.len(),
    ensures
        is_char_boundary(encode_utf8(cs), utf8_len(cs.subrange(0, k)) as int),
    decreases k,
{
    vstd::utf8::encode_utf8_valid_utf8(cs);
    if k == 0 {
        assert(cs.subrange(0, 0) =~= Seq::<char>::empty());
        assert(encode_utf8(Seq::<char>::empty()) =~= Seq::<u8>::empty());
    } else {
        let bytes = encode_utf8(cs);
        vstd::utf8::encode_utf8_first_scalar(cs);
        assert(vstd::utf8::pop_first_scalar(bytes) =~= encode_utf8(cs.drop_first()));
        lemma_prefix_is_boundary(cs.drop_first(), k - 1);
        let pre = cs.subrange(0, k);
        assert(pre.drop_first() =~= cs.drop_first().subrange(0, k - 1));
        assert(pre[0] == cs[0]);
        lemma_utf8_len_prefix(cs, k, cs.len() as int);
        assert(cs.subrange(0, cs.len() as int) =~= cs);
        vstd::utf8::encode_utf8_valid_utf8(cs.drop_first());
    }
}

/// The leading bytes of an encoding, up to a prefix's byte length, are the
/// prefix's encoding.
pub proof fn lemma_prefix_bytes(cs: Seq<char>, k: int)
    requires
        0 <= k <= cs.len(),
    ensures
        encode_utf8(cs).subrange(0, utf8_len(cs.subrange(0, k)) as int) == encode_utf8(cs.subrange(0, k)),
{
    lemma_encode_concat(cs.subrange(0, k), cs.subrange(k, cs.len() as int));
    assert(cs.subrange(0, k) + cs.subrange(k, cs.len() as int) =~= cs);
    assert(encode_utf8(cs).subrange(0, utf8_len(cs.subrange(0, k)) as int) =~= encode_utf8(
        cs.subrange(0, k),
    ));
}

} // verus!
