//! Recognising numbers in scalar text: the decimal integer syntax of a
//! signed 64-bit integer and the decimal floating-point syntax.

use vstd::prelude::*;

verus! {

/// An ASCII decimal digit.
pub open spec fn is_digit_char(c: char) -> bool {
    '0' <= c && c <= '9'
}

/// Every character is a decimal digit.
pub open spec fn all_digits(s: Seq<char>) -> bool {
    forall|i: int| 0 <= i < s.len() ==> is_digit_char(#[trigger] s[i])
}

/// The value of a run of decimal digits.
pub open spec fn digits_value(s: Seq<char>) -> nat
    decreases s.len(),
{
    if s.len() == 0 {
        0
    } else {
        digits_value(s.drop_last()) * 10 + ((s.last() as u32) - ('0' as u32)) as nat
    }
}

/// Whether the text starts with a sign.
pub open spec fn has_sign(s: Seq<char>) -> bool {
    s.len() > 0 && (s[0] == '+' || s[0] == '-')
}

/// The text after an optional leading sign.
pub open spec fn unsigned_part(s: Seq<char>) -> Seq<char> {
    if has_sign(s) {
        s.drop_first()
    } else {
        s
    }
}

/// Whether the text starts with a minus sign.
pub open spec fn is_negative(s: Seq<char>) -> bool {
    s.len() > 0 && s[0] == '-'
}

/// The integer syntax of a signed 64-bit integer: an optional sign and
/// one or more digits, whose value lies in range.
pub open spec fn spec_is_int(s: Seq<char>) -> bool {
    let body = unsigned_part(s);
    &&& body.len() > 0
    &&& all_digits(body)
    &&& if is_negative(s) {
        digits_value(body) <= 0x8000_0000_0000_0000
    } else {
        digits_value(body) <= 0x7fff_ffff_ffff_ffff
    }
}

/// The value such text denotes.
pub open spec fn spec_int_value(s: Seq<char>) -> int {
    if is_negative(s) {
        -(digits_value(unsigned_part(s)) as int)
    } else {
        digits_value(unsigned_part(s)) as int
    }
}

/// A longer run of digits is worth at least as much as its prefix.
pub proof fn lemma_digits_value_prefix(s: Seq<char>, k: int)
    requires
        0 <= k <= s.len(),
        all_digits(s),
    ensures
        digits_value(s.subrange(0, k)) <= digits_value(s),
    decreases s.len() - k,
{
    if k < s.len() {
        lemma_digits_value_prefix(s, k + 1);
        let p = s.subrange(0, k + 1);
        assert(p.drop_last() =~= s.subrange(0, k));
        assert(is_digit_char(s[k]));
    } else {
        assert(s.subrange(0, k) =~= s);
    }
}

/// Parse text with the integer syntax of a signed 64-bit integer.
pub fn parse_i64(text: &str) -> (r: Option<i64>)
    ensures
        r is Some <==> spec_is_int(text@),
        r matches Some(v) ==> v == spec_int_value(text@),
{
    let cs = crate::text::str_to_chars(text);
    let len = cs.len();
    let mut start: usize = 0;
    let mut negative = false;
    if len > 0 && (cs[0] == '+' || cs[0] == '-') {
        negative = cs[0] == '-';
        start = 1;
    }
    let ghost body = unsigned_part(cs@);
    proof {
        if has_sign(cs@) {
            assert(body =~= cs@.subrange(1, len as int));
        } else {
            assert(body =~= cs@.subrange(0, len as int));
        }
    }
    if start >= len {
        return None;
    }
    let limit: u64 = if negative {
        0x8000_0000_0000_0000
    } else {
        0x7fff_ffff_ffff_ffff
    };
    let mut acc: u64 = 0;
    let mut i: usize = start;
    while i < len
        invariant
            start <= i <= len,
            len == cs@.len(),
            body == cs@.subrange(start as int, len as int),
            all_digits(cs@.subrange(start as int, i as int)),
            acc == digits_value(cs@.subrange(start as int, i as int)),
            acc <= limit,
            cs@ == text@,
            body == unsigned_part(cs@),
            negative == is_negative(cs@),
            limit == (if is_negative(cs@) {
                0x8000_0000_0000_0000u64
            } else {
                0x7fff_ffff_ffff_ffffu64
            }),
        decreases len - i,
    {
        let c = cs[i];
        if !('0' <= c && c <= '9') {
            proof {
                assert(body[i - start] == c);
                assert(!is_digit_char(body[i - start]));
            }
            return None;
        }
        let d = ((c as u32) - ('0' as u32)) as u64;
        assert(d <= 9);
        proof {
            let next = cs@.subrange(start as int, i + 1);
            assert(next.drop_last() =~= cs@.subrange(start as int, i as int));
            assert(all_digits(next));
        }
        if acc > (limit - d) / 10 {
            proof {
                let next = cs@.subrange(start as int, i + 1);
                assert(digits_value(next) > limit);
                if all_digits(body) {
                    assert(next =~= body.subrange(0, i + 1 - start));
                    lemma_digits_value_prefix(body, i + 1 - start);
                }
            }
            return None;
        }
        acc = acc * 10 + d;
        i = i + 1;
    }
    proof {
        assert(cs@.subrange(start as int, len as int) =~= body);
    }
    if negative {
        if acc == 0x8000_0000_0000_0000 {
            Some(i64::MIN)
        } else {
            Some(-(acc as i64))
        }
    } else {
        Some(acc as i64)
    }
}

/// ASCII letters folded to lower case.
pub open spec fn lower(c: char) -> char {
    if 'A' <= c && c <= 'Z' {
        ((c as u32) + 32) as char
    } else {
        c
    }
}

/// Whether `s` spells `word` (given in lower case), ignoring ASCII case.
pub open spec fn eq_ignore_case(s: Seq<char>, word: Seq<char>) -> bool {
    s.len() == word.len() && forall|i: int| 0 <= i < s.len() ==> lower(#[trigger] s[i]) == word[i]
}

/// Digits with at most one decimal point and at least one digit:
/// `1`, `1.`, `.5`, `1.5`.
pub open spec fn is_mantissa(m: Seq<char>) -> bool {
    &&& forall|i: int| 0 <= i < m.len() ==> is_digit_char(#[trigger] m[i]) || m[i] == '.'
    &&& forall|i: int, j: int| 0 <= i < j < m.len() && m[i] == '.' ==> m[j] != '.'
    &&& exists|i: int| 0 <= i < m.len() && is_digit_char(#[trigger] m[i])
}

/// An exponent after `e`: an optional sign and one or more digits.
pub open spec fn is_exponent(x: Seq<char>) -> bool {
    unsigned_part(x).len() > 0 && all_digits(unsigned_part(x))
}

/// The decimal floating-point syntax: an optional sign, then `inf`,
/// `infinity` or `nan` in any case, or a mantissa with an optional
/// exponent.
pub open spec fn spec_is_float(s: Seq<char>) -> bool {
    let b = unsigned_part(s);
    ||| eq_ignore_case(b, "inf"@)
    ||| eq_ignore_case(b, "infinity"@)
    ||| eq_ignore_case(b, "nan"@)
    ||| is_mantissa(b)
    ||| has_exponent_split(b)
}

/// A mantissa, an `e` or `E`, and an exponent.
pub open spec fn has_exponent_split(b: Seq<char>) -> bool {
    exists|k: int|
        0 <= k < b.len() && (b[k] == 'e' || b[k] == 'E') && is_mantissa(#[trigger] b.subrange(0, k))
            && is_exponent(b.subrange(k + 1, b.len() as int))
}

/// Where the first exponent marker is, a mantissa can only end there,
/// and the whole is no mantissa.
proof fn lemma_split_at_first_marker(b: Seq<char>, kk: int)
    requires
        0 <= kk < b.len(),
        b[kk] == 'e' || b[kk] == 'E',
        forall|j: int| 0 <= j < kk ==> b[j] != 'e' && b[j] != 'E',
    ensures
        !is_mantissa(b),
        has_exponent_split(b) <==> (is_mantissa(b.subrange(0, kk)) && is_exponent(
            b.subrange(kk + 1, b.len() as int),
        )),
{
    assert(!(is_digit_char(b[kk]) || b[kk] == '.'));
    if has_exponent_split(b) {
        let k = choose|k: int|
            0 <= k < b.len() && (b[k] == 'e' || b[k] == 'E') && is_mantissa(#[trigger] b.subrange(0, k))
                && is_exponent(b.subrange(k + 1, b.len() as int));
        if k > kk {
            assert(b.subrange(0, k)[kk] == b[kk]);
            assert(!(is_digit_char(b.subrange(0, k)[kk]) || b.subrange(0, k)[kk] == '.'));
        }
        assert(k == kk);
    }
    if is_mantissa(b.subrange(0, kk)) && is_exponent(b.subrange(kk + 1, b.len() as int)) {
        assert(has_exponent_split(b));
    }
}

/// Without an exponent marker there is no split.
proof fn lemma_no_marker(b: Seq<char>)
    requires
        forall|j: int| 0 <= j < b.len() ==> b[j] != 'e' && b[j] != 'E',
    ensures
        !has_exponent_split(b),
{
}

/// ASCII letters folded to lower case.
fn lower_char(c: char) -> (r: char)
    ensures
        r == lower(c),
{
    if 'A' <= c && c <= 'Z' {
        ((c as u8) + 32) as char
    } else {
        c
    }
}

/// Whether `cs[lo..]` spells `word` (lower case), ignoring ASCII case.
pub(crate) fn rest_eq_ignore_case(cs: &[char], lo: usize, word: &str) -> (b: bool)
    requires
        lo <= cs@.len(),
    ensures
        b == eq_ignore_case(cs@.subrange(lo as int, cs@.len() as int), word@),
{
    let w = crate::text::str_to_chars(word);
    let n = cs.len();
    if n - lo != w.len() {
        return false;
    }
    let ghost rest = cs@.subrange(lo as int, cs@.len() as int);
    let mut i: usize = 0;
    while i < w.len()
        invariant
            i <= w@.len(),
            w@ == word@,
            rest.len() == w@.len(),
            rest == cs@.subrange(lo as int, cs@.len() as int),
            lo + w@.len() == cs@.len(),
            n == cs@.len(),
            forall|j: int| 0 <= j < i ==> lower(#[trigger] rest[j]) == w@[j],
        decreases w@.len() - i,
    {
        if lower_char(cs[lo + i]) != w[i] {
            proof {
                assert(rest[i as int] == cs@[lo + i]);
            }
            return false;
        }
        i = i + 1;
    }
    true
}

/// Whether `text` spells `word` (given in lower case), ignoring ASCII case.
pub fn text_eq_ignore_case(text: &str, word: &str) -> (b: bool)
    ensures
        b == eq_ignore_case(text@, word@),
{
    let cs = crate::text::str_to_chars(text);
    proof {
        assert(cs@.subrange(0, cs@.len() as int) =~= cs@);
    }
    rest_eq_ignore_case(cs.as_slice(), 0, word)
}

/// Whether `cs[lo..hi]` is a mantissa.
fn check_mantissa(cs: &[char], lo: usize, hi: usize) -> (b: bool)
    requires
        lo <= hi <= cs@.len(),
    ensures
        b == is_mantissa(cs@.subrange(lo as int, hi as int)),
{
    let ghost m = cs@.subrange(lo as int, hi as int);
    let mut seen_dot = false;
    let mut seen_digit = false;
    let mut i: usize = lo;
    while i < hi
        invariant
            lo <= i <= hi <= cs@.len(),
            m == cs@.subrange(lo as int, hi as int),
            forall|j: int| 0 <= j < i - lo ==> is_digit_char(#[trigger] m[j]) || m[j] == '.',
            forall|j: int, k: int| 0 <= j < k < i - lo && m[j] == '.' ==> m[k] != '.',
            seen_dot <==> exists|j: int| 0 <= j < i - lo && #[trigger] m[j] == '.',
            seen_digit <==> exists|j: int| 0 <= j < i - lo && is_digit_char(#[trigger] m[j]),
        decreases hi - i,
    {
        let c = cs[i];
        proof {
            assert(m[i - lo] == c);
        }
        if '0' <= c && c <= '9' {
            seen_digit = true;
        } else if c == '.' {
            if seen_dot {
                proof {
                    let j = choose|j: int| 0 <= j < i - lo && #[trigger] m[j] == '.';
                    assert(m[j] == '.' && m[i - lo] == '.');
                }
                return false;
            }
            seen_dot = true;
        } else {
            return false;
        }
        i = i + 1;
    }
    seen_digit
}

/// Whether `cs[lo..hi]` is an exponent: an optional sign and digits.
fn check_exponent(cs: &[char], lo: usize, hi: usize) -> (b: bool)
    requires
        lo <= hi <= cs@.len(),
    ensures
        b == is_exponent(cs@.subrange(lo as int, hi as int)),
{
    let ghost x = cs@.subrange(lo as int, hi as int);
    let mut start = lo;
    if lo < hi && (cs[lo] == '+' || cs[lo] == '-') {
        start = lo + 1;
    }
    proof {
        if has_sign(x) {
            assert(unsigned_part(x) =~= cs@.subrange(lo + 1, hi as int));
        } else {
            assert(unsigned_part(x) =~= x);
        }
        assert(unsigned_part(x) =~= cs@.subrange(start as int, hi as int));
    }
    if start >= hi {
        return false;
    }
    let mut i = start;
    while i < hi
        invariant
            start <= i <= hi <= cs@.len(),
            forall|j: int| start <= j < i ==> is_digit_char(#[trigger] cs@[j]),
            x == cs@.subrange(lo as int, hi as int),
            unsigned_part(x) == cs@.subrange(start as int, hi as int),
        decreases hi - i,
    {
        if !('0' <= cs[i] && cs[i] <= '9') {
            proof {
                assert(cs@.subrange(start as int, hi as int)[i - start] == cs@[i as int]);
                assert(!is_digit_char(cs@.subrange(start as int, hi as int)[i - start]));
            }
            return false;
        }
        i = i + 1;
    }
    proof {
        let u = cs@.subrange(start as int, hi as int);
        assert forall|j: int| 0 <= j < u.len() implies is_digit_char(#[trigger] u[j]) by {
            assert(u[j] == cs@[start + j]);
        }
    }
    true
}

/// Whether text has the decimal floating-point syntax.
pub fn is_float_text(text: &str) -> (b: bool)
    ensures
        b == spec_is_float(text@),
{
    let cs = crate::text::str_to_chars(text);
    let len = cs.len();
    let mut start: usize = 0;
    if len > 0 && (cs[0] == '+' || cs[0] == '-') {
        start = 1;
    }
    let ghost b = unsigned_part(cs@);
    proof {
        if has_sign(cs@) {
            assert(b =~= cs@.subrange(1, len as int));
        } else {
            assert(b =~= cs@.subrange(0, len as int));
        }
        reveal_strlit("inf");
        reveal_strlit("infinity");
        reveal_strlit("nan");
    }
    if rest_eq_ignore_case(cs.as_slice(), start, "inf") || rest_eq_ignore_case(cs.as_slice(), start, "infinity")
        || rest_eq_ignore_case(cs.as_slice(), start, "nan") {
        return true;
    }
    let mut k = start;
    while k < len && cs[k] != 'e' && cs[k] != 'E'
        invariant
            start <= k <= len,
            len == cs@.len(),
            forall|j: int| start <= j < k ==> cs@[j] != 'e' && cs@[j] != 'E',
        decreases len - k,
    {
        k = k + 1;
    }
    proof {
        assert(b =~= cs@.subrange(start as int, len as int));
    }
    if k == len {
        let r = check_mantissa(cs.as_slice(), start, len);
        proof {
            assert forall|j: int| 0 <= j < b.len() implies b[j] != 'e' && b[j] != 'E' by {
                assert(b[j] == cs@[start + j]);
            }
            lemma_no_marker(b);
        }
        return r;
    }
    let m = check_mantissa(cs.as_slice(), start, k);
    let x = check_exponent(cs.as_slice(), k + 1, len);
    proof {
        let kk = k - start;
        assert(b.subrange(0, kk) =~= cs@.subrange(start as int, k as int));
        assert(b.subrange(kk + 1, b.len() as int) =~= cs@.subrange(k + 1, len as int));
        assert(b[kk] == cs@[k as int]);
        assert forall|j: int| 0 <= j < kk implies b[j] != 'e' && b[j] != 'E' by {
            assert(b[j] == cs@[start + j]);
        }
        lemma_split_at_first_marker(b, kk);
    }
    m && x
}

} // verus!
