//! Comparing float spellings by the decimal value they stand for.

use crate::numbers::{digits_value, eq_ignore_case, is_digit_char, is_exponent, is_mantissa, is_negative, unsigned_part, rest_eq_ignore_case};
use crate::text::{str_eq, str_to_chars};
use vstd::prelude::*;

verus! {

/// The digits of a mantissa, its decimal point left out.
pub open spec fn digits_only(m: Seq<char>) -> Seq<char>
    decreases m.len(),
{
    if m.len() == 0 {
        m
    } else if m.last() == '.' {
        digits_only(m.drop_last())
    } else {
        digits_only(m.drop_last()).push(m.last())
    }
}

/// Whether a decimal point stands in `m`, and how many characters follow
/// it.
pub open spec fn after_point(m: Seq<char>) -> (bool, nat)
    decreases m.len(),
{
    if m.len() == 0 {
        (false, 0)
    } else if m.last() == '.' {
        (true, 0)
    } else {
        let r = after_point(m.drop_last());
        if r.0 {
            (true, r.1 + 1)
        } else {
            (false, 0)
        }
    }
}

/// `d` without its leading zeros.
pub open spec fn strip_leading_zeros(d: Seq<char>) -> Seq<char>
    decreases d.len(),
{
    if d.len() > 0 && d[0] == '0' {
        strip_leading_zeros(d.drop_first())
    } else {
        d
    }
}

/// `d` without its trailing zeros, and how many there were.
pub open spec fn strip_trailing_zeros(d: Seq<char>) -> (Seq<char>, nat)
    decreases d.len(),
{
    if d.len() > 0 && d.last() == '0' {
        let r = strip_trailing_zeros(d.drop_last());
        (r.0, r.1 + 1)
    } else {
        (d, 0)
    }
}

/// The index of the first `e` or `E` in `b` at or after `i`, or the
/// length of `b` when there is none.
pub open spec fn exponent_mark(b: Seq<char>, i: int) -> int
    decreases b.len() - i,
{
    if i < 0 || i >= b.len() {
        b.len() as int
    } else if b[i] == 'e' || b[i] == 'E' {
        i
    } else {
        exponent_mark(b, i + 1)
    }
}

/// The text after an exponent mark at `k` in `t`, empty when `k` is the
/// end.
pub open spec fn exponent_text(t: Seq<char>, k: int) -> Seq<char> {
    if k < t.len() {
        t.subrange(k + 1, t.len() as int)
    } else {
        Seq::<char>::empty()
    }
}

/// The value a float spelling stands for, as a kind (0 a finite number,
/// 1 an infinity, 2 not a number), a sign, and, for a finite number, its
/// significant digits without leading or trailing zeros and the power of
/// ten they are scaled by (no digits for zero). `None` for text that is
/// no float spelling, or whose exponent exceeds 10^18 in magnitude.
pub open spec fn float_key(t: Seq<char>) -> Option<(int, bool, Seq<char>, int)> {
    let neg = is_negative(t);
    let b = unsigned_part(t);
    if eq_ignore_case(b, "inf"@) || eq_ignore_case(b, "infinity"@) {
        Some((1, neg, Seq::<char>::empty(), 0))
    } else if eq_ignore_case(b, "nan"@) {
        Some((2, false, Seq::<char>::empty(), 0))
    } else {
        let k = exponent_mark(b, 0);
        let m = b.subrange(0, k);
        let x = if k < b.len() {
            b.subrange(k + 1, b.len() as int)
        } else {
            Seq::<char>::empty()
        };
        let xv = digits_value(unsigned_part(x));
        if !is_mantissa(m) || (k < b.len() && !is_exponent(x)) || xv > 1_000_000_000_000_000_000 {
            None
        } else {
            let e = (if is_negative(x) {
                -(xv as int)
            } else {
                xv as int
            }) - after_point(m).1;
            let d = strip_leading_zeros(digits_only(m));
            if d.len() == 0 {
                Some((0, neg, Seq::<char>::empty(), 0))
            } else {
                let s = strip_trailing_zeros(d);
                Some((0, neg, s.0, e + s.1))
            }
        }
    }
}

/// Two float spellings stand for the same value: the same [`float_key`],
/// or, where neither has one, the same text.
pub open spec fn same_float(a: Seq<char>, b: Seq<char>) -> bool {
    match (float_key(a), float_key(b)) {
        (Some(x), Some(y)) => x == y,
        (None, None) => a == b,
        _ => false,
    }
}

/// The digits of the mantissa `cs[lo..k]` and how many characters follow
/// its point; `None` when it is no mantissa.
fn scan_mantissa(cs: &[char], lo: usize, k: usize) -> (r: Option<(Vec<char>, usize)>)
    requires
        lo <= k <= cs@.len(),
    ensures
        r is None <==> !is_mantissa(cs@.subrange(lo as int, k as int)),
        r matches Some((d, a)) ==> d@ == digits_only(cs@.subrange(lo as int, k as int)) && a == after_point(
            cs@.subrange(lo as int, k as int),
        ).1,
{
    let ghost m = cs@.subrange(lo as int, k as int);
    let mut digits: Vec<char> = Vec::new();
    let mut seen_point = false;
    let mut after: usize = 0;
    let mut has_digit = false;
    let mut i: usize = lo;
    proof {
        assert(m.subrange(0, 0) =~= Seq::<char>::empty());
    }
    while i < k
        invariant
            lo <= i <= k <= cs@.len(),
            m == cs@.subrange(lo as int, k as int),
            digits@ == digits_only(m.subrange(0, i - lo)),
            seen_point == after_point(m.subrange(0, i - lo)).0,
            after == after_point(m.subrange(0, i - lo)).1,
            after <= i,
            seen_point == exists|j: int| 0 <= j < i - lo && m[j] == '.',
            has_digit == exists|j: int| 0 <= j < i - lo && is_digit_char(#[trigger] m[j]),
            forall|j: int| 0 <= j < i - lo ==> is_digit_char(#[trigger] m[j]) || m[j] == '.',
            forall|j1: int, j2: int| 0 <= j1 < j2 < i - lo && m[j1] == '.' ==> m[j2] != '.',
        decreases k - i,
    {
        let c = cs[i];
        let ghost pre = m.subrange(0, i - lo);
        let ghost next = m.subrange(0, i - lo + 1);
        proof {
            assert(m[i - lo] == c);
            assert(next.drop_last() =~= pre);
            assert(next.last() == c);
        }
        if c == '.' {
            if seen_point {
                proof {
                    let j = choose|j: int| 0 <= j < i - lo && m[j] == '.';
                    assert(m[j] == '.' && m[i - lo] == '.');
                    assert(!is_mantissa(m));
                }
                return None;
            }
            seen_point = true;
            after = 0;
        } else if '0' <= c && c <= '9' {
            digits.push(c);
            has_digit = true;
            if seen_point {
                after = after + 1;
            }
        } else {
            proof {
                assert(!(is_digit_char(m[i - lo]) || m[i - lo] == '.'));
                assert(!is_mantissa(m));
            }
            return None;
        }
        i = i + 1;
    }
    proof {
        assert(m.subrange(0, k - lo) =~= m);
    }
    if !has_digit {
        return None;
    }
    Some((digits, after))
}

/// The sign and the value of the exponent `cs[k+1..]` after a mark at
/// `k` (none when `k` is the end); `None` when it is no exponent or its
/// value exceeds 10^18.
fn scan_exponent(cs: &[char], k: usize) -> (r: Option<(bool, u64)>)
    requires
        k <= cs@.len(),
    ensures
        r is None <==> ((k < cs@.len() && !is_exponent(exponent_text(cs@, k as int))) || digits_value(
            unsigned_part(exponent_text(cs@, k as int)),
        ) > 1_000_000_000_000_000_000),
        r matches Some((neg, v)) ==> neg == is_negative(exponent_text(cs@, k as int)) && v as nat == digits_value(
            unsigned_part(exponent_text(cs@, k as int)),
        ),
{
    let n: usize = cs.len();
    if k >= n {
        proof {
            assert(exponent_text(cs@, k as int) == Seq::<char>::empty());
            assert(unsigned_part(Seq::<char>::empty()) =~= Seq::<char>::empty());
        }
        return Some((false, 0));
    }
    let ghost x = exponent_text(cs@, k as int);
    proof {
        assert(x == cs@.subrange(k + 1, n as int));
    }
    let mut xv: u64 = 0;
    let mut xneg = false;
    let mut j: usize = k + 1;
    if j < n && (cs[j] == '+' || cs[j] == '-') {
        xneg = cs[j] == '-';
        j = j + 1;
    }
    let ghost ux = unsigned_part(x);
    proof {
        assert(ux =~= cs@.subrange(j as int, n as int));
        assert(xneg == is_negative(x));
    }
    if j >= n {
        proof {
            assert(ux.len() == 0);
            assert(!is_exponent(x));
        }
        return None;
    }
    let j0: usize = j;
    proof {
        assert(ux.subrange(0, 0) =~= Seq::<char>::empty());
    }
    while j < n
        invariant
            j0 <= j <= n,
            n == cs@.len(),
            ux == cs@.subrange(j0 as int, n as int),
            k < n,
            x == exponent_text(cs@, k as int),
            ux == unsigned_part(x),
            ux.len() > 0,
            xv as nat == digits_value(ux.subrange(0, j - j0)),
            xv <= 1_000_000_000_000_000_000,
            forall|q: int| 0 <= q < j - j0 ==> is_digit_char(#[trigger] ux[q]),
        decreases n - j,
    {
        let c = cs[j];
        proof {
            assert(ux[j - j0] == c);
        }
        if !('0' <= c && c <= '9') {
            proof {
                assert(!is_digit_char(ux[j - j0]));
                assert(!is_exponent(x));
                }
            return None;
        }
        let ghost pre = ux.subrange(0, j - j0);
        let ghost next = ux.subrange(0, j - j0 + 1);
        proof {
            assert(next.drop_last() =~= pre);
            assert(next.last() == c);
        }
        let dv: u64 = (c as u32 - '0' as u32) as u64;
        xv = xv * 10 + dv;
        j = j + 1;
        if xv > 1_000_000_000_000_000_000 {
            proof {
                if is_exponent(x) {
                    crate::numbers::lemma_digits_value_prefix(ux, j - j0);
                }
            }
            return None;
        }
    }
    proof {
        assert(ux.subrange(0, j - j0) =~= ux);
    }
    Some((xneg, xv))
}

/// The significant digits of `d` and how many trailing zeros were
/// dropped; `None` when `d` holds only zeros.
#[verifier::rlimit(60)]
fn significant_digits(d: &Vec<char>) -> (r: Option<(Vec<char>, usize)>)
    ensures
        r is None <==> strip_leading_zeros(d@).len() == 0,
        r matches Some((out, z)) ==> out@ == strip_trailing_zeros(strip_leading_zeros(d@)).0 && z as nat
            == strip_trailing_zeros(strip_leading_zeros(d@)).1,
{
    let dn: usize = d.len();
    let mut s: usize = 0;
    proof {
        assert(d@.subrange(0, dn as int) =~= d@);
    }
    while s < dn && d[s] == '0'
        invariant
            s <= dn,
            dn == d@.len(),
            strip_leading_zeros(d@) == strip_leading_zeros(d@.subrange(s as int, dn as int)),
        decreases dn - s,
    {
        proof {
            let rest = d@.subrange(s as int, dn as int);
            assert(rest.drop_first() =~= d@.subrange(s + 1, dn as int));
        }
        s = s + 1;
    }
    let ghost sd = d@.subrange(s as int, dn as int);
    if s == dn {
        proof {
            assert(sd.len() == 0);
        }
        return None;
    }
    proof {
        assert(strip_leading_zeros(sd) == sd);
    }
    let mut t: usize = dn;
    let mut z: usize = 0;
    proof {
        assert(sd.subrange(0, (t - s) as int) =~= sd);
    }
    while t > s + 1 && d[t - 1] == '0'
        invariant
            s < t <= dn,
            dn == d@.len(),
            sd == d@.subrange(s as int, dn as int),
            sd[0] != '0',
            z == dn - t,
            strip_trailing_zeros(sd).0 == strip_trailing_zeros(sd.subrange(0, t - s)).0,
            strip_trailing_zeros(sd).1 == strip_trailing_zeros(sd.subrange(0, t - s)).1 + z,
        decreases t,
    {
        proof {
            let cur = sd.subrange(0, t - s);
            assert(cur.last() == d@[t - 1]);
            assert(cur.drop_last() =~= sd.subrange(0, t - 1 - s));
        }
        t = t - 1;
        z = z + 1;
    }
    proof {
        let cur = sd.subrange(0, t - s);
        assert(cur.len() > 0);
        assert(cur.last() == d@[t - 1]);
        if t == s + 1 {
            assert(cur.last() == sd[0]);
        }
        assert(!(cur.last() == '0'));
        assert(strip_trailing_zeros(cur) == (cur, 0nat));
    }
    let mut out: Vec<char> = Vec::new();
    let mut q: usize = s;
    while q < t
        invariant
            s <= q <= t <= dn,
            dn == d@.len(),
            out@ == d@.subrange(s as int, q as int),
        decreases t - q,
    {
        out.push(d[q]);
        proof {
            assert(d@.subrange(s as int, q + 1) =~= d@.subrange(s as int, q as int).push(d@[q as int]));
        }
        q = q + 1;
    }
    proof {
        assert(out@ =~= sd.subrange(0, t - s));
    }
    Some((out, z))
}

/// The key of a float spelling ([`float_key`]).
fn float_key_of(cs: &[char]) -> (r: Option<(u8, bool, Vec<char>, i128)>)
    ensures
        match r {
            None => float_key(cs@) is None,
            Some((kind, neg, d, e)) => float_key(cs@) == Some((kind as int, neg, d@, e as int)),
        },
{
    let n: usize = cs.len();
    let neg = n > 0 && cs[0] == '-';
    let lo: usize = if n > 0 && (cs[0] == '+' || cs[0] == '-') {
        1
    } else {
        0
    };
    let ghost b = cs@.subrange(lo as int, n as int);
    proof {
        assert(b =~= unsigned_part(cs@));
        assert(neg == is_negative(cs@));
        reveal_strlit("inf");
        reveal_strlit("infinity");
        reveal_strlit("nan");
    }
    if rest_eq_ignore_case(cs, lo, "inf") || rest_eq_ignore_case(cs, lo, "infinity") {
        return Some((1, neg, Vec::new(), 0));
    }
    if rest_eq_ignore_case(cs, lo, "nan") {
        return Some((2, false, Vec::new(), 0));
    }
    let mut k: usize = lo;
    while k < n && cs[k] != 'e' && cs[k] != 'E'
        invariant
            lo <= k <= n,
            n == cs@.len(),
            b == cs@.subrange(lo as int, n as int),
            exponent_mark(b, 0) == exponent_mark(b, k - lo),
        decreases n - k,
    {
        k = k + 1;
    }
    proof {
        assert(exponent_mark(b, 0) == k - lo);
        assert(b.subrange(0, k - lo) =~= cs@.subrange(lo as int, k as int));
        if k < n {
            assert(b.subrange(k - lo + 1, b.len() as int) =~= cs@.subrange(k + 1, n as int));
        }
    }
    let (digits, after) = match scan_mantissa(cs, lo, k) {
        Some(p) => p,
        None => return None,
    };
    let (xneg, xv) = match scan_exponent(cs, k) {
        Some(p) => p,
        None => return None,
    };
    let base: i128 = if xneg {
        -(xv as i128)
    } else {
        xv as i128
    };
    let e: i128 = base - (after as i128);
    match significant_digits(&digits) {
        None => Some((0, neg, Vec::new(), 0)),
        Some((out, z)) => Some((0, neg, out, e + (z as i128))),
    }
}

/// Whether two character vectors are equal.
fn chars_eq(a: &Vec<char>, b: &Vec<char>) -> (r: bool)
    ensures
        r == (a@ == b@),
{
    if a.len() != b.len() {
        return false;
    }
    let mut i: usize = 0;
    while i < a.len()
        invariant
            i <= a@.len(),
            a@.len() == b@.len(),
            forall|j: int| 0 <= j < i ==> a@[j] == b@[j],
        decreases a@.len() - i,
    {
        if a[i] != b[i] {
            return false;
        }
        i = i + 1;
    }
    proof {
        assert(a@ =~= b@);
    }
    true
}

/// Whether two float spellings stand for the same value ([`same_float`]).
pub fn float_eq(a: &str, b: &str) -> (r: bool)
    ensures
        r == same_float(a@, b@),
{
    let ca = str_to_chars(a);
    let cb = str_to_chars(b);
    let ka = float_key_of(ca.as_slice());
    let kb = float_key_of(cb.as_slice());
    match (ka, kb) {
        (Some((k1, n1, d1, e1)), Some((k2, n2, d2, e2))) => {
            let same = k1 == k2 && n1 == n2 && e1 == e2 && chars_eq(&d1, &d2);
            proof {
                if same {
                    assert((k1 as int, n1, d1@, e1 as int) == (k2 as int, n2, d2@, e2 as int));
                }
            }
            same
        },
        (None, None) => str_eq(a, b),
        _ => false,
    }
}

} // verus!
