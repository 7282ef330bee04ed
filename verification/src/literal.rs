//! Recognisers for the number literals that the command line, the state file
//! and the command protocol carry: the grammar that `str::parse::<f32>`
//! accepts, and decimal integers as `str::parse::<i32>` / `::<u8>` read them.
use vstd::prelude::*;
use crate::text::{chars_of, fold_seq, folded_equals};

verus! {

pub open spec fn is_digit(c: char) -> bool {
    48 <= (c as u32) && (c as u32) <= 57
}

pub open spec fn all_digits(s: Seq<char>) -> bool {
    forall|i: int| 0 <= i < s.len() ==> is_digit(#[trigger] s[i])
}

pub open spec fn is_sign(c: char) -> bool {
    c == '+' || c == '-'
}

/// `s` without one leading `+` or `-`.
pub open spec fn unsigned_part(s: Seq<char>) -> Seq<char> {
    if s.len() > 0 && is_sign(s[0]) {
        s.drop_first()
    } else {
        s
    }
}

pub open spec fn is_exp_mark(c: char) -> bool {
    c == 'e' || c == 'E'
}

/// `Digit+ | Digit+ '.' Digit* | Digit* '.' Digit+`
pub open spec fn is_mantissa(m: Seq<char>) -> bool {
    ||| (m.len() > 0 && all_digits(m))
    ||| exists|k: int|
        0 <= k < m.len() && #[trigger] m[k] == '.' && all_digits(m.take(k)) && all_digits(
            m.skip(k + 1),
        ) && m.len() >= 2
}

/// `Sign? Digit+`
pub open spec fn is_exponent(x: Seq<char>) -> bool {
    unsigned_part(x).len() > 0 && all_digits(unsigned_part(x))
}

/// `Mantissa Exp?` where `Exp ::= ('e' | 'E') Sign? Digit+`
pub open spec fn is_number(s: Seq<char>) -> bool {
    ||| is_mantissa(s)
    ||| exists|k: int|
        0 <= k < s.len() && is_exp_mark(#[trigger] s[k]) && is_mantissa(s.take(k))
            && is_exponent(s.skip(k + 1))
}

/// The strings that `str::parse::<f32>` accepts, as its documentation gives
/// the grammar: `Sign? ('inf' | 'infinity' | 'nan' | Number)`, letters in any
/// case, no surrounding whitespace.
pub open spec fn is_float_literal(s: Seq<char>) -> bool {
    let u = unsigned_part(s);
    ||| fold_seq(u) == "inf"@
    ||| fold_seq(u) == "infinity"@
    ||| fold_seq(u) == "nan"@
    ||| is_number(u)
}

fn digit(c: char) -> (r: bool)
    ensures
        r == is_digit(c),
{
    48 <= (c as u32) && (c as u32) <= 57
}

/// Whether `v[lo..hi]` is all digits.
fn digits_only(v: &Vec<char>, lo: usize, hi: usize) -> (r: bool)
    requires
        lo <= hi <= v@.len(),
    ensures
        r == all_digits(v@.subrange(lo as int, hi as int)),
{
    let mut i = lo;
    while i < hi
        invariant
            lo <= i <= hi <= v@.len(),
            forall|j: int| lo <= j < i ==> is_digit(#[trigger] v@[j]),
        decreases hi - i,
    {
        if !digit(v[i]) {
            assert(v@.subrange(lo as int, hi as int)[i - lo] == v@[i as int]);
            return false;
        }
        i = i + 1;
    }
    assert forall|j: int| 0 <= j < hi - lo implies is_digit(
        #[trigger] v@.subrange(lo as int, hi as int)[j],
    ) by {
        assert(v@.subrange(lo as int, hi as int)[j] == v@[lo + j]);
    }
    true
}

/// First decimal point in `lo..hi`, or `hi`.
fn find_dot(v: &Vec<char>, lo: usize, hi: usize) -> (k: usize)
    requires
        lo <= hi <= v@.len(),
    ensures
        lo <= k <= hi,
        k < hi ==> v@[k as int] == '.',
        forall|j: int| lo <= j < k ==> #[trigger] v@[j] != '.',
{
    let mut k = lo;
    while k < hi && v[k] != '.'
        invariant
            lo <= k <= hi <= v@.len(),
            forall|j: int| lo <= j < k ==> #[trigger] v@[j] != '.',
        decreases hi - k,
    {
        k = k + 1;
    }
    k
}

/// First exponent mark in `lo..hi`, or `hi`.
fn find_exp(v: &Vec<char>, lo: usize, hi: usize) -> (k: usize)
    requires
        lo <= hi <= v@.len(),
    ensures
        lo <= k <= hi,
        k < hi ==> is_exp_mark(v@[k as int]),
        forall|j: int| lo <= j < k ==> !is_exp_mark(#[trigger] v@[j]),
{
    let mut k = lo;
    while k < hi && v[k] != 'e' && v[k] != 'E'
        invariant
            lo <= k <= hi <= v@.len(),
            forall|j: int| lo <= j < k ==> !is_exp_mark(#[trigger] v@[j]),
        decreases hi - k,
    {
        k = k + 1;
    }
    k
}

/// Decides `is_mantissa(v[lo..hi])`.
fn mantissa(v: &Vec<char>, lo: usize, hi: usize) -> (r: bool)
    requires
        lo <= hi <= v@.len(),
    ensures
        r == is_mantissa(v@.subrange(lo as int, hi as int)),
{
    let ghost m = v@.subrange(lo as int, hi as int);
    let d = find_dot(v, lo, hi);
    if d == hi {
        let r = lo < hi && digits_only(v, lo, hi);
        proof {
            if exists|k: int|
                0 <= k < m.len() && #[trigger] m[k] == '.' && all_digits(m.take(k)) && all_digits(
                    m.skip(k + 1),
                ) && m.len() >= 2 {
                let k = choose|k: int|
                    0 <= k < m.len() && #[trigger] m[k] == '.' && all_digits(m.take(k))
                        && all_digits(m.skip(k + 1)) && m.len() >= 2;
                assert(m[k] == v@[lo + k]);
            }
        }
        r
    } else {
        let a = digits_only(v, lo, d);
        let b = digits_only(v, d + 1, hi);
        let r = a && b && hi - lo >= 2;
        proof {
            let k0 = d - lo;
            assert(m[k0] == v@[d as int]);
            assert(!is_digit(m[k0]));
            assert(!all_digits(m));
            assert(m.take(k0) =~= v@.subrange(lo as int, d as int));
            assert(m.skip(k0 + 1) =~= v@.subrange(d + 1, hi as int));
            if exists|k: int|
                0 <= k < m.len() && #[trigger] m[k] == '.' && all_digits(m.take(k)) && all_digits(
                    m.skip(k + 1),
                ) && m.len() >= 2 {
                let k = choose|k: int|
                    0 <= k < m.len() && #[trigger] m[k] == '.' && all_digits(m.take(k))
                        && all_digits(m.skip(k + 1)) && m.len() >= 2;
                if k < k0 {
                    assert(m[k] == v@[lo + k]);
                } else if k > k0 {
                    assert(m.take(k)[k0] == m[k0]);
                }
            }
        }
        r
    }
}

/// A mantissa holds no exponent mark.
proof fn lemma_mantissa_has_no_exp(m: Seq<char>, j: int)
    requires
        is_mantissa(m),
        0 <= j < m.len(),
    ensures
        !is_exp_mark(m[j]),
{
    if !(m.len() > 0 && all_digits(m)) {
        let k = choose|k: int|
            0 <= k < m.len() && #[trigger] m[k] == '.' && all_digits(m.take(k)) && all_digits(
                m.skip(k + 1),
            ) && m.len() >= 2;
        if j < k {
            assert(m.take(k)[j] == m[j]);
        } else if j > k {
            assert(m.skip(k + 1)[j - k - 1] == m[j]);
        }
    }
}

/// Decides `is_number(v[lo..hi])`.
fn number(v: &Vec<char>, lo: usize, hi: usize) -> (r: bool)
    requires
        lo <= hi <= v@.len(),
    ensures
        r == is_number(v@.subrange(lo as int, hi as int)),
{
    let ghost s = v@.subrange(lo as int, hi as int);
    let e = find_exp(v, lo, hi);
    if e == hi {
        let r = mantissa(v, lo, hi);
        proof {
            if exists|k: int|
                0 <= k < s.len() && is_exp_mark(#[trigger] s[k]) && is_mantissa(s.take(k))
                    && is_exponent(s.skip(k + 1)) {
                let k = choose|k: int|
                    0 <= k < s.len() && is_exp_mark(#[trigger] s[k]) && is_mantissa(s.take(k))
                        && is_exponent(s.skip(k + 1));
                assert(s[k] == v@[lo + k]);
            }
        }
        r
    } else {
        let a = mantissa(v, lo, e);
        let mut b_lo = e + 1;
        if b_lo < hi && (v[b_lo] == '+' || v[b_lo] == '-') {
            b_lo = b_lo + 1;
        }
        let b = b_lo < hi && digits_only(v, b_lo, hi);
        let r = a && b;
        proof {
            let k0 = e - lo;
            assert(s[k0] == v@[e as int]);
            if is_mantissa(s) {
                lemma_mantissa_has_no_exp(s, k0);
            }
            assert(s.take(k0) =~= v@.subrange(lo as int, e as int));
            let x = s.skip(k0 + 1);
            assert(x =~= v@.subrange(e + 1, hi as int));
            assert(unsigned_part(x) =~= v@.subrange(b_lo as int, hi as int));
            if exists|k: int|
                0 <= k < s.len() && is_exp_mark(#[trigger] s[k]) && is_mantissa(s.take(k))
                    && is_exponent(s.skip(k + 1)) {
                let k = choose|k: int|
                    0 <= k < s.len() && is_exp_mark(#[trigger] s[k]) && is_mantissa(s.take(k))
                        && is_exponent(s.skip(k + 1));
                if k < k0 {
                    assert(s[k] == v@[lo + k]);
                } else if k > k0 {
                    lemma_mantissa_has_no_exp(s.take(k), k0);
                    assert(s.take(k)[k0] == s[k0]);
                }
            }
        }
        r
    }
}

/// Decides `is_float_literal(v[lo..hi])`.
pub fn float_literal_at(v: &Vec<char>, lo: usize, hi: usize) -> (r: bool)
    requires
        lo <= hi <= v@.len(),
    ensures
        r == is_float_literal(v@.subrange(lo as int, hi as int)),
{
    let ghost s = v@.subrange(lo as int, hi as int);
    let mut a = lo;
    if a < hi && (v[a] == '+' || v[a] == '-') {
        a = a + 1;
    }
    assert(unsigned_part(s) =~= v@.subrange(a as int, hi as int));
    let inf = chars_of("inf");
    let infinity = chars_of("infinity");
    let nan = chars_of("nan");
    folded_equals(v, a, hi, &inf) || folded_equals(v, a, hi, &infinity) || folded_equals(
        v,
        a,
        hi,
        &nan,
    ) || number(v, a, hi)
}

/// Whether `s` is text that `str::parse::<f32>` accepts.
pub fn float_literal(s: &str) -> (r: bool)
    ensures
        r == is_float_literal(s@),
{
    let v = chars_of(s);
    assert(v@.subrange(0, v@.len() as int) == v@);
    float_literal_at(&v, 0, v.len())
}

// ------------------------------------------------------------------ integers

/// The value of a string of decimal digits.
pub open spec fn digits_value(s: Seq<char>) -> nat
    decreases s.len(),
{
    if s.len() == 0 {
        0
    } else {
        digits_value(s.drop_last()) * 10 + ((s.last() as u32) - 48) as nat
    }
}

/// What `str::parse::<i32>` returns: an optional sign, at least one digit,
/// and a value in range.
pub open spec fn parse_i32_spec(s: Seq<char>) -> Option<i32> {
    let d = unsigned_part(s);
    let neg = s.len() > 0 && s[0] == '-';
    if d.len() == 0 || !all_digits(d) {
        None
    } else if neg {
        if digits_value(d) <= 0x8000_0000 {
            Some((0 - digits_value(d)) as i32)
        } else {
            None
        }
    } else if digits_value(d) <= 0x7fff_ffff {
        Some(digits_value(d) as i32)
    } else {
        None
    }
}

/// What `str::parse::<u8>` returns: an optional `+`, at least one digit,
/// and a value below 256.
pub open spec fn parse_u8_spec(s: Seq<char>) -> Option<u8> {
    let d = if s.len() > 0 && s[0] == '+' {
        s.drop_first()
    } else {
        s
    };
    if d.len() == 0 || !all_digits(d) {
        None
    } else if digits_value(d) <= 255 {
        Some(digits_value(d) as u8)
    } else {
        None
    }
}

/// The value of the digits `v[lo..hi]`, or `cap + 1` when it exceeds `cap`.
fn capped_value(v: &Vec<char>, lo: usize, hi: usize, cap: u64) -> (r: u64)
    requires
        lo <= hi <= v@.len(),
        all_digits(v@.subrange(lo as int, hi as int)),
        cap <= 0x1_0000_0000,
    ensures
        digits_value(v@.subrange(lo as int, hi as int)) <= cap ==> r == digits_value(
            v@.subrange(lo as int, hi as int),
        ),
        digits_value(v@.subrange(lo as int, hi as int)) > cap ==> r == cap + 1,
{
    let mut acc: u64 = 0;
    let mut i = lo;
    while i < hi
        invariant
            lo <= i <= hi <= v@.len(),
            all_digits(v@.subrange(lo as int, hi as int)),
            cap <= 0x1_0000_0000,
            digits_value(v@.subrange(lo as int, i as int)) <= cap ==> acc == digits_value(
                v@.subrange(lo as int, i as int),
            ),
            digits_value(v@.subrange(lo as int, i as int)) > cap ==> acc == cap + 1,
        decreases hi - i,
    {
        let ghost pre = v@.subrange(lo as int, i as int);
        let ghost next = v@.subrange(lo as int, i + 1);
        assert(next.drop_last() =~= pre);
        assert(next.last() == v@[i as int]);
        assert(v@.subrange(lo as int, hi as int)[i - lo] == v@[i as int]);
        let d = (v[i] as u32 - 48) as u64;
        if acc <= cap {
            let n = acc * 10 + d;
            if n > cap {
                acc = cap + 1;
            } else {
                acc = n;
            }
        }
        i = i + 1;
    }
    acc
}

/// `str::parse::<i32>`, as `parse_i32_spec` states it.
pub fn parse_i32(s: &str) -> (r: Option<i32>)
    ensures
        r == parse_i32_spec(s@),
{
    let v = chars_of(s);
    let n = v.len();
    let mut a: usize = 0;
    let neg = n > 0 && v[0] == '-';
    if n > 0 && (v[0] == '+' || v[0] == '-') {
        a = 1;
    }
    assert(unsigned_part(v@) =~= v@.subrange(a as int, n as int));
    if a == n || !digits_only(&v, a, n) {
        return None;
    }
    let val = capped_value(&v, a, n, 0x8000_0000);
    if neg {
        if val <= 0x8000_0000 {
            Some((0i64 - val as i64) as i32)
        } else {
            None
        }
    } else if val <= 0x7fff_ffff {
        Some(val as i32)
    } else {
        None
    }
}

/// `str::parse::<u8>`, as `parse_u8_spec` states it.
pub fn parse_u8(s: &str) -> (r: Option<u8>)
    ensures
        r == parse_u8_spec(s@),
{
    let v = chars_of(s);
    let n = v.len();
    let mut a: usize = 0;
    if n > 0 && v[0] == '+' {
        a = 1;
    }
    assert((if v@.len() > 0 && v@[0] == '+' {
        v@.drop_first()
    } else {
        v@
    }) =~= v@.subrange(a as int, n as int));
    if a == n || !digits_only(&v, a, n) {
        return None;
    }
    let val = capped_value(&v, a, n, 255);
    if val <= 255 {
        Some(val as u8)
    } else {
        None
    }
}

} // verus!
