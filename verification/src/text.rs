//! Character-level text handling shared by the command protocol, the state
//! file, the argument parser and the palette templates.
//!
//! Text is modelled as `Seq<char>`; executable code works on `Vec<char>`
//! copies of the strings it reads.
use vstd::prelude::*;

verus! {

// ------------------------------------------------------------------ conversions

/// The characters of a string slice, in order.
pub fn chars_of(s: &str) -> (out: Vec<char>)
    ensures
        out@ == s@,
{
    let mut out: Vec<char> = Vec::new();
    for c in it: s.chars()
        invariant
            out@ == it.seq().take(it.index() as int),
            it.seq() == s@,
    {
        out.push(c);
    }
    out
}

/// Builds an owned string from a slice of characters.
///
/// Trusted: calls std's `FromIterator<&char> for String` (`collect`), whose
/// documentation says the string holds the characters in iteration order.
#[verifier::external_body]
pub(crate) fn string_from_chars(chars: &[char]) -> (s: String)
    ensures
        s@ == chars@,
{
    chars.iter().collect()
}

/// Appends the characters of `s` to `out`.
pub fn push_str_chars(out: &mut Vec<char>, s: &str)
    ensures
        final(out)@ == old(out)@ + s@,
{
    let cs = chars_of(s);
    push_all(out, &cs);
}

/// Appends the characters of `src` to `out`.
pub fn push_all(out: &mut Vec<char>, src: &Vec<char>)
    ensures
        final(out)@ == old(out)@ + src@,
{
    let ghost start = out@;
    let mut i: usize = 0;
    while i < src.len()
        invariant
            i <= src@.len(),
            out@ == start + src@.take(i as int),
        decreases src@.len() - i,
    {
        out.push(src[i]);
        i = i + 1;
        assert(src@.take(i as int) == src@.take(i - 1).push(src@[i - 1]));
    }
    assert(src@.take(src@.len() as int) == src@);
}

/// Whether two character sequences are equal.
pub fn same_chars(a: &Vec<char>, b: &Vec<char>) -> (r: bool)
    ensures
        r == (a@ == b@),
{
    if a.len() != b.len() {
        return false;
    }
    let mut i: usize = 0;
    while i < a.len()
        invariant
            a@.len() == b@.len(),
            i <= a@.len(),
            forall|j: int| 0 <= j < i ==> a@[j] == b@[j],
        decreases a@.len() - i,
    {
        if a[i] != b[i] {
            return false;
        }
        i = i + 1;
    }
    assert(a@ =~= b@);
    true
}

/// Whether two strings hold the same characters.
pub fn str_equal(a: &str, b: &str) -> (r: bool)
    ensures
        r == (a@ == b@),
{
    let x = chars_of(a);
    let y = chars_of(b);
    same_chars(&x, &y)
}

// ------------------------------------------------------------------ prefixes

/// `p` is a prefix of `s`.
pub open spec fn has_prefix(s: Seq<char>, p: Seq<char>) -> bool {
    p.len() <= s.len() && s.take(p.len() as int) == p
}

/// Whether `v[lo..]` starts with `p`.
pub fn starts_with_at(v: &Vec<char>, lo: usize, p: &Vec<char>) -> (r: bool)
    requires
        lo <= v@.len(),
    ensures
        r == has_prefix(v@.skip(lo as int), p@),
{
    let ghost s = v@.skip(lo as int);
    if p.len() > v.len() - lo {
        return false;
    }
    let mut i: usize = 0;
    while i < p.len()
        invariant
            s == v@.skip(lo as int),
            p@.len() <= s.len(),
            lo + p@.len() <= v@.len(),
            i <= p@.len(),
            forall|j: int| 0 <= j < i ==> s[j] == p@[j],
        decreases p@.len() - i,
    {
        assert(lo + i < v.len());
        if v[lo + i] != p[i] {
            assert(s.take(p@.len() as int)[i as int] != p@[i as int]);
            return false;
        }
        i = i + 1;
    }
    assert(s.take(p@.len() as int) =~= p@);
    true
}

/// Whether the string `s` starts with the string `p`.
pub fn str_starts_with(s: &str, p: &str) -> (r: bool)
    ensures
        r == has_prefix(s@, p@),
{
    let v = chars_of(s);
    let q = chars_of(p);
    assert(v@.skip(0) == v@);
    starts_with_at(&v, 0, &q)
}

// ------------------------------------------------------------------ whitespace

/// The characters that carry the Unicode `White_Space` property, which is
/// what `char::is_whitespace` and `str::trim` go by.
pub open spec fn is_white(c: char) -> bool {
    let u = c as u32;
    (0x9 <= u && u <= 0xd) || u == 0x20 || u == 0x85 || u == 0xa0 || u == 0x1680 || (0x2000
        <= u && u <= 0x200a) || u == 0x2028 || u == 0x2029 || u == 0x202f || u == 0x205f || u
        == 0x3000
}

/// Decides `is_white`.
pub fn white(c: char) -> (r: bool)
    ensures
        r == is_white(c),
{
    let u = c as u32;
    (0x9 <= u && u <= 0xd) || u == 0x20 || u == 0x85 || u == 0xa0 || u == 0x1680 || (0x2000
        <= u && u <= 0x200a) || u == 0x2028 || u == 0x2029 || u == 0x202f || u == 0x205f || u
        == 0x3000
}

/// Number of leading whitespace characters.
pub open spec fn lead_ws(s: Seq<char>) -> nat
    decreases s.len(),
{
    if s.len() > 0 && is_white(s[0]) {
        1 + lead_ws(s.drop_first())
    } else {
        0
    }
}

/// Number of trailing whitespace characters.
pub open spec fn trail_ws(s: Seq<char>) -> nat
    decreases s.len(),
{
    if s.len() > 0 && is_white(s.last()) {
        1 + trail_ws(s.drop_last())
    } else {
        0
    }
}

/// `s` without its leading whitespace.
pub open spec fn trim_start(s: Seq<char>) -> Seq<char> {
    s.skip(lead_ws(s) as int)
}

/// `s` without its trailing whitespace.
pub open spec fn trim_end(s: Seq<char>) -> Seq<char> {
    s.take(s.len() - trail_ws(s))
}

/// `s` without leading and trailing whitespace (`str::trim`).
pub open spec fn trim(s: Seq<char>) -> Seq<char> {
    trim_end(trim_start(s))
}

/// `lead_ws` is the index of the first non-whitespace character.
pub proof fn lemma_lead_ws(s: Seq<char>, i: int)
    requires
        0 <= i <= s.len(),
        forall|j: int| 0 <= j < i ==> is_white(#[trigger] s[j]),
        i == s.len() || !is_white(s[i]),
    ensures
        lead_ws(s) == i,
    decreases i,
{
    if i > 0 {
        let t = s.drop_first();
        assert forall|j: int| 0 <= j < i - 1 implies is_white(#[trigger] t[j]) by {
            assert(t[j] == s[j + 1]);
        }
        if i - 1 < t.len() {
            assert(t[i - 1] == s[i]);
        }
        lemma_lead_ws(t, i - 1);
    }
}

/// `trail_ws` counts back to the last non-whitespace character.
pub proof fn lemma_trail_ws(s: Seq<char>, k: int)
    requires
        0 <= k <= s.len(),
        forall|j: int| k <= j < s.len() ==> is_white(#[trigger] s[j]),
        k == 0 || !is_white(s[k - 1]),
    ensures
        trail_ws(s) == s.len() - k,
    decreases s.len() - k,
{
    if k < s.len() {
        let t = s.drop_last();
        assert forall|j: int| k <= j < t.len() implies is_white(#[trigger] t[j]) by {
            assert(t[j] == s[j]);
        }
        if k > 0 {
            assert(t[k - 1] == s[k - 1]);
        }
        lemma_trail_ws(t, k);
    }
}

/// The bounds `lo..hi` of `v` that `trim` keeps.
pub fn trim_range(v: &Vec<char>, lo: usize, hi: usize) -> (r: (usize, usize))
    requires
        lo <= hi <= v@.len(),
    ensures
        lo <= r.0 <= r.1 <= hi,
        v@.subrange(r.0 as int, r.1 as int) == trim(v@.subrange(lo as int, hi as int)),
{
    let ghost s = v@.subrange(lo as int, hi as int);
    let mut a = lo;
    while a < hi && white(v[a])
        invariant
            lo <= a <= hi <= v@.len(),
            forall|j: int| lo <= j < a ==> is_white(#[trigger] v@[j]),
        decreases hi - a,
    {
        a = a + 1;
    }
    proof {
        assert forall|j: int| 0 <= j < a - lo implies is_white(#[trigger] s[j]) by {
            assert(s[j] == v@[lo + j]);
        }
        if a < hi {
            assert(s[a - lo] == v@[a as int]);
        }
        lemma_lead_ws(s, a - lo);
    }
    let mut b = hi;
    while b > a && white(v[b - 1])
        invariant
            lo <= a <= b <= hi <= v@.len(),
            forall|j: int| b <= j < hi ==> is_white(#[trigger] v@[j]),
        decreases b - a,
    {
        b = b - 1;
    }
    proof {
        let t = trim_start(s);
        assert(t =~= v@.subrange(a as int, hi as int));
        assert forall|j: int| b - a <= j < t.len() implies is_white(#[trigger] t[j]) by {
            assert(t[j] == v@[a + j]);
        }
        if b > a {
            assert(t[b - a - 1] == v@[b - 1]);
        }
        lemma_trail_ws(t, b - a);
        assert(trim(s) =~= v@.subrange(a as int, b as int));
    }
    (a, b)
}

// ------------------------------------------------------------------ case folding

/// Lowercase mapping of the characters whose lowercase form is a single
/// ASCII letter: `A`..`Z`, and the Kelvin sign, which lowercases to `k`.
/// Every other character is kept.
pub open spec fn fold(c: char) -> char {
    let u = c as u32;
    if 0x41 <= u && u <= 0x5a {
        ((u + 32) as u8) as char
    } else if u == 0x212a {
        'k'
    } else {
        c
    }
}

pub open spec fn fold_seq(s: Seq<char>) -> Seq<char> {
    s.map_values(|c: char| fold(c))
}

/// Computes `fold`.
pub fn fold_char(c: char) -> (r: char)
    ensures
        r == fold(c),
{
    let u = c as u32;
    if 0x41 <= u && u <= 0x5a {
        ((u + 32) as u8) as char
    } else if u == 0x212a {
        'k'
    } else {
        c
    }
}

/// Whether `v[lo..hi]`, case-folded, equals `kw`.
pub fn folded_equals(v: &Vec<char>, lo: usize, hi: usize, kw: &Vec<char>) -> (r: bool)
    requires
        lo <= hi <= v@.len(),
    ensures
        r == (fold_seq(v@.subrange(lo as int, hi as int)) == kw@),
{
    let ghost s = v@.subrange(lo as int, hi as int);
    if hi - lo != kw.len() {
        assert(fold_seq(s).len() != kw@.len());
        return false;
    }
    let mut i: usize = 0;
    while i < kw.len()
        invariant
            s == v@.subrange(lo as int, hi as int),
            lo <= hi <= v@.len(),
            hi - lo == kw@.len(),
            i <= kw@.len(),
            forall|j: int| 0 <= j < i ==> fold(s[j]) == kw@[j],
        decreases kw@.len() - i,
    {
        if fold_char(v[lo + i]) != kw[i] {
            assert(fold_seq(s)[i as int] != kw@[i as int]);
            return false;
        }
        i = i + 1;
    }
    assert(fold_seq(s) =~= kw@);
    true
}

/// Whether the trimmed, case-folded text of `s` equals `kw`.
pub fn keyword_is(s: &Vec<char>, kw: &str) -> (r: bool)
    ensures
        r == (fold_seq(trim(s@)) == kw@),
{
    let k = chars_of(kw);
    let (lo, hi) = trim_range(s, 0, s.len());
    assert(s@.subrange(0, s@.len() as int) == s@);
    folded_equals(s, lo, hi, &k)
}


// ------------------------------------------------------------------ searching and splitting

/// The first position of `wanted` in `s`, or `s.len()`.
pub open spec fn first_eq<T>(s: Seq<T>, wanted: T) -> nat
    decreases s.len(),
{
    if s.len() == 0 {
        0
    } else if s[0] == wanted {
        0
    } else {
        1 + first_eq(s.drop_first(), wanted)
    }
}

/// `first_eq` is `k` when no position before `k` holds `wanted` and `k` does
/// (or is the length).
pub proof fn lemma_first_eq<T>(s: Seq<T>, wanted: T, k: int)
    requires
        0 <= k <= s.len(),
        forall|j: int| 0 <= j < k ==> #[trigger] s[j] != wanted,
        k == s.len() || s[k] == wanted,
    ensures
        first_eq(s, wanted) == k,
    decreases k,
{
    if k > 0 {
        let t = s.drop_first();
        assert forall|j: int| 0 <= j < k - 1 implies #[trigger] t[j] != wanted by {
            assert(t[j] == s[j + 1]);
        }
        if k - 1 < t.len() {
            assert(t[k - 1] == s[k]);
        }
        lemma_first_eq(t, wanted, k - 1);
    }
}

/// The first position `k` in `lo..hi` with `v[k] == c`, or `hi`.
pub fn find_char(v: &Vec<char>, lo: usize, hi: usize, c: char) -> (k: usize)
    requires
        lo <= hi <= v@.len(),
    ensures
        lo <= k <= hi,
        k - lo == first_eq(v@.subrange(lo as int, hi as int), c),
        k < hi ==> v@[k as int] == c,
        forall|j: int| lo <= j < k ==> #[trigger] v@[j] != c,
{
    let mut k = lo;
    while k < hi && v[k] != c
        invariant
            lo <= k <= hi <= v@.len(),
            forall|j: int| lo <= j < k ==> #[trigger] v@[j] != c,
        decreases hi - k,
    {
        k = k + 1;
    }
    proof {
        let s = v@.subrange(lo as int, hi as int);
        assert forall|j: int| 0 <= j < k - lo implies #[trigger] s[j] != c by {
            assert(s[j] == v@[lo + j]);
        }
        if k < hi {
            assert(s[k - lo] == v@[k as int]);
        }
        lemma_first_eq(s, c, k - lo);
    }
    k
}

/// `str::splitn(n, sep)`: at most `n` pieces, the last one holding the rest.
pub open spec fn split_limited(s: Seq<char>, sep: char, n: nat) -> Seq<Seq<char>>
    decreases n,
{
    let k = first_eq(s, sep);
    if n <= 1 || k >= s.len() {
        seq![s]
    } else {
        seq![s.take(k as int)] + split_limited(s.skip(k + 1int), sep, (n - 1) as nat)
    }
}

/// `str::split(sep)`: every piece between separators.
pub open spec fn split_all(s: Seq<char>, sep: char) -> Seq<Seq<char>>
    decreases s.len(),
{
    let k = first_eq(s, sep);
    if k >= s.len() {
        seq![s]
    } else {
        seq![s.take(k as int)] + split_all(s.skip(k + 1int), sep)
    }
}

/// The pieces of `v[lo..hi]` split at `sep`, at most `n` of them.
pub fn split_chars(v: &Vec<char>, lo: usize, hi: usize, sep: char, n: usize) -> (parts: Vec<Vec<char>>)
    requires
        lo <= hi <= v@.len(),
        n >= 1,
    ensures
        parts@.len() == split_limited(v@.subrange(lo as int, hi as int), sep, n as nat).len(),
        forall|i: int|
            0 <= i < parts@.len() ==> #[trigger] parts@[i]@ == split_limited(
                v@.subrange(lo as int, hi as int),
                sep,
                n as nat,
            )[i],
{
    let ghost whole = split_limited(v@.subrange(lo as int, hi as int), sep, n as nat);
    let ghost mut done: Seq<Seq<char>> = seq![];
    let mut parts: Vec<Vec<char>> = Vec::new();
    let mut start = lo;
    loop
        invariant
            lo <= start <= hi <= v@.len(),
            n >= 1,
            whole == split_limited(v@.subrange(lo as int, hi as int), sep, n as nat),
            parts@.len() == done.len(),
            done.len() < n,
            forall|i: int| 0 <= i < parts@.len() ==> #[trigger] parts@[i]@ == done[i],
            whole == done + split_limited(
                v@.subrange(start as int, hi as int),
                sep,
                (n - done.len()) as nat,
            ),
        decreases hi - start,
    {
        let ghost rest = v@.subrange(start as int, hi as int);
        let k = find_char(v, start, hi, sep);
        if parts.len() + 1 >= n || k >= hi {
            let last = string_part(v, start, hi);
            parts.push(last);
            proof {
                assert(split_limited(rest, sep, (n - done.len()) as nat) == seq![rest]);
                done = done.push(rest);
                assert(whole =~= done);
                assert(forall|i: int| 0 <= i < parts@.len() ==> #[trigger] parts@[i]@ == done[i]);
            }
            return parts;
        }
        let piece = string_part(v, start, k);
        parts.push(piece);
        proof {
            assert(rest.take((k - start) as int) =~= v@.subrange(start as int, k as int));
            assert(rest.skip((k - start) + 1) =~= v@.subrange(k + 1, hi as int));
            let m = (n - done.len()) as nat;
            assert(split_limited(rest, sep, m) == seq![rest.take((k - start) as int)]
                + split_limited(rest.skip((k - start) + 1), sep, (m - 1) as nat));
            done = done.push(v@.subrange(start as int, k as int));
            assert(whole =~= done + split_limited(
                v@.subrange(k + 1, hi as int),
                sep,
                (n - done.len()) as nat,
            ));
        }
        start = k + 1;
    }
}

/// The pieces of `v[lo..hi]` split at every `sep`.
pub fn split_all_chars(v: &Vec<char>, lo: usize, hi: usize, sep: char) -> (parts: Vec<Vec<char>>)
    requires
        lo <= hi <= v@.len(),
    ensures
        parts@.len() == split_all(v@.subrange(lo as int, hi as int), sep).len(),
        forall|i: int|
            0 <= i < parts@.len() ==> #[trigger] parts@[i]@ == split_all(
                v@.subrange(lo as int, hi as int),
                sep,
            )[i],
{
    let ghost whole = split_all(v@.subrange(lo as int, hi as int), sep);
    let ghost mut done: Seq<Seq<char>> = seq![];
    let mut parts: Vec<Vec<char>> = Vec::new();
    let mut start = lo;
    loop
        invariant
            lo <= start <= hi <= v@.len(),
            whole == split_all(v@.subrange(lo as int, hi as int), sep),
            parts@.len() == done.len(),
            forall|i: int| 0 <= i < parts@.len() ==> #[trigger] parts@[i]@ == done[i],
            whole == done + split_all(v@.subrange(start as int, hi as int), sep),
        decreases hi - start,
    {
        let ghost rest = v@.subrange(start as int, hi as int);
        let k = find_char(v, start, hi, sep);
        if k >= hi {
            let last = string_part(v, start, hi);
            parts.push(last);
            proof {
                assert(split_all(rest, sep) == seq![rest]);
                done = done.push(rest);
                assert(whole =~= done);
                assert(forall|i: int| 0 <= i < parts@.len() ==> #[trigger] parts@[i]@ == done[i]);
            }
            return parts;
        }
        let piece = string_part(v, start, k);
        parts.push(piece);
        proof {
            assert(rest.take((k - start) as int) =~= v@.subrange(start as int, k as int));
            assert(rest.skip((k - start) + 1) =~= v@.subrange(k + 1, hi as int));
            done = done.push(v@.subrange(start as int, k as int));
            assert(whole =~= done + split_all(v@.subrange(k + 1, hi as int), sep));
        }
        start = k + 1;
    }
}

/// A copy of `v[lo..hi]`.
pub fn string_part(v: &Vec<char>, lo: usize, hi: usize) -> (out: Vec<char>)
    requires
        lo <= hi <= v@.len(),
    ensures
        out@ == v@.subrange(lo as int, hi as int),
{
    let mut out: Vec<char> = Vec::new();
    let mut i = lo;
    while i < hi
        invariant
            lo <= i <= hi <= v@.len(),
            out@ == v@.subrange(lo as int, i as int),
        decreases hi - i,
    {
        out.push(v[i]);
        i = i + 1;
    }
    out
}

// ------------------------------------------------------------------ lines

/// `line` without one trailing carriage return.
pub open spec fn strip_cr(line: Seq<char>) -> Seq<char> {
    if line.len() > 0 && line.last() == '\r' {
        line.drop_last()
    } else {
        line
    }
}

/// `str::lines`: pieces ended by `\n` or `\r\n`; a final line ending adds
/// no empty line, and an empty text has no lines.
pub open spec fn lines(s: Seq<char>) -> Seq<Seq<char>>
    decreases s.len(),
{
    if s.len() == 0 {
        seq![]
    } else {
        let k = first_eq(s, '\n');
        if k >= s.len() {
            seq![s]
        } else {
            seq![strip_cr(s.take(k as int))] + lines(s.skip(k + 1int))
        }
    }
}

/// The lines of `v`.
pub fn lines_of(v: &Vec<char>) -> (out: Vec<Vec<char>>)
    ensures
        out@.len() == lines(v@).len(),
        forall|i: int| 0 <= i < out@.len() ==> #[trigger] out@[i]@ == lines(v@)[i],
{
    let ghost mut done: Seq<Seq<char>> = seq![];
    let mut out: Vec<Vec<char>> = Vec::new();
    let mut start: usize = 0;
    let hi = v.len();
    assert(v@.subrange(0, hi as int) == v@);
    while start < hi
        invariant
            hi == v@.len(),
            start <= hi,
            out@.len() == done.len(),
            forall|i: int| 0 <= i < out@.len() ==> #[trigger] out@[i]@ == done[i],
            lines(v@) == done + lines(v@.subrange(start as int, hi as int)),
        decreases hi - start,
    {
        let ghost rest = v@.subrange(start as int, hi as int);
        let k = find_char(v, start, hi, '\n');
        if k >= hi {
            out.push(string_part(v, start, hi));
            proof {
                done = done.push(rest);
                assert(v@.subrange(hi as int, hi as int).len() == 0);
            }
            start = hi;
        } else {
            let mut end = k;
            if end > start && v[end - 1] == '\r' {
                end = end - 1;
            }
            out.push(string_part(v, start, end));
            proof {
                let line = rest.take((k - start) as int);
                assert(line =~= v@.subrange(start as int, k as int));
                assert(strip_cr(line) =~= v@.subrange(start as int, end as int));
                assert(rest.skip((k - start) + 1) =~= v@.subrange(k + 1, hi as int));
                done = done.push(strip_cr(line));
                assert(lines(v@) =~= done + lines(v@.subrange(k + 1, hi as int)));
            }
            start = k + 1;
        }
    }
    assert(lines(v@.subrange(hi as int, hi as int)) == Seq::<Seq<char>>::empty());
    assert(lines(v@) =~= done);
    out
}

} // verus!
