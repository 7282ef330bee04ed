//! Cycling through the images of the wallpaper's folder: which entries are
//! images, in which order they come, and which one is `n` steps away.
use vstd::prelude::*;
use vstd::relations::{sorted_by, total_ordering};
use crate::text::{chars_of, first_eq, fold_seq, folded_equals, lemma_first_eq, same_chars, string_from_chars, string_part};
use crate::cli::texts;

verus! {

broadcast use vstd::seq_lib::group_to_multiset_ensures, vstd::multiset::group_multiset_axioms;

// ------------------------------------------------------------------ names

/// Index of the last `c` in `s`, or -1.
pub open spec fn last_index(s: Seq<char>, c: char) -> int
    decreases s.len(),
{
    if s.len() == 0 {
        -1
    } else if s.last() == c {
        s.len() - 1
    } else {
        last_index(s.drop_last(), c)
    }
}

/// `last_index` is `k` when `k` holds `c` (or is -1) and no later position
/// does.
pub proof fn lemma_last_index(s: Seq<char>, c: char, k: int)
    requires
        -1 <= k < s.len(),
        forall|j: int| k < j < s.len() ==> #[trigger] s[j] != c,
        k == -1 || s[k] == c,
    ensures
        last_index(s, c) == k,
    decreases s.len(),
{
    if s.len() > 0 && k < s.len() - 1 {
        let t = s.drop_last();
        assert forall|j: int| k < j < t.len() implies #[trigger] t[j] != c by {
            assert(t[j] == s[j]);
        }
        if k >= 0 {
            assert(t[k] == s[k]);
        }
        lemma_last_index(t, c, k);
    }
}

/// Last position `k` in `lo..hi` with `v[k] == c`, as an offset from `lo`
/// plus one (0 when there is none).
fn find_last(v: &Vec<char>, lo: usize, hi: usize, c: char) -> (k: usize)
    requires
        lo <= hi <= v@.len(),
    ensures
        k <= hi - lo,
        k as int - 1 == last_index(v@.subrange(lo as int, hi as int), c),
{
    let ghost s = v@.subrange(lo as int, hi as int);
    let mut k = hi - lo;
    while k > 0 && v[lo + k - 1] != c
        invariant
            lo <= hi <= v@.len(),
            k <= hi - lo,
            s == v@.subrange(lo as int, hi as int),
            forall|j: int| k <= j < s.len() ==> #[trigger] s[j] != c,
        decreases k,
    {
        assert(s[k - 1] == v@[lo + k - 1]);
        k = k - 1;
    }
    proof {
        if k > 0 {
            assert(s[k - 1] == v@[lo + k - 1]);
        }
        lemma_last_index(s, c, k - 1);
    }
    k
}

/// The last component of a path: the text after its last `/`.
pub open spec fn file_name(p: Seq<char>) -> Seq<char> {
    p.skip(last_index(p, '/') + 1)
}

/// The extension of a file name: the text after its last dot, when that dot
/// is not the name's first character.
pub open spec fn extension(name: Seq<char>) -> Option<Seq<char>> {
    let k = last_index(name, '.');
    if k <= 0 {
        None
    } else {
        Some(name.skip(k + 1))
    }
}

/// The extensions of the picture formats the folder scan picks up, in any
/// case.
pub open spec fn is_image_extension(e: Seq<char>) -> bool {
    let f = fold_seq(e);
    f == "jpg"@ || f == "jpeg"@ || f == "png"@ || f == "bmp"@ || f == "gif"@ || f == "webp"@
}

pub open spec fn is_image_path(p: Seq<char>) -> bool {
    match extension(file_name(p)) {
        Some(e) => is_image_extension(e),
        None => false,
    }
}

/// Whether the path names a picture by its extension.
pub fn image_path(p: &Vec<char>) -> (r: bool)
    ensures
        r == is_image_path(p@),
{
    let n = p.len();
    let s = find_last(p, 0, n, '/');
    assert(p@.subrange(0, n as int) == p@);
    let ghost name = file_name(p@);
    assert(name =~= p@.subrange(s as int, n as int));
    let d = find_last(p, s, n, '.');
    if d <= 1 {
        return false;
    }
    let e0 = s + d;
    assert(name.skip(d as int) =~= p@.subrange(e0 as int, n as int));
    let r = folded_equals(p, e0, n, &chars_of("jpg")) || folded_equals(p, e0, n, &chars_of("jpeg"))
        || folded_equals(p, e0, n, &chars_of("png")) || folded_equals(p, e0, n, &chars_of("bmp"))
        || folded_equals(p, e0, n, &chars_of("gif")) || folded_equals(p, e0, n, &chars_of("webp"));
    r
}

// ------------------------------------------------------------------ ordering

/// Lexicographic order of texts by code point, which for UTF-8 text is the
/// byte order that paths are sorted by.
pub open spec fn text_le(a: Seq<char>, b: Seq<char>) -> bool
    decreases a.len(),
{
    if a.len() == 0 {
        true
    } else if b.len() == 0 {
        false
    } else if a[0] < b[0] {
        true
    } else if a[0] > b[0] {
        false
    } else {
        text_le(a.drop_first(), b.drop_first())
    }
}

pub open spec fn text_order() -> spec_fn(Seq<char>, Seq<char>) -> bool {
    |a: Seq<char>, b: Seq<char>| text_le(a, b)
}

proof fn lemma_text_le_refl(a: Seq<char>)
    ensures
        text_le(a, a),
    decreases a.len(),
{
    if a.len() > 0 {
        lemma_text_le_refl(a.drop_first());
    }
}

proof fn lemma_text_le_antisym(a: Seq<char>, b: Seq<char>)
    requires
        text_le(a, b),
        text_le(b, a),
    ensures
        a == b,
    decreases a.len(),
{
    if a.len() > 0 {
        lemma_text_le_antisym(a.drop_first(), b.drop_first());
        assert(a[0] == b[0]);
        assert(a =~= seq![a[0]] + a.drop_first());
        assert(b =~= seq![b[0]] + b.drop_first());
    } else {
        assert(b.len() == 0);
        assert(a =~= b);
    }
}

proof fn lemma_text_le_trans(a: Seq<char>, b: Seq<char>, c: Seq<char>)
    requires
        text_le(a, b),
        text_le(b, c),
    ensures
        text_le(a, c),
    decreases a.len(),
{
    if a.len() > 0 && b.len() > 0 && c.len() > 0 {
        if a[0] == b[0] && b[0] == c[0] {
            lemma_text_le_trans(a.drop_first(), b.drop_first(), c.drop_first());
        }
    }
}

proof fn lemma_text_le_total(a: Seq<char>, b: Seq<char>)
    ensures
        text_le(a, b) || text_le(b, a),
    decreases a.len(),
{
    if a.len() > 0 && b.len() > 0 && a[0] == b[0] {
        lemma_text_le_total(a.drop_first(), b.drop_first());
    }
}

/// Texts are totally ordered.
pub proof fn lemma_text_order_total()
    ensures
        total_ordering(text_order()),
{
    assert forall|a: Seq<char>| #[trigger] text_order()(a, a) by {
        lemma_text_le_refl(a);
    }
    assert forall|a: Seq<char>, b: Seq<char>|
        #[trigger] text_order()(a, b) && #[trigger] text_order()(b, a) implies a == b by {
        lemma_text_le_antisym(a, b);
    }
    assert forall|a: Seq<char>, b: Seq<char>, c: Seq<char>|
        #[trigger] text_order()(a, b) && #[trigger] text_order()(b, c) implies text_order()(
        a,
        c,
    ) by {
        lemma_text_le_trans(a, b, c);
    }
    assert forall|a: Seq<char>, b: Seq<char>|
        #[trigger] text_order()(a, b) || #[trigger] text_order()(b, a) by {
        lemma_text_le_total(a, b);
    }
}

/// `text_le` is the lexicographic order by code point: a prefix comes
/// before every text it begins, and otherwise the first position where two
/// texts differ decides, whatever their lengths.
pub proof fn lemma_text_le_lexicographic(a: Seq<char>, b: Seq<char>)
    ensures
        a.len() <= b.len() && b.take(a.len() as int) == a ==> text_le(a, b),
        forall|i: int|
            0 <= i < a.len() && i < b.len() && a[i] != b[i] && a.take(i) == b.take(i) ==> (text_le(a, b)
                <==> #[trigger] a[i] < b[i]),
    decreases a.len(),
{
    if a.len() > 0 && b.len() > 0 {
        let (ta, tb) = (a.drop_first(), b.drop_first());
        lemma_text_le_lexicographic(ta, tb);
        if a.len() <= b.len() && b.take(a.len() as int) == a {
            assert(b[0] == a[0]);
            assert(tb.take(ta.len() as int) =~= ta);
        }
        assert forall|i: int|
            0 <= i < a.len() && i < b.len() && a[i] != b[i] && a.take(i) == b.take(i) implies (text_le(a, b)
                <==> #[trigger] a[i] < b[i]) by {
            if i > 0 {
                assert(a[0] == a.take(i)[0]);
                assert(b[0] == b.take(i)[0]);
                assert(ta.take(i - 1) =~= a.take(i).drop_first());
                assert(tb.take(i - 1) =~= b.take(i).drop_first());
                assert(ta[i - 1] == a[i] && tb[i - 1] == b[i]);
            }
        }
    }
}

/// Decides `text_le`.
pub fn text_le_exec(a: &Vec<char>, b: &Vec<char>) -> (r: bool)
    ensures
        r == text_le(a@, b@),
{
    let mut i: usize = 0;
    assert(a@.skip(0) == a@);
    assert(b@.skip(0) == b@);
    while i < a.len() && i < b.len() && a[i] == b[i]
        invariant
            i <= a@.len(),
            i <= b@.len(),
            text_le(a@, b@) == text_le(a@.skip(i as int), b@.skip(i as int)),
        decreases a@.len() - i,
    {
        assert(a@.skip(i as int).drop_first() =~= a@.skip(i + 1));
        assert(b@.skip(i as int).drop_first() =~= b@.skip(i + 1));
        assert(a@.skip(i as int)[0] == a@[i as int]);
        assert(b@.skip(i as int)[0] == b@[i as int]);
        i = i + 1;
    }
    if i == a.len() {
        return true;
    }
    if i == b.len() {
        return false;
    }
    assert(a@.skip(i as int)[0] == a@[i as int]);
    assert(b@.skip(i as int)[0] == b@[i as int]);
    a[i] < b[i]
}

/// The views of a vector of texts.
pub open spec fn views(v: Seq<Vec<char>>) -> Seq<Seq<char>> {
    Seq::new(v.len(), |i: int| v[i]@)
}

proof fn lemma_insert_multiset(s: Seq<Seq<char>>, pos: int, e: Seq<char>)
    requires
        0 <= pos <= s.len(),
    ensures
        s.insert(pos, e).to_multiset() =~= s.to_multiset().insert(e),
{
    let t = s.insert(pos, e);
    assert(t.remove(pos) =~= s);
    assert(t[pos] == e);
    assert(t.to_multiset().count(e) > 0) by {
        assert(t.contains(e));
    }
}

/// Sorts texts by `text_le`.
pub fn sort_texts(input: Vec<Vec<char>>) -> (out: Vec<Vec<char>>)
    ensures
        views(out@) == views(input@).sort_by(text_order()),
{
    let ghost inv = views(input@);
    let mut out: Vec<Vec<char>> = Vec::new();
    let mut i: usize = 0;
    while i < input.len()
        invariant
            inv == views(input@),
            i <= input@.len(),
            sorted_by(views(out@), text_order()),
            views(out@).to_multiset() == inv.take(i as int).to_multiset(),
        decreases input@.len() - i,
    {
        let x = string_part(&input[i], 0, input[i].len());
        assert(input@[i as int]@.subrange(0, input@[i as int]@.len() as int) == input@[i as int]@);
        let mut pos: usize = 0;
        while pos < out.len() && text_le_exec(&out[pos], &x)
            invariant
                pos <= out@.len(),
                forall|j: int| 0 <= j < pos ==> text_le(#[trigger] out@[j]@, x@),
            decreases out@.len() - pos,
        {
            pos = pos + 1;
        }
        let ghost before = views(out@);
        out.insert(pos, x);
        proof {
            let after = views(out@);
            assert(after =~= before.insert(pos as int, x@));
            lemma_insert_multiset(before, pos as int, x@);
            assert(inv.take(i + 1) =~= inv.take(i as int).push(x@));
            assert(after.to_multiset() =~= inv.take(i + 1).to_multiset());
            assert forall|p: int, q: int| 0 <= p < q < after.len() implies #[trigger] text_order()(
                after[p],
                after[q],
            ) by {
                if q < pos {
                    assert(after[p] == before[p] && after[q] == before[q]);
                } else if q == pos {
                    assert(after[p] == before[p]);
                } else if p == pos {
                    lemma_text_le_total(before[pos as int], x@);
                    assert(!text_le(before[pos as int], x@));
                    if q - 1 > pos {
                        assert(text_order()(before[pos as int], before[q - 1]));
                        lemma_text_le_trans(x@, before[pos as int], before[q - 1]);
                    }
                } else if p < pos {
                    assert(after[p] == before[p] && after[q] == before[q - 1]);
                    assert(text_order()(before[p], before[q - 1]));
                } else {
                    assert(after[p] == before[p - 1] && after[q] == before[q - 1]);
                    assert(text_order()(before[p - 1], before[q - 1]));
                }
            }
        }
        i = i + 1;
    }
    proof {
        assert(inv.take(input@.len() as int) =~= inv);
        lemma_text_order_total();
        inv.lemma_sort_by_ensures(text_order());
        vstd::seq_lib::lemma_sorted_unique(views(out@), inv.sort_by(text_order()), text_order());
    }
    out
}


// ------------------------------------------------------------------ picking

pub open spec fn image_filter() -> spec_fn(Seq<char>) -> bool {
    |p: Seq<char>| is_image_path(p)
}

/// The folder's images in order.
pub open spec fn sorted_images(entries: Seq<Seq<char>>) -> Seq<Seq<char>> {
    entries.filter(image_filter()).sort_by(text_order())
}

/// Where the current wallpaper stands among the images: its first
/// position, or 0 when it is not there.
pub open spec fn current_position(s: Seq<Seq<char>>, x: Seq<char>) -> int {
    if first_eq(s, x) < s.len() {
        first_eq(s, x) as int
    } else {
        0
    }
}

/// `c` steps from position `i` among `n`, wrapping around both ways.
pub open spec fn cycle_index(i: int, c: int, n: int) -> int {
    (i + c) % n
}

/// The image `cycle` steps away from `current` in the folder listing
/// `entries`, or `None` when the folder holds no image.
pub open spec fn cycled(entries: Seq<Seq<char>>, current: Seq<char>, cycle: int) -> Option<Seq<char>> {
    let imgs = sorted_images(entries);
    if imgs.len() == 0 {
        None
    } else {
        Some(imgs[cycle_index(current_position(imgs, current), cycle, imgs.len() as int)])
    }
}

/// The entries that name pictures.
fn image_entries(entries: &[String]) -> (out: Vec<Vec<char>>)
    ensures
        views(out@) == texts(entries@).filter(image_filter()),
{
    let ghost t = texts(entries@);
    let mut out: Vec<Vec<char>> = Vec::new();
    let mut i: usize = 0;
    while i < entries.len()
        invariant
            t == texts(entries@),
            i <= entries@.len(),
            views(out@) == t.take(i as int).filter(image_filter()),
        decreases entries@.len() - i,
    {
        let p = chars_of(entries[i].as_str());
        let ghost before = views(out@);
        assert(t.take(i + 1).drop_last() =~= t.take(i as int));
        assert(t.take(i + 1).last() == p@);
        let ghost ti = t.take(i + 1);
        proof {
            reveal(Seq::filter);
        }
        assert(ti.filter(image_filter()) == (if image_filter()(ti.last()) {
            ti.drop_last().filter(image_filter()).push(ti.last())
        } else {
            ti.drop_last().filter(image_filter())
        }));
        if image_path(&p) {
            out.push(p);
            assert(views(out@) =~= before.push(p@));
        } else {
            assert(views(out@) =~= before);
        }
        i = i + 1;
    }
    assert(t.take(entries@.len() as int) =~= t);
    out
}

/// `((i + c) % n + n) % n` with the remainder of integer division, which is
/// the Euclidean `(i + c) mod n`.
fn wrap_index(i: usize, c: i32, n: usize) -> (r: usize)
    requires
        0 < n,
        i < n,
    ensures
        r == cycle_index(i as int, c as int, n as int),
        r < n,
{
    let x: i128 = i as i128 + c as i128;
    let m: u128 = n as u128;
    if x >= 0 {
        let r = (x as u128) % m;
        r as usize
    } else {
        let y: u128 = (0 - x) as u128;
        let q = y % m;
        let r = if q == 0 {
            0
        } else {
            m - q
        };
        proof {
            let xi = x as int;
            let ni = n as int;
            assert(xi == -(y as int));
            vstd::arithmetic::div_mod::lemma_fundamental_div_mod(y as int, ni);
            let d = (y as int) / ni;
            assert(y as int == ni * d + q);
            if q == 0 {
                assert(xi == ni * (-d)) by (nonlinear_arith)
                    requires
                        y as int == ni * d + q,
                        q == 0,
                        xi == -(y as int),
                ;
                vstd::arithmetic::div_mod::lemma_mod_multiples_basic(-d, ni);
                assert((ni * (-d)) % ni == 0) by {
                    vstd::arithmetic::mul::lemma_mul_is_commutative(ni, -d);
                }
            } else {
                assert(xi == ni * (-d - 1) + (ni - q)) by (nonlinear_arith)
                    requires
                        y as int == ni * d + q,
                        xi == -(y as int),
                ;
                vstd::arithmetic::div_mod::lemma_mod_multiples_vanish(-d - 1, ni - q, ni);
                vstd::arithmetic::div_mod::lemma_small_mod((ni - q) as nat, ni as nat);
            }
        }
        r as usize
    }
}

/// The image `cycle` steps away from `current` among the entries of its
/// folder, or `None` when the folder holds no image.
pub fn pick_cycled(entries: &[String], current: &str, cycle: i32) -> (r: Option<String>)
    ensures
        match r {
            Some(p) => cycled(texts(entries@), current@, cycle as int) == Some(p@),
            None => cycled(texts(entries@), current@, cycle as int) is None,
        },
{
    let imgs = sort_texts(image_entries(entries));
    let ghost s = views(imgs@);
    assert(s == sorted_images(texts(entries@)));
    proof {
        lemma_text_order_total();
        texts(entries@).filter(image_filter()).lemma_sort_by_ensures(text_order());
        assert(s.to_multiset().len() == texts(entries@).filter(image_filter()).to_multiset().len());
        texts(entries@).lemma_filter_len(image_filter());
    }
    let n = imgs.len();
    if n == 0 {
        return None;
    }
    let cur = chars_of(current);
    let mut k: usize = 0;
    while k < n && !same_chars(&imgs[k], &cur)
        invariant
            n == imgs@.len(),
            s == views(imgs@),
            k <= n,
            forall|j: int| 0 <= j < k ==> #[trigger] s[j] != cur@,
        decreases n - k,
    {
        k = k + 1;
    }
    proof {
        lemma_first_eq(s, cur@, k as int);
    }
    let pos = if k < n {
        k
    } else {
        0
    };
    let j = wrap_index(pos, cycle, n);
    Some(string_from_chars(imgs[j].as_slice()))
}

/// Cycling zero steps stays put.
pub proof fn lemma_cycle_zero(i: int, n: int)
    requires
        0 <= i < n,
    ensures
        cycle_index(i, 0, n) == i,
{
    vstd::arithmetic::div_mod::lemma_small_mod(i as nat, n as nat);
}

/// Cycling `c` steps and then `-c` steps comes back to where it started.
pub proof fn lemma_cycle_back(i: int, c: int, n: int)
    requires
        0 <= i < n,
    ensures
        0 <= cycle_index(i, c, n) < n,
        cycle_index(cycle_index(i, c, n), -c, n) == i,
{
    vstd::arithmetic::div_mod::lemma_mod_bound(i + c, n);
    vstd::arithmetic::div_mod::lemma_fundamental_div_mod(i + c, n);
    let j = (i + c) % n;
    let d = (i + c) / n;
    assert(j - c == i + n * (-d)) by (nonlinear_arith)
        requires
            i + c == n * d + j,
    ;
    vstd::arithmetic::div_mod::lemma_mod_multiples_vanish(-d, i, n);
    vstd::arithmetic::div_mod::lemma_small_mod(i as nat, n as nat);
    assert((n * (-d) + i) % n == i);
    assert(j + (-c) == n * (-d) + i);
}

/// In a listing without repeats, cycling `c` steps from an image in the
/// folder and then `-c` steps from the result returns to that image.
pub proof fn lemma_cycled_back(entries: Seq<Seq<char>>, current: Seq<char>, c: int)
    requires
        entries.no_duplicates(),
        sorted_images(entries).contains(current),
    ensures
        ({
            let there = cycled(entries, current, c);
            &&& there is Some
            &&& cycled(entries, there->0, -c) == Some(current)
        }),
{
    let imgs = sorted_images(entries);
    let f = entries.filter(image_filter());
    lemma_text_order_total();
    f.lemma_sort_by_ensures(text_order());
    lemma_filter_no_duplicates(entries, image_filter());
    f.lemma_multiset_has_no_duplicates();
    imgs.lemma_multiset_has_no_duplicates_conv();
    let n = imgs.len() as int;
    let i = choose|i: int| 0 <= i < n && imgs[i] == current;
    assert forall|j: int| 0 <= j < i implies #[trigger] imgs[j] != current by {}
    lemma_first_eq(imgs, current, i);
    lemma_cycle_back(i, c, n);
    let k = cycle_index(i, c, n);
    assert forall|j: int| 0 <= j < k implies #[trigger] imgs[j] != imgs[k] by {}
    lemma_first_eq(imgs, imgs[k], k);
}

/// Filtering keeps a sequence free of repeats.
proof fn lemma_filter_no_duplicates(s: Seq<Seq<char>>, p: spec_fn(Seq<char>) -> bool)
    requires
        s.no_duplicates(),
    ensures
        s.filter(p).no_duplicates(),
    decreases s.len(),
{
    reveal(Seq::filter);
    if s.len() > 0 {
        let t = s.drop_last();
        assert(t.no_duplicates());
        lemma_filter_no_duplicates(t, p);
        let f = t.filter(p);
        if p(s.last()) {
            let g = f.push(s.last());
            assert(s.filter(p) == g);
            assert forall|a: int, b: int|
                0 <= a < g.len() && 0 <= b < g.len() && a != b implies g[a] != g[b] by {
                if a == f.len() || b == f.len() {
                    let k = if a == f.len() {
                        b
                    } else {
                        a
                    };
                    t.lemma_filter_contains_rev(p, f[k]);
                    assert(f.contains(f[k]));
                    let j = choose|j: int| 0 <= j < t.len() && t[j] == f[k];
                    assert(s[j] == t[j]);
                    assert(s[s.len() - 1] == s.last());
                } else {
                    assert(g[a] == f[a] && g[b] == f[b]);
                }
            }
        }
    }
}

} // verus!
