//! The transition settings that are not floating point: which control
//! points a curve string names, and which registered transition a name
//! selects.
use vstd::prelude::*;
use crate::text::{chars_of, is_white, split_all, split_all_chars, string_from_chars, string_part, trim, trim_end, trim_start, trim_range};
use crate::ipc::{lemma_float_literal_chars, lemma_float_literal_plain, literal_char};
use crate::literal::{float_literal_at, is_float_literal};
use crate::text::{first_eq, lemma_first_eq};

verus! {

pub open spec fn trimmed() -> spec_fn(Seq<char>) -> Seq<char> {
    |p: Seq<char>| trim(p)
}

pub open spec fn float_text() -> spec_fn(Seq<char>) -> bool {
    |p: Seq<char>| is_float_literal(p)
}

/// The control points named by a curve string `x1,y1,x2,y2`: the
/// comma-separated pieces, trimmed, that are numbers, when there are exactly
/// four of them; `None` for an empty string or any other count (the curve
/// is then linear).
pub open spec fn bezier_parts(s: Seq<char>) -> Option<Seq<Seq<char>>> {
    if s.len() == 0 {
        None
    } else {
        let kept = split_all(s, ',').map_values(trimmed()).filter(float_text());
        if kept.len() == 4 {
            Some(kept)
        } else {
            None
        }
    }
}

/// Splitting at a separator that first occurs right after `a`.
proof fn lemma_split_all_step(a: Seq<char>, rest: Seq<char>, sep: char)
    requires
        forall|j: int| 0 <= j < a.len() ==> #[trigger] a[j] != sep,
    ensures
        split_all(a + seq![sep] + rest, sep) == seq![a] + split_all(rest, sep),
{
    let s = a + seq![sep] + rest;
    assert forall|j: int| 0 <= j < a.len() implies #[trigger] s[j] != sep by {
        assert(s[j] == a[j]);
    }
    lemma_first_eq(s, sep, a.len() as int);
    assert(s.take(a.len() as int) =~= a);
    assert(s.skip(a.len() + 1int) =~= rest);
}

/// A float literal is its own trimmed text and holds no comma.
proof fn lemma_literal_piece(p: Seq<char>)
    requires
        is_float_literal(p),
    ensures
        trim(p) == p,
        forall|j: int| 0 <= j < p.len() ==> #[trigger] p[j] != ',',
{
    lemma_float_literal_plain(p);
    lemma_float_literal_chars(p);
    assert forall|j: int| 0 <= j < p.len() implies #[trigger] p[j] != ',' by {
        assert(literal_char(p[j]));
    }
    assert(!is_white(p[0]));
    assert(trim_start(p) =~= p);
    assert(!is_white(p.last()));
    assert(trim_end(p) =~= p);
}

/// Filtering keeps a sequence whose every element passes.
proof fn lemma_filter_keeps_all(s: Seq<Seq<char>>, f: spec_fn(Seq<char>) -> bool)
    requires
        forall|i: int| 0 <= i < s.len() ==> f(#[trigger] s[i]),
    ensures
        s.filter(f) == s,
    decreases s.len(),
{
    reveal(Seq::filter);
    if s.len() > 0 {
        lemma_filter_keeps_all(s.drop_last(), f);
        assert(f(s[s.len() - 1]));
        assert(s.drop_last().push(s.last()) =~= s);
    }
}

/// Every piece that is a number is kept, whatever its sign: a curve string
/// of four float literals separated by commas names exactly those four
/// control points.
pub proof fn lemma_four_numbers_kept(p0: Seq<char>, p1: Seq<char>, p2: Seq<char>, p3: Seq<char>)
    requires
        is_float_literal(p0),
        is_float_literal(p1),
        is_float_literal(p2),
        is_float_literal(p3),
    ensures
        bezier_parts(p0 + seq![','] + p1 + seq![','] + p2 + seq![','] + p3) == Some(seq![p0, p1, p2, p3]),
{
    lemma_literal_piece(p0);
    lemma_literal_piece(p1);
    lemma_literal_piece(p2);
    lemma_literal_piece(p3);
    let c = seq![','];
    let r2 = p2 + c + p3;
    let r1 = p1 + c + r2;
    let s = p0 + c + p1 + c + p2 + c + p3;
    assert(s =~= p0 + c + r1);
    lemma_split_all_step(p0, r1, ',');
    lemma_split_all_step(p1, r2, ',');
    lemma_split_all_step(p2, p3, ',');
    lemma_first_eq(p3, ',', p3.len() as int);
    assert(split_all(p3, ',') == seq![p3]);
    let parts = split_all(s, ',');
    assert(parts =~= seq![p0, p1, p2, p3]);
    let t = parts.map_values(trimmed());
    assert(t =~= seq![p0, p1, p2, p3]);
    lemma_filter_keeps_all(t, float_text());
    assert(s.len() > 0);
}

/// The texts of the four control points, when the curve string names them.
pub fn bezier_points(s: &str) -> (r: Option<Vec<String>>)
    ensures
        match r {
            Some(v) => bezier_parts(s@) matches Some(p) && v@.len() == 4 && forall|i: int|
                0 <= i < 4 ==> #[trigger] v@[i]@ == p[i],
            None => bezier_parts(s@) is None,
        },
{
    let v = chars_of(s);
    let n = v.len();
    if n == 0 {
        return None;
    }
    let parts = split_all_chars(&v, 0, n, ',');
    let ghost ps = split_all(v@, ',');
    assert(v@.subrange(0, n as int) == v@);
    let ghost tp = ps.map_values(trimmed());
    let mut kept: Vec<String> = Vec::new();
    let mut i: usize = 0;
    while i < parts.len()
        invariant
            i <= parts@.len(),
            parts@.len() == ps.len(),
            tp == ps.map_values(trimmed()),
            forall|j: int| 0 <= j < parts@.len() ==> #[trigger] parts@[j]@ == ps[j],
            kept@.len() == tp.take(i as int).filter(float_text()).len(),
            forall|j: int|
                0 <= j < kept@.len() ==> #[trigger] kept@[j]@ == tp.take(i as int).filter(float_text())[j],
        decreases parts@.len() - i,
    {
        let (lo, hi) = trim_range(&parts[i], 0, parts[i].len());
        assert(parts@[i as int]@.subrange(0, parts@[i as int]@.len() as int) == parts@[i as int]@);
        let ghost piece = parts@[i as int]@.subrange(lo as int, hi as int);
        proof {
            reveal(Seq::filter);
            assert(tp.take(i + 1).drop_last() =~= tp.take(i as int));
            assert(tp.take(i + 1).last() == piece);
        }
        if float_literal_at(&parts[i], lo, hi) {
            let t = string_part(&parts[i], lo, hi);
            kept.push(string_from_chars(t.as_slice()));
        }
        i = i + 1;
    }
    assert(tp.take(parts@.len() as int) =~= tp);
    if kept.len() == 4 {
        Some(kept)
    } else {
        None
    }
}

/// The instant cut: what a transition name selects when no registered
/// transition has that name.
pub struct TransitionNone;

impl TransitionNone {
    /// The name the instant cut goes by.
    pub fn name(&self) -> (n: &'static str)
        ensures
            n@ == seq!['n', 'o', 'n', 'e'],
    {
        proof {
            reveal_strlit("none");
        }
        "none"
    }
}

/// How far a running transition has got: frames `0` through `total` are
/// drawn, one per step, and the step after the last one ends it.
pub struct FrameCounter {
    pub current: u32,
    pub total: u32,
}

/// One step of the counter at `current` out of `total`: the frame drawn, if
/// any, and where the counter goes.
pub open spec fn frame_step(current: u32, total: u32) -> (Option<u32>, u32) {
    if current <= total {
        (Some(current), (current + 1) as u32)
    } else {
        (None, current)
    }
}

/// What `calls` successive steps from `current` give, in order.
pub open spec fn frames_drawn(current: u32, total: u32, calls: nat) -> Seq<Option<u32>>
    decreases calls,
{
    if calls == 0 {
        Seq::empty()
    } else {
        seq![frame_step(current, total).0] + frames_drawn(frame_step(current, total).1, total, (calls - 1) as nat)
    }
}

proof fn lemma_frames_from(current: u32, total: u32, calls: nat)
    requires
        total < u32::MAX,
        current <= total + 1,
    ensures
        frames_drawn(current, total, calls).len() == calls,
        forall|i: int|
            0 <= i < calls ==> #[trigger] frames_drawn(current, total, calls)[i] == (if current + i
                <= total {
                Some((current + i) as u32)
            } else {
                None
            }),
    decreases calls,
{
    if calls > 0 {
        let next = frame_step(current, total).1;
        lemma_frames_from(next, total, (calls - 1) as nat);
        let rest = frames_drawn(next, total, (calls - 1) as nat);
        let all = frames_drawn(current, total, calls);
        assert forall|i: int| 0 <= i < calls implies #[trigger] all[i] == (if current + i <= total {
            Some((current + i) as u32)
        } else {
            None
        }) by {
            if i > 0 {
                assert(all[i] == rest[i - 1]);
            }
        }
    }
}

/// A transition draws every frame from 0 through `total` once, in order,
/// and then ends: from a new counter, the first `total + 1` steps give
/// frames `0..=total` and every later step gives `None`.
pub proof fn lemma_frames_in_order(total: u32, calls: nat)
    requires
        total < u32::MAX,
    ensures
        frames_drawn(0, total, calls).len() == calls,
        forall|i: int|
            0 <= i < calls ==> #[trigger] frames_drawn(0, total, calls)[i] == (if i <= total {
                Some(i as u32)
            } else {
                None
            }),
{
    lemma_frames_from(0, total, calls);
}

impl FrameCounter {
    /// A transition of `total` frames that has drawn nothing yet.
    pub fn new(total: u32) -> (c: Self)
        requires
            total < u32::MAX,
        ensures
            c.current == 0,
            c.total == total,
    {
        FrameCounter { current: 0, total }
    }

    /// The frame to draw now, or `None` when every frame has been drawn and
    /// the transition is over.
    pub fn next_frame(&mut self) -> (f: Option<u32>)
        requires
            old(self).total < u32::MAX,
            old(self).current <= old(self).total + 1,
        ensures
            final(self).total == old(self).total,
            final(self).current <= final(self).total + 1,
            (f, final(self).current) == frame_step(old(self).current, old(self).total),
            old(self).current <= old(self).total ==> f == Some(old(self).current)
                && final(self).current == old(self).current + 1,
            old(self).current > old(self).total ==> f is None
                && final(self).current == old(self).current,
    {
        if self.current <= self.total {
            let f = self.current;
            self.current = self.current + 1;
            Some(f)
        } else {
            None
        }
    }
}

/// The views of a list of names.
pub open spec fn name_views(names: Seq<&str>) -> Seq<Seq<char>> {
    Seq::new(names.len(), |i: int| names[i]@)
}

/// The registered transition called `name`, if any; a name that is not
/// registered selects the instant cut.
pub fn find_transition(names: &[&str], name: &str) -> (r: Option<usize>)
    ensures
        match r {
            Some(i) => i < names@.len() && i == first_eq(name_views(names@), name@),
            None => first_eq(name_views(names@), name@) == names@.len(),
        },
{
    let ghost nv = name_views(names@);
    let mut k: usize = 0;
    while k < names.len()
        invariant
            nv == name_views(names@),
            k <= names@.len(),
            forall|j: int| 0 <= j < k ==> #[trigger] nv[j] != name@,
        decreases names@.len() - k,
    {
        if crate::text::str_equal(names[k], name) {
            proof {
                lemma_first_eq(nv, name@, k as int);
            }
            return Some(k);
        }
        k = k + 1;
    }
    proof {
        lemma_first_eq(nv, name@, k as int);
    }
    None
}

} // verus!
