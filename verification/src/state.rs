//! The client's remembered settings and its command line: what `wallbash
//! set` writes to the state file, reads back from it, and takes from its
//! arguments.
//!
//! The anchor coordinates are kept as the decimal text that names them (a
//! float literal, such as `0.5`), which is what the state file and the
//! command protocol carry.
use vstd::prelude::*;
use crate::text::{chars_of, lemma_first_eq, lines, lines_of, push_all, push_str_chars, string_from_chars};
use crate::ipc::{lemma_float_literal_chars, literal_char};
use crate::literal::{float_literal_at, is_float_literal};

verus! {

// ------------------------------------------------------------------ paths

/// `PathBuf::join` of a relative component: a `/` is put between unless the
/// base is empty or already ends in `/`.
pub open spec fn join_path(base: Seq<char>, name: Seq<char>) -> Seq<char> {
    if base.len() == 0 {
        name
    } else if base.last() == '/' {
        base + name
    } else {
        base + seq!['/'] + name
    }
}

/// Joins a relative component onto a directory.
pub fn join(base: &str, name: &str) -> (r: String)
    ensures
        r@ == join_path(base@, name@),
{
    let b = chars_of(base);
    let mut out = chars_of(base);
    if b.len() > 0 && b[b.len() - 1] != '/' {
        out.push('/');
    }
    push_str_chars(&mut out, name);
    proof {
        if b@.len() > 0 {
            assert(b@.last() == b@[b@.len() - 1]);
        }
    }
    string_from_chars(out.as_slice())
}

/// The base directory for cached files: `$XDG_CACHE_HOME` when set, else
/// `$HOME/.cache`, else empty.
pub open spec fn cache_base(xdg_cache: Option<Seq<char>>, home: Option<Seq<char>>) -> Seq<char> {
    match xdg_cache {
        Some(x) => x,
        None => match home {
            Some(h) => h + "/.cache"@,
            None => Seq::empty(),
        },
    }
}

/// The directory that holds the state file and the daemon's log.
pub fn cache_dir_path(xdg_cache: Option<&str>, home: Option<&str>) -> (r: String)
    ensures
        r@ == join_path(
            cache_base(
                match xdg_cache {
                    Some(x) => Some(x@),
                    None => None,
                },
                match home {
                    Some(h) => Some(h@),
                    None => None,
                },
            ),
            "wallbash"@,
        ),
{
    let base: Vec<char> = match xdg_cache {
        Some(x) => chars_of(x),
        None => match home {
            Some(h) => {
                let mut v = chars_of(h);
                push_str_chars(&mut v, "/.cache");
                v
            },
            None => Vec::new(),
        },
    };
    let b = string_from_chars(base.as_slice());
    join(b.as_str(), "wallbash")
}

/// The state file inside the cache directory.
pub fn cache_state(cache_dir: &str) -> (r: String)
    ensures
        r@ == join_path(cache_dir@, "state"@),
{
    join(cache_dir, "state")
}

/// The daemon's log file inside the cache directory.
pub fn cache_log(cache_dir: &str) -> (r: String)
    ensures
        r@ == join_path(cache_dir@, "wallbash.log"@),
{
    join(cache_dir, "wallbash.log")
}

// ------------------------------------------------------------------ the remembered state

/// The settings of the last `set`.
pub struct CachedState {
    pub wall: String,
    pub palette: String,
    pub bezier: String,
    pub mode: String,
    pub anchor_x: String,
    pub anchor_y: String,
}

pub struct CachedStateView {
    pub wall: Seq<char>,
    pub palette: Seq<char>,
    pub bezier: Seq<char>,
    pub mode: Seq<char>,
    pub anchor_x: Seq<char>,
    pub anchor_y: Seq<char>,
}

impl View for CachedState {
    type V = CachedStateView;

    open spec fn view(&self) -> CachedStateView {
        CachedStateView {
            wall: self.wall@,
            palette: self.palette@,
            bezier: self.bezier@,
            mode: self.mode@,
            anchor_x: self.anchor_x@,
            anchor_y: self.anchor_y@,
        }
    }
}

/// The curve used when none is given.
pub open spec fn default_bezier() -> Seq<char> {
    "0.64,0.56,0.17,0.84"@
}

/// The state before anything was set.
pub open spec fn default_state() -> CachedStateView {
    CachedStateView {
        wall: Seq::empty(),
        palette: "skip"@,
        bezier: default_bezier(),
        mode: "cover"@,
        anchor_x: "0.5"@,
        anchor_y: "0.5"@,
    }
}

impl CachedStateView {
    /// Both anchors are float literals.
    pub open spec fn wf(self) -> bool {
        is_float_literal(self.anchor_x) && is_float_literal(self.anchor_y)
    }
}

/// `0.5` is a float literal.
pub proof fn lemma_half_is_literal()
    ensures
        is_float_literal("0.5"@),
{
    reveal_strlit("0.5");
    let m = "0.5"@;
    assert(crate::literal::unsigned_part(m) == m);
    assert(m[1] == '.');
    assert(crate::literal::all_digits(m.take(1)));
    assert(crate::literal::all_digits(m.skip(2)));
    assert(crate::literal::is_mantissa(m));
}

impl CachedState {
    pub fn default() -> (s: Self)
        ensures
            s@ == default_state(),
            s@.wf(),
    {
        proof {
            lemma_half_is_literal();
        }
        CachedState {
            wall: string_from_chars(Vec::<char>::new().as_slice()),
            palette: crate::ipc::owned("skip"),
            bezier: crate::ipc::owned("0.64,0.56,0.17,0.84"),
            mode: crate::ipc::owned("cover"),
            anchor_x: crate::ipc::owned("0.5"),
            anchor_y: crate::ipc::owned("0.5"),
        }
    }
}

/// Line `i` of the state file, or the default.
pub open spec fn line_or(ls: Seq<Seq<char>>, i: int, d: Seq<char>) -> Seq<char> {
    if i < ls.len() {
        ls[i]
    } else {
        d
    }
}

/// Line `i` of the state file when it is a float literal, or the default.
pub open spec fn anchor_line_or(ls: Seq<Seq<char>>, i: int, d: Seq<char>) -> Seq<char> {
    if i < ls.len() && is_float_literal(ls[i]) {
        ls[i]
    } else {
        d
    }
}

/// What `load_state` makes of the state file: the first six lines are the
/// wallpaper, palette, curve, mode and the two anchors; a missing line, or
/// an anchor that is not a number, takes its default; an unreadable file
/// gives the default state.
pub open spec fn state_from_text(content: Option<Seq<char>>) -> CachedStateView {
    match content {
        None => default_state(),
        Some(c) => {
            let ls = lines(c);
            let d = default_state();
            CachedStateView {
                wall: line_or(ls, 0, d.wall),
                palette: line_or(ls, 1, d.palette),
                bezier: line_or(ls, 2, d.bezier),
                mode: line_or(ls, 3, d.mode),
                anchor_x: anchor_line_or(ls, 4, d.anchor_x),
                anchor_y: anchor_line_or(ls, 5, d.anchor_y),
            }
        },
    }
}

fn take_line(ls: &Vec<Vec<char>>, i: usize, d: String) -> (r: String)
    ensures
        r@ == line_or(
            Seq::new(ls@.len(), |j: int| ls@[j]@),
            i as int,
            d@,
        ),
{
    if i < ls.len() {
        string_from_chars(ls[i].as_slice())
    } else {
        d
    }
}

fn take_anchor(ls: &Vec<Vec<char>>, i: usize, d: String) -> (r: String)
    ensures
        r@ == anchor_line_or(
            Seq::new(ls@.len(), |j: int| ls@[j]@),
            i as int,
            d@,
        ),
{
    if i < ls.len() {
        assert(ls@[i as int]@.subrange(0, ls@[i as int]@.len() as int) == ls@[i as int]@);
        if float_literal_at(&ls[i], 0, ls[i].len()) {
            return string_from_chars(ls[i].as_slice());
        }
    }
    d
}

/// Reads the state from the state file's text, or `None` when the file
/// could not be read.
pub fn parse_state(content: Option<&str>) -> (s: CachedState)
    ensures
        s@ == state_from_text(
            match content {
                Some(c) => Some(c@),
                None => None,
            },
        ),
        s@.wf(),
{
    let d = CachedState::default();
    match content {
        None => d,
        Some(c) => {
            let v = chars_of(c);
            let ls = lines_of(&v);
            let ghost lsv = Seq::new(ls@.len(), |j: int| ls@[j]@);
            assert(lsv =~= lines(c@));
            proof {
                lemma_half_is_literal();
            }
            CachedState {
                wall: take_line(&ls, 0, d.wall),
                palette: take_line(&ls, 1, d.palette),
                bezier: take_line(&ls, 2, d.bezier),
                mode: take_line(&ls, 3, d.mode),
                anchor_x: take_anchor(&ls, 4, d.anchor_x),
                anchor_y: take_anchor(&ls, 5, d.anchor_y),
            }
        },
    }
}

/// The state file's text: the six fields, one per line.
pub open spec fn state_text(s: CachedStateView) -> Seq<char> {
    s.wall + seq!['\n'] + s.palette + seq!['\n'] + s.bezier + seq!['\n'] + s.mode + seq!['\n']
        + s.anchor_x + seq!['\n'] + s.anchor_y
}

/// Renders the state file's text.
pub fn render_state(s: &CachedState) -> (r: String)
    ensures
        r@ == state_text(s@),
{
    let nl = vec!['\n'];
    let mut out = chars_of(s.wall.as_str());
    push_all(&mut out, &nl);
    push_str_chars(&mut out, s.palette.as_str());
    push_all(&mut out, &nl);
    push_str_chars(&mut out, s.bezier.as_str());
    push_all(&mut out, &nl);
    push_str_chars(&mut out, s.mode.as_str());
    push_all(&mut out, &nl);
    push_str_chars(&mut out, s.anchor_x.as_str());
    push_all(&mut out, &nl);
    push_str_chars(&mut out, s.anchor_y.as_str());
    assert(out@ =~= state_text(s@));
    string_from_chars(out.as_slice())
}


/// A line of the state file: no line feed, and no carriage return at its end.
pub open spec fn plain_line(s: Seq<char>) -> bool {
    (forall|i: int| 0 <= i < s.len() ==> #[trigger] s[i] != '\n') && (s.len() == 0 || s.last()
        != '\r')
}

proof fn lemma_lines_step(a: Seq<char>, rest: Seq<char>)
    requires
        plain_line(a),
    ensures
        lines(a + seq!['\n'] + rest) == seq![a] + lines(rest),
{
    let s = a + seq!['\n'] + rest;
    assert forall|j: int| 0 <= j < a.len() implies #[trigger] s[j] != '\n' by {
        assert(s[j] == a[j]);
    }
    lemma_first_eq(s, '\n', a.len() as int);
    assert(s.take(a.len() as int) =~= a);
    assert(s.skip(a.len() + 1int) =~= rest);
}

proof fn lemma_literal_is_plain_line(s: Seq<char>)
    requires
        is_float_literal(s),
    ensures
        plain_line(s),
        s.len() > 0,
{
    lemma_float_literal_chars(s);
    assert forall|i: int| 0 <= i < s.len() implies #[trigger] s[i] != '\n' by {
        assert(literal_char(s[i]));
    }
    assert(literal_char(s[s.len() - 1]));
}

proof fn lemma_state_lines(s: CachedStateView)
    requires
        plain_line(s.anchor_x),
        plain_line(s.anchor_y),
        s.anchor_y.len() > 0,
        plain_line(s.wall),
        plain_line(s.palette),
        plain_line(s.bezier),
        plain_line(s.mode),
    ensures
        lines(state_text(s)) == seq![s.wall, s.palette, s.bezier, s.mode, s.anchor_x, s.anchor_y],
{
    let nl = seq!['\n'];
    let r4 = s.anchor_x + nl + s.anchor_y;
    let r3 = s.mode + nl + r4;
    let r2 = s.bezier + nl + r3;
    let r1 = s.palette + nl + r2;
    assert(state_text(s) =~= s.wall + nl + r1);
    let y = s.anchor_y;
    lemma_first_eq(y, '\n', y.len() as int);
    assert(lines(y) == seq![y]);
    lemma_lines_step(s.anchor_x, s.anchor_y);
    assert(lines(r4) =~= seq![s.anchor_x, s.anchor_y]);
    lemma_lines_step(s.mode, r4);
    assert(lines(r3) =~= seq![s.mode, s.anchor_x, s.anchor_y]);
    lemma_lines_step(s.bezier, r3);
    assert(lines(r2) =~= seq![s.bezier, s.mode, s.anchor_x, s.anchor_y]);
    lemma_lines_step(s.palette, r2);
    assert(lines(r1) =~= seq![s.palette, s.bezier, s.mode, s.anchor_x, s.anchor_y]);
    lemma_lines_step(s.wall, r1);
}

/// What save writes, load reads back: a well-formed state whose fields are
/// single lines comes back unchanged from the state file's text.
pub proof fn lemma_state_roundtrip(s: CachedStateView)
    requires
        s.wf(),
        plain_line(s.wall),
        plain_line(s.palette),
        plain_line(s.bezier),
        plain_line(s.mode),
    ensures
        state_from_text(Some(state_text(s))) == s,
{
    lemma_literal_is_plain_line(s.anchor_x);
    lemma_literal_is_plain_line(s.anchor_y);
    lemma_state_lines(s);
}

} // verus!
