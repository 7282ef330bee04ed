//! The command protocol between the client and the daemon: the scaling and
//! palette modes, and the one-line commands sent over the socket.
//!
//! A `set` command is the text `set` followed by six fields separated by the
//! byte `\x01`: palette, bezier curve, scaling mode, anchor x, anchor y and
//! the wallpaper path (which may itself hold the separator).
use vstd::prelude::*;
use crate::text::{chars_of, fold, fold_seq, is_white, lemma_first_eq, push_str_chars, trim_end, trim_start, has_prefix, keyword_is, push_all, same_chars, split_chars, split_limited, starts_with_at, string_from_chars, string_part, trim, trim_range};
use crate::literal::{all_digits, float_literal_at, is_digit, is_exp_mark, is_exponent, is_float_literal, is_mantissa, is_sign, unsigned_part};

verus! {

/// How the wallpaper is scaled to the output.
#[derive(Debug, Clone, Copy, PartialEq, Eq, Structural)]
pub enum ScalingMode {
    Cover,
    Fit,
    Original,
}

/// Which color palette is generated from the wallpaper.
#[derive(Debug, Clone, Copy, PartialEq, Eq, Structural)]
pub enum PaletteMode {
    Auto,
    Dark,
    Light,
    Skip,
}

/// The separator between the fields of a `set` command.
pub const FIELD_SEP: char = '\x01';

/// The scaling mode named by `s`: its trimmed, case-folded text is `fit` or
/// `original`; anything else means cover.
pub open spec fn scaling_mode_of(s: Seq<char>) -> ScalingMode {
    let k = fold_seq(trim(s));
    if k == "fit"@ {
        ScalingMode::Fit
    } else if k == "original"@ {
        ScalingMode::Original
    } else {
        ScalingMode::Cover
    }
}

pub open spec fn scaling_name(m: ScalingMode) -> Seq<char> {
    match m {
        ScalingMode::Cover => "cover"@,
        ScalingMode::Fit => "fit"@,
        ScalingMode::Original => "original"@,
    }
}

/// The palette mode named by `s`: its trimmed, case-folded text is `auto`,
/// `dark` or `light`; anything else means skip.
pub open spec fn palette_mode_of(s: Seq<char>) -> PaletteMode {
    let k = fold_seq(trim(s));
    if k == "auto"@ {
        PaletteMode::Auto
    } else if k == "dark"@ {
        PaletteMode::Dark
    } else if k == "light"@ {
        PaletteMode::Light
    } else {
        PaletteMode::Skip
    }
}

pub open spec fn palette_name(m: PaletteMode) -> Seq<char> {
    match m {
        PaletteMode::Auto => "auto"@,
        PaletteMode::Dark => "dark"@,
        PaletteMode::Light => "light"@,
        PaletteMode::Skip => "skip"@,
    }
}

impl ScalingMode {
    /// Reads a scaling mode, defaulting to cover.
    pub fn from_str(s: &str) -> (m: Self)
        ensures
            m == scaling_mode_of(s@),
    {
        let v = chars_of(s);
        Self::from_chars(&v)
    }

    pub fn from_chars(v: &Vec<char>) -> (m: Self)
        ensures
            m == scaling_mode_of(v@),
    {
        if keyword_is(v, "fit") {
            ScalingMode::Fit
        } else if keyword_is(v, "original") {
            ScalingMode::Original
        } else {
            ScalingMode::Cover
        }
    }

    pub fn as_str(&self) -> (s: &'static str)
        ensures
            s@ == scaling_name(*self),
    {
        match self {
            ScalingMode::Cover => "cover",
            ScalingMode::Fit => "fit",
            ScalingMode::Original => "original",
        }
    }

    /// Whether this mode can leave part of the output uncovered, so that a
    /// blurred background has to fill it.
    pub fn needs_background(&self) -> (r: bool)
        ensures
            r == (*self != ScalingMode::Cover),
    {
        !matches!(self, ScalingMode::Cover)
    }
}

impl PaletteMode {
    /// Reads a palette mode, defaulting to skip.
    pub fn from_str(s: &str) -> (m: Self)
        ensures
            m == palette_mode_of(s@),
    {
        let v = chars_of(s);
        Self::from_chars(&v)
    }

    pub fn from_chars(v: &Vec<char>) -> (m: Self)
        ensures
            m == palette_mode_of(v@),
    {
        if keyword_is(v, "auto") {
            PaletteMode::Auto
        } else if keyword_is(v, "dark") {
            PaletteMode::Dark
        } else if keyword_is(v, "light") {
            PaletteMode::Light
        } else {
            PaletteMode::Skip
        }
    }

    pub fn as_str(&self) -> (s: &'static str)
        ensures
            s@ == palette_name(*self),
    {
        match self {
            PaletteMode::Auto => "auto",
            PaletteMode::Dark => "dark",
            PaletteMode::Light => "light",
            PaletteMode::Skip => "skip",
        }
    }

    /// Whether a palette is to be generated at all.
    pub fn generates(&self) -> (r: bool)
        ensures
            r == (*self != PaletteMode::Skip),
    {
        !matches!(self, PaletteMode::Skip)
    }
}

/// A command received by the daemon.  The anchor coordinates are carried as
/// the text that was sent, which is always a float literal.
pub enum Command {
    Stop,
    SetWallpaper {
        palette: PaletteMode,
        bezier: String,
        scale: ScalingMode,
        anchor_x: String,
        anchor_y: String,
        path: String,
    },
}

/// The mathematical content of a `Command`.
pub enum CommandView {
    Stop,
    SetWallpaper {
        palette: PaletteMode,
        bezier: Seq<char>,
        scale: ScalingMode,
        anchor_x: Seq<char>,
        anchor_y: Seq<char>,
        path: Seq<char>,
    },
}

impl View for Command {
    type V = CommandView;

    open spec fn view(&self) -> CommandView {
        match self {
            Command::Stop => CommandView::Stop,
            Command::SetWallpaper { palette, bezier, scale, anchor_x, anchor_y, path } => CommandView::SetWallpaper {
                palette: *palette,
                bezier: bezier@,
                scale: *scale,
                anchor_x: anchor_x@,
                anchor_y: anchor_y@,
                path: path@,
            },
        }
    }
}

pub open spec fn command_result_view(r: Result<Command, String>) -> Result<CommandView, Seq<char>> {
    match r {
        Ok(c) => Ok(c@),
        Err(e) => Err(e@),
    }
}

/// What the daemon makes of a raw command line.
pub open spec fn parse_command(raw: Seq<char>) -> Result<CommandView, Seq<char>> {
    let t = trim(raw);
    if t == "stop"@ {
        Ok(CommandView::Stop)
    } else if has_prefix(t, "set"@) {
        let parts = split_limited(t.skip(3), FIELD_SEP, 6);
        if parts.len() < 2 {
            Err("missing bezier"@)
        } else if parts.len() < 3 {
            Err("missing mode"@)
        } else if parts.len() < 4 {
            Err("missing anchor_x"@)
        } else if !is_float_literal(parts[3]) {
            Err("invalid anchor_x"@)
        } else if parts.len() < 5 {
            Err("missing anchor_y"@)
        } else if !is_float_literal(parts[4]) {
            Err("invalid anchor_y"@)
        } else if parts.len() < 6 {
            Err("missing path"@)
        } else {
            Ok(
                CommandView::SetWallpaper {
                    palette: palette_mode_of(parts[0]),
                    bezier: parts[1],
                    scale: scaling_mode_of(parts[2]),
                    anchor_x: parts[3],
                    anchor_y: parts[4],
                    path: parts[5],
                },
            )
        }
    } else {
        Err("unknown internal command: "@ + t)
    }
}

/// An owned copy of `s`.
pub fn owned(s: &str) -> (r: String)
    ensures
        r@ == s@,
{
    s.to_owned()
}

impl Command {
    /// Parses one command line received on the socket.
    pub fn parse_raw(raw: &str) -> (r: Result<Self, String>)
        ensures
            command_result_view(r) == parse_command(raw@),
    {
        let v = chars_of(raw);
        let (lo, hi) = trim_range(&v, 0, v.len());
        assert(v@.subrange(0, v@.len() as int) == v@);
        let t = string_part(&v, lo, hi);
        let stop = chars_of("stop");
        if same_chars(&t, &stop) {
            return Ok(Command::Stop);
        }
        let set = chars_of("set");
        assert(t@.skip(0) == t@);
        if !starts_with_at(&t, 0, &set) {
            let mut msg = chars_of("unknown internal command: ");
            push_all(&mut msg, &t);
            return Err(string_from_chars(msg.as_slice()));
        }
        proof {
            reveal_strlit("set");
        }
        let parts = split_chars(&t, 3, t.len(), FIELD_SEP, 6);
        assert(t@.subrange(3, t@.len() as int) == t@.skip(3));
        let n = parts.len();
        if n < 2 {
            return Err(owned("missing bezier"));
        }
        if n < 3 {
            return Err(owned("missing mode"));
        }
        if n < 4 {
            return Err(owned("missing anchor_x"));
        }
        assert(parts[3]@.subrange(0, parts[3]@.len() as int) == parts[3]@);
        if !float_literal_at(&parts[3], 0, parts[3].len()) {
            return Err(owned("invalid anchor_x"));
        }
        if n < 5 {
            return Err(owned("missing anchor_y"));
        }
        assert(parts[4]@.subrange(0, parts[4]@.len() as int) == parts[4]@);
        if !float_literal_at(&parts[4], 0, parts[4].len()) {
            return Err(owned("invalid anchor_y"));
        }
        if n < 6 {
            return Err(owned("missing path"));
        }
        let palette = PaletteMode::from_chars(&parts[0]);
        let scale = ScalingMode::from_chars(&parts[2]);
        Ok(
            Command::SetWallpaper {
                palette,
                bezier: string_from_chars(parts[1].as_slice()),
                scale,
                anchor_x: string_from_chars(parts[3].as_slice()),
                anchor_y: string_from_chars(parts[4].as_slice()),
                path: string_from_chars(parts[5].as_slice()),
            },
        )
    }
}


// ------------------------------------------------------------------ the client's side

/// The line the client sends to ask for a wallpaper.
pub open spec fn set_line(
    palette: Seq<char>,
    bezier: Seq<char>,
    mode: Seq<char>,
    anchor_x: Seq<char>,
    anchor_y: Seq<char>,
    path: Seq<char>,
) -> Seq<char> {
    "set"@ + palette + seq![FIELD_SEP] + bezier + seq![FIELD_SEP] + mode + seq![FIELD_SEP]
        + anchor_x + seq![FIELD_SEP] + anchor_y + seq![FIELD_SEP] + path
}

/// Builds the `set` command line for the given fields.
pub fn set_command_line(
    palette: &str,
    bezier: &str,
    mode: &str,
    anchor_x: &str,
    anchor_y: &str,
    path: &str,
) -> (line: String)
    ensures
        line@ == set_line(palette@, bezier@, mode@, anchor_x@, anchor_y@, path@),
{
    let sep = vec![FIELD_SEP];
    let mut out = chars_of("set");
    push_str_chars(&mut out, palette);
    push_all(&mut out, &sep);
    push_str_chars(&mut out, bezier);
    push_all(&mut out, &sep);
    push_str_chars(&mut out, mode);
    push_all(&mut out, &sep);
    push_str_chars(&mut out, anchor_x);
    push_all(&mut out, &sep);
    push_str_chars(&mut out, anchor_y);
    push_all(&mut out, &sep);
    push_str_chars(&mut out, path);
    assert(out@ =~= set_line(palette@, bezier@, mode@, anchor_x@, anchor_y@, path@));
    string_from_chars(out.as_slice())
}

/// `s` does not hold the character `c`.
pub open spec fn free_of(s: Seq<char>, c: char) -> bool {
    forall|i: int| 0 <= i < s.len() ==> #[trigger] s[i] != c
}

/// A character that may occur in a float literal.
pub open spec fn literal_char(c: char) -> bool {
    let u = c as u32;
    ||| is_digit(c)
    ||| c == '.'
    ||| is_sign(c)
    ||| (0x41 <= u && u <= 0x5a)
    ||| (0x61 <= u && u <= 0x7a)
    ||| u == 0x212a
}

proof fn lemma_mantissa_chars(m: Seq<char>)
    requires
        is_mantissa(m),
    ensures
        m.len() > 0,
        forall|i: int| 0 <= i < m.len() ==> literal_char(#[trigger] m[i]),
{
    if !(m.len() > 0 && all_digits(m)) {
        let k = choose|k: int|
            0 <= k < m.len() && #[trigger] m[k] == '.' && all_digits(m.take(k)) && all_digits(
                m.skip(k + 1),
            ) && m.len() >= 2;
        assert forall|i: int| 0 <= i < m.len() implies literal_char(#[trigger] m[i]) by {
            if i < k {
                assert(m.take(k)[i] == m[i]);
            } else if i > k {
                assert(m.skip(k + 1)[i - k - 1] == m[i]);
            }
        }
    }
}

proof fn lemma_word_chars(u: Seq<char>, w: Seq<char>)
    requires
        fold_seq(u) == w,
        forall|i: int| 0 <= i < w.len() ==> 0x61 <= (#[trigger] w[i] as u32) <= 0x7a,
    ensures
        forall|i: int| 0 <= i < u.len() ==> literal_char(#[trigger] u[i]),
{
    assert forall|i: int| 0 <= i < u.len() implies literal_char(#[trigger] u[i]) by {
        assert(fold_seq(u)[i] == fold(u[i]));
        assert(0x61 <= (w[i] as u32) <= 0x7a);
    }
}

/// Every character of a float literal is a literal character, and there is
/// at least one.
pub proof fn lemma_float_literal_chars(s: Seq<char>)
    requires
        is_float_literal(s),
    ensures
        s.len() > 0,
        forall|i: int| 0 <= i < s.len() ==> literal_char(#[trigger] s[i]),
{
    let u = unsigned_part(s);
    reveal_strlit("inf");
    reveal_strlit("infinity");
    reveal_strlit("nan");
    assert(fold_seq(u).len() == u.len());
    assert(s.len() >= u.len());
    if fold_seq(u) == "inf"@ {
        lemma_word_chars(u, "inf"@);
    } else if fold_seq(u) == "infinity"@ {
        lemma_word_chars(u, "infinity"@);
    } else if fold_seq(u) == "nan"@ {
        lemma_word_chars(u, "nan"@);
    } else if is_mantissa(u) {
        lemma_mantissa_chars(u);
    } else {
        let k = choose|k: int|
            0 <= k < u.len() && is_exp_mark(#[trigger] u[k]) && is_mantissa(u.take(k))
                && is_exponent(u.skip(k + 1));
        lemma_mantissa_chars(u.take(k));
        assert(u.len() > 0);
        let x = u.skip(k + 1);
        assert forall|i: int| 0 <= i < u.len() implies literal_char(#[trigger] u[i]) by {
            if i < k {
                assert(u.take(k)[i] == u[i]);
            } else if i > k {
                assert(x[i - k - 1] == u[i]);
                if x.len() > 0 && is_sign(x[0]) && i - k - 1 > 0 {
                    assert(unsigned_part(x)[i - k - 2] == x[i - k - 1]);
                } else if !(x.len() > 0 && is_sign(x[0])) {
                    assert(unsigned_part(x)[i - k - 1] == x[i - k - 1]);
                }
            }
        }
    }
    assert forall|i: int| 0 <= i < s.len() implies literal_char(#[trigger] s[i]) by {
        if s.len() > 0 && is_sign(s[0]) && i > 0 {
            assert(u[i - 1] == s[i]);
        } else if !(s.len() > 0 && is_sign(s[0])) {
            assert(u[i] == s[i]);
        }
    }
}

/// A float literal holds no whitespace and no field separator.
pub proof fn lemma_float_literal_plain(s: Seq<char>)
    requires
        is_float_literal(s),
    ensures
        s.len() > 0,
        free_of(s, FIELD_SEP),
        forall|i: int| 0 <= i < s.len() ==> !is_white(#[trigger] s[i]),
{
    lemma_float_literal_chars(s);
    assert forall|i: int| 0 <= i < s.len() implies #[trigger] s[i] != FIELD_SEP by {
        assert(literal_char(s[i]));
    }
    assert forall|i: int| 0 <= i < s.len() implies !is_white(#[trigger] s[i]) by {
        assert(literal_char(s[i]));
    }
}

/// Splitting at a separator that first occurs right after `a`.
pub proof fn lemma_split_step(a: Seq<char>, rest: Seq<char>, sep: char, n: nat)
    requires
        free_of(a, sep),
        n >= 2,
    ensures
        split_limited(a + seq![sep] + rest, sep, n) == seq![a] + split_limited(
            rest,
            sep,
            (n - 1) as nat,
        ),
{
    let s = a + seq![sep] + rest;
    assert forall|j: int| 0 <= j < a.len() implies #[trigger] s[j] != sep by {
        assert(s[j] == a[j]);
    }
    lemma_first_eq(s, sep, a.len() as int);
    assert(s.take(a.len() as int) =~= a);
    assert(s.skip(a.len() + 1int) =~= rest);
}

proof fn lemma_no_lead_ws(s: Seq<char>)
    requires
        s.len() > 0,
        !is_white(s[0]),
    ensures
        trim_start(s) == s,
{
    assert(s.skip(0) == s);
}

proof fn lemma_no_trail_ws(s: Seq<char>)
    requires
        s.len() > 0,
        !is_white(s.last()),
    ensures
        trim_end(s) == s,
{
    assert(s.take(s.len() as int) == s);
}

/// The fields of a `set` line, after the word `set`.
pub open spec fn set_fields(
    palette: Seq<char>,
    bezier: Seq<char>,
    mode: Seq<char>,
    anchor_x: Seq<char>,
    anchor_y: Seq<char>,
    path: Seq<char>,
) -> Seq<char> {
    palette + seq![FIELD_SEP] + bezier + seq![FIELD_SEP] + mode + seq![FIELD_SEP] + anchor_x
        + seq![FIELD_SEP] + anchor_y + seq![FIELD_SEP] + path
}

proof fn lemma_set_fields_split(
    palette: Seq<char>,
    bezier: Seq<char>,
    mode: Seq<char>,
    anchor_x: Seq<char>,
    anchor_y: Seq<char>,
    path: Seq<char>,
)
    requires
        free_of(palette, FIELD_SEP),
        free_of(bezier, FIELD_SEP),
        free_of(mode, FIELD_SEP),
        free_of(anchor_x, FIELD_SEP),
        free_of(anchor_y, FIELD_SEP),
    ensures
        split_limited(set_fields(palette, bezier, mode, anchor_x, anchor_y, path), FIELD_SEP, 6)
            == seq![palette, bezier, mode, anchor_x, anchor_y, path],
{
    let sep = seq![FIELD_SEP];
    let r4 = anchor_y + sep + path;
    let r3 = anchor_x + sep + r4;
    let r2 = mode + sep + r3;
    let r1 = bezier + sep + r2;
    assert(set_fields(palette, bezier, mode, anchor_x, anchor_y, path) =~= palette + sep + r1);
    lemma_split_step(palette, r1, FIELD_SEP, 6);
    lemma_split_step(bezier, r2, FIELD_SEP, 5);
    lemma_split_step(mode, r3, FIELD_SEP, 4);
    lemma_split_step(anchor_x, r4, FIELD_SEP, 3);
    lemma_split_step(anchor_y, path, FIELD_SEP, 2);
    assert(split_limited(path, FIELD_SEP, 1) == seq![path]);
    assert(split_limited(r4, FIELD_SEP, 2) =~= seq![anchor_y, path]);
    assert(split_limited(r3, FIELD_SEP, 3) =~= seq![anchor_x, anchor_y, path]);
    assert(split_limited(r2, FIELD_SEP, 4) =~= seq![mode, anchor_x, anchor_y, path]);
    assert(split_limited(r1, FIELD_SEP, 5) =~= seq![bezier, mode, anchor_x, anchor_y, path]);
}

proof fn lemma_set_line_shape(
    palette: Seq<char>,
    bezier: Seq<char>,
    mode: Seq<char>,
    anchor_x: Seq<char>,
    anchor_y: Seq<char>,
    path: Seq<char>,
)
    requires
        path.len() == 0 || !is_white(path.last()),
    ensures
        ({
            let line = set_line(palette, bezier, mode, anchor_x, anchor_y, path);
            &&& trim(line) == line
            &&& line != "stop"@
            &&& has_prefix(line, "set"@)
            &&& line.skip(3) == set_fields(palette, bezier, mode, anchor_x, anchor_y, path)
        }),
{
    reveal_strlit("set");
    reveal_strlit("stop");
    let line = set_line(palette, bezier, mode, anchor_x, anchor_y, path);
    let tail = set_fields(palette, bezier, mode, anchor_x, anchor_y, path);
    assert(line =~= "set"@ + tail);
    assert(line[0] == 's');
    lemma_no_lead_ws(line);
    if path.len() > 0 {
        assert(line.last() == path.last());
    } else {
        assert(line.last() == FIELD_SEP);
    }
    lemma_no_trail_ws(line);
    assert(line[1] != "stop"@[1]);
    assert(line.take(3) =~= "set"@);
    assert(line.skip(3) =~= tail);
}

/// What the client sends is what the daemon reads: the `set` line built
/// from a palette, a curve and a mode free of the separator, two float
/// literals and a path that does not end in whitespace parses back into
/// those fields.
pub proof fn lemma_set_line_roundtrip(
    palette: Seq<char>,
    bezier: Seq<char>,
    mode: Seq<char>,
    anchor_x: Seq<char>,
    anchor_y: Seq<char>,
    path: Seq<char>,
)
    requires
        free_of(palette, FIELD_SEP),
        free_of(bezier, FIELD_SEP),
        free_of(mode, FIELD_SEP),
        is_float_literal(anchor_x),
        is_float_literal(anchor_y),
        path.len() == 0 || !is_white(path.last()),
    ensures
        parse_command(set_line(palette, bezier, mode, anchor_x, anchor_y, path)) == Ok::<
            CommandView,
            Seq<char>,
        >(
            CommandView::SetWallpaper {
                palette: palette_mode_of(palette),
                bezier: bezier,
                scale: scaling_mode_of(mode),
                anchor_x: anchor_x,
                anchor_y: anchor_y,
                path: path,
            },
        ),
{
    lemma_float_literal_plain(anchor_x);
    lemma_float_literal_plain(anchor_y);
    lemma_set_line_shape(palette, bezier, mode, anchor_x, anchor_y, path);
    lemma_set_fields_split(palette, bezier, mode, anchor_x, anchor_y, path);
}

proof fn lemma_lower_word(w: Seq<char>)
    requires
        w.len() > 0,
        forall|i: int| 0 <= i < w.len() ==> 0x61 <= (#[trigger] w[i] as u32) <= 0x7a,
    ensures
        fold_seq(trim(w)) == w,
{
    assert(!is_white(w[0]));
    lemma_no_lead_ws(w);
    assert(!is_white(w.last()));
    lemma_no_trail_ws(w);
    assert(fold_seq(w) =~= w);
}

/// A scaling mode's name reads back as that mode.
pub proof fn lemma_scaling_name_roundtrip(m: ScalingMode)
    ensures
        scaling_mode_of(scaling_name(m)) == m,
{
    reveal_strlit("cover");
    reveal_strlit("fit");
    reveal_strlit("original");
    lemma_lower_word("cover"@);
    lemma_lower_word("fit"@);
    lemma_lower_word("original"@);
    assert("cover"@ != "fit"@);
    assert("cover"@ != "original"@);
    assert("fit"@ != "original"@);
}

/// A palette mode's name reads back as that mode.
pub proof fn lemma_palette_name_roundtrip(m: PaletteMode)
    ensures
        palette_mode_of(palette_name(m)) == m,
{
    reveal_strlit("auto");
    reveal_strlit("dark");
    reveal_strlit("light");
    reveal_strlit("skip");
    lemma_lower_word("auto"@);
    lemma_lower_word("dark"@);
    lemma_lower_word("light"@);
    lemma_lower_word("skip"@);
    assert("skip"@ != "auto"@);
    assert("skip"@ != "dark"@);
    assert("skip"@ != "light"@);
    assert("auto"@ != "dark"@);
    assert("auto"@ != "light"@);
    assert("dark"@ != "light"@);
}

} // verus!
