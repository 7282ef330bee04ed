//! The client's command line: which subcommand was asked for, which
//! wallpaper, how far to cycle, and the options that change the remembered
//! state.
use vstd::prelude::*;
use crate::text::{chars_of, has_prefix, str_equal, str_starts_with};
use crate::literal::{is_float_literal, parse_i32, parse_i32_spec, parse_u8, parse_u8_spec};
use crate::state::{CachedState, CachedStateView, default_bezier, lemma_half_is_literal};

verus! {

/// The texts of the arguments.
pub open spec fn texts(args: Seq<String>) -> Seq<Seq<char>> {
    Seq::new(args.len(), |i: int| args[i]@)
}

/// The position of the first argument spelled `long` or `short`, or the
/// number of arguments when there is none.
pub open spec fn flag_index(a: Seq<Seq<char>>, long: Seq<char>, short: Seq<char>) -> nat
    decreases a.len(),
{
    if a.len() == 0 {
        0
    } else if a[0] == long || a[0] == short {
        0
    } else {
        1 + flag_index(a.drop_first(), long, short)
    }
}

proof fn lemma_flag_index(a: Seq<Seq<char>>, long: Seq<char>, short: Seq<char>, k: int)
    requires
        0 <= k <= a.len(),
        forall|j: int| 0 <= j < k ==> #[trigger] a[j] != long && a[j] != short,
        k == a.len() || a[k] == long || a[k] == short,
    ensures
        flag_index(a, long, short) == k,
    decreases k,
{
    if k > 0 {
        let t = a.drop_first();
        assert forall|j: int| 0 <= j < k - 1 implies #[trigger] t[j] != long && t[j] != short by {
            assert(t[j] == a[j + 1]);
        }
        if k - 1 < t.len() {
            assert(t[k - 1] == a[k]);
        }
        lemma_flag_index(t, long, short, k - 1);
    }
}

/// Finds a flag among the arguments.
pub fn find_flag(args: &[String], long: &str, short: &str) -> (k: usize)
    ensures
        k == flag_index(texts(args@), long@, short@),
        k <= args@.len(),
{
    let ghost a = texts(args@);
    let mut k: usize = 0;
    while k < args.len()
        invariant
            a == texts(args@),
            k <= args@.len(),
            forall|j: int| 0 <= j < k ==> #[trigger] a[j] != long@ && a[j] != short@,
        decreases args@.len() - k,
    {
        if str_equal(args[k].as_str(), long) || str_equal(args[k].as_str(), short) {
            proof {
                lemma_flag_index(a, long@, short@, k as int);
            }
            return k;
        }
        k = k + 1;
    }
    proof {
        lemma_flag_index(a, long@, short@, k as int);
    }
    k
}

/// The argument after position `p`, if there is one.
pub open spec fn value_after(a: Seq<Seq<char>>, p: nat) -> Option<Seq<char>> {
    if p + 1 < a.len() {
        Some(a[p + 1int])
    } else {
        None
    }
}

// ------------------------------------------------------------------ subcommands

/// What the client was asked to do.
#[derive(Debug, Clone, Copy, PartialEq, Eq, Structural)]
pub enum Subcommand {
    Start,
    SetWallpaper,
    Stop,
    Status,
    Usage,
}

pub open spec fn subcommand_of(a: Seq<Seq<char>>) -> Subcommand {
    if a.len() < 2 {
        Subcommand::Usage
    } else if a[1] == "start"@ {
        Subcommand::Start
    } else if a[1] == "set"@ {
        Subcommand::SetWallpaper
    } else if a[1] == "stop"@ {
        Subcommand::Stop
    } else if a[1] == "status"@ {
        Subcommand::Status
    } else {
        Subcommand::Usage
    }
}

/// The subcommand named by the first argument after the program.
pub fn subcommand(args: &[String]) -> (s: Subcommand)
    ensures
        s == subcommand_of(texts(args@)),
{
    if args.len() < 2 {
        return Subcommand::Usage;
    }
    let a = args[1].as_str();
    if str_equal(a, "start") {
        Subcommand::Start
    } else if str_equal(a, "set") {
        Subcommand::SetWallpaper
    } else if str_equal(a, "stop") {
        Subcommand::Stop
    } else if str_equal(a, "status") {
        Subcommand::Status
    } else {
        Subcommand::Usage
    }
}

/// Whether the client waits for the daemon's one-byte reply after sending
/// `cmd`: it does for `set` commands.
pub fn awaits_reply(cmd: &str) -> (r: bool)
    ensures
        r == has_prefix(cmd@, "set"@),
{
    str_starts_with(cmd, "set")
}

// ------------------------------------------------------------------ the wallpaper argument

/// The last bare argument from position `i` on, where an argument that
/// starts with `-` makes the next one its value.
pub open spec fn last_bare(a: Seq<Seq<char>>, i: int, skip: bool, found: Option<Seq<char>>) -> Option<Seq<char>>
    decreases a.len() - i,
{
    if i >= a.len() {
        found
    } else if skip {
        last_bare(a, i + 1, false, found)
    } else if a[i].len() > 0 && a[i][0] == '-' {
        last_bare(a, i + 1, true, found)
    } else {
        last_bare(a, i + 1, false, Some(a[i]))
    }
}

/// The wallpaper asked for: the value of `--wall`/`-w`, or else the last
/// bare argument after the subcommand.
pub open spec fn wall_argument_of(a: Seq<Seq<char>>) -> Option<Seq<char>> {
    let p = flag_index(a, "--wall"@, "-w"@);
    if p + 1 < a.len() {
        Some(a[p + 1int])
    } else {
        last_bare(a, 2, false, None)
    }
}

pub fn wall_argument(args: &[String]) -> (r: Option<String>)
    ensures
        match r {
            Some(w) => wall_argument_of(texts(args@)) == Some(w@),
            None => wall_argument_of(texts(args@)) is None,
        },
{
    let ghost a = texts(args@);
    let p = find_flag(args, "--wall", "-w");
    if p < args.len() && p + 1 < args.len() {
        return Some(args[p + 1].clone());
    }
    let mut i: usize = 2;
    let mut skip = false;
    let mut found: Option<usize> = None;
    while i < args.len()
        invariant
            a == texts(args@),
            2 <= i,
            found matches Some(f) ==> f < args@.len(),
            last_bare(a, 2, false, None) == last_bare(
                a,
                i as int,
                skip,
                match found {
                    Some(f) => Some(a[f as int]),
                    None => None,
                },
            ),
        decreases args@.len() - i,
    {
        if skip {
            skip = false;
        } else {
            let c = chars_of(args[i].as_str());
            if c.len() > 0 && c[0] == '-' {
                skip = true;
            } else {
                found = Some(i);
            }
        }
        i = i + 1;
    }
    match found {
        Some(f) => Some(args[f].clone()),
        None => None,
    }
}

// ------------------------------------------------------------------ cycling

/// How far to cycle through the wallpaper's folder: the value of
/// `--cycle`/`-c` read as an `i32`, else 0.
pub open spec fn cycle_argument_of(a: Seq<Seq<char>>) -> i32 {
    match value_after(a, flag_index(a, "--cycle"@, "-c"@)) {
        Some(v) => match parse_i32_spec(v) {
            Some(n) => n,
            None => 0,
        },
        None => 0,
    }
}

pub fn cycle_argument(args: &[String]) -> (r: i32)
    ensures
        r == cycle_argument_of(texts(args@)),
{
    let p = find_flag(args, "--cycle", "-c");
    if p < args.len() && p + 1 < args.len() {
        match parse_i32(args[p + 1].as_str()) {
            Some(n) => n,
            None => 0,
        }
    } else {
        0
    }
}

// ------------------------------------------------------------------ the wallpaper to set

/// What `set` does with the wallpaper it has so far (asked for, or
/// remembered) and the number of steps to cycle.
#[derive(Debug, Clone, Copy, PartialEq, Eq, Structural)]
pub enum WallCheck {
    /// Cycling was asked for but no wallpaper is remembered: an error.
    NoCachedWallpaper,
    /// Cycle through the wallpaper's folder, then check the result again
    /// with no further cycling.
    CycleFrom,
    /// No wallpaper was asked for or remembered: an error, with the usage.
    MissingWallpaper,
    /// Set this wallpaper.
    Ready,
}

pub open spec fn wall_check_of(wall: Seq<char>, cycle: i32) -> WallCheck {
    if cycle != 0 {
        if wall.len() == 0 {
            WallCheck::NoCachedWallpaper
        } else {
            WallCheck::CycleFrom
        }
    } else if wall.len() == 0 {
        WallCheck::MissingWallpaper
    } else {
        WallCheck::Ready
    }
}

/// Decides what happens next with the wallpaper `wall` and `cycle` steps.
pub fn wall_check(wall: &str, cycle: i32) -> (r: WallCheck)
    ensures
        r == wall_check_of(wall@, cycle),
{
    let empty = chars_of(wall).len() == 0;
    if cycle != 0 {
        if empty {
            WallCheck::NoCachedWallpaper
        } else {
            WallCheck::CycleFrom
        }
    } else if empty {
        WallCheck::MissingWallpaper
    } else {
        WallCheck::Ready
    }
}

// ------------------------------------------------------------------ options

/// The anchor text for a position in thirds: 0, 0.5 or 1.
pub open spec fn anchor_text(h: int) -> Seq<char> {
    if h == 0 {
        "0"@
    } else if h == 1 {
        "0.5"@
    } else {
        "1"@
    }
}

/// The anchor point numbered 1 (top left) to 9 (bottom right), row by row.
pub open spec fn anchor_point(n: int) -> (Seq<char>, Seq<char>) {
    (anchor_text((n - 1) % 3), anchor_text((n - 1) / 3))
}

/// The options of `set` applied to the remembered state: `--palette`
/// (auto, dark or light, else skip), `--bezier` (any text, else the
/// default curve), `--mode` (cover, fit or original, else cover) and
/// `--anchor` (1 to 9, else the centre).  An option that is not given leaves
/// its field as it was.
pub open spec fn options_applied(a: Seq<Seq<char>>, s: CachedStateView) -> CachedStateView {
    let pp = flag_index(a, "--palette"@, "-p"@);
    let bp = flag_index(a, "--bezier"@, "-b"@);
    let mp = flag_index(a, "--mode"@, "-m"@);
    let ap = flag_index(a, "--anchor"@, "-a"@);
    let palette = if pp < a.len() {
        match value_after(a, pp) {
            Some(v) => if v == "auto"@ || v == "dark"@ || v == "light"@ {
                v
            } else {
                "skip"@
            },
            None => "skip"@,
        }
    } else {
        s.palette
    };
    let bezier = if bp < a.len() {
        match value_after(a, bp) {
            Some(v) => v,
            None => default_bezier(),
        }
    } else {
        s.bezier
    };
    let mode = if mp < a.len() {
        match value_after(a, mp) {
            Some(v) => if v == "cover"@ || v == "fit"@ || v == "original"@ {
                v
            } else {
                "cover"@
            },
            None => "cover"@,
        }
    } else {
        s.mode
    };
    let anchor = if ap < a.len() {
        match value_after(a, ap) {
            Some(v) => match parse_u8_spec(v) {
                Some(n) => if 1 <= n <= 9 {
                    anchor_point(n as int)
                } else {
                    ("0.5"@, "0.5"@)
                },
                None => ("0.5"@, "0.5"@),
            },
            None => ("0.5"@, "0.5"@),
        }
    } else {
        (s.anchor_x, s.anchor_y)
    };
    CachedStateView {
        wall: s.wall,
        palette: palette,
        bezier: bezier,
        mode: mode,
        anchor_x: anchor.0,
        anchor_y: anchor.1,
    }
}

/// `--palette`/`-p` followed by `auto`, `dark` or `light` selects that
/// palette; followed by anything else, or by nothing, it selects `skip`; and
/// without the flag the remembered palette stays.  Likewise `--mode`/`-m`
/// followed by `cover`, `fit` or `original` selects that mode, anything else
/// or nothing selects `cover`, and without the flag the mode stays.
pub proof fn lemma_palette_and_mode_options(a: Seq<Seq<char>>, s: CachedStateView)
    ensures
        ({
            let r = options_applied(a, s);
            let pp = flag_index(a, "--palette"@, "-p"@) as int;
            let mp = flag_index(a, "--mode"@, "-m"@) as int;
            &&& pp >= a.len() ==> r.palette == s.palette
            &&& pp + 1 < a.len() && (a[pp + 1] == "auto"@ || a[pp + 1] == "dark"@ || a[pp + 1] == "light"@)
                ==> r.palette == a[pp + 1]
            &&& pp < a.len() && !(pp + 1 < a.len() && (a[pp + 1] == "auto"@ || a[pp + 1] == "dark"@
                || a[pp + 1] == "light"@)) ==> r.palette == "skip"@
            &&& mp >= a.len() ==> r.mode == s.mode
            &&& mp + 1 < a.len() && (a[mp + 1] == "cover"@ || a[mp + 1] == "fit"@ || a[mp + 1] == "original"@)
                ==> r.mode == a[mp + 1]
            &&& mp < a.len() && !(mp + 1 < a.len() && (a[mp + 1] == "cover"@ || a[mp + 1] == "fit"@
                || a[mp + 1] == "original"@)) ==> r.mode == "cover"@
            &&& r.wall == s.wall
        }),
{
}

/// `0` and `1` are float literals.
proof fn lemma_whole_literals()
    ensures
        is_float_literal("0"@),
        is_float_literal("1"@),
{
    reveal_strlit("0");
    reveal_strlit("1");
    assert(crate::literal::unsigned_part("0"@) == "0"@);
    assert(crate::literal::all_digits("0"@));
    assert(crate::literal::is_mantissa("0"@));
    assert(crate::literal::unsigned_part("1"@) == "1"@);
    assert(crate::literal::all_digits("1"@));
    assert(crate::literal::is_mantissa("1"@));
}

fn anchor_text_exec(h: u8) -> (r: String)
    requires
        h <= 2,
    ensures
        r@ == anchor_text(h as int),
        is_float_literal(r@),
{
    proof {
        lemma_whole_literals();
        lemma_half_is_literal();
    }
    if h == 0 {
        crate::ipc::owned("0")
    } else if h == 1 {
        crate::ipc::owned("0.5")
    } else {
        crate::ipc::owned("1")
    }
}

fn one_of(v: &str, a: &str, b: &str, c: &str) -> (r: bool)
    ensures
        r == (v@ == a@ || v@ == b@ || v@ == c@),
{
    str_equal(v, a) || str_equal(v, b) || str_equal(v, c)
}

/// Applies the options of `set` to the remembered state.
pub fn apply_options(args: &[String], state: &mut CachedState)
    requires
        old(state)@.wf(),
    ensures
        final(state)@ == options_applied(texts(args@), old(state)@),
        final(state)@.wf(),
{
    let ghost a = texts(args@);
    let pp = find_flag(args, "--palette", "-p");
    if pp < args.len() {
        if pp + 1 < args.len() && one_of(args[pp + 1].as_str(), "auto", "dark", "light") {
            state.palette = crate::ipc::owned(args[pp + 1].as_str());
        } else {
            state.palette = crate::ipc::owned("skip");
        }
    }
    let bp = find_flag(args, "--bezier", "-b");
    if bp < args.len() {
        if bp + 1 < args.len() {
            state.bezier = crate::ipc::owned(args[bp + 1].as_str());
        } else {
            state.bezier = crate::ipc::owned("0.64,0.56,0.17,0.84");
        }
    }
    let mp = find_flag(args, "--mode", "-m");
    if mp < args.len() {
        if mp + 1 < args.len() && one_of(args[mp + 1].as_str(), "cover", "fit", "original") {
            state.mode = crate::ipc::owned(args[mp + 1].as_str());
        } else {
            state.mode = crate::ipc::owned("cover");
        }
    }
    let ap = find_flag(args, "--anchor", "-a");
    if ap < args.len() {
        let code = if ap + 1 < args.len() {
            parse_u8(args[ap + 1].as_str())
        } else {
            None
        };
        match code {
            Some(n) if 1 <= n && n <= 9 => {
                state.anchor_x = anchor_text_exec((n - 1) % 3);
                state.anchor_y = anchor_text_exec((n - 1) / 3);
            },
            _ => {
                state.anchor_x = anchor_text_exec(1);
                state.anchor_y = anchor_text_exec(1);
            },
        }
    }
}

} // verus!
