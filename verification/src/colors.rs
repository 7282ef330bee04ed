//! The integer side of palette generation: packing and unpacking `0xAARRGGBB`
//! colors, their `#RRGGBB` names, the table of palette roles with their
//! tones, the choice between the dark and the light palette, and the
//! bookkeeping of the k-means clustering (seeding and cluster sizes).
use vstd::prelude::*;
use vstd::wrapping::u32_specs;
use crate::text::string_from_chars;

verus! {

// ------------------------------------------------------------------ packing

/// The opaque color with the given channels.
pub open spec fn argb_of(r: u8, g: u8, b: u8) -> u32 {
    (0xFF00_0000 + (r as int) * 0x1_0000 + (g as int) * 0x100 + (b as int)) as u32
}

/// Builds the opaque color `0xFFRRGGBB`.
pub fn rgb_to_argb(r: u8, g: u8, b: u8) -> (c: u32)
    ensures
        c == argb_of(r, g, b),
{
    let c = 0xFF00_0000u32 | ((r as u32) << 16u32) | ((g as u32) << 8u32) | (b as u32);
    assert(c == 0xFF00_0000u32 + (r as u32) * 0x1_0000u32 + (g as u32) * 0x100u32 + (b as u32))
        by (bit_vector)
        requires
            c == 0xFF00_0000u32 | ((r as u32) << 16u32) | ((g as u32) << 8u32) | (b as u32),
    ;
    c
}

/// The red, green and blue channels of `0xAARRGGBB`.
pub open spec fn channels_of(c: u32) -> (u8, u8, u8) {
    (((c / 0x1_0000) % 0x100) as u8, ((c / 0x100) % 0x100) as u8, (c % 0x100) as u8)
}

pub fn argb_channels(c: u32) -> (rgb: (u8, u8, u8))
    ensures
        rgb == channels_of(c),
{
    let r = (c >> 16u32) & 0xFF;
    let g = (c >> 8u32) & 0xFF;
    let b = c & 0xFF;
    assert(r == (c / 0x1_0000) % 0x100 && g == (c / 0x100) % 0x100 && b == c % 0x100) by (bit_vector)
        requires
            r == (c >> 16u32) & 0xFF,
            g == (c >> 8u32) & 0xFF,
            b == c & 0xFF,
    ;
    (r as u8, g as u8, b as u8)
}

/// Unpacking a packed color gives back its channels.
pub proof fn lemma_channels_roundtrip(r: u8, g: u8, b: u8)
    ensures
        channels_of(argb_of(r, g, b)) == (r, g, b),
{
    let c = argb_of(r, g, b);
    assert(c == 0xFF00_0000 + (r as int) * 0x1_0000 + (g as int) * 0x100 + (b as int));
    assert((c / 0x1_0000) % 0x100 == r) by (nonlinear_arith)
        requires
            c == 0xFF00_0000 + (r as int) * 0x1_0000 + (g as int) * 0x100 + (b as int),
            r < 256,
            g < 256,
            b < 256,
    ;
    assert((c / 0x100) % 0x100 == g) by (nonlinear_arith)
        requires
            c == 0xFF00_0000 + (r as int) * 0x1_0000 + (g as int) * 0x100 + (b as int),
            r < 256,
            g < 256,
            b < 256,
    ;
    assert(c % 0x100 == b) by (nonlinear_arith)
        requires
            c == 0xFF00_0000 + (r as int) * 0x1_0000 + (g as int) * 0x100 + (b as int),
            b < 256,
    ;
}

// ------------------------------------------------------------------ hex names

/// The upper-case hexadecimal digit for `d < 16`.
pub open spec fn hex_digit(d: int) -> char {
    if d < 10 {
        ((48 + d) as u8) as char
    } else {
        ((55 + d) as u8) as char
    }
}

/// `#RRGGBB`: the low 24 bits of `c` as six upper-case hex digits.
pub open spec fn hex_name(c: u32) -> Seq<char> {
    let v = (c as int) % 0x100_0000;
    seq![
        '#',
        hex_digit((v / 0x10_0000) % 16),
        hex_digit((v / 0x1_0000) % 16),
        hex_digit((v / 0x1000) % 16),
        hex_digit((v / 0x100) % 16),
        hex_digit((v / 0x10) % 16),
        hex_digit(v % 16),
    ]
}

fn hex_char(d: u32) -> (c: char)
    requires
        d < 16,
    ensures
        c == hex_digit(d as int),
{
    if d < 10 {
        ((48 + d) as u8) as char
    } else {
        ((55 + d) as u8) as char
    }
}

/// The value of an upper-case hexadecimal digit, or -1 for any other
/// character.
pub open spec fn hex_value(ch: char) -> int {
    let u = ch as u32;
    if 48 <= u && u <= 57 {
        u - 48
    } else if 65 <= u && u <= 70 {
        u - 55
    } else {
        -1
    }
}

proof fn lemma_hex_digit_value(d: int)
    requires
        0 <= d < 16,
    ensures
        hex_value(hex_digit(d)) == d,
{
    let ch = hex_digit(d);
    if d < 10 {
        assert((((48 + d) as u8) as char) as u32 == 48 + d);
    } else {
        assert((((55 + d) as u8) as char) as u32 == 55 + d);
    }
}

/// A color's name is `#` and six upper-case hexadecimal digits that, read
/// back most significant first, give the color without its alpha.
pub proof fn lemma_hex_name_reads_back(c: u32)
    ensures
        ({
            let n = hex_name(c);
            &&& n.len() == 7
            &&& n[0] == '#'
            &&& forall|i: int| 1 <= i < 7 ==> 0 <= #[trigger] hex_value(n[i]) < 16
            &&& hex_value(n[1]) * 0x10_0000 + hex_value(n[2]) * 0x1_0000 + hex_value(n[3]) * 0x1000
                + hex_value(n[4]) * 0x100 + hex_value(n[5]) * 0x10 + hex_value(n[6]) == (c as int)
                % 0x100_0000
        }),
{
    let v = (c as int) % 0x100_0000;
    let d5 = (v / 0x10_0000) % 16;
    let d4 = (v / 0x1_0000) % 16;
    let d3 = (v / 0x1000) % 16;
    let d2 = (v / 0x100) % 16;
    let d1 = (v / 0x10) % 16;
    let d0 = v % 16;
    lemma_hex_digit_value(d5);
    lemma_hex_digit_value(d4);
    lemma_hex_digit_value(d3);
    lemma_hex_digit_value(d2);
    lemma_hex_digit_value(d1);
    lemma_hex_digit_value(d0);
    lemma_hex_step(v);
    lemma_hex_step(v / 0x10);
    lemma_hex_step(v / 0x100);
    lemma_hex_step(v / 0x1000);
    lemma_hex_step(v / 0x1_0000);
    vstd::arithmetic::div_mod::lemma_div_denominator(v, 0x10, 16);
    vstd::arithmetic::div_mod::lemma_div_denominator(v, 0x100, 16);
    vstd::arithmetic::div_mod::lemma_div_denominator(v, 0x1000, 16);
    vstd::arithmetic::div_mod::lemma_div_denominator(v, 0x1_0000, 16);
    assert(v / 0x10_0000 < 16) by (nonlinear_arith)
        requires
            0 <= v < 0x100_0000,
    ;
    vstd::arithmetic::div_mod::lemma_small_mod((v / 0x10_0000) as nat, 16);
}

/// `x` is sixteen times `x / 16` plus its last hexadecimal digit.
proof fn lemma_hex_step(x: int)
    requires
        0 <= x,
    ensures
        x == 16 * (x / 16) + x % 16,
        0 <= x / 16,
{
    vstd::arithmetic::div_mod::lemma_fundamental_div_mod(x, 16);
}

/// Names a color as `#RRGGBB`, ignoring its alpha.
pub fn hex_color(c: u32) -> (s: String)
    ensures
        s@ == hex_name(c),
{
    let v = c % 0x100_0000;
    let mut out: Vec<char> = Vec::new();
    out.push('#');
    out.push(hex_char((v / 0x10_0000) % 16));
    out.push(hex_char((v / 0x1_0000) % 16));
    out.push(hex_char((v / 0x1000) % 16));
    out.push(hex_char((v / 0x100) % 16));
    out.push(hex_char((v / 0x10) % 16));
    out.push(hex_char(v % 16));
    assert(out@ =~= hex_name(c));
    string_from_chars(out.as_slice())
}

// ------------------------------------------------------------------ palette roles

/// Where a role takes its hue from.
#[derive(Debug, Clone, Copy, PartialEq, Eq, Structural)]
pub enum HueSource {
    /// The hue of the dominant color.
    Source,
    /// The dominant hue turned by 60 degrees.
    Tertiary,
    /// The fixed hue of errors, 25 degrees.
    Error,
}

/// Which chroma a role has.
#[derive(Debug, Clone, Copy, PartialEq, Eq, Structural)]
pub enum ChromaLevel {
    /// The dominant color's chroma, at least 48.
    Primary,
    /// 16.
    Secondary,
    /// 24.
    Tertiary,
    /// 84.
    Error,
    /// 4.
    Neutral,
    /// 8.
    NeutralVariant,
}

/// One entry of the Material palette: its group and name, where its hue and
/// chroma come from, and its tone in the dark and in the light palette.
#[derive(Clone, Copy)]
pub struct PaletteRole {
    pub group: &'static str,
    pub name: &'static str,
    pub hue: HueSource,
    pub chroma: ChromaLevel,
    pub dark_tone: u8,
    pub light_tone: u8,
}

/// The number of roles in the palette.
pub const ROLE_COUNT: usize = 28;

/// The role table: (group, name, hue, chroma, dark tone, light tone).
pub open spec fn role_spec(i: int) -> (Seq<char>, Seq<char>, HueSource, ChromaLevel, u8, u8) {
    if i == 0 {
        ("Primary"@, "Primary"@, HueSource::Source, ChromaLevel::Primary, 80, 40)
    } else if i == 1 {
        ("Primary"@, "On Primary"@, HueSource::Source, ChromaLevel::Primary, 20, 100)
    } else if i == 2 {
        ("Primary"@, "Primary Container"@, HueSource::Source, ChromaLevel::Primary, 30, 90)
    } else if i == 3 {
        ("Primary"@, "On Primary Container"@, HueSource::Source, ChromaLevel::Primary, 90, 10)
    } else if i == 4 {
        ("Secondary"@, "Secondary"@, HueSource::Source, ChromaLevel::Secondary, 80, 40)
    } else if i == 5 {
        ("Secondary"@, "On Secondary"@, HueSource::Source, ChromaLevel::Secondary, 20, 100)
    } else if i == 6 {
        ("Secondary"@, "Secondary Container"@, HueSource::Source, ChromaLevel::Secondary, 30, 90)
    } else if i == 7 {
        ("Secondary"@, "On Secondary Container"@, HueSource::Source, ChromaLevel::Secondary, 90, 10)
    } else if i == 8 {
        ("Tertiary"@, "Tertiary"@, HueSource::Tertiary, ChromaLevel::Tertiary, 80, 40)
    } else if i == 9 {
        ("Tertiary"@, "On Tertiary"@, HueSource::Tertiary, ChromaLevel::Tertiary, 20, 100)
    } else if i == 10 {
        ("Tertiary"@, "Tertiary Container"@, HueSource::Tertiary, ChromaLevel::Tertiary, 30, 90)
    } else if i == 11 {
        ("Tertiary"@, "On Tertiary Container"@, HueSource::Tertiary, ChromaLevel::Tertiary, 90, 10)
    } else if i == 12 {
        ("Error"@, "Error"@, HueSource::Error, ChromaLevel::Error, 80, 40)
    } else if i == 13 {
        ("Error"@, "On Error"@, HueSource::Error, ChromaLevel::Error, 20, 100)
    } else if i == 14 {
        ("Error"@, "Error Container"@, HueSource::Error, ChromaLevel::Error, 30, 90)
    } else if i == 15 {
        ("Error"@, "On Error Container"@, HueSource::Error, ChromaLevel::Error, 90, 10)
    } else if i == 16 {
        ("Surface"@, "Background"@, HueSource::Source, ChromaLevel::Neutral, 6, 98)
    } else if i == 17 {
        ("Surface"@, "On Background"@, HueSource::Source, ChromaLevel::Neutral, 90, 10)
    } else if i == 18 {
        ("Surface"@, "Surface"@, HueSource::Source, ChromaLevel::Neutral, 6, 98)
    } else if i == 19 {
        ("Surface"@, "On Surface"@, HueSource::Source, ChromaLevel::Neutral, 90, 10)
    } else if i == 20 {
        ("Surface"@, "Surface Variant"@, HueSource::Source, ChromaLevel::NeutralVariant, 30, 90)
    } else if i == 21 {
        ("Surface"@, "On Surface Variant"@, HueSource::Source, ChromaLevel::NeutralVariant, 80, 30)
    } else if i == 22 {
        ("Surface"@, "Outline"@, HueSource::Source, ChromaLevel::NeutralVariant, 60, 50)
    } else if i == 23 {
        ("Surface"@, "Outline Variant"@, HueSource::Source, ChromaLevel::NeutralVariant, 30, 80)
    } else if i == 24 {
        ("Surface"@, "Shadow"@, HueSource::Source, ChromaLevel::Neutral, 0, 0)
    } else if i == 25 {
        ("Surface"@, "Inverse Surface"@, HueSource::Source, ChromaLevel::Neutral, 90, 20)
    } else if i == 26 {
        ("Surface"@, "Inverse On Surface"@, HueSource::Source, ChromaLevel::Neutral, 20, 95)
    } else {
        ("Surface"@, "Inverse Primary"@, HueSource::Source, ChromaLevel::Primary, 80, 40)
    }
}

impl PaletteRole {
    pub open spec fn matches(self, t: (Seq<char>, Seq<char>, HueSource, ChromaLevel, u8, u8)) -> bool {
        &&& self.group@ == t.0
        &&& self.name@ == t.1
        &&& self.hue == t.2
        &&& self.chroma == t.3
        &&& self.dark_tone == t.4
        &&& self.light_tone == t.5
    }

    /// The tone of this role in the dark or the light palette.
    pub fn tone(&self, dark: bool) -> (t: u8)
        ensures
            t == (if dark {
                self.dark_tone
            } else {
                self.light_tone
            }),
    {
        if dark {
            self.dark_tone
        } else {
            self.light_tone
        }
    }
}

fn role(
    group: &'static str,
    name: &'static str,
    hue: HueSource,
    chroma: ChromaLevel,
    dark_tone: u8,
    light_tone: u8,
) -> (r: PaletteRole)
    ensures
        r.matches((group@, name@, hue, chroma, dark_tone, light_tone)),
{
    PaletteRole { group, name, hue, chroma, dark_tone, light_tone }
}

/// The roles of the generated palette, in the order they are shown and
/// substituted.
pub fn palette_roles() -> (roles: Vec<PaletteRole>)
    ensures
        roles@.len() == ROLE_COUNT,
        forall|i: int| 0 <= i < ROLE_COUNT ==> #[trigger] roles@[i].matches(role_spec(i)),
{
    let roles = vec![
        role("Primary", "Primary", HueSource::Source, ChromaLevel::Primary, 80, 40),
        role("Primary", "On Primary", HueSource::Source, ChromaLevel::Primary, 20, 100),
        role("Primary", "Primary Container", HueSource::Source, ChromaLevel::Primary, 30, 90),
        role("Primary", "On Primary Container", HueSource::Source, ChromaLevel::Primary, 90, 10),
        role("Secondary", "Secondary", HueSource::Source, ChromaLevel::Secondary, 80, 40),
        role("Secondary", "On Secondary", HueSource::Source, ChromaLevel::Secondary, 20, 100),
        role("Secondary", "Secondary Container", HueSource::Source, ChromaLevel::Secondary, 30, 90),
        role("Secondary", "On Secondary Container", HueSource::Source, ChromaLevel::Secondary, 90, 10),
        role("Tertiary", "Tertiary", HueSource::Tertiary, ChromaLevel::Tertiary, 80, 40),
        role("Tertiary", "On Tertiary", HueSource::Tertiary, ChromaLevel::Tertiary, 20, 100),
        role("Tertiary", "Tertiary Container", HueSource::Tertiary, ChromaLevel::Tertiary, 30, 90),
        role("Tertiary", "On Tertiary Container", HueSource::Tertiary, ChromaLevel::Tertiary, 90, 10),
        role("Error", "Error", HueSource::Error, ChromaLevel::Error, 80, 40),
        role("Error", "On Error", HueSource::Error, ChromaLevel::Error, 20, 100),
        role("Error", "Error Container", HueSource::Error, ChromaLevel::Error, 30, 90),
        role("Error", "On Error Container", HueSource::Error, ChromaLevel::Error, 90, 10),
        role("Surface", "Background", HueSource::Source, ChromaLevel::Neutral, 6, 98),
        role("Surface", "On Background", HueSource::Source, ChromaLevel::Neutral, 90, 10),
        role("Surface", "Surface", HueSource::Source, ChromaLevel::Neutral, 6, 98),
        role("Surface", "On Surface", HueSource::Source, ChromaLevel::Neutral, 90, 10),
        role("Surface", "Surface Variant", HueSource::Source, ChromaLevel::NeutralVariant, 30, 90),
        role("Surface", "On Surface Variant", HueSource::Source, ChromaLevel::NeutralVariant, 80, 30),
        role("Surface", "Outline", HueSource::Source, ChromaLevel::NeutralVariant, 60, 50),
        role("Surface", "Outline Variant", HueSource::Source, ChromaLevel::NeutralVariant, 30, 80),
        role("Surface", "Shadow", HueSource::Source, ChromaLevel::Neutral, 0, 0),
        role("Surface", "Inverse Surface", HueSource::Source, ChromaLevel::Neutral, 90, 20),
        role("Surface", "Inverse On Surface", HueSource::Source, ChromaLevel::Neutral, 20, 95),
        role("Surface", "Inverse Primary", HueSource::Source, ChromaLevel::Primary, 80, 40),
    ];
    roles
}

/// The pairs of a role and the role drawn on it: `X` and `On X`, and the
/// inverse surface with the text on it.
pub open spec fn role_pairs() -> Seq<(int, int)> {
    seq![(0, 1), (2, 3), (4, 5), (6, 7), (8, 9), (10, 11), (12, 13), (14, 15), (16, 17), (18, 19), (20, 21), (25, 26)]
}

/// The distance between two tones.
pub open spec fn tone_gap(a: u8, b: u8) -> int {
    if a >= b {
        a - b
    } else {
        b - a
    }
}

/// What the pairing of a role with the role drawn on it promises.
pub open spec fn readable_pair(k: int) -> bool {
        let base = role_spec(role_pairs()[k].0);
        let on = role_spec(role_pairs()[k].1);
        &&& 0 <= role_pairs()[k].0 < ROLE_COUNT
        &&& 0 <= role_pairs()[k].1 < ROLE_COUNT
        &&& on.0 == base.0
        &&& (on.1 == "On "@ + base.1 || (base.1 == "Inverse Surface"@ && on.1 == "Inverse On Surface"@))
        &&& tone_gap(base.4, on.4) >= 50
        &&& tone_gap(base.5, on.5) >= 50
    }

/// Text stays readable on what it is drawn on: for each role and the role
/// drawn on it (`X` and `On X`, in the same group), the tones differ by at
/// least 50 in the dark palette and in the light one.  Every tone is at most
/// 100.
pub proof fn lemma_role_contrast()
    ensures
        forall|k: int| 0 <= k < role_pairs().len() ==> #[trigger] readable_pair(k),
        forall|i: int| 0 <= i < ROLE_COUNT ==> #[trigger] role_spec(i).4 <= 100 && role_spec(i).5 <= 100,
{
    reveal_strlit("Primary");
    reveal_strlit("On Primary");
    reveal_strlit("Primary Container");
    reveal_strlit("On Primary Container");
    reveal_strlit("Secondary");
    reveal_strlit("On Secondary");
    reveal_strlit("Secondary Container");
    reveal_strlit("On Secondary Container");
    reveal_strlit("Tertiary");
    reveal_strlit("On Tertiary");
    reveal_strlit("Tertiary Container");
    reveal_strlit("On Tertiary Container");
    reveal_strlit("Error");
    reveal_strlit("On Error");
    reveal_strlit("Error Container");
    reveal_strlit("On Error Container");
    reveal_strlit("Background");
    reveal_strlit("On Background");
    reveal_strlit("Surface");
    reveal_strlit("On Surface");
    reveal_strlit("Surface Variant");
    reveal_strlit("On Surface Variant");
    reveal_strlit("Inverse Surface");
    reveal_strlit("Inverse On Surface");
    reveal_strlit("On ");
    assert forall|k: int| 0 <= k < role_pairs().len() implies #[trigger] readable_pair(k) by {
        if k == 0 {
            assert("On Primary"@ =~= "On "@ + "Primary"@);
        }
        if k == 1 {
            assert("On Primary Container"@ =~= "On "@ + "Primary Container"@);
        }
        if k == 2 {
            assert("On Secondary"@ =~= "On "@ + "Secondary"@);
        }
        if k == 3 {
            assert("On Secondary Container"@ =~= "On "@ + "Secondary Container"@);
        }
        if k == 4 {
            assert("On Tertiary"@ =~= "On "@ + "Tertiary"@);
        }
        if k == 5 {
            assert("On Tertiary Container"@ =~= "On "@ + "Tertiary Container"@);
        }
        if k == 6 {
            assert("On Error"@ =~= "On "@ + "Error"@);
        }
        if k == 7 {
            assert("On Error Container"@ =~= "On "@ + "Error Container"@);
        }
        if k == 8 {
            assert("On Background"@ =~= "On "@ + "Background"@);
        }
        if k == 9 {
            assert("On Surface"@ =~= "On "@ + "Surface"@);
        }
        if k == 10 {
            assert("On Surface Variant"@ =~= "On "@ + "Surface Variant"@);
        }
    }
}

// ------------------------------------------------------------------ dark or light

/// Which palette is generated: `dark` or `light` as asked, otherwise the
/// one that suits the image (dark for a dark image).
pub open spec fn resolved_palette(requested: Seq<char>, image_is_dark: bool) -> Seq<char> {
    if requested == "dark"@ {
        "dark"@
    } else if requested == "light"@ {
        "light"@
    } else if image_is_dark {
        "dark"@
    } else {
        "light"@
    }
}

pub fn resolve_palette(requested: &str, image_is_dark: bool) -> (p: &'static str)
    ensures
        p@ == resolved_palette(requested@, image_is_dark),
{
    if crate::text::str_equal(requested, "dark") {
        "dark"
    } else if crate::text::str_equal(requested, "light") {
        "light"
    } else if image_is_dark {
        "dark"
    } else {
        "light"
    }
}

// ------------------------------------------------------------------ k-means bookkeeping

/// One step of the seeding generator.
pub open spec fn lcg_next(x: u32) -> u32 {
    u32_specs::wrapping_add(u32_specs::wrapping_mul(x, 1664525), 1013904223)
}

/// The generator's state after `i` steps from 42.
pub open spec fn lcg_state(i: nat) -> u32
    decreases i,
{
    if i == 0 {
        42
    } else {
        lcg_next(lcg_state((i - 1) as nat))
    }
}

/// The pixels chosen as the `k` initial centroids among `n`: pixel
/// `lcg_state(j + 1) mod n` for centroid `j`.
pub fn seed_indices(n: usize, k: usize) -> (idx: Vec<usize>)
    requires
        n > 0,
    ensures
        idx@.len() == k,
        forall|j: int| 0 <= j < k ==> #[trigger] idx@[j] == (lcg_state((j + 1) as nat) as int) % (n as int),
        forall|j: int| 0 <= j < k ==> #[trigger] idx@[j] < n,
{
    let mut lcg: u32 = 42;
    let mut idx: Vec<usize> = Vec::new();
    let mut j: usize = 0;
    while j < k
        invariant
            n > 0,
            j <= k,
            idx@.len() == j,
            lcg == lcg_state(j as nat),
            forall|i: int| 0 <= i < j ==> #[trigger] idx@[i] == (lcg_state((i + 1) as nat) as int) % (n as int),
            forall|i: int| 0 <= i < j ==> #[trigger] idx@[i] < n,
        decreases k - j,
    {
        lcg = lcg.wrapping_mul(1664525).wrapping_add(1013904223);
        let i = (lcg as usize) % n;
        idx.push(i);
        j = j + 1;
    }
    idx
}

/// How many entries of `s` equal `c`.
pub open spec fn count_of(s: Seq<usize>, c: usize) -> nat
    decreases s.len(),
{
    if s.len() == 0 {
        0
    } else {
        count_of(s.drop_last(), c) + if s.last() == c {
            1nat
        } else {
            0nat
        }
    }
}

proof fn lemma_count_bound(s: Seq<usize>, c: usize)
    ensures
        count_of(s, c) <= s.len(),
    decreases s.len(),
{
    if s.len() > 0 {
        lemma_count_bound(s.drop_last(), c);
    }
}

/// The size of each of the `k` clusters, given each pixel's cluster.
pub fn cluster_sizes(assignments: &Vec<usize>, k: usize) -> (sizes: Vec<u32>)
    requires
        forall|i: int| 0 <= i < assignments@.len() ==> #[trigger] assignments@[i] < k,
        assignments@.len() <= u32::MAX,
    ensures
        sizes@.len() == k,
        forall|c: int| 0 <= c < k ==> #[trigger] sizes@[c] == count_of(assignments@, c as usize),
{
    let mut sizes: Vec<u32> = Vec::new();
    let mut c: usize = 0;
    while c < k
        invariant
            c <= k,
            sizes@.len() == c,
            forall|x: int| 0 <= x < c ==> #[trigger] sizes@[x] == 0,
        decreases k - c,
    {
        sizes.push(0);
        c = c + 1;
    }
    let mut i: usize = 0;
    while i < assignments.len()
        invariant
            i <= assignments@.len(),
            assignments@.len() <= u32::MAX,
            sizes@.len() == k,
            forall|x: int| 0 <= x < assignments@.len() ==> #[trigger] assignments@[x] < k,
            forall|x: int| 0 <= x < k ==> #[trigger] sizes@[x] == count_of(assignments@.take(i as int), x as usize),
        decreases assignments@.len() - i,
    {
        let a = assignments[i];
        proof {
            assert(assignments@.take(i + 1).drop_last() =~= assignments@.take(i as int));
            lemma_count_bound(assignments@.take(i as int), a);
        }
        let v = sizes[a];
        sizes.set(a, v + 1);
        i = i + 1;
        assert forall|x: int| 0 <= x < k implies #[trigger] sizes@[x] == count_of(assignments@.take(i as int), x as usize) by {
            assert(assignments@.take(i as int).last() == a);
        }
    }
    assert(assignments@.take(assignments@.len() as int) =~= assignments@);
    sizes
}

} // verus!
