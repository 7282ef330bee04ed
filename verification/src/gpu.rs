//! The decisions taken while setting up and driving the GPU, on the plain
//! values the Vulkan driver reports: which device, queue family, memory
//! type and surface format to use, how large the swapchain is, how compute
//! work is split into groups, and how shader bytes become words.
use vstd::prelude::*;
use crate::text::{first_eq, lemma_first_eq, str_equal};

verus! {

// ------------------------------------------------------------------ devices and queues

/// The device to use among those reported, by their device types: the
/// first of the `discrete` type, else the first one.
pub open spec fn pick_device_spec(types: Seq<i32>, discrete: i32) -> int {
    if first_eq(types, discrete) < types.len() {
        first_eq(types, discrete) as int
    } else {
        0
    }
}

pub fn pick_device(types: &Vec<i32>, discrete: i32) -> (i: usize)
    requires
        types@.len() > 0,
    ensures
        i == pick_device_spec(types@, discrete),
        i < types@.len(),
{
    let mut k: usize = 0;
    while k < types.len() && types[k] != discrete
        invariant
            k <= types@.len(),
            forall|j: int| 0 <= j < k ==> #[trigger] types@[j] != discrete,
        decreases types@.len() - k,
    {
        k = k + 1;
    }
    proof {
        lemma_first_eq(types@, discrete, k as int);
    }
    if k < types.len() {
        k
    } else {
        0
    }
}

/// `flags` holds every bit of `required` (Vulkan's `contains`).
pub open spec fn has_flags(flags: u32, required: u32) -> bool {
    flags & required == required
}

/// The first queue family whose flags hold the graphics bit.
pub open spec fn first_with_flags(flags: Seq<u32>, required: u32) -> Option<int>
    decreases flags.len(),
{
    if flags.len() == 0 {
        None
    } else if has_flags(flags[0], required) {
        Some(0)
    } else {
        match first_with_flags(flags.drop_first(), required) {
            Some(i) => Some(i + 1),
            None => None,
        }
    }
}

proof fn lemma_first_with_flags(flags: Seq<u32>, required: u32, k: int)
    requires
        0 <= k <= flags.len(),
        forall|j: int| 0 <= j < k ==> !has_flags(#[trigger] flags[j], required),
    ensures
        k == flags.len() ==> first_with_flags(flags, required) is None,
        k < flags.len() && has_flags(flags[k], required) ==> first_with_flags(flags, required)
            == Some(k),
    decreases k,
{
    if k > 0 {
        let t = flags.drop_first();
        assert forall|j: int| 0 <= j < k - 1 implies !has_flags(#[trigger] t[j], required) by {
            assert(t[j] == flags[j + 1]);
        }
        if k - 1 < t.len() {
            assert(t[k - 1] == flags[k]);
        }
        lemma_first_with_flags(t, required, k - 1);
    }
}

/// The queue family to submit to: the first whose flags hold `required`.
pub fn queue_family(flags: &Vec<u32>, required: u32) -> (r: Option<usize>)
    ensures
        match r {
            Some(i) => first_with_flags(flags@, required) == Some(i as int),
            None => first_with_flags(flags@, required) is None,
        },
{
    let mut k: usize = 0;
    while k < flags.len()
        invariant
            k <= flags@.len(),
            forall|j: int| 0 <= j < k ==> !has_flags(#[trigger] flags@[j], required),
        decreases flags@.len() - k,
    {
        if flags[k] & required == required {
            proof {
                lemma_first_with_flags(flags@, required, k as int);
            }
            return Some(k);
        }
        k = k + 1;
    }
    proof {
        lemma_first_with_flags(flags@, required, k as int);
    }
    None
}

// ------------------------------------------------------------------ memory types

/// Memory type `i` is allowed by the resource's type bits and has every
/// required property.
pub open spec fn memory_type_fits(type_bits: u32, props: Seq<u32>, required: u32, i: int) -> bool {
    &&& 0 <= i < props.len()
    &&& i < 32
    &&& type_bits & (1u32 << (i as u32)) != 0
    &&& has_flags(props[i], required)
}

/// The memory type to allocate from: the first that fits.
pub fn memory_type(type_bits: u32, props: &Vec<u32>, required: u32) -> (r: Option<u32>)
    requires
        props@.len() <= 32,
    ensures
        match r {
            Some(i) => memory_type_fits(type_bits, props@, required, i as int) && forall|j: int|
                0 <= j < i ==> !memory_type_fits(type_bits, props@, required, j),
            None => forall|j: int|
                0 <= j < props@.len() ==> !memory_type_fits(type_bits, props@, required, j),
        },
{
    let mut i: usize = 0;
    while i < props.len()
        invariant
            props@.len() <= 32,
            i <= props@.len(),
            forall|j: int| 0 <= j < i ==> !memory_type_fits(type_bits, props@, required, j),
        decreases props@.len() - i,
    {
        let bit: u32 = 1u32 << (i as u32);
        if type_bits & bit != 0 && props[i] & required == required {
            return Some(i as u32);
        }
        i = i + 1;
    }
    None
}

// ------------------------------------------------------------------ the surface

/// The surface format to use among those reported, as (format, color
/// space): the wanted one if offered, else the first.
pub fn pick_surface_format(formats: &Vec<(i32, i32)>, wanted: (i32, i32)) -> (i: usize)
    requires
        formats@.len() > 0,
    ensures
        i == format_choice(formats@, wanted),
        i < formats@.len(),
{
    let mut k: usize = 0;
    while k < formats.len() && !(formats[k].0 == wanted.0 && formats[k].1 == wanted.1)
        invariant
            k <= formats@.len(),
            forall|j: int| 0 <= j < k ==> #[trigger] formats@[j] != wanted,
        decreases formats@.len() - k,
    {
        k = k + 1;
    }
    proof {
        lemma_first_eq(formats@, wanted, k as int);
    }
    if k < formats.len() {
        k
    } else {
        0
    }
}

/// The first position of `wanted`, else 0.
pub open spec fn format_choice(formats: Seq<(i32, i32)>, wanted: (i32, i32)) -> int {
    if first_eq(formats, wanted) < formats.len() {
        first_eq(formats, wanted) as int
    } else {
        0
    }
}

pub open spec fn clamp_spec(v: u32, lo: u32, hi: u32) -> u32 {
    if v < lo {
        lo
    } else if v > hi {
        hi
    } else {
        v
    }
}

/// `u32::clamp`.
pub fn clamp_u32(v: u32, lo: u32, hi: u32) -> (r: u32)
    requires
        lo <= hi,
    ensures
        r == clamp_spec(v, lo, hi),
{
    if v < lo {
        lo
    } else if v > hi {
        hi
    } else {
        v
    }
}

/// The swapchain's size: the surface's current extent, unless its width is
/// the "undefined" marker `u32::MAX`, in which case the layer's size clamped
/// to the supported range.
pub open spec fn extent_spec(current: (u32, u32), min: (u32, u32), max: (u32, u32), wanted: (u32, u32)) -> (u32, u32) {
    if current.0 != u32::MAX {
        current
    } else {
        (clamp_spec(wanted.0, min.0, max.0), clamp_spec(wanted.1, min.1, max.1))
    }
}

pub fn swapchain_extent(current: (u32, u32), min: (u32, u32), max: (u32, u32), wanted: (u32, u32)) -> (e: (u32, u32))
    requires
        current.0 == u32::MAX ==> min.0 <= max.0 && min.1 <= max.1,
    ensures
        e == extent_spec(current, min, max, wanted),
{
    if current.0 != u32::MAX {
        current
    } else {
        (clamp_u32(wanted.0, min.0, max.0), clamp_u32(wanted.1, min.1, max.1))
    }
}

/// The number of swapchain images asked for: at least two.
pub fn swapchain_image_count(min_supported: u32) -> (n: u32)
    ensures
        n == if min_supported > 2 {
            min_supported
        } else {
            2
        },
{
    if min_supported > 2 {
        min_supported
    } else {
        2
    }
}

// ------------------------------------------------------------------ compute dispatch

/// The scaling mode's number in the transition shader: cover 0, fit 1,
/// original 2, anything else 0.
pub open spec fn mode_number(mode: Seq<char>) -> i32 {
    if mode == "fit"@ {
        1
    } else if mode == "original"@ {
        2
    } else {
        0
    }
}

pub fn mode_id(mode: &str) -> (n: i32)
    ensures
        n == mode_number(mode@),
{
    if str_equal(mode, "fit") {
        1
    } else if str_equal(mode, "original") {
        2
    } else {
        0
    }
}

/// Work groups of 16 needed to cover `size` pixels.
pub fn workgroups(size: u32) -> (n: u32)
    requires
        size <= u32::MAX - 15,
    ensures
        n == (size + 15) / 16,
        n * 16 >= size,
        n * 16 < size + 16,
{
    (size + 15) / 16
}

// ------------------------------------------------------------------ filters

/// The compute filters that can be built.
#[derive(Debug, Clone, Copy, PartialEq, Eq, Structural)]
pub enum FilterKind {
    Blur,
}

/// The filter named `name`, or the error `unknown filter: <name>`.
pub fn filter_kind(name: &str) -> (r: Result<FilterKind, String>)
    ensures
        match r {
            Ok(k) => name@ == "blur"@ && k == FilterKind::Blur,
            Err(e) => name@ != "blur"@ && e@ == "unknown filter: "@ + name@,
        },
{
    if str_equal(name, "blur") {
        Ok(FilterKind::Blur)
    } else {
        let mut msg = crate::text::chars_of("unknown filter: ");
        crate::text::push_str_chars(&mut msg, name);
        Err(crate::text::string_from_chars(msg.as_slice()))
    }
}

// ------------------------------------------------------------------ shader words

/// The little-endian value of four bytes.
pub open spec fn le_word(b: Seq<u8>) -> u32 {
    (b[0] as int + b[1] as int * 0x100 + b[2] as int * 0x1_0000 + b[3] as int * 0x100_0000) as u32
}

/// The big-endian value of four bytes.
pub open spec fn be_word(b: Seq<u8>) -> u32 {
    (b[3] as int + b[2] as int * 0x100 + b[1] as int * 0x1_0000 + b[0] as int * 0x100_0000) as u32
}

/// Trusted: calls std's `u32::from_ne_bytes`, whose documentation says it
/// reads the bytes in the machine's byte order.  Which order that is depends
/// on the machine, so the contract only says it is one of the two.
#[verifier::external_body]
fn word_from_ne(b: [u8; 4]) -> (w: u32)
    ensures
        w == le_word(b@) || w == be_word(b@),
{
    u32::from_ne_bytes(b)
}

/// The chunk of four bytes at word position `i`.
pub open spec fn chunk(bytes: Seq<u8>, i: int) -> Seq<u8> {
    bytes.subrange(4 * i, 4 * i + 4)
}

/// Assembles four bytes, least significant first.
fn le_value(b0: u8, b1: u8, b2: u8, b3: u8) -> (w: u32)
    ensures
        w == le_word(seq![b0, b1, b2, b3]),
{
    let w = b0 as u32 + (b1 as u32) * 0x100 + (b2 as u32) * 0x1_0000 + (b3 as u32) * 0x100_0000;
    let ghost v: int = b0 as int + b1 as int * 0x100 + b2 as int * 0x1_0000 + b3 as int * 0x100_0000;
    assert(w == v);
    assert(v as u32 == v);
    w
}

/// The word at position `i`, read little-endian or big-endian.
pub open spec fn word_in_order(bytes: Seq<u8>, i: int, little: bool) -> u32 {
    if little {
        le_word(chunk(bytes, i))
    } else {
        be_word(chunk(bytes, i))
    }
}

/// Bytes as 32-bit words, each read little-endian when `little` and
/// big-endian otherwise; trailing bytes that do not fill a word are dropped.
pub fn words_in_order(bytes: &[u8], little: bool) -> (words: Vec<u32>)
    ensures
        words@.len() == bytes@.len() / 4,
        forall|i: int| 0 <= i < words@.len() ==> #[trigger] words@[i] == word_in_order(bytes@, i, little),
{
    let n = bytes.len() / 4;
    let mut words: Vec<u32> = Vec::new();
    let mut i: usize = 0;
    while i < n
        invariant
            n == bytes@.len() / 4,
            i <= n,
            words@.len() == i,
            forall|j: int| 0 <= j < i ==> #[trigger] words@[j] == word_in_order(bytes@, j, little),
        decreases n - i,
    {
        assert(4 * i + 4 <= bytes@.len()) by (nonlinear_arith)
            requires
                i < n,
                n == bytes@.len() / 4,
        ;
        assert(4 * i + 4 <= bytes.len());
        let o = 4 * i;
        let ghost c = chunk(bytes@, i as int);
        assert(c =~= seq![bytes@[o as int], bytes@[o + 1], bytes@[o + 2], bytes@[o + 3]]);
        let w = if little {
            le_value(bytes[o], bytes[o + 1], bytes[o + 2], bytes[o + 3])
        } else {
            le_value(bytes[o + 3], bytes[o + 2], bytes[o + 1], bytes[o])
        };
        proof {
            if !little {
                assert(be_word(c) == le_word(seq![bytes@[o + 3], bytes@[o + 2], bytes@[o + 1], bytes@[o as int]]));
            }
        }
        words.push(w);
        i = i + 1;
    }
    words
}

/// SPIR-V bytes as 32-bit words in the machine's byte order.  The order is
/// learnt once, by reading the probe `[1, 0, 0, 0]` with `u32::from_ne_bytes`
/// (it reads as 1 on a little-endian machine), and `words_in_order` reads
/// every word in it.  Which order that is depends on the machine, so the
/// contract says that all words are read in one of the two.
pub fn spv_words(bytes: &[u8]) -> (words: Vec<u32>)
    ensures
        words@.len() == bytes@.len() / 4,
        (forall|i: int| 0 <= i < words@.len() ==> #[trigger] words@[i] == word_in_order(bytes@, i, true))
            || (forall|i: int| 0 <= i < words@.len() ==> #[trigger] words@[i] == word_in_order(bytes@, i, false)),
{
    let probe = word_from_ne([1u8, 0u8, 0u8, 0u8]);
    words_in_order(bytes, probe == 1)
}

} // verus!
