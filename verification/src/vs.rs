//! The variation-selector byte codec.
//!
//! Maps a byte onto one invisible Unicode variation selector and back. Byte
//! values `0x00..=0x0F` use the Variation Selectors block (`U+FE00..U+FE0F`);
//! the remaining `0x10..=0xFF` use Variation Selectors Supplement
//! (`U+E0100..U+E01EF`). The two ranges are contiguous in byte space, so the
//! mapping is a bijection over all 256 byte values.
//!
//! This module is the transport alphabet only. The framing lives in
//! [`crate::wrapper`], and the content binding in [`crate::hardbinding`].

use vstd::prelude::*;
use vstd::utf8::*;
use crate::text::{byte_offset, char_width, lemma_byte_offset_ends, lemma_byte_offset_step, lemma_utf8_between, string_from_chars, text_chars, utf8, utf8_width, char_from_u32};

verus! {

/// First code point of the Variation Selectors block, encoding byte `0x00`.
const VS_START: u32 = 0xFE00;
/// Last code point of the Variation Selectors block, encoding byte `0x0F`.
const VS_END: u32 = 0xFE0F;
/// First code point of Variation Selectors Supplement, encoding byte `0x10`.
const VS_SUP_START: u32 = 0xE0100;
/// Last code point of Variation Selectors Supplement, encoding byte `0xFF`.
const VS_SUP_END: u32 = 0xE01EF;

/// The code point carrying byte `b`.
pub open spec fn selector_code_point(b: u8) -> u32 {
    if b <= 0x0F {
        (0xFE00 + b) as u32
    } else {
        (0xE0100 + (b - 0x10)) as u32
    }
}

/// The variation selector carrying byte `b`.
pub open spec fn spec_byte_to_vs(b: u8) -> char {
    selector_code_point(b) as char
}

/// The byte carried by `c`, or `None` when `c` is not a selector of the alphabet.
pub open spec fn spec_vs_to_byte(c: char) -> Option<u8> {
    let cp = c as u32;
    if 0xFE00 <= cp <= 0xFE0F {
        Some((cp - 0xFE00) as u8)
    } else if 0xE0100 <= cp <= 0xE01EF {
        Some((cp - 0xE0100 + 0x10) as u8)
    } else {
        None
    }
}

pub open spec fn is_selector(c: char) -> bool {
    spec_vs_to_byte(c) is Some
}

/// The selector run carrying `bytes`, one selector per byte.
pub open spec fn vs_chars(bytes: Seq<u8>) -> Seq<char> {
    bytes.map_values(|b: u8| spec_byte_to_vs(b))
}

/// The bytes carried by a run of selectors.
pub open spec fn selector_bytes(cs: Seq<char>) -> Seq<u8> {
    cs.map_values(|c: char| spec_vs_to_byte(c).unwrap())
}

/// The end of the run of selectors that starts at position `i` of `t`.
pub open spec fn run_end(t: Seq<char>, i: int) -> int
    decreases t.len() - i,
{
    if 0 <= i < t.len() && is_selector(t[i]) {
        run_end(t, i + 1)
    } else {
        i
    }
}

/// Width in UTF-8 bytes of the selector carrying `b`: three in the first block, four in the Supplement.
pub open spec fn selector_width(b: u8) -> nat {
    if b <= 0x0F {
        3
    } else {
        4
    }
}

proof fn lemma_code_point_scalar(b: u8)
    ensures
        is_scalar(selector_code_point(b)),
        (selector_code_point(b) as char) as u32 == selector_code_point(b),
{
    let cp = selector_code_point(b);
    assert(has_width_3_encoding(cp) || has_width_4_encoding(cp));
}

/// Reading a selector back gives the byte it carries, so the codec loses nothing.
pub proof fn lemma_vs_round_trip(b: u8)
    ensures
        spec_vs_to_byte(spec_byte_to_vs(b)) == Some(b),
        is_selector(spec_byte_to_vs(b)),
        char_width(spec_byte_to_vs(b)) == selector_width(b),
{
    lemma_code_point_scalar(b);
}

/// The alphabet, code point by code point: byte `b <= 0x0F` travels as `U+FE00 + b`, and
/// byte `b >= 0x10` as `U+E0100 + (b - 0x10)`; a character reads back as byte `b` exactly
/// when it is that code point.
pub proof fn lemma_selector_code_points(b: u8, c: char)
    ensures
        spec_byte_to_vs(b) as u32 == (if b <= 0x0F { 0xFE00 + b } else { 0xE0100 + b - 0x10 }),
        spec_vs_to_byte(c) == Some(b) <==> c as u32 == (if b <= 0x0F { 0xFE00 + b } else {
            0xE0100 + b - 0x10
        }),
        spec_vs_to_byte(c) is None <==> !(0xFE00 <= c as u32 <= 0xFE0F || 0xE0100 <= c as u32
            <= 0xE01EF),
{
    lemma_code_point_scalar(b);
}

/// Every selector of the alphabet is the encoding of the byte it carries.
pub proof fn lemma_vs_inverse(c: char)
    requires
        is_selector(c),
    ensures
        spec_byte_to_vs(spec_vs_to_byte(c).unwrap()) == c,
{
    let b = spec_vs_to_byte(c).unwrap();
    lemma_code_point_scalar(b);
    char_u32_cast(c, c as u32);
}

/// Distinct bytes are carried by distinct selectors.
pub proof fn lemma_vs_injective(a: u8, b: u8)
    requires
        spec_byte_to_vs(a) == spec_byte_to_vs(b),
    ensures
        a == b,
{
    lemma_vs_round_trip(a);
    lemma_vs_round_trip(b);
}

/// Decoding a run of encoded selectors gives back its bytes.
pub proof fn lemma_vs_chars_round_trip(bytes: Seq<u8>)
    ensures
        selector_bytes(vs_chars(bytes)) == bytes,
        forall|k: int| 0 <= k < bytes.len() ==> #[trigger] is_selector(vs_chars(bytes)[k]),
{
    assert forall|k: int| 0 <= k < bytes.len() implies #[trigger] is_selector(vs_chars(bytes)[k])
        && selector_bytes(vs_chars(bytes))[k] == bytes[k] by {
        lemma_vs_round_trip(bytes[k]);
    }
    assert(selector_bytes(vs_chars(bytes)) =~= bytes);
}

/// A run of encoded selectors is read back whole: it ends where the encoding ends, carries
/// the bytes encoded, and occupies their selector widths.
pub proof fn lemma_run_of_encoded(bytes: Seq<u8>, rest: Seq<char>)
    requires
        rest.len() > 0 ==> !is_selector(rest[0]),
    ensures
        run_end(vs_chars(bytes) + rest, 0) == bytes.len(),
        selector_bytes((vs_chars(bytes) + rest).subrange(0, bytes.len() as int)) == bytes,
{
    lemma_vs_chars_round_trip(bytes);
    let t = vs_chars(bytes) + rest;
    assert(t.subrange(0, bytes.len() as int) =~= vs_chars(bytes));
    lemma_run_end_from(t, 0, bytes.len() as int);
}

pub proof fn lemma_run_end_from(t: Seq<char>, i: int, n: int)
    requires
        0 <= i <= n <= t.len(),
        forall|k: int| i <= k < n ==> #[trigger] is_selector(t[k]),
        n < t.len() ==> !is_selector(t[n]),
    ensures
        run_end(t, i) == n,
    decreases n - i,
{
    if i < n {
        lemma_run_end_from(t, i + 1, n);
    }
}

/// Map a byte to its variation selector.
pub fn byte_to_vs(b: u8) -> (c: char)
    ensures
        c == spec_byte_to_vs(b),
        spec_vs_to_byte(c) == Some(b),
{
    let cp: u32 = if b <= 0x0F {
        VS_START + b as u32
    } else {
        VS_SUP_START + (b as u32 - 0x10)
    };
    proof {
        lemma_code_point_scalar(b);
        lemma_vs_round_trip(b);
    }
    match char_from_u32(cp) {
        Some(c) => {
            proof {
                char_u32_cast(c, cp);
            }
            c
        },
        None => {
            proof {
                assert(false);
            }
            '\u{FE00}'
        },
    }
}

/// Map a variation selector back to its byte, or `None` if `c` is not one.
pub fn vs_to_byte(c: char) -> (r: Option<u8>)
    ensures
        r == spec_vs_to_byte(c),
{
    let cp = c as u32;
    if VS_START <= cp && cp <= VS_END {
        Some((cp - VS_START) as u8)
    } else if VS_SUP_START <= cp && cp <= VS_SUP_END {
        Some((cp - VS_SUP_START + 0x10) as u8)
    } else {
        None
    }
}

/// Whether `c` is a variation selector usable by this codec.
pub fn is_vs(c: char) -> (r: bool)
    ensures
        r == is_selector(c),
{
    vs_to_byte(c).is_some()
}

/// Encode `bytes` as a bare run of variation selectors, with no marker or frame.
pub fn encode_run(bytes: &[u8]) -> (s: String)
    ensures
        s@ == vs_chars(bytes@),
{
    let mut cs: Vec<char> = Vec::new();
    for i in 0..bytes.len()
        invariant
            cs@ == vs_chars(bytes@.subrange(0, i as int)),
    {
        cs.push(byte_to_vs(bytes[i]));
        assert(cs@ =~= vs_chars(bytes@.subrange(0, i + 1)));
    }
    assert(bytes@.subrange(0, bytes@.len() as int) =~= bytes@);
    string_from_chars(cs.as_slice())
}

/// Scan the selector run starting at character `i` of `cs`: its end, the bytes
/// it carries, and its width in UTF-8 bytes.
pub(crate) fn scan_run(cs: &Vec<char>, i: usize) -> (r: (Vec<u8>, usize, usize))
    requires
        i <= cs.len(),
        utf8(cs@).len() <= usize::MAX,
    ensures
        r.1 == run_end(cs@, i as int),
        i <= r.1 <= cs.len(),
        r.0@ == selector_bytes(cs@.subrange(i as int, r.1 as int)),
        r.2 == byte_offset(cs@, r.1 as int) - byte_offset(cs@, i as int),
        forall|k: int| i <= k < r.1 ==> #[trigger] is_selector(cs@[k]),
        r.1 < cs.len() ==> !is_selector(cs@[r.1 as int]),
{
    let mut j = i;
    let mut width: usize = 0;
    let mut out: Vec<u8> = Vec::new();
    proof {
        lemma_utf8_between(cs@, i as int, cs@.len() as int);
        lemma_byte_offset_ends(cs@);
    }
    while j < cs.len()
        invariant_except_break
            i <= j <= cs.len(),
            run_end(cs@, j as int) == run_end(cs@, i as int),
        invariant
            i <= j <= cs.len(),
            utf8(cs@).len() <= usize::MAX,
            out@ == selector_bytes(cs@.subrange(i as int, j as int)),
            width == byte_offset(cs@, j as int) - byte_offset(cs@, i as int),
            byte_offset(cs@, i as int) <= byte_offset(cs@, j as int) <= utf8(cs@).len(),
            forall|k: int| i <= k < j ==> #[trigger] is_selector(cs@[k]),
        ensures
            i <= j <= cs.len(),
            run_end(cs@, j as int) == run_end(cs@, i as int),
            j == run_end(cs@, j as int),
            j < cs.len() ==> !is_selector(cs@[j as int]),
        decreases cs.len() - j,
    {
        match vs_to_byte(cs[j]) {
            Some(b) => {
                proof {
                    lemma_byte_offset_step(cs@, j as int);
                    lemma_utf8_between(cs@, (j + 1) as int, cs@.len() as int);
                }
                out.push(b);
                width = width + utf8_width(cs[j]);
                j = j + 1;
                assert(out@ =~= selector_bytes(cs@.subrange(i as int, j as int)));
            },
            None => {
                break ;
            },
        }
    }
    (out, j, width)
}

/// Decode a leading run of variation selectors from `s`, stopping at the first
/// character that is not one. Returns the bytes and the byte offset in `s` where
/// the run ended.
pub fn decode_run(s: &str) -> (r: (Vec<u8>, usize))
    ensures
        ({
            let n = run_end(s@, 0);
            &&& r.0@ == selector_bytes(s@.subrange(0, n))
            &&& r.1 == byte_offset(s@, n)
            &&& forall|k: int| 0 <= k < n ==> #[trigger] is_selector(s@[k])
            &&& n < s@.len() ==> !is_selector(s@[n])
        }),
{
    let cs = text_chars(s);
    let len = s.as_bytes().len();
    assert(utf8(cs@).len() == len);
    let (out, end, width) = scan_run(&cs, 0);
    proof {
        lemma_byte_offset_ends(cs@);
    }
    (out, width)
}

} // verus!
