//! The `C2PATextManifestWrapper` frame.
//!
//! A wrapper is a `U+FEFF` marker followed by the variation-selector encoding of
//! `magic(8) + version(1) + big-endian length(4) + payload + optional padding`.
//! The marker is part of the wrapper for content binding, so the byte range this
//! module reports covers the marker together with the selector run.
//!
//! Text is modelled as its character sequence `text@`; every offset and length
//! is counted in the UTF-8 bytes of the text as stored (see [`crate::text`]).

use vstd::prelude::*;
use vstd::utf8::is_char_boundary;
use crate::error::Error;
use crate::text::{
    byte_offset, lemma_byte_offset_ends, lemma_byte_offset_step, lemma_utf8_between,
    lemma_utf8_concat, lemma_utf8_single, string_from_chars, text_chars,
    utf8, utf8_width,
};
use crate::vs::{
    byte_to_vs, is_selector, lemma_run_end_from, lemma_vs_chars_round_trip, lemma_vs_inverse, lemma_vs_round_trip, run_end, scan_run,
    selector_bytes, selector_width, spec_byte_to_vs, vs_chars, vs_to_byte,
};

pub mod v2;

verus! {

broadcast use vstd::string::group_string_axioms;

/// Wrapper identifier, `"C2PATXT\0"`.
pub const MAGIC: [u8; 8] = [0x43, 0x32, 0x50, 0x41, 0x54, 0x58, 0x54, 0x00];

/// Frame version of the specified wrapper.
pub const VERSION: u8 = 1;

/// Zero-Width No-Break Space marking the start of a wrapper.
pub const MARKER: char = '\u{FEFF}';

/// `magic(8) + version(1) + length(4)`.
pub const HEADER_LEN: usize = 13;

/// Frame version of the checksummed wrapper: the version 1 frame followed by a truncated
/// hash over it (see [`v2`]). Not part of the specified frame.
pub const VERSION_V2: u8 = 2;

/// Number of digest bytes kept as the checksum of a version 2 frame.
pub const CHECKSUM_LEN: usize = 4;

/// The magic bytes, `"C2PATXT\0"`.
pub open spec fn magic() -> Seq<u8> {
    seq![0x43u8, 0x32u8, 0x50u8, 0x41u8, 0x54u8, 0x58u8, 0x54u8, 0x00u8]
}

/// Big-endian bytes of a 32-bit length.
pub open spec fn be32(n: nat) -> Seq<u8> {
    seq![
        ((n / 0x1000000) % 0x100) as u8,
        ((n / 0x10000) % 0x100) as u8,
        ((n / 0x100) % 0x100) as u8,
        (n % 0x100) as u8,
    ]
}

/// The frame around a payload: magic, `version`, big-endian length, payload, padding.
pub open spec fn framed_with(version: u8, payload: Seq<u8>, padding: Seq<u8>) -> Seq<u8> {
    magic() + seq![version] + be32(payload.len()) + payload + padding
}

/// The specified (version 1) frame.
pub open spec fn framed(payload: Seq<u8>, padding: Seq<u8>) -> Seq<u8> {
    framed_with(VERSION, payload, padding)
}

/// A frame as it travels in text: the marker, then one selector per byte.
pub open spec fn carried(frame: Seq<u8>) -> Seq<char> {
    seq![MARKER] + vs_chars(frame)
}

/// The UTF-8 length of the selector run carrying `bytes`.
pub open spec fn run_width(bytes: Seq<u8>) -> nat
    decreases bytes.len(),
{
    if bytes.len() == 0 {
        0
    } else {
        run_width(bytes.drop_last()) + selector_width(bytes.last())
    }
}

/// The length declared in a frame header.
pub open spec fn declared_len(run: Seq<u8>) -> nat {
    run[9] as nat * 0x1000000 + run[10] as nat * 0x10000 + run[11] as nat * 0x100 + run[12] as nat
}

/// Whether a run opens with the magic.
pub open spec fn has_magic(run: Seq<u8>) -> bool {
    run.len() >= 8 && run.subrange(0, 8) == magic()
}

/// Whether a run holds a full header whose magic matches.
pub open spec fn has_header(run: Seq<u8>) -> bool {
    run.len() >= 13 && has_magic(run)
}

/// The payload of a specified frame, or `None` when the run does not decode: wrong magic,
/// wrong version, or a declared length longer than the run. Trailing bytes are padding.
pub open spec fn spec_decode_frame(run: Seq<u8>) -> Option<Seq<u8>> {
    if has_header(run) && run[8] == VERSION && 13 + declared_len(run) <= run.len() {
        Some(run.subrange(13, 13 + declared_len(run) as int))
    } else {
        None
    }
}

/// A marker-prefixed selector run found in a text: the bytes it carries, and the byte
/// range from the marker through the end of the run.
pub struct Run {
    pub bytes: Seq<u8>,
    pub start: nat,
    pub length: nat,
}

/// The abstract content of a located wrapper.
pub struct WrapperView {
    pub payload: Seq<u8>,
    pub version: u8,
    pub start: nat,
    pub length: nat,
}

pub proof fn lemma_run_end_bounds(t: Seq<char>, i: int)
    requires
        0 <= i <= t.len(),
    ensures
        i <= run_end(t, i) <= t.len(),
    decreases t.len() - i,
{
    if i < t.len() && is_selector(t[i]) {
        lemma_run_end_bounds(t, i + 1);
    }
}

/// Every marker-prefixed selector run of `t` from position `from` on, in order. Scanning
/// resumes after each run, so a marker inside a run is not scanned again.
pub open spec fn runs_from(t: Seq<char>, from: int) -> Seq<Run>
    decreases t.len() - from,
{
    if from < 0 || from >= t.len() {
        seq![]
    } else if t[from] == MARKER {
        let e = run_end(t, from + 1);
        proof {
            lemma_run_end_bounds(t, from + 1);
        }
        seq![
            Run {
                bytes: selector_bytes(t.subrange(from + 1, e)),
                start: byte_offset(t, from),
                length: (byte_offset(t, e) - byte_offset(t, from)) as nat,
            },
        ] + runs_from(t, e)
    } else {
        runs_from(t, from + 1)
    }
}

/// Every marker-prefixed selector run of `t`.
pub open spec fn runs(t: Seq<char>) -> Seq<Run> {
    runs_from(t, 0)
}

/// The runs that decode as a wrapper of the given frame decoder, in order.
pub open spec fn decoded_runs(rs: Seq<Run>) -> Seq<WrapperView>
    decreases rs.len(),
{
    if rs.len() == 0 {
        seq![]
    } else {
        let rest = decoded_runs(rs.drop_last());
        let r = rs.last();
        match spec_decode_frame(r.bytes) {
            Some(p) => rest.push(WrapperView { payload: p, version: VERSION, start: r.start, length: r.length }),
            None => rest,
        }
    }
}

/// Every valid wrapper of `t`, in order of appearance.
pub open spec fn spec_locate_all(t: Seq<char>) -> Seq<WrapperView> {
    decoded_runs(runs(t))
}

/// Whether some run of `t` bears the magic, whether or not it decodes.
pub open spec fn spec_has_candidate(t: Seq<char>) -> bool {
    exists|i: int| 0 <= i < runs(t).len() && #[trigger] has_magic(runs(t)[i].bytes)
}

/// The outcome of locating the single wrapper of `t`.
pub open spec fn spec_extract(t: Seq<char>) -> Result<WrapperView, Error> {
    let found = spec_locate_all(t);
    if found.len() == 1 {
        Ok(found[0])
    } else if found.len() == 0 {
        if spec_has_candidate(t) {
            Err(Error::CorruptedWrapper)
        } else {
            Err(Error::NotFound)
        }
    } else {
        Err(Error::MultipleWrappers)
    }
}

/// The deterministic target UTF-8 length of a wrapper for a manifest of `m` bytes.
pub open spec fn spec_target_length(m: nat) -> nat {
    3 + (13 + m) * 4 + 6
}

/// The padding whose selectors total exactly `gap` UTF-8 bytes: `(gap - 4b) / 3` bytes of
/// `0x00` then `b = gap mod 3` bytes of `0x10`; `None` when `gap < 4b`.
pub open spec fn spec_padding(gap: nat) -> Option<Seq<u8>> {
    let b = gap % 3;
    if gap < 4 * b {
        None
    } else {
        let a = ((gap - 4 * b) / 3) as nat;
        Some(Seq::new(a, |i: int| 0x00u8) + Seq::new(b, |i: int| 0x10u8))
    }
}

/// The padding that brings the unpadded wrapper of `payload` to the target length.
pub open spec fn padding_for(payload: Seq<u8>) -> Seq<u8> {
    let gap = spec_target_length(payload.len()) - (3 + run_width(framed(payload, seq![])));
    spec_padding(gap as nat).unwrap()
}

/// A located wrapper and the byte range it occupies in the host text.
#[derive(Debug, Clone, PartialEq, Eq)]
pub struct Wrapper {
    /// The Manifest Store bytes, excluding any trailing padding.
    pub payload: Vec<u8>,
    /// The frame version that decoded.
    pub version: u8,
    /// Byte offset of the `U+FEFF` marker in the host text as stored.
    pub start: usize,
    /// Byte length from the marker through the end of the selector run,
    /// including any trailing padding.
    pub length: usize,
}

impl View for Wrapper {
    type V = WrapperView;

    open spec fn view(&self) -> WrapperView {
        WrapperView {
            payload: self.payload@,
            version: self.version,
            start: self.start as nat,
            length: self.length as nat,
        }
    }
}

impl Wrapper {
    /// The half-open byte range `start..start + length`.
    pub fn range(&self) -> (r: core::ops::Range<usize>)
        requires
            self.start + self.length <= usize::MAX,
        ensures
            r.start == self.start,
            r.end == self.start + self.length,
    {
        self.start..self.start + self.length
    }
}

/* ---------------------------------------------------------------- lemmas */

pub proof fn lemma_magic()
    ensures
        MAGIC@ == magic(),
{
    assert(MAGIC@ =~= magic());
}

pub proof fn lemma_run_width_concat(a: Seq<u8>, b: Seq<u8>)
    ensures
        run_width(a + b) == run_width(a) + run_width(b),
    decreases b.len(),
{
    if b.len() == 0 {
        assert(a + b =~= a);
    } else {
        assert((a + b).drop_last() =~= a + b.drop_last());
        assert((a + b).last() == b.last());
        lemma_run_width_concat(a, b.drop_last());
    }
}

pub proof fn lemma_run_width_bound(a: Seq<u8>)
    ensures
        3 * a.len() <= run_width(a) <= 4 * a.len(),
    decreases a.len(),
{
    if a.len() > 0 {
        lemma_run_width_bound(a.drop_last());
    }
}

/// The selector run carrying `bytes` occupies `run_width(bytes)` UTF-8 bytes.
pub proof fn lemma_vs_chars_width(bytes: Seq<u8>)
    ensures
        utf8(vs_chars(bytes)).len() == run_width(bytes),
    decreases bytes.len(),
{
    if bytes.len() > 0 {
        let init = bytes.drop_last();
        lemma_vs_chars_width(init);
        assert(vs_chars(bytes) =~= vs_chars(init) + seq![spec_byte_to_vs(bytes.last())]);
        lemma_utf8_concat(vs_chars(init), seq![spec_byte_to_vs(bytes.last())]);
        lemma_utf8_single(spec_byte_to_vs(bytes.last()));
        lemma_vs_round_trip(bytes.last());
    } else {
        assert(vs_chars(bytes) =~= Seq::<char>::empty());
    }
}

/// A carried frame occupies three bytes of marker plus the width of its selector run.
pub proof fn lemma_carried_width(frame: Seq<u8>)
    ensures
        utf8(carried(frame)).len() == 3 + run_width(frame),
{
    lemma_utf8_concat(seq![MARKER], vs_chars(frame));
    lemma_utf8_single(MARKER);
    lemma_vs_chars_width(frame);
}

pub proof fn lemma_be32(n: nat)
    requires
        n <= u32::MAX,
    ensures
        declared_len(magic() + seq![VERSION] + be32(n)) == n,
        be32(n).len() == 4,
{
    let s = magic() + seq![VERSION] + be32(n);
    assert(s[9] == ((n / 0x1000000) % 0x100) as u8);
    assert(s[10] == ((n / 0x10000) % 0x100) as u8);
    assert(s[11] == ((n / 0x100) % 0x100) as u8);
    assert(s[12] == (n % 0x100) as u8);
    assert(((n / 0x1000000) % 0x100) * 0x1000000 + ((n / 0x10000) % 0x100) * 0x10000 + ((n / 0x100)
        % 0x100) * 0x100 + n % 0x100 == n) by (nonlinear_arith)
        requires
            n <= 0xffff_ffff,
    ;
}

/// The byte layout of a frame: the eight magic bytes `"C2PATXT\0"`, the version, the
/// payload length as four big-endian bytes (most significant first), the payload, then the
/// padding.
pub proof fn lemma_frame_layout(version: u8, payload: Seq<u8>, padding: Seq<u8>)
    requires
        payload.len() <= u32::MAX,
    ensures
        ({
            let f = framed_with(version, payload, padding);
            let n = payload.len();
            &&& f.len() == 13 + n + padding.len()
            &&& f[0] == 0x43 && f[1] == 0x32 && f[2] == 0x50 && f[3] == 0x41
            &&& f[4] == 0x54 && f[5] == 0x58 && f[6] == 0x54 && f[7] == 0x00
            &&& f[8] == version
            &&& f[9] == n / 0x1000000
            &&& f[10] == (n / 0x10000) % 0x100
            &&& f[11] == (n / 0x100) % 0x100
            &&& f[12] == n % 0x100
            &&& f[9] * 0x1000000 + f[10] * 0x10000 + f[11] * 0x100 + f[12] == n
            &&& forall|i: int| 0 <= i < n ==> #[trigger] f[13 + i] == payload[i]
            &&& forall|i: int| 0 <= i < padding.len() ==> #[trigger] f[13 + n + i] == padding[i]
        }),
{
    let f = framed_with(version, payload, padding);
    let n = payload.len();
    let h = magic() + seq![version] + be32(n);
    assert(f == h + payload + padding);
    assert(h.len() == 13);
    assert(h[9] == ((n / 0x1000000) % 0x100) as u8);
    assert(h[10] == ((n / 0x10000) % 0x100) as u8);
    assert(h[11] == ((n / 0x100) % 0x100) as u8);
    assert(h[12] == (n % 0x100) as u8);
    assert(n / 0x1000000 < 0x100) by (nonlinear_arith)
        requires
            n <= 0xffff_ffff,
    ;
    assert(((n / 0x1000000) % 0x100) * 0x1000000 + ((n / 0x10000) % 0x100) * 0x10000 + ((n / 0x100)
        % 0x100) * 0x100 + n % 0x100 == n) by (nonlinear_arith)
        requires
            n <= 0xffff_ffff,
    ;
    assert forall|i: int| 0 <= i < n implies #[trigger] f[13 + i] == payload[i] by {
        assert(f[13 + i] == (h + payload)[13 + i]);
    }
    assert forall|i: int| 0 <= i < padding.len() implies #[trigger] f[13 + n + i] == padding[i] by {
    }
}

/// How a run is read as a specified frame: it decodes exactly when it opens with the magic
/// bytes and version 1, and holds at least as many bytes after the header as the
/// big-endian length in bytes 9 to 12 declares; the payload is then those bytes.
pub proof fn lemma_decode_frame_reads(run: Seq<u8>)
    ensures
        ({
            let n = if run.len() >= 13 {
                run[9] * 0x1000000 + run[10] * 0x10000 + run[11] * 0x100 + run[12]
            } else {
                0
            };
            &&& spec_decode_frame(run) is Some <==> (run.len() >= 13 && run[0] == 0x43 && run[1]
                == 0x32 && run[2] == 0x50 && run[3] == 0x41 && run[4] == 0x54 && run[5] == 0x58
                && run[6] == 0x54 && run[7] == 0x00 && run[8] == 1 && 13 + n <= run.len())
            &&& spec_decode_frame(run) is Some ==> spec_decode_frame(run).unwrap().len() == n
                && forall|i: int|
                0 <= i < n ==> #[trigger] spec_decode_frame(run).unwrap()[i] == run[13 + i]
        }),
{
    if run.len() >= 13 {
        let m = run.subrange(0, 8);
        if run[0] == 0x43 && run[1] == 0x32 && run[2] == 0x50 && run[3] == 0x41 && run[4] == 0x54
            && run[5] == 0x58 && run[6] == 0x54 && run[7] == 0x00 {
            assert(m =~= magic());
        } else {
            assert(m[0] == run[0] && m[1] == run[1] && m[2] == run[2] && m[3] == run[3]);
            assert(m[4] == run[4] && m[5] == run[5] && m[6] == run[6] && m[7] == run[7]);
        }
    }
}

/// The padding of a gap, byte by byte: `(gap - 4 * (gap % 3)) / 3` bytes `0x00`, then
/// `gap % 3` bytes `0x10`. Only gaps 1, 2 and 5 have no padding.
pub proof fn lemma_padding_decomposition(gap: nat)
    ensures
        spec_padding(gap) is None <==> (gap == 1 || gap == 2 || gap == 5),
        spec_padding(gap) is Some ==> ({
            let v = spec_padding(gap).unwrap();
            let zeros = (gap - 4 * (gap % 3)) / 3;
            &&& v.len() == zeros + gap % 3
            &&& forall|i: int| 0 <= i < v.len() ==> #[trigger] v[i] == (if i < zeros {
                0x00u8
            } else {
                0x10u8
            })
            &&& 3 * zeros + 4 * (gap % 3) == gap
        }),
{
    if spec_padding(gap) is Some {
        let b = gap % 3;
        let a = ((gap - 4 * b) / 3) as nat;
        let v = spec_padding(gap).unwrap();
        assert forall|i: int| 0 <= i < v.len() implies #[trigger] v[i] == (if i < a {
            0x00u8
        } else {
            0x10u8
        }) by {
            if i < a {
                assert(v[i] == Seq::new(a, |j: int| 0x00u8)[i]);
            } else {
                assert(v[i] == Seq::new(b, |j: int| 0x10u8)[i - a]);
            }
        }
    }
}

/// The padded wrapper of an `m`-byte manifest is `4m + 61` UTF-8 bytes long: the 3-byte
/// marker, four bytes for each of the 13 header bytes and `m` payload bytes, and 6 more.
pub proof fn lemma_target_length_value(m: nat)
    ensures
        spec_target_length(m) == 4 * m + 61,
{
}

/// A specified frame decodes to its payload, whatever padding follows it.
pub proof fn lemma_decode_framed(payload: Seq<u8>, padding: Seq<u8>)
    requires
        payload.len() <= u32::MAX,
    ensures
        spec_decode_frame(framed(payload, padding)) == Some(payload),
        has_magic(framed(payload, padding)),
{
    let f = framed(payload, padding);
    let h = magic() + seq![VERSION] + be32(payload.len());
    lemma_be32(payload.len());
    assert(f =~= h + payload + padding);
    assert(f.subrange(0, 8) =~= magic());
    assert(f[8] == VERSION);
    assert(f[9] == h[9] && f[10] == h[10] && f[11] == h[11] && f[12] == h[12]);
    assert(declared_len(f) == declared_len(h));
    assert(f.subrange(13, 13 + payload.len() as int) =~= payload);
}

/// The padding totals exactly the gap it was asked for.
pub proof fn lemma_padding_width(gap: nat)
    requires
        spec_padding(gap) is Some,
    ensures
        run_width(spec_padding(gap).unwrap()) == gap,
{
    let b = gap % 3;
    let a = ((gap - 4 * b) / 3) as nat;
    let zeros = Seq::new(a, |i: int| 0x00u8);
    let sixteens = Seq::new(b, |i: int| 0x10u8);
    lemma_run_width_concat(zeros, sixteens);
    lemma_run_width_const(a, 0x00u8);
    lemma_run_width_const(b, 0x10u8);
}

proof fn lemma_run_width_const(n: nat, v: u8)
    ensures
        run_width(Seq::new(n, |i: int| v)) == n * selector_width(v),
    decreases n,
{
    if n > 0 {
        let s = Seq::new(n, |i: int| v);
        assert(s.drop_last() =~= Seq::new((n - 1) as nat, |i: int| v));
        lemma_run_width_const((n - 1) as nat, v);
        assert(n * selector_width(v) == (n - 1) * selector_width(v) + selector_width(v)) by (nonlinear_arith);
    }
}

/// Scanning never looks back: a run at or after a character position is the same whatever
/// follows a marker placed at the end of the text.
proof fn lemma_run_end_prefix(t: Seq<char>, u: Seq<char>, i: int)
    requires
        0 <= i <= t.len(),
        u.len() > 0,
        u[0] == MARKER,
    ensures
        run_end(t + u, i) == run_end(t, i),
    decreases t.len() - i,
{
    let tu = t + u;
    assert(!is_selector(MARKER));
    if i < t.len() {
        assert(tu[i] == t[i]);
        if is_selector(t[i]) {
            lemma_run_end_prefix(t, u, i + 1);
        }
    } else {
        assert(tu[i] == MARKER);
    }
}

proof fn lemma_byte_offset_prefix(t: Seq<char>, u: Seq<char>, i: int)
    requires
        0 <= i <= t.len(),
    ensures
        byte_offset(t + u, i) == byte_offset(t, i),
{
    assert((t + u).subrange(0, i) =~= t.subrange(0, i));
}

/// The runs of a text followed by a carried frame are the runs of the text, then the run
/// of the frame.
pub proof fn lemma_runs_append(t: Seq<char>, frame: Seq<u8>, from: int)
    requires
        0 <= from <= t.len(),
    ensures
        runs_from(t + carried(frame), from) == runs_from(t, from).push(
            Run {
                bytes: frame,
                start: utf8(t).len(),
                length: utf8(carried(frame)).len(),
            },
        ),
    decreases t.len() + 1 - from,
{
    let u = carried(frame);
    let tu = t + u;
    assert(u[0] == MARKER);
    if from < t.len() {
        assert(tu[from] == t[from]);
        if t[from] == MARKER {
            lemma_run_end_prefix(t, u, from + 1);
            lemma_run_end_bounds(t, from + 1);
            let e = run_end(t, from + 1);
            lemma_runs_append(t, frame, e);
            lemma_byte_offset_prefix(t, u, from);
            lemma_byte_offset_prefix(t, u, e);
            assert(tu.subrange(from + 1, e) =~= t.subrange(from + 1, e));
            assert(runs_from(tu, from) =~= runs_from(t, from).push(
                Run { bytes: frame, start: utf8(t).len(), length: utf8(u).len() },
            ));
        } else {
            lemma_runs_append(t, frame, from + 1);
            assert(runs_from(tu, from) =~= runs_from(t, from).push(
                Run { bytes: frame, start: utf8(t).len(), length: utf8(u).len() },
            ));
        }
    } else {
        // `from == t.len()`: the marker of the frame.
        assert(tu[from] == MARKER);
        let n = t.len() as int;
        lemma_run_end_to_end(tu, n + 1);
        assert(run_end(tu, n + 1) == tu.len());
        assert(runs_from(tu, tu.len() as int) =~= Seq::<Run>::empty());
        assert(runs_from(t, from) =~= Seq::<Run>::empty());
        assert(tu.subrange(n + 1, tu.len() as int) =~= vs_chars(frame));
        lemma_vs_chars_round_trip(frame);
        lemma_byte_offset_prefix(t, u, n);
        lemma_byte_offset_ends(t);
        lemma_byte_offset_ends(tu);
        lemma_utf8_concat(t, u);
    }
}

/// Within a carried frame every character after the marker is a selector.
proof fn lemma_run_end_to_end(tu: Seq<char>, i: int)
    requires
        0 <= i <= tu.len(),
        forall|k: int| i <= k < tu.len() ==> #[trigger] is_selector(tu[k]),
    ensures
        run_end(tu, i) == tu.len(),
    decreases tu.len() - i,
{
    if i < tu.len() {
        lemma_run_end_to_end(tu, i + 1);
    }
}

proof fn lemma_carried_selectors(t: Seq<char>, frame: Seq<u8>)
    ensures
        forall|k: int|
            t.len() + 1 <= k < (t + carried(frame)).len() ==> #[trigger] is_selector(
                (t + carried(frame))[k],
            ),
{
    lemma_vs_chars_round_trip(frame);
    assert forall|k: int| t.len() + 1 <= k < (t + carried(frame)).len() implies #[trigger] is_selector(
        (t + carried(frame))[k],
    ) by {
        assert((t + carried(frame))[k] == vs_chars(frame)[k - t.len() - 1]);
    }
}

/// Appending a carried specified frame to a text adds exactly one located wrapper, after
/// those the text already carried: its payload, its version, and the byte range from the
/// end of the text through the end of the frame.
pub proof fn lemma_locate_all_append(t: Seq<char>, payload: Seq<u8>, padding: Seq<u8>)
    requires
        payload.len() <= u32::MAX,
    ensures
        spec_locate_all(t + carried(framed(payload, padding))) == spec_locate_all(t).push(
            WrapperView {
                payload: payload,
                version: VERSION,
                start: utf8(t).len(),
                length: utf8(carried(framed(payload, padding))).len(),
            },
        ),
{
    let frame = framed(payload, padding);
    lemma_carried_selectors(t, frame);
    lemma_runs_append(t, frame, 0);
    lemma_decode_framed(payload, padding);
    let rs = runs(t + carried(frame));
    assert(rs.drop_last() =~= runs(t));
}

/// Text that carried no valid wrapper, with one embedded, yields that wrapper on extraction.
pub proof fn lemma_extract_embedded(t: Seq<char>, payload: Seq<u8>, padding: Seq<u8>)
    requires
        payload.len() <= u32::MAX,
        spec_locate_all(t).len() == 0,
    ensures
        spec_extract(t + carried(framed(payload, padding))) == Ok::<WrapperView, Error>(
            WrapperView {
                payload: payload,
                version: VERSION,
                start: utf8(t).len(),
                length: utf8(carried(framed(payload, padding))).len(),
            },
        ),
{
    lemma_locate_all_append(t, payload, padding);
}

/// Text that already carried a valid wrapper, with another embedded, is rejected as carrying
/// multiple wrappers.
pub proof fn lemma_extract_twice_embedded(t: Seq<char>, payload: Seq<u8>, padding: Seq<u8>)
    requires
        payload.len() <= u32::MAX,
        spec_locate_all(t).len() >= 1,
    ensures
        spec_extract(t + carried(framed(payload, padding))) == Err::<WrapperView, Error>(
            Error::MultipleWrappers,
        ),
{
    lemma_locate_all_append(t, payload, padding);
}

/// Removing the byte range of an embedded wrapper gives back the host text.
pub proof fn lemma_strip_embedded(t: Seq<char>, frame: Seq<u8>)
    ensures
        ({
            let b = utf8(t + carried(frame));
            let start = utf8(t).len() as int;
            let end = start + utf8(carried(frame)).len();
            &&& end == b.len()
            &&& is_char_boundary(b, start)
            &&& is_char_boundary(b, end)
            &&& b.subrange(0, start) + b.subrange(end, b.len() as int) == utf8(t)
        }),
{
    let u = carried(frame);
    let tu = t + u;
    lemma_utf8_concat(t, u);
    let b = utf8(tu);
    crate::text::lemma_byte_offset_is_boundary(tu, t.len() as int);
    crate::text::lemma_byte_offset_is_boundary(tu, tu.len() as int);
    lemma_byte_offset_prefix(t, u, t.len() as int);
    lemma_byte_offset_ends(t);
    lemma_byte_offset_ends(tu);
    assert(b.subrange(0, utf8(t).len() as int) =~= utf8(t));
    assert(b.subrange(b.len() as int, b.len() as int) =~= Seq::<u8>::empty());
    assert(utf8(t) + Seq::<u8>::empty() =~= utf8(t));
}


/// Whether the byte range `start .. start + length` of `t` runs between two character offsets.
pub open spec fn at_char_offsets(t: Seq<char>, start: nat, length: nat) -> bool {
    exists|i: int, j: int|
        0 <= i <= j <= t.len() && #[trigger] byte_offset(t, i) == start && #[trigger] byte_offset(
            t,
            j,
        ) == start + length
}

proof fn lemma_runs_from_offsets(t: Seq<char>, from: int)
    requires
        0 <= from,
    ensures
        forall|k: int|
            0 <= k < runs_from(t, from).len() ==> at_char_offsets(
                t,
                #[trigger] runs_from(t, from)[k].start,
                runs_from(t, from)[k].length,
            ),
    decreases t.len() - from,
{
    if from < t.len() {
        if t[from] == MARKER {
            let e = run_end(t, from + 1);
            lemma_run_end_bounds(t, from + 1);
            lemma_runs_from_offsets(t, e);
            lemma_utf8_between(t, from, e);
            let r0 = runs_from(t, from)[0];
            assert(byte_offset(t, from) == r0.start && byte_offset(t, e) == r0.start + r0.length);
            assert(at_char_offsets(t, r0.start, r0.length));
            assert forall|k: int| 0 <= k < runs_from(t, from).len() implies at_char_offsets(
                t,
                #[trigger] runs_from(t, from)[k].start,
                runs_from(t, from)[k].length,
            ) by {
                if k > 0 {
                    assert(runs_from(t, from)[k] == runs_from(t, e)[k - 1]);
                }
            }
        } else {
            lemma_runs_from_offsets(t, from + 1);
            assert(runs_from(t, from) == runs_from(t, from + 1));
        }
    } else {
        assert(runs_from(t, from).len() == 0);
    }
}

proof fn lemma_decoded_runs_offsets(t: Seq<char>, rs: Seq<Run>)
    requires
        forall|k: int| 0 <= k < rs.len() ==> at_char_offsets(t, #[trigger] rs[k].start, rs[k].length),
    ensures
        forall|k: int|
            0 <= k < decoded_runs(rs).len() ==> at_char_offsets(
                t,
                #[trigger] decoded_runs(rs)[k].start,
                decoded_runs(rs)[k].length,
            ),
    decreases rs.len(),
{
    if rs.len() > 0 {
        let init = rs.drop_last();
        assert forall|k: int| 0 <= k < init.len() implies at_char_offsets(
            t,
            #[trigger] init[k].start,
            init[k].length,
        ) by {
            assert(init[k] == rs[k]);
        }
        lemma_decoded_runs_offsets(t, init);
        let r = rs.last();
        assert(at_char_offsets(t, rs[rs.len() - 1].start, rs[rs.len() - 1].length));
        let rest = decoded_runs(init);
        assert forall|k: int| 0 <= k < decoded_runs(rs).len() implies at_char_offsets(
            t,
            #[trigger] decoded_runs(rs)[k].start,
            decoded_runs(rs)[k].length,
        ) by {
            if k < rest.len() {
                assert(decoded_runs(rs)[k] == rest[k]);
            } else {
                assert(decoded_runs(rs)[k].start == r.start);
                assert(decoded_runs(rs)[k].length == r.length);
            }
        }
    }
}

/// Every located wrapper occupies the bytes between two character offsets of the text.
pub proof fn lemma_located_at_char_offsets(t: Seq<char>)
    ensures
        forall|k: int|
            0 <= k < spec_locate_all(t).len() ==> at_char_offsets(
                t,
                #[trigger] spec_locate_all(t)[k].start,
                spec_locate_all(t)[k].length,
            ),
{
    lemma_runs_from_offsets(t, 0);
    lemma_decoded_runs_offsets(t, runs(t));
}

/// The runs of a text followed by more text that opens with a marker are the runs of the
/// first text, then those found from the marker on.
proof fn lemma_runs_split(t: Seq<char>, v: Seq<char>, from: int)
    requires
        0 <= from <= t.len(),
        v.len() > 0,
        v[0] == MARKER,
    ensures
        runs_from(t + v, from) == runs_from(t, from) + runs_from(t + v, t.len() as int),
    decreases t.len() - from,
{
    let tv = t + v;
    if from < t.len() {
        assert(tv[from] == t[from]);
        if t[from] == MARKER {
            lemma_run_end_prefix(t, v, from + 1);
            lemma_run_end_bounds(t, from + 1);
            let e = run_end(t, from + 1);
            lemma_runs_split(t, v, e);
            lemma_byte_offset_prefix(t, v, from);
            lemma_byte_offset_prefix(t, v, e);
            assert(tv.subrange(from + 1, e) =~= t.subrange(from + 1, e));
            assert(runs_from(tv, from) =~= runs_from(t, from) + runs_from(tv, t.len() as int));
        } else {
            lemma_runs_split(t, v, from + 1);
            assert(runs_from(tv, from) =~= runs_from(t, from) + runs_from(tv, t.len() as int));
        }
    } else {
        assert(runs_from(t, from) =~= Seq::<Run>::empty());
        assert(runs_from(tv, from) =~= runs_from(t, from) + runs_from(tv, t.len() as int));
    }
}

/// Decoding the runs of a concatenation decodes each part in turn.
proof fn lemma_decoded_runs_concat(x: Seq<Run>, y: Seq<Run>)
    ensures
        decoded_runs(x + y) == decoded_runs(x) + decoded_runs(y),
    decreases y.len(),
{
    if y.len() == 0 {
        assert(x + y =~= x);
        assert(decoded_runs(x) + decoded_runs(y) =~= decoded_runs(x));
    } else {
        assert((x + y).drop_last() =~= x + y.drop_last());
        assert((x + y).last() == y.last());
        lemma_decoded_runs_concat(x, y.drop_last());
        match spec_decode_frame(y.last().bytes) {
            Some(p) => {
                let w = WrapperView {
                    payload: p,
                    version: VERSION,
                    start: y.last().start,
                    length: y.last().length,
                };
                assert(decoded_runs(x) + decoded_runs(y) =~= (decoded_runs(x) + decoded_runs(
                    y.drop_last(),
                )).push(w));
            },
            None => {},
        }
    }
}

/// From the marker of a carried frame followed by text that does not open with a selector,
/// the first run is the frame, covering exactly its bytes.
proof fn lemma_frame_run(a: Seq<char>, f: Seq<u8>, b: Seq<char>)
    requires
        b.len() > 0 ==> !is_selector(b[0]),
    ensures
        ({
            let w = carried(f);
            let t = a + w + b;
            &&& runs_from(t, a.len() as int) == seq![
                Run { bytes: f, start: utf8(a).len(), length: utf8(w).len() },
            ] + runs_from(t, (a.len() + w.len()) as int)
        }),
{
    let w = carried(f);
    let t = a + w + b;
    let n = a.len() as int;
    let e = n + w.len();
    lemma_vs_chars_round_trip(f);
    assert forall|k: int| n + 1 <= k < e implies #[trigger] is_selector(t[k]) by {
        assert(t[k] == vs_chars(f)[k - n - 1]);
    }
    if e < t.len() {
        assert(t[e] == b[0]);
    }
    lemma_run_end_from(t, n + 1, e);
    assert(t[n] == MARKER);
    assert(t.subrange(n + 1, e) =~= vs_chars(f));
    assert(t.subrange(0, n) =~= a);
    assert(t.subrange(0, e) =~= a + w);
    lemma_utf8_concat(a, w);
}

/// A wrapper is located wherever it stands: in text `a`, then a carried specified frame,
/// then text `b` that does not open with a selector, the wrapper is located right after
/// those of `a`, with its payload and the byte range of the frame.
pub proof fn lemma_located_amid_text(a: Seq<char>, payload: Seq<u8>, padding: Seq<u8>, b: Seq<char>)
    requires
        payload.len() <= u32::MAX,
        b.len() > 0 ==> !is_selector(b[0]),
    ensures
        ({
            let w = carried(framed(payload, padding));
            let found = spec_locate_all(a + w + b);
            &&& found.len() > spec_locate_all(a).len()
            &&& found.subrange(0, spec_locate_all(a).len() as int) == spec_locate_all(a)
            &&& found[spec_locate_all(a).len() as int] == WrapperView {
                payload: payload,
                version: VERSION,
                start: utf8(a).len(),
                length: utf8(w).len(),
            }
        }),
{
    let f = framed(payload, padding);
    let w = carried(f);
    let v = w + b;
    let t = a + w + b;
    let n = a.len() as int;
    let e = n + w.len();
    let r = Run { bytes: f, start: utf8(a).len(), length: utf8(w).len() };
    let wv = WrapperView { payload: payload, version: VERSION, start: r.start, length: r.length };
    let rest = runs_from(t, e);
    assert(runs(t) == runs(a) + (seq![r] + rest)) by {
        assert(t =~= a + v);
        assert(v[0] == MARKER);
        lemma_runs_split(a, v, 0);
        lemma_frame_run(a, f, b);
    }
    assert(decoded_runs(seq![r] + rest) == seq![wv] + decoded_runs(rest)) by {
        lemma_decode_framed(payload, padding);
        let one = seq![r];
        assert(one.drop_last() =~= Seq::<Run>::empty());
        assert(one.last() == r);
        assert(decoded_runs(one.drop_last()) == Seq::<WrapperView>::empty());
        assert(spec_decode_frame(r.bytes) == Some(payload));
        assert(Seq::<WrapperView>::empty().push(wv) =~= seq![wv]);
        assert(decoded_runs(one) == seq![wv]);
        lemma_decoded_runs_concat(seq![r], rest);
    }
    let pre = spec_locate_all(a);
    let found = spec_locate_all(t);
    assert(found == pre + (seq![wv] + decoded_runs(rest))) by {
        lemma_decoded_runs_concat(runs(a), seq![r] + rest);
    }
    assert(found.subrange(0, pre.len() as int) =~= pre);
    assert(found[pre.len() as int] == wv);
}

/// Runs come in order of position, with disjoint byte ranges inside the text.
proof fn lemma_runs_from_ordered(t: Seq<char>, from: int)
    requires
        0 <= from <= t.len(),
    ensures
        forall|k: int|
            0 <= k < runs_from(t, from).len() ==> byte_offset(t, from) <= #[trigger] runs_from(
                t,
                from,
            )[k].start && runs_from(t, from)[k].start + runs_from(t, from)[k].length <= utf8(
                t,
            ).len(),
        forall|i: int, j: int|
            0 <= i < j < runs_from(t, from).len() ==> #[trigger] runs_from(t, from)[i].start
                + runs_from(t, from)[i].length <= #[trigger] runs_from(t, from)[j].start,
    decreases t.len() - from,
{
    lemma_byte_offset_ends(t);
    if from < t.len() {
        if t[from] == MARKER {
            let e = run_end(t, from + 1);
            lemma_run_end_bounds(t, from + 1);
            lemma_runs_from_ordered(t, e);
            lemma_utf8_between(t, from, e);
            lemma_utf8_between(t, e, t.len() as int);
            let rs = runs_from(t, from);
            let rest = runs_from(t, e);
            assert(rs == seq![rs[0]] + rest);
            assert forall|k: int| 0 <= k < rs.len() implies byte_offset(t, from) <= #[trigger] rs[k].start
                && rs[k].start + rs[k].length <= utf8(t).len() by {
                if k > 0 {
                    assert(rs[k] == rest[k - 1]);
                }
            }
            assert forall|i: int, j: int| 0 <= i < j < rs.len() implies #[trigger] rs[i].start
                + rs[i].length <= #[trigger] rs[j].start by {
                assert(rs[j] == rest[j - 1]);
                if i > 0 {
                    assert(rs[i] == rest[i - 1]);
                }
            }
        } else {
            lemma_runs_from_ordered(t, from + 1);
            lemma_byte_offset_step(t, from);
            assert(runs_from(t, from) == runs_from(t, from + 1));
        }
    } else {
        assert(runs_from(t, from).len() == 0);
    }
}

/// Decoding keeps the order and the ranges of the runs it keeps.
proof fn lemma_decoded_runs_ordered(rs: Seq<Run>)
    requires
        forall|i: int, j: int|
            0 <= i < j < rs.len() ==> #[trigger] rs[i].start + rs[i].length <= #[trigger] rs[j].start,
    ensures
        forall|k: int|
            0 <= k < decoded_runs(rs).len() ==> exists|m: int|
                0 <= m < rs.len() && #[trigger] decoded_runs(rs)[k].start == rs[m].start
                    && decoded_runs(rs)[k].length == rs[m].length,
        forall|i: int, j: int|
            0 <= i < j < decoded_runs(rs).len() ==> #[trigger] decoded_runs(rs)[i].start
                + decoded_runs(rs)[i].length <= #[trigger] decoded_runs(rs)[j].start,
    decreases rs.len(),
{
    if rs.len() > 0 {
        let init = rs.drop_last();
        assert forall|i: int, j: int| 0 <= i < j < init.len() implies #[trigger] init[i].start
            + init[i].length <= #[trigger] init[j].start by {
            assert(init[i] == rs[i] && init[j] == rs[j]);
        }
        lemma_decoded_runs_ordered(init);
        let d = decoded_runs(rs);
        let di = decoded_runs(init);
        let last = rs.len() - 1;
        assert forall|k: int| 0 <= k < di.len() implies di[k].start + di[k].length <= rs[last].start by {
            let m = choose|m: int|
                0 <= m < init.len() && #[trigger] di[k].start == init[m].start && di[k].length
                    == init[m].length;
            assert(init[m] == rs[m]);
        }
        assert forall|k: int| 0 <= k < d.len() implies exists|m: int|
            0 <= m < rs.len() && #[trigger] d[k].start == rs[m].start && d[k].length
                == rs[m].length by {
            if k < di.len() {
                assert(d[k] == di[k]);
                let m = choose|m: int|
                    0 <= m < init.len() && #[trigger] di[k].start == init[m].start
                        && di[k].length == init[m].length;
                assert(init[m] == rs[m]);
            } else {
                assert(d[k].start == rs[last].start && d[k].length == rs[last].length);
            }
        }
        assert forall|i: int, j: int| 0 <= i < j < d.len() implies #[trigger] d[i].start
            + d[i].length <= #[trigger] d[j].start by {
            assert(d[i] == di[i]);
            if j < di.len() {
                assert(d[j] == di[j]);
            } else {
                assert(d[j].start == rs[last].start);
            }
        }
    }
}

/// Located wrappers come in order of position, and their byte ranges are disjoint.
pub proof fn lemma_located_in_order(t: Seq<char>)
    ensures
        forall|i: int, j: int|
            0 <= i < j < spec_locate_all(t).len() ==> #[trigger] spec_locate_all(t)[i].start
                + spec_locate_all(t)[i].length <= #[trigger] spec_locate_all(t)[j].start,
{
    lemma_runs_from_ordered(t, 0);
    lemma_decoded_runs_ordered(runs(t));
}

/// Whether run `r` stands in `t` as a marker at character `i` followed by the selectors of
/// its bytes, up to character `e`, where the selector run ends; its byte range is that of
/// characters `i .. e`.
pub open spec fn carried_at(t: Seq<char>, r: Run, i: int, e: int) -> bool {
    &&& 0 <= i < e <= t.len()
    &&& t[i] == MARKER
    &&& e == run_end(t, i + 1)
    &&& t.subrange(i + 1, e) == vs_chars(r.bytes)
    &&& byte_offset(t, i) == r.start
    &&& byte_offset(t, e) == r.start + r.length
}

proof fn lemma_run_end_selectors(t: Seq<char>, i: int)
    requires
        0 <= i <= t.len(),
    ensures
        forall|k: int| i <= k < run_end(t, i) ==> #[trigger] is_selector(t[k]),
    decreases t.len() - i,
{
    if i < t.len() && is_selector(t[i]) {
        lemma_run_end_selectors(t, i + 1);
    }
}

proof fn lemma_selectors_reencode(cs: Seq<char>)
    requires
        forall|k: int| 0 <= k < cs.len() ==> #[trigger] is_selector(cs[k]),
    ensures
        vs_chars(selector_bytes(cs)) == cs,
{
    assert forall|k: int| 0 <= k < cs.len() implies #[trigger] vs_chars(selector_bytes(cs))[k]
        == cs[k] by {
        lemma_vs_inverse(cs[k]);
    }
    assert(vs_chars(selector_bytes(cs)) =~= cs);
}

/// The characters where the `k`-th run of `runs_from(t, from)` stands.
proof fn lemma_run_carried(t: Seq<char>, from: int, k: int) -> (ie: (int, int))
    requires
        0 <= from,
        0 <= k < runs_from(t, from).len(),
    ensures
        carried_at(t, runs_from(t, from)[k], ie.0, ie.1),
    decreases t.len() - from,
{
    let e = run_end(t, from + 1);
    lemma_run_end_bounds(t, from + 1);
    if t[from] == MARKER {
        let rs = runs_from(t, from);
        if k == 0 {
            lemma_run_end_selectors(t, from + 1);
            lemma_utf8_between(t, from, e);
            let cs = t.subrange(from + 1, e);
            assert forall|j: int| 0 <= j < cs.len() implies #[trigger] is_selector(cs[j]) by {
                assert(cs[j] == t[from + 1 + j]);
            }
            lemma_selectors_reencode(cs);
            assert(carried_at(t, rs[0], from, e));
            (from, e)
        } else {
            assert(rs[k] == runs_from(t, e)[k - 1]);
            lemma_run_carried(t, e, k - 1)
        }
    } else {
        assert(runs_from(t, from) == runs_from(t, from + 1));
        lemma_run_carried(t, from + 1, k)
    }
}

/// The run behind the `k`-th decoded wrapper of `rs`.
proof fn lemma_decoded_source(rs: Seq<Run>, k: int) -> (m: int)
    requires
        0 <= k < decoded_runs(rs).len(),
    ensures
        0 <= m < rs.len(),
        spec_decode_frame(rs[m].bytes) == Some(decoded_runs(rs)[k].payload),
        decoded_runs(rs)[k].version == VERSION,
        decoded_runs(rs)[k].start == rs[m].start,
        decoded_runs(rs)[k].length == rs[m].length,
    decreases rs.len(),
{
    let init = rs.drop_last();
    let di = decoded_runs(init);
    if k < di.len() {
        let m = lemma_decoded_source(init, k);
        assert(decoded_runs(rs)[k] == di[k]);
        assert(init[m] == rs[m]);
        m
    } else {
        assert(rs.last() == rs[rs.len() - 1]);
        rs.len() - 1
    }
}

/// Whether `w` stands in `t` as the frame `f`: a marker at character `i`, then the
/// selectors of `f` up to character `e`, where the selector run ends, with `f` a whole
/// specified frame whose payload is `w`'s.
pub open spec fn frame_at(t: Seq<char>, w: WrapperView, f: Seq<u8>, i: int, e: int) -> bool {
    &&& carried_at(t, Run { bytes: f, start: w.start, length: w.length }, i, e)
    &&& w.version == VERSION
    &&& spec_decode_frame(f) == Some(w.payload)
}

/// Every located wrapper is a marker followed by the selectors of a whole specified frame
/// (the magic, version 1, a big-endian length equal to the payload's, the payload, then
/// any padding) up to where the selector run ends; its byte range is exactly that span.
pub proof fn lemma_located_frame(t: Seq<char>, k: int)
    requires
        0 <= k < spec_locate_all(t).len(),
    ensures
        exists|f: Seq<u8>, i: int, e: int| #[trigger] frame_at(t, spec_locate_all(t)[k], f, i, e),
        spec_locate_all(t)[k].version == VERSION,
{
    let rs = runs(t);
    let w = spec_locate_all(t)[k];
    let m = lemma_decoded_source(rs, k);
    let (i, e) = lemma_run_carried(t, 0, m);
    let f = rs[m].bytes;
    assert(Run { bytes: f, start: w.start, length: w.length } == rs[m]);
    assert(frame_at(t, w, f, i, e));
}

/* ---------------------------------------------------------------- building */

/// Append `s` to `v`.
pub(crate) fn extend_bytes(v: &mut Vec<u8>, s: &[u8])
    ensures
        final(v)@ == old(v)@ + s@,
{
    for i in 0..s.len()
        invariant
            v@ == old(v)@ + s@.subrange(0, i as int),
    {
        v.push(s[i]);
        assert(v@ =~= old(v)@ + s@.subrange(0, i + 1));
    }
    assert(s@.subrange(0, s@.len() as int) =~= s@);
}

/// The frame header and payload under `version`, followed by `padding`.
pub(crate) fn frame_bytes(version: u8, payload: &[u8], padding: &[u8]) -> (v: Vec<u8>)
    requires
        payload@.len() <= u32::MAX,
    ensures
        v@ == framed_with(version, payload@, padding@),
{
    let len = payload.len() as u32;
    let mut v: Vec<u8> = Vec::new();
    proof {
        lemma_magic();
    }
    extend_bytes(&mut v, &MAGIC);
    v.push(version);
    v.push((len / 0x1000000) as u8);
    v.push(((len / 0x10000) % 0x100) as u8);
    v.push(((len / 0x100) % 0x100) as u8);
    v.push((len % 0x100) as u8);
    assert(v@ =~= magic() + seq![version] + be32(payload@.len()));
    extend_bytes(&mut v, payload);
    extend_bytes(&mut v, padding);
    v
}

/// The text carrying `frame`: the marker, then one selector per byte. Any bytes can be
/// carried, including frames that do not decode.
pub fn carry(frame: &[u8]) -> (s: String)
    ensures
        s@ == carried(frame@),
{
    let mut cs: Vec<char> = Vec::new();
    cs.push(MARKER);
    for i in 0..frame.len()
        invariant
            cs@ == seq![MARKER] + vs_chars(frame@.subrange(0, i as int)),
    {
        cs.push(byte_to_vs(frame[i]));
        assert(cs@ =~= seq![MARKER] + vs_chars(frame@.subrange(0, i + 1)));
    }
    assert(frame@.subrange(0, frame@.len() as int) =~= frame@);
    string_from_chars(cs.as_slice())
}

fn encode_with_padding(payload: &[u8], padding: &[u8]) -> (r: Result<String, Error>)
    ensures
        match r {
            Ok(s) => payload@.len() <= u32::MAX && s@ == carried(framed(payload@, padding@)),
            Err(e) => payload@.len() > u32::MAX && e == Error::PayloadTooLarge(payload@.len() as usize),
        },
{
    if payload.len() > 0xffff_ffff {
        return Err(Error::PayloadTooLarge(payload.len()));
    }
    let frame = frame_bytes(VERSION, payload, padding);
    Ok(carry(frame.as_slice()))
}

/// Encode `payload` as a wrapper of the specified frame, with no padding.
pub fn encode(payload: &[u8]) -> (r: Result<String, Error>)
    ensures
        match r {
            Ok(s) => payload@.len() <= u32::MAX && s@ == carried(framed(payload@, seq![])),
            Err(e) => payload@.len() > u32::MAX && e == Error::PayloadTooLarge(payload@.len() as usize),
        },
{
    let empty: [u8; 0] = [];
    assert(empty@ =~= Seq::<u8>::empty());
    encode_with_padding(payload, &empty)
}

/// Append a wrapper carrying `payload` to `text`, at the end of the visible content.
pub fn embed(text: &str, payload: &[u8]) -> (r: Result<String, Error>)
    ensures
        match r {
            Ok(s) => payload@.len() <= u32::MAX && s@ == text@ + carried(framed(payload@, seq![])),
            Err(e) => payload@.len() > u32::MAX && e == Error::PayloadTooLarge(payload@.len() as usize),
        },
{
    match encode(payload) {
        Ok(w) => {
            let mut out = text.to_owned();
            out.append(w.as_str());
            Ok(out)
        },
        Err(e) => Err(e),
    }
}

/// The deterministic target UTF-8 byte length for a manifest of `manifest_len` bytes:
/// `3 + (13 + M) * 4 + 6`.
pub fn target_length(manifest_len: usize) -> (n: usize)
    requires
        (13 + manifest_len) * 4 + 9 <= usize::MAX,
    ensures
        n == spec_target_length(manifest_len as nat),
{
    3 + (HEADER_LEN + manifest_len) * 4 + 6
}

/// Padding bytes whose selector encoding totals exactly `gap` UTF-8 bytes: `(gap - 4b) / 3`
/// bytes of `0x00`, then `b = gap mod 3` bytes of `0x10`.
pub fn padding(gap: usize) -> (r: Result<Vec<u8>, Error>)
    ensures
        match r {
            Ok(v) => spec_padding(gap as nat) == Some(v@) && run_width(v@) == gap,
            Err(e) => spec_padding(gap as nat) is None && e == Error::UnrepresentableGap(gap),
        },
        r is Err <==> (gap == 1 || gap == 2 || gap == 5),
{
    if gap == 0 {
        let v: Vec<u8> = Vec::new();
        proof {
            assert(spec_padding(0) == Some(v@)) by {
                assert(Seq::new(0, |i: int| 0x00u8) + Seq::new(0, |i: int| 0x10u8) =~= v@);
            }
            lemma_padding_width(0);
        }
        return Ok(v);
    }
    // 4 = 1 (mod 3), so b = gap mod 3 makes `gap - 4b` divisible by 3.
    let b = gap % 3;
    if gap < 4 * b {
        // Only 1, 2 and 5 are not expressible.
        return Err(Error::UnrepresentableGap(gap));
    }
    let a = (gap - 4 * b) / 3;
    let mut out: Vec<u8> = Vec::new();
    for i in 0..a
        invariant
            out@ == Seq::new(i as nat, |k: int| 0x00u8),
    {
        out.push(0x00);
        assert(out@ =~= Seq::new((i + 1) as nat, |k: int| 0x00u8));
    }
    for i in 0..b
        invariant
            out@ == Seq::new(a as nat, |k: int| 0x00u8) + Seq::new(i as nat, |k: int| 0x10u8),
    {
        out.push(0x10);
        assert(out@ =~= Seq::new(a as nat, |k: int| 0x00u8) + Seq::new((i + 1) as nat, |k: int| 0x10u8));
    }
    proof {
        lemma_padding_width(gap as nat);
    }
    Ok(out)
}

/// Encode `payload` padded to [`target_length`], so the wrapper's byte length depends only
/// on the manifest size and not on its byte distribution.
pub fn encode_padded(payload: &[u8]) -> (r: Result<String, Error>)
    requires
        payload@.len() <= u32::MAX ==> (13 + payload@.len()) * 4 + 9 <= usize::MAX,
    ensures
        match r {
            Ok(s) => {
                &&& payload@.len() <= u32::MAX
                &&& s@ == carried(framed(payload@, padding_for(payload@)))
                &&& utf8(s@).len() == spec_target_length(payload@.len())
            },
            Err(e) => payload@.len() > u32::MAX && e == Error::PayloadTooLarge(payload@.len() as usize),
        },
{
    let base = match encode(payload) {
        Ok(s) => s,
        Err(e) => return Err(e),
    };
    let target = target_length(payload.len());
    let base_len = base.as_str().len();
    proof {
        let f = framed(payload@, seq![]);
        lemma_carried_width(f);
        lemma_run_width_bound(f);
        lemma_be32(payload@.len());
    }
    let gap = match target.checked_sub(base_len) {
        Some(g) => g,
        None => return Err(Error::UnrepresentableGap(0)),
    };
    let pad = match padding(gap) {
        Ok(p) => p,
        Err(e) => return Err(e),
    };
    proof {
        let f0 = framed(payload@, seq![]);
        let f = framed(payload@, pad@);
        assert(f =~= f0 + pad@);
        lemma_run_width_concat(f0, pad@);
        lemma_carried_width(f);
    }
    encode_with_padding(payload, pad.as_slice())
}

/* ---------------------------------------------------------------- locating */

/// A marker-prefixed selector run found in a text.
pub(crate) struct Candidate {
    pub(crate) run: Vec<u8>,
    pub(crate) start: usize,
    pub(crate) length: usize,
}

impl View for Candidate {
    type V = Run;

    closed spec fn view(&self) -> Run {
        Run { bytes: self.run@, start: self.start as nat, length: self.length as nat }
    }
}

pub(crate) open spec fn candidate_views(cs: Seq<Candidate>) -> Seq<Run> {
    cs.map_values(|c: Candidate| c@)
}

/// Every `U+FEFF`-prefixed selector run of the text whose characters are `cs`.
pub(crate) fn scan(cs: &Vec<char>) -> (r: Vec<Candidate>)
    requires
        utf8(cs@).len() <= usize::MAX,
    ensures
        candidate_views(r@) == runs(cs@),
{
    let mut found: Vec<Candidate> = Vec::new();
    let mut i: usize = 0;
    let mut off: usize = 0;
    proof {
        lemma_byte_offset_ends(cs@);
        assert(candidate_views(found@) + runs_from(cs@, 0) =~= runs(cs@));
    }
    while i < cs.len()
        invariant
            i <= cs.len(),
            utf8(cs@).len() <= usize::MAX,
            off == byte_offset(cs@, i as int),
            candidate_views(found@) + runs_from(cs@, i as int) == runs(cs@),
        decreases cs.len() - i,
    {
        proof {
            lemma_byte_offset_step(cs@, i as int);
            lemma_utf8_between(cs@, (i + 1) as int, cs@.len() as int);
            lemma_byte_offset_ends(cs@);
        }
        let w = utf8_width(cs[i]);
        if cs[i] == MARKER {
            let (run, end, width) = scan_run(cs, i + 1);
            proof {
                lemma_utf8_between(cs@, end as int, cs@.len() as int);
            }
            let length = w + width;
            let ghost old_found = found@;
            let c = Candidate { run, start: off, length };
            found.push(c);
            proof {
                assert(candidate_views(found@) =~= candidate_views(old_found).push(c@));
                assert(candidate_views(found@) + runs_from(cs@, end as int) =~= candidate_views(
                    old_found,
                ) + runs_from(cs@, i as int));
            }
            off = off + length;
            i = end;
        } else {
            off = off + w;
            i = i + 1;
        }
    }
    proof {
        assert(runs_from(cs@, i as int) =~= Seq::<Run>::empty());
        assert(candidate_views(found@) =~= candidate_views(found@) + runs_from(cs@, i as int));
    }
    found
}

/// Whether `run` opens with the magic.
fn magic_matches(run: &[u8]) -> (r: bool)
    ensures
        r == has_magic(run@),
{
    if run.len() < 8 {
        return false;
    }
    proof {
        lemma_magic();
    }
    for k in 0..8
        invariant
            run@.len() >= 8,
            MAGIC@ == magic(),
            forall|j: int| 0 <= j < k ==> run@[j] == magic()[j],
    {
        if run[k] != MAGIC[k] {
            proof {
                assert(run@.subrange(0, 8)[k as int] != magic()[k as int]);
            }
            return false;
        }
    }
    assert(run@.subrange(0, 8) =~= magic());
    true
}

/// Common header parse: the end of the declared body and whether the run is long enough
/// to contain it.
pub(crate) fn frame_bounds(run: &[u8]) -> (r: Option<(usize, bool)>)
    ensures
        r is Some <==> has_header(run@) && 13 + declared_len(run@) <= usize::MAX,
        r matches Some((end, ok)) ==> end == 13 + declared_len(run@) && ok == (run@.len() >= end),
{
    if run.len() < HEADER_LEN || !magic_matches(run) {
        return None;
    }
    let declared: u32 = (run[9] as u32) * 0x1000000 + (run[10] as u32) * 0x10000 + (run[11] as u32)
        * 0x100 + run[12] as u32;
    let body_end = match HEADER_LEN.checked_add(declared as usize) {
        Some(e) => e,
        None => return None,
    };
    Some((body_end, run.len() >= body_end))
}

/// Decode one framed byte run into a wrapper, or `None` if it does not decode.
fn decode_frame(run: &[u8], start: usize, length: usize) -> (r: Option<Wrapper>)
    ensures
        match spec_decode_frame(run@) {
            Some(p) => r matches Some(w) && w@ == WrapperView {
                payload: p,
                version: VERSION,
                start: start as nat,
                length: length as nat,
            },
            None => r is None,
        },
{
    let (body_end, declared_ok) = match frame_bounds(run) {
        Some(b) => b,
        None => {
            assert(run@.len() == run.len());
            return None;
        },
    };
    if run[8] != VERSION || !declared_ok {
        return None;
    }
    let payload = vstd::slice::slice_to_vec(vstd::slice::slice_subrange(run, HEADER_LEN, body_end));
    Some(Wrapper { payload, version: VERSION, start, length })
}

/// Every valid wrapper in `text`, in order of appearance.
///
/// A candidate whose magic matches but whose frame does not decode is not a valid wrapper
/// and is skipped, so a mangled run beside a good one does not discard the asset.
pub fn locate_all(text: &str) -> (r: Vec<Wrapper>)
    ensures
        r@.map_values(|w: Wrapper| w@) == spec_locate_all(text@),
{
    let cs = text_chars(text);
    let n = text.as_bytes().len();
    assert(utf8(cs@).len() == n);
    let cands = scan(&cs);
    let ghost rs = runs(cs@);
    let mut found: Vec<Wrapper> = Vec::new();
    for k in 0..cands.len()
        invariant
            rs == runs(cs@),
            candidate_views(cands@) == rs,
            found@.map_values(|w: Wrapper| w@) == decoded_runs(rs.subrange(0, k as int)),
    {
        assert(cands@[k as int]@ == rs[k as int]);
        assert(rs.subrange(0, k + 1).drop_last() =~= rs.subrange(0, k as int));
        let c = &cands[k];
        match decode_frame(c.run.as_slice(), c.start, c.length) {
            Some(w) => {
                let ghost old_found = found@;
                found.push(w);
                assert(found@.map_values(|w: Wrapper| w@) =~= old_found.map_values(
                    |w: Wrapper| w@,
                ).push(w@));
            },
            None => {},
        }
    }
    assert(rs.subrange(0, cands@.len() as int) =~= rs);
    found
}

/// Whether any marker is followed by a selector run bearing the magic, whether or not the
/// rest of the frame decodes.
pub(crate) fn has_candidate(text: &str) -> (r: bool)
    ensures
        r == spec_has_candidate(text@),
{
    let cs = text_chars(text);
    let n = text.as_bytes().len();
    assert(utf8(cs@).len() == n);
    let cands = scan(&cs);
    let ghost rs = runs(cs@);
    let mut seen = false;
    for k in 0..cands.len()
        invariant
            rs == runs(cs@),
            candidate_views(cands@) == rs,
            seen == exists|j: int| 0 <= j < k && #[trigger] has_magic(rs[j].bytes),
    {
        assert(cands@[k as int]@ == rs[k as int]);
        if magic_matches(cands[k].run.as_slice()) {
            assert(has_magic(rs[k as int].bytes));
            seen = true;
        } else {
            assert(!has_magic(rs[k as int].bytes));
        }
    }
    seen
}

/// The single valid wrapper in `text`.
///
/// Zero valid wrappers and no candidate at all is [`Error::NotFound`], the only outcome
/// meaning the text carries no provenance. More than one valid wrapper is
/// [`Error::MultipleWrappers`], and a candidate that fails to decode when no valid
/// wrapper was found is [`Error::CorruptedWrapper`]. A candidate that fails to decode
/// beside a valid wrapper is skipped rather than reported.
pub fn extract(text: &str) -> (r: Result<Wrapper, Error>)
    ensures
        match (r, spec_extract(text@)) {
            (Ok(w), Ok(v)) => w@ == v,
            (Err(e), Err(f)) => e == f,
            _ => false,
        },
{
    let mut found = locate_all(text);
    let ghost fv = found@.map_values(|w: Wrapper| w@);
    if found.len() == 1 {
        assert(fv[0] == found@[0]@);
        Ok(found.remove(0))
    } else if found.len() == 0 {
        if has_candidate(text) {
            Err(Error::CorruptedWrapper)
        } else {
            Err(Error::NotFound)
        }
    } else {
        Err(Error::MultipleWrappers)
    }
}

/// Remove the wrapper occupying `range` from `text`, returning the remaining text. The
/// caller normalizes afterwards; see [`crate::hardbinding`].
pub fn strip(text: &str, range: core::ops::Range<usize>) -> (r: Result<String, Error>)
    ensures
        ({
            let b = utf8(text@);
            let ok = range.start <= range.end <= b.len() && is_char_boundary(b, range.start as int)
                && is_char_boundary(b, range.end as int);
            match r {
                Ok(s) => ok && utf8(s@) == b.subrange(0, range.start as int) + b.subrange(
                    range.end as int,
                    b.len() as int,
                ),
                Err(e) => !ok && e == Error::MalformedExclusion,
            }
        }),
{
    let len = text.as_bytes().len();
    if range.end > len || range.start > range.end {
        return Err(Error::MalformedExclusion);
    }
    if !text.is_char_boundary(range.start) || !text.is_char_boundary(range.end) {
        return Err(Error::MalformedExclusion);
    }
    let (head, _) = text.split_at(range.start);
    let (_, tail) = text.split_at(range.end);
    let mut out = head.to_owned();
    out.append(tail);
    proof {
        lemma_utf8_concat(head@, tail@);
    }
    Ok(out)
}

/// Decode a bare selector run into bytes, rejecting any non-selector.
pub fn decode_exact(run: &str) -> (r: Result<Vec<u8>, Error>)
    ensures
        ({
            let all = forall|k: int| 0 <= k < run@.len() ==> #[trigger] is_selector(run@[k]);
            match r {
                Ok(v) => all && v@ == selector_bytes(run@),
                Err(e) => !all && e == Error::CorruptedWrapper,
            }
        }),
{
    let cs = text_chars(run);
    let mut out: Vec<u8> = Vec::new();
    for k in 0..cs.len()
        invariant
            cs@ == run@,
            out@ == selector_bytes(cs@.subrange(0, k as int)),
            forall|j: int| 0 <= j < k ==> #[trigger] is_selector(run@[j]),
    {
        match vs_to_byte(cs[k]) {
            Some(b) => {
                out.push(b);
                assert(out@ =~= selector_bytes(cs@.subrange(0, k + 1)));
            },
            None => {
                assert(!is_selector(run@[k as int]));
                return Err(Error::CorruptedWrapper);
            },
        }
    }
    assert(cs@.subrange(0, cs@.len() as int) =~= cs@);
    Ok(out)
}

} // verus!
