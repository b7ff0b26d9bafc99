//! The version 2 frame: the version 1 layout with `version = 2` and a truncated SHA-256
//! over `magic + version + length + payload` appended, so a mangled carrier is rejected
//! rather than decoded to wrong bytes.
//!
//! A version 2 wrapper is not a valid wrapper of the specified frame, so use it only where
//! both sides opt in.

use vstd::prelude::*;
use crate::error::Error;
use crate::hardbinding::{Algorithm, Hasher};
use crate::text::{bytes_equal, text_chars, utf8};
use super::{
    candidate_views, carry, carried, frame_bytes, framed_with, frame_bounds, has_candidate,
    has_header, declared_len, lemma_be32, lemma_carried_selectors, lemma_runs_append,
    has_magic, magic, runs, scan, spec_extract, spec_has_candidate, Run, Wrapper,
    WrapperView, CHECKSUM_LEN, HEADER_LEN, VERSION, VERSION_V2,
};

verus! {

/// The header and payload of a checksummed frame, before its checksum.
pub open spec fn body_v2(payload: Seq<u8>) -> Seq<u8> {
    framed_with(VERSION_V2, payload, seq![])
}

/// `body` followed by the first four bytes of `digest`, or `None` when the digest is shorter.
pub open spec fn spec_seal(body: Seq<u8>, digest: Seq<u8>) -> Option<Seq<u8>> {
    if digest.len() >= 4 {
        Some(body + digest.subrange(0, 4))
    } else {
        None
    }
}

/// The checksummed frame of `payload`: its body, then the first four bytes of the body's
/// SHA-256 digest.
pub open spec fn framed_v2<H: Hasher>(h: &H, payload: Seq<u8>) -> Seq<u8> {
    body_v2(payload) + h.spec_digest(Algorithm::Sha256, body_v2(payload)).subrange(0, 4)
}

/// Whether `f` is the body of `payload` followed by a four-byte checksum.
pub open spec fn sealed_body_of(payload: Seq<u8>, f: Seq<u8>) -> bool {
    f.len() == body_v2(payload).len() + 4 && f.subrange(0, body_v2(payload).len() as int)
        == body_v2(payload)
}

/// Where the body of a run ends, by its declared length.
pub open spec fn body_end(run: Seq<u8>) -> int {
    13 + declared_len(run) as int
}

/// Whether a run is shaped like a checksummed frame: the magic, version 2, and room for the
/// declared payload and a four-byte checksum. Its checksum is not looked at.
pub open spec fn is_v2_shaped(run: Seq<u8>) -> bool {
    has_header(run) && run[8] == VERSION_V2 && body_end(run) + 4 <= run.len()
}

/// The payload of a checksummed frame whose body has digest `digest`, or `None` when the
/// run is not shaped like one or its checksum is not the first four bytes of `digest`.
pub open spec fn spec_open_frame(run: Seq<u8>, digest: Seq<u8>) -> Option<Seq<u8>> {
    let end = body_end(run);
    if is_v2_shaped(run) && digest.len() >= 4 && run.subrange(end, end + 4) == digest.subrange(0, 4) {
        Some(run.subrange(13, end))
    } else {
        None
    }
}

/// How a run is read as a checksummed frame: it opens exactly when it starts with the
/// magic bytes and version 2, holds the payload its big-endian length in bytes 9 to 12
/// declares and four bytes after it, and those four bytes are the first four of the digest,
/// each one of them; the payload is then the declared bytes.
pub proof fn lemma_open_frame_reads(run: Seq<u8>, digest: Seq<u8>)
    ensures
        run.len() < 13 ==> spec_open_frame(run, digest) is None,
        run.len() >= 13 ==> ({
            let n = run[9] * 0x1000000 + run[10] * 0x10000 + run[11] * 0x100 + run[12];
            &&& spec_open_frame(run, digest) is Some <==> (run[0] == 0x43 && run[1] == 0x32
                && run[2] == 0x50 && run[3] == 0x41 && run[4] == 0x54 && run[5] == 0x58 && run[6]
                == 0x54 && run[7] == 0x00 && run[8] == 2 && 13 + n + 4 <= run.len()
                && digest.len() >= 4 && forall|i: int|
                0 <= i < 4 ==> #[trigger] run[13 + n + i] == digest[i])
            &&& spec_open_frame(run, digest) is Some ==> spec_open_frame(run, digest).unwrap().len()
                == n && forall|i: int|
                0 <= i < n ==> #[trigger] spec_open_frame(run, digest).unwrap()[i] == run[13 + i]
        }),
{
    if run.len() >= 13 {
        let m = run.subrange(0, 8);
        if run[0] == 0x43 && run[1] == 0x32 && run[2] == 0x50 && run[3] == 0x41 && run[4] == 0x54
            && run[5] == 0x58 && run[6] == 0x54 && run[7] == 0x00 {
            assert(m =~= magic());
        } else {
            assert(m[0] == run[0] && m[1] == run[1] && m[2] == run[2] && m[3] == run[3]);
            assert(m[4] == run[4] && m[5] == run[5] && m[6] == run[6] && m[7] == run[7]);
        }
        let n = run[9] * 0x1000000 + run[10] * 0x10000 + run[11] * 0x100 + run[12];
        let end = body_end(run);
        assert(end == 13 + n);
        if is_v2_shaped(run) && digest.len() >= 4 {
            let stored = run.subrange(end, end + 4);
            let wanted = digest.subrange(0, 4);
            if forall|i: int| 0 <= i < 4 ==> #[trigger] run[13 + n + i] == digest[i] {
                assert forall|k: int| 0 <= k < 4 implies stored[k] == wanted[k] by {
                    assert(run[13 + n + k] == digest[k]);
                }
                assert(stored =~= wanted);
            } else {
                let i = choose|i: int| 0 <= i < 4 && #[trigger] run[13 + n + i] != digest[i];
                assert(stored[i] == run[13 + n + i]);
                assert(stored[i] != wanted[i]);
            }
        }
    }
}

/// Sealing keeps the body and appends the first four digest bytes, in order; a digest of
/// fewer than four bytes cannot seal.
pub proof fn lemma_seal_layout(body: Seq<u8>, digest: Seq<u8>)
    ensures
        spec_seal(body, digest) is Some <==> digest.len() >= 4,
        spec_seal(body, digest) is Some ==> ({
            let f = spec_seal(body, digest).unwrap();
            &&& f.len() == body.len() + 4
            &&& forall|i: int| 0 <= i < body.len() ==> #[trigger] f[i] == body[i]
            &&& forall|i: int| 0 <= i < 4 ==> #[trigger] f[body.len() + i] == digest[i]
        }),
{
}

/// Changing any one of the four stored checksum bytes of a frame that opens makes it fail
/// to open against the same digest.
pub proof fn lemma_open_frame_tamper(run: Seq<u8>, digest: Seq<u8>, i: int, x: u8)
    requires
        spec_open_frame(run, digest) is Some,
        0 <= i < 4,
        x != run[body_end(run) + i],
    ensures
        spec_open_frame(run.update(body_end(run) + i, x), digest) is None,
{
    let t = run.update(body_end(run) + i, x);
    lemma_open_frame_reads(run, digest);
    lemma_open_frame_reads(t, digest);
    assert(t[9] == run[9] && t[10] == run[10] && t[11] == run[11] && t[12] == run[12]);
    assert(t[body_end(run) + i] == x);
}

/// The payload of a checksummed frame, checked against the SHA-256 digest of its body.
pub open spec fn spec_decode_frame_v2<H: Hasher>(h: &H, run: Seq<u8>) -> Option<Seq<u8>> {
    spec_open_frame(run, h.spec_digest(Algorithm::Sha256, run.subrange(0, body_end(run))))
}

/// The wrapper a run shaped like a checksummed frame describes, if its checksum holds.
pub open spec fn shaped_view(r: Run) -> WrapperView {
    WrapperView {
        payload: r.bytes.subrange(13, body_end(r.bytes)),
        version: VERSION_V2,
        start: r.start,
        length: r.length,
    }
}

/// Whether `w` is what some run of `rs` shaped like a checksummed frame describes.
pub open spec fn from_shaped_run(rs: Seq<Run>, w: WrapperView) -> bool {
    exists|j: int| 0 <= j < rs.len() && is_v2_shaped(rs[j].bytes) && #[trigger] shaped_view(rs[j]) == w
}

/// How many runs of `rs` are shaped like a checksummed frame.
pub open spec fn shaped_count(rs: Seq<Run>) -> nat
    decreases rs.len(),
{
    if rs.len() == 0 {
        0
    } else {
        shaped_count(rs.drop_last()) + if is_v2_shaped(rs.last().bytes) { 1nat } else { 0 }
    }
}

/// The runs that decode as checksummed wrappers, in order.
pub open spec fn decoded_runs_v2<H: Hasher>(h: &H, rs: Seq<Run>) -> Seq<WrapperView>
    decreases rs.len(),
{
    if rs.len() == 0 {
        seq![]
    } else {
        let rest = decoded_runs_v2(h, rs.drop_last());
        let r = rs.last();
        match spec_decode_frame_v2(h, r.bytes) {
            Some(p) => rest.push(
                WrapperView { payload: p, version: VERSION_V2, start: r.start, length: r.length },
            ),
            None => rest,
        }
    }
}

/// Every valid checksummed wrapper of `t`, in order of appearance.
pub open spec fn spec_locate_all_v2<H: Hasher>(h: &H, t: Seq<char>) -> Seq<WrapperView> {
    decoded_runs_v2(h, runs(t))
}

/// The outcome of locating the single checksummed wrapper of `t`.
pub open spec fn spec_extract_v2<H: Hasher>(h: &H, t: Seq<char>) -> Result<WrapperView, Error> {
    let found = spec_locate_all_v2(h, t);
    if found.len() == 1 {
        Ok(found[0])
    } else if found.len() == 0 {
        if spec_has_candidate(t) {
            Err(Error::CorruptedWrapper)
        } else {
            Err(Error::NotFound)
        }
    } else {
        Err(Error::MultipleWrappers)
    }
}

/// The outcome of accepting either frame version: a wrapper of the specified frame first;
/// more than one of them is rejected as multiple wrappers; otherwise a checksummed wrapper,
/// keeping the error of whichever pass saw a candidate.
pub open spec fn spec_extract_any<H: Hasher>(h: &H, t: Seq<char>) -> Result<WrapperView, Error> {
    match spec_extract(t) {
        Ok(w) => Ok(w),
        Err(Error::MultipleWrappers) => Err(Error::MultipleWrappers),
        Err(v1) => match spec_extract_v2(h, t) {
            Ok(w) => Ok(w),
            Err(Error::NotFound) => Err(v1),
            Err(v2) => Err(v2),
        },
    }
}

/// A checksummed frame decodes to its payload.
pub proof fn lemma_decode_framed_v2<H: Hasher>(h: &H, payload: Seq<u8>)
    requires
        payload.len() <= u32::MAX,
        h.spec_digest(Algorithm::Sha256, framed_with(VERSION_V2, payload, seq![])).len() >= 4,
    ensures
        spec_decode_frame_v2(h, framed_v2(h, payload)) == Some(payload),
{
    let body = framed_with(VERSION_V2, payload, seq![]);
    let f = framed_v2(h, payload);
    let head = magic() + seq![VERSION_V2] + super::be32(payload.len());
    lemma_be32(payload.len());
    assert(body =~= head + payload);
    assert(f.subrange(0, 8) =~= magic());
    assert(f[8] == VERSION_V2);
    assert(f[9] == head[9] && f[10] == head[10] && f[11] == head[11] && f[12] == head[12]);
    let head1 = magic() + seq![VERSION] + super::be32(payload.len());
    assert(head1[9] == head[9] && head1[10] == head[10] && head1[11] == head[11] && head1[12]
        == head[12]);
    assert(declared_len(f) == payload.len());
    let end = 13 + payload.len() as int;
    assert(f.subrange(0, end) =~= body);
    assert(f.subrange(end, end + 4) =~= h.spec_digest(Algorithm::Sha256, body).subrange(0, 4));
    assert(f.subrange(13, end) =~= payload);
}

/// Appending a carried checksummed frame to a text adds exactly one located checksummed
/// wrapper, after those the text already carried.
pub proof fn lemma_locate_all_v2_append<H: Hasher>(h: &H, t: Seq<char>, payload: Seq<u8>)
    requires
        payload.len() <= u32::MAX,
        h.spec_digest(Algorithm::Sha256, framed_with(VERSION_V2, payload, seq![])).len() >= 4,
    ensures
        spec_locate_all_v2(h, t + carried(framed_v2(h, payload))) == spec_locate_all_v2(h, t).push(
            WrapperView {
                payload: payload,
                version: VERSION_V2,
                start: utf8(t).len(),
                length: utf8(carried(framed_v2(h, payload))).len(),
            },
        ),
{
    let frame = framed_v2(h, payload);
    lemma_carried_selectors(t, frame);
    lemma_runs_append(t, frame, 0);
    lemma_decode_framed_v2(h, payload);
    let rs = runs(t + carried(frame));
    assert(rs.drop_last() =~= runs(t));
}

/// Text that carried no valid checksummed wrapper, with one embedded, yields it on extraction.
pub proof fn lemma_extract_v2_embedded<H: Hasher>(h: &H, t: Seq<char>, payload: Seq<u8>)
    requires
        payload.len() <= u32::MAX,
        h.spec_digest(Algorithm::Sha256, framed_with(VERSION_V2, payload, seq![])).len() >= 4,
        spec_locate_all_v2(h, t).len() == 0,
    ensures
        spec_extract_v2(h, t + carried(framed_v2(h, payload))) == Ok::<WrapperView, Error>(
            WrapperView {
                payload: payload,
                version: VERSION_V2,
                start: utf8(t).len(),
                length: utf8(carried(framed_v2(h, payload))).len(),
            },
        ),
{
    lemma_locate_all_v2_append(h, t, payload);
}

/// Seal `body` with the first four bytes of `digest`, the SHA-256 digest of `body`.
pub fn seal(body: &[u8], digest: &[u8]) -> (r: Result<Vec<u8>, Error>)
    ensures
        match spec_seal(body@, digest@) {
            Some(f) => r matches Ok(v) && v@ == f,
            None => r == Err::<Vec<u8>, Error>(Error::DigestTooShort(digest@.len() as usize)),
        },
{
    if digest.len() < CHECKSUM_LEN {
        return Err(Error::DigestTooShort(digest.len()));
    }
    let mut v = vstd::slice::slice_to_vec(body);
    for k in 0..CHECKSUM_LEN
        invariant
            digest@.len() >= CHECKSUM_LEN,
            v@ == body@ + digest@.subrange(0, k as int),
    {
        v.push(digest[k]);
        assert(v@ =~= body@ + digest@.subrange(0, k + 1));
    }
    Ok(v)
}

/// The payload of the checksummed frame `run`, given `digest`, the SHA-256 digest of the
/// run's body; `None` when the run is not shaped like such a frame or its checksum differs.
pub fn open_frame(run: &[u8], digest: &[u8]) -> (r: Option<Vec<u8>>)
    requires
        is_v2_shaped(run@),
    ensures
        match spec_open_frame(run@, digest@) {
            Some(p) => r matches Some(v) && v@ == p,
            None => r is None,
        },
{
    let end = HEADER_LEN + ((run[9] as u32) * 0x1000000 + (run[10] as u32) * 0x10000 + (run[11]
        as u32) * 0x100 + run[12] as u32) as usize;
    if digest.len() < CHECKSUM_LEN {
        return None;
    }
    let stored = vstd::slice::slice_subrange(run, end, end + CHECKSUM_LEN);
    let wanted = vstd::slice::slice_subrange(digest, 0, CHECKSUM_LEN);
    if !bytes_equal(stored, wanted) {
        return None;
    }
    Some(vstd::slice::slice_to_vec(vstd::slice::slice_subrange(run, HEADER_LEN, end)))
}

fn framed<H: Hasher>(payload: &[u8], hasher: &H) -> (r: Result<Vec<u8>, Error>)
    ensures
        payload@.len() > u32::MAX <==> r == Err::<Vec<u8>, Error>(
            Error::PayloadTooLarge(payload@.len() as usize),
        ),
        r matches Ok(v) ==> sealed_body_of(payload@, v@),
        r matches Err(e) ==> e is PayloadTooLarge || e is DigestTooShort,
        hasher.obeys_hasher_spec() && payload@.len() <= u32::MAX ==> match spec_seal(
            body_v2(payload@),
            hasher.spec_digest(Algorithm::Sha256, body_v2(payload@)),
        ) {
            Some(f) => r matches Ok(v) && v@ == f,
            None => r matches Err(e) && e is DigestTooShort,
        },
{
    if payload.len() > 0xffff_ffff {
        return Err(Error::PayloadTooLarge(payload.len()));
    }
    let empty: [u8; 0] = [];
    assert(empty@ =~= Seq::<u8>::empty());
    let body = frame_bytes(VERSION_V2, payload, &empty);
    let sum = hasher.digest(Algorithm::Sha256, body.as_slice());
    let r = seal(body.as_slice(), sum.as_slice());
    proof {
        if let Ok(v) = &r {
            assert(v@.subrange(0, body@.len() as int) =~= body@);
        }
    }
    r
}

/// Encode `payload` as a checksummed wrapper.
pub fn encode<H: Hasher>(payload: &[u8], hasher: &H) -> (r: Result<String, Error>)
    ensures
        payload@.len() > u32::MAX <==> r == Err::<String, Error>(
            Error::PayloadTooLarge(payload@.len() as usize),
        ),
        r matches Ok(s) ==> exists|f: Seq<u8>| sealed_body_of(payload@, f) && s@ == carried(f),
        r matches Err(e) ==> e is PayloadTooLarge || e is DigestTooShort,
        hasher.obeys_hasher_spec() && payload@.len() <= u32::MAX ==> match spec_seal(
            body_v2(payload@),
            hasher.spec_digest(Algorithm::Sha256, body_v2(payload@)),
        ) {
            Some(f) => r matches Ok(s) && s@ == carried(f),
            None => r matches Err(e) && e is DigestTooShort,
        },
{
    match framed(payload, hasher) {
        Ok(v) => {
            let s = carry(v.as_slice());
            assert(sealed_body_of(payload@, v@) && s@ == carried(v@));
            Ok(s)
        },
        Err(e) => Err(e),
    }
}

/// Append a checksummed wrapper carrying `payload` to `text`.
pub fn embed<H: Hasher>(text: &str, payload: &[u8], hasher: &H) -> (r: Result<String, Error>)
    ensures
        payload@.len() > u32::MAX <==> r == Err::<String, Error>(
            Error::PayloadTooLarge(payload@.len() as usize),
        ),
        r matches Ok(s) ==> exists|f: Seq<u8>|
            sealed_body_of(payload@, f) && s@ == text@ + carried(f),
        r matches Err(e) ==> e is PayloadTooLarge || e is DigestTooShort,
        hasher.obeys_hasher_spec() && payload@.len() <= u32::MAX ==> match spec_seal(
            body_v2(payload@),
            hasher.spec_digest(Algorithm::Sha256, body_v2(payload@)),
        ) {
            Some(f) => r matches Ok(s) && s@ == text@ + carried(f),
            None => r matches Err(e) && e is DigestTooShort,
        },
{
    match encode(payload, hasher) {
        Ok(w) => {
            let ghost f = choose|f: Seq<u8>| sealed_body_of(payload@, f) && w@ == carried(f);
            let mut out = text.to_owned();
            out.append(w.as_str());
            assert(sealed_body_of(payload@, f) && out@ == text@ + carried(f));
            Ok(out)
        },
        Err(e) => Err(e),
    }
}

fn decode<H: Hasher>(run: &[u8], start: usize, length: usize, hasher: &H) -> (r: Option<Wrapper>)
    ensures
        r matches Some(w) ==> is_v2_shaped(run@) && w@ == shaped_view(
            Run { bytes: run@, start: start as nat, length: length as nat },
        ),
        !is_v2_shaped(run@) ==> r is None,
        hasher.obeys_hasher_spec() ==> match spec_decode_frame_v2(hasher, run@) {
            Some(p) => r matches Some(w) && w@ == WrapperView {
                payload: p,
                version: VERSION_V2,
                start: start as nat,
                length: length as nat,
            },
            None => r is None,
        },
{
    let (body_end, _) = match frame_bounds(run) {
        Some(b) => b,
        None => {
            assert(run@.len() == run.len());
            return None;
        },
    };
    if run[8] != VERSION_V2 || run.len() < body_end || run.len() - body_end < CHECKSUM_LEN {
        return None;
    }
    let body = vstd::slice::slice_subrange(run, 0, body_end);
    let expected = hasher.digest(Algorithm::Sha256, body);
    match open_frame(run, expected.as_slice()) {
        Some(payload) => Some(Wrapper { payload, version: VERSION_V2, start, length }),
        None => None,
    }
}

/// Every valid checksummed wrapper in `text`, checksum verified.
pub fn locate_all<H: Hasher>(text: &str, hasher: &H) -> (r: Vec<Wrapper>)
    ensures
        forall|k: int| 0 <= k < r@.len() ==> from_shaped_run(runs(text@), #[trigger] r@[k]@),
        r@.len() <= shaped_count(runs(text@)),
        hasher.obeys_hasher_spec() ==> r@.map_values(|w: Wrapper| w@) == spec_locate_all_v2(
            hasher,
            text@,
        ),
{
    let cs = text_chars(text);
    let n = text.as_bytes().len();
    assert(utf8(cs@).len() == n);
    let cands = scan(&cs);
    let ghost rs = runs(cs@);
    let mut found: Vec<Wrapper> = Vec::new();
    for k in 0..cands.len()
        invariant
            rs == runs(cs@),
            cs@ == text@,
            candidate_views(cands@) == rs,
            forall|i: int| 0 <= i < found@.len() ==> from_shaped_run(rs, #[trigger] found@[i]@),
            found@.len() <= shaped_count(rs.subrange(0, k as int)),
            hasher.obeys_hasher_spec() ==> found@.map_values(|w: Wrapper| w@) == decoded_runs_v2(
                hasher,
                rs.subrange(0, k as int),
            ),
    {
        assert(cands@[k as int]@ == rs[k as int]);
        assert(rs.subrange(0, k + 1).drop_last() =~= rs.subrange(0, k as int));
        assert(rs.subrange(0, k + 1).last() == rs[k as int]);
        let c = &cands[k];
        match decode(c.run.as_slice(), c.start, c.length, hasher) {
            Some(w) => {
                let ghost old_found = found@;
                found.push(w);
                assert(shaped_view(rs[k as int]) == w@);
                assert(found@.map_values(|w: Wrapper| w@) =~= old_found.map_values(
                    |w: Wrapper| w@,
                ).push(w@));
                assert forall|i: int| 0 <= i < found@.len() implies from_shaped_run(
                    rs,
                    #[trigger] found@[i]@,
                ) by {
                    if i < old_found.len() {
                        assert(found@[i] == old_found[i]);
                    }
                }
            },
            None => {},
        }
    }
    assert(rs.subrange(0, cands@.len() as int) =~= rs);
    found
}

/// A shaped run bears the magic, so text with no candidate has no shaped run.
proof fn lemma_no_candidate_no_shaped(t: Seq<char>, w: WrapperView)
    requires
        !spec_has_candidate(t),
    ensures
        !from_shaped_run(runs(t), w),
{
    if from_shaped_run(runs(t), w) {
        let j = choose|j: int|
            0 <= j < runs(t).len() && is_v2_shaped(runs(t)[j].bytes) && #[trigger] shaped_view(
                runs(t)[j],
            ) == w;
        assert(has_magic(runs(t)[j].bytes));
    }
}

/// The single valid checksummed wrapper in `text`. A run whose checksum fails yields
/// [`Error::CorruptedWrapper`] rather than [`Error::NotFound`].
pub fn extract<H: Hasher>(text: &str, hasher: &H) -> (r: Result<Wrapper, Error>)
    ensures
        r == Err::<Wrapper, Error>(Error::NotFound) <==> !spec_has_candidate(text@),
        r matches Ok(w) ==> from_shaped_run(runs(text@), w@),
        r matches Err(e) ==> e is NotFound || e is CorruptedWrapper || e is MultipleWrappers,
        r == Err::<Wrapper, Error>(Error::MultipleWrappers) ==> shaped_count(runs(text@)) >= 2,
        shaped_count(runs(text@)) == 0 ==> r == (if spec_has_candidate(text@) {
            Err::<Wrapper, Error>(Error::CorruptedWrapper)
        } else {
            Err::<Wrapper, Error>(Error::NotFound)
        }),
        hasher.obeys_hasher_spec() ==> match (r, spec_extract_v2(hasher, text@)) {
            (Ok(w), Ok(v)) => w@ == v,
            (Err(e), Err(f)) => e == f,
            _ => false,
        },
{
    let mut found = locate_all(text, hasher);
    let ghost fv = found@.map_values(|w: Wrapper| w@);
    if found.len() == 1 {
        assert(fv[0] == found@[0]@);
        assert(from_shaped_run(runs(text@), found@[0]@));
        proof {
            if !spec_has_candidate(text@) {
                lemma_no_candidate_no_shaped(text@, found@[0]@);
            }
        }
        Ok(found.remove(0))
    } else if found.len() == 0 {
        if has_candidate(text) {
            Err(Error::CorruptedWrapper)
        } else {
            Err(Error::NotFound)
        }
    } else {
        assert(from_shaped_run(runs(text@), found@[0]@));
        proof {
            if !spec_has_candidate(text@) {
                lemma_no_candidate_no_shaped(text@, found@[0]@);
            }
        }
        Err(Error::MultipleWrappers)
    }
}

/// The single valid wrapper in `text`, accepting either frame version. The specified frame
/// is tried first, and more than one wrapper of it is rejected as multiple wrappers.
pub fn extract_any<H: Hasher>(text: &str, hasher: &H) -> (r: Result<Wrapper, Error>)
    ensures
        match spec_extract(text@) {
            Ok(v) => r matches Ok(w) && w@ == v,
            Err(Error::MultipleWrappers) => r == Err::<Wrapper, Error>(Error::MultipleWrappers),
            Err(e1) => {
                &&& (r == Err::<Wrapper, Error>(Error::NotFound) <==> !spec_has_candidate(text@))
                &&& (r matches Ok(w) ==> from_shaped_run(runs(text@), w@))
                &&& (r matches Err(e) ==> e is NotFound || e is CorruptedWrapper
                    || e is MultipleWrappers)
                &&& (r == Err::<Wrapper, Error>(Error::MultipleWrappers) ==> shaped_count(
                    runs(text@),
                ) >= 2)
                &&& (shaped_count(runs(text@)) == 0 ==> r == Err::<Wrapper, Error>(e1))
            },
        },
        hasher.obeys_hasher_spec() ==> match (r, spec_extract_any(hasher, text@)) {
            (Ok(w), Ok(v)) => w@ == v,
            (Err(e), Err(f)) => e == f,
            _ => false,
        },
{
    match super::extract(text) {
        Ok(w) => Ok(w),
        // More than one valid wrapper is a failure, not a reason to look further.
        Err(Error::MultipleWrappers) => Err(Error::MultipleWrappers),
        Err(v1) => match extract(text, hasher) {
            Ok(w) => Ok(w),
            // Neither frame decoded; keep whichever actually saw a candidate.
            Err(Error::NotFound) => Err(v1),
            Err(v2) => Err(v2),
        },
    }
}

} // verus!
