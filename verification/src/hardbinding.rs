//! The `c2pa.hash.data` hard binding for unstructured text.
//!
//! The exclusion ranges are byte offsets into the text **as stored**, before any
//! normalization. A validator removes the excluded bytes first, normalizes what
//! remains to NFC, encodes as UTF-8, and hashes that.
//!
//! Hashing and NFC are injected through [`Hasher`] and [`Normalizer`], so the
//! binding algorithm itself depends on neither. [`RustCrypto`] and
//! [`UnicodeNfc`] are ready-made implementations.

use vstd::prelude::*;
use vstd::utf8::{decode_utf8, encode_utf8_decode_utf8, is_char_boundary};
use crate::error::{Error, ErrorView};
use crate::text::{
    bytes_equal, decimal, lemma_boundary_in_suffix, lemma_byte_offset_is_boundary,
    lemma_utf8_concat, lemma_utf8_between, str_equal, string_from_chars, utf8, usize_to_decimal,
};
use crate::wrapper::{
    self, at_char_offsets, lemma_located_at_char_offsets, spec_extract, spec_locate_all,
};

mod provided;

pub use provided::{RustCrypto, UnicodeNfc};

verus! {

broadcast use vstd::string::group_string_axioms;

/// The assertion label for the hard binding.
pub const DATA_HASH_LABEL: &'static str = "c2pa.hash.data";

/// A byte range excluded from the data hash. Offsets are into the text as stored.
#[derive(Debug, Clone, Copy, PartialEq, Eq)]
pub struct Exclusion {
    pub start: usize,
    pub length: usize,
}

impl Exclusion {
    fn end(&self) -> (r: Option<usize>)
        ensures
            r is Some <==> self.start + self.length <= usize::MAX,
            r matches Some(e) ==> e == self.start + self.length,
    {
        self.start.checked_add(self.length)
    }
}

/// A C2PA-allowed hash algorithm for the data hash.
#[derive(Debug, Clone, Copy, PartialEq, Eq)]
pub enum Algorithm {
    Sha256,
    Sha384,
    Sha512,
}

/// The C2PA identifier of an algorithm.
pub open spec fn spec_alg_id(a: Algorithm) -> Seq<char> {
    match a {
        Algorithm::Sha256 => "sha256"@,
        Algorithm::Sha384 => "sha384"@,
        Algorithm::Sha512 => "sha512"@,
    }
}

/// The algorithm named by a C2PA identifier, if it is on the allowed list.
pub open spec fn spec_from_id(id: Seq<char>) -> Option<Algorithm> {
    if id == "sha256"@ {
        Some(Algorithm::Sha256)
    } else if id == "sha384"@ {
        Some(Algorithm::Sha384)
    } else if id == "sha512"@ {
        Some(Algorithm::Sha512)
    } else {
        None
    }
}

impl Algorithm {
    /// The C2PA algorithm identifier used in the `alg` field.
    pub fn id(self) -> (r: &'static str)
        ensures
            r@ == spec_alg_id(self),
    {
        match self {
            Algorithm::Sha256 => "sha256",
            Algorithm::Sha384 => "sha384",
            Algorithm::Sha512 => "sha512",
        }
    }

    /// The algorithm named by `id`, or [`Error::UnsupportedAlgorithm`] naming it.
    pub fn from_id(id: &str) -> (r: Result<Self, Error>)
        ensures
            match spec_from_id(id@) {
                Some(a) => r == Ok::<Algorithm, Error>(a),
                None => r matches Err(e) && e@ == ErrorView::UnsupportedAlgorithm(id@),
            },
    {
        if str_equal(id, "sha256") {
            Ok(Algorithm::Sha256)
        } else if str_equal(id, "sha384") {
            Ok(Algorithm::Sha384)
        } else if str_equal(id, "sha512") {
            Ok(Algorithm::Sha512)
        } else {
            Err(Error::UnsupportedAlgorithm(id.to_owned()))
        }
    }
}

/// Identifiers and algorithms correspond one to one.
pub proof fn lemma_id_round_trip(a: Algorithm)
    ensures
        spec_from_id(spec_alg_id(a)) == Some(a),
{
    reveal_strlit("sha256");
    reveal_strlit("sha384");
    reveal_strlit("sha512");
    assert("sha256"@ != "sha384"@) by {
        assert("sha256"@[5] != "sha384"@[5]);
    }
    assert("sha256"@ != "sha512"@) by {
        assert("sha256"@[5] != "sha512"@[5]);
    }
    assert("sha384"@ != "sha512"@) by {
        assert("sha384"@[5] != "sha512"@[5]);
    }
}

/// A digest implementation, supplied by the caller.
///
/// An implementation that states what it computes sets `obeys_hasher_spec` and gives
/// `spec_digest` and `spec_output_len`; the contracts of this crate then speak of its
/// digests. An implementation that does not is called all the same, and nothing is
/// claimed of what it returns.
pub trait Hasher {
    /// Whether `digest` computes `spec_digest`, with output length `spec_output_len`.
    open spec fn obeys_hasher_spec(&self) -> bool {
        false
    }

    /// The digest of `data` under `alg`.
    open spec fn spec_digest(&self, alg: Algorithm, data: Seq<u8>) -> Seq<u8> {
        Seq::empty()
    }

    /// The output length of `alg`.
    open spec fn spec_output_len(&self, alg: Algorithm) -> nat {
        0
    }

    fn digest(&self, alg: Algorithm, data: &[u8]) -> (r: Vec<u8>)
        ensures
            self.obeys_hasher_spec() ==> r@ == self.spec_digest(alg, data@) && r@.len()
                == self.spec_output_len(alg),
    ;
}

/// A Unicode NFC normalizer, supplied by the caller.
///
/// An implementation that states what it computes sets `obeys_normalizer_spec` and gives
/// `spec_nfc`; otherwise it is called all the same and nothing is claimed of its result.
pub trait Normalizer {
    /// Whether `nfc` computes `spec_nfc`.
    open spec fn obeys_normalizer_spec(&self) -> bool {
        false
    }

    /// The NFC form of `text`.
    open spec fn spec_nfc(&self, text: Seq<char>) -> Seq<char> {
        text
    }

    fn nfc(&self, text: &str) -> (r: String)
        ensures
            self.obeys_normalizer_spec() ==> r@ == self.spec_nfc(text@),
    ;
}

/// A computed `c2pa.hash.data` assertion.
#[derive(Debug, Clone, PartialEq, Eq)]
pub struct DataHash {
    pub exclusions: Vec<Exclusion>,
    pub alg: String,
    pub hash: Vec<u8>,
    pub name: Option<String>,
}

/// The abstract content of a data hash assertion.
pub struct DataHashView {
    pub exclusions: Seq<Exclusion>,
    pub alg: Seq<char>,
    pub hash: Seq<u8>,
    pub name: Option<Seq<char>>,
}

impl View for DataHash {
    type V = DataHashView;

    open spec fn view(&self) -> DataHashView {
        DataHashView {
            exclusions: self.exclusions@,
            alg: self.alg@,
            hash: self.hash@,
            name: match self.name {
                Some(n) => Some(n@),
                None => None,
            },
        }
    }
}

/* ---------------------------------------------------------------- JSON and Base64 */

/// The Base64 alphabet of RFC 4648 §4.
pub open spec fn b64_char(i: nat) -> char {
    if i < 26 {
        (65 + i) as char
    } else if i < 52 {
        (97 + (i - 26)) as char
    } else if i < 62 {
        (48 + (i - 52)) as char
    } else if i == 62 {
        '+'
    } else {
        '/'
    }
}

/// The four Base64 characters of a chunk of one to three bytes, padded with `=`.
pub open spec fn b64_quad(chunk: Seq<u8>) -> Seq<char> {
    let b0 = chunk[0] as nat;
    let b1 = if chunk.len() > 1 { chunk[1] as nat } else { 0 };
    let b2 = if chunk.len() > 2 { chunk[2] as nat } else { 0 };
    let n = b0 * 0x10000 + b1 * 0x100 + b2;
    seq![
        b64_char((n / 0x40000) % 64),
        b64_char((n / 0x1000) % 64),
        if chunk.len() > 1 { b64_char((n / 0x40) % 64) } else { '=' },
        if chunk.len() > 2 { b64_char(n % 64) } else { '=' },
    ]
}

/// Standard Base64 (RFC 4648 §4, with padding) of `bytes`.
pub open spec fn spec_base64(bytes: Seq<u8>) -> Seq<char>
    decreases bytes.len(),
{
    if bytes.len() == 0 {
        seq![]
    } else {
        let k = if bytes.len() < 3 { bytes.len() as int } else { 3 };
        b64_quad(bytes.subrange(0, k)) + spec_base64(bytes.subrange(k, bytes.len() as int))
    }
}

/// Base64 turns every started group of three bytes into four characters.
pub proof fn lemma_base64_len(bytes: Seq<u8>)
    ensures
        spec_base64(bytes).len() == 4 * ((bytes.len() + 2) / 3),
    decreases bytes.len(),
{
    if bytes.len() > 0 {
        let k = if bytes.len() < 3 { bytes.len() as int } else { 3 };
        lemma_base64_len(bytes.subrange(k, bytes.len() as int));
    }
}

/// Base64 of bytes split at a multiple of three is the Base64 of each part, joined.
pub proof fn lemma_base64_split(x: Seq<u8>, y: Seq<u8>)
    requires
        x.len() % 3 == 0,
    ensures
        spec_base64(x + y) == spec_base64(x) + spec_base64(y),
    decreases x.len(),
{
    if x.len() == 0 {
        assert(x + y =~= y);
        assert(spec_base64(x) + spec_base64(y) =~= spec_base64(y));
    } else {
        let xy = x + y;
        let rest = x.subrange(3, x.len() as int);
        assert(xy.subrange(0, 3) =~= x.subrange(0, 3));
        assert(xy.subrange(3, xy.len() as int) =~= rest + y);
        lemma_base64_split(rest, y);
        assert(spec_base64(xy) =~= spec_base64(x) + spec_base64(y));
    }
}

/// Whether `c` is one of the 64 characters of the Base64 alphabet: `A-Z`, `a-z`, `0-9`,
/// `+` and `/`.
pub open spec fn is_b64_alphabet(c: char) -> bool {
    ||| 65 <= c as u32 <= 90
    ||| 97 <= c as u32 <= 122
    ||| 48 <= c as u32 <= 57
    ||| c == '+'
    ||| c == '/'
}

proof fn lemma_b64_char_alphabet(i: nat)
    requires
        i < 64,
    ensures
        is_b64_alphabet(b64_char(i)),
        b64_char(i) != '=',
{
}

proof fn lemma_quad_alphabet(chunk: Seq<u8>)
    requires
        1 <= chunk.len() <= 3,
    ensures
        b64_quad(chunk).len() == 4,
        is_b64_alphabet(b64_quad(chunk)[0]),
        is_b64_alphabet(b64_quad(chunk)[1]),
        chunk.len() > 1 ==> is_b64_alphabet(b64_quad(chunk)[2]),
        chunk.len() == 1 ==> b64_quad(chunk)[2] == '=',
        chunk.len() > 2 ==> is_b64_alphabet(b64_quad(chunk)[3]),
        chunk.len() <= 2 ==> b64_quad(chunk)[3] == '=',
{
    let b0 = chunk[0] as nat;
    let b1 = if chunk.len() > 1 { chunk[1] as nat } else { 0 };
    let b2 = if chunk.len() > 2 { chunk[2] as nat } else { 0 };
    let n = b0 * 0x10000 + b1 * 0x100 + b2;
    lemma_b64_char_alphabet((n / 0x40000) % 64);
    lemma_b64_char_alphabet((n / 0x1000) % 64);
    lemma_b64_char_alphabet((n / 0x40) % 64);
    lemma_b64_char_alphabet(n % 64);
}

/// The Base64 digits in order (RFC 4648 §4, Table 1): indices 0 to 25 are `A` to `Z`,
/// 26 to 51 are `a` to `z`, 52 to 61 are `0` to `9`, then `+` and `/`.
pub proof fn lemma_b64_digit_order(i: nat)
    requires
        i < 64,
    ensures
        i < 26 ==> b64_char(i) as u32 == 'A' as u32 + i,
        26 <= i < 52 ==> b64_char(i) as u32 == 'a' as u32 + (i - 26),
        52 <= i < 62 ==> b64_char(i) as u32 == '0' as u32 + (i - 52),
        i == 62 ==> b64_char(i) == '+',
        i == 63 ==> b64_char(i) == '/',
{
}

proof fn lemma_sextets(x: nat, y: nat, z: nat)
    requires
        x < 256,
        y < 256,
        z < 256,
    ensures
        ((x * 0x10000 + y * 0x100 + z) / 0x40000) % 64 == x / 4,
        ((x * 0x10000 + y * 0x100 + z) / 0x1000) % 64 == (x % 4) * 16 + y / 16,
        ((x * 0x10000 + y * 0x100 + z) / 0x40) % 64 == (y % 16) * 4 + z / 64,
        (x * 0x10000 + y * 0x100 + z) % 64 == z % 64,
{
    let n = x * 0x10000 + y * 0x100 + z;
    assert(n / 0x40000 == x / 4 && n / 0x40000 < 64) by (nonlinear_arith)
        requires
            n == x * 0x10000 + y * 0x100 + z,
            x < 256,
            y < 256,
            z < 256,
    ;
    assert(n / 0x1000 == x * 16 + y / 16) by (nonlinear_arith)
        requires
            n == x * 0x10000 + y * 0x100 + z,
            y < 256,
            z < 256,
    ;
    assert((x * 16 + y / 16) % 64 == (x % 4) * 16 + y / 16) by (nonlinear_arith)
        requires
            y < 256,
    ;
    assert(n / 0x40 == x * 0x400 + y * 4 + z / 64) by (nonlinear_arith)
        requires
            n == x * 0x10000 + y * 0x100 + z,
            z < 256,
    ;
    assert((x * 0x400 + y * 4 + z / 64) % 64 == (y % 16) * 4 + z / 64) by (nonlinear_arith)
        requires
            z < 256,
    ;
    assert(n % 64 == z % 64) by (nonlinear_arith)
        requires
            n == x * 0x10000 + y * 0x100 + z,
    ;
}

/// Base64 of one group, bit by bit: three bytes `x y z` give the digits of the six-bit
/// groups `x >> 2`, `(x & 3) << 4 | y >> 4`, `(y & 15) << 2 | z >> 6` and `z & 63`; a group
/// of one or two bytes is filled out with zero bits and `=`.
pub proof fn lemma_base64_group(x: u8, y: u8, z: u8)
    ensures
        spec_base64(seq![x, y, z]) == seq![
            b64_char(x as nat / 4),
            b64_char((x as nat % 4) * 16 + y as nat / 16),
            b64_char((y as nat % 16) * 4 + z as nat / 64),
            b64_char(z as nat % 64),
        ],
        spec_base64(seq![x, y]) == seq![
            b64_char(x as nat / 4),
            b64_char((x as nat % 4) * 16 + y as nat / 16),
            b64_char((y as nat % 16) * 4),
            '=',
        ],
        spec_base64(seq![x]) == seq![b64_char(x as nat / 4), b64_char((x as nat % 4) * 16), '=', '='],
{
    let s3 = seq![x, y, z];
    let s2 = seq![x, y];
    let s1 = seq![x];
    assert(s3.subrange(0, 3) =~= s3);
    assert(s3.subrange(3, 3) =~= Seq::<u8>::empty());
    assert(s2.subrange(0, 2) =~= s2);
    assert(s2.subrange(2, 2) =~= Seq::<u8>::empty());
    assert(s1.subrange(0, 1) =~= s1);
    assert(s1.subrange(1, 1) =~= Seq::<u8>::empty());
    lemma_sextets(x as nat, y as nat, z as nat);
    lemma_sextets(x as nat, y as nat, 0);
    lemma_sextets(x as nat, 0, 0);
    assert(spec_base64(s3.subrange(3, 3)) == Seq::<char>::empty());
    assert(spec_base64(s3) == b64_quad(s3.subrange(0, 3)) + spec_base64(s3.subrange(3, 3)));
    assert(spec_base64(s3) =~= b64_quad(s3));
    assert(spec_base64(s2) =~= b64_quad(s2));
    assert(spec_base64(s1) =~= b64_quad(s1));
}

/// Base64 text holds only alphabet characters, except for the `=` padding, which fills
/// the last character when the byte count is not a multiple of three, and the last two
/// when it leaves one byte over.
pub proof fn lemma_base64_alphabet(bytes: Seq<u8>)
    ensures
        forall|j: int|
            0 <= j < spec_base64(bytes).len() ==> is_b64_alphabet(#[trigger] spec_base64(bytes)[j])
                || (spec_base64(bytes)[j] == '=' && j >= spec_base64(bytes).len() - 2),
        spec_base64(bytes).len() > 0 ==> (spec_base64(bytes).last() == '=' <==> bytes.len() % 3
            != 0),
        spec_base64(bytes).len() > 0 ==> (spec_base64(bytes)[spec_base64(bytes).len() - 2] == '='
            <==> bytes.len() % 3 == 1),
    decreases bytes.len(),
{
    lemma_base64_len(bytes);
    if bytes.len() > 0 {
        let k = if bytes.len() < 3 { bytes.len() as int } else { 3 };
        let chunk = bytes.subrange(0, k);
        let rest = bytes.subrange(k, bytes.len() as int);
        let q = b64_quad(chunk);
        let s = spec_base64(bytes);
        lemma_base64_alphabet(rest);
        lemma_base64_len(rest);
        lemma_quad_alphabet(chunk);
        assert(s == q + spec_base64(rest));
        if rest.len() == 0 {
            assert(spec_base64(rest).len() == 0);
            assert(s =~= q);
        } else {
            assert(k == 3);
            assert(rest.len() % 3 == bytes.len() % 3);
            assert(s.last() == spec_base64(rest).last());
            assert(s[s.len() - 2] == spec_base64(rest)[spec_base64(rest).len() - 2]);
        }
        assert forall|j: int| 0 <= j < s.len() implies is_b64_alphabet(#[trigger] s[j]) || (s[j]
            == '=' && j >= s.len() - 2) by {
            if j >= 4 {
                assert(s[j] == spec_base64(rest)[j - 4]);
            }
        }
    }
}

/// The JSON object of one exclusion range.
pub open spec fn exclusion_json(e: Exclusion) -> Seq<char> {
    "{\"start\":"@ + decimal(e.start as nat) + ",\"length\":"@ + decimal(e.length as nat) + "}"@
}

/// The exclusion objects, separated by commas.
pub open spec fn exclusions_json(es: Seq<Exclusion>) -> Seq<char>
    decreases es.len(),
{
    if es.len() == 0 {
        seq![]
    } else if es.len() == 1 {
        exclusion_json(es[0])
    } else {
        exclusions_json(es.drop_last()) + ","@ + exclusion_json(es.last())
    }
}

/// The JSON shape of a data hash assertion, matching the `data-hash-map` CDDL.
pub open spec fn spec_to_json(d: DataHashView) -> Seq<char> {
    "{\"exclusions\":["@ + exclusions_json(d.exclusions) + "],\"alg\":\""@ + d.alg
        + "\",\"hash\":\""@ + spec_base64(d.hash) + "\""@ + match d.name {
        Some(n) => ",\"name\":\""@ + n + "\""@,
        None => seq![],
    } + "}"@
}

fn b64_digit(i: u32) -> (c: char)
    requires
        i < 64,
    ensures
        c == b64_char(i as nat),
{
    if i < 26 {
        (65 + i as u8) as char
    } else if i < 52 {
        (97 + (i - 26) as u8) as char
    } else if i < 62 {
        (48 + (i - 52) as u8) as char
    } else if i == 62 {
        '+'
    } else {
        '/'
    }
}

/// Standard Base64 (RFC 4648 §4, with padding). Encode only.
pub fn base64(bytes: &[u8]) -> (s: String)
    ensures
        s@ == spec_base64(bytes@),
{
    let mut out: Vec<char> = Vec::new();
    let mut i: usize = 0;
    let n = bytes.len();
    assert(bytes@.subrange(0, n as int) =~= bytes@);
    assert(out@ + spec_base64(bytes@) =~= spec_base64(bytes@));
    while i < n
        invariant
            i <= n == bytes@.len(),
            spec_base64(bytes@) == out@ + spec_base64(bytes@.subrange(i as int, n as int)),
        decreases n - i,
    {
        let k: usize = if n - i < 3 { n - i } else { 3 };
        let ghost rest = bytes@.subrange(i as int, n as int);
        let ghost chunk = rest.subrange(0, k as int);
        let b0 = bytes[i] as u32;
        let b1 = if k > 1 { bytes[i + 1] as u32 } else { 0 };
        let b2 = if k > 2 { bytes[i + 2] as u32 } else { 0 };
        assert(chunk[0] == bytes@[i as int]);
        assert(k > 1 ==> chunk[1] == bytes@[i + 1]);
        assert(k > 2 ==> chunk[2] == bytes@[i + 2]);
        let v = b0 * 0x10000 + b1 * 0x100 + b2;
        let ghost before = out@;
        out.push(b64_digit((v / 0x40000) % 64));
        out.push(b64_digit((v / 0x1000) % 64));
        out.push(if k > 1 { b64_digit((v / 0x40) % 64) } else { '=' });
        out.push(if k > 2 { b64_digit(v % 64) } else { '=' });
        assert(out@ =~= before + b64_quad(chunk));
        assert(rest.subrange(k as int, rest.len() as int) =~= bytes@.subrange(i + k, n as int));
        i = i + k;
    }
    assert(bytes@.subrange(n as int, n as int) =~= Seq::<u8>::empty());
    assert(out@ + Seq::<char>::empty() =~= out@);
    string_from_chars(out.as_slice())
}

fn exclusion_to_json(e: Exclusion) -> (s: String)
    ensures
        s@ == exclusion_json(e),
{
    let mut s = String::from_str("{\"start\":");
    let a = usize_to_decimal(e.start);
    s.append(a.as_str());
    s.append(",\"length\":");
    let b = usize_to_decimal(e.length);
    s.append(b.as_str());
    s.append("}");
    s
}

impl DataHash {
    /// The assertion label, `c2pa.hash.data`.
    pub fn label(&self) -> (r: &'static str)
        ensures
            r@ == "c2pa.hash.data"@,
    {
        DATA_HASH_LABEL
    }

    /// Serialise to the JSON shape consumed when building a manifest, with the hash as
    /// standard Base64.
    pub fn to_json(&self) -> (s: String)
        ensures
            s@ == spec_to_json(self@),
    {
        let mut json = String::from_str("{\"exclusions\":[");
        let ghost start = json@;
        for k in 0..self.exclusions.len()
            invariant
                start == "{\"exclusions\":["@,
                json@ == start + exclusions_json(self.exclusions@.subrange(0, k as int)),
        {
            let ghost es = self.exclusions@.subrange(0, k + 1);
            assert(es.drop_last() =~= self.exclusions@.subrange(0, k as int));
            assert(es.last() == self.exclusions@[k as int]);
            if k > 0 {
                json.append(",");
            } else {
                assert(self.exclusions@.subrange(0, 0) =~= Seq::<Exclusion>::empty());
                assert(es =~= seq![self.exclusions@[0]]);
            }
            let piece = exclusion_to_json(self.exclusions[k]);
            json.append(piece.as_str());
            assert(json@ =~= start + exclusions_json(es));
        }
        assert(self.exclusions@.subrange(0, self.exclusions@.len() as int) =~= self.exclusions@);
        json.append("],\"alg\":\"");
        json.append(self.alg.as_str());
        json.append("\",\"hash\":\"");
        let h = base64(self.hash.as_slice());
        json.append(h.as_str());
        json.append("\"");
        let ghost before_name = json@;
        match &self.name {
            Some(name) => {
                json.append(",\"name\":\"");
                json.append(name.as_str());
                json.append("\"");
            },
            None => {
                assert(before_name + Seq::<char>::empty() =~= before_name);
            },
        }
        json.append("}");
        json
    }
}

/* ---------------------------------------------------------------- coverage */

/// The bytes of `b` from `cursor` on with the ranges `exs` removed, or `None` when the ranges
/// are malformed: out of order, overlapping, past the end, or not on character boundaries.
pub open spec fn spec_excluded(b: Seq<u8>, exs: Seq<Exclusion>, cursor: int) -> Option<Seq<u8>>
    decreases exs.len(),
{
    if exs.len() == 0 {
        Some(b.subrange(cursor, b.len() as int))
    } else {
        let ex = exs[0];
        let end = ex.start + ex.length;
        if end > usize::MAX || ex.start < cursor || end > b.len() || !is_char_boundary(
            b,
            ex.start as int,
        ) || !is_char_boundary(b, end) {
            None
        } else {
            match spec_excluded(b, exs.drop_first(), end) {
                Some(rest) => Some(b.subrange(cursor, ex.start as int) + rest),
                None => None,
            }
        }
    }
}

/// The bytes the data hash covers: `t` with `exs` removed, normalized to NFC, as UTF-8.
pub open spec fn spec_hashed_bytes<N: Normalizer>(n: &N, t: Seq<char>, exs: Seq<Exclusion>) -> Option<Seq<u8>> {
    match spec_excluded(utf8(t), exs, 0) {
        Some(kept) => Some(utf8(n.spec_nfc(decode_utf8(kept)))),
        None => None,
    }
}

/// The single exclusion range covering the located wrapper, marker included.
pub open spec fn spec_manifest_exclusion(t: Seq<char>) -> Result<Exclusion, Error> {
    match spec_extract(t) {
        Ok(w) => Ok(Exclusion { start: w.start as usize, length: w.length as usize }),
        Err(e) => Err(e),
    }
}

/// The binding computed over `t` with `alg`.
pub open spec fn spec_compute<H: Hasher, N: Normalizer>(
    h: &H,
    n: &N,
    t: Seq<char>,
    alg: Algorithm,
) -> Result<DataHashView, ErrorView> {
    match spec_manifest_exclusion(t) {
        Err(e) => Err(e@),
        Ok(ex) => match spec_hashed_bytes(n, t, seq![ex]) {
            Some(covered) => Ok(
                DataHashView {
                    exclusions: seq![ex],
                    alg: spec_alg_id(alg),
                    hash: h.spec_digest(alg, covered),
                    name: None,
                },
            ),
            None => Err(ErrorView::MalformedExclusion),
        },
    }
}

/// The checks a binding `d` must pass against `t` before any digest is compared: a
/// non-empty exclusion list, an allowed algorithm, and a located wrapper whose byte range is
/// exactly the list. On success, the algorithm named.
pub open spec fn spec_verify_checks(t: Seq<char>, d: DataHashView) -> Result<Algorithm, ErrorView> {
    if d.exclusions.len() == 0 {
        Err(ErrorView::MalformedExclusion)
    } else {
        match spec_from_id(d.alg) {
            None => Err(ErrorView::UnsupportedAlgorithm(d.alg)),
            Some(alg) => match spec_manifest_exclusion(t) {
                Err(e) => Err(e@),
                Ok(located) => if d.exclusions != seq![located] {
                    Err(ErrorView::MalformedExclusion)
                } else {
                    Ok(alg)
                },
            },
        }
    }
}

/// The outcome of verifying the binding `d` against `t`, for a hasher and a normalizer that
/// state what they compute.
pub open spec fn spec_verify<H: Hasher, N: Normalizer>(
    h: &H,
    n: &N,
    t: Seq<char>,
    d: DataHashView,
) -> Result<(), ErrorView> {
    match spec_verify_checks(t, d) {
        Err(e) => Err(e),
        Ok(alg) => if h.spec_digest(alg, spec_hashed_bytes(n, t, d.exclusions).unwrap()) == d.hash {
            Ok(())
        } else {
            Err(ErrorView::HashMismatch)
        },
    }
}

/// The single exclusion range covering the located wrapper, marker included.
pub fn manifest_exclusion(text: &str) -> (r: Result<Exclusion, Error>)
    ensures
        r == spec_manifest_exclusion(text@),
{
    match wrapper::extract(text) {
        Ok(w) => Ok(Exclusion { start: w.start, length: w.length }),
        Err(e) => Err(e),
    }
}

/// Remove `exclusions` from `text`, validating that they are ordered, non-overlapping,
/// within bounds, and on character boundaries.
pub fn apply_exclusions(text: &str, exclusions: &[Exclusion]) -> (r: Result<String, Error>)
    ensures
        match spec_excluded(utf8(text@), exclusions@, 0) {
            Some(kept) => r matches Ok(s) && utf8(s@) == kept,
            None => r == Err::<String, Error>(Error::MalformedExclusion),
        },
{
    let ghost b = utf8(text@);
    let len = text.as_bytes().len();
    let mut cursor: usize = 0;
    let mut out = String::new();
    proof {
        vstd::utf8::encode_utf8_valid_utf8(text@);
        vstd::utf8::is_char_boundary_start_end_of_seq(b);
        assert(b.subrange(0, 0) =~= Seq::<u8>::empty());
        assert(exclusions@.subrange(0, exclusions@.len() as int) =~= exclusions@);
        assert(utf8(out@) =~= Seq::<u8>::empty());
        if let Some(rest) = spec_excluded(b, exclusions@, 0) {
            assert(utf8(out@) + rest =~= rest);
        }
    }
    for k in 0..exclusions.len()
        invariant
            b == utf8(text@),
            len == b.len(),
            cursor <= len,
            is_char_boundary(b, cursor as int),
            spec_excluded(b, exclusions@, 0) == match spec_excluded(
                b,
                exclusions@.subrange(k as int, exclusions@.len() as int),
                cursor as int,
            ) {
                Some(rest) => Some(utf8(out@) + rest),
                None => None::<Seq<u8>>,
            },
    {
        let ex = exclusions[k];
        let ghost exs = exclusions@.subrange(k as int, exclusions@.len() as int);
        assert(exs[0] == ex);
        assert(exs.drop_first() =~= exclusions@.subrange(k + 1, exclusions@.len() as int));
        let end = match ex.end() {
            Some(e) => e,
            None => return Err(Error::MalformedExclusion),
        };
        if ex.start < cursor || end > len {
            return Err(Error::MalformedExclusion);
        }
        if !text.is_char_boundary(ex.start) || !text.is_char_boundary(end) {
            return Err(Error::MalformedExclusion);
        }
        proof {
            lemma_boundary_in_suffix(text@, cursor as int, ex.start as int);
        }
        let (_, rest) = text.split_at(cursor);
        let (piece, _) = rest.split_at(ex.start - cursor);
        let ghost before = out@;
        out.append(piece);
        proof {
            lemma_utf8_concat(before, piece@);
            assert(utf8(piece@) =~= b.subrange(cursor as int, ex.start as int));
            assert(utf8(out@) =~= utf8(before) + b.subrange(cursor as int, ex.start as int));
        }
        cursor = end;
    }
    let (_, tail) = text.split_at(cursor);
    let ghost before = out@;
    out.append(tail);
    proof {
        lemma_utf8_concat(before, tail@);
        assert(exclusions@.subrange(exclusions@.len() as int, exclusions@.len() as int)
            =~= Seq::<Exclusion>::empty());
    }
    Ok(out)
}

/// The exact bytes the data hash covers: `text` with `exclusions` removed, then normalized
/// to NFC and encoded as UTF-8.
pub fn hashed_bytes<N: Normalizer>(text: &str, exclusions: &[Exclusion], normalizer: &N) -> (r:
    Result<Vec<u8>, Error>)
    ensures
        match spec_excluded(utf8(text@), exclusions@, 0) {
            Some(kept) => r matches Ok(v) && (normalizer.obeys_normalizer_spec() ==> v@ == utf8(
                normalizer.spec_nfc(decode_utf8(kept)),
            )),
            None => r == Err::<Vec<u8>, Error>(Error::MalformedExclusion),
        },
{
    let stripped = match apply_exclusions(text, exclusions) {
        Ok(s) => s,
        Err(e) => return Err(e),
    };
    proof {
        encode_utf8_decode_utf8(stripped@);
    }
    let normalized = normalizer.nfc(stripped.as_str());
    Ok(vstd::slice::slice_to_vec(normalized.as_str().as_bytes()))
}

/// The located wrapper's range is always a well-formed exclusion of the text.
pub proof fn lemma_located_exclusion_applies(t: Seq<char>)
    requires
        spec_manifest_exclusion(t) is Ok,
        utf8(t).len() <= usize::MAX,
    ensures
        ({
            let ex = spec_manifest_exclusion(t)->Ok_0;
            let b = utf8(t);
            &&& ex.start + ex.length <= b.len()
            &&& spec_excluded(b, seq![ex], 0) == Some(
                b.subrange(0, ex.start as int) + b.subrange(ex.start + ex.length, b.len() as int),
            )
        }),
{
    let w = spec_locate_all(t)[0];
    lemma_located_at_char_offsets(t);
    assert(at_char_offsets(t, w.start, w.length));
    let (i, j) = choose|i: int, j: int|
        0 <= i <= j <= t.len() && #[trigger] crate::text::byte_offset(t, i) == w.start
            && #[trigger] crate::text::byte_offset(t, j) == w.start + w.length;
    lemma_utf8_between(t, i, j);
    lemma_utf8_between(t, j, t.len() as int);
    lemma_byte_offset_is_boundary(t, i);
    lemma_byte_offset_is_boundary(t, j);
    crate::text::lemma_byte_offset_ends(t);
    let ex = spec_manifest_exclusion(t)->Ok_0;
    let b = utf8(t);
    assert(ex.start == w.start && ex.length == w.length);
    let exs = seq![ex];
    let end = ex.start + ex.length;
    assert(exs.drop_first() =~= Seq::<Exclusion>::empty());
    assert(exs[0] == ex);
    assert(end <= b.len());
    assert(is_char_boundary(b, ex.start as int));
    assert(is_char_boundary(b, end));
    assert(spec_excluded(b, exs.drop_first(), end) == Some(b.subrange(end, b.len() as int)));
}

/// Compute the hard binding for `text`: locate the wrapper, exclude it, then hash the
/// NFC-normalized remainder.
pub fn compute_data_hash<H: Hasher, N: Normalizer>(
    text: &str,
    alg: Algorithm,
    hasher: &H,
    normalizer: &N,
) -> (r: Result<DataHash, Error>)
    ensures
        match spec_manifest_exclusion(text@) {
            Err(e) => r == Err::<DataHash, Error>(e),
            Ok(ex) => r matches Ok(d) && d@.exclusions == seq![ex] && d@.alg == spec_alg_id(alg)
                && d@.name is None,
        },
        hasher.obeys_hasher_spec() && normalizer.obeys_normalizer_spec() ==> match (
            r,
            spec_compute(hasher, normalizer, text@, alg),
        ) {
            (Ok(d), Ok(v)) => d@ == v,
            (Err(e), Err(f)) => e@ == f,
            _ => false,
        },
{
    let exclusion = match manifest_exclusion(text) {
        Ok(e) => e,
        Err(e) => return Err(e),
    };
    let n = text.as_bytes().len();
    proof {
        lemma_located_exclusion_applies(text@);
    }
    let exs = [exclusion];
    assert(exs@ =~= seq![exclusion]);
    let covered = match hashed_bytes(text, &exs, normalizer) {
        Ok(c) => c,
        Err(e) => return Err(e),
    };
    let mut exclusions: Vec<Exclusion> = Vec::new();
    exclusions.push(exclusion);
    let hash = hasher.digest(alg, covered.as_slice());
    let d = DataHash {
        exclusions,
        alg: alg.id().to_owned(),
        hash,
        name: None,
    };
    assert(d@.exclusions =~= seq![exclusion]);
    Ok(d)
}

/// Verify a `c2pa.hash.data` binding against `text`: apply the assertion's own exclusion
/// ranges, normalize, recompute, compare. The ranges must match the located wrapper: an
/// assertion that excludes some other span would hash a document the wrapper does not
/// describe.
pub fn verify_data_hash<H: Hasher, N: Normalizer>(
    text: &str,
    data_hash: &DataHash,
    hasher: &H,
    normalizer: &N,
) -> (r: Result<(), Error>)
    ensures
        match spec_verify_checks(text@, data_hash@) {
            Err(f) => r matches Err(e) && e@ == f,
            Ok(_) => r is Ok || r == Err::<(), Error>(Error::HashMismatch),
        },
        hasher.obeys_hasher_spec() && normalizer.obeys_normalizer_spec() ==> match (
            r,
            spec_verify(hasher, normalizer, text@, data_hash@),
        ) {
            (Ok(_), Ok(_)) => true,
            (Err(e), Err(f)) => e@ == f,
            _ => false,
        },
{
    if data_hash.exclusions.len() == 0 {
        return Err(Error::MalformedExclusion);
    }
    let alg = match Algorithm::from_id(data_hash.alg.as_str()) {
        Ok(a) => a,
        Err(e) => return Err(e),
    };
    let located = match manifest_exclusion(text) {
        Ok(l) => l,
        Err(e) => return Err(e),
    };
    if data_hash.exclusions.len() != 1 || data_hash.exclusions[0].start != located.start
        || data_hash.exclusions[0].length != located.length {
        proof {
            if data_hash.exclusions@ == seq![located] {
                assert(data_hash.exclusions@[0] == located);
            }
        }
        return Err(Error::MalformedExclusion);
    }
    assert(data_hash.exclusions@ =~= seq![located]);
    let n = text.as_bytes().len();
    proof {
        lemma_located_exclusion_applies(text@);
    }
    let covered = match hashed_bytes(text, data_hash.exclusions.as_slice(), normalizer) {
        Ok(c) => c,
        Err(e) => return Err(e),
    };
    let digest = hasher.digest(alg, covered.as_slice());
    if bytes_equal(digest.as_slice(), data_hash.hash.as_slice()) {
        Ok(())
    } else {
        Err(Error::HashMismatch)
    }
}

/// A binding computed over a text verifies against that same text.
pub proof fn lemma_compute_then_verify<H: Hasher, N: Normalizer>(
    h: &H,
    n: &N,
    t: Seq<char>,
    alg: Algorithm,
)
    requires
        spec_compute(h, n, t, alg) is Ok,
        utf8(t).len() <= usize::MAX,
    ensures
        spec_verify(h, n, t, spec_compute(h, n, t, alg)->Ok_0) == Ok::<(), ErrorView>(()),
{
    lemma_located_exclusion_applies(t);
    lemma_id_round_trip(alg);
    let d = spec_compute(h, n, t, alg)->Ok_0;
    let ex = spec_manifest_exclusion(t)->Ok_0;
    assert(d.exclusions[0] == ex);
}

/// The binding of a text that carried no wrapper, with one embedded (padded or not), covers
/// exactly the NFC form of that text: the exclusion is the embedded wrapper's range, and the
/// hash does not depend on the payload or the padding.
pub proof fn lemma_binding_of_embedded<H: Hasher, N: Normalizer>(
    h: &H,
    n: &N,
    t: Seq<char>,
    payload: Seq<u8>,
    padding: Seq<u8>,
    alg: Algorithm,
)
    requires
        payload.len() <= u32::MAX,
        spec_locate_all(t).len() == 0,
        utf8(t + wrapper::carried(wrapper::framed(payload, padding))).len() <= usize::MAX,
    ensures
        ({
            let w = wrapper::carried(wrapper::framed(payload, padding));
            &&& spec_hashed_bytes(
                n,
                t + w,
                seq![Exclusion { start: utf8(t).len() as usize, length: utf8(w).len() as usize }],
            ) == Some(utf8(n.spec_nfc(t)))
            &&& spec_compute(h, n, t + w, alg) == Ok::<DataHashView, ErrorView>(
                DataHashView {
                    exclusions: seq![
                        Exclusion { start: utf8(t).len() as usize, length: utf8(w).len() as usize },
                    ],
                    alg: spec_alg_id(alg),
                    hash: h.spec_digest(alg, utf8(n.spec_nfc(t))),
                    name: None,
                },
            )
        }),
{
    let w = wrapper::carried(wrapper::framed(payload, padding));
    let asset = t + w;
    wrapper::lemma_extract_embedded(t, payload, padding);
    wrapper::lemma_strip_embedded(t, wrapper::framed(payload, padding));
    lemma_utf8_concat(t, w);
    let b = utf8(asset);
    let ex = Exclusion { start: utf8(t).len() as usize, length: utf8(w).len() as usize };
    assert(spec_manifest_exclusion(asset) == Ok::<Exclusion, Error>(ex));
    let exs = seq![ex];
    assert(exs[0] == ex);
    assert(exs.drop_first() =~= Seq::<Exclusion>::empty());
    let end = ex.start + ex.length;
    assert(end == b.len());
    assert(spec_excluded(b, exs.drop_first(), end) == Some(b.subrange(end, b.len() as int)));
    assert(spec_excluded(b, exs, 0) == Some(utf8(t)));
    encode_utf8_decode_utf8(t);
}

/// Padding moves the end of the excluded range but not the hash: a text that carried no
/// wrapper, with the padded or the unpadded wrapper of the same payload embedded, binds to
/// the same hash under different exclusions.
pub proof fn lemma_padding_moves_range_not_hash<H: Hasher, N: Normalizer>(
    h: &H,
    n: &N,
    t: Seq<char>,
    payload: Seq<u8>,
    alg: Algorithm,
)
    requires
        payload.len() <= u32::MAX,
        spec_locate_all(t).len() == 0,
        utf8(t + wrapper::carried(wrapper::framed(payload, wrapper::padding_for(payload)))).len()
            <= usize::MAX,
    ensures
        ({
            let plain = spec_compute(
                h,
                n,
                t + wrapper::carried(wrapper::framed(payload, seq![])),
                alg,
            );
            let padded = spec_compute(
                h,
                n,
                t + wrapper::carried(wrapper::framed(payload, wrapper::padding_for(payload))),
                alg,
            );
            &&& plain is Ok && padded is Ok
            &&& plain->Ok_0.hash == padded->Ok_0.hash
            &&& plain->Ok_0.exclusions != padded->Ok_0.exclusions
        }),
{
    let f0 = wrapper::framed(payload, seq![]);
    let pad = wrapper::padding_for(payload);
    let f1 = wrapper::framed(payload, pad);
    let w0 = wrapper::carried(f0);
    let w1 = wrapper::carried(f1);
    let gap = (wrapper::spec_target_length(payload.len()) - (3 + wrapper::run_width(f0))) as nat;
    wrapper::lemma_carried_width(f0);
    wrapper::lemma_carried_width(f1);
    wrapper::lemma_run_width_bound(f0);
    wrapper::lemma_be32(payload.len());
    assert(gap >= 6);
    assert(wrapper::spec_padding(gap) is Some);
    wrapper::lemma_padding_width(gap);
    assert(f1 =~= f0 + pad);
    wrapper::lemma_run_width_concat(f0, pad);
    assert(utf8(w1).len() == utf8(w0).len() + gap);
    lemma_utf8_concat(t, w0);
    lemma_utf8_concat(t, w1);
    lemma_binding_of_embedded(h, n, t, payload, seq![], alg);
    lemma_binding_of_embedded(h, n, t, payload, pad, alg);
    let e0 = Exclusion { start: utf8(t).len() as usize, length: utf8(w0).len() as usize };
    let e1 = Exclusion { start: utf8(t).len() as usize, length: utf8(w1).len() as usize };
    assert(e0 != e1);
    assert(seq![e0][0] != seq![e1][0]);
}

} // verus!
