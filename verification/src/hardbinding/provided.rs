//! Ready-made [`Hasher`] and [`Normalizer`] implementations, backed by the `sha2` and
//! `unicode-normalization` crates.

use vstd::prelude::*;
use sha2::{Digest, Sha256, Sha384, Sha512};
use unicode_normalization::UnicodeNormalization;
use super::{Algorithm, Hasher, Normalizer};

verus! {

/// The SHA-256 digest of `data`, as `sha2` computes it.
pub uninterp spec fn sha256(data: Seq<u8>) -> Seq<u8>;

/// The SHA-384 digest of `data`, as `sha2` computes it.
pub uninterp spec fn sha384(data: Seq<u8>) -> Seq<u8>;

/// The SHA-512 digest of `data`, as `sha2` computes it.
pub uninterp spec fn sha512(data: Seq<u8>) -> Seq<u8>;

/// The Unicode Normalization Form C of `text`, as `unicode-normalization` computes it.
pub uninterp spec fn unicode_nfc(text: Seq<char>) -> Seq<char>;

/// `sha2::Sha256::digest`: the SHA-256 digest of `data`, a function of `data` alone, whose
/// output size is 32 bytes.
#[verifier::external_body]
fn sha256_digest(data: &[u8]) -> (r: Vec<u8>)
    ensures
        r@ == sha256(data@),
        r@.len() == 32,
{
    Sha256::digest(data).to_vec()
}

/// `sha2::Sha384::digest`: the SHA-384 digest of `data`, a function of `data` alone, whose
/// output size is 48 bytes.
#[verifier::external_body]
fn sha384_digest(data: &[u8]) -> (r: Vec<u8>)
    ensures
        r@ == sha384(data@),
        r@.len() == 48,
{
    Sha384::digest(data).to_vec()
}

/// `sha2::Sha512::digest`: the SHA-512 digest of `data`, a function of `data` alone, whose
/// output size is 64 bytes.
#[verifier::external_body]
fn sha512_digest(data: &[u8]) -> (r: Vec<u8>)
    ensures
        r@ == sha512(data@),
        r@.len() == 64,
{
    Sha512::digest(data).to_vec()
}

/// `UnicodeNormalization::nfc` of `unicode-normalization` on a `&str`, collected into a
/// `String`: the NFC form of `text`, a function of `text` alone.
#[verifier::external_body]
fn nfc_string(text: &str) -> (r: String)
    ensures
        r@ == unicode_nfc(text@),
{
    text.nfc().collect()
}

/// [`Hasher`] backed by RustCrypto's `sha2`.
#[derive(Debug, Default, Clone, Copy)]
pub struct RustCrypto;

impl Hasher for RustCrypto {
    open spec fn obeys_hasher_spec(&self) -> bool {
        true
    }

    open spec fn spec_digest(&self, alg: Algorithm, data: Seq<u8>) -> Seq<u8> {
        match alg {
            Algorithm::Sha256 => sha256(data),
            Algorithm::Sha384 => sha384(data),
            Algorithm::Sha512 => sha512(data),
        }
    }

    open spec fn spec_output_len(&self, alg: Algorithm) -> nat {
        match alg {
            Algorithm::Sha256 => 32,
            Algorithm::Sha384 => 48,
            Algorithm::Sha512 => 64,
        }
    }

    fn digest(&self, alg: Algorithm, data: &[u8]) -> (r: Vec<u8>) {
        match alg {
            Algorithm::Sha256 => sha256_digest(data),
            Algorithm::Sha384 => sha384_digest(data),
            Algorithm::Sha512 => sha512_digest(data),
        }
    }
}

/// [`Normalizer`] backed by `unicode-normalization`.
#[derive(Debug, Default, Clone, Copy)]
pub struct UnicodeNfc;

impl Normalizer for UnicodeNfc {
    open spec fn obeys_normalizer_spec(&self) -> bool {
        true
    }

    open spec fn spec_nfc(&self, text: Seq<char>) -> Seq<char> {
        unicode_nfc(text)
    }

    fn nfc(&self, text: &str) -> (r: String) {
        nfc_string(text)
    }
}

} // verus!
