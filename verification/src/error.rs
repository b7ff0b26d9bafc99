//! Errors from locating a wrapper or validating an unstructured-text hard binding.
//!
//! Two wrapper outcomes are reportable failures: a candidate whose magic was
//! detected but which does not decode (`manifest.text.corruptedWrapper`), and
//! more than one valid wrapper (`manifest.text.multipleWrappers`). Only
//! [`Error::NotFound`] means the text carries no provenance at all, and only it
//! carries no status code among the location outcomes.

use vstd::prelude::*;
use crate::text::{decimal, usize_to_decimal};

verus! {

/// Errors from locating a wrapper or validating an unstructured-text hard binding.
#[derive(Debug, Clone, PartialEq, Eq)]
pub enum Error {
    /// No valid wrapper was located and no candidate was detected either: the
    /// text simply carries no wrapper.
    NotFound,
    /// One or more candidates were detected (a `U+FEFF` followed by a
    /// variation-selector run whose leading bytes match the magic) but none
    /// fully decoded.
    CorruptedWrapper,
    /// More than one valid wrapper was located.
    MultipleWrappers,
    /// The payload exceeds the `u32` length field of the wrapper frame.
    PayloadTooLarge(usize),
    /// A padding gap that is not expressible as `3a + 4b`, i.e. 1, 2 or 5.
    UnrepresentableGap(usize),
    /// The exclusion ranges are malformed: out of order, overlapping, extending
    /// past the end of the asset, splitting a UTF-8 sequence, or not matching
    /// the byte range of the located wrapper.
    MalformedExclusion,
    /// The recomputed data hash did not match the value in the assertion.
    HashMismatch,
    /// A hash algorithm identifier outside the C2PA allowed list was requested.
    UnsupportedAlgorithm(String),
    /// A digest of this many bytes is too short to supply the checksum of a version 2
    /// frame.
    DigestTooShort(usize),
}

/// The abstract content of an error: its variant, and the value it reports.
pub enum ErrorView {
    NotFound,
    CorruptedWrapper,
    MultipleWrappers,
    PayloadTooLarge(usize),
    UnrepresentableGap(usize),
    MalformedExclusion,
    HashMismatch,
    UnsupportedAlgorithm(Seq<char>),
    DigestTooShort(usize),
}

impl View for Error {
    type V = ErrorView;

    open spec fn view(&self) -> ErrorView {
        match self {
            Error::NotFound => ErrorView::NotFound,
            Error::CorruptedWrapper => ErrorView::CorruptedWrapper,
            Error::MultipleWrappers => ErrorView::MultipleWrappers,
            Error::PayloadTooLarge(n) => ErrorView::PayloadTooLarge(*n),
            Error::UnrepresentableGap(n) => ErrorView::UnrepresentableGap(*n),
            Error::MalformedExclusion => ErrorView::MalformedExclusion,
            Error::HashMismatch => ErrorView::HashMismatch,
            Error::UnsupportedAlgorithm(a) => ErrorView::UnsupportedAlgorithm(a@),
            Error::DigestTooShort(n) => ErrorView::DigestTooShort(*n),
        }
    }
}

/// The registered C2PA validation status code of an error, if it has one.
pub open spec fn spec_code(e: Error) -> Option<Seq<char>> {
    match e {
        Error::CorruptedWrapper => Some("manifest.text.corruptedWrapper"@),
        Error::MultipleWrappers => Some("manifest.text.multipleWrappers"@),
        Error::NotFound => None,
        Error::PayloadTooLarge(_) => None,
        Error::UnrepresentableGap(_) => None,
        Error::MalformedExclusion => Some("assertion.dataHash.malformed"@),
        Error::HashMismatch => Some("assertion.dataHash.mismatch"@),
        Error::UnsupportedAlgorithm(_) => Some("algorithm.unsupported"@),
        Error::DigestTooShort(_) => None,
    }
}

/// The human-readable message of an error, meant to be embedded in a larger sentence.
pub open spec fn spec_message(e: Error) -> Seq<char> {
    match e {
        Error::NotFound => "no C2PA text manifest wrapper found"@,
        Error::CorruptedWrapper => "wrapper candidate detected but it did not fully decode"@,
        Error::MultipleWrappers => "more than one valid wrapper found"@,
        Error::PayloadTooLarge(n) => "payload of "@ + decimal(n as nat)
            + " bytes exceeds the u32 manifestLength field"@,
        Error::UnrepresentableGap(n) => "a padding gap of "@ + decimal(n as nat)
            + " bytes is not expressible as 3a + 4b"@,
        Error::MalformedExclusion => "data hash exclusion range is malformed"@,
        Error::HashMismatch => "data hash does not match the asset content"@,
        Error::UnsupportedAlgorithm(a) => "unsupported hash algorithm: "@ + a@,
        Error::DigestTooShort(n) => "a digest of "@ + decimal(n as nat)
            + " bytes is too short for the checksum"@,
    }
}

impl Error {
    /// The registered C2PA validation status code for this error, or `None` when
    /// the condition carries no status code.
    pub fn code(&self) -> (r: Option<&'static str>)
        ensures
            r is None <==> spec_code(*self) is None,
            r matches Some(s) ==> spec_code(*self) == Some(s@),
    {
        match self {
            Error::CorruptedWrapper => Some("manifest.text.corruptedWrapper"),
            Error::MultipleWrappers => Some("manifest.text.multipleWrappers"),
            // Carrying no wrapper at all is an unsigned asset, not a failure.
            Error::NotFound => None,
            // Embed-time input errors, not validation outcomes.
            Error::PayloadTooLarge(_) => None,
            Error::UnrepresentableGap(_) => None,
            Error::MalformedExclusion => Some("assertion.dataHash.malformed"),
            Error::HashMismatch => Some("assertion.dataHash.mismatch"),
            Error::UnsupportedAlgorithm(_) => Some("algorithm.unsupported"),
            // An embed-time input error, not a validation outcome.
            Error::DigestTooShort(_) => None,
        }
    }

    /// Whether this error means the asset carries no provenance at all, as
    /// opposed to provenance that was found and rejected.
    pub fn is_no_manifest_located(&self) -> (r: bool)
        ensures
            r <==> *self is NotFound,
    {
        match self {
            Error::NotFound => true,
            _ => false,
        }
    }

    /// The message describing this error.
    pub fn to_string(&self) -> (s: String)
        ensures
            s@ == spec_message(*self),
    {
        match self {
            Error::NotFound => String::from_str("no C2PA text manifest wrapper found"),
            Error::CorruptedWrapper => String::from_str(
                "wrapper candidate detected but it did not fully decode",
            ),
            Error::MultipleWrappers => String::from_str("more than one valid wrapper found"),
            Error::PayloadTooLarge(n) => {
                let mut s = String::from_str("payload of ");
                let num = usize_to_decimal(*n);
                s.append(num.as_str());
                s.append(" bytes exceeds the u32 manifestLength field");
                s
            },
            Error::UnrepresentableGap(n) => {
                let mut s = String::from_str("a padding gap of ");
                let num = usize_to_decimal(*n);
                s.append(num.as_str());
                s.append(" bytes is not expressible as 3a + 4b");
                s
            },
            Error::MalformedExclusion => String::from_str("data hash exclusion range is malformed"),
            Error::HashMismatch => String::from_str("data hash does not match the asset content"),
            Error::UnsupportedAlgorithm(a) => {
                let mut s = String::from_str("unsupported hash algorithm: ");
                s.append(a.as_str());
                s
            },
            Error::DigestTooShort(n) => {
                let mut s = String::from_str("a digest of ");
                let num = usize_to_decimal(*n);
                s.append(num.as_str());
                s.append(" bytes is too short for the checksum");
                s
            },
        }
    }
}

/// Among the location outcomes, only an absent wrapper means the text is unsigned, and it
/// alone carries no status code; every failure of a located manifest reports one.
pub proof fn lemma_only_absence_is_unsigned(e: Error)
    ensures
        e is NotFound ==> spec_code(e) is None,
        (e is CorruptedWrapper || e is MultipleWrappers || e is MalformedExclusion
            || e is HashMismatch || e is UnsupportedAlgorithm) ==> spec_code(e) is Some,
{
}

} // verus!
