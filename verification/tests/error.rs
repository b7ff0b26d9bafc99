use c2pa_unstructured_text::Error;

fn all() -> Vec<Error> {
    vec![
        Error::NotFound,
        Error::CorruptedWrapper,
        Error::MultipleWrappers,
        Error::PayloadTooLarge(1 << 33),
        Error::UnrepresentableGap(5),
        Error::MalformedExclusion,
        Error::HashMismatch,
        Error::UnsupportedAlgorithm("sha1".into()),
        Error::DigestTooShort(2),
    ]
}

#[test]
fn display_composes_into_a_sentence_for_every_variant() {
    for e in all() {
        let s = e.to_string();
        assert!(!s.is_empty(), "{e:?} rendered empty");
        // Messages are embedded in larger sentences, so they must not start
        // with a capital or end with a period.
        assert!(!s.ends_with('.'), "{e:?} ends with a period: {s}");
        let first = s.chars().next().expect("checked non-empty above");
        assert!(!first.is_uppercase(), "{e:?} starts uppercase: {s}");
    }
}

#[test]
fn display_carries_the_offending_value() {
    assert!(Error::UnsupportedAlgorithm("sha1".into())
        .to_string()
        .contains("sha1"));
    assert!(Error::PayloadTooLarge(4294967296)
        .to_string()
        .contains("4294967296"));
}

#[test]
fn the_two_wrapper_failure_codes_are_emitted() {
    assert_eq!(
        Error::CorruptedWrapper.code(),
        Some("manifest.text.corruptedWrapper")
    );
    assert_eq!(
        Error::MultipleWrappers.code(),
        Some("manifest.text.multipleWrappers")
    );
}

#[test]
fn every_code_is_a_registered_identifier() {
    for e in all() {
        if let Some(code) = e.code() {
            assert!(
                matches!(
                    code,
                    "manifest.text.corruptedWrapper"
                        | "manifest.text.multipleWrappers"
                        | "assertion.dataHash.malformed"
                        | "assertion.dataHash.mismatch"
                        | "algorithm.unsupported"
                ),
                "{e:?} reports an unregistered code: {code}"
            );
        }
    }
}

#[test]
fn only_an_absent_wrapper_means_unsigned() {
    assert_eq!(Error::NotFound.code(), None);
    assert!(Error::NotFound.is_no_manifest_located());

    for e in [Error::CorruptedWrapper, Error::MultipleWrappers] {
        assert!(
            !e.is_no_manifest_located(),
            "{e:?} must not classify as unsigned"
        );
        assert!(e.code().is_some(), "{e:?} should report a code");
    }
}

#[test]
fn binding_failures_are_not_no_manifest_located() {
    for e in [
        Error::MalformedExclusion,
        Error::HashMismatch,
        Error::UnsupportedAlgorithm("sha1".into()),
    ] {
        assert!(!e.is_no_manifest_located(), "{e:?} misclassified");
        assert!(e.code().is_some(), "{e:?} should report a code");
    }
}

#[test]
fn every_message_is_exact() {
    assert_eq!(Error::NotFound.to_string(), "no C2PA text manifest wrapper found");
    assert_eq!(
        Error::PayloadTooLarge(4294967296).to_string(),
        "payload of 4294967296 bytes exceeds the u32 manifestLength field"
    );
    assert_eq!(
        Error::UnrepresentableGap(5).to_string(),
        "a padding gap of 5 bytes is not expressible as 3a + 4b"
    );
    assert_eq!(Error::PayloadTooLarge(0).to_string(), "payload of 0 bytes exceeds the u32 manifestLength field");
    assert_eq!(
        Error::UnsupportedAlgorithm("md5".into()).to_string(),
        "unsupported hash algorithm: md5"
    );
    assert_eq!(Error::HashMismatch.code(), Some("assertion.dataHash.mismatch"));
    assert_eq!(Error::PayloadTooLarge(3).code(), None);
    assert_eq!(Error::UnrepresentableGap(1).code(), None);
    assert_eq!(
        Error::DigestTooShort(2).to_string(),
        "a digest of 2 bytes is too short for the checksum"
    );
    assert_eq!(Error::DigestTooShort(2).code(), None);
}
