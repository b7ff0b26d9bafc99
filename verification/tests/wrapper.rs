use c2pa_unstructured_text::hardbinding::{Algorithm, Hasher};
use c2pa_unstructured_text::wrapper::{
    carry, decode_exact, embed, encode, encode_padded, extract, locate_all, padding, strip,
    target_length, v2, MAGIC, MARKER, VERSION, VERSION_V2,
};
use c2pa_unstructured_text::Error;

const HOST: &str = "This sentence carries an invisible C2PA text manifest wrapper at its end.";
const PAYLOAD: &[u8] = b"c2pa-manifest-01";

#[test]
fn round_trip_locates_the_payload_and_its_range() {
    let asset = embed(HOST, PAYLOAD).unwrap();
    let w = extract(&asset).unwrap();
    assert_eq!(w.payload, PAYLOAD);
    assert_eq!(w.version, VERSION);
    assert_eq!(w.start, HOST.len());
    assert_eq!(&asset[w.range()], &asset[HOST.len()..]);
    assert!(asset[w.range()].starts_with(MARKER));
}

#[test]
fn stripping_the_range_leaves_the_visible_text() {
    let asset = embed(HOST, PAYLOAD).unwrap();
    let w = extract(&asset).unwrap();
    assert_eq!(strip(&asset, w.range()).unwrap(), HOST);
}

#[test]
fn padding_uses_the_specified_decomposition() {
    assert_eq!(padding(0).unwrap(), Vec::<u8>::new());
    assert_eq!(padding(6).unwrap(), vec![0x00, 0x00]);
    assert_eq!(padding(7).unwrap(), vec![0x00, 0x10]);
    assert_eq!(padding(8).unwrap(), vec![0x10, 0x10]);
    assert_eq!(padding(12).unwrap(), vec![0x00; 4]);
    for gap in [1usize, 2, 5] {
        assert!(padding(gap).is_err(), "gap {gap} should be rejected");
    }
}

#[test]
fn padded_wrapper_hits_the_deterministic_target() {
    for m in [0usize, 1, 16, 200] {
        let payload = vec![0xABu8; m];
        let padded = encode_padded(&payload).unwrap();
        assert_eq!(padded.len(), target_length(m), "manifest of {m} bytes");
        let w = extract(&format!("{HOST}{padded}")).unwrap();
        assert_eq!(w.payload, payload);
    }
}

#[test]
fn known_vector_matches_the_published_test_file() {
    let unpadded = encode(PAYLOAD).unwrap();
    assert_eq!(unpadded.len(), 114);
    assert_eq!(target_length(PAYLOAD.len()), 125);
    assert_eq!(padding(125 - 114).unwrap(), vec![0x00, 0x10, 0x10]);
    assert_eq!(encode_padded(PAYLOAD).unwrap().len(), 125);
}

#[test]
fn no_wrapper_is_absence_but_many_is_a_reportable_failure() {
    assert_eq!(extract(HOST), Err(Error::NotFound));
    assert!(Error::NotFound.is_no_manifest_located());

    let one = embed(HOST, PAYLOAD).unwrap();
    let two = embed(&one, PAYLOAD).unwrap();
    assert_eq!(extract(&two), Err(Error::MultipleWrappers));
    assert_eq!(locate_all(&two).len(), 2);
    assert!(!Error::MultipleWrappers.is_no_manifest_located());
    assert_eq!(
        Error::MultipleWrappers.code(),
        Some("manifest.text.multipleWrappers")
    );
}

#[test]
fn a_mangled_candidate_beside_a_valid_one_is_ignored() {
    let mut framed = MAGIC.to_vec();
    framed.push(9);
    framed.extend_from_slice(&16u32.to_be_bytes());
    framed.extend_from_slice(PAYLOAD);
    let bad = carry(&framed);
    let good = encode(PAYLOAD).unwrap();
    let asset = format!("{HOST}{bad}{good}");
    let w = extract(&asset).expect("the valid wrapper is still located");
    assert_eq!(w.payload, PAYLOAD);
    assert_eq!(locate_all(&asset).len(), 1);
}

#[test]
fn a_lone_mangled_candidate_reports_corruption_not_absence() {
    let mut framed = MAGIC.to_vec();
    framed.push(VERSION);
    framed.extend_from_slice(&99u32.to_be_bytes());
    framed.extend_from_slice(PAYLOAD);
    let asset = format!("{HOST}{}", carry(&framed));
    let err = extract(&asset).unwrap_err();
    assert_eq!(err, Error::CorruptedWrapper);
    assert!(!err.is_no_manifest_located());
    assert_eq!(err.code(), Some("manifest.text.corruptedWrapper"));
}

#[test]
fn a_bad_magic_is_not_a_candidate_at_all() {
    let mut v = b"C2PATXT\x01".to_vec();
    v.push(VERSION);
    v.extend_from_slice(&16u32.to_be_bytes());
    v.extend_from_slice(PAYLOAD);
    let asset = format!("{HOST}{}", carry(&v));
    assert_eq!(extract(&asset), Err(Error::NotFound));
}

#[test]
fn payload_larger_than_the_length_field_is_rejected() {
    assert!(u32::try_from(u32::MAX as usize).is_ok());
    assert!(u32::try_from(u32::MAX as usize + 1).is_err());
}

#[test]
fn legitimate_selectors_in_clean_text_are_not_payloads() {
    let clean = [
        "A perfectly ordinary paragraph with no hidden provenance whatsoever.",
        "Emoji carry legitimate variation selectors: a smiley \u{263A}\u{FE0F} and a heart \u{2764}\u{FE0F}.",
        "CJK ideographic variation sequence: \u{845B}\u{E0100} is a valid rendering hint.",
        "A stray zero-width joiner \u{200D} and no-break space \u{FEFF} without any magic.",
        "\u{FEFF}A leading byte-order mark followed by ordinary prose.",
        "\u{FEFF}\u{FE00}\u{FE01}",
        "",
    ];
    for s in clean {
        assert_eq!(
            extract(s),
            Err(Error::NotFound),
            "hallucinated provenance in {s:?}"
        );
        assert!(locate_all(s).is_empty());
    }
}

#[test]
fn a_marker_inside_ordinary_text_does_not_shadow_a_real_wrapper() {
    let host = "Quoting a BOM \u{FEFF} mid-sentence, and an emoji \u{2764}\u{FE0F}.";
    let asset = embed(host, PAYLOAD).unwrap();
    let w = extract(&asset).unwrap();
    assert_eq!(w.payload, PAYLOAD);
    assert_eq!(w.start, host.len());
}

/// Deterministic stand-in so the v2 frame is testable without a real digest.
struct TestHasher;
impl Hasher for TestHasher {
    fn digest(&self, _: Algorithm, data: &[u8]) -> Vec<u8> {
        let mut acc: u32 = 0x811C_9DC5;
        for &b in data {
            acc = (acc ^ b as u32).wrapping_mul(0x0100_0193);
        }
        acc.to_be_bytes().to_vec()
    }
}

#[test]
fn round_trips_and_reports_version_two() {
    let asset = v2::embed(HOST, PAYLOAD, &TestHasher).unwrap();
    let w = v2::extract(&asset, &TestHasher).unwrap();
    assert_eq!(w.payload, PAYLOAD);
    assert_eq!(w.version, VERSION_V2);
    assert_eq!(strip(&asset, w.range()).unwrap(), HOST);
}

#[test]
fn a_corrupted_payload_is_rejected_rather_than_decoded() {
    let asset = v2::embed(HOST, PAYLOAD, &TestHasher).unwrap();
    let mut mutated = PAYLOAD.to_vec();
    mutated[0] ^= 0x01;
    let good = v2::encode(PAYLOAD, &TestHasher).unwrap();
    let bad = v2::encode(&mutated, &TestHasher).unwrap();
    let good_tail: String = good
        .chars()
        .rev()
        .take(4)
        .collect::<Vec<_>>()
        .into_iter()
        .rev()
        .collect();
    let bad_body: String = bad.chars().take(bad.chars().count() - 4).collect();
    let spliced = format!("{HOST}{bad_body}{good_tail}");
    assert_eq!(
        v2::extract(&spliced, &TestHasher),
        Err(Error::CorruptedWrapper),
        "a stale checksum must fail closed"
    );
    assert!(!asset.is_empty());
}

#[test]
fn a_v1_wrapper_is_not_a_v2_wrapper_and_the_reverse() {
    let v1 = embed(HOST, PAYLOAD).unwrap();
    assert_eq!(v2::extract(&v1, &TestHasher), Err(Error::CorruptedWrapper));
    let two = v2::embed(HOST, PAYLOAD, &TestHasher).unwrap();
    assert_eq!(extract(&two), Err(Error::CorruptedWrapper));
}

#[test]
fn clean_text_is_still_not_a_payload() {
    assert_eq!(v2::extract(HOST, &TestHasher), Err(Error::NotFound));
}

#[test]
fn extract_any_accepts_either_frame() {
    let v1 = embed(HOST, PAYLOAD).unwrap();
    let two = v2::embed(HOST, PAYLOAD, &TestHasher).unwrap();
    for asset in [&v1, &two] {
        let w = v2::extract_any(asset, &TestHasher).unwrap();
        assert_eq!(w.payload, PAYLOAD);
    }
    assert_eq!(v2::extract_any(&v1, &TestHasher).unwrap().version, VERSION);
    assert_eq!(
        v2::extract_any(&two, &TestHasher).unwrap().version,
        VERSION_V2
    );
    assert_eq!(
        v2::extract_any(HOST, &TestHasher),
        Err(Error::NotFound),
        "clean text is absence, not corruption"
    );
}

#[test]
fn strip_rejects_ranges_that_split_a_character() {
    let asset = format!("café{}", encode(PAYLOAD).unwrap());
    assert_eq!(
        strip(&asset, 4..asset.len()),
        Err(Error::MalformedExclusion)
    );
    assert_eq!(
        strip(&asset, 0..asset.len() + 1),
        Err(Error::MalformedExclusion)
    );
}

#[test]
fn strip_of_a_middle_range_keeps_both_sides() {
    assert_eq!(strip("café au lait", 5..8).unwrap(), "café lait");
    assert_eq!(strip("abc", 3..3).unwrap(), "abc");
    assert_eq!(strip("abc", 2..1), Err(Error::MalformedExclusion));
}

#[test]
fn the_wrapper_is_the_marker_then_one_selector_per_frame_byte() {
    let w = encode(b"").unwrap();
    let expected: String = std::iter::once('\u{FEFF}')
        .chain(
            b"C2PATXT\0\x01\x00\x00\x00\x00"
                .iter()
                .map(|&b| c2pa_unstructured_text::vs::byte_to_vs(b)),
        )
        .collect();
    assert_eq!(w, expected);
    assert_eq!(embed("hi", b"").unwrap(), format!("hi{expected}"));
}

#[test]
fn decode_exact_round_trips_and_rejects_other_characters() {
    let run = c2pa_unstructured_text::vs::encode_run(&[0x00, 0x7F, 0xFF]);
    assert_eq!(decode_exact(&run).unwrap(), vec![0x00, 0x7F, 0xFF]);
    assert_eq!(decode_exact(&format!("{run}x")), Err(Error::CorruptedWrapper));
    assert_eq!(decode_exact("").unwrap(), Vec::<u8>::new());
}

#[test]
fn target_length_and_padding_exact_values() {
    assert_eq!(target_length(0), 61);
    assert_eq!(padding(9).unwrap(), vec![0x00, 0x00, 0x00]);
    assert_eq!(padding(5), Err(Error::UnrepresentableGap(5)));
    assert_eq!(padding(13).unwrap(), vec![0x00, 0x00, 0x00, 0x10]);
}

#[test]
fn a_declared_length_shorter_than_the_run_leaves_padding_out_of_the_payload() {
    let mut framed = MAGIC.to_vec();
    framed.push(VERSION);
    framed.extend_from_slice(&2u32.to_be_bytes());
    framed.extend_from_slice(b"abcdef");
    let asset = format!("x{}", carry(&framed));
    let w = extract(&asset).unwrap();
    assert_eq!(w.payload, b"ab");
    assert_eq!(w.start, 1);
    assert_eq!(w.length, asset.len() - 1);
}

/// A hasher whose digests are too short to supply a checksum.
struct ShortHasher;
impl Hasher for ShortHasher {
    fn digest(&self, _: Algorithm, _: &[u8]) -> Vec<u8> {
        vec![0xAA, 0xBB]
    }
}

#[test]
fn a_short_digest_cannot_seal_a_frame() {
    assert_eq!(v2::encode(PAYLOAD, &ShortHasher), Err(Error::DigestTooShort(2)));
    assert_eq!(v2::embed(HOST, PAYLOAD, &ShortHasher), Err(Error::DigestTooShort(2)));
    let asset = v2::embed(HOST, PAYLOAD, &TestHasher).unwrap();
    assert_eq!(v2::extract(&asset, &ShortHasher), Err(Error::CorruptedWrapper));
    assert!(v2::locate_all(&asset, &ShortHasher).is_empty());
}

#[test]
fn either_frame_keeps_the_multiple_wrapper_failure() {
    let one = embed(HOST, PAYLOAD).unwrap();
    let two = embed(&one, PAYLOAD).unwrap();
    assert_eq!(v2::extract_any(&two, &TestHasher), Err(Error::MultipleWrappers));
    let mangled_v1 = {
        let mut framed = MAGIC.to_vec();
        framed.push(VERSION);
        framed.extend_from_slice(&99u32.to_be_bytes());
        format!("{HOST}{}", carry(&framed))
    };
    assert_eq!(v2::extract_any(&mangled_v1, &TestHasher), Err(Error::CorruptedWrapper));
}

#[test]
fn seal_and_open_frame_use_the_given_digest() {
    assert_eq!(v2::seal(&[1, 2], &[9, 8, 7, 6, 5]).unwrap(), vec![1, 2, 9, 8, 7, 6]);
    assert_eq!(v2::seal(&[1, 2], &[9, 8, 7]), Err(Error::DigestTooShort(3)));
    let mut run = MAGIC.to_vec();
    run.push(VERSION_V2);
    run.extend_from_slice(&2u32.to_be_bytes());
    run.extend_from_slice(b"hi");
    run.extend_from_slice(&[1, 2, 3, 4]);
    assert_eq!(v2::open_frame(&run, &[1, 2, 3, 4, 0]), Some(b"hi".to_vec()));
    assert_eq!(v2::open_frame(&run, &[1, 2, 3, 5]), None);
}

#[test]
fn each_located_range_is_the_marker_then_a_whole_frame() {
    let mut frame = MAGIC.to_vec();
    frame.push(VERSION);
    frame.extend_from_slice(&(PAYLOAD.len() as u32).to_be_bytes());
    frame.extend_from_slice(PAYLOAD);
    let padded_frame = [frame.clone(), vec![0x00, 0x10]].concat();
    let asset = format!("{HOST}{} and more {}", carry(&frame), carry(&padded_frame));
    let found = locate_all(&asset);
    assert_eq!(found.len(), 2);
    assert_eq!(&asset[found[0].range()], carry(&frame));
    assert_eq!(&asset[found[1].range()], carry(&padded_frame));
    assert!(found[0].start + found[0].length <= found[1].start);
    for w in &found {
        assert_eq!(w.version, VERSION);
        assert_eq!(w.payload, PAYLOAD);
    }
}
