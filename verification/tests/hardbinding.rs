use c2pa_unstructured_text::hardbinding::{
    apply_exclusions, base64, compute_data_hash, hashed_bytes, manifest_exclusion,
    verify_data_hash, Algorithm, DataHash, Exclusion, Hasher, Normalizer, RustCrypto, UnicodeNfc,
};
use c2pa_unstructured_text::{wrapper, Error};

const HOST: &str = "This sentence carries an invisible C2PA text manifest wrapper at its end.";
const PAYLOAD: &[u8] = b"c2pa-manifest-01";

/// A deterministic stand-in so the core is testable without a real digest.
struct SumHasher;
impl Hasher for SumHasher {
    fn digest(&self, alg: Algorithm, data: &[u8]) -> Vec<u8> {
        let n: u64 = data.iter().map(|&b| b as u64).sum();
        let mut v = alg.id().as_bytes().to_vec();
        v.extend_from_slice(&n.to_be_bytes());
        v
    }
}

/// Identity normalizer: correct for the ASCII fixtures used here.
struct AsciiNormalizer;
impl Normalizer for AsciiNormalizer {
    fn nfc(&self, text: &str) -> String {
        text.to_string()
    }
}

#[test]
fn exclusion_covers_the_marker_and_the_whole_run() {
    let asset = wrapper::embed(HOST, PAYLOAD).unwrap();
    let ex = manifest_exclusion(&asset).unwrap();
    assert_eq!(ex.start, HOST.len());
    assert_eq!(ex.start + ex.length, asset.len());
    assert!(asset[ex.start..].starts_with(wrapper::MARKER));
}

#[test]
fn padding_is_inside_the_exclusion() {
    let padded = wrapper::encode_padded(PAYLOAD).unwrap();
    let asset = format!("{HOST}{padded}");
    let ex = manifest_exclusion(&asset).unwrap();
    assert_eq!(ex.length, padded.len());
    let covered = hashed_bytes(&asset, &[ex], &AsciiNormalizer).unwrap();
    assert_eq!(covered, HOST.as_bytes());
}

#[test]
fn covered_bytes_are_the_visible_text() {
    let asset = wrapper::embed(HOST, PAYLOAD).unwrap();
    let ex = manifest_exclusion(&asset).unwrap();
    assert_eq!(
        hashed_bytes(&asset, &[ex], &AsciiNormalizer).unwrap(),
        HOST.as_bytes()
    );
}

#[test]
fn compute_then_verify_round_trips() {
    let asset = wrapper::embed(HOST, PAYLOAD).unwrap();
    let dh =
        compute_data_hash(&asset, Algorithm::Sha256, &SumHasher, &AsciiNormalizer).unwrap();
    assert_eq!(dh.alg, "sha256");
    assert_eq!(dh.label(), "c2pa.hash.data");
    assert!(verify_data_hash(&asset, &dh, &SumHasher, &AsciiNormalizer).is_ok());
}

#[test]
fn editing_the_visible_text_breaks_the_binding() {
    let asset = wrapper::embed(HOST, PAYLOAD).unwrap();
    let dh =
        compute_data_hash(&asset, Algorithm::Sha256, &SumHasher, &AsciiNormalizer).unwrap();
    let tampered = wrapper::embed(&HOST.replace("invisible", "visible!"), PAYLOAD).unwrap();
    assert_eq!(
        verify_data_hash(&tampered, &dh, &SumHasher, &AsciiNormalizer),
        Err(Error::MalformedExclusion)
    );
    let same_len = wrapper::embed(&HOST.replace("invisible", "invisibIe"), PAYLOAD).unwrap();
    assert_eq!(
        verify_data_hash(&same_len, &dh, &SumHasher, &AsciiNormalizer),
        Err(Error::HashMismatch)
    );
}

#[test]
fn an_exclusion_that_is_not_the_wrapper_is_rejected() {
    let asset = wrapper::embed(HOST, PAYLOAD).unwrap();
    let mut dh =
        compute_data_hash(&asset, Algorithm::Sha256, &SumHasher, &AsciiNormalizer).unwrap();
    dh.exclusions = vec![Exclusion {
        start: 0,
        length: 4,
    }];
    assert_eq!(
        verify_data_hash(&asset, &dh, &SumHasher, &AsciiNormalizer),
        Err(Error::MalformedExclusion)
    );
}

#[test]
fn malformed_ranges_are_rejected() {
    let asset = wrapper::embed(HOST, PAYLOAD).unwrap();
    let bad = [
        Exclusion {
            start: 10,
            length: 5,
        },
        Exclusion {
            start: 5,
            length: 5,
        },
    ];
    assert_eq!(
        apply_exclusions(&asset, &bad),
        Err(Error::MalformedExclusion)
    );
    assert_eq!(
        apply_exclusions(
            &asset,
            &[Exclusion {
                start: 0,
                length: asset.len() + 1
            }]
        ),
        Err(Error::MalformedExclusion)
    );
}

#[test]
fn unsupported_algorithm_is_reported() {
    let asset = wrapper::embed(HOST, PAYLOAD).unwrap();
    let mut dh =
        compute_data_hash(&asset, Algorithm::Sha256, &SumHasher, &AsciiNormalizer).unwrap();
    dh.alg = "sha1".into();
    assert_eq!(
        verify_data_hash(&asset, &dh, &SumHasher, &AsciiNormalizer),
        Err(Error::UnsupportedAlgorithm("sha1".into()))
    );
}

#[test]
fn json_shape_matches_the_data_hash_map() {
    let dh = DataHash {
        exclusions: vec![Exclusion {
            start: 73,
            length: 114,
        }],
        alg: "sha256".into(),
        hash: vec![0xDE, 0xAD, 0xBE, 0xEF],
        name: None,
    };
    assert_eq!(
        dh.to_json(),
        r#"{"exclusions":[{"start":73,"length":114}],"alg":"sha256","hash":"3q2+7w=="}"#
    );
}

#[test]
fn base64_matches_rfc4648_vectors() {
    assert_eq!(base64(b""), "");
    assert_eq!(base64(b"f"), "Zg==");
    assert_eq!(base64(b"fo"), "Zm8=");
    assert_eq!(base64(b"foo"), "Zm9v");
    assert_eq!(base64(b"foob"), "Zm9vYg==");
    assert_eq!(base64(b"fooba"), "Zm9vYmE=");
    assert_eq!(base64(b"foobar"), "Zm9vYmFy");
}

#[test]
fn json_lists_several_exclusions_and_the_name() {
    let dh = DataHash {
        exclusions: vec![
            Exclusion { start: 0, length: 3 },
            Exclusion { start: 10, length: 0 },
        ],
        alg: "sha512".into(),
        hash: vec![0xFF, 0x00],
        name: Some("binding".into()),
    };
    assert_eq!(
        dh.to_json(),
        r#"{"exclusions":[{"start":0,"length":3},{"start":10,"length":0}],"alg":"sha512","hash":"/wA=","name":"binding"}"#
    );
    let empty = DataHash { exclusions: vec![], alg: "sha256".into(), hash: vec![], name: None };
    assert_eq!(empty.to_json(), r#"{"exclusions":[],"alg":"sha256","hash":""}"#);
}

#[test]
fn algorithm_identifiers_round_trip() {
    for alg in [Algorithm::Sha256, Algorithm::Sha384, Algorithm::Sha512] {
        assert_eq!(Algorithm::from_id(alg.id()), Ok(alg));
    }
    assert_eq!(Algorithm::Sha384.id(), "sha384");
    assert_eq!(
        Algorithm::from_id("SHA256"),
        Err(Error::UnsupportedAlgorithm("SHA256".into()))
    );
}

#[test]
fn several_exclusions_are_removed_in_order() {
    let kept = apply_exclusions(
        "0123456789",
        &[Exclusion { start: 1, length: 2 }, Exclusion { start: 3, length: 0 }, Exclusion { start: 5, length: 5 }],
    )
    .unwrap();
    assert_eq!(kept, "034");
    assert_eq!(apply_exclusions("héllo", &[]).unwrap(), "héllo");
    // Byte 2 falls inside the two-byte 'é'.
    assert_eq!(
        apply_exclusions("héllo", &[Exclusion { start: 2, length: 1 }]),
        Err(Error::MalformedExclusion)
    );
    assert_eq!(
        apply_exclusions("abc", &[Exclusion { start: usize::MAX, length: 2 }]),
        Err(Error::MalformedExclusion)
    );
}

#[test]
fn binding_needs_a_wrapper_and_a_nonempty_exclusion_list() {
    assert_eq!(
        compute_data_hash(HOST, Algorithm::Sha256, &SumHasher, &AsciiNormalizer),
        Err(Error::NotFound)
    );
    let asset = wrapper::embed(HOST, PAYLOAD).unwrap();
    let mut dh =
        compute_data_hash(&asset, Algorithm::Sha384, &SumHasher, &AsciiNormalizer).unwrap();
    assert_eq!(dh.alg, "sha384");
    assert_eq!(dh.exclusions, vec![Exclusion { start: HOST.len(), length: asset.len() - HOST.len() }]);
    dh.exclusions.clear();
    assert_eq!(
        verify_data_hash(&asset, &dh, &SumHasher, &AsciiNormalizer),
        Err(Error::MalformedExclusion)
    );
}

#[test]
fn provided_sha256_digest_is_the_standard_one() {
    let asset = wrapper::embed("abc", PAYLOAD).unwrap();
    let dh = compute_data_hash(&asset, Algorithm::Sha256, &RustCrypto, &UnicodeNfc).unwrap();
    assert_eq!(
        dh.hash,
        vec![
            0xba, 0x78, 0x16, 0xbf, 0x8f, 0x01, 0xcf, 0xea, 0x41, 0x41, 0x40, 0xde, 0x5d, 0xae,
            0x22, 0x23, 0xb0, 0x03, 0x61, 0xa3, 0x96, 0x17, 0x7a, 0x9c, 0xb4, 0x10, 0xff, 0x61,
            0xf2, 0x00, 0x15, 0xad
        ]
    );
    assert_eq!(RustCrypto.digest(Algorithm::Sha384, b"").len(), 48);
    assert_eq!(RustCrypto.digest(Algorithm::Sha512, b"").len(), 64);
    assert_eq!(UnicodeNfc.nfc("e\u{0301}"), "\u{e9}");
}

#[test]
fn an_exclusion_list_beyond_the_wrapper_is_rejected() {
    let asset = wrapper::embed(HOST, PAYLOAD).unwrap();
    let mut dh =
        compute_data_hash(&asset, Algorithm::Sha256, &SumHasher, &AsciiNormalizer).unwrap();
    let located = dh.exclusions[0];
    dh.exclusions = vec![Exclusion { start: 0, length: 4 }, located];
    assert_eq!(
        verify_data_hash(&asset, &dh, &SumHasher, &AsciiNormalizer),
        Err(Error::MalformedExclusion)
    );
    dh.exclusions = vec![located, located];
    assert_eq!(
        verify_data_hash(&asset, &dh, &SumHasher, &AsciiNormalizer),
        Err(Error::MalformedExclusion)
    );
}

#[test]
fn base64_uses_the_alphabet_and_pads_only_at_the_end() {
    let alphabet = |c: char| c.is_ascii_alphanumeric() || c == '+' || c == '/';
    for n in 0usize..12 {
        let bytes: Vec<u8> = (0..n).map(|i| (i * 97 + 251) as u8).collect();
        let s = base64(&bytes);
        assert_eq!(s.len(), 4 * ((n + 2) / 3));
        let cs: Vec<char> = s.chars().collect();
        for (j, &c) in cs.iter().enumerate() {
            assert!(alphabet(c) || (c == '=' && j + 2 >= cs.len()), "{s}");
        }
        let pads = cs.iter().filter(|&&c| c == '=').count();
        assert_eq!(pads, (3 - n % 3) % 3, "{s}");
    }
}
