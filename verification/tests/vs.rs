use c2pa_unstructured_text::vs::{byte_to_vs, decode_run, encode_run, is_vs, vs_to_byte};

#[test]
fn spec_boundary_vectors() {
    assert_eq!(byte_to_vs(0x00), '\u{FE00}');
    assert_eq!(byte_to_vs(0x0F), '\u{FE0F}');
    assert_eq!(byte_to_vs(0x10), '\u{E0100}');
    assert_eq!(byte_to_vs(0xFF), '\u{E01EF}');
}

#[test]
fn codec_is_a_bijection() {
    let mut seen = std::collections::HashSet::new();
    for b in 0u8..=0xFF {
        let c = byte_to_vs(b);
        assert_eq!(vs_to_byte(c), Some(b), "byte {b:#04x} did not round-trip");
        assert!(seen.insert(c), "byte {b:#04x} collided on {c:?}");
    }
    assert_eq!(seen.len(), 256);
}

#[test]
fn non_selectors_are_rejected() {
    for c in ['a', 'Z', '0', ' ', '\n', '\u{FEFF}', '\u{FDFF}', '\u{FE10}'] {
        assert_eq!(vs_to_byte(c), None, "{c:?} was accepted");
        assert!(!is_vs(c));
    }
    assert_eq!(vs_to_byte('\u{E01F0}'), None);
}

#[test]
fn run_round_trips_and_reports_its_end() {
    let payload = [0xDEu8, 0xAD, 0xBE, 0xEF, 0x00, 0x0F, 0x10];
    let run = encode_run(&payload);
    let (decoded, end) = decode_run(&run);
    assert_eq!(decoded, payload);
    assert_eq!(end, run.len());
}

#[test]
fn run_stops_at_visible_text() {
    let mut s = encode_run(&[0x01, 0x02]);
    let run_len = s.len();
    s.push_str("tail");
    let (decoded, end) = decode_run(&s);
    assert_eq!(decoded, vec![0x01, 0x02]);
    assert_eq!(
        end, run_len,
        "end offset must be the first non-selector byte"
    );
    assert_eq!(&s[end..], "tail");
}

#[test]
fn empty_input_decodes_to_nothing() {
    assert_eq!(decode_run(""), (Vec::new(), 0));
    assert_eq!(encode_run(&[]), "");
}

#[test]
fn selector_widths_are_three_then_four_bytes() {
    assert_eq!(encode_run(&[0x00]).len(), 3);
    assert_eq!(encode_run(&[0x0F]).len(), 3);
    assert_eq!(encode_run(&[0x10]).len(), 4);
    assert_eq!(encode_run(&[0xFF]).len(), 4);
    assert_eq!(encode_run(&[0xFF]), "\u{E01EF}");
    assert!(is_vs('\u{FE00}'));
    assert_eq!(vs_to_byte('\u{E0100}'), Some(0x10));
}

#[test]
fn a_run_opening_with_text_is_empty() {
    assert_eq!(decode_run("x\u{FE00}"), (Vec::new(), 0));
    assert_eq!(decode_run("\u{FE01}é"), (vec![0x01], 3));
}
