use everythingx::utf16_to_utf8::{convert, ByteOrder, Endianness, Error, InvalidSequencePolicy, Options};

fn utf16le(text: &str) -> Vec<u8> {
    text.encode_utf16().flat_map(|u| u.to_le_bytes()).collect()
}

#[test]
fn utf16_le_text_with_astral_scalar_round_trips() {
    let text = "héllo €𝄞";
    let mut out = Vec::new();
    let report = convert(&utf16le(text), &mut out, &Options::default()).unwrap();
    assert_eq!(out, text.as_bytes());
    assert_eq!(report.decoded_scalar_values, text.chars().count() as u64);
    assert!(report.default_endianness_used);
    assert_eq!(report.output_bytes, text.len() as u64);
}

#[test]
fn utf16_big_endian_bom_is_consumed() {
    let bytes = [0xFE, 0xFF, 0x00, 0x41, 0x20, 0xAC];
    let mut out = Vec::new();
    let report = convert(&bytes, &mut out, &Options { emit_utf8_bom: true, ..Options::default() }).unwrap();
    assert_eq!(out, [0xEF, 0xBB, 0xBF, 0x41, 0xE2, 0x82, 0xAC]);
    assert!(report.input_bom_consumed);
    assert_eq!(report.detected_endianness, ByteOrder::Big);
}

#[test]
fn utf16_conflicting_bom_is_rejected() {
    let options = Options { input_endianness: Endianness::Big, ..Options::default() };
    let error = convert(&[0xFF, 0xFE, 0x41, 0x00], &mut Vec::new(), &options).unwrap_err();
    assert!(matches!(error, Error::ConflictingBom { configured: ByteOrder::Big, bom: ByteOrder::Little }));
}

#[test]
fn utf16_malformed_sequences_error_or_replace() {
    let lone_low = [0x00, 0xDC, 0x41, 0x00];
    assert!(matches!(
        convert(&lone_low, &mut Vec::new(), &Options::default()),
        Err(Error::UnexpectedLowSurrogate { code_unit_index: 0, value: 0xDC00 })
    ));
    let trailing_high = [0x41, 0x00, 0x3D, 0xD8];
    assert!(matches!(
        convert(&trailing_high, &mut Vec::new(), &Options::default()),
        Err(Error::UnpairedHighSurrogate { code_unit_index: 1, value: 0xD83D })
    ));
    let options = Options { invalid_sequence: InvalidSequencePolicy::Replace, ..Options::default() };
    let mut out = Vec::new();
    let report = convert(&[0x3D, 0xD8, 0x41, 0x00], &mut out, &options).unwrap();
    assert_eq!(out, [0xEF, 0xBF, 0xBD, 0x41]);
    assert_eq!(report.replacement_count, 1);
    assert_eq!(report.warnings.len(), 1);
}

#[test]
fn utf16_odd_lengths_are_rejected() {
    assert!(matches!(convert(&[0x41], &mut Vec::new(), &Options::default()), Err(Error::OddByteLength { byte_offset: 0 })));
    assert!(matches!(convert(&[0x41, 0x00, 0x42], &mut Vec::new(), &Options::default()), Err(Error::OddByteLength { byte_offset: 2 })));
    assert!(matches!(convert(&[], &mut Vec::new(), &Options { buffer_size: 1, ..Options::default() }), Err(Error::InvalidOptions(_))));
}
