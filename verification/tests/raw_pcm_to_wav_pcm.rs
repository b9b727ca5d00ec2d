use everythingx::raw_pcm_to_wav_pcm::{convert, Endianness, Error, IntegerEncoding, Options};

fn data(output: &[u8]) -> &[u8] {
    assert_eq!(&output[..4], b"RIFF");
    assert_eq!(&output[8..12], b"WAVE");
    assert_eq!(&output[36..40], b"data");
    &output[44..44 + u32::from_le_bytes(output[40..44].try_into().unwrap()) as usize]
}

#[test]
fn defaults_wrap_signed_16_little_endian() {
    let source = [0x34, 0x12, 0xcc, 0xed];
    let mut output = Vec::new();
    let report = convert(&source, &mut output, &Options::default()).unwrap();
    assert_eq!(data(&output), source);
    assert_eq!(report.sample_frames, 2);
    assert_eq!(u32::from_le_bytes(output[24..28].try_into().unwrap()), 44_100);
}

#[test]
fn big_endian_samples_are_reversed() {
    let mut options = Options::default();
    options.input_endianness = Endianness::Big;
    let mut output = Vec::new();
    convert(&[0x12, 0x34, 0xab, 0xcd], &mut output, &options).unwrap();
    assert_eq!(data(&output), [0x34, 0x12, 0xcd, 0xab]);
}

#[test]
fn conversion_signed_eight_bit_becomes_wave_unsigned() {
    let mut options = Options::default();
    options.bits_per_sample = 8;
    options.input_encoding = IntegerEncoding::Signed;
    let mut output = Vec::new();
    convert(&[0x80, 0x00, 0x7f], &mut output, &options).unwrap();
    assert_eq!(data(&output), [0x00, 0x80, 0xff]);
    assert_eq!(output.len(), 48);
}

#[test]
fn unsigned_sixteen_bit_is_rebiased() {
    let mut options = Options::default();
    options.input_encoding = IntegerEncoding::Unsigned;
    let mut output = Vec::new();
    convert(&[0x00, 0x00, 0xff, 0xff], &mut output, &options).unwrap();
    assert_eq!(data(&output), [0x00, 0x80, 0xff, 0x7f]);
}

#[test]
fn strict_alignment_rejects_partial_frame() {
    let error = convert(&[1, 2, 3], &mut Vec::new(), &Options::default()).unwrap_err();
    assert!(matches!(error, Error::MisalignedInput { .. }));
}

#[test]
fn relaxed_alignment_discards_partial_frame() {
    let mut options = Options::default();
    options.strict_frame_alignment = false;
    let mut output = Vec::new();
    let report = convert(&[1, 2, 3], &mut output, &options).unwrap();
    assert_eq!(data(&output), [1, 2]);
    assert_eq!(report.discarded_trailing_bytes, 1);
    assert_eq!(report.warnings.len(), 1);
}

#[test]
fn respects_current_input_position() {
    let source = [9, 9, 0x34, 0x12];
    let mut output = Vec::new();
    convert(&source[2..], &mut output, &Options::default()).unwrap();
    assert_eq!(data(&output), [0x34, 0x12]);
}

#[test]
fn warning_text_names_discarded_byte_count() {
    let mut options = Options::default();
    options.strict_frame_alignment = false;
    let report = convert(&[1, 2, 3, 4, 5], &mut Vec::new(), &options).unwrap();
    assert_eq!(report.warnings[0], "discarded 1 trailing byte(s) that do not form a complete frame");
}

#[test]
fn invalid_options_and_header_limits_are_reported() {
    let mut options = Options::default();
    options.bits_per_sample = 12;
    assert!(matches!(convert(&[0, 0], &mut Vec::new(), &options), Err(Error::InvalidOptions(_))));
    let mut options = Options::default();
    options.channels = 300;
    options.max_channels = 300;
    options.sample_rate = u32::MAX;
    assert!(matches!(convert(&[], &mut Vec::new(), &options), Err(Error::ArithmeticOverflow)));
}
