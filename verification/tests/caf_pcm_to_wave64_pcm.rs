use everythingx::caf_pcm_to_wave64_pcm::{
    aiff_plan, au_plan, caf_plan, conformance_fixture, convert, parse_aiff, parse_au, parse_caf, parse_riff, parse_wave64, riff_plan,
    storage, transform, wave64_plan, Endian, Error, Format, Options, Profile, Storage, SOURCE, TARGET,
};

fn canonical_storage() -> Storage {
    Storage { endian: Endian::Little, eight_bit_signed: true }
}

fn fixture(profile: Profile, bits: u16, canonical: &[u8]) -> Vec<u8> {
    let format = Format { channels: 1, rate: 44_100, container_bits: bits, valid_bits: bits, block_align: bits / 8 };
    let plan = match profile {
        Profile::Wav | Profile::Rf64 | Profile::Bw64 | Profile::Bwf => riff_plan(profile, format, canonical.len() as u64).unwrap(),
        Profile::Aiff => aiff_plan(format, canonical.len() as u64).unwrap(),
        Profile::Caf => caf_plan(format, canonical.len() as u64).unwrap(),
        Profile::Au => au_plan(format, canonical.len() as u64).unwrap(),
        Profile::Wave64 => wave64_plan(format, canonical.len() as u64).unwrap(),
    };
    let mut out = plan.prefix;
    transform(&mut out, canonical, 0, canonical.len(), usize::from(bits / 8), canonical_storage(), storage(profile));
    out.extend(std::iter::repeat_n(0, plan.padding));
    out
}

fn decoded_target(bytes: Vec<u8>) -> Vec<u8> {
    let options = Options::default();
    let parsed = match TARGET {
        Profile::Wav | Profile::Rf64 | Profile::Bw64 | Profile::Bwf => parse_riff(&bytes, TARGET, &options).unwrap(),
        Profile::Aiff => parse_aiff(&bytes, &options).unwrap(),
        Profile::Caf => parse_caf(&bytes, &options).unwrap(),
        Profile::Au => parse_au(&bytes, &options).unwrap(),
        Profile::Wave64 => parse_wave64(&bytes, &options).unwrap(),
    };
    let mut audio = Vec::new();
    for segment in &parsed.segments {
        transform(&mut audio, &bytes, segment.offset, segment.size, usize::from(parsed.format.container_bits / 8), parsed.storage, canonical_storage());
    }
    audio
}

#[test]
fn preserves_sixteen_bit_pcm() {
    let source = fixture(SOURCE, 16, &[0x34, 0x12, 0xcc, 0xed]);
    let mut output = Vec::new();
    let report = convert(&source, &mut output, &Options::default()).unwrap();
    assert_eq!(decoded_target(output), [0x34, 0x12, 0xcc, 0xed]);
    assert_eq!(report.sample_frames, 2);
}

#[test]
fn preserves_eight_bit_levels_across_signedness_conventions() {
    let source = fixture(SOURCE, 8, &[0x80, 0x00, 0x7f]);
    let mut output = Vec::new();
    convert(&source, &mut output, &Options::default()).unwrap();
    assert_eq!(decoded_target(output), [0x80, 0x00, 0x7f]);
}

#[test]
fn rejects_wrong_signature() {
    let error = convert(&vec![0u8; 64], &mut Vec::new(), &Options::default()).unwrap_err();
    assert!(matches!(error, Error::Invalid(_)));
}

#[test]
fn strict_defaults_reject_trailing_bytes() {
    let mut source = fixture(SOURCE, 16, &[0, 0]);
    source.push(0);
    let result = convert(&source, &mut Vec::new(), &Options::default());
    assert!(result.is_err());
}

#[test]
fn every_profile_round_trips_through_its_own_parser() {
    for profile in [Profile::Wav, Profile::Aiff, Profile::Caf, Profile::Au, Profile::Rf64, Profile::Bw64, Profile::Wave64] {
        let bytes = fixture(profile, 16, &[0x34, 0x12, 0x01, 0x80]);
        let options = Options::default();
        let parsed = match profile {
            Profile::Wav | Profile::Rf64 | Profile::Bw64 | Profile::Bwf => parse_riff(&bytes, profile, &options),
            Profile::Aiff => parse_aiff(&bytes, &options),
            Profile::Caf => parse_caf(&bytes, &options),
            Profile::Au => parse_au(&bytes, &options),
            Profile::Wave64 => parse_wave64(&bytes, &options),
        }
        .unwrap();
        assert_eq!(parsed.audio_bytes, 4, "{:?}", profile);
        assert_eq!(parsed.format.rate, 44_100, "{:?}", profile);
    }
    assert!(!conformance_fixture().is_empty());
}
