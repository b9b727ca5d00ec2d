use everythingx::adapter_options::{
    aiff_pcm_to_wav_pcm_options, bmp_to_png_options, raw_pcm_to_wav_pcm_options, wav_pcm_to_aiff_options,
    wav_pcm_to_raw_pcm_options,
};
use everythingx::option_text::{parse_flag, parse_unsigned};
use everythingx::protocol::AdapterErrorKind;

fn pairs(items: &[(&str, &str)]) -> Vec<(String, String)> {
    items.iter().map(|(n, v)| (n.to_string(), v.to_string())).collect()
}

#[test]
fn unsigned_text_follows_std_parse() {
    assert_eq!(parse_unsigned("65536", u64::MAX), Some(65536));
    assert_eq!(parse_unsigned("+7", u64::MAX), Some(7));
    assert_eq!(parse_unsigned("007", u64::MAX), Some(7));
    assert_eq!(parse_unsigned("", u64::MAX), None);
    assert_eq!(parse_unsigned("+", u64::MAX), None);
    assert_eq!(parse_unsigned("-1", u64::MAX), None);
    assert_eq!(parse_unsigned("1 ", u64::MAX), None);
    assert_eq!(parse_unsigned("65535", u16::MAX as u64), Some(65535));
    assert_eq!(parse_unsigned("65536", u16::MAX as u64), None);
    assert_eq!(parse_unsigned("18446744073709551615", u64::MAX), Some(u64::MAX));
    assert_eq!(parse_unsigned("18446744073709551616", u64::MAX), None);
    for text in ["0", "12", "+99", "4294967295", "x", "1_000"] {
        assert_eq!(parse_unsigned(text, u32::MAX as u64), text.parse::<u32>().ok().map(u64::from));
    }
}

#[test]
fn flags_are_spelled_out() {
    assert_eq!(parse_flag("true"), Some(true));
    assert_eq!(parse_flag("false"), Some(false));
    assert_eq!(parse_flag("True"), None);
    assert_eq!(parse_flag("1"), None);
}

#[test]
fn wav_to_aiff_options_apply_in_order() {
    let cap = "capability:wav-pcm-to-aiff/pcm-exact/native-portable";
    let options = wav_pcm_to_aiff_options(
        cap,
        &pairs(&[("buffer_size", "4096"), ("metadata", "discard"), ("strict_header_consistency", "false")]),
    )
    .unwrap();
    assert_eq!(options.buffer_size, 4096);
    assert_eq!(options.metadata, everythingx::wav_pcm_to_aiff::MetadataPolicy::Discard);
    assert!(!options.strict_header_consistency);
    assert_eq!(options.max_channels, 256);
    let error = wav_pcm_to_aiff_options(cap, &pairs(&[("max_channels", "70000")])).unwrap_err();
    assert_eq!(error.kind, AdapterErrorKind::InvalidOptions);
    assert_eq!(error.message, "max_channels must be an unsigned 16-bit integer");
    let error = wav_pcm_to_aiff_options(cap, &pairs(&[("colour", "red"), ("metadata", "x")])).unwrap_err();
    assert_eq!(error.message, "unknown option colour");
    let error = wav_pcm_to_aiff_options("capability:other", &pairs(&[])).unwrap_err();
    assert_eq!(error.kind, AdapterErrorKind::UnsupportedCapability);
    assert_eq!(error.message, "unsupported capability capability:other");
}

#[test]
fn audio_adapters_reject_bad_values() {
    let error = aiff_pcm_to_wav_pcm_options(
        "capability:aiff-pcm-to-wav-pcm/pcm-exact/native-portable",
        &pairs(&[("metadata", "keep")]),
    )
    .unwrap_err();
    assert_eq!(error.message, "metadata must be common-text or discard");
    let raw = raw_pcm_to_wav_pcm_options(
        "capability:raw-pcm-to-wav-pcm/pcm-exact/native-portable",
        &pairs(&[("channels", "2"), ("input_endianness", "big"), ("sample_rate", "48000")]),
    )
    .unwrap();
    assert_eq!((raw.channels, raw.sample_rate), (2, 48000));
    assert_eq!(raw.input_endianness, everythingx::raw_pcm_to_wav_pcm::Endianness::Big);
    let error = wav_pcm_to_raw_pcm_options("capability:x", &pairs(&[])).unwrap_err();
    assert_eq!(error.message, "unsupported capability");
    let error = wav_pcm_to_raw_pcm_options(
        "capability:wav-pcm-to-raw-pcm/pcm-exact/native-portable",
        &pairs(&[("output_encoding", "float")]),
    )
    .unwrap_err();
    assert_eq!(error.message, "output_encoding must be signed or unsigned");
}

#[test]
fn bmp_options_respect_the_memory_budget() {
    let cap = "capability:bmp-to-png/pixel-exact/native-portable";
    let options = bmp_to_png_options(cap, &pairs(&[("filter", "none"), ("compression", "store")]), 1 << 30).unwrap();
    assert_eq!(options.filter, everythingx::bmp_to_png::FilterStrategy::NoFilter);
    assert_eq!(options.compression, everythingx::bmp_to_png::CompressionStrategy::Store);
    let error = bmp_to_png_options(cap, &pairs(&[("idat_chunk_size", "100")]), 99).unwrap_err();
    assert_eq!(error.kind, AdapterErrorKind::ResourceLimit);
    let error = bmp_to_png_options(cap, &pairs(&[]), 100_000).unwrap_err();
    assert_eq!(error.message, "max_pixels exceeds the Adapter's conservative RLE memory budget");
}
