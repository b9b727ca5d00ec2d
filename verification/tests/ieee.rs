use everythingx::ieee::{decode_f64_rate, encode_f64_rate};

#[test]
fn whole_rates_match_std_binary64() {
    for rate in [1u32, 2, 8_000, 44_100, 48_000, 96_000, 192_000, 0x7fff_ffff, u32::MAX] {
        assert_eq!(encode_f64_rate(rate), (rate as f64).to_bits());
        assert_eq!(decode_f64_rate(encode_f64_rate(rate)), Some(rate));
    }
    assert_eq!(encode_f64_rate(0), 0);
}

#[test]
fn fractional_negative_and_huge_rates_are_refused() {
    assert_eq!(decode_f64_rate(44_100.5f64.to_bits()), None);
    assert_eq!(decode_f64_rate((-48_000f64).to_bits()), None);
    assert_eq!(decode_f64_rate(0f64.to_bits()), None);
    assert_eq!(decode_f64_rate(f64::INFINITY.to_bits()), None);
    assert_eq!(decode_f64_rate(f64::NAN.to_bits()), None);
    assert_eq!(decode_f64_rate(4_294_967_296f64.to_bits()), None);
    assert_eq!(decode_f64_rate(0.5f64.to_bits()), None);
}
