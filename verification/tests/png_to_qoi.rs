use everythingx::png_to_qoi::{
    conformance_fixture, convert, decode, encode, fixture_image, AlphaPolicy, Error, Options, Profile, SOURCE, TARGET,
};

#[test]
fn default_conversion_preserves_opaque_pixels() {
    let original = fixture_image(false, 8, 4);
    let source = encode(SOURCE, &original, &Options::default()).unwrap().bytes;
    let mut output = Vec::new();
    let report = convert(&source, &mut output, &Options::default()).unwrap();
    let decoded = decode(TARGET, &output, &Options::default()).unwrap();
    assert_eq!(decoded.width, original.width);
    assert_eq!(decoded.height, original.height);
    assert_eq!(decoded.pixels, original.pixels);
    assert_eq!(report.pixels, 32);
    assert_eq!(report.strategy, "rgba8-code-value-exact");
}

#[test]
fn alpha_contract_is_explicit() {
    let original = fixture_image(true, 3, 2);
    let source = encode(SOURCE, &original, &Options { ppm_alpha: AlphaPolicy::Discard, ..Options::default() }).unwrap().bytes;
    let source_decoded = decode(SOURCE, &source, &Options::default()).unwrap();
    let mut output = Vec::new();
    let result = convert(&source, &mut output, &Options::default());
    if TARGET == Profile::Ppm && source_decoded.pixels.iter().any(|pixel| pixel.a != 255) {
        assert!(matches!(result, Err(Error::AlphaNotRepresentable { .. })));
    } else {
        let report = result.unwrap();
        let decoded = decode(TARGET, &output, &Options::default()).unwrap();
        assert_eq!(decoded.pixels, source_decoded.pixels);
        assert_eq!(report.alpha_action, "preserved");
    }
}

#[test]
fn malformed_signature_is_rejected() {
    let error = convert(b"not-an-image", &mut Vec::new(), &Options::default()).unwrap_err();
    assert!(matches!(error, Error::InvalidSignature(_) | Error::Truncated(_) | Error::Png(_)));
}

#[test]
fn pixel_limit_is_enforced_before_allocation() {
    let source = conformance_fixture();
    let options = Options { max_pixels: 1, ..Options::default() };
    let error = convert(&source, &mut Vec::new(), &options).unwrap_err();
    assert!(matches!(error, Error::PixelLimitExceeded { .. }));
}

#[test]
fn every_profile_round_trips_the_fixture() {
    let options = Options { allow_sample_scaling: true, ppm_alpha: AlphaPolicy::Discard, ..Options::default() };
    for profile in [Profile::Bmp, Profile::Tga, Profile::Qoi, Profile::Pam, Profile::Png] {
        let original = fixture_image(true, 5, 3);
        let bytes = encode(profile, &original, &options).unwrap().bytes;
        let decoded = decode(profile, &bytes, &options).unwrap();
        assert_eq!(decoded.pixels, original.pixels, "{:?}", profile);
    }
    let opaque = fixture_image(false, 5, 3);
    let ppm = encode(Profile::Ppm, &opaque, &options).unwrap().bytes;
    assert!(ppm.starts_with(b"P6\n5 3\n255\n"));
    assert_eq!(decode(Profile::Ppm, &ppm, &options).unwrap().pixels, opaque.pixels);
    let tga_raw = encode(Profile::Tga, &opaque, &Options { tga_rle: false, ..options.clone() }).unwrap().bytes;
    assert_eq!(decode(Profile::Tga, &tga_raw, &options).unwrap().pixels, opaque.pixels);
}

#[test]
fn qoi_header_and_end_marker_are_exact() {
    let img = fixture_image(false, 2, 1);
    let bytes = encode(Profile::Qoi, &img, &Options::default()).unwrap().bytes;
    assert_eq!(&bytes[0..4], b"qoif");
    assert_eq!(&bytes[4..8], &2u32.to_be_bytes());
    assert_eq!(&bytes[8..12], &1u32.to_be_bytes());
    assert_eq!(bytes[12], 3);
    assert_eq!(&bytes[bytes.len() - 8..], &[0, 0, 0, 0, 0, 0, 0, 1]);
    assert!(matches!(decode(Profile::Qoi, &bytes[..bytes.len() - 1], &Options::default()), Err(Error::Truncated(_))));
}

#[test]
fn ppm_text_form_and_alpha_policies() {
    let ppm = b"P3\n# comment\n2 1\n255\n255 0 0  0 0 255\n";
    let img = decode(Profile::Ppm, ppm, &Options::default()).unwrap();
    assert_eq!((img.pixels[0].r, img.pixels[1].b), (255, 255));
    let translucent = fixture_image(true, 3, 1);
    assert!(matches!(encode(Profile::Ppm, &translucent, &Options::default()), Err(Error::AlphaNotRepresentable { non_opaque_pixels: 1 })));
    let composite = encode(Profile::Ppm, &translucent, &Options { ppm_alpha: AlphaPolicy::CompositeBlack, ..Options::default() }).unwrap();
    assert_eq!(composite.alpha_action, "composited-black-explicitly");
}
