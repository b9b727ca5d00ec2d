use everythingx::png_codec::{decode, encode, DecodeOptions, Error, Filter, Image, Pixel16};

fn options() -> DecodeOptions {
    DecodeOptions { max_pixels: 1_000, max_inflate_bytes: 1_000_000, strict_crc: true, strict_trailing_data: true }
}

fn image(depth: u8) -> Image {
    Image {
        width: 3,
        height: 2,
        source_channels: 4,
        source_bit_depth: depth,
        source_color_type: 6,
        interlaced: false,
        pixels: vec![
            Pixel16 { r: 0, g: 0, b: 0, a: 65_535 },
            Pixel16 { r: 65_535, g: 0, b: 32768, a: 32768 },
            Pixel16 { r: 257, g: 514, b: 771, a: 65_535 },
            Pixel16 { r: 1, g: 2, b: 3, a: 4 },
            Pixel16 { r: 10_000, g: 20_000, b: 30_000, a: 40_000 },
            Pixel16 { r: 65_535, g: 65_535, b: 65_535, a: 65_535 },
        ],
        warnings: Vec::new(),
    }
}

#[test]
fn canonical_roundtrip_8_and_16() {
    for depth in [8, 16] {
        let original = image(depth);
        let png = encode(&original, Filter::Adaptive).unwrap();
        let decoded = decode(&png, &options()).unwrap();
        if depth == 16 {
            assert_eq!(decoded.pixels, original.pixels);
        } else {
            assert_eq!(decoded.pixels[2], original.pixels[2]);
        }
        assert_eq!((decoded.width, decoded.height), (3, 2));
    }
}

#[test]
fn all_encoder_filters_decode() {
    for filter in [Filter::NoFilter, Filter::Sub, Filter::Up, Filter::Average, Filter::Paeth, Filter::Adaptive] {
        let png = encode(&image(16), filter).unwrap();
        assert_eq!(decode(&png, &options()).unwrap().pixels, image(16).pixels);
    }
}

#[test]
fn crc_and_adler_are_enforced() {
    let mut png = encode(&image(8), Filter::NoFilter).unwrap();
    let idat = png.windows(4).position(|v| v == b"IDAT").unwrap();
    png[idat + 8] ^= 1;
    assert!(decode(&png, &options()).is_err());
}

#[test]
fn pixel_limit_precedes_allocation() {
    let png = encode(&image(8), Filter::NoFilter).unwrap();
    let mut limited = options();
    limited.max_pixels = 5;
    assert!(matches!(decode(&png, &limited), Err(Error::Limit("pixel count"))));
}

#[test]
fn png_signature_and_dimensions_are_checked() {
    assert!(matches!(decode(b"GIF89a..", &options()), Err(Error::Signature)));
    let mut bad = image(8);
    bad.pixels.pop();
    assert!(matches!(encode(&bad, Filter::Sub), Err(Error::Invalid(_))));
}

#[test]
fn png_opaque_image_encodes_as_rgb() {
    let img = Image {
        width: 1,
        height: 1,
        source_channels: 3,
        source_bit_depth: 8,
        source_color_type: 2,
        interlaced: false,
        pixels: vec![Pixel16 { r: 65_535, g: 0, b: 257, a: 65_535 }],
        warnings: Vec::new(),
    };
    let png = encode(&img, Filter::NoFilter).unwrap();
    assert_eq!(&png[12..16], b"IHDR");
    assert_eq!(png[24], 8);
    assert_eq!(png[25], 2);
    let decoded = decode(&png, &options()).unwrap();
    assert_eq!(decoded.pixels, img.pixels);
    assert_eq!(decoded.source_color_type, 2);
}
