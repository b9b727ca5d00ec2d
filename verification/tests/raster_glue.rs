use everythingx::legacy_native::icon::IconKind;
use everythingx::raster_glue::{
    decode_icon, decode_png, encode_gif, encode_icon, encode_png, Error, Image, Options, Pixel,
};

fn options() -> Options {
    Options {
        max_pixels: 100_000_000,
        max_frames: 16,
        max_input_bytes: 1 << 20,
        max_members: 16,
        cursor_hotspot_x: 0,
        cursor_hotspot_y: 0,
        strict_trailing_data: true,
        allow_sample_scaling: false,
    }
}

fn image(pixels: Vec<Pixel>, width: u32, height: u32) -> Image {
    Image { width, height, source_channels: 4, pixels, warnings: Vec::new() }
}

#[test]
fn png_round_trip_keeps_pixels() {
    let px = vec![
        Pixel { r: 1, g: 2, b: 3, a: 255 },
        Pixel { r: 250, g: 128, b: 0, a: 255 },
    ];
    let encoded = encode_png(&image(px.clone(), 2, 1)).unwrap();
    assert_eq!(encoded.channels, 3);
    assert_eq!(encoded.alpha_action, "preserved");
    let decoded = decode_png(&encoded.bytes, &options()).unwrap();
    assert_eq!((decoded.width, decoded.height), (2, 1));
    assert_eq!(decoded.pixels, px);
}

#[test]
fn translucent_pixels_make_rgba() {
    let px = vec![Pixel { r: 9, g: 8, b: 7, a: 100 }];
    let encoded = encode_png(&image(px.clone(), 1, 1)).unwrap();
    assert_eq!(encoded.channels, 4);
    assert_eq!(decode_png(&encoded.bytes, &options()).unwrap().pixels, px);
}

#[test]
fn non_png_bytes_are_png_errors() {
    assert!(matches!(decode_png(b"GIF89a", &options()), Err(Error::Png(_))));
    assert!(matches!(encode_png(&image(vec![], 0, 0)), Err(Error::Png(_))));
}

#[test]
fn icon_round_trip_names_the_selected_member() {
    let px = vec![Pixel { r: 10, g: 20, b: 30, a: 255 }; 4];
    let encoded = encode_icon(&image(px.clone(), 2, 2), &options(), IconKind::Icon).unwrap();
    assert_eq!(encoded.alpha_action, "preserved-in-single-png-member");
    let decoded = decode_icon(&encoded.bytes, &options(), IconKind::Icon).unwrap();
    assert_eq!(decoded.pixels, px);
    assert_eq!(decoded.warnings, vec!["selected best member from 1 entries: 2x2, PNG payload".to_string()]);
}

#[test]
fn gif_encoding_writes_the_header() {
    let px = vec![Pixel { r: 1, g: 1, b: 1, a: 255 }, Pixel { r: 2, g: 2, b: 2, a: 255 }];
    let encoded = encode_gif(&image(px, 2, 1)).unwrap();
    assert_eq!(&encoded.bytes[..6], b"GIF89a");
    assert_eq!(encoded.channels, 3);
}
