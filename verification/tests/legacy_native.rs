use everythingx::legacy_native::gif::{decode_gif, encode_gif, interlace_rows};
use everythingx::legacy_native::icon::{decode_dib, encode_icon, parse_icon, select_best, IconKind};
use everythingx::legacy_native::{Error, Image, Pixel};

fn sample_image() -> Image {
    Image {
        width: 3,
        height: 2,
        pixels: vec![
            Pixel { r: 0, g: 0, b: 0, a: 0 },
            Pixel { r: 255, g: 0, b: 0, a: 255 },
            Pixel { r: 0, g: 255, b: 0, a: 255 },
            Pixel { r: 0, g: 0, b: 255, a: 255 },
            Pixel { r: 255, g: 255, b: 0, a: 255 },
            Pixel { r: 255, g: 255, b: 255, a: 255 },
        ],
    }
}

#[test]
fn gif_exact_palette_and_binary_alpha_round_trip() {
    let image = sample_image();
    let encoded = encode_gif(&image).unwrap();
    let decoded = decode_gif(&encoded, 100, 10, 10_000).unwrap();
    assert_eq!(decoded.frames.len(), 1);
    assert_eq!(decoded.frames[0].image, image);
}

#[test]
fn gif_lzw_width_growth_round_trips_past_twelve_bits() {
    let mut pixels = Vec::new();
    for index in 0..8192u32 {
        let value = index as u8;
        pixels.push(Pixel { r: value, g: value.wrapping_mul(37), b: value.wrapping_mul(91), a: 255 });
    }
    let image = Image { width: 4096, height: 2, pixels };
    let encoded = encode_gif(&image).unwrap();
    let decoded = decode_gif(&encoded, 10_000, 10, 100_000).unwrap();
    assert_eq!(decoded.frames[0].image, image);
}

#[test]
fn gif_animation_is_not_collapsed_by_the_decoder() {
    let image = sample_image();
    let mut encoded = encode_gif(&image).unwrap();
    let table_entries = 1usize << ((encoded[10] & 7) + 1);
    let frame_start = 13 + table_entries * 3 + 8;
    let frame = encoded[frame_start..encoded.len() - 1].to_vec();
    encoded.pop();
    encoded.extend_from_slice(&frame);
    encoded.push(0x3b);
    let decoded = decode_gif(&encoded, 100, 10, 10_000).unwrap();
    assert_eq!(decoded.frames.len(), 2);
}

#[test]
fn interlace_pass_order_visits_each_row_once() {
    assert_eq!(interlace_rows(5), vec![0, 4, 2, 1, 3]);
    assert_eq!(interlace_rows(8), vec![0, 4, 2, 6, 1, 3, 5, 7]);
}

#[test]
fn ico_dib_32_bit_alpha_and_mask_are_applied() {
    let mut dib = Vec::new();
    dib.extend_from_slice(&40u32.to_le_bytes());
    dib.extend_from_slice(&2i32.to_le_bytes());
    dib.extend_from_slice(&2i32.to_le_bytes());
    dib.extend_from_slice(&1u16.to_le_bytes());
    dib.extend_from_slice(&32u16.to_le_bytes());
    dib.extend_from_slice(&0u32.to_le_bytes());
    dib.extend_from_slice(&8u32.to_le_bytes());
    dib.extend_from_slice(&[0; 16]);
    dib.extend_from_slice(&[30, 20, 10, 128, 60, 50, 40, 255]);
    dib.extend_from_slice(&[0x40, 0, 0, 0]);
    let image = decode_dib(&dib, 10).unwrap();
    assert_eq!(image.pixels[0], Pixel { r: 10, g: 20, b: 30, a: 128 });
    assert_eq!(image.pixels[1], Pixel { r: 40, g: 50, b: 60, a: 0 });
}

#[test]
fn ico_overlapping_member_ranges_are_rejected() {
    let mut ico = vec![0, 0, 1, 0, 2, 0];
    for _ in 0..2 {
        ico.extend_from_slice(&[1, 1, 0, 0, 1, 0, 32, 0]);
        ico.extend_from_slice(&4u32.to_le_bytes());
        ico.extend_from_slice(&38u32.to_le_bytes());
    }
    ico.extend_from_slice(&[1, 2, 3, 4]);
    assert!(matches!(parse_icon(&ico, IconKind::Icon, 10), Err(Error::Invalid("overlapping ICO/CUR member ranges"))));
}

#[test]
fn interlace_rows_form_a_permutation() {
    for h in 0..40usize {
        let mut rows = interlace_rows(h);
        assert_eq!(rows.len(), h);
        rows.sort();
        assert_eq!(rows, (0..h).collect::<Vec<_>>());
    }
}

#[test]
fn icon_round_trip_and_best_member() {
    let png = [0x89u8, 0x50, 0x4e, 0x47, 0x0d, 0x0a, 0x1a, 0x0a, 1, 2];
    let ico = encode_icon(&png, 16, 256, IconKind::Icon, 0, 0).unwrap();
    assert_eq!(ico.len(), 22 + png.len());
    assert_eq!(ico[7], 0);
    let members = parse_icon(&ico, IconKind::Icon, 4).unwrap();
    assert_eq!(members.len(), 1);
    assert!(members[0].png);
    assert_eq!((members[0].width, members[0].height), (16, 256));
    assert_eq!(select_best(&members).unwrap(), 0);
    assert!(matches!(encode_icon(&png, 16, 16, IconKind::Cursor, 16, 0), Err(Error::Invalid(_))));
    assert!(matches!(parse_icon(&ico, IconKind::Cursor, 4), Err(Error::Signature("CUR"))));
}

#[test]
fn gif_rejects_partial_alpha_and_bad_signature() {
    let mut image = sample_image();
    image.pixels[0].a = 7;
    assert!(matches!(encode_gif(&image), Err(Error::Unsupported(_))));
    assert!(matches!(decode_gif(b"GIF90a.......", 100, 1, 100), Err(Error::Signature("GIF"))));
}
