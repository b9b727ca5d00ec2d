use everythingx::bmp_to_png::deflate::fixed_rle;
use everythingx::inflate::inflate_zlib;
use everythingx::legacy_native::gif::decode_gif;
use everythingx::legacy_native::icon::decode_dib;
use everythingx::legacy_native::Error as LegacyError;
use everythingx::png_codec::zlib_store;
use everythingx::png_to_qoi::netpbm::decode_ppm;
use everythingx::png_to_qoi::tga::{decode_tga, encode_tga};
use everythingx::png_to_qoi::{Image, Options, Pixel};

fn sample_bytes(n: usize) -> Vec<u8> {
    let mut v = Vec::new();
    for i in 0..n {
        v.push(((i * 7 + i / 300) % 251) as u8);
    }
    v
}

#[test]
fn stored_zlib_inflates_back() {
    for n in [0usize, 1, 5, 65535, 65536, 140_000] {
        let data = sample_bytes(n);
        let z = zlib_store(&data);
        assert_eq!(inflate_zlib(&z, data.len()), Ok(data));
    }
}

#[test]
fn fixed_rle_inflates_back() {
    let mut data = vec![9u8; 1000];
    data.extend_from_slice(&sample_bytes(700));
    data.extend_from_slice(&[3, 3, 3, 4, 4, 5]);
    data.extend(std::iter::repeat(0u8).take(259));
    for d in [Vec::new(), vec![1u8], data] {
        let z = fixed_rle(&d);
        assert_eq!(&z[0..2], &[0x78u8, 0x01]);
        assert_eq!(inflate_zlib(&z, d.len()), Ok(d));
    }
}

#[test]
fn fixed_rle_stream_bytes_are_exact() {
    // One literal 0x41 (code 0x71, eight bits), end of block (seven zero bits).
    let z = fixed_rle(&[0x41]);
    assert_eq!(z, vec![0x78, 0x01, 0x73, 0x04, 0x00, 0x00, 0x42, 0x00, 0x42]);
}

fn tga_image(alpha: bool) -> Image {
    let mut pixels = Vec::new();
    for i in 0..12u32 {
        let v = (i * 21) as u8;
        pixels.push(Pixel { r: v, g: v / 2, b: 255 - v, a: if alpha && i % 3 == 0 { 128 } else { 255 } });
    }
    pixels[5] = pixels[4];
    pixels[6] = pixels[4];
    Image { width: 4, height: 3, source_channels: 4, pixels, warnings: Vec::new() }
}

#[test]
fn tga_round_trips_raw_and_rle() {
    for alpha in [false, true] {
        for rle in [false, true] {
            let img = tga_image(alpha);
            let bytes = encode_tga(&img, rle).unwrap().bytes;
            let back = decode_tga(&bytes, &Options::default()).unwrap();
            assert_eq!((back.width, back.height), (4, 3));
            assert_eq!(back.pixels, img.pixels);
        }
    }
}

#[test]
fn tga_bottom_up_rows_are_flipped() {
    let mut b = vec![0u8, 0, 2, 0, 0, 0, 0, 0, 0, 0, 0, 0, 1, 0, 2, 0, 24, 0x00];
    b.extend_from_slice(&[1, 2, 3, 4, 5, 6]);
    let mut options = Options::default();
    options.strict_trailing_data = false;
    let img = decode_tga(&b, &options).unwrap();
    assert_eq!(img.pixels[0], Pixel { r: 6, g: 5, b: 4, a: 255 });
    assert_eq!(img.pixels[1], Pixel { r: 3, g: 2, b: 1, a: 255 });
}

#[test]
fn ppm_text_samples_are_rescaled() {
    let mut options = Options::default();
    options.allow_sample_scaling = true;
    let img = decode_ppm(b"P3\n2 1\n15\n15 0 7  1 2 3\n", &options).unwrap();
    assert_eq!(img.pixels[0], Pixel { r: 255, g: 0, b: 119, a: 255 });
    assert_eq!(img.pixels[1], Pixel { r: 17, g: 34, b: 51, a: 255 });
}

#[test]
fn ppm_binary_samples_are_read_in_order() {
    let img = decode_ppm(b"P6\n1 2\n255\n\x01\x02\x03\x04\x05\x06", &Options::default()).unwrap();
    assert_eq!(img.pixels, vec![Pixel { r: 1, g: 2, b: 3, a: 255 }, Pixel { r: 4, g: 5, b: 6, a: 255 }]);
}

#[test]
fn gif_header_refusals_are_exact() {
    assert_eq!(decode_gif(b"GIF", 100, 10, 100).err(), Some(LegacyError::Truncated("GIF header")));
    assert_eq!(decode_gif(b"GIF88a\x01\x00\x01\x00\x00\x00\x00", 100, 10, 100).err(), Some(LegacyError::Signature("GIF")));
    assert_eq!(decode_gif(b"GIF89a\x01\x00", 100, 10, 100).err(), Some(LegacyError::Truncated("GIF logical screen descriptor")));
    assert_eq!(decode_gif(b"GIF89a\x00\x00\x01\x00\x00\x00\x00", 100, 10, 100).err(), Some(LegacyError::Invalid("zero image dimension")));
    assert_eq!(decode_gif(b"GIF87a\x0b\x00\x0a\x00\x00\x00\x00", 100, 10, 100).err(), Some(LegacyError::Limit("pixel count")));
}

fn dib_24(mask_byte: u8) -> Vec<u8> {
    let mut b = vec![0u8; 40];
    b[0] = 40;
    b[4] = 2;
    b[8] = 2;
    b[12] = 1;
    b[14] = 24;
    b.extend_from_slice(&[10, 20, 30, 40, 50, 60, 0, 0]);
    b.extend_from_slice(&[mask_byte, 0, 0, 0]);
    b
}

#[test]
fn dib_pixels_take_the_and_mask_as_alpha() {
    let img = decode_dib(&dib_24(0x40), 100).unwrap();
    assert_eq!((img.width, img.height), (2, 1));
    assert_eq!(img.pixels[0].r, 30);
    assert_eq!(img.pixels[0].b, 10);
    assert_eq!(img.pixels[0].a, 255);
    assert_eq!(img.pixels[1].r, 60);
    assert_eq!(img.pixels[1].a, 0);
}
