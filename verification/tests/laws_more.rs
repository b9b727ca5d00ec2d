use everythingx::kernel::percentile_index;
use everythingx::png_codec::{decode, DecodeOptions, Error as PngError};
use everythingx::bmp_to_png::bmp::inspect;
use everythingx::bmp_to_png::Options as BmpOptions;
use everythingx::caf_pcm_to_wave64_pcm::{transform, Endian, Storage};
use everythingx::checksum::{crc32, crc_feed};
use everythingx::inflate::{inflate_zlib, InflateError};
use everythingx::legacy_native::gif::{decode_lzw, encode_literal_lzw};
use everythingx::legacy_native::icon::{parse_icon, IconKind};
use everythingx::legacy_native::Error as LegacyError;

#[test]
fn literal_lzw_decodes_back() {
    let small: Vec<u8> = vec![0, 1, 2, 3, 3, 2, 1, 0];
    let z = encode_literal_lzw(&small, 2);
    assert_eq!(decode_lzw(&z, 2, small.len()), Ok(small));
    let mut long: Vec<u8> = Vec::new();
    for i in 0..8192usize {
        long.push((i % 251) as u8);
    }
    let z = encode_literal_lzw(&long, 8);
    assert_eq!(decode_lzw(&z, 8, long.len()), Ok(long));
}

#[test]
fn lzw_code_size_is_checked() {
    assert_eq!(decode_lzw(&[0u8; 4], 1, 0), Err(LegacyError::Invalid("GIF LZW minimum code size")));
    assert_eq!(decode_lzw(&[0u8; 4], 9, 0), Err(LegacyError::Invalid("GIF LZW minimum code size")));
}

#[test]
fn storage_rewrite_is_undone_by_the_reverse_rewrite() {
    let little_signed = Storage { endian: Endian::Little, eight_bit_signed: true };
    let big_signed = Storage { endian: Endian::Big, eight_bit_signed: true };
    let little_unsigned = Storage { endian: Endian::Little, eight_bit_signed: false };
    let data: Vec<u8> = (0..24u32).map(|i| (i * 37 % 256) as u8).collect();
    for (width, a, b) in [(2usize, little_signed, big_signed), (3, big_signed, little_signed), (1, little_signed, little_unsigned), (4, little_signed, big_signed)] {
        let mut once = Vec::new();
        transform(&mut once, &data, 0, data.len(), width, a, b);
        let mut twice = Vec::new();
        transform(&mut twice, &once, 0, once.len(), width, b, a);
        assert_eq!(twice, data);
    }
    let mut flipped = Vec::new();
    transform(&mut flipped, &[0x00, 0x7f], 0, 2, 1, little_signed, little_unsigned);
    assert_eq!(flipped, vec![0x80, 0xff]);
}

#[test]
fn crc_can_be_fed_in_pieces() {
    let a = b"IHDR".to_vec();
    let b = vec![0u8, 0, 0, 3, 0, 0, 0, 2, 8, 6, 0, 0, 0];
    let mut whole = a.clone();
    whole.extend_from_slice(&b);
    let mut reg = 0xFFFF_FFFFu32;
    for &x in a.iter().chain(b.iter()) {
        reg = crc_feed(reg, x);
    }
    assert_eq!(reg ^ 0xFFFF_FFFF, crc32(&whole));
    assert_eq!(crc32(b"123456789"), 0xCBF4_3926);
}

#[test]
fn zlib_header_refusals_are_exact() {
    assert_eq!(inflate_zlib(&[0x78, 0x01, 0x00], 0), Err(InflateError::Truncated("zlib stream")));
    assert_eq!(inflate_zlib(&[0x78, 0x02, 0, 0, 0, 0], 0), Err(InflateError::Invalid("zlib header")));
    assert_eq!(inflate_zlib(&[0x78, 0xbb, 0, 0, 0, 0], 0), Err(InflateError::Unsupported("preset zlib dictionary")));
}

fn icon_directory(entries: &[(u32, u32)], total: usize) -> Vec<u8> {
    let mut b = vec![0u8, 0, 1, 0, entries.len() as u8, 0];
    for &(size, offset) in entries {
        b.extend_from_slice(&[16, 16, 0, 0, 1, 0, 32, 0]);
        b.extend_from_slice(&size.to_le_bytes());
        b.extend_from_slice(&offset.to_le_bytes());
    }
    b.resize(total, 0);
    b
}

#[test]
fn overlapping_icon_members_are_refused() {
    let b = icon_directory(&[(20, 38), (20, 50)], 100);
    assert_eq!(parse_icon(&b, IconKind::Icon, 8).err(), Some(LegacyError::Invalid("overlapping ICO/CUR member ranges")));
    let inside = icon_directory(&[(20, 10)], 100);
    assert_eq!(parse_icon(&inside, IconKind::Icon, 8).err(), Some(LegacyError::Invalid("ICO/CUR member range")));
    let past = icon_directory(&[(80, 30)], 100);
    assert_eq!(parse_icon(&past, IconKind::Icon, 8).err(), Some(LegacyError::Truncated("ICO/CUR member payload")));
    let fine = icon_directory(&[(20, 38), (20, 58)], 100);
    assert_eq!(parse_icon(&fine, IconKind::Icon, 8).map(|m| m.len()), Ok(2));
}

#[test]
fn bmp_size_mismatch_is_reported_as_a_warning() {
    let mut b = vec![0x42u8, 0x4d];
    b.extend_from_slice(&50u32.to_le_bytes());
    b.extend_from_slice(&[0, 0, 0, 0]);
    b.extend_from_slice(&54u32.to_le_bytes());
    b.extend_from_slice(&40u32.to_le_bytes());
    b.extend_from_slice(&1i32.to_le_bytes());
    b.extend_from_slice(&1i32.to_le_bytes());
    b.extend_from_slice(&[1, 0, 24, 0]);
    b.extend_from_slice(&[0u8; 24]);
    b.extend_from_slice(&[1, 2, 3, 0]);
    let img = inspect(&b, &BmpOptions::default()).ok().unwrap();
    assert_eq!(img.warnings, vec!["declared BMP file size 50 differs from actual size 58".to_string()]);
}

#[test]
fn percentile_index_is_the_nearest_rank() {
    assert_eq!(percentile_index(10, 50, 100), 5);
    assert_eq!(percentile_index(10, 95, 100), 9);
    assert_eq!(percentile_index(1, 95, 100), 0);
    assert_eq!(percentile_index(20, 100, 100), 19);
}

#[test]
fn png_first_chunk_refusals_are_exact() {
    let options = DecodeOptions { max_pixels: 1000, max_inflate_bytes: 100_000, strict_crc: true, strict_trailing_data: true };
    let sig = [0x89u8, 0x50, 0x4e, 0x47, 0x0d, 0x0a, 0x1a, 0x0a];
    let mut short = sig.to_vec();
    short.extend_from_slice(&[0, 0, 0, 13]);
    assert_eq!(decode(&short, &options).err(), Some(PngError::Truncated("chunk header")));
    let mut idat_first = sig.to_vec();
    idat_first.extend_from_slice(&[0, 0, 0, 0, 0x49, 0x44, 0x41, 0x54]);
    idat_first.extend_from_slice(&0x35af061eu32.to_be_bytes());
    let loose = DecodeOptions { strict_crc: false, ..options.clone() };
    assert_eq!(decode(&idat_first, &loose).err(), Some(PngError::Invalid("IHDR is not first")));
    let mut bad_crc = idat_first.clone();
    let n = bad_crc.len();
    bad_crc[n - 1] ^= 1;
    assert_eq!(decode(&bad_crc, &options).err(), Some(PngError::Invalid("chunk CRC")));
}
