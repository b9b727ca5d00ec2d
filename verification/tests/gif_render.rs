use everythingx::gif_render::{conformance_fixture, convert, Error, Operation, Options, OPERATION};
use everythingx::png_codec::{decode, DecodeOptions};

#[test]
fn defaults_render_valid_png() {
    let source = conformance_fixture();
    let mut output = Vec::new();
    let report = convert(&source, &mut output, &Options::default()).unwrap();
    let decoded = decode(&output, &DecodeOptions { max_pixels: 100, max_inflate_bytes: 10_000, strict_crc: true, strict_trailing_data: true }).unwrap();
    assert_eq!(report.source_frames, 2);
    assert_eq!(decoded.width, report.width);
    assert_eq!(decoded.height, report.height);
}

#[test]
fn sprite_sheet_contains_every_frame() {
    if OPERATION != Operation::SpriteSheet {
        return;
    }
    let source = conformance_fixture();
    let report = convert(&source, &mut Vec::new(), &Options::default()).unwrap();
    assert_eq!(report.width, report.source_width * 2);
}

#[test]
fn frame_index_is_checked() {
    if OPERATION != Operation::Frame {
        return;
    }
    let source = conformance_fixture();
    let mut options = Options::default();
    options.frame_index = 2;
    assert!(matches!(convert(&source, &mut Vec::new(), &options), Err(Error::InvalidOptions(_))));
}

#[test]
fn gif_render_capsule_truncation_is_rejected_before_output() {
    let source = conformance_fixture();
    let mut output = Vec::new();
    assert!(convert(&source[..source.len() - 1], &mut output, &Options::default()).is_err());
    assert!(output.is_empty());
}

#[test]
fn gif_render_selected_frame_pixels_survive() {
    let source = conformance_fixture();
    let mut output = Vec::new();
    let mut options = Options::default();
    options.frame_index = 1;
    let report = convert(&source, &mut output, &options).unwrap();
    assert_eq!(report.selected_frame, Some(1));
    let decoded = decode(&output, &DecodeOptions { max_pixels: 100, max_inflate_bytes: 10_000, strict_crc: true, strict_trailing_data: true }).unwrap();
    assert_eq!(decoded.pixels[1].r, 65535);
    assert_eq!(decoded.pixels[1].g, 0);
}
