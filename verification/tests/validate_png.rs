use everythingx::png_codec::{decode, DecodeOptions};
use everythingx::validate_png::{conformance_fixture, convert, operation_name, Error, Operation, Options, OPERATION};

#[test]
fn defaults_are_runnable() {
    let source = conformance_fixture();
    let mut output = Vec::new();
    let report = convert(&source, &mut output, &Options::default()).unwrap();
    assert!(!output.is_empty());
    assert_eq!(report.operation, operation_name());
}

#[test]
fn output_is_independently_decodable() {
    let source = conformance_fixture();
    let mut output = Vec::new();
    convert(&source, &mut output, &Options::default()).unwrap();
    let image = decode(&output, &DecodeOptions { max_pixels: 100, max_inflate_bytes: 10_000, strict_crc: true, strict_trailing_data: true }).unwrap();
    assert!(image.width > 0 && image.height > 0);
}

#[test]
fn malformed_crc_is_rejected_before_write() {
    let mut source = conformance_fixture();
    source[29] ^= 1;
    let mut output = Vec::new();
    assert!(convert(&source, &mut output, &Options::default()).is_err());
    assert!(output.is_empty());
}

#[test]
fn operation_contract() {
    let source = conformance_fixture();
    let mut options = Options::default();
    if OPERATION == Operation::Crop {
        options.crop_x = 1;
        options.crop_width = 2;
        options.crop_height = 1;
    }
    if OPERATION == Operation::Pad {
        options.pad_left = 1;
        options.pad_bottom = 2;
    }
    let mut output = Vec::new();
    let report = convert(&source, &mut output, &options).unwrap();
    match OPERATION {
        Operation::Crop => assert_eq!((report.width, report.height), (2, 1)),
        Operation::Pad => assert_eq!((report.width, report.height), (4, 4)),
        Operation::Rotate90 | Operation::Rotate270 => assert_eq!((report.width, report.height), (2, 3)),
        _ => assert_eq!((report.width, report.height), (3, 2)),
    }
}

#[test]
fn lib_input_limit_is_enforced() {
    let source = conformance_fixture();
    let mut options = Options::default();
    options.max_input_bytes = 8;
    let mut output = Vec::new();
    assert!(matches!(convert(&source, &mut output, &options), Err(Error::InputTooLarge { .. })));
}

#[test]
fn validate_copies_exact_bytes_and_reports_source() {
    let source = conformance_fixture();
    let mut output = vec![9u8];
    let report = convert(&source, &mut output, &Options::default()).unwrap();
    assert_eq!(&output[1..], &source[..]);
    assert_eq!(report.source_width, 3);
    assert_eq!(report.source_height, 2);
    assert_eq!(report.source_color_type, 6);
    let zero = Options { max_pixels: 0, ..Options::default() };
    assert!(matches!(convert(&source, &mut output, &zero), Err(Error::InvalidOptions(_))));
    let tiny = Options { max_pixels: 5, ..Options::default() };
    assert!(matches!(convert(&source, &mut output, &tiny), Err(Error::PixelLimitExceeded { pixels: 6, limit: 5 })));
}
