use everythingx::validate_ico::{conformance_fixture, convert, Error, Options};

#[test]
fn defaults_validate_and_copy_exact_bytes() {
    let source = conformance_fixture();
    let mut output = Vec::new();
    let report = convert(&source, &mut output, &Options::default()).unwrap();
    assert_eq!(output, source);
    assert!(report.frames_or_members > 0);
}

#[test]
fn lib_truncation_is_rejected_before_output() {
    let source = conformance_fixture();
    let mut output = Vec::new();
    assert!(convert(&source[..source.len() - 1], &mut output, &Options::default()).is_err());
    assert!(output.is_empty());
}

#[test]
fn input_limit_is_enforced() {
    let source = conformance_fixture();
    let mut options = Options::default();
    options.max_input_bytes = 8;
    assert!(matches!(convert(&source, &mut Vec::new(), &options), Err(Error::InputTooLarge { .. })));
}

#[test]
fn count_limits_are_enforced() {
    let source = conformance_fixture();
    let mut options = Options::default();
    options.max_frames = 1;
    options.max_members = 1;
    convert(&source, &mut Vec::new(), &options).unwrap();
    options.max_frames = 0;
    assert!(matches!(convert(&source, &mut Vec::new(), &options), Err(Error::InvalidOptions(_))));
}

#[test]
fn ico_report_counts_png_members() {
    let source = conformance_fixture();
    let report = convert(&source, &mut Vec::new(), &Options::default()).unwrap();
    assert_eq!((report.width, report.height), (3, 2));
    assert_eq!(report.png_members, 1);
    assert_eq!(report.dib_members, 0);
    assert_eq!(report.output_bytes as usize, source.len());
}
