use everythingx::capsule_template::{convert, invoke, Error, Options};

#[test]
fn copies_bytes_and_reports_counts() {
    let source = b"standalone capsule";
    let input = &source[..];
    let mut output = Vec::new();

    let report = convert(input, &mut output, &Options::default()).unwrap();

    assert_eq!(output, source);
    assert_eq!(report.bytes_read, source.len() as u64);
    assert_eq!(report.bytes_written, source.len() as u64);
}

#[test]
fn template_rejects_zero_and_oversized_buffers() {
    let mut output = vec![1u8];
    assert!(matches!(convert(b"abc", &mut output, &Options { buffer_size: 0 }), Err(Error::InvalidOptions(_))));
    assert!(matches!(convert(b"abc", &mut output, &Options { buffer_size: 16 * 1024 * 1024 + 1 }), Err(Error::InvalidOptions(_))));
    assert_eq!(output, [1u8]);
}

#[test]
fn template_small_buffer_still_copies_everything() {
    let (out, report) = invoke(b"hello world", &Options { buffer_size: 1 }).unwrap();
    assert_eq!(out, b"hello world");
    assert_eq!(report.bytes_written, 11);
}
