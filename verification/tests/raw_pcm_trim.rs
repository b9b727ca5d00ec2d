use everythingx::raw_pcm_trim::{conformance_fixture, convert, IntegerEncoding, Mode, Options, MODE};

#[test]
fn defaults_are_runnable_and_transform() {
    let source = conformance_fixture();
    let mut output = Vec::new();
    let report = convert(&source, &mut output, &Options::default()).unwrap();
    assert!(report.output_frames > 0);
    match MODE {
        Mode::Trim => assert_eq!(output, source),
        Mode::Reverse => assert_eq!(output, [3, 0, 2, 0, 1, 0]),
        Mode::ChannelMap => assert_eq!(output, [2, 0, 1, 0, 4, 0, 3, 0]),
        Mode::Normalize => assert_eq!(output, [0, 1, 0, 2, 0, 3]),
    }
}

#[test]
fn rejects_partial_frames() {
    let mut source = conformance_fixture();
    source.push(9);
    assert!(convert(&source, &mut Vec::new(), &Options::default()).is_err());
}

#[test]
fn validates_buffer_bounds() {
    let mut o = Options::default();
    o.buffer_size = 1;
    assert!(convert(&conformance_fixture(), &mut Vec::new(), &o).is_err());
}

#[test]
fn custom_semantics_are_honored() {
    let mut o = Options::default();
    let mut output = Vec::new();
    match MODE {
        Mode::Trim => {
            o.start_frame = 1;
            o.frame_count = Some(1);
            convert(&[1, 0, 2, 0, 3, 0], &mut output, &o).unwrap();
            assert_eq!(output, [2, 0]);
        }
        Mode::Reverse => {
            o.channels = 2;
            convert(&[1, 0, 2, 0, 3, 0, 4, 0], &mut output, &o).unwrap();
            assert_eq!(output, [3, 0, 4, 0, 1, 0, 2, 0]);
        }
        Mode::ChannelMap => {
            o.channel_map = vec![0, 0];
            convert(&[1, 0, 2, 0], &mut output, &o).unwrap();
            assert_eq!(output, [1, 0, 1, 0]);
        }
        Mode::Normalize => {
            o.bits_per_sample = 8;
            o.input_encoding = IntegerEncoding::Signed;
            o.output_encoding = IntegerEncoding::Unsigned;
            convert(&[0x80, 0, 0x7f], &mut output, &o).unwrap();
            assert_eq!(output, [0, 0x80, 0xff]);
        }
    }
}

#[test]
fn trim_rejects_ranges_past_the_end() {
    let mut o = Options::default();
    o.start_frame = 4;
    assert!(convert(&[1, 0, 2, 0, 3, 0], &mut Vec::new(), &o).is_err());
    o.start_frame = 1;
    o.frame_count = Some(3);
    assert!(convert(&[1, 0, 2, 0, 3, 0], &mut Vec::new(), &o).is_err());
    o.frame_count = None;
    let mut output = Vec::new();
    let report = convert(&[1, 0, 2, 0, 3, 0], &mut output, &o).unwrap();
    assert_eq!(output, [2, 0, 3, 0]);
    assert_eq!(report.output_frames, 2);
    assert_eq!(report.input_frames, 3);
}
