//! Raw interleaved integer PCM wrapped into canonical little-endian RIFF/WAVE.
//!
//! Raw PCM is not self-describing, so `Options` owns the interpretation. The
//! default is mono, 44.1 kHz, signed 16-bit little-endian.
use vstd::prelude::*;
use crate::bytes::{le16_bytes, le32_bytes, push_le16, push_le32};
use crate::pcm::SampleRewrite;
use crate::text;

verus! {

pub const MIN_BUFFER_SIZE: usize = 256;
pub const MAX_BUFFER_SIZE: usize = 16777216;

#[derive(Debug, Clone, Copy, PartialEq, Eq, Structural)]
pub enum Endianness {
    Little,
    Big,
}

#[derive(Debug, Clone, Copy, PartialEq, Eq, Structural)]
pub enum IntegerEncoding {
    Signed,
    Unsigned,
}

#[derive(Debug, Clone, PartialEq, Eq)]
pub struct Options {
    pub channels: u16,
    pub sample_rate: u32,
    pub bits_per_sample: u16,
    pub input_endianness: Endianness,
    pub input_encoding: IntegerEncoding,
    pub strict_frame_alignment: bool,
    pub buffer_size: usize,
    pub max_channels: u16,
}

impl Default for Options {
    fn default() -> (o: Self)
        ensures
            o.channels == 1,
            o.sample_rate == 44100,
            o.bits_per_sample == 16,
            o.input_endianness == Endianness::Little,
            o.input_encoding == IntegerEncoding::Signed,
            o.strict_frame_alignment,
            o.buffer_size == 65536,
            o.max_channels == 256,
    {
        Options {
            channels: 1,
            sample_rate: 44100,
            bits_per_sample: 16,
            input_endianness: Endianness::Little,
            input_encoding: IntegerEncoding::Signed,
            strict_frame_alignment: true,
            buffer_size: 65536,
            max_channels: 256,
        }
    }
}

#[derive(Debug, Clone, PartialEq, Eq)]
pub struct Report {
    pub input_bytes: u64,
    pub output_bytes: u64,
    pub source_audio_bytes: u64,
    pub output_audio_bytes: u64,
    pub discarded_trailing_bytes: u64,
    pub channels: u16,
    pub sample_rate: u32,
    pub bits_per_sample: u16,
    pub sample_frames: u64,
    pub signedness_changed: bool,
    pub byte_order_changed: bool,
    pub peak_working_memory_bytes: u64,
    pub warnings: Vec<String>,
}

#[derive(Debug)]
pub enum Error {
    InvalidOptions(&'static str),
    MisalignedInput { bytes: u64, frame_bytes: u64 },
    ContainerTooLarge,
    ArithmeticOverflow,
}

/// The options describe a PCM stream this capsule can wrap.
pub open spec fn valid_options(o: Options) -> bool {
    &&& 1 <= o.channels <= o.max_channels
    &&& o.sample_rate != 0
    &&& (o.bits_per_sample == 8 || o.bits_per_sample == 16 || o.bits_per_sample == 24
        || o.bits_per_sample == 32)
    &&& MIN_BUFFER_SIZE <= o.buffer_size <= MAX_BUFFER_SIZE
}

pub open spec fn sample_bytes(o: Options) -> int {
    (o.bits_per_sample / 8) as int
}

pub open spec fn frame_bytes(o: Options) -> int {
    o.channels * sample_bytes(o)
}

/// Bytes of the input that form complete frames.
pub open spec fn audio_len(o: Options, len: int) -> int {
    len - len % frame_bytes(o)
}

/// The per-sample rewrite from the configured raw layout to WAVE layout:
/// little-endian, 8-bit unsigned, wider samples signed.
pub open spec fn rewrite(o: Options) -> SampleRewrite {
    let w = sample_bytes(o) as usize;
    let target_signed = w != 1;
    let source_signed = o.input_encoding == IntegerEncoding::Signed;
    SampleRewrite {
        width: w,
        reverse: o.input_endianness == Endianness::Big && w > 1,
        flip: if source_signed != target_signed {
            (w - 1) as usize
        } else {
            w
        },
        keep: w,
    }
}

pub open spec fn byte_rate(o: Options) -> int {
    o.sample_rate * frame_bytes(o)
}

/// The 44-byte canonical PCM WAVE header for `data` audio bytes.
#[verifier::opaque]
pub open spec fn wave_header(o: Options, data: int) -> Seq<u8> {
    seq![0x52u8, 0x49, 0x46, 0x46] + le32_bytes(36 + data + data % 2) + seq![
        0x57u8,
        0x41,
        0x56,
        0x45,
        0x66,
        0x6d,
        0x74,
        0x20,
    ] + le32_bytes(16) + le16_bytes(1) + le16_bytes(o.channels as int) + le32_bytes(
        o.sample_rate as int,
    ) + le32_bytes(byte_rate(o)) + le16_bytes(frame_bytes(o)) + le16_bytes(
        o.bits_per_sample as int,
    ) + seq![0x64u8, 0x61, 0x74, 0x61] + le32_bytes(data)
}

/// The complete WAVE file produced from raw input `src`.
pub open spec fn wave_output(o: Options, src: Seq<u8>) -> Seq<u8> {
    let audio = audio_len(o, src.len() as int);
    let pad: Seq<u8> = if audio % 2 == 1 {
        seq![0u8]
    } else {
        Seq::empty()
    };
    wave_header(o, audio) + rewrite(o).map_all(src.subrange(0, audio)) + pad
}

/// The reason, if any, that input of `len` bytes is refused.
pub open spec fn refusal(o: Options, len: int) -> Option<Error> {
    if !valid_options(o) {
        Some(Error::InvalidOptions(""))
    } else if len % frame_bytes(o) != 0 && o.strict_frame_alignment {
        Some(Error::MisalignedInput { bytes: len as u64, frame_bytes: frame_bytes(o) as u64 })
    } else if audio_len(o, len) > u32::MAX {
        Some(Error::ContainerTooLarge)
    } else if byte_rate(o) > u32::MAX || frame_bytes(o) > u16::MAX {
        Some(Error::ArithmeticOverflow)
    } else if 36 + audio_len(o, len) + audio_len(o, len) % 2 > u32::MAX {
        Some(Error::ContainerTooLarge)
    } else {
        None
    }
}

/// Same variant (and, for misalignment, the same fields).
pub open spec fn same_error(e: Error, f: Error) -> bool {
    match (e, f) {
        (Error::InvalidOptions(_), Error::InvalidOptions(_)) => true,
        (
            Error::MisalignedInput { bytes: a, frame_bytes: b },
            Error::MisalignedInput { bytes: c, frame_bytes: d },
        ) => a == c && b == d,
        (Error::ContainerTooLarge, Error::ContainerTooLarge) => true,
        (Error::ArithmeticOverflow, Error::ArithmeticOverflow) => true,
        _ => false,
    }
}

proof fn lemma_audio_aligned(o: Options, len: int)
    requires
        valid_options(o),
        len >= 0,
    ensures
        frame_bytes(o) > 0,
        0 <= audio_len(o, len) <= len,
        audio_len(o, len) % frame_bytes(o) == 0,
        audio_len(o, len) % sample_bytes(o) == 0,
        (audio_len(o, len) / sample_bytes(o)) * sample_bytes(o) == audio_len(o, len),
{
    let w = sample_bytes(o);
    assert(frame_bytes(o) > 0) by (nonlinear_arith)
        requires
            w >= 1,
            o.channels >= 1,
            frame_bytes(o) == o.channels * w,
    ;
    crate::arith::lemma_sub_mod(len, frame_bytes(o));
    crate::arith::lemma_multiple_of_factor(audio_len(o, len), o.channels as int, w);
}

fn validate(options: &Options) -> (r: Result<usize, Error>)
    ensures
        r is Ok <==> valid_options(*options),
        r matches Ok(w) ==> w == sample_bytes(*options),
        r matches Err(e) ==> e is InvalidOptions,
{
    if options.channels == 0 || options.channels > options.max_channels {
        return Err(Error::InvalidOptions("channels must be between 1 and max_channels"));
    }
    if options.sample_rate == 0 {
        return Err(Error::InvalidOptions("sample_rate must be non-zero"));
    }
    if !(options.bits_per_sample == 8 || options.bits_per_sample == 16
        || options.bits_per_sample == 24 || options.bits_per_sample == 32) {
        return Err(Error::InvalidOptions("bits_per_sample must be 8, 16, 24 or 32"));
    }
    if !(MIN_BUFFER_SIZE <= options.buffer_size && options.buffer_size <= MAX_BUFFER_SIZE) {
        return Err(Error::InvalidOptions("buffer_size must be between 256 bytes and 16 MiB"));
    }
    Ok((options.bits_per_sample / 8) as usize)
}

fn write_wave_header(out: &mut Vec<u8>, options: &Options, data_bytes: u32) -> (r: Result<(), Error>)
    requires
        valid_options(*options),
    ensures
        r is Ok <==> (byte_rate(*options) <= u32::MAX && frame_bytes(*options) <= u16::MAX && 36
            + data_bytes + data_bytes % 2 <= u32::MAX),
        r is Err ==> final(out)@ == old(out)@,
        r matches Err(e) ==> (if byte_rate(*options) > u32::MAX || frame_bytes(*options)
            > u16::MAX {
            e is ArithmeticOverflow
        } else {
            e is ContainerTooLarge
        }),
        r is Ok ==> final(out)@ == old(out)@ + wave_header(*options, data_bytes as int),
{
    let sample_bytes = (options.bits_per_sample / 8) as u32;
    assert(options.channels as int * sample_bytes as int <= 65535 * 4) by (nonlinear_arith)
        requires
            sample_bytes <= 4,
    ;
    let block_align = options.channels as u32 * sample_bytes;
    let byte_rate = match options.sample_rate.checked_mul(block_align) {
        Some(v) => v,
        None => return Err(Error::ArithmeticOverflow),
    };
    if block_align > 65535 {
        return Err(Error::ArithmeticOverflow);
    }
    let pad = data_bytes % 2;
    let riff_size = match 36u32.checked_add(data_bytes) {
        Some(v) => match v.checked_add(pad) {
            Some(w) => w,
            None => return Err(Error::ContainerTooLarge),
        },
        None => return Err(Error::ContainerTooLarge),
    };
    out.extend_from_slice(&[0x52u8, 0x49, 0x46, 0x46]);
    push_le32(out, riff_size);
    out.extend_from_slice(&[0x57u8, 0x41, 0x56, 0x45, 0x66, 0x6d, 0x74, 0x20]);
    push_le32(out, 16);
    push_le16(out, 1);
    push_le16(out, options.channels);
    push_le32(out, options.sample_rate);
    push_le32(out, byte_rate);
    push_le16(out, block_align as u16);
    push_le16(out, options.bits_per_sample);
    out.extend_from_slice(&[0x64u8, 0x61, 0x74, 0x61]);
    push_le32(out, data_bytes);
    proof {
        reveal(wave_header);
    }
    assert(out@ =~= old(out)@ + wave_header(*options, data_bytes as int));
    Ok(())
}

/// Convert raw interleaved integer PCM into canonical little-endian RIFF/WAVE PCM.
///
/// The whole of `input` is the raw stream. On success the WAVE file is
/// appended to `output`; on failure `output` is left unchanged.
#[verifier::rlimit(40)]
pub fn convert(input: &[u8], output: &mut Vec<u8>, options: &Options) -> (result: Result<
    Report,
    Error,
>)
    ensures
        result is Err <==> refusal(*options, input@.len() as int) is Some,
        result matches Err(e) ==> same_error(e, refusal(*options, input@.len() as int)->0),
        result is Err ==> final(output)@ == old(output)@,
        result is Ok ==> final(output)@ == old(output)@ + wave_output(*options, input@),
        result matches Ok(report) ==> {
            let audio = audio_len(*options, input@.len() as int);
            &&& report.input_bytes == input@.len()
            &&& report.source_audio_bytes == input@.len()
            &&& report.output_audio_bytes == audio
            &&& report.discarded_trailing_bytes == input@.len() - audio
            &&& report.output_bytes == 44 + audio + audio % 2
            &&& report.channels == options.channels
            &&& report.sample_rate == options.sample_rate
            &&& report.bits_per_sample == options.bits_per_sample
            &&& report.sample_frames == audio / frame_bytes(*options)
            &&& report.signedness_changed == (rewrite(*options).flip < rewrite(*options).width)
            &&& report.byte_order_changed == rewrite(*options).reverse
            &&& report.warnings@.len() == (if audio == input@.len() {
                0int
            } else {
                1int
            })
        },
{
    let sample_bytes = validate(options)?;
    assert(options.channels as int * sample_bytes as int <= 65535 * 4) by (nonlinear_arith)
        requires
            sample_bytes <= 4,
    ;
    assert(options.channels as int * sample_bytes as int > 0) by (nonlinear_arith)
        requires
            sample_bytes >= 1,
            options.channels >= 1,
    ;
    let frame_bytes = options.channels as usize * sample_bytes;
    let source_bytes = input.len() as u64;
    proof {
        lemma_audio_aligned(*options, input@.len() as int);
    }
    let remainder = source_bytes % (frame_bytes as u64);
    if remainder != 0 && options.strict_frame_alignment {
        return Err(
            Error::MisalignedInput { bytes: source_bytes, frame_bytes: frame_bytes as u64 },
        );
    }
    let audio_bytes = source_bytes - remainder;
    if audio_bytes > 0xffff_ffff {
        return Err(Error::ContainerTooLarge);
    }
    let data_bytes = audio_bytes as u32;
    let mut out: Vec<u8> = Vec::new();
    write_wave_header(&mut out, options, data_bytes)?;
    let r = SampleRewrite {
        width: sample_bytes,
        reverse: options.input_endianness == Endianness::Big && sample_bytes > 1,
        flip: if (options.input_encoding == IntegerEncoding::Signed) != (sample_bytes != 1) {
            sample_bytes - 1
        } else {
            sample_bytes
        },
        keep: sample_bytes,
    };
    assert(r == rewrite(*options));
    let count = audio_bytes as usize / sample_bytes;
    crate::pcm::push_samples(&mut out, input, 0, count, r);
    if data_bytes % 2 != 0 {
        out.push(0u8);
    }
    let output_bytes = 44 + audio_bytes + audio_bytes % 2;
    proof {
        crate::arith::lemma_sub_mod(options.buffer_size as int, frame_bytes as int);
    }
    let mut buffer_len = options.buffer_size - options.buffer_size % frame_bytes;
    if buffer_len == 0 {
        buffer_len = frame_bytes;
    }
    let mut warnings: Vec<String> = Vec::new();
    if remainder != 0 {
        warnings.push(
            text::message(
                "discarded ",
                remainder,
                " trailing byte(s) that do not form a complete frame",
            ),
        );
    }
    assert(out@ =~= wave_header(*options, audio_bytes as int) + rewrite(*options).map_all(
        input@.subrange(0, audio_bytes as int),
    ) + (if audio_bytes % 2 == 1 {
        seq![0u8]
    } else {
        Seq::empty()
    }));
    output.append(&mut out);
    Ok(
        Report {
            input_bytes: source_bytes,
            output_bytes,
            source_audio_bytes: source_bytes,
            output_audio_bytes: audio_bytes,
            discarded_trailing_bytes: remainder,
            channels: options.channels,
            sample_rate: options.sample_rate,
            bits_per_sample: options.bits_per_sample,
            sample_frames: audio_bytes / frame_bytes as u64,
            signedness_changed: r.flip < r.width,
            byte_order_changed: r.reverse,
            peak_working_memory_bytes: buffer_len as u64,
            warnings,
        },
    )
}

} // verus!
