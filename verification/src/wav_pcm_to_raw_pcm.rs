//! Integer PCM extracted from RIFF/WAVE as parameterized headerless PCM.
//!
//! The default output is signed, little-endian interleaved PCM; the report
//! carries every parameter needed to interpret it.
use vstd::prelude::*;
use crate::bytes::{le16, le32, read_le16, read_le32, tag_at};
use crate::pcm::SampleRewrite;

verus! {

pub const PCM_GUID: [u8; 16] = [
    0x01,
    0x00,
    0x00,
    0x00,
    0x00,
    0x00,
    0x10,
    0x00,
    0x80,
    0x00,
    0x00,
    0xaa,
    0x00,
    0x38,
    0x9b,
    0x71,
];

#[derive(Debug, Clone, Copy, PartialEq, Eq, Structural)]
pub enum Endianness {
    Little,
    Big,
}

#[derive(Debug, Clone, Copy, PartialEq, Eq, Structural)]
pub enum IntegerEncoding {
    Signed,
    Unsigned,
}

#[derive(Debug, Clone, PartialEq, Eq)]
pub struct Options {
    pub output_endianness: Endianness,
    pub output_encoding: IntegerEncoding,
    pub strict_header_consistency: bool,
    pub buffer_size: usize,
    pub max_channels: u16,
}

impl Default for Options {
    fn default() -> (o: Self)
        ensures
            o.output_endianness == Endianness::Little,
            o.output_encoding == IntegerEncoding::Signed,
            o.strict_header_consistency,
            o.buffer_size == 65536,
            o.max_channels == 256,
    {
        Options {
            output_endianness: Endianness::Little,
            output_encoding: IntegerEncoding::Signed,
            strict_header_consistency: true,
            buffer_size: 65536,
            max_channels: 256,
        }
    }
}

#[derive(Debug, Clone, PartialEq, Eq)]
pub struct Report {
    pub input_bytes: u64,
    pub output_bytes: u64,
    pub source_audio_bytes: u64,
    pub output_audio_bytes: u64,
    pub discarded_trailing_bytes: u64,
    pub channels: u16,
    pub sample_rate: u32,
    pub container_bits_per_sample: u16,
    pub valid_bits_per_sample: u16,
    pub sample_frames: u64,
    pub source_data_chunks: usize,
    pub wave_format_extensible: bool,
    pub signedness_changed: bool,
    pub byte_order_changed: bool,
    pub peak_working_memory_bytes: u64,
    pub warnings: Vec<String>,
}

#[derive(Debug)]
pub enum Error {
    InvalidOptions(&'static str),
    InvalidWave(&'static str),
    Unsupported(&'static str),
    MisalignedData { bytes: u64, frame_bytes: u64 },
    ArithmeticOverflow,
}

/// A decoded `fmt ` chunk.
#[derive(Debug, Clone, Copy, PartialEq, Eq)]
pub struct Format {
    pub channels: u16,
    pub sample_rate: u32,
    pub bits: u16,
    pub valid_bits: u16,
    pub block_align: u16,
    pub extensible: bool,
}

/// The `fmt ` payload `b` describes integer PCM this capsule accepts, and
/// decodes to `f`.
pub open spec fn format_of(b: Seq<u8>, o: Options) -> Option<Format> {
    if b.len() < 16 {
        None
    } else {
        let tag = le16(b, 0);
        let channels = le16(b, 2);
        let rate = le32(b, 4);
        let byte_rate = le32(b, 8);
        let block = le16(b, 12);
        let bits = le16(b, 14);
        let expected_align = channels * (bits / 8);
        let valid = if tag == 0xfffe && b.len() >= 40 {
            le16(b, 18)
        } else {
            bits
        };
        if channels == 0 || channels > o.max_channels || rate == 0 || !(bits == 8 || bits == 16
            || bits == 24 || bits == 32) {
            None
        } else if tag != 1 && tag != 0xfffe {
            None
        } else if tag == 0xfffe && (b.len() < 40 || le16(b, 16) < 22 || b.subrange(24, 40)
            != PCM_GUID@ || valid == 0 || valid > bits) {
            None
        } else if rate * expected_align > u32::MAX || block != expected_align || (
        o.strict_header_consistency && byte_rate != rate * expected_align) {
            None
        } else {
            Some(
                Format {
                    channels: channels as u16,
                    sample_rate: rate as u32,
                    bits: bits as u16,
                    valid_bits: valid as u16,
                    block_align: block as u16,
                    extensible: tag == 0xfffe,
                },
            )
        }
    }
}

/// The refusal of the `fmt ` payload `b`, in the order its checks run,
/// when it does not describe a supported integer PCM format.
pub open spec fn format_refusal(b: Seq<u8>, o: Options) -> Error {
    let tag = le16(b, 0);
    let channels = le16(b, 2);
    let rate = le32(b, 4);
    let block = le16(b, 12);
    let bits = le16(b, 14);
    let expected_align = channels * (bits / 8);
    if b.len() < 16 {
        Error::InvalidWave("fmt chunk is shorter than 16 bytes")
    } else if channels == 0 || channels > o.max_channels {
        Error::Unsupported("channel count is unsupported")
    } else if rate == 0 {
        Error::InvalidWave("sample rate is zero")
    } else if !(bits == 8 || bits == 16 || bits == 24 || bits == 32) {
        Error::Unsupported("only 8/16/24/32-bit integer PCM is supported")
    } else if tag != 1 && tag != 0xfffe {
        Error::Unsupported("WAVE format is not integer PCM")
    } else if tag == 0xfffe && (b.len() < 40 || le16(b, 16) < 22) {
        Error::InvalidWave("extensible fmt chunk is incomplete")
    } else if tag == 0xfffe && b.subrange(24, 40) != PCM_GUID@ {
        Error::Unsupported("WAVE extensible subtype is not integer PCM")
    } else if tag == 0xfffe && (le16(b, 18) == 0 || le16(b, 18) > bits) {
        Error::InvalidWave("valid bits per sample is invalid")
    } else if rate * expected_align > u32::MAX {
        Error::ArithmeticOverflow
    } else if block != expected_align {
        Error::InvalidWave("block alignment does not match PCM format")
    } else {
        Error::InvalidWave("byte rate does not match PCM format")
    }
}

/// Whether `bytes[24..40]` is the integer PCM subformat GUID.
pub fn guid_matches(bytes: &[u8]) -> (r: bool)
    requires
        bytes@.len() >= 40,
    ensures
        r == (bytes@.subrange(24, 40) == PCM_GUID@),
{
    let mut k: usize = 0;
    while k < 16
        invariant
            k <= 16,
            bytes@.len() >= 40,
            forall|i: int| 0 <= i < k ==> bytes@[24 + i] == PCM_GUID@[i],
        decreases 16 - k,
    {
        if bytes[24 + k] != PCM_GUID[k] {
            assert(bytes@.subrange(24, 40)[k as int] != PCM_GUID@[k as int]);
            return false;
        }
        k = k + 1;
    }
    assert(bytes@.subrange(24, 40) =~= PCM_GUID@);
    true
}

fn parse_format(bytes: &[u8], options: &Options) -> (r: Result<Format, Error>)
    ensures
        r is Ok <==> format_of(bytes@, *options) is Some,
        r matches Ok(f) ==> f == format_of(bytes@, *options)->0,
        r matches Err(e) ==> e == format_refusal(bytes@, *options),
{
    if bytes.len() < 16 {
        return Err(Error::InvalidWave("fmt chunk is shorter than 16 bytes"));
    }
    let tag = read_le16(bytes, 0);
    let channels = read_le16(bytes, 2);
    let sample_rate = read_le32(bytes, 4);
    let byte_rate = read_le32(bytes, 8);
    let block_align = read_le16(bytes, 12);
    let bits = read_le16(bytes, 14);
    if channels == 0 || channels > options.max_channels {
        return Err(Error::Unsupported("channel count is unsupported"));
    }
    if sample_rate == 0 {
        return Err(Error::InvalidWave("sample rate is zero"));
    }
    if !(bits == 8 || bits == 16 || bits == 24 || bits == 32) {
        return Err(Error::Unsupported("only 8/16/24/32-bit integer PCM is supported"));
    }
    let (valid_bits, extensible) = if tag == 1 {
        (bits, false)
    } else if tag == 0xfffe {
        if bytes.len() < 40 || read_le16(bytes, 16) < 22 {
            return Err(Error::InvalidWave("extensible fmt chunk is incomplete"));
        }
        if !guid_matches(bytes) {
            return Err(Error::Unsupported("WAVE extensible subtype is not integer PCM"));
        }
        let valid = read_le16(bytes, 18);
        if valid == 0 || valid > bits {
            return Err(Error::InvalidWave("valid bits per sample is invalid"));
        }
        (valid, true)
    } else {
        return Err(Error::Unsupported("WAVE format is not integer PCM"));
    };
    assert(channels as int * (bits / 8) as int <= 65535 * 4) by (nonlinear_arith)
        requires
            bits / 8 <= 4,
    ;
    let expected_align = channels as u32 * (bits / 8) as u32;
    let expected_rate = match sample_rate.checked_mul(expected_align) {
        Some(v) => v,
        None => return Err(Error::ArithmeticOverflow),
    };
    if block_align as u32 != expected_align {
        return Err(Error::InvalidWave("block alignment does not match PCM format"));
    }
    if options.strict_header_consistency && byte_rate != expected_rate {
        return Err(Error::InvalidWave("byte rate does not match PCM format"));
    }
    Ok(Format { channels, sample_rate, bits, valid_bits, block_align, extensible })
}

/// One RIFF chunk: its tag, the offset of its payload and the payload size.
pub struct Chunk {
    pub tag: Seq<u8>,
    pub payload: int,
    pub size: int,
}

/// The chunks of `b` from `pos` up to `end`, or `None` when a chunk header is
/// cut short or a payload (with its pad byte) runs past `end`/`phys`.
pub open spec fn walk(b: Seq<u8>, pos: int, end: int, phys: int) -> Option<Seq<Chunk>>
    decreases end + 1 - pos,
{
    if pos >= end {
        Some(Seq::empty())
    } else if end - pos < 8 {
        None
    } else {
        let size = le32(b, pos + 4);
        let payload_end = pos + 8 + size;
        let next = payload_end + size % 2;
        proof {
            assert(size >= 0) by {
                assert(b[pos + 4] >= 0 && b[pos + 5] >= 0 && b[pos + 6] >= 0 && b[pos + 7] >= 0);
            }
        }
        if payload_end > end || next > phys {
            None
        } else {
            match walk(b, next, end, phys) {
                Some(rest) => Some(
                    seq![Chunk { tag: b.subrange(pos, pos + 4), payload: pos + 8, size }]
                        + rest,
                ),
                None => None,
            }
        }
    }
}

pub open spec fn fmt_tag() -> Seq<u8> {
    seq![0x66u8, 0x6d, 0x74, 0x20]
}

pub open spec fn data_tag() -> Seq<u8> {
    seq![0x64u8, 0x61, 0x74, 0x61]
}

/// The first `fmt ` chunk among `cs`.
pub open spec fn first_fmt(cs: Seq<Chunk>) -> Option<Chunk>
    decreases cs.len(),
{
    if cs.len() == 0 {
        None
    } else {
        match first_fmt(cs.drop_last()) {
            Some(c) => Some(c),
            None => if cs.last().tag == fmt_tag() {
                Some(cs.last())
            } else {
                None
            },
        }
    }
}

/// The data chunks among `cs`, in order.
pub open spec fn data_chunks(cs: Seq<Chunk>) -> Seq<Chunk>
    decreases cs.len(),
{
    if cs.len() == 0 {
        Seq::empty()
    } else if cs.last().tag == data_tag() {
        data_chunks(cs.drop_last()).push(cs.last())
    } else {
        data_chunks(cs.drop_last())
    }
}

pub open spec fn payload_of(b: Seq<u8>, c: Chunk) -> Seq<u8> {
    b.subrange(c.payload, c.payload + c.size)
}

/// Every `fmt ` chunk is small, valid and agrees with `f`.
pub open spec fn formats_agree(b: Seq<u8>, cs: Seq<Chunk>, o: Options, f: Format) -> bool {
    forall|i: int|
        0 <= i < cs.len() && cs[i].tag == fmt_tag() ==> {
            &&& cs[i].size <= 4096
            &&& format_of(payload_of(b, cs[i]), o) matches Some(g)
            &&& g.channels == f.channels && g.sample_rate == f.sample_rate && g.bits == f.bits
                && g.valid_bits == f.valid_bits
        }
}

/// The total size of chunks `cs`.
pub open spec fn total_size(cs: Seq<Chunk>) -> int
    decreases cs.len(),
{
    if cs.len() == 0 {
        0
    } else {
        total_size(cs.drop_last()) + cs.last().size
    }
}

/// The PCM rewrite from WAVE layout to the requested raw layout.
pub open spec fn rewrite(f: Format, o: Options) -> SampleRewrite {
    let w = (f.bits / 8) as usize;
    let source_signed = w != 1;
    let target_signed = o.output_encoding == IntegerEncoding::Signed;
    let reverse = o.output_endianness == Endianness::Big && w > 1;
    SampleRewrite {
        width: w,
        reverse,
        flip: if source_signed != target_signed {
            if reverse {
                0
            } else {
                (w - 1) as usize
            }
        } else {
            w
        },
        keep: w,
    }
}

/// The rewritten audio of chunks `cs`.
pub open spec fn audio_of(b: Seq<u8>, cs: Seq<Chunk>, r: SampleRewrite) -> Seq<u8>
    decreases cs.len(),
{
    if cs.len() == 0 {
        Seq::empty()
    } else {
        audio_of(b, cs.drop_last(), r) + r.map_all(payload_of(b, cs.last()))
    }
}

pub open spec fn declared_end(b: Seq<u8>) -> int {
    8 + le32(b, 4)
}

/// The chunk list of a RIFF/WAVE input whose outer header is sound.
pub open spec fn chunks(b: Seq<u8>, o: Options) -> Option<Seq<Chunk>> {
    if b.len() >= 12 && b.subrange(0, 4) == seq![0x52u8, 0x49, 0x46, 0x46] && b.subrange(8, 12)
        == seq![0x57u8, 0x41, 0x56, 0x45] && declared_end(b) <= b.len() && (
    o.strict_header_consistency ==> declared_end(b) == b.len()) {
        walk(b, 12, declared_end(b), b.len() as int)
    } else {
        None
    }
}

/// The format of an accepted input.
pub open spec fn format_in(b: Seq<u8>, o: Options) -> Option<Format> {
    match chunks(b, o) {
        Some(cs) => match first_fmt(cs) {
            Some(c) => format_of(payload_of(b, c), o),
            None => None,
        },
        None => None,
    }
}

/// Whether conversion of `b` succeeds.
pub open spec fn accepted(b: Seq<u8>, o: Options) -> bool {
    &&& 256 <= o.buffer_size <= 16777216
    &&& chunks(b, o) matches Some(cs)
    &&& format_in(b, o) matches Some(f)
    &&& formats_agree(b, cs, o, f)
    &&& data_chunks(cs).len() > 0
    &&& forall|i: int|
        0 <= i < data_chunks(cs).len() ==> data_chunks(cs)[i].size % (f.block_align as int) == 0
    &&& total_size(data_chunks(cs)) <= u64::MAX
}

/// The raw PCM produced from an accepted input.
pub open spec fn raw_output(b: Seq<u8>, o: Options) -> Seq<u8> {
    let cs = chunks(b, o)->0;
    let f = format_in(b, o)->0;
    audio_of(b, data_chunks(cs), rewrite(f, o))
}

pub proof fn lemma_first_fmt_concat(a: Seq<Chunk>, c: Seq<Chunk>)
    ensures
        first_fmt(a + c) == (if first_fmt(a) is Some {
            first_fmt(a)
        } else {
            first_fmt(c)
        }),
    decreases c.len(),
{
    if c.len() == 0 {
        assert(a + c =~= a);
    } else {
        lemma_first_fmt_concat(a, c.drop_last());
        assert((a + c).drop_last() =~= a + c.drop_last());
    }
}

pub proof fn lemma_no_fmt(cs: Seq<Chunk>, i: int)
    requires
        first_fmt(cs) is None,
        0 <= i < cs.len(),
    ensures
        cs[i].tag != fmt_tag(),
    decreases cs.len(),
{
    if i < cs.len() - 1 {
        lemma_no_fmt(cs.drop_last(), i);
    }
}

pub proof fn lemma_data_chunks_push(a: Seq<Chunk>, c: Chunk)
    ensures
        data_chunks(a.push(c)) == (if c.tag == data_tag() {
            data_chunks(a).push(c)
        } else {
            data_chunks(a)
        }),
{
    assert(a.push(c).drop_last() =~= a);
}

proof fn lemma_walk_step(b: Seq<u8>, pos: int, end: int, phys: int)
    requires
        pos < end,
        end - pos >= 8,
        pos + 8 + le32(b, pos + 4) <= end,
        pos + 8 + le32(b, pos + 4) + le32(b, pos + 4) % 2 <= phys,
    ensures
        ({
            let size = le32(b, pos + 4);
            let next = pos + 8 + size + size % 2;
            let c = Chunk { tag: b.subrange(pos, pos + 4), payload: pos + 8, size };
            match walk(b, next, end, phys) {
                Some(rest) => walk(b, pos, end, phys) == Some(seq![c] + rest),
                None => walk(b, pos, end, phys) is None,
            }
        }),
{
}

fn check_fmt_agrees(existing: &Format, candidate: &Format) -> (r: bool)
    ensures
        r == (candidate.channels == existing.channels && candidate.sample_rate
            == existing.sample_rate && candidate.bits == existing.bits && candidate.valid_bits
            == existing.valid_bits),
{
    existing.channels == candidate.channels && existing.sample_rate == candidate.sample_rate
        && existing.bits == candidate.bits && existing.valid_bits == candidate.valid_bits
}

pub proof fn lemma_data_chunks_concat(a: Seq<Chunk>, c: Seq<Chunk>)
    ensures
        data_chunks(a + c) == data_chunks(a) + data_chunks(c),
    decreases c.len(),
{
    if c.len() == 0 {
        assert(a + c =~= a);
        assert(data_chunks(a) + data_chunks(c) =~= data_chunks(a));
    } else {
        lemma_data_chunks_concat(a, c.drop_last());
        assert((a + c).drop_last() =~= a + c.drop_last());
        assert((a + c).last() == c.last());
        if c.last().tag == data_tag() {
            assert(data_chunks(a) + data_chunks(c.drop_last()).push(c.last()) =~= (data_chunks(a)
                + data_chunks(c.drop_last())).push(c.last()));
        }
    }
}

/// The rewrite of one data chunk whose size is a whole number of frames.
fn emit_chunk(out: &mut Vec<u8>, input: &[u8], payload: usize, size: usize, f: &Format, r: SampleRewrite)
    requires
        payload + size <= input.len(),
        r.wf(),
        r.width as int == f.bits / 8,
        f.block_align as int == f.channels * (f.bits / 8),
        f.channels >= 1,
        (size as int) % (f.block_align as int) == 0,
    ensures
        final(out)@ == old(out)@ + r.map_all(input@.subrange(payload as int, payload + size)),
{
    proof {
        crate::arith::lemma_multiple_of_factor(size as int, f.channels as int, r.width as int);
    }
    let count = size / r.width;
    crate::pcm::push_samples(out, input, payload, count, r);
    assert(input@.subrange(payload as int, payload + size).len() / r.width as nat == count);
}

/// The data chunks of the scan, as exec offsets and sizes.
pub open spec fn spans_match(spans: Seq<(usize, usize)>, cs: Seq<Chunk>) -> bool {
    &&& spans.len() == cs.len()
    &&& forall|i: int|
        0 <= i < spans.len() ==> spans[i].0 == cs[i].payload && spans[i].1 == cs[i].size
}

/// The scan succeeded: header, chunk walk and every `fmt ` chunk are sound.
pub open spec fn scanned(b: Seq<u8>, o: Options) -> bool {
    &&& chunks(b, o) matches Some(cs)
    &&& format_in(b, o) matches Some(f)
    &&& formats_agree(b, cs, o, f)
}

fn scan(input: &[u8], options: &Options) -> (r: Result<(Format, Vec<(usize, usize)>), Error>)
    ensures
        r is Ok <==> scanned(input@, *options),
        r matches Ok((f, spans)) ==> {
            &&& f == format_in(input@, *options)->0
            &&& spans_match(spans@, data_chunks(chunks(input@, *options)->0))
            &&& forall|i: int|
                0 <= i < spans@.len() ==> spans@[i].0 + spans@[i].1 <= input@.len()
        },
{
    let len = input.len();
    if len < 12 {
        return Err(Error::InvalidWave("input is not RIFF/WAVE"));
    }
    if tag_at(input, 0, [0x52u8, 0x49, 0x46, 0x58]) {
        assert(input@.subrange(0, 4) != seq![0x52u8, 0x49, 0x46, 0x46]) by {
            assert(input@.subrange(0, 4)[3] == 0x58u8);
        }
        return Err(Error::Unsupported("big-endian RIFX input is not supported"));
    }
    if !tag_at(input, 0, [0x52u8, 0x49, 0x46, 0x46]) || !tag_at(input, 8, [0x57u8, 0x41, 0x56, 0x45]) {
        assert([0x52u8, 0x49, 0x46, 0x46]@ =~= seq![0x52u8, 0x49, 0x46, 0x46]);
        assert([0x57u8, 0x41, 0x56, 0x45]@ =~= seq![0x57u8, 0x41, 0x56, 0x45]);
        return Err(Error::InvalidWave("input is not RIFF/WAVE"));
    }
    assert([0x52u8, 0x49, 0x46, 0x46]@ =~= seq![0x52u8, 0x49, 0x46, 0x46]);
    assert([0x57u8, 0x41, 0x56, 0x45]@ =~= seq![0x57u8, 0x41, 0x56, 0x45]);
    let end = 8 + read_le32(input, 4) as u64;
    if end > len as u64 {
        return Err(Error::InvalidWave("RIFF size extends past EOF"));
    }
    if options.strict_header_consistency && end != len as u64 {
        return Err(Error::InvalidWave("RIFF size does not match physical input length"));
    }
    let end = end as usize;
    let ghost b = input@;
    let ghost all = walk(b, 12, end as int, len as int);
    assert(chunks(b, *options) == all);
    let ghost mut seen: Seq<Chunk> = Seq::empty();
    let mut format: Option<Format> = None;
    let mut spans: Vec<(usize, usize)> = Vec::new();
    let mut pos: usize = 12;
    while pos < end
        invariant
            b == input@,
            len == input@.len(),
            end <= len,
            all == walk(b, 12, end as int, len as int),
            chunks(b, *options) == all,
            pos <= len,
            match walk(b, pos as int, end as int, len as int) {
                Some(rest) => all == Some(seen + rest),
                None => all is None,
            },
            forall|i: int| 0 <= i < seen.len() ==> seen[i].payload + seen[i].size <= len,
            format is None ==> first_fmt(seen) is None,
            format matches Some(f) ==> first_fmt(seen) matches Some(c) && format_of(
                payload_of(b, c),
                *options,
            ) == Some(f) && formats_agree(b, seen, *options, f),
            spans_match(spans@, data_chunks(seen)),
            forall|i: int| 0 <= i < spans@.len() ==> spans@[i].0 + spans@[i].1 <= len,
        decreases end + 1 - pos,
    {
        if end - pos < 8 {
            return Err(Error::InvalidWave("truncated chunk header"));
        }
        let size = read_le32(input, pos + 4) as usize;
        let payload = pos + 8;
        if size > end - payload || size % 2 > len - payload - size {
            return Err(Error::InvalidWave("chunk extends past RIFF boundary"));
        }
        let next = payload + size + size % 2;
        let ghost c = Chunk { tag: b.subrange(pos as int, pos + 4), payload: payload as int, size: size as int };
        proof {
            lemma_walk_step(b, pos as int, end as int, len as int);
        }
        let ghost mut cand: Option<Format> = None;
        if tag_at(input, pos, [0x66u8, 0x6d, 0x74, 0x20]) {
            assert([0x66u8, 0x6d, 0x74, 0x20]@ =~= fmt_tag());
            if size > 4096 {
                proof { lemma_fmt_rejects(b, *options, seen, c, pos as int, end as int, len as int, all); }
                return Err(Error::Unsupported("fmt chunk is unreasonably large"));
            }
            let mut bytes: Vec<u8> = Vec::new();
            crate::bytes::push_range(&mut bytes, input, payload, size);
            let candidate = match parse_format(bytes.as_slice(), options) {
                Ok(f) => f,
                Err(e) => {
                    proof { lemma_fmt_rejects(b, *options, seen, c, pos as int, end as int, len as int, all); }
                    return Err(e);
                }
            };
            match format {
                Some(existing) => {
                    if !check_fmt_agrees(&existing, &candidate) {
                        proof {
                            lemma_fmt_conflict(b, *options, seen, c, pos as int, end as int, len as int, all, existing, candidate);
                        }
                        return Err(Error::InvalidWave("conflicting fmt chunks"));
                    }
                }
                None => {
                    format = Some(candidate);
                }
            }
            proof {
                assert(bytes@ =~= payload_of(b, c));
                cand = Some(candidate);
            }
        } else if tag_at(input, pos, [0x64u8, 0x61, 0x74, 0x61]) {
            assert([0x64u8, 0x61, 0x74, 0x61]@ =~= data_tag());
            assert([0x66u8, 0x6d, 0x74, 0x20]@ =~= fmt_tag());
            spans.push((payload, size));
        } else {
            assert([0x66u8, 0x6d, 0x74, 0x20]@ =~= fmt_tag());
            assert([0x64u8, 0x61, 0x74, 0x61]@ =~= data_tag());
        }
        assert(c.tag == fmt_tag() ==> {
            &&& cand matches Some(g)
            &&& format matches Some(f)
            &&& format_of(payload_of(b, c), *options) == Some(g)
            &&& c.size <= 4096
            &&& g.channels == f.channels && g.sample_rate == f.sample_rate && g.bits == f.bits
                && g.valid_bits == f.valid_bits
        });
        proof {
            lemma_data_chunks_push(seen, c);
            assert(seen.push(c).drop_last() =~= seen);
            let old_seen = seen;
            seen = seen.push(c);
            match walk(b, next as int, end as int, len as int) {
                Some(rest) => {
                    assert(seen + rest =~= old_seen + (seq![c] + rest));
                }
                None => {}
            }
            if let Some(f) = format {
                assert forall|i: int| 0 <= i < seen.len() && seen[i].tag == fmt_tag() implies {
                    &&& seen[i].size <= 4096
                    &&& format_of(payload_of(b, seen[i]), *options) matches Some(g)
                    &&& g.channels == f.channels && g.sample_rate == f.sample_rate && g.bits == f.bits
                        && g.valid_bits == f.valid_bits
                } by {
                    if i < old_seen.len() {
                        assert(seen[i] == old_seen[i]);
                        if first_fmt(old_seen) is None {
                            lemma_no_fmt(old_seen, i);
                        }
                    } else {
                        assert(seen[i] == c);
                    }
                }
            }
        }
        pos = next;
    }
    proof {
        assert(walk(b, pos as int, end as int, len as int) == Some(Seq::<Chunk>::empty()));
        assert(seen + Seq::<Chunk>::empty() =~= seen);
    }
    match format {
        Some(f) => Ok((f, spans)),
        None => Err(Error::InvalidWave("missing fmt chunk")),
    }
}

proof fn lemma_fmt_rejects(b: Seq<u8>, o: Options, seen: Seq<Chunk>, c: Chunk, pos: int, end: int, phys: int, all: Option<Seq<Chunk>>)
    requires
        c.tag == fmt_tag(),
        c.size > 4096 || format_of(payload_of(b, c), o) is None,
        pos < end,
        end - pos >= 8,
        c == (Chunk { tag: b.subrange(pos, pos + 4), payload: pos + 8, size: le32(b, pos + 4) }),
        pos + 8 + c.size <= end,
        pos + 8 + c.size + c.size % 2 <= phys,
        match walk(b, pos, end, phys) {
            Some(rest) => all == Some(seen + rest),
            None => all is None,
        },
        all == walk(b, 12, end, phys),
        chunks(b, o) == all,
    ensures
        !scanned(b, o),
{
    lemma_walk_step(b, pos, end, phys);
    if let Some(cs) = chunks(b, o) {
        if let Some(f) = format_in(b, o) {
            let rest = walk(b, pos, end, phys)->0;
            assert(cs == seen + rest);
            assert(cs[seen.len() as int] == c);
        }
    }
}

proof fn lemma_fmt_conflict(b: Seq<u8>, o: Options, seen: Seq<Chunk>, c: Chunk, pos: int, end: int, phys: int, all: Option<Seq<Chunk>>, existing: Format, candidate: Format)
    requires
        c.tag == fmt_tag(),
        format_of(payload_of(b, c), o) == Some(candidate),
        !(candidate.channels == existing.channels && candidate.sample_rate == existing.sample_rate
            && candidate.bits == existing.bits && candidate.valid_bits == existing.valid_bits),
        first_fmt(seen) matches Some(c0) && format_of(payload_of(b, c0), o) == Some(existing),
        pos < end,
        end - pos >= 8,
        c == (Chunk { tag: b.subrange(pos, pos + 4), payload: pos + 8, size: le32(b, pos + 4) }),
        pos + 8 + c.size <= end,
        pos + 8 + c.size + c.size % 2 <= phys,
        match walk(b, pos, end, phys) {
            Some(rest) => all == Some(seen + rest),
            None => all is None,
        },
        all == walk(b, 12, end, phys),
        chunks(b, o) == all,
    ensures
        !scanned(b, o),
{
    lemma_walk_step(b, pos, end, phys);
    if let Some(cs) = chunks(b, o) {
        let rest = walk(b, pos, end, phys)->0;
        assert(cs == seen + rest);
        lemma_first_fmt_concat(seen, rest);
        assert(format_in(b, o) == Some(existing));
        assert(cs[seen.len() as int] == c);
    }
}

proof fn lemma_format_facts(b: Seq<u8>, o: Options)
    requires
        format_of(b, o) is Some,
    ensures
        ({
            let f = format_of(b, o)->0;
            &&& f.channels >= 1
            &&& (f.bits == 8 || f.bits == 16 || f.bits == 24 || f.bits == 32)
            &&& f.block_align as int == f.channels * (f.bits / 8)
        }),
{
}

/// Extract integer PCM from RIFF/WAVE and emit parameterized headerless PCM.
///
/// The whole of `input` is the WAVE file. Default output is signed,
/// little-endian interleaved PCM. On success the PCM is appended to `output`;
/// on failure `output` is left unchanged.
pub fn convert(input: &[u8], output: &mut Vec<u8>, options: &Options) -> (result: Result<
    Report,
    Error,
>)
    ensures
        result is Ok <==> accepted(input@, *options),
        !(256 <= options.buffer_size <= 16777216) ==> result matches Err(
            Error::InvalidOptions(_),
        ),
        result is Err ==> final(output)@ == old(output)@,
        result matches Ok(report) ==> {
            let cs = data_chunks(chunks(input@, *options)->0);
            let f = format_in(input@, *options)->0;
            let r = rewrite(f, *options);
            &&& final(output)@ == old(output)@ + raw_output(input@, *options)
            &&& report.input_bytes == input@.len()
            &&& report.output_bytes == total_size(cs)
            &&& report.source_audio_bytes == total_size(cs)
            &&& report.output_audio_bytes == total_size(cs)
            &&& report.discarded_trailing_bytes == 0
            &&& report.channels == f.channels
            &&& report.sample_rate == f.sample_rate
            &&& report.container_bits_per_sample == f.bits
            &&& report.valid_bits_per_sample == f.valid_bits
            &&& report.sample_frames == total_size(cs) / (f.block_align as int)
            &&& report.source_data_chunks == cs.len()
            &&& report.wave_format_extensible == f.extensible
            &&& report.signedness_changed == (r.flip < r.width)
            &&& report.byte_order_changed == r.reverse
            &&& report.warnings@.len() == 0
        },
{
    if !(256 <= options.buffer_size && options.buffer_size <= 16777216) {
        return Err(Error::InvalidOptions("buffer_size must be between 256 bytes and 16 MiB"));
    }
    let (f, spans) = scan(input, options)?;
    let ghost b = input@;
    let ghost cs = data_chunks(chunks(b, *options)->0);
    proof {
        let c = first_fmt(chunks(b, *options)->0)->0;
        lemma_format_facts(payload_of(b, c), *options);
    }
    if spans.len() == 0 {
        return Err(Error::InvalidWave("missing data chunk"));
    }
    let block = f.block_align as usize;
    assert(f.block_align >= 1) by (nonlinear_arith)
        requires
            f.block_align as int == f.channels * (f.bits / 8),
            f.channels >= 1,
            f.bits / 8 >= 1,
    ;
    let mut i: usize = 0;
    while i < spans.len()
        invariant
            256 <= options.buffer_size <= 16777216,
            b == input@,
            scanned(b, *options),
            f == format_in(b, *options)->0,
            cs == data_chunks(chunks(b, *options)->0),
            i <= spans@.len(),
            block == f.block_align,
            block >= 1,
            spans_match(spans@, cs),
            forall|j: int| 0 <= j < i ==> cs[j].size % (f.block_align as int) == 0,
        decreases spans@.len() - i,
    {
        if spans[i].1 % block != 0 {
            return Err(
                Error::MisalignedData { bytes: spans[i].1 as u64, frame_bytes: block as u64 },
            );
        }
        i = i + 1;
    }
    let mut total: u64 = 0;
    let mut i: usize = 0;
    while i < spans.len()
        invariant
            256 <= options.buffer_size <= 16777216,
            b == input@,
            scanned(b, *options),
            f == format_in(b, *options)->0,
            cs == data_chunks(chunks(b, *options)->0),
            i <= spans@.len(),
            spans_match(spans@, cs),
            total == total_size(cs.take(i as int)),
        decreases spans@.len() - i,
    {
        assert(cs.take(i + 1).drop_last() =~= cs.take(i as int));
        total = match total.checked_add(spans[i].1 as u64) {
            Some(t) => t,
            None => {
                proof { lemma_total_size_monotone(cs, i as int + 1); }
                return Err(Error::ArithmeticOverflow);
            }
        };
        i = i + 1;
    }
    assert(cs.take(spans@.len() as int) =~= cs);
    let w = (f.bits / 8) as usize;
    let source_signed = w != 1;
    let target_signed = options.output_encoding == IntegerEncoding::Signed;
    let reverse = options.output_endianness == Endianness::Big && w > 1;
    let r = SampleRewrite {
        width: w,
        reverse,
        flip: if source_signed != target_signed {
            if reverse {
                0
            } else {
                w - 1
            }
        } else {
            w
        },
        keep: w,
    };
    assert(r == rewrite(f, *options));
    let mut out: Vec<u8> = Vec::new();
    let mut i: usize = 0;
    while i < spans.len()
        invariant
            i <= spans@.len(),
            b == input@,
            spans_match(spans@, cs),
            forall|j: int| 0 <= j < spans@.len() ==> spans@[j].0 + spans@[j].1 <= input@.len(),
            forall|j: int| 0 <= j < spans@.len() ==> cs[j].size % (f.block_align as int) == 0,
            r == rewrite(f, *options),
            r.wf(),
            r.width as int == f.bits / 8,
            f.block_align as int == f.channels * (f.bits / 8),
            f.channels >= 1,
            out@ == audio_of(b, cs.take(i as int), r),
        decreases spans@.len() - i,
    {
        let (payload, size) = spans[i];
        emit_chunk(&mut out, input, payload, size, &f, r);
        assert(cs.take(i + 1).drop_last() =~= cs.take(i as int));
        i = i + 1;
    }
    assert(cs.take(spans@.len() as int) =~= cs);
    output.append(&mut out);
    proof {
        crate::arith::lemma_sub_mod(options.buffer_size as int, block as int);
    }
    let mut buffer_len = options.buffer_size - options.buffer_size % block;
    if buffer_len == 0 {
        buffer_len = block;
    }
    Ok(
        Report {
            input_bytes: input.len() as u64,
            output_bytes: total,
            source_audio_bytes: total,
            output_audio_bytes: total,
            discarded_trailing_bytes: 0,
            channels: f.channels,
            sample_rate: f.sample_rate,
            container_bits_per_sample: f.bits,
            valid_bits_per_sample: f.valid_bits,
            sample_frames: total / block as u64,
            source_data_chunks: spans.len(),
            wave_format_extensible: f.extensible,
            signedness_changed: r.flip < r.width,
            byte_order_changed: r.reverse,
            peak_working_memory_bytes: buffer_len as u64 + 4096,
            warnings: Vec::new(),
        },
    )
}

proof fn lemma_total_size_monotone(cs: Seq<Chunk>, n: int)
    requires
        0 <= n <= cs.len(),
        forall|i: int| 0 <= i < cs.len() ==> cs[i].size >= 0,
    ensures
        total_size(cs.take(n)) <= total_size(cs),
    decreases cs.len(),
{
    if n < cs.len() {
        assert(cs.drop_last().take(n) =~= cs.take(n));
        lemma_total_size_monotone(cs.drop_last(), n);
    } else {
        assert(cs.take(n) =~= cs);
    }
}

} // verus!
