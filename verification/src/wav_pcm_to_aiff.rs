//! RIFF/WAVE integer PCM rewritten as classic AIFF.
//!
//! Little-endian samples become big-endian (8-bit unsigned samples become
//! signed), extensible containers shrink to their valid bits, and the common
//! RIFF INFO text fields map to `NAME`/`AUTH`/`ANNO`/`(c) ` chunks.
use vstd::prelude::*;
use crate::bytes::{be16_bytes, be32_bytes, le16, le32, push_be16, push_be32, read_le16, read_le32, tag_at};
use crate::extended::{ext_encode, push_rate};
use crate::pcm::SampleRewrite;
use crate::text::{decimal, push_decimal};
use crate::wav_pcm_to_raw_pcm::{guid_matches, PCM_GUID};

verus! {

#[derive(Debug, Clone, Copy, PartialEq, Eq, Structural)]
pub enum MetadataPolicy {
    /// Map common RIFF INFO fields to AIFF NAME/AUTH/ANNO/(c) chunks.
    CommonText,
    /// Do not emit source metadata chunks.
    Discard,
}

#[derive(Debug, Clone, PartialEq, Eq)]
pub struct Options {
    pub metadata: MetadataPolicy,
    pub strict_header_consistency: bool,
    pub buffer_size: usize,
    pub max_metadata_bytes: u64,
    pub max_channels: u16,
}

impl Default for Options {
    fn default() -> (o: Self)
        ensures
            o.metadata == MetadataPolicy::CommonText,
            o.strict_header_consistency,
            o.buffer_size == 65536,
            o.max_metadata_bytes == 1048576,
            o.max_channels == 256,
    {
        Options {
            metadata: MetadataPolicy::CommonText,
            strict_header_consistency: true,
            buffer_size: 65536,
            max_metadata_bytes: 1048576,
            max_channels: 256,
        }
    }
}

#[derive(Debug, Clone, PartialEq, Eq)]
pub struct Report {
    pub input_bytes: u64,
    pub output_bytes: u64,
    pub channels: u16,
    pub sample_rate: u32,
    pub container_bits_per_sample: u16,
    pub valid_bits_per_sample: u16,
    pub sample_frames: u32,
    pub source_audio_bytes: u64,
    pub output_audio_bytes: u64,
    pub source_data_chunks: u32,
    pub wave_format_extensible: bool,
    pub metadata_chunks_found: u32,
    pub metadata_chunks_preserved: u32,
    pub metadata_bytes_preserved: u64,
    pub peak_working_memory_bytes: u64,
    pub strategy: &'static str,
    pub backend: &'static str,
    pub warnings: Vec<String>,
}

#[derive(Debug)]
pub enum Error {
    InvalidOptions(&'static str),
    InvalidSignature([u8; 4]),
    UnsupportedRf64,
    UnsupportedRifx,
    InvalidWaveForm,
    Truncated(&'static str),
    MissingFormatChunk,
    MissingDataChunk,
    DuplicateFormatChunk,
    UnsupportedFormatTag(u16),
    InvalidExtensibleFormat(&'static str),
    UnsupportedChannels { channels: u16, limit: u16 },
    UnsupportedBitsPerSample(u16),
    InvalidSampleRate(u32),
    InvalidBlockAlign { declared: u16, expected: u16 },
    InvalidByteRate { declared: u32, expected: u32 },
    PartialSampleFrame { data_bytes: u64, block_align: u16 },
    MetadataLimitExceeded { bytes: u64, limit: u64 },
    DeclaredRiffSizeExceedsInput { declared_end: u64, actual: u64 },
    AiffSizeLimitExceeded { bytes: u64 },
    IntegerOverflow(&'static str),
}

/// A decoded `fmt ` chunk; `block_align` is the normalized frame size.
#[derive(Debug, Clone, Copy, PartialEq, Eq)]
pub struct Format {
    pub channels: u16,
    pub sample_rate: u32,
    pub block_align: u16,
    pub bits_per_sample: u16,
    pub valid_bits_per_sample: u16,
    pub extensible: bool,
}

/// The invariants of a decoded format.
pub open spec fn format_ok(f: Format) -> bool {
    &&& f.channels >= 1
    &&& f.sample_rate >= 1
    &&& (f.bits_per_sample == 8 || f.bits_per_sample == 16 || f.bits_per_sample == 24
        || f.bits_per_sample == 32)
    &&& 1 <= f.valid_bits_per_sample <= f.bits_per_sample
    &&& f.block_align as int == f.channels * (f.bits_per_sample / 8)
}

pub open spec fn block_warning(declared: int, expected: int) -> Seq<char> {
    "declared block align "@ + decimal(declared as nat) + " was normalized to "@ + decimal(
        expected as nat,
    )
}

pub open spec fn rate_warning(declared: int, expected: int) -> Seq<char> {
    "declared byte rate "@ + decimal(declared as nat) + " was normalized to "@ + decimal(
        expected as nat,
    )
}

/// The outcome of decoding the `fmt ` chunk of `size` bytes at `off` in `b`:
/// the format and the warnings of a relaxed header check.
pub open spec fn fmt_result(b: Seq<u8>, off: int, size: int, o: Options) -> Result<
    (Format, Seq<Seq<char>>),
    Error,
> {
    let tag = le16(b, off);
    let channels = le16(b, off + 2);
    let rate = le32(b, off + 4);
    let byte_rate = le32(b, off + 8);
    let block = le16(b, off + 12);
    let bits = le16(b, off + 14);
    let ext = tag == 0xfffe;
    let valid = le16(b, off + 18);
    let expected = channels * (bits / 8);
    if size < 16 {
        Err(Error::Truncated("fmt chunk"))
    } else if channels == 0 || channels > o.max_channels {
        Err(Error::UnsupportedChannels { channels: channels as u16, limit: o.max_channels })
    } else if rate == 0 {
        Err(Error::InvalidSampleRate(0))
    } else if !(bits == 8 || bits == 16 || bits == 24 || bits == 32) {
        Err(Error::UnsupportedBitsPerSample(bits as u16))
    } else if tag != 1 && !ext {
        Err(Error::UnsupportedFormatTag(tag as u16))
    } else if ext && size < 40 {
        Err(Error::InvalidExtensibleFormat("fmt chunk is shorter than 40 bytes"))
    } else if ext && le16(b, off + 16) < 22 {
        Err(Error::InvalidExtensibleFormat("extension size is shorter than 22 bytes"))
    } else if ext && 18 + le16(b, off + 16) > size {
        Err(Error::InvalidExtensibleFormat("extension size exceeds the fmt chunk"))
    } else if ext && (valid == 0 || valid > bits) {
        Err(Error::InvalidExtensibleFormat("valid bits are zero or exceed the container width"))
    } else if ext && b.subrange(off + 24, off + 40) != PCM_GUID@ {
        Err(Error::UnsupportedFormatTag(tag as u16))
    } else if expected > u16::MAX {
        Err(Error::IntegerOverflow("WAV block align"))
    } else if block != expected && o.strict_header_consistency {
        Err(Error::InvalidBlockAlign { declared: block as u16, expected: expected as u16 })
    } else if rate * expected > u32::MAX {
        Err(Error::IntegerOverflow("WAV byte rate"))
    } else if byte_rate != rate * expected && o.strict_header_consistency {
        Err(Error::InvalidByteRate { declared: byte_rate as u32, expected: (rate * expected) as u32 })
    } else {
        let w1: Seq<Seq<char>> = if block != expected {
            seq![block_warning(block, expected)]
        } else {
            seq![]
        };
        let w2: Seq<Seq<char>> = if byte_rate != rate * expected {
            seq![rate_warning(byte_rate, rate * expected)]
        } else {
            seq![]
        };
        Ok(
            (
                Format {
                    channels: channels as u16,
                    sample_rate: rate as u32,
                    block_align: expected as u16,
                    bits_per_sample: bits as u16,
                    valid_bits_per_sample: if ext {
                        valid as u16
                    } else {
                        bits as u16
                    },
                    extensible: ext,
                },
                w1 + w2,
            ),
        )
    }
}

fn normalized_warning(prefix: &str, declared: u64, expected: u64) -> (r: String)
    ensures
        r@ == prefix@ + decimal(declared as nat) + " was normalized to "@ + decimal(
            expected as nat,
        ),
{
    let mut s = String::from_str(prefix);
    push_decimal(&mut s, declared);
    s.append(" was normalized to ");
    push_decimal(&mut s, expected);
    s
}

/// Decodes the `fmt ` chunk of `size` bytes at `off`, appending the warnings
/// of a relaxed header check to `warnings`.
fn parse_format(input: &[u8], off: usize, size: usize, options: &Options, warnings: &mut Vec<String>) -> (r: Result<Format, Error>)
    requires
        off + size <= input@.len(),
    ensures
        match fmt_result(input@, off as int, size as int, *options) {
            Ok((f, w)) => r == Ok::<Format, Error>(f) && warnings_model(final(warnings)@)
                == warnings_model(old(warnings)@) + w,
            Err(e) => r == Err::<Format, Error>(e),
        },
        r matches Ok(f) ==> format_ok(f),
{
    let _n = input.len();
    if size < 16 {
        return Err(Error::Truncated("fmt chunk"));
    }
    let tag = read_le16(input, off);
    let channels = read_le16(input, off + 2);
    let sample_rate = read_le32(input, off + 4);
    let byte_rate = read_le32(input, off + 8);
    let block_align = read_le16(input, off + 12);
    let bits = read_le16(input, off + 14);
    if channels == 0 || channels > options.max_channels {
        return Err(Error::UnsupportedChannels { channels, limit: options.max_channels });
    }
    if sample_rate == 0 {
        return Err(Error::InvalidSampleRate(sample_rate));
    }
    if !(bits == 8 || bits == 16 || bits == 24 || bits == 32) {
        return Err(Error::UnsupportedBitsPerSample(bits));
    }
    let (valid_bits, extensible) = if tag == 1 {
        (bits, false)
    } else if tag == 0xfffe {
        if size < 40 {
            return Err(Error::InvalidExtensibleFormat("fmt chunk is shorter than 40 bytes"));
        }
        let extension_size = read_le16(input, off + 16);
        if extension_size < 22 {
            return Err(Error::InvalidExtensibleFormat("extension size is shorter than 22 bytes"));
        }
        if 18 + extension_size as usize > size {
            return Err(Error::InvalidExtensibleFormat("extension size exceeds the fmt chunk"));
        }
        let valid = read_le16(input, off + 18);
        if valid == 0 || valid > bits {
            return Err(
                Error::InvalidExtensibleFormat("valid bits are zero or exceed the container width"),
            );
        }
        let window = &input[off..off + 40];
        assert(window@ =~= input@.subrange(off as int, off + 40));
        assert(window@.subrange(24, 40) =~= input@.subrange(off + 24, off + 40));
        if !guid_matches(window) {
            return Err(Error::UnsupportedFormatTag(tag));
        }
        (valid, true)
    } else {
        return Err(Error::UnsupportedFormatTag(tag));
    };
    assert(channels as int * (bits / 8) as int <= 65535 * 4) by (nonlinear_arith)
        requires
            bits / 8 <= 4,
    ;
    let expected = channels as u32 * (bits / 8) as u32;
    if expected > 65535 {
        return Err(Error::IntegerOverflow("WAV block align"));
    }
    if block_align as u32 != expected && options.strict_header_consistency {
        return Err(Error::InvalidBlockAlign { declared: block_align, expected: expected as u16 });
    }
    let expected_rate = match sample_rate.checked_mul(expected) {
        Some(v) => v,
        None => return Err(Error::IntegerOverflow("WAV byte rate")),
    };
    if byte_rate != expected_rate && options.strict_header_consistency {
        return Err(Error::InvalidByteRate { declared: byte_rate, expected: expected_rate });
    }
    let ghost before = warnings_model(warnings@);
    if block_align as u32 != expected {
        let w = normalized_warning("declared block align ", block_align as u64, expected as u64);
        warnings.push(w);
    }
    let ghost middle = warnings_model(warnings@);
    if byte_rate != expected_rate {
        let w = normalized_warning("declared byte rate ", byte_rate as u64, expected_rate as u64);
        warnings.push(w);
    }
    proof {
        let spec_w = fmt_result(input@, off as int, size as int, *options)->Ok_0.1;
        assert(middle =~= before + (if block_align as u32 != expected {
            seq![block_warning(block_align as int, expected as int)]
        } else {
            seq![]
        }));
        assert(warnings_model(warnings@) =~= before + spec_w);
    }
    Ok(
        Format {
            channels,
            sample_rate,
            block_align: expected as u16,
            bits_per_sample: bits,
            valid_bits_per_sample: valid_bits,
            extensible,
        },
    )
}

/// The state of the chunk scan, as plain values.
#[verifier::ext_equal]
pub struct Scan {
    pub format: Option<Format>,
    /// Payload offset and size of each `data` chunk, in order.
    pub segments: Seq<(int, int)>,
    /// AIFF id and text of each preserved metadata chunk, in order.
    pub metadata: Seq<(Seq<u8>, Seq<u8>)>,
    pub found: int,
    pub meta_bytes: int,
    pub unknown: int,
    pub warnings: Seq<Seq<char>>,
}

impl Scan {
    pub open spec fn warn(self, w: Seq<char>) -> Scan {
        Scan { warnings: self.warnings.push(w), ..self }
    }
}

pub open spec fn tag4(a: u8, b: u8, c: u8, d: u8) -> Seq<u8> {
    seq![a, b, c, d]
}

/// The AIFF chunk id that a RIFF INFO id maps to.
pub open spec fn mapped_id(id: Seq<u8>) -> Option<Seq<u8>> {
    if id == tag4(0x49, 0x4e, 0x41, 0x4d) {
        Some(tag4(0x4e, 0x41, 0x4d, 0x45))
    } else if id == tag4(0x49, 0x41, 0x52, 0x54) {
        Some(tag4(0x41, 0x55, 0x54, 0x48))
    } else if id == tag4(0x49, 0x43, 0x4d, 0x54) {
        Some(tag4(0x41, 0x4e, 0x4e, 0x4f))
    } else if id == tag4(0x49, 0x43, 0x4f, 0x50) {
        Some(tag4(0x28, 0x63, 0x29, 0x20))
    } else {
        None
    }
}

/// `s` without its trailing zero bytes.
pub open spec fn trim_zeros(s: Seq<u8>) -> Seq<u8>
    decreases s.len(),
{
    if s.len() > 0 && s.last() == 0 {
        trim_zeros(s.drop_last())
    } else {
        s
    }
}

/// The effect of the INFO subchunk at `pos` with `n` payload bytes.
pub open spec fn info_entry(b: Seq<u8>, o: Options, s: Scan, pos: int, n: int) -> Result<Scan, Error> {
    match mapped_id(b.subrange(pos, pos + 4)) {
        None => Ok(s),
        Some(id) => if s.found + 1 > u32::MAX {
            Err(Error::IntegerOverflow("metadata chunk count"))
        } else if o.metadata == MetadataPolicy::CommonText {
            let d = trim_zeros(b.subrange(pos + 8, pos + 8 + n));
            let total = s.meta_bytes + d.len();
            if total > u64::MAX {
                Err(Error::IntegerOverflow("metadata byte count"))
            } else if total > o.max_metadata_bytes {
                Err(Error::MetadataLimitExceeded { bytes: total as u64, limit: o.max_metadata_bytes })
            } else {
                Ok(Scan { found: s.found + 1, meta_bytes: total, metadata: s.metadata.push((id, d)), ..s })
            }
        } else {
            Ok(Scan { found: s.found + 1, ..s })
        },
    }
}

pub open spec fn info_trailing() -> Seq<char> {
    "LIST/INFO contains trailing bytes that do not form a complete subchunk"@
}

/// The INFO subchunks from `pos` up to `end`.
pub open spec fn info_walk(b: Seq<u8>, o: Options, s: Scan, pos: int, end: int) -> Result<Scan, Error>
    decreases end + 1 - pos,
{
    if pos + 8 > end {
        Ok(if pos != end { s.warn(info_trailing()) } else { s })
    } else {
        let n = le32(b, pos + 4);
        proof {
            assert(b[pos + 4] >= 0 && b[pos + 5] >= 0 && b[pos + 6] >= 0 && b[pos + 7] >= 0);
        }
        if pos + 8 + n > end {
            Err(Error::Truncated("INFO subchunk"))
        } else {
            match info_entry(b, o, s, pos, n) {
                Err(e) => Err(e),
                Ok(s2) => info_walk(b, o, s2, pos + 8 + n + n % 2, end),
            }
        }
    }
}

pub open spec fn short_list() -> Seq<char> {
    "ignored LIST chunk shorter than its four-byte list type"@
}

/// The effect of the LIST chunk of `size` bytes at `off`.
pub open spec fn list_result(b: Seq<u8>, o: Options, s: Scan, off: int, size: int) -> Result<Scan, Error> {
    if size < 4 {
        Ok(s.warn(short_list()))
    } else if b.subrange(off, off + 4) != tag4(0x49, 0x4e, 0x46, 0x4f) {
        Ok(s)
    } else {
        info_walk(b, o, s, off + 4, off + size)
    }
}

struct MetadataChunk {
    id: [u8; 4],
    data: Vec<u8>,
}

/// The scan state as the exec code holds it.
struct Gather {
    format: Option<Format>,
    segments: Vec<(usize, usize)>,
    metadata: Vec<MetadataChunk>,
    found: u32,
    meta_bytes: u64,
    unknown: u64,
    warnings: Vec<String>,
}

spec fn metadata_model(m: Seq<MetadataChunk>) -> Seq<(Seq<u8>, Seq<u8>)> {
    m.map_values(|c: MetadataChunk| (c.id@, c.data@))
}

spec fn segments_model(v: Seq<(usize, usize)>) -> Seq<(int, int)> {
    v.map_values(|p: (usize, usize)| (p.0 as int, p.1 as int))
}

spec fn warnings_model(w: Seq<String>) -> Seq<Seq<char>> {
    w.map_values(|s: String| s@)
}

impl Gather {
    spec fn model(&self) -> Scan {
        Scan {
            format: self.format,
            segments: segments_model(self.segments@),
            metadata: metadata_model(self.metadata@),
            found: self.found as int,
            meta_bytes: self.meta_bytes as int,
            unknown: self.unknown as int,
            warnings: warnings_model(self.warnings@),
        }
    }

    fn warn(&mut self, w: String)
        ensures
            final(self).model() == old(self).model().warn(w@),
            final(self).segments@ == old(self).segments@,
            final(self).unknown == old(self).unknown,
            final(self).format == old(self).format,
    {
        self.warnings.push(w);
        assert(warnings_model(self.warnings@) =~= warnings_model(old(self).warnings@).push(w@));
    }
}

fn mapped_info_id(input: &[u8], pos: usize) -> (r: Option<[u8; 4]>)
    requires
        pos + 4 <= input@.len(),
    ensures
        match mapped_id(input@.subrange(pos as int, pos + 4)) {
            Some(id) => r matches Some(a) && a@ == id,
            None => r is None,
        },
{
    if tag_at(input, pos, [0x49u8, 0x4e, 0x41, 0x4d]) {
        assert([0x49u8, 0x4e, 0x41, 0x4d]@ =~= tag4(0x49, 0x4e, 0x41, 0x4d));
        let a = [0x4eu8, 0x41, 0x4d, 0x45];
        assert(a@ =~= tag4(0x4e, 0x41, 0x4d, 0x45));
        Some(a)
    } else if tag_at(input, pos, [0x49u8, 0x41, 0x52, 0x54]) {
        assert([0x49u8, 0x4e, 0x41, 0x4d]@ =~= tag4(0x49, 0x4e, 0x41, 0x4d));
        assert([0x49u8, 0x41, 0x52, 0x54]@ =~= tag4(0x49, 0x41, 0x52, 0x54));
        let a = [0x41u8, 0x55, 0x54, 0x48];
        assert(a@ =~= tag4(0x41, 0x55, 0x54, 0x48));
        Some(a)
    } else if tag_at(input, pos, [0x49u8, 0x43, 0x4d, 0x54]) {
        assert([0x49u8, 0x4e, 0x41, 0x4d]@ =~= tag4(0x49, 0x4e, 0x41, 0x4d));
        assert([0x49u8, 0x41, 0x52, 0x54]@ =~= tag4(0x49, 0x41, 0x52, 0x54));
        assert([0x49u8, 0x43, 0x4d, 0x54]@ =~= tag4(0x49, 0x43, 0x4d, 0x54));
        let a = [0x41u8, 0x4e, 0x4e, 0x4f];
        assert(a@ =~= tag4(0x41, 0x4e, 0x4e, 0x4f));
        Some(a)
    } else if tag_at(input, pos, [0x49u8, 0x43, 0x4f, 0x50]) {
        assert([0x49u8, 0x4e, 0x41, 0x4d]@ =~= tag4(0x49, 0x4e, 0x41, 0x4d));
        assert([0x49u8, 0x41, 0x52, 0x54]@ =~= tag4(0x49, 0x41, 0x52, 0x54));
        assert([0x49u8, 0x43, 0x4d, 0x54]@ =~= tag4(0x49, 0x43, 0x4d, 0x54));
        assert([0x49u8, 0x43, 0x4f, 0x50]@ =~= tag4(0x49, 0x43, 0x4f, 0x50));
        let a = [0x28u8, 0x63, 0x29, 0x20];
        assert(a@ =~= tag4(0x28, 0x63, 0x29, 0x20));
        Some(a)
    } else {
        assert([0x49u8, 0x4e, 0x41, 0x4d]@ =~= tag4(0x49, 0x4e, 0x41, 0x4d));
        assert([0x49u8, 0x41, 0x52, 0x54]@ =~= tag4(0x49, 0x41, 0x52, 0x54));
        assert([0x49u8, 0x43, 0x4d, 0x54]@ =~= tag4(0x49, 0x43, 0x4d, 0x54));
        assert([0x49u8, 0x43, 0x4f, 0x50]@ =~= tag4(0x49, 0x43, 0x4f, 0x50));
        None
    }
}

/// The payload `input[start..start + len]` without its trailing zero bytes.
fn trimmed_copy(input: &[u8], start: usize, len: usize) -> (r: Vec<u8>)
    requires
        start + len <= input@.len(),
    ensures
        r@ == trim_zeros(input@.subrange(start as int, start + len)),
{
    let mut data: Vec<u8> = Vec::new();
    crate::bytes::push_range(&mut data, input, start, len);
    assert(data@ =~= input@.subrange(start as int, start + len));
    while data.len() > 0 && data[data.len() - 1] == 0
        invariant
            trim_zeros(data@) == trim_zeros(input@.subrange(start as int, start + len)),
        decreases data@.len(),
    {
        let ghost before = data@;
        data.pop();
        assert(data@ =~= before.drop_last());
    }
    data
}

/// Applies the INFO subchunk at `pos` with `n` payload bytes to the scan.
fn info_entry_exec(input: &[u8], options: &Options, g: &mut Gather, pos: usize, n: usize) -> (r: Result<(), Error>)
    requires
        pos + 8 + n <= input@.len(),
    ensures
        match info_entry(input@, *options, old(g).model(), pos as int, n as int) {
            Ok(s) => r is Ok && final(g).model() == s,
            Err(e) => r == Err::<(), Error>(e),
        },
        final(g).segments@ == old(g).segments@,
        final(g).unknown == old(g).unknown,
        final(g).format == old(g).format,
{
    let _l = input.len();
    let id = match mapped_info_id(input, pos) {
        Some(id) => id,
        None => return Ok(()),
    };
    let found = match g.found.checked_add(1) {
        Some(v) => v,
        None => return Err(Error::IntegerOverflow("metadata chunk count")),
    };
    if options.metadata == MetadataPolicy::CommonText {
        let data = trimmed_copy(input, pos + 8, n);
        let total = match g.meta_bytes.checked_add(data.len() as u64) {
            Some(v) => v,
            None => return Err(Error::IntegerOverflow("metadata byte count")),
        };
        if total > options.max_metadata_bytes {
            return Err(Error::MetadataLimitExceeded { bytes: total, limit: options.max_metadata_bytes });
        }
        let ghost old_meta = g.metadata@;
        g.found = found;
        g.meta_bytes = total;
        let item = MetadataChunk { id, data };
        g.metadata.push(item);
        assert(metadata_model(g.metadata@) =~= metadata_model(old_meta).push((id@, item.data@)));
    } else {
        g.found = found;
    }
    Ok(())
}

/// Applies the LIST chunk of `size` bytes at `off` to the scan.
fn parse_info_list(input: &[u8], off: usize, size: usize, options: &Options, g: &mut Gather) -> (r: Result<(), Error>)
    requires
        off + size <= input@.len(),
    ensures
        match list_result(input@, *options, old(g).model(), off as int, size as int) {
            Ok(s) => r is Ok && final(g).model() == s,
            Err(e) => r == Err::<(), Error>(e),
        },
        final(g).segments@ == old(g).segments@,
        final(g).unknown == old(g).unknown,
        final(g).format == old(g).format,
{
    let _l = input.len();
    if size < 4 {
        g.warn(crate::text::note("ignored LIST chunk shorter than its four-byte list type"));
        return Ok(());
    }
    if !tag_at(input, off, [0x49u8, 0x4e, 0x46, 0x4f]) {
        assert([0x49u8, 0x4e, 0x46, 0x4f]@ =~= tag4(0x49, 0x4e, 0x46, 0x4f));
        return Ok(());
    }
    assert([0x49u8, 0x4e, 0x46, 0x4f]@ =~= tag4(0x49, 0x4e, 0x46, 0x4f));
    let ghost b = input@;
    let ghost target = list_result(b, *options, old(g).model(), off as int, size as int);
    let end = off + size;
    let mut pos = off + 4;
    while pos <= end && end - pos >= 8
        invariant
            b == input@,
            end <= input@.len(),
            pos <= end + 1,
            info_walk(b, *options, g.model(), pos as int, end as int) == target,
            target == list_result(b, *options, old(g).model(), off as int, size as int),
            g.segments@ == old(g).segments@,
            g.unknown == old(g).unknown,
            g.format == old(g).format,
        decreases end + 1 - pos,
    {
        let n = read_le32(input, pos + 4) as usize;
        if n > end - pos - 8 {
            return Err(Error::Truncated("INFO subchunk"));
        }
        match info_entry_exec(input, options, g, pos, n) {
            Ok(()) => {},
            Err(e) => return Err(e),
        }
        let data_end = pos + 8 + n;
        if n % 2 == 1 && data_end == end {
            assert(info_walk(b, *options, g.model(), data_end + 1, end as int) == Ok::<Scan, Error>(
                g.model().warn(info_trailing()),
            ));
            g.warn(crate::text::note("LIST/INFO contains trailing bytes that do not form a complete subchunk"));
            return Ok(());
        }
        pos = data_end + n % 2;
    }
    if pos != end {
        g.warn(crate::text::note("LIST/INFO contains trailing bytes that do not form a complete subchunk"));
    }
    Ok(())
}

pub open spec fn riff_trailing() -> Seq<char> {
    "RIFF contains trailing bytes that do not form a complete chunk header"@
}

pub open spec fn fmt_tag() -> Seq<u8> {
    tag4(0x66, 0x6d, 0x74, 0x20)
}

pub open spec fn data_tag() -> Seq<u8> {
    tag4(0x64, 0x61, 0x74, 0x61)
}

pub open spec fn list_tag() -> Seq<u8> {
    tag4(0x4c, 0x49, 0x53, 0x54)
}

/// The effect of the chunk at `pos` with `n` payload bytes.
pub open spec fn chunk_step(b: Seq<u8>, o: Options, s: Scan, pos: int, n: int) -> Result<Scan, Error> {
    let id = b.subrange(pos, pos + 4);
    if id == fmt_tag() {
        if s.format is Some {
            Err(Error::DuplicateFormatChunk)
        } else {
            match fmt_result(b, pos + 8, n, o) {
                Err(e) => Err(e),
                Ok((f, w)) => Ok(Scan { format: Some(f), warnings: s.warnings + w, ..s }),
            }
        }
    } else if id == data_tag() {
        Ok(Scan { segments: s.segments.push((pos + 8, n)), ..s })
    } else if id == list_tag() {
        list_result(b, o, s, pos + 8, n)
    } else {
        Ok(Scan { unknown: s.unknown + 1, ..s })
    }
}

/// The chunks of the RIFF form from `pos` up to `end`, in order; the first
/// failing chunk decides the error.
pub open spec fn chunk_walk(b: Seq<u8>, o: Options, s: Scan, pos: int, end: int) -> Result<Scan, Error>
    decreases end + 1 - pos,
{
    if pos + 8 > end {
        Ok(if pos != end { s.warn(riff_trailing()) } else { s })
    } else {
        let n = le32(b, pos + 4);
        proof {
            assert(b[pos + 4] >= 0 && b[pos + 5] >= 0 && b[pos + 6] >= 0 && b[pos + 7] >= 0);
        }
        if pos + 8 + n + n % 2 > end {
            Err(Error::Truncated("chunk payload or padding"))
        } else {
            match chunk_step(b, o, s, pos, n) {
                Err(e) => Err(e),
                Ok(s2) => chunk_walk(b, o, s2, pos + 8 + n + n % 2, end),
            }
        }
    }
}

/// Applies the chunk at `pos` with `n` payload bytes to the scan.
fn chunk_step_exec(input: &[u8], options: &Options, g: &mut Gather, pos: usize, n: usize) -> (r: Result<(), Error>)
    requires
        pos + 8 + n <= input@.len(),
        old(g).unknown <= pos,
        old(g).format matches Some(f) ==> format_ok(f),
        forall|i: int| 0 <= i < old(g).segments@.len() ==> old(g).segments@[i].0 + old(g).segments@[i].1 <= input@.len(),
    ensures
        match chunk_step(input@, *options, old(g).model(), pos as int, n as int) {
            Ok(s) => r is Ok && final(g).model() == s,
            Err(e) => r == Err::<(), Error>(e),
        },
        final(g).unknown <= pos + 1,
        final(g).format matches Some(f) ==> format_ok(f),
        forall|i: int| 0 <= i < final(g).segments@.len() ==> final(g).segments@[i].0 + final(g).segments@[i].1 <= input@.len(),
{
    let _l = input.len();
    assert([0x66u8, 0x6d, 0x74, 0x20]@ =~= fmt_tag());
    assert([0x64u8, 0x61, 0x74, 0x61]@ =~= data_tag());
    assert([0x4cu8, 0x49, 0x53, 0x54]@ =~= list_tag());
    if tag_at(input, pos, [0x66u8, 0x6d, 0x74, 0x20]) {
        if g.format.is_some() {
            return Err(Error::DuplicateFormatChunk);
        }
        let ghost w0 = warnings_model(g.warnings@);
        let f = match parse_format(input, pos + 8, n, options, &mut g.warnings) {
            Ok(f) => f,
            Err(e) => return Err(e),
        };
        g.format = Some(f);
        Ok(())
    } else if tag_at(input, pos, [0x64u8, 0x61, 0x74, 0x61]) {
        let ghost old_segs = g.segments@;
        g.segments.push((pos + 8, n));
        assert(segments_model(g.segments@) =~= segments_model(old_segs).push((pos + 8, n as int)));
        Ok(())
    } else if tag_at(input, pos, [0x4cu8, 0x49, 0x53, 0x54]) {
        parse_info_list(input, pos + 8, n, options, g)
    } else {
        g.unknown = g.unknown + 1;
        Ok(())
    }
}

pub open spec fn riff_end(b: Seq<u8>) -> int {
    8 + le32(b, 4)
}

pub open spec fn end_warning(end: int, len: int) -> Seq<char> {
    "RIFF ends at byte "@ + decimal(end as nat) + ", leaving "@ + decimal((len - end) as nat)
        + " trailing input bytes"@
}

pub open spec fn unknown_warning(n: int) -> Seq<char> {
    decimal(n as nat) + " unrecognized WAV chunks were not mapped to AIFF"@
}

/// The outcome of the checks on the 12-byte RIFF header.
pub open spec fn header_result(b: Seq<u8>) -> Result<(), Error> {
    if b.len() < 12 {
        Err(Error::Truncated("RIFF header"))
    } else if b.subrange(0, 4) == tag4(0x52, 0x49, 0x46, 0x46) {
        if b.subrange(8, 12) != tag4(0x57, 0x41, 0x56, 0x45) {
            Err(Error::InvalidWaveForm)
        } else if le32(b, 4) < 4 {
            Err(Error::Truncated("RIFF form"))
        } else if riff_end(b) > b.len() {
            Err(
                Error::DeclaredRiffSizeExceedsInput {
                    declared_end: riff_end(b) as u64,
                    actual: b.len() as u64,
                },
            )
        } else {
            Ok(())
        }
    } else if b.subrange(0, 4) == tag4(0x52, 0x46, 0x36, 0x34) || b.subrange(0, 4) == tag4(
        0x42,
        0x57,
        0x36,
        0x34,
    ) {
        Err(Error::UnsupportedRf64)
    } else if b.subrange(0, 4) == tag4(0x52, 0x49, 0x46, 0x58) {
        Err(Error::UnsupportedRifx)
    } else {
        Err(Error::InvalidSignature([b[0], b[1], b[2], b[3]]))
    }
}

/// The scan state before the first chunk.
pub open spec fn initial_scan(b: Seq<u8>) -> Scan {
    Scan {
        format: None,
        segments: seq![],
        metadata: seq![],
        found: 0,
        meta_bytes: 0,
        unknown: 0,
        warnings: if riff_end(b) != b.len() {
            seq![end_warning(riff_end(b), b.len() as int)]
        } else {
            seq![]
        },
    }
}

/// The audio byte count of `segs[i..]` added to `acc`; the first misaligned
/// segment decides the error.
pub open spec fn segments_total(segs: Seq<(int, int)>, align: int, i: int, acc: int) -> Result<
    int,
    Error,
>
    decreases segs.len() - i,
{
    if i >= segs.len() {
        Ok(acc)
    } else if segs[i].1 % align != 0 {
        Err(Error::PartialSampleFrame { data_bytes: segs[i].1 as u64, block_align: align as u16 })
    } else if acc + segs[i].1 > u64::MAX {
        Err(Error::IntegerOverflow("audio byte count"))
    } else {
        segments_total(segs, align, i + 1, acc + segs[i].1)
    }
}

/// A WAVE input that passed inspection.
pub struct Parsed {
    pub scan: Scan,
    pub format: Format,
    pub audio_bytes: int,
    pub frames: int,
}

/// The audio size and frame count of a scan with format `f` and at least one
/// data chunk.
pub open spec fn finish(s: Scan, f: Format) -> Result<Parsed, Error> {
    match segments_total(s.segments, f.block_align as int, 0, 0) {
        Err(e) => Err(e),
        Ok(audio) => if audio / (f.block_align as int) > u32::MAX {
            Err(Error::AiffSizeLimitExceeded { bytes: audio as u64 })
        } else {
            Ok(
                Parsed {
                    scan: s,
                    format: f,
                    audio_bytes: audio,
                    frames: audio / (f.block_align as int),
                },
            )
        },
    }
}

/// The outcome of inspecting the whole input `b`.
pub open spec fn inspect(b: Seq<u8>, o: Options) -> Result<Parsed, Error> {
    match header_result(b) {
        Err(e) => Err(e),
        Ok(_) => match chunk_walk(b, o, initial_scan(b), 12, riff_end(b)) {
            Err(e) => Err(e),
            Ok(s) => {
                let s1 = if s.unknown != 0 {
                    s.warn(unknown_warning(s.unknown))
                } else {
                    s
                };
                match s1.format {
                    None => Err(Error::MissingFormatChunk),
                    Some(f) => if s1.segments.len() == 0 {
                        Err(Error::MissingDataChunk)
                    } else {
                        finish(s1, f)
                    },
                }
            },
        },
    }
}

/// An inspected input as the exec code holds it.
struct Wave {
    format: Format,
    segments: Vec<(usize, usize)>,
    audio_bytes: u64,
    frames: u32,
    metadata: Vec<MetadataChunk>,
    found: u32,
    meta_bytes: u64,
    warnings: Vec<String>,
}

spec fn wave_matches(w: Wave, p: Parsed, b: Seq<u8>) -> bool {
    &&& w.format == p.format
    &&& segments_model(w.segments@) == p.scan.segments
    &&& metadata_model(w.metadata@) == p.scan.metadata
    &&& w.found == p.scan.found
    &&& w.meta_bytes == p.scan.meta_bytes
    &&& warnings_model(w.warnings@) == p.scan.warnings
    &&& w.audio_bytes == p.audio_bytes
    &&& w.frames == p.frames
    &&& segments_total(p.scan.segments, p.format.block_align as int, 0, 0) == Ok::<int, Error>(
        p.audio_bytes,
    )
    &&& p.frames == p.audio_bytes / (p.format.block_align as int)
    &&& format_ok(w.format)
    &&& forall|i: int|
        0 <= i < w.segments@.len() ==> w.segments@[i].0 + w.segments@[i].1 <= b.len() && (
        w.segments@[i].1 as int) % (w.format.block_align as int) == 0
}

fn header_exec(input: &[u8]) -> (r: Result<(), Error>)
    ensures
        r == header_result(input@),
{
    let len = input.len();
    if len < 12 {
        return Err(Error::Truncated("RIFF header"));
    }
    assert([0x52u8, 0x49, 0x46, 0x46]@ =~= tag4(0x52, 0x49, 0x46, 0x46));
    assert([0x52u8, 0x46, 0x36, 0x34]@ =~= tag4(0x52, 0x46, 0x36, 0x34));
    assert([0x42u8, 0x57, 0x36, 0x34]@ =~= tag4(0x42, 0x57, 0x36, 0x34));
    assert([0x52u8, 0x49, 0x46, 0x58]@ =~= tag4(0x52, 0x49, 0x46, 0x58));
    assert([0x57u8, 0x41, 0x56, 0x45]@ =~= tag4(0x57, 0x41, 0x56, 0x45));
    if tag_at(input, 0, [0x52u8, 0x49, 0x46, 0x46]) {
        if !tag_at(input, 8, [0x57u8, 0x41, 0x56, 0x45]) {
            return Err(Error::InvalidWaveForm);
        }
        let size = read_le32(input, 4);
        if size < 4 {
            return Err(Error::Truncated("RIFF form"));
        }
        let end = 8 + size as u64;
        if end > len as u64 {
            return Err(Error::DeclaredRiffSizeExceedsInput { declared_end: end, actual: len as u64 });
        }
        Ok(())
    } else if tag_at(input, 0, [0x52u8, 0x46, 0x36, 0x34]) || tag_at(input, 0, [0x42u8, 0x57, 0x36, 0x34]) {
        Err(Error::UnsupportedRf64)
    } else if tag_at(input, 0, [0x52u8, 0x49, 0x46, 0x58]) {
        Err(Error::UnsupportedRifx)
    } else {
        Err(Error::InvalidSignature([input[0], input[1], input[2], input[3]]))
    }
}

/// Walks the chunks of a RIFF form whose header passed, from offset 12.
fn scan_chunks(input: &[u8], options: &Options) -> (r: Result<Gather, Error>)
    requires
        header_result(input@) is Ok,
    ensures
        match chunk_walk(input@, *options, initial_scan(input@), 12, riff_end(input@)) {
            Ok(s) => r matches Ok(g) && g.model() == s && (g.format matches Some(f) ==> format_ok(f))
                && forall|i: int|
                0 <= i < g.segments@.len() ==> g.segments@[i].0 + g.segments@[i].1 <= input@.len(),
            Err(e) => r matches Err(e2) && e2 == e,
        },
{
    let len = input.len();
    let ghost b = input@;
    let end = 8 + read_le32(input, 4) as usize;
    let mut warnings: Vec<String> = Vec::new();
    if end != len {
        let mut w = String::from_str("RIFF ends at byte ");
        push_decimal(&mut w, end as u64);
        w.append(", leaving ");
        push_decimal(&mut w, (len - end) as u64);
        w.append(" trailing input bytes");
        warnings.push(w);
    }
    let mut g = Gather {
        format: None,
        segments: Vec::new(),
        metadata: Vec::new(),
        found: 0,
        meta_bytes: 0,
        unknown: 0,
        warnings,
    };
    assert(g.model() =~= initial_scan(b)) by {
        assert(segments_model(g.segments@) =~= seq![]);
        assert(metadata_model(g.metadata@) =~= seq![]);
        assert(warnings_model(g.warnings@) =~= initial_scan(b).warnings);
    }
    let ghost target = chunk_walk(b, *options, initial_scan(b), 12, riff_end(b));
    let mut pos: usize = 12;
    while end - pos >= 8
        invariant
            b == input@,
            len == input@.len(),
            end <= len,
            12 <= pos <= end,
            chunk_walk(b, *options, g.model(), pos as int, end as int) == target,
            target == chunk_walk(b, *options, initial_scan(b), 12, riff_end(b)),
            end == riff_end(b),
            g.unknown <= pos,
            g.format matches Some(f) ==> format_ok(f),
            forall|i: int| 0 <= i < g.segments@.len() ==> g.segments@[i].0 + g.segments@[i].1 <= len,
        decreases end - pos,
    {
        let n = read_le32(input, pos + 4) as usize;
        if n > end - pos - 8 || n % 2 > end - pos - 8 - n {
            return Err(Error::Truncated("chunk payload or padding"));
        }
        match chunk_step_exec(input, options, &mut g, pos, n) {
            Ok(()) => {},
            Err(e) => return Err(e),
        }
        pos = pos + 8 + n + n % 2;
    }
    if pos != end {
        g.warn(crate::text::note("RIFF contains trailing bytes that do not form a complete chunk header"));
    }
    Ok(g)
}

/// Inspects the whole input.
fn inspect_exec(input: &[u8], options: &Options) -> (r: Result<Wave, Error>)
    ensures
        match inspect(input@, *options) {
            Ok(p) => r matches Ok(w) && wave_matches(w, p, input@),
            Err(e) => r matches Err(e2) && e2 == e,
        },
{
    match header_exec(input) {
        Ok(()) => {},
        Err(e) => return Err(e),
    }
    let ghost b = input@;
    let mut g = match scan_chunks(input, options) {
        Ok(g) => g,
        Err(e) => return Err(e),
    };
    if g.unknown != 0 {
        let mut w = String::new();
        push_decimal(&mut w, g.unknown);
        w.append(" unrecognized WAV chunks were not mapped to AIFF");
        assert(w@ =~= unknown_warning(g.unknown as int));
        g.warn(w);
    }
    let f = match g.format {
        Some(f) => f,
        None => return Err(Error::MissingFormatChunk),
    };
    if g.segments.len() == 0 {
        return Err(Error::MissingDataChunk);
    }
    let ghost s1 = g.model();
    let align = f.block_align as usize;
    assert(align >= 1) by (nonlinear_arith)
        requires
            align == f.channels * (f.bits_per_sample / 8),
            f.channels >= 1,
            f.bits_per_sample >= 8,
    ;
    let mut audio: u64 = 0;
    let mut i: usize = 0;
    while i < g.segments.len()
        invariant
            i <= g.segments@.len(),
            s1 == g.model(),
            s1.format == Some(f),
            inspect(input@, *options) == finish(s1, f),
            align == f.block_align,
            align >= 1,
            segments_total(s1.segments, align as int, i as int, audio as int) == segments_total(
                s1.segments,
                align as int,
                0,
                0,
            ),
            forall|j: int| 0 <= j < i ==> (g.segments@[j].1 as int) % (align as int) == 0,
        decreases g.segments@.len() - i,
    {
        let size = g.segments[i].1;
        assert(s1.segments[i as int] == (g.segments@[i as int].0 as int, size as int));
        if size % align != 0 {
            return Err(Error::PartialSampleFrame { data_bytes: size as u64, block_align: f.block_align });
        }
        audio = match audio.checked_add(size as u64) {
            Some(v) => v,
            None => return Err(Error::IntegerOverflow("audio byte count")),
        };
        i = i + 1;
    }
    let frames = audio / align as u64;
    if frames > 0xffff_ffff {
        return Err(Error::AiffSizeLimitExceeded { bytes: audio });
    }
    Ok(
        Wave {
            format: f,
            segments: g.segments,
            audio_bytes: audio,
            frames: frames as u32,
            metadata: g.metadata,
            found: g.found,
            meta_bytes: g.meta_bytes,
            warnings: g.warnings,
        },
    )
}

/// Bytes per output sample: the valid bits rounded up to whole bytes.
pub open spec fn output_width(f: Format) -> int {
    (f.valid_bits_per_sample + 7) / 8
}

/// Bytes of AIFF sound data.
pub open spec fn out_audio_bytes(p: Parsed) -> int {
    p.frames * (p.format.channels * output_width(p.format))
}

/// Size of a chunk with `n` payload bytes, header and pad byte included.
pub open spec fn chunk_total(n: int) -> Result<int, Error> {
    if 8 + n + n % 2 > u64::MAX {
        Err(Error::IntegerOverflow("AIFF chunk size"))
    } else {
        Ok(8 + n + n % 2)
    }
}

/// Total size of the first `k` metadata chunks.
pub open spec fn metadata_total(items: Seq<(Seq<u8>, Seq<u8>)>, k: int) -> Result<int, Error>
    decreases k,
{
    if k <= 0 {
        Ok(0)
    } else {
        match metadata_total(items, k - 1) {
            Err(e) => Err(e),
            Ok(t) => match chunk_total(items[k - 1].1.len() as int) {
                Err(e) => Err(e),
                Ok(c) => if t + c > u64::MAX {
                    Err(Error::IntegerOverflow("AIFF metadata total"))
                } else {
                    Ok(t + c)
                },
            },
        }
    }
}

/// The FORM payload size of the AIFF file for `p`.
pub open spec fn form_size(p: Parsed) -> Result<int, Error> {
    let ssnd = 8 + out_audio_bytes(p);
    let ssnd_total = 8 + ssnd + ssnd % 2;
    if ssnd > u32::MAX {
        Err(Error::AiffSizeLimitExceeded { bytes: (ssnd + 8) as u64 })
    } else {
        match metadata_total(p.scan.metadata, p.scan.metadata.len() as int) {
            Err(e) => Err(e),
            Ok(m) => if 26 + m + ssnd_total > u64::MAX {
                Err(Error::IntegerOverflow("AIFF FORM size"))
            } else if 4 + 26 + m + ssnd_total > u64::MAX {
                Err(Error::IntegerOverflow("AIFF FORM payload"))
            } else if 4 + 26 + m + ssnd_total > u32::MAX {
                let total = 4 + 26 + m + ssnd_total + 8;
                Err(
                    Error::AiffSizeLimitExceeded {
                        bytes: (if total > u64::MAX {
                            total - 0x1_0000_0000_0000_0000
                        } else {
                            total
                        }) as u64,
                    },
                )
            } else {
                Ok(4 + 26 + m + ssnd_total)
            },
        }
    }
}

/// One AIFF chunk: id, big-endian size, payload and pad byte.
pub open spec fn chunk_bytes(id: Seq<u8>, data: Seq<u8>) -> Seq<u8> {
    id + be32_bytes(data.len() as int) + data + (if data.len() % 2 == 1 {
        seq![0u8]
    } else {
        seq![]
    })
}

pub open spec fn meta_chunks(items: Seq<(Seq<u8>, Seq<u8>)>) -> Seq<u8>
    decreases items.len(),
{
    if items.len() == 0 {
        seq![]
    } else {
        meta_chunks(items.drop_last()) + chunk_bytes(items.last().0, items.last().1)
    }
}

/// The per-sample rewrite from WAVE to AIFF layout: reverse multi-byte
/// samples, flip the sign of 8-bit samples, keep the valid bytes.
pub open spec fn sample_rewrite(f: Format) -> SampleRewrite {
    let w = (f.bits_per_sample / 8) as usize;
    SampleRewrite {
        width: w,
        reverse: w > 1,
        flip: if w == 1 {
            0
        } else {
            w
        },
        keep: output_width(f) as usize,
    }
}

/// The rewritten samples of the segments `segs` of `b`, in order.
pub open spec fn segments_audio(b: Seq<u8>, segs: Seq<(int, int)>, r: SampleRewrite) -> Seq<u8>
    decreases segs.len(),
{
    if segs.len() == 0 {
        seq![]
    } else {
        segments_audio(b, segs.drop_last(), r) + r.map_all(
            b.subrange(segs.last().0, segs.last().0 + segs.last().1),
        )
    }
}

/// The FORM header and COMM chunk of the AIFF file for `p`.
#[verifier::opaque]
pub open spec fn aiff_head(p: Parsed, form: int) -> Seq<u8> {
    let f = p.format;
    tag4(0x46, 0x4f, 0x52, 0x4d) + be32_bytes(form) + tag4(0x41, 0x49, 0x46, 0x46) + tag4(
        0x43,
        0x4f,
        0x4d,
        0x4d,
    ) + be32_bytes(18) + be16_bytes(f.channels as int) + be32_bytes(p.frames) + be16_bytes(
        f.valid_bits_per_sample as int,
    ) + ext_encode(f.sample_rate as nat)
}

/// The SSND chunk header for `oab` bytes of sound data.
pub open spec fn ssnd_head(oab: int) -> Seq<u8> {
    tag4(0x53, 0x53, 0x4e, 0x44) + be32_bytes(8 + oab) + be32_bytes(0) + be32_bytes(0)
}

/// The AIFF file for `p` with FORM payload size `form`.
#[verifier::opaque]
pub open spec fn aiff_bytes(b: Seq<u8>, p: Parsed, form: int) -> Seq<u8> {
    let oab = out_audio_bytes(p);
    aiff_head(p, form) + meta_chunks(p.scan.metadata) + ssnd_head(oab) + segments_audio(
        b,
        p.scan.segments,
        sample_rewrite(p.format),
    ) + (if oab % 2 == 1 {
        seq![0u8]
    } else {
        seq![]
    })
}

/// The outcome of writing the AIFF file for `p`: the FORM size and the bytes.
pub open spec fn write_result(b: Seq<u8>, p: Parsed, o: Options) -> Result<(int, Seq<u8>), Error> {
    let w = (p.format.bits_per_sample / 8) as int;
    match form_size(p) {
        Err(e) => Err(e),
        Ok(form) => if o.buffer_size - (o.buffer_size as int) % w == 0 {
            Err(Error::InvalidOptions("buffer_size is smaller than one input sample"))
        } else {
            Ok((form, aiff_bytes(b, p, form)))
        },
    }
}

fn push_tag(out: &mut Vec<u8>, tag: [u8; 4])
    ensures
        final(out)@ == old(out)@ + tag@,
{
    out.push(tag[0]);
    out.push(tag[1]);
    out.push(tag[2]);
    out.push(tag[3]);
    assert(out@ =~= old(out)@ + tag@);
}

proof fn lemma_metadata_total_err(items: Seq<(Seq<u8>, Seq<u8>)>, j: int, n: int)
    requires
        0 <= j <= n,
        metadata_total(items, j) is Err,
    ensures
        metadata_total(items, n) == metadata_total(items, j),
    decreases n - j,
{
    if j < n {
        lemma_metadata_total_err(items, j, n - 1);
    }
}

fn metadata_total_exec(items: &Vec<MetadataChunk>) -> (r: Result<u64, Error>)
    ensures
        match metadata_total(metadata_model(items@), items@.len() as int) {
            Ok(t) => r matches Ok(v) && v as int == t,
            Err(e) => r matches Err(e2) && e2 == e,
        },
{
    let ghost m = metadata_model(items@);
    let mut total: u64 = 0;
    let mut k: usize = 0;
    while k < items.len()
        invariant
            m == metadata_model(items@),
            k <= items@.len(),
            metadata_total(m, k as int) == Ok::<int, Error>(total as int),
        decreases items@.len() - k,
    {
        let n = items[k].data.len();
        assert(m[k as int].1.len() == n);
        let c = match 8u64.checked_add(n as u64) {
            Some(v) => match v.checked_add(n as u64 % 2) {
                Some(c) => c,
                None => {
                    proof { lemma_metadata_total_err(m, k + 1, items@.len() as int); }
                    return Err(Error::IntegerOverflow("AIFF chunk size"));
                },
            },
            None => {
                proof { lemma_metadata_total_err(m, k + 1, items@.len() as int); }
                return Err(Error::IntegerOverflow("AIFF chunk size"));
            },
        };
        total = match total.checked_add(c) {
            Some(t) => t,
            None => {
                proof { lemma_metadata_total_err(m, k + 1, items@.len() as int); }
                return Err(Error::IntegerOverflow("AIFF metadata total"));
            },
        };
        k = k + 1;
    }
    Ok(total)
}

proof fn lemma_metadata_total_bound(items: Seq<(Seq<u8>, Seq<u8>)>, k: int, t: int)
    requires
        0 <= k <= items.len(),
        metadata_total(items, k) == Ok::<int, Error>(t),
    ensures
        t >= 0,
        forall|i: int| 0 <= i < k ==> 8 + items[i].1.len() <= t,
    decreases k,
{
    if k > 0 {
        let prev = metadata_total(items, k - 1)->Ok_0;
        lemma_metadata_total_bound(items, k - 1, prev);
    }
}

/// Appends the metadata chunks `items` to `out`.
fn push_metadata(out: &mut Vec<u8>, items: &Vec<MetadataChunk>, Ghost(t): Ghost<int>)
    requires
        metadata_total(metadata_model(items@), items@.len() as int) == Ok::<int, Error>(t),
        t <= u32::MAX,
    ensures
        final(out)@ == old(out)@ + meta_chunks(metadata_model(items@)),
{
    let ghost m = metadata_model(items@);
    proof {
        lemma_metadata_total_bound(m, items@.len() as int, t);
    }
    let mut k: usize = 0;
    while k < items.len()
        invariant
            m == metadata_model(items@),
            k <= items@.len(),
            forall|i: int| 0 <= i < items@.len() ==> 8 + m[i].1.len() <= t,
            t <= u32::MAX,
            out@ == old(out)@ + meta_chunks(m.take(k as int)),
        decreases items@.len() - k,
    {
        let item = &items[k];
        assert(m[k as int] == (item.id@, item.data@));
        let ghost before = out@;
        push_tag(out, item.id);
        push_be32(out, item.data.len() as u32);
        let n = item.data.len();
        crate::bytes::push_range(out, item.data.as_slice(), 0, n);
        if n % 2 == 1 {
            out.push(0);
        }
        assert(item.data@.subrange(0, n as int) =~= item.data@);
        assert(m.take(k + 1).drop_last() =~= m.take(k as int));
        assert(out@ =~= before + chunk_bytes(item.id@, item.data@));
        k = k + 1;
    }
    assert(m.take(items@.len() as int) =~= m);
}

/// Appends the rewritten samples of every data segment.
fn push_audio(out: &mut Vec<u8>, input: &[u8], segments: &Vec<(usize, usize)>, f: Format)
    requires
        format_ok(f),
        forall|i: int|
            0 <= i < segments@.len() ==> segments@[i].0 + segments@[i].1 <= input@.len() && (
            segments@[i].1 as int) % (f.block_align as int) == 0,
    ensures
        final(out)@ == old(out)@ + segments_audio(input@, segments_model(segments@), sample_rewrite(f)),
{
    let ghost segs = segments_model(segments@);
    let iw = (f.bits_per_sample / 8) as usize;
    let ow = ((f.valid_bits_per_sample as usize) + 7) / 8;
    let r = SampleRewrite {
        width: iw,
        reverse: iw > 1,
        flip: if iw == 1 {
            0
        } else {
            iw
        },
        keep: ow,
    };
    assert(r == sample_rewrite(f));
    assert(r.wf());
    let mut k: usize = 0;
    while k < segments.len()
        invariant
            segs == segments_model(segments@),
            k <= segments@.len(),
            format_ok(f),
            r == sample_rewrite(f),
            r.wf(),
            r.width as int == f.bits_per_sample / 8,
            forall|i: int|
                0 <= i < segments@.len() ==> segments@[i].0 + segments@[i].1 <= input@.len() && (
                segments@[i].1 as int) % (f.block_align as int) == 0,
            out@ == old(out)@ + segments_audio(input@, segs.take(k as int), r),
        decreases segments@.len() - k,
    {
        let (off, size) = segments[k];
        assert(segs[k as int] == (off as int, size as int));
        proof {
            crate::arith::lemma_multiple_of_factor(size as int, f.channels as int, r.width as int);
        }
        let count = size / r.width;
        crate::pcm::push_samples(out, input, off, count, r);
        assert(input@.subrange(off as int, off + size).len() / r.width as nat == count);
        assert(segs.take(k + 1).drop_last() =~= segs.take(k as int));
        k = k + 1;
    }
    assert(segs.take(segments@.len() as int) =~= segs);
}

fn push_head(out: &mut Vec<u8>, f: Format, frames: u32, form: u32, Ghost(p): Ghost<Parsed>)
    requires
        p.format == f,
        p.frames == frames,
        f.sample_rate != 0,
    ensures
        final(out)@ == old(out)@ + aiff_head(p, form as int),
{
    push_tag(out, [0x46u8, 0x4f, 0x52, 0x4d]);
    push_be32(out, form);
    push_tag(out, [0x41u8, 0x49, 0x46, 0x46]);
    push_tag(out, [0x43u8, 0x4f, 0x4d, 0x4d]);
    push_be32(out, 18);
    push_be16(out, f.channels);
    push_be32(out, frames);
    push_be16(out, f.valid_bits_per_sample);
    push_rate(out, f.sample_rate);
    assert([0x46u8, 0x4f, 0x52, 0x4d]@ =~= tag4(0x46, 0x4f, 0x52, 0x4d));
    assert([0x41u8, 0x49, 0x46, 0x46]@ =~= tag4(0x41, 0x49, 0x46, 0x46));
    assert([0x43u8, 0x4f, 0x4d, 0x4d]@ =~= tag4(0x43, 0x4f, 0x4d, 0x4d));
    assert(final(out)@ =~= old(out)@ + aiff_head(p, form as int)) by {
        reveal(aiff_head);
    }
}

fn push_ssnd_head(out: &mut Vec<u8>, oab: u64)
    requires
        8 + oab <= u32::MAX,
    ensures
        final(out)@ == old(out)@ + ssnd_head(oab as int),
{
    push_tag(out, [0x53u8, 0x53, 0x4e, 0x44]);
    push_be32(out, (8 + oab) as u32);
    push_be32(out, 0);
    push_be32(out, 0);
    assert([0x53u8, 0x53, 0x4e, 0x44]@ =~= tag4(0x53, 0x53, 0x4e, 0x44));
    assert(final(out)@ =~= old(out)@ + ssnd_head(oab as int));
}

/// The bytes of the AIFF file for an inspected input.
fn emit_aiff(input: &[u8], w: &Wave, form: u32, oab: u64, Ghost(p): Ghost<Parsed>, Ghost(m): Ghost<int>) -> (out: Vec<u8>)
    requires
        wave_matches(*w, p, input@),
        oab == out_audio_bytes(p),
        8 + oab <= u32::MAX,
        metadata_total(p.scan.metadata, p.scan.metadata.len() as int) == Ok::<int, Error>(m),
        m <= u32::MAX,
    ensures
        out@ == aiff_bytes(input@, p, form as int),
{
    let mut out: Vec<u8> = Vec::new();
    push_head(&mut out, w.format, w.frames, form, Ghost(p));
    assert(metadata_model(w.metadata@).len() == w.metadata@.len());
    push_metadata(&mut out, &w.metadata, Ghost(m));
    push_ssnd_head(&mut out, oab);
    push_audio(&mut out, input, &w.segments, w.format);
    if oab % 2 == 1 {
        out.push(0);
    }
    assert(out@ =~= aiff_bytes(input@, p, form as int)) by {
        reveal(aiff_bytes);
    }
    out
}

/// Bytes of AIFF sound data for an inspected input.
fn audio_size(w: &Wave, Ghost(p): Ghost<Parsed>) -> (oab: u64)
    requires
        w.format == p.format,
        w.frames == p.frames,
        format_ok(w.format),
    ensures
        oab == out_audio_bytes(p),
        oab <= 0xffff_ffff * 65535 * 4,
{
    let f = w.format;
    let ow = ((f.valid_bits_per_sample as usize) + 7) / 8;
    assert(ow == output_width(f));
    assert(f.channels as int * ow as int <= 65535 * 4) by (nonlinear_arith)
        requires
            ow <= 4,
            f.channels <= 65535,
    ;
    let oba = f.channels as u64 * ow as u64;
    assert(oba <= 65535 * 4) by (nonlinear_arith)
        requires
            oba == f.channels * ow,
            ow <= 4,
    ;
    assert(w.frames as int * oba as int <= 0xffff_ffff * 65535 * 4) by (nonlinear_arith)
        requires
            oba <= 65535 * 4,
            w.frames <= 0xffff_ffff,
    ;
    w.frames as u64 * oba
}

/// The FORM payload size for `oab` bytes of sound and the metadata `items`.
fn form_size_exec(oab: u64, items: &Vec<MetadataChunk>, Ghost(p): Ghost<Parsed>) -> (r: Result<(u64, u64), Error>)
    requires
        oab == out_audio_bytes(p),
        oab <= 0xffff_ffff * 65535 * 4,
        metadata_model(items@) == p.scan.metadata,
    ensures
        match form_size(p) {
            Ok(form) => r matches Ok((fo, m)) && fo == form && metadata_total(
                p.scan.metadata,
                p.scan.metadata.len() as int,
            ) == Ok::<int, Error>(m as int) && m <= form && form <= u32::MAX && 8 + oab
                <= u32::MAX,
            Err(e) => r matches Err(e2) && e2 == e,
        },
{
    let ssnd = 8 + oab;
    if ssnd > 0xffff_ffff {
        return Err(Error::AiffSizeLimitExceeded { bytes: ssnd + 8 });
    }
    let ssnd_total = 8 + ssnd + ssnd % 2;
    let m = match metadata_total_exec(items) {
        Ok(m) => m,
        Err(e) => return Err(e),
    };
    let chunks = match 26u64.checked_add(m) {
        Some(v) => match v.checked_add(ssnd_total) {
            Some(c) => c,
            None => return Err(Error::IntegerOverflow("AIFF FORM size")),
        },
        None => return Err(Error::IntegerOverflow("AIFF FORM size")),
    };
    let form = match 4u64.checked_add(chunks) {
        Some(v) => v,
        None => return Err(Error::IntegerOverflow("AIFF FORM payload")),
    };
    if form > 0xffff_ffff {
        return Err(Error::AiffSizeLimitExceeded { bytes: form.wrapping_add(8) });
    }
    Ok((form, m))
}

/// Writes the AIFF file for an inspected input: FORM size, audio size, bytes.
fn write_aiff(input: &[u8], w: &Wave, options: &Options, Ghost(p): Ghost<Parsed>) -> (r: Result<
    (u64, u64, Vec<u8>),
    Error,
>)
    requires
        wave_matches(*w, p, input@),
    ensures
        match write_result(input@, p, *options) {
            Ok((form, bytes)) => r matches Ok((fo, oab, out)) && fo == form && oab
                == out_audio_bytes(p) && out@ == bytes && bytes.len() == form + 8,
            Err(e) => r matches Err(e2) && e2 == e,
        },
{
    let oab = audio_size(w, Ghost(p));
    let (form, m) = match form_size_exec(oab, &w.metadata, Ghost(p)) {
        Ok(v) => v,
        Err(e) => return Err(e),
    };
    let iw = (w.format.bits_per_sample / 8) as usize;
    assert(iw >= 1);
    let buffer_len = options.buffer_size - options.buffer_size % iw;
    if buffer_len == 0 {
        return Err(Error::InvalidOptions("buffer_size is smaller than one input sample"));
    }
    let out = emit_aiff(input, w, form as u32, oab, Ghost(p), Ghost(m as int));
    proof {
        lemma_wave_len(input@, *w, p, form as int, m as int);
    }
    Ok((form, oab, out))
}

/// The working memory estimate: two sample buffers plus the preserved text.
pub open spec fn peak_memory(o: Options, p: Parsed) -> int {
    2 * o.buffer_size + p.scan.meta_bytes
}

/// The outcome of the option checks.
pub open spec fn options_result(o: Options) -> Result<(), Error> {
    if o.buffer_size == 0 {
        Err(Error::InvalidOptions("buffer_size must be non-zero"))
    } else if o.buffer_size > 16777216 {
        Err(Error::InvalidOptions("buffer_size exceeds 16 MiB"))
    } else if o.max_channels == 0 {
        Err(Error::InvalidOptions("max_channels must be non-zero"))
    } else {
        Ok(())
    }
}

/// The error `convert` returns for `b`, if any.
pub open spec fn convert_error(b: Seq<u8>, o: Options) -> Option<Error> {
    match options_result(o) {
        Err(e) => Some(e),
        Ok(_) => match inspect(b, o) {
            Err(e) => Some(e),
            Ok(p) => match write_result(b, p, o) {
                Err(e) => Some(e),
                Ok(_) => if peak_memory(o, p) > u64::MAX {
                    Some(Error::IntegerOverflow("working memory estimate"))
                } else {
                    None
                },
            },
        },
    }
}

/// Converts integer PCM audio in a RIFF/WAVE file into classic AIFF.
///
/// The whole of `input` is the WAVE file. RIFF permits metadata and `fmt `
/// chunks to appear after audio chunks, and several `data` chunks are
/// concatenated in order. On success the AIFF file is appended to `output`;
/// on failure `output` is left unchanged.
pub fn convert(input: &[u8], output: &mut Vec<u8>, options: &Options) -> (result: Result<Report, Error>)
    ensures
        match convert_error(input@, *options) {
            Some(e) => result matches Err(e2) && e2 == e && final(output)@ == old(output)@,
            None => result is Ok,
        },
        result matches Ok(report) ==> {
            let p = inspect(input@, *options)->Ok_0;
            let (form, bytes) = write_result(input@, p, *options)->Ok_0;
            &&& final(output)@ == old(output)@ + bytes
            &&& final(output)@.len() == old(output)@.len() + report.output_bytes
            &&& report.input_bytes == input@.len()
            &&& report.output_bytes == form + 8
            &&& report.channels == p.format.channels
            &&& report.sample_rate == p.format.sample_rate
            &&& report.container_bits_per_sample == p.format.bits_per_sample
            &&& report.valid_bits_per_sample == p.format.valid_bits_per_sample
            &&& report.sample_frames == p.frames
            &&& report.source_audio_bytes == p.audio_bytes
            &&& report.output_audio_bytes == out_audio_bytes(p)
            &&& report.source_data_chunks == p.scan.segments.len() as u32
            &&& report.wave_format_extensible == p.format.extensible
            &&& report.metadata_chunks_found == p.scan.found
            &&& report.metadata_chunks_preserved == p.scan.metadata.len() as u32
            &&& report.metadata_bytes_preserved == p.scan.meta_bytes
            &&& report.peak_working_memory_bytes == peak_memory(*options, p)
            &&& report.strategy == "pcm-exact"
            &&& report.backend == "native-portable"
            &&& report.warnings@.map_values(|s: String| s@) == p.scan.warnings
        },
{
    if options.buffer_size == 0 {
        return Err(Error::InvalidOptions("buffer_size must be non-zero"));
    }
    if options.buffer_size > 16777216 {
        return Err(Error::InvalidOptions("buffer_size exceeds 16 MiB"));
    }
    if options.max_channels == 0 {
        return Err(Error::InvalidOptions("max_channels must be non-zero"));
    }
    let ghost b = input@;
    let w = match inspect_exec(input, options) {
        Ok(w) => w,
        Err(e) => return Err(e),
    };
    let ghost p = inspect(b, *options)->Ok_0;
    let (form, oab, mut bytes) = match write_aiff(input, &w, options, Ghost(p)) {
        Ok(v) => v,
        Err(e) => return Err(e),
    };
    let peak = match (options.buffer_size as u64 * 2).checked_add(w.meta_bytes) {
        Some(v) => v,
        None => return Err(Error::IntegerOverflow("working memory estimate")),
    };
    output.append(&mut bytes);
    let Wave { format, segments, audio_bytes, frames, metadata, found, meta_bytes, warnings } = w;
    assert(warnings@.map_values(|s: String| s@) =~= warnings_model(warnings@));
    Ok(
        Report {
            input_bytes: input.len() as u64,
            output_bytes: form + 8,
            channels: format.channels,
            sample_rate: format.sample_rate,
            container_bits_per_sample: format.bits_per_sample,
            valid_bits_per_sample: format.valid_bits_per_sample,
            sample_frames: frames,
            source_audio_bytes: audio_bytes,
            output_audio_bytes: oab,
            source_data_chunks: segments.len() as u32,
            wave_format_extensible: format.extensible,
            metadata_chunks_found: found,
            metadata_chunks_preserved: metadata.len() as u32,
            metadata_bytes_preserved: meta_bytes,
            peak_working_memory_bytes: peak,
            strategy: "pcm-exact",
            backend: "native-portable",
            warnings,
        },
    )
}

/// The payload bytes of the segments `segs`.
pub open spec fn seg_sum(segs: Seq<(int, int)>) -> int
    decreases segs.len(),
{
    if segs.len() == 0 {
        0
    } else {
        seg_sum(segs.drop_last()) + segs.last().1
    }
}

proof fn lemma_segments_total_sum(segs: Seq<(int, int)>, align: int, i: int, acc: int, t: int)
    requires
        0 <= i <= segs.len(),
        segments_total(segs, align, i, acc) == Ok::<int, Error>(t),
    ensures
        t == acc + seg_sum(segs) - seg_sum(segs.take(i)),
    decreases segs.len() - i,
{
    if i < segs.len() {
        lemma_segments_total_sum(segs, align, i + 1, acc + segs[i].1, t);
        assert(segs.take(i + 1).drop_last() =~= segs.take(i));
    } else {
        assert(segs.take(i) =~= segs);
    }
}

proof fn lemma_meta_len(items: Seq<(Seq<u8>, Seq<u8>)>, k: int, t: int)
    requires
        0 <= k <= items.len(),
        metadata_total(items, k) == Ok::<int, Error>(t),
        forall|i: int| 0 <= i < items.len() ==> items[i].0.len() == 4,
    ensures
        meta_chunks(items.take(k)).len() == t,
    decreases k,
{
    if k > 0 {
        let prev = metadata_total(items, k - 1)->Ok_0;
        lemma_meta_len(items, k - 1, prev);
        assert(items.take(k).drop_last() =~= items.take(k - 1));
    }
}

proof fn lemma_audio_len(b: Seq<u8>, segs: Seq<(int, int)>, r: SampleRewrite, align: int)
    requires
        r.wf(),
        align > 0,
        align % (r.width as int) == 0,
        forall|i: int|
            0 <= i < segs.len() ==> 0 <= segs[i].0 && 0 <= segs[i].1 && segs[i].0 + segs[i].1
                <= b.len() && segs[i].1 % align == 0,
    ensures
        seg_sum(segs) % align == 0,
        seg_sum(segs) >= 0,
        segments_audio(b, segs, r).len() == seg_sum(segs) / (r.width as int) * (r.keep as int),
    decreases segs.len(),
{
    if segs.len() > 0 {
        let w = r.width as int;
        let k = r.keep as int;
        let rest = segs.drop_last();
        lemma_audio_len(b, rest, r, align);
        let (off, size) = segs.last();
        let data = b.subrange(off, off + size);
        crate::pcm::lemma_map_len(r, data, data.len() / (r.width as nat));
        let a = seg_sum(rest);
        vstd::arithmetic::div_mod::lemma_mod_adds(a, size, align);
        assert(align / w * w == align) by {
            vstd::arithmetic::div_mod::lemma_fundamental_div_mod(align, w);
            assert(w * (align / w) == (align / w) * w) by (nonlinear_arith);
        }
        assert(align / w > 0) by (nonlinear_arith)
            requires
                align / w * w == align,
                align > 0,
                w > 0,
        ;
        crate::arith::lemma_multiple_of_factor(a, align / w, w);
        crate::arith::lemma_multiple_of_factor(size, align / w, w);
        let qa = a / w;
        let qs = size / w;
        crate::arith::lemma_mul_div(qa + qs, w);
        assert((qa + qs) * w == qa * w + qs * w) by (nonlinear_arith);
        assert((qa + qs) * k == qa * k + qs * k) by (nonlinear_arith);
    }
}

proof fn lemma_frames(audio: int, ch: int, w: int, k: int)
    requires
        ch >= 1,
        w >= 1,
        audio >= 0,
        audio % (ch * w) == 0,
    ensures
        (audio / w) * k == (audio / (ch * w)) * (ch * k),
{
    assert(ch * w > 0) by (nonlinear_arith)
        requires
            ch >= 1,
            w >= 1,
    ;
    let q = audio / (ch * w);
    vstd::arithmetic::div_mod::lemma_fundamental_div_mod(audio, ch * w);
    assert(audio == (q * ch) * w) by (nonlinear_arith)
        requires
            audio == (ch * w) * q + 0,
    ;
    crate::arith::lemma_mul_div(q * ch, w);
    assert((q * ch) * k == q * (ch * k)) by (nonlinear_arith);
}

proof fn lemma_sound_len(b: Seq<u8>, p: Parsed)
    requires
        format_ok(p.format),
        forall|i: int|
            0 <= i < p.scan.segments.len() ==> 0 <= p.scan.segments[i].0 && 0
                <= p.scan.segments[i].1 && p.scan.segments[i].0 + p.scan.segments[i].1 <= b.len()
                && p.scan.segments[i].1 % (p.format.block_align as int) == 0,
        segments_total(p.scan.segments, p.format.block_align as int, 0, 0) == Ok::<int, Error>(
            p.audio_bytes,
        ),
        p.frames == p.audio_bytes / (p.format.block_align as int),
    ensures
        segments_audio(b, p.scan.segments, sample_rewrite(p.format)).len() == out_audio_bytes(p),
        out_audio_bytes(p) >= 0,
{
    let f = p.format;
    let r = sample_rewrite(f);
    let segs = p.scan.segments;
    let align = f.block_align as int;
    let w = r.width as int;
    let ch = f.channels as int;
    assert(align % w == 0) by {
        crate::arith::lemma_mul_div(ch, w);
    }
    lemma_audio_len(b, segs, r, align);
    lemma_segments_total_sum(segs, align, 0, 0, p.audio_bytes);
    assert(segs.take(0) =~= Seq::<(int, int)>::empty());
    lemma_frames(p.audio_bytes, ch, w, r.keep as int);
    assert(p.frames >= 0);
    assert(out_audio_bytes(p) >= 0) by (nonlinear_arith)
        requires
            p.frames >= 0,
            ch >= 1,
            output_width(f) >= 1,
            out_audio_bytes(p) == p.frames * (ch * output_width(f)),
    ;
}

/// For every input that converts, the AIFF written is exactly `form + 8`
/// bytes long: the FORM header is consistent with the file.
proof fn lemma_aiff_len(b: Seq<u8>, p: Parsed, form: int, m: int)
    requires
        meta_chunks(p.scan.metadata).len() == m,
        segments_audio(b, p.scan.segments, sample_rewrite(p.format)).len() == out_audio_bytes(p),
        out_audio_bytes(p) >= 0,
        form == 4 + 26 + m + 8 + (8 + out_audio_bytes(p)) + (8 + out_audio_bytes(p)) % 2,
    ensures
        aiff_bytes(b, p, form).len() == form + 8,
{
    let oab = out_audio_bytes(p);
    lemma_head_lens(p, form, oab);
    let head = aiff_head(p, form);
    let meta = meta_chunks(p.scan.metadata);
    let ssnd = ssnd_head(oab);
    let sound = segments_audio(b, p.scan.segments, sample_rewrite(p.format));
    let pad: Seq<u8> = if oab % 2 == 1 {
        seq![0u8]
    } else {
        seq![]
    };
    assert(pad.len() == oab % 2);
    assert(aiff_bytes(b, p, form).len() == head.len() + meta.len() + ssnd.len() + sound.len()
        + pad.len()) by {
        reveal(aiff_bytes);
    }
    assert((8 + oab) % 2 == oab % 2);
}

proof fn lemma_wave_len(b: Seq<u8>, w: Wave, p: Parsed, form: int, m: int)
    requires
        wave_matches(w, p, b),
        form_size(p) == Ok::<int, Error>(form),
        metadata_total(p.scan.metadata, p.scan.metadata.len() as int) == Ok::<int, Error>(m),
    ensures
        aiff_bytes(b, p, form).len() == form + 8,
{
    assert forall|i: int| 0 <= i < p.scan.metadata.len() implies p.scan.metadata[i].0.len()
        == 4 by {
        assert(p.scan.metadata[i] == (w.metadata@[i].id@, w.metadata@[i].data@));
    }
    assert forall|i: int| 0 <= i < p.scan.segments.len() implies 0 <= p.scan.segments[i].0 && 0
        <= p.scan.segments[i].1 && p.scan.segments[i].0 + p.scan.segments[i].1 <= b.len()
        && p.scan.segments[i].1 % (p.format.block_align as int) == 0 by {
        assert(p.scan.segments[i] == (w.segments@[i].0 as int, w.segments@[i].1 as int));
    }
    lemma_sound_len(b, p);
    lemma_meta_len(p.scan.metadata, p.scan.metadata.len() as int, m);
    assert(p.scan.metadata.take(p.scan.metadata.len() as int) =~= p.scan.metadata);
    lemma_aiff_len(b, p, form, m);
}

proof fn lemma_head_lens(p: Parsed, form: int, oab: int)
    ensures
        aiff_head(p, form).len() == 38,
        ssnd_head(oab).len() == 16,
{
    assert(ext_encode(p.format.sample_rate as nat).len() == 10);
    reveal(aiff_head);
}

} // verus!
