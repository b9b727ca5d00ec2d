//! Integer PCM moved between audio containers: RIFF/WAVE (and RF64, BW64,
//! BWF), AIFF, CAF, Sun AU and Sony Wave64. The capsule is built for one
//! pair (`SOURCE` to `TARGET`); samples are rewritten for the target's byte
//! order and 8-bit signedness.
use vstd::prelude::*;
use crate::bytes::{le16_bytes, le32_bytes, le64_bytes, push_be16, push_be32, push_be64, push_le16, push_le32, push_le64, read_be16, read_be32, read_be64, read_le16, read_le32, read_le64, tag_at};
use crate::pcm::SampleRewrite;

verus! {

#[derive(Clone, Copy, Debug, PartialEq, Eq, Structural)]
pub enum Profile {
    Wav,
    Aiff,
    Caf,
    Au,
    Rf64,
    Bw64,
    Wave64,
    Bwf,
}

pub const SOURCE: Profile = Profile::Caf;

pub const TARGET: Profile = Profile::Wave64;

#[derive(Clone, Copy, Debug, PartialEq, Eq, Structural)]
pub enum Endian {
    Little,
    Big,
}

/// How a container stores samples.
#[derive(Clone, Copy, Debug, PartialEq, Eq, Structural)]
pub struct Storage {
    pub endian: Endian,
    pub eight_bit_signed: bool,
}

#[derive(Debug, Clone, PartialEq, Eq)]
pub struct Options {
    pub strict_header_consistency: bool,
    pub buffer_size: usize,
    pub max_channels: u16,
}

impl Default for Options {
    fn default() -> (o: Self)
        ensures
            o.strict_header_consistency,
            o.buffer_size == 65536,
            o.max_channels == 256,
    {
        Options { strict_header_consistency: true, buffer_size: 65536, max_channels: 256 }
    }
}

#[derive(Debug, Clone, PartialEq, Eq)]
pub struct Report {
    pub input_bytes: u64,
    pub output_bytes: u64,
    pub audio_bytes: u64,
    pub channels: u16,
    pub sample_rate: u32,
    pub container_bits_per_sample: u16,
    pub valid_bits_per_sample: u16,
    pub sample_frames: u64,
    pub peak_working_memory_bytes: u64,
    pub warnings: Vec<String>,
}

#[derive(Debug)]
pub enum Error {
    Invalid(&'static str),
    Unsupported(&'static str),
    SizeLimit,
    Overflow,
}

/// A PCM layout: channels, rate, container and valid bits, frame bytes.
#[derive(Clone, Copy, Debug, PartialEq, Eq, Structural)]
pub struct Format {
    pub channels: u16,
    pub rate: u32,
    pub container_bits: u16,
    pub valid_bits: u16,
    pub block_align: u16,
}

impl Format {
    /// Whole-byte samples of 1 to 4 bytes, one or more channels, frames of
    /// `channels` samples.
    pub open spec fn wf(self) -> bool {
        &&& 1 <= self.channels
        &&& (self.container_bits == 8 || self.container_bits == 16 || self.container_bits == 24 || self.container_bits == 32)
        &&& 1 <= self.valid_bits <= self.container_bits
        &&& self.block_align == self.channels * (self.container_bits / 8)
    }
}

/// One run of audio bytes: `input[offset..offset + size]`.
#[derive(Clone, Copy, Debug)]
pub struct Segment {
    pub offset: usize,
    pub size: usize,
}

pub struct Parsed {
    pub input_bytes: u64,
    pub format: Format,
    pub storage: Storage,
    pub segments: Vec<Segment>,
    pub audio_bytes: u64,
    pub warnings: Vec<String>,
}

/// The header written before the audio, and the zero bytes after it.
pub struct Plan {
    pub prefix: Vec<u8>,
    pub padding: usize,
}

pub open spec fn storage_of(p: Profile) -> Storage {
    match p {
        Profile::Aiff | Profile::Au => Storage { endian: Endian::Big, eight_bit_signed: true },
        Profile::Caf => Storage { endian: Endian::Little, eight_bit_signed: true },
        _ => Storage { endian: Endian::Little, eight_bit_signed: false },
    }
}

pub fn storage(profile: Profile) -> (s: Storage)
    ensures
        s == storage_of(profile),
{
    match profile {
        Profile::Aiff | Profile::Au => Storage { endian: Endian::Big, eight_bit_signed: true },
        Profile::Caf => Storage { endian: Endian::Little, eight_bit_signed: true },
        _ => Storage { endian: Endian::Little, eight_bit_signed: false },
    }
}

/// `value` rounded up to a multiple of `alignment`.
pub fn align(value: u64, alignment: u64) -> (r: Result<u64, Error>)
    requires
        alignment >= 1,
    ensures
        r matches Ok(v) ==> v == (value + alignment - 1) / alignment as int * alignment,
        r is Ok <==> value + alignment - 1 <= u64::MAX,
{
    if value > u64::MAX - (alignment - 1) {
        return Err(Error::Overflow);
    }
    let v = value + (alignment - 1);
    assert((v / alignment) as int * alignment as int <= v) by {
        vstd::arithmetic::div_mod::lemma_fundamental_div_mod(v as int, alignment as int);
    }
    Ok(v / alignment * alignment)
}

/// The sample rewrite between two storage conventions.
pub open spec fn rewrite_between(width: int, source: Storage, target: Storage) -> SampleRewrite {
    let source_signed = if width == 1 { source.eight_bit_signed } else { true };
    let target_signed = if width == 1 { target.eight_bit_signed } else { true };
    SampleRewrite {
        width: width as usize,
        reverse: width > 1 && source.endian != target.endian,
        flip: if source_signed != target_signed {
            if width == 1 || target.endian == Endian::Big { 0 } else { (width - 1) as usize }
        } else {
            width as usize
        },
        keep: width as usize,
    }
}

fn rewrite(width: usize, source: Storage, target: Storage) -> (r: SampleRewrite)
    requires
        1 <= width <= 4,
    ensures
        r == rewrite_between(width as int, source, target),
        r.wf(),
{
    let source_signed = if width == 1 { source.eight_bit_signed } else { true };
    let target_signed = if width == 1 { target.eight_bit_signed } else { true };
    SampleRewrite {
        width,
        reverse: width > 1 && source.endian != target.endian,
        flip: if source_signed != target_signed {
            if width == 1 || target.endian == Endian::Big { 0 } else { width - 1 }
        } else {
            width
        },
        keep: width,
    }
}

/// Appends the rewrite of `input[offset..offset + size]`.
pub fn transform(out: &mut Vec<u8>, input: &[u8], offset: usize, size: usize, width: usize, source: Storage, target: Storage)
    requires
        1 <= width <= 4,
        offset + size <= input@.len(),
        size as int % width as int == 0,
    ensures
        final(out)@ == old(out)@ + rewrite_between(width as int, source, target).map_all(
            input@.subrange(offset as int, offset + size),
        ),
{
    let r = rewrite(width, source, target);
    let count = size / width;
    assert(count * width == size) by (nonlinear_arith)
        requires
            count == size as int / width as int,
            size as int % width as int == 0,
            width >= 1,
    ;
    crate::pcm::push_samples(out, input, offset, count, r);
    assert(input@.subrange(offset as int, offset + size).len() / width as nat == count);
}

/// Flipping a sign bit twice restores the byte.
proof fn lemma_flip_twice(x: u8)
    ensures
        (x ^ 0x80u8) ^ 0x80u8 == x,
{
    assert((x ^ 0x80u8) ^ 0x80u8 == x) by (bit_vector);
}

/// The rewrite back from `target` to `source` undoes the rewrite from
/// `source` to `target` on one sample.
proof fn lemma_sample_round_trip(width: int, source: Storage, target: Storage, s: Seq<u8>)
    requires
        1 <= width <= 4,
        s.len() == width,
    ensures
        rewrite_between(width, target, source).apply(rewrite_between(width, source, target).apply(s)) == s,
{
    let r1 = rewrite_between(width, source, target);
    let r2 = rewrite_between(width, target, source);
    let t = r1.apply(s);
    let u = r2.apply(t);
    assert(r1.reverse == r2.reverse);
    assert(r1.flip == r2.flip);
    assert forall|j: int| 0 <= j < width implies u[j] == s[j] by {
        let j2 = if r2.reverse { width - 1 - j } else { j };
        assert(u[j] == if j == r2.flip { t[j2] ^ 0x80u8 } else { t[j2] });
        if j == r2.flip {
            assert(j == 0 && width == 1);
            lemma_flip_twice(s[0]);
        }
    }
    assert(u =~= s);
}

/// Rewriting samples from `source` to `target` storage and back gives the
/// bytes back: the transform between two conventions is undone by the
/// transform in the other direction.
pub proof fn lemma_transform_round_trip(width: int, source: Storage, target: Storage, data: Seq<u8>, n: nat)
    requires
        1 <= width <= 4,
        n * width <= data.len(),
    ensures
        rewrite_between(width, target, source).map(rewrite_between(width, source, target).map(data, n), n)
            == data.subrange(0, n * width),
    decreases n,
{
    let r1 = rewrite_between(width, source, target);
    let r2 = rewrite_between(width, target, source);
    if n == 0 {
        assert(data.subrange(0, 0) =~= Seq::<u8>::empty());
    } else {
        let m = (n - 1) as nat;
        assert(m * width + width == n * width) by (nonlinear_arith)
            requires
                m == n - 1,
        ;
        assert(0 <= m * width) by (nonlinear_arith)
            requires
                width >= 1,
        ;
        lemma_transform_round_trip(width, source, target, data, m);
        let big = r1.map(data, n);
        let small = r1.map(data, m);
        let chunk = data.subrange(m * width, n * width);
        crate::pcm::lemma_map_len(r1, data, n);
        crate::pcm::lemma_map_len(r1, data, m);
        assert(big == small + r1.apply(chunk));
        assert(big.subrange(0, m * width) =~= small);
        assert(small.subrange(0, m * width) =~= small);
        crate::pcm::lemma_map_prefix(r2, big, small, m);
        assert(big.subrange(m * width, n * width) =~= r1.apply(chunk));
        lemma_sample_round_trip(width, source, target, chunk);
        assert(r2.map(big, n) == r2.map(big, m) + r2.apply(big.subrange(m * width, n * width)));
        assert(r1.width == width && r2.width == width);
        assert(r2.map(big, m) == r2.map(small, m));
        assert(r2.map(small, m) == data.subrange(0, m * width));
        assert(r2.apply(r1.apply(chunk)) == chunk);
        assert(data.subrange(0, n * width) =~= data.subrange(0, m * width) + chunk);
    }
}

pub open spec fn pcm_guid() -> Seq<u8> {
    seq![0x01u8, 0x00, 0x00, 0x00, 0x00, 0x00, 0x10, 0x00, 0x80, 0x00, 0x00, 0xaa, 0x00, 0x38, 0x9b, 0x71]
}

pub open spec fn w64_riff() -> Seq<u8> {
    seq![0x72u8, 0x69, 0x66, 0x66, 0x2e, 0x91, 0xcf, 0x11, 0xa5, 0xd6, 0x28, 0xdb, 0x04, 0xc1, 0x00, 0x00]
}

pub open spec fn w64_wave() -> Seq<u8> {
    seq![0x77u8, 0x61, 0x76, 0x65, 0xf3, 0xac, 0xd3, 0x11, 0x8c, 0xd1, 0x00, 0xc0, 0x4f, 0x8e, 0xdb, 0x8a]
}

pub open spec fn w64_fmt() -> Seq<u8> {
    seq![0x66u8, 0x6d, 0x74, 0x20, 0xf3, 0xac, 0xd3, 0x11, 0x8c, 0xd1, 0x00, 0xc0, 0x4f, 0x8e, 0xdb, 0x8a]
}

pub open spec fn w64_data() -> Seq<u8> {
    seq![0x64u8, 0x61, 0x74, 0x61, 0xf3, 0xac, 0xd3, 0x11, 0x8c, 0xd1, 0x00, 0xc0, 0x4f, 0x8e, 0xdb, 0x8a]
}

pub const W64_RIFF: [u8; 16] = [0x72, 0x69, 0x66, 0x66, 0x2e, 0x91, 0xcf, 0x11, 0xa5, 0xd6, 0x28, 0xdb, 0x04, 0xc1, 0x00, 0x00];
pub const W64_WAVE: [u8; 16] = [0x77, 0x61, 0x76, 0x65, 0xf3, 0xac, 0xd3, 0x11, 0x8c, 0xd1, 0x00, 0xc0, 0x4f, 0x8e, 0xdb, 0x8a];
pub const W64_FMT: [u8; 16] = [0x66, 0x6d, 0x74, 0x20, 0xf3, 0xac, 0xd3, 0x11, 0x8c, 0xd1, 0x00, 0xc0, 0x4f, 0x8e, 0xdb, 0x8a];
pub const W64_DATA: [u8; 16] = [0x64, 0x61, 0x74, 0x61, 0xf3, 0xac, 0xd3, 0x11, 0x8c, 0xd1, 0x00, 0xc0, 0x4f, 0x8e, 0xdb, 0x8a];
pub const PCM_GUID: [u8; 16] = [0x01, 0x00, 0x00, 0x00, 0x00, 0x00, 0x10, 0x00, 0x80, 0x00, 0x00, 0xaa, 0x00, 0x38, 0x9b, 0x71];

/// The WAVE `fmt ` payload: plain PCM, or WAVE_FORMAT_EXTENSIBLE when the
/// valid bits are narrower than the container (the byte rate wraps at 32 bits).
pub open spec fn wave_fmt_bytes(f: Format) -> Seq<u8> {
    let ext = f.valid_bits != f.container_bits;
    le16_bytes(if ext { 0xfffe } else { 1 }) + le16_bytes(f.channels as int) + le32_bytes(f.rate as int)
        + le32_bytes((f.rate * f.block_align) % 0x1_0000_0000) + le16_bytes(f.block_align as int)
        + le16_bytes(f.container_bits as int) + if ext {
        le16_bytes(22) + le16_bytes(f.valid_bits as int) + le32_bytes(0) + pcm_guid()
    } else {
        Seq::empty()
    }
}

pub fn wave_fmt(f: Format) -> (b: Vec<u8>)
    ensures
        b@ == wave_fmt_bytes(f),
        b@.len() == (if f.valid_bits != f.container_bits { 40int } else { 16int }),
{
    let ext = f.valid_bits != f.container_bits;
    let mut b: Vec<u8> = Vec::new();
    push_le16(&mut b, if ext { 0xfffe } else { 1 });
    push_le16(&mut b, f.channels);
    push_le32(&mut b, f.rate);
    assert(f.rate as int * f.block_align as int <= 0xFFFF_FFFF * 0xFFFF) by (nonlinear_arith)
        requires
            f.rate <= 0xFFFF_FFFF,
            f.block_align <= 0xFFFF,
    ;
    let byte_rate = ((f.rate as u64 * f.block_align as u64) % 0x1_0000_0000) as u32;
    push_le32(&mut b, byte_rate);
    push_le16(&mut b, f.block_align);
    push_le16(&mut b, f.container_bits);
    if ext {
        push_le16(&mut b, 22);
        push_le16(&mut b, f.valid_bits);
        push_le32(&mut b, 0);
        b.extend_from_slice(&PCM_GUID);
    }
    assert(PCM_GUID@ =~= pcm_guid());
    assert(b@ =~= wave_fmt_bytes(f));
    b
}

pub open spec fn round8(v: int) -> int {
    (v + 7) / 8 * 8
}

/// The Wave64 header for `audio` bytes of `f`.
pub open spec fn wave64_prefix(f: Format, audio: int) -> Seq<u8> {
    let fmt = wave_fmt_bytes(f);
    let fmt_total = 24 + fmt.len() as int;
    let data_size = 24 + audio;
    let total = 40 + round8(fmt_total) + round8(data_size);
    w64_riff() + le64_bytes(total) + w64_wave() + w64_fmt() + le64_bytes(fmt_total) + fmt
        + Seq::new((round8(fmt_total) - fmt_total) as nat, |_i: int| 0u8) + w64_data() + le64_bytes(data_size)
}

/// The Wave64 plan: header, then `round8(24 + audio) - (24 + audio)` pad bytes.
pub fn wave64_plan(f: Format, audio: u64) -> (r: Result<Plan, Error>)
    ensures
        r is Ok <==> 40 + round8(24 + (if f.valid_bits != f.container_bits { 40int } else { 16int })) + round8(24 + audio) <= u64::MAX,
        r matches Ok(p) ==> p.prefix@ == wave64_prefix(f, audio as int) && p.padding == round8(24 + audio) - (24 + audio),
{
    let fmt = wave_fmt(f);
    let fmt_total = 24 + fmt.len() as u64;
    if audio > u64::MAX - 24 {
        return Err(Error::Overflow);
    }
    let data_size = 24 + audio;
    let data_total = match align(data_size, 8) {
        Ok(v) => v,
        Err(e) => return Err(e),
    };
    let fmt_aligned = match align(fmt_total, 8) {
        Ok(v) => v,
        Err(e) => return Err(e),
    };
    if data_total > u64::MAX - 40 - fmt_aligned {
        return Err(Error::Overflow);
    }
    let total = 40 + fmt_aligned + data_total;
    let mut b: Vec<u8> = Vec::new();
    b.extend_from_slice(&W64_RIFF);
    push_le64(&mut b, total);
    b.extend_from_slice(&W64_WAVE);
    b.extend_from_slice(&W64_FMT);
    push_le64(&mut b, fmt_total);
    crate::bytes::push_range(&mut b, fmt.as_slice(), 0, fmt.len());
    let ghost before_pad = b@;
    let pad = (fmt_aligned - fmt_total) as usize;
    crate::bytes::push_zeros(&mut b, pad);
    b.extend_from_slice(&W64_DATA);
    push_le64(&mut b, data_size);
    assert(W64_RIFF@ =~= w64_riff());
    assert(W64_WAVE@ =~= w64_wave());
    assert(W64_FMT@ =~= w64_fmt());
    assert(W64_DATA@ =~= w64_data());
    assert(fmt@.subrange(0, fmt@.len() as int) =~= fmt@);
    assert(b@ =~= wave64_prefix(f, audio as int));
    Ok(Plan { prefix: b, padding: (data_total - data_size) as usize })
}

/// The RIFF-family header (WAVE, RF64/BW64 with `ds64`, or BWF with a
/// minimal `bext`) for `audio` bytes of `f`.
pub open spec fn riff_prefix(profile: Profile, f: Format, audio: int) -> Seq<u8> {
    let fmt = wave_fmt_bytes(f);
    let pad = audio % 2;
    let bext = profile == Profile::Bwf;
    let extended = profile == Profile::Rf64 || profile == Profile::Bw64;
    let extra: int = if bext { 610int } else if extended { 36int } else { 0int };
    let total = 12 + 8 + fmt.len() + extra + 8 + audio + pad;
    (if extended {
        (if profile == Profile::Rf64 { seq![0x52u8, 0x46, 0x36, 0x34] } else { seq![0x42u8, 0x57, 0x36, 0x34] })
            + le32_bytes(0xFFFF_FFFF) + seq![0x57u8, 0x41, 0x56, 0x45, 0x64, 0x73, 0x36, 0x34]
            + le32_bytes(28) + le64_bytes(total - 8) + le64_bytes(audio) + le64_bytes(audio / f.block_align as int)
            + le32_bytes(0)
    } else {
        seq![0x52u8, 0x49, 0x46, 0x46] + le32_bytes(total - 8) + seq![0x57u8, 0x41, 0x56, 0x45]
    }) + seq![0x66u8, 0x6d, 0x74, 0x20] + le32_bytes(fmt.len() as int) + fmt + (if bext {
        seq![0x62u8, 0x65, 0x78, 0x74] + le32_bytes(602) + Seq::new(602, |i: int| if i == 346 { 1u8 } else { 0u8 })
    } else {
        Seq::empty()
    }) + seq![0x64u8, 0x61, 0x74, 0x61] + le32_bytes(if extended { 0xFFFF_FFFF } else { audio })
}

/// Whether the RIFF-family header for `audio` bytes of `f` can be written:
/// the file size fits 64 bits, and for plain RIFF the sizes fit 32 bits.
pub open spec fn riff_fits(profile: Profile, f: Format, audio: int) -> bool {
    let fmt_len: int = if f.valid_bits != f.container_bits { 40 } else { 16 };
    let extended = profile == Profile::Rf64 || profile == Profile::Bw64;
    let extra: int = if profile == Profile::Bwf { 610 } else if extended { 36 } else { 0 };
    let total = 28 + fmt_len + extra + audio + audio % 2;
    &&& total <= u64::MAX
    &&& !extended ==> total - 8 <= 0xFFFF_FFFF && audio <= 0xFFFF_FFFF
}

#[verifier::rlimit(80)]
pub fn riff_plan(profile: Profile, f: Format, audio: u64) -> (r: Result<Plan, Error>)
    requires
        f.block_align >= 1,
    ensures
        r matches Ok(p) ==> p.prefix@ == riff_prefix(profile, f, audio as int) && p.padding == audio % 2,
        r is Ok <==> riff_fits(profile, f, audio as int),
{
    let fmt = wave_fmt(f);
    let pad = audio % 2;
    let bext = profile == Profile::Bwf;
    let extended = profile == Profile::Rf64 || profile == Profile::Bw64;
    let extra: u64 = if bext { 8 + 602 } else if extended { 8 + 28 } else { 0 };
    let fixed = 12 + 8 + fmt.len() as u64 + extra + 8;
    if audio > u64::MAX - fixed - pad {
        return Err(Error::Overflow);
    }
    let total = fixed + audio + pad;
    let mut b: Vec<u8> = Vec::new();
    if extended {
        if profile == Profile::Rf64 {
            b.extend_from_slice(&[0x52u8, 0x46, 0x36, 0x34]);
        } else {
            b.extend_from_slice(&[0x42u8, 0x57, 0x36, 0x34]);
        }
        push_le32(&mut b, 0xFFFF_FFFF);
        b.extend_from_slice(&[0x57u8, 0x41, 0x56, 0x45, 0x64, 0x73, 0x36, 0x34]);
        push_le32(&mut b, 28);
        push_le64(&mut b, total - 8);
        push_le64(&mut b, audio);
        push_le64(&mut b, audio / f.block_align as u64);
        push_le32(&mut b, 0);
    } else {
        if total - 8 > 0xFFFF_FFFF {
            return Err(Error::SizeLimit);
        }
        b.extend_from_slice(&[0x52u8, 0x49, 0x46, 0x46]);
        push_le32(&mut b, (total - 8) as u32);
        b.extend_from_slice(&[0x57u8, 0x41, 0x56, 0x45]);
    }
    b.extend_from_slice(&[0x66u8, 0x6d, 0x74, 0x20]);
    push_le32(&mut b, fmt.len() as u32);
    crate::bytes::push_range(&mut b, fmt.as_slice(), 0, fmt.len());
    if bext {
        b.extend_from_slice(&[0x62u8, 0x65, 0x78, 0x74]);
        push_le32(&mut b, 602);
        let ghost before = b@;
        let mut k: usize = 0;
        while k < 602
            invariant
                k <= 602,
                b@ == before + Seq::new(k as nat, |i: int| if i == 346 { 1u8 } else { 0u8 }),
            decreases 602 - k,
        {
            b.push(if k == 346 { 1u8 } else { 0u8 });
            k = k + 1;
            assert(b@ =~= before + Seq::new(k as nat, |i: int| if i == 346 { 1u8 } else { 0u8 }));
        }
    }
    b.extend_from_slice(&[0x64u8, 0x61, 0x74, 0x61]);
    if extended {
        push_le32(&mut b, 0xFFFF_FFFF);
    } else {
        if audio > 0xFFFF_FFFF {
            return Err(Error::SizeLimit);
        }
        push_le32(&mut b, audio as u32);
    }
    assert(fmt@.subrange(0, fmt@.len() as int) =~= fmt@);
    assert(b@ =~= riff_prefix(profile, f, audio as int));
    Ok(Plan { prefix: b, padding: pad as usize })
}

/// The classic AIFF header for `audio` bytes of `f`.
pub open spec fn aiff_prefix(f: Format, audio: int) -> Seq<u8> {
    let ssnd = audio + 8;
    let total = 12 + 8 + 18 + 8 + ssnd + audio % 2;
    seq![0x46u8, 0x4f, 0x52, 0x4d] + crate::bytes::be32_bytes(total - 8) + seq![0x41u8, 0x49, 0x46, 0x46, 0x43, 0x4f, 0x4d, 0x4d]
        + crate::bytes::be32_bytes(18) + crate::bytes::be16_bytes(f.channels as int) + crate::bytes::be32_bytes(audio / f.block_align as int)
        + crate::bytes::be16_bytes(f.valid_bits as int) + crate::extended::ext_encode(f.rate as nat) + seq![0x53u8, 0x53, 0x4e, 0x44]
        + crate::bytes::be32_bytes(ssnd) + crate::bytes::be32_bytes(0) + crate::bytes::be32_bytes(0)
}

/// Whether the AIFF header for `audio` bytes of `f` can be written: equal
/// valid and container widths, and frame count and sizes within 32 bits.
pub open spec fn aiff_fits(f: Format, audio: int) -> bool {
    &&& f.valid_bits == f.container_bits
    &&& audio / (f.block_align as int) <= 0xFFFF_FFFF
    &&& 46 + audio + audio % 2 <= 0xFFFF_FFFF
}

pub fn aiff_plan(f: Format, audio: u64) -> (r: Result<Plan, Error>)
    requires
        f.block_align >= 1,
        f.rate >= 1,
    ensures
        r matches Ok(p) ==> p.prefix@ == aiff_prefix(f, audio as int) && p.padding == audio % 2,
        r is Ok <==> aiff_fits(f, audio as int),
{
    if f.valid_bits != f.container_bits {
        return Err(Error::Unsupported("AIFF target requires equal valid and container widths in version 0.1"));
    }
    let frames = audio / f.block_align as u64;
    if frames > 0xFFFF_FFFF {
        return Err(Error::SizeLimit);
    }
    if audio > u64::MAX - 8 {
        return Err(Error::Overflow);
    }
    let ssnd = audio + 8;
    let pad = audio % 2;
    if ssnd > u64::MAX - 46 - pad {
        return Err(Error::Overflow);
    }
    let total = 12 + 26 + 8 + ssnd + pad;
    if total - 8 > 0xFFFF_FFFF {
        return Err(Error::SizeLimit);
    }
    if ssnd > 0xFFFF_FFFF {
        return Err(Error::SizeLimit);
    }
    let mut b: Vec<u8> = Vec::new();
    b.extend_from_slice(&[0x46u8, 0x4f, 0x52, 0x4d]);
    push_be32(&mut b, (total - 8) as u32);
    b.extend_from_slice(&[0x41u8, 0x49, 0x46, 0x46, 0x43, 0x4f, 0x4d, 0x4d]);
    push_be32(&mut b, 18);
    push_be16(&mut b, f.channels);
    push_be32(&mut b, frames as u32);
    push_be16(&mut b, f.valid_bits);
    crate::extended::push_rate(&mut b, f.rate);
    b.extend_from_slice(&[0x53u8, 0x53, 0x4e, 0x44]);
    push_be32(&mut b, ssnd as u32);
    push_be32(&mut b, 0);
    push_be32(&mut b, 0);
    assert(b@ =~= aiff_prefix(f, audio as int));
    Ok(Plan { prefix: b, padding: pad as usize })
}

/// The Sun AU header for `audio` bytes of `f`.
pub open spec fn au_prefix(f: Format, audio: int) -> Seq<u8> {
    seq![0x2eu8, 0x73, 0x6e, 0x64] + crate::bytes::be32_bytes(24) + crate::bytes::be32_bytes(audio)
        + crate::bytes::be32_bytes(f.container_bits / 8 + 1) + crate::bytes::be32_bytes(f.rate as int)
        + crate::bytes::be32_bytes(f.channels as int)
}

pub fn au_plan(f: Format, audio: u64) -> (r: Result<Plan, Error>)
    ensures
        r matches Ok(p) ==> p.prefix@ == au_prefix(f, audio as int) && p.padding == 0,
        r is Ok <==> audio <= u32::MAX && (f.container_bits == 8 || f.container_bits == 16 || f.container_bits == 24 || f.container_bits == 32) && f.valid_bits == f.container_bits,
{
    if audio > 0xFFFF_FFFF {
        return Err(Error::SizeLimit);
    }
    let encoding: u32 = if f.container_bits == 8 {
        2
    } else if f.container_bits == 16 {
        3
    } else if f.container_bits == 24 {
        4
    } else if f.container_bits == 32 {
        5
    } else {
        return Err(Error::Unsupported("AU target width is unsupported"));
    };
    if f.valid_bits != f.container_bits {
        return Err(Error::Unsupported("AU cannot retain narrower valid-bit declarations"));
    }
    let mut b: Vec<u8> = Vec::new();
    b.extend_from_slice(&[0x2eu8, 0x73, 0x6e, 0x64]);
    push_be32(&mut b, 24);
    push_be32(&mut b, audio as u32);
    push_be32(&mut b, encoding);
    push_be32(&mut b, f.rate);
    push_be32(&mut b, f.channels as u32);
    assert(b@ =~= au_prefix(f, audio as int));
    Ok(Plan { prefix: b, padding: 0 })
}

/// The CAF header for `audio` bytes of `f` (rate as a binary64 pattern).
pub open spec fn caf_prefix(f: Format, audio: int) -> Seq<u8> {
    let flags: int = 4 + 8 + if f.valid_bits != f.container_bits { 16int } else { 0int };
    seq![0x63u8, 0x61, 0x66, 0x66, 0x00, 0x01, 0x00, 0x00, 0x64, 0x65, 0x73, 0x63] + crate::bytes::be64_bytes(32)
        + crate::bytes::be64_bytes(crate::ieee::f64_bits(f.rate as nat)) + seq![0x6cu8, 0x70, 0x63, 0x6d]
        + crate::bytes::be32_bytes(flags) + crate::bytes::be32_bytes(f.block_align as int) + crate::bytes::be32_bytes(1)
        + crate::bytes::be32_bytes(f.channels as int) + crate::bytes::be32_bytes(f.valid_bits as int)
        + seq![0x64u8, 0x61, 0x74, 0x61] + crate::bytes::be64_bytes(audio + 4) + crate::bytes::be32_bytes(0)
}

pub fn caf_plan(f: Format, audio: u64) -> (r: Result<Plan, Error>)
    ensures
        r matches Ok(p) ==> p.prefix@ == caf_prefix(f, audio as int) && p.padding == 0,
        r is Ok <==> audio + 4 <= i64::MAX,
{
    if audio > 0x7FFF_FFFF_FFFF_FFFB {
        return Err(if audio > u64::MAX - 4 { Error::Overflow } else { Error::SizeLimit });
    }
    let mut b: Vec<u8> = Vec::new();
    b.extend_from_slice(&[0x63u8, 0x61, 0x66, 0x66, 0x00, 0x01, 0x00, 0x00, 0x64, 0x65, 0x73, 0x63]);
    push_be64(&mut b, 32);
    push_be64(&mut b, crate::ieee::encode_f64_rate(f.rate));
    b.extend_from_slice(&[0x6cu8, 0x70, 0x63, 0x6d]);
    let flags: u32 = 4 + 8 + if f.valid_bits != f.container_bits { 16 } else { 0 };
    push_be32(&mut b, flags);
    push_be32(&mut b, f.block_align as u32);
    push_be32(&mut b, 1);
    push_be32(&mut b, f.channels as u32);
    push_be32(&mut b, f.valid_bits as u32);
    b.extend_from_slice(&[0x64u8, 0x61, 0x74, 0x61]);
    push_be64(&mut b, audio + 4);
    push_be32(&mut b, 0);
    assert(b@ =~= caf_prefix(f, audio as int));
    Ok(Plan { prefix: b, padding: 0 })
}

/// The target container's header and padding for `audio` bytes of `f`.
#[verifier::opaque]
pub open spec fn plan_of(f: Format, audio: int) -> (Seq<u8>, int) {
    match TARGET {
        Profile::Wav | Profile::Rf64 | Profile::Bw64 | Profile::Bwf => (riff_prefix(TARGET, f, audio), audio % 2),
        Profile::Aiff => (aiff_prefix(f, audio), audio % 2),
        Profile::Caf => (caf_prefix(f, audio), 0),
        Profile::Au => (au_prefix(f, audio), 0),
        Profile::Wave64 => (wave64_prefix(f, audio), round8(24 + audio) - (24 + audio)),
    }
}

/// Whether the target container can hold `audio` bytes of `f`.
pub open spec fn plan_fits(f: Format, audio: int) -> bool {
    match TARGET {
        Profile::Wav | Profile::Rf64 | Profile::Bw64 | Profile::Bwf => riff_fits(TARGET, f, audio),
        Profile::Aiff => aiff_fits(f, audio),
        Profile::Caf => audio + 4 <= i64::MAX,
        Profile::Au => audio <= u32::MAX && (f.container_bits == 8 || f.container_bits == 16
            || f.container_bits == 24 || f.container_bits == 32) && f.valid_bits == f.container_bits,
        Profile::Wave64 => 40 + round8(24 + (if f.valid_bits != f.container_bits { 40int } else { 16int }))
            + round8(24 + audio) <= u64::MAX,
    }
}

pub fn plan(f: Format, audio: u64) -> (r: Result<Plan, Error>)
    requires
        f.block_align >= 1,
        f.rate >= 1,
    ensures
        r matches Ok(p) ==> p.prefix@ == plan_of(f, audio as int).0 && p.padding == plan_of(f, audio as int).1,
        r is Ok <==> plan_fits(f, audio as int),
{
    reveal(plan_of);
    match TARGET {
        Profile::Wav | Profile::Rf64 | Profile::Bw64 | Profile::Bwf => riff_plan(TARGET, f, audio),
        Profile::Aiff => aiff_plan(f, audio),
        Profile::Caf => caf_plan(f, audio),
        Profile::Au => au_plan(f, audio),
        Profile::Wave64 => wave64_plan(f, audio),
    }
}

/// The sum of the segment sizes.
pub open spec fn total(segs: Seq<Segment>) -> int
    decreases segs.len(),
{
    if segs.len() == 0 {
        0
    } else {
        total(segs.drop_last()) + segs.last().size
    }
}

/// What every successful parse of an input of `len` bytes establishes.
pub open spec fn parsed_ok(p: Parsed, len: int) -> bool {
    &&& p.format.wf()
    &&& p.format.rate >= 1
    &&& p.segments@.len() >= 1
    &&& forall|i: int| 0 <= i < p.segments@.len() ==> (#[trigger] p.segments@[i]).offset + p.segments@[i].size <= len
    &&& forall|i: int| 0 <= i < p.segments@.len() ==> (#[trigger] p.segments@[i]).size as int % (p.format.block_align as int) == 0
    &&& p.audio_bytes == total(p.segments@)
    &&& p.input_bytes == len
}

proof fn lemma_total_prefix(segs: Seq<Segment>, i: int)
    requires
        0 <= i <= segs.len(),
    ensures
        total(segs.subrange(0, i)) <= total(segs),
    decreases segs.len() - i,
{
    if i < segs.len() {
        lemma_total_prefix(segs, i + 1);
        assert(segs.subrange(0, i + 1).drop_last() =~= segs.subrange(0, i));
    } else {
        assert(segs.subrange(0, i) =~= segs);
    }
}

/// Checks the segments against the format and sums their sizes.
fn finish(input_bytes: u64, format: Format, store: Storage, segments: Vec<Segment>, warnings: Vec<String>, Ghost(len): Ghost<int>) -> (r: Result<Parsed, Error>)
    requires
        format.wf(),
        format.rate >= 1,
        input_bytes == len,
        forall|i: int| 0 <= i < segments@.len() ==> (#[trigger] segments@[i]).offset + segments@[i].size <= len,
    ensures
        r matches Ok(p) ==> parsed_ok(p, len) && p.format == format && p.storage == store,
        r is Ok <==> segments@.len() >= 1 && (forall|i: int|
            0 <= i < segments@.len() ==> (#[trigger] segments@[i]).size as int % (format.block_align as int)
                == 0) && total(segments@) <= u64::MAX,
        r matches Ok(p) ==> p.segments@ == segments@ && p.input_bytes == input_bytes && p.warnings@
            == warnings@,
{
    if segments.len() == 0 {
        return Err(Error::Invalid("missing PCM data"));
    }
    assert(format.channels as int * (format.container_bits / 8) as int >= 1) by (nonlinear_arith)
        requires
            format.channels >= 1,
            format.container_bits / 8 >= 1,
    ;
    let mut audio: u64 = 0;
    let mut i: usize = 0;
    while i < segments.len()
        invariant
            i <= segments@.len(),
            format.block_align >= 1,
            audio == total(segments@.subrange(0, i as int)),
            forall|k: int| 0 <= k < i ==> (#[trigger] segments@[k]).size as int % (format.block_align as int) == 0,
        decreases segments@.len() - i,
    {
        let seg = segments[i];
        if seg.size as u64 % format.block_align as u64 != 0 {
            return Err(Error::Invalid("PCM data is not frame aligned"));
        }
        if audio > u64::MAX - seg.size as u64 {
            proof {
                assert(segments@.subrange(0, i + 1).drop_last() =~= segments@.subrange(0, i as int));
                lemma_total_prefix(segments@, i + 1);
            }
            return Err(Error::Overflow);
        }
        audio = audio + seg.size as u64;
        assert(segments@.subrange(0, i + 1).drop_last() =~= segments@.subrange(0, i as int));
        i = i + 1;
    }
    assert(segments@.subrange(0, i as int) =~= segments@);
    Ok(Parsed { input_bytes, format, storage: store, segments, audio_bytes: audio, warnings })
}

/// The valid bits a WAVE `fmt ` payload declares: the container width for
/// plain PCM, the extensible field for an integer-PCM extensible payload.
pub open spec fn wave_valid_bits(b: Seq<u8>) -> Option<int> {
    let tag = crate::bytes::le16(b, 0);
    let bits = crate::bytes::le16(b, 14);
    if tag == 1 {
        Some(bits)
    } else if tag == 0xfffe {
        if b.len() < 40 || crate::bytes::le16(b, 16) < 22 || b.subrange(24, 40)
            != crate::wav_pcm_to_raw_pcm::PCM_GUID@ || crate::bytes::le16(b, 18) == 0 || crate::bytes::le16(
            b,
            18,
        ) > bits {
            None
        } else {
            Some(crate::bytes::le16(b, 18))
        }
    } else {
        None
    }
}

/// The integer PCM format a WAVE `fmt ` payload describes, when it is one
/// that is accepted.
pub open spec fn wave_format(b: Seq<u8>, max_channels: int, strict: bool) -> Option<Format> {
    if b.len() < 16 {
        None
    } else {
        let channels = crate::bytes::le16(b, 2);
        let rate = crate::bytes::le32(b, 4);
        let byte_rate = crate::bytes::le32(b, 8);
        let block = crate::bytes::le16(b, 12);
        let bits = crate::bytes::le16(b, 14);
        let expected = channels * (bits / 8);
        if channels == 0 || channels > max_channels || rate == 0 || !(bits == 8 || bits == 16 || bits == 24
            || bits == 32) || wave_valid_bits(b) is None || block != expected || (strict && (rate * expected
            > u32::MAX || byte_rate != rate * expected)) {
            None
        } else {
            Some(
                Format {
                    channels: channels as u16,
                    rate: rate as u32,
                    container_bits: bits as u16,
                    valid_bits: wave_valid_bits(b)->Some_0 as u16,
                    block_align: block as u16,
                },
            )
        }
    }
}

/// Decodes a WAVE `fmt ` payload describing integer PCM.
pub fn parse_wave_format(bytes: &[u8], options: &Options) -> (r: Result<Format, Error>)
    ensures
        r matches Ok(f) ==> f.wf() && f.rate >= 1,
        r is Ok <==> wave_format(bytes@, options.max_channels as int, options.strict_header_consistency)
            is Some,
        r matches Ok(f) ==> wave_format(bytes@, options.max_channels as int, options.strict_header_consistency)
            == Some(f),
{
    if bytes.len() < 16 {
        return Err(Error::Invalid("fmt chunk is shorter than 16 bytes"));
    }
    let tag = read_le16(bytes, 0);
    let channels = read_le16(bytes, 2);
    let rate = read_le32(bytes, 4);
    let byte_rate = read_le32(bytes, 8);
    let block = read_le16(bytes, 12);
    let bits = read_le16(bytes, 14);
    if channels == 0 || channels > options.max_channels {
        return Err(Error::Unsupported("channel count is unsupported"));
    }
    if rate == 0 || !(bits == 8 || bits == 16 || bits == 24 || bits == 32) {
        return Err(Error::Unsupported("sample rate or PCM width is unsupported"));
    }
    let valid = if tag == 1 {
        bits
    } else if tag == 0xfffe {
        if bytes.len() < 40 || read_le16(bytes, 16) < 22 || !crate::wav_pcm_to_raw_pcm::guid_matches(bytes) {
            return Err(Error::Unsupported("WAVE extensible subtype is not integer PCM"));
        }
        let value = read_le16(bytes, 18);
        if value == 0 || value > bits {
            return Err(Error::Invalid("valid bits are invalid"));
        }
        value
    } else {
        return Err(Error::Unsupported("WAVE format is not integer PCM"));
    };
    assert(channels as int * (bits / 8) as int <= 65535 * 4) by (nonlinear_arith)
        requires
            bits / 8 <= 4,
    ;
    let expected = channels as u32 * (bits / 8) as u32;
    if block as u32 != expected {
        return Err(Error::Invalid("PCM block alignment is inconsistent"));
    }
    if options.strict_header_consistency {
        let product = match rate.checked_mul(expected) {
            Some(v) => v,
            None => {
                return Err(Error::Overflow);
            },
        };
        if byte_rate != product {
            return Err(Error::Invalid("PCM byte rate is inconsistent"));
        }
    }
    Ok(Format { channels, rate, container_bits: bits, valid_bits: valid, block_align: block })
}

/// Parses a CAF version 1 file of integer linear PCM.
/// The format and byte order a CAF `desc` payload at `payload` of `size`
/// bytes describes, when it is accepted integer PCM.
pub open spec fn caf_desc(b: Seq<u8>, payload: int, size: int, max_channels: int) -> Option<(Format, Endian)> {
    if size < 32 {
        None
    } else {
        let rate = crate::ieee::f64_rate(crate::bytes::be64(b, payload));
        let flags = crate::bytes::be32(b, payload + 12);
        let bytes_packet = crate::bytes::be32(b, payload + 16);
        let frames_packet = crate::bytes::be32(b, payload + 20);
        let channels = crate::bytes::be32(b, payload + 24);
        let valid = crate::bytes::be32(b, payload + 28);
        if rate is None || b.subrange(payload + 8, payload + 12) != seq![0x6cu8, 0x70, 0x63, 0x6d] || flags % 2
            != 0 || (flags / 4) % 2 == 0 || (flags / 8) % 2 == 0 || (flags / 32) % 2 != 0 || frames_packet != 1
            || channels > 0xFFFF || channels == 0 || channels > max_channels || bytes_packet % channels != 0
            || !(1 <= bytes_packet / channels <= 4) || valid == 0 || valid > bytes_packet / channels * 8
            || bytes_packet > 0xFFFF {
            None
        } else {
            Some(
                (
                    Format {
                        channels: channels as u16,
                        rate: rate->Some_0 as u32,
                        container_bits: (bytes_packet / channels * 8) as u16,
                        valid_bits: valid as u16,
                        block_align: bytes_packet as u16,
                    },
                    if (flags / 2) % 2 != 0 {
                        Endian::Big
                    } else {
                        Endian::Little
                    },
                ),
            )
        }
    }
}

/// The CAF chunks from `pos` on: the last `desc` and `data` chunks seen and
/// where the walk stopped, or `None` when a chunk is refused.
pub open spec fn caf_walk(
    b: Seq<u8>,
    pos: int,
    desc: Option<(Format, Endian)>,
    data: Option<Segment>,
    max_channels: int,
) -> Option<(Option<(Format, Endian)>, Option<Segment>, int)>
    decreases b.len() + 1 - pos,
{
    if !(0 <= pos <= b.len() && b.len() - pos >= 12) {
        Some((desc, data, pos))
    } else {
        let raw = crate::bytes::be64(b, pos + 4);
        let payload = pos + 12;
        if raw < 0x8000_0000_0000_0000 && raw > b.len() - payload {
            None
        } else {
            let size = if raw >= 0x8000_0000_0000_0000 {
                b.len() - payload
            } else {
                raw
            };
            let next = payload + size;
            let id = b.subrange(pos, pos + 4);
            if id == seq![0x64u8, 0x65, 0x73, 0x63] {
                match caf_desc(b, payload, size, max_channels) {
                    None => None,
                    Some(d) => caf_walk(b, next, Some(d), data, max_channels),
                }
            } else if id == seq![0x64u8, 0x61, 0x74, 0x61] {
                if size < 4 {
                    None
                } else {
                    caf_walk(
                        b,
                        next,
                        desc,
                        Some(Segment { offset: (payload + 4) as usize, size: (size - 4) as usize }),
                        max_channels,
                    )
                }
            } else {
                caf_walk(b, next, desc, data, max_channels)
            }
        }
    }
}

/// The format, byte order and audio bytes of a CAF file, when its header
/// and chunks are accepted.
pub open spec fn caf_layout(b: Seq<u8>, max_channels: int, strict: bool) -> Option<(Format, Endian, Segment)> {
    if b.len() < 8 || b.subrange(0, 4) != seq![0x63u8, 0x61, 0x66, 0x66] || crate::bytes::be16(b, 4) != 1 {
        None
    } else {
        match caf_walk(b, 8, None, None, max_channels) {
            Some((Some((f, e)), Some(d), end)) => if strict && end != b.len() {
                None
            } else {
                Some((f, e, d))
            },
            _ => None,
        }
    }
}

/// Whether a CAF file is accepted: its layout is, and the audio bytes are
/// whole frames.
pub open spec fn caf_accepts(b: Seq<u8>, max_channels: int, strict: bool) -> bool {
    caf_layout(b, max_channels, strict) matches Some((f, e, d)) && d.size as int % (f.block_align as int) == 0
}

/// The format, storage and audio segment the parse of a CAF file gives.
pub open spec fn caf_parsed(p: Parsed, b: Seq<u8>, max_channels: int, strict: bool) -> bool {
    caf_layout(b, max_channels, strict) matches Some((f, e, d)) && p.format == f && p.storage == Storage {
        endian: e,
        eight_bit_signed: storage_of(Profile::Caf).eight_bit_signed,
    } && p.segments@ == seq![d]
}

/// The desc state the parser holds.
pub open spec fn desc_state(format: Option<Format>, store: Storage) -> Option<(Format, Endian)> {
    match format {
        Some(f) => Some((f, store.endian)),
        None => None,
    }
}

#[verifier::rlimit(100)]
pub fn parse_caf(input: &[u8], options: &Options) -> (r: Result<Parsed, Error>)
    ensures
        r matches Ok(p) ==> parsed_ok(p, input@.len() as int),
        r is Ok <==> caf_accepts(input@, options.max_channels as int, options.strict_header_consistency),
        r matches Ok(p) ==> caf_parsed(p, input@, options.max_channels as int, options.strict_header_consistency),
{
    let physical = input.len();
    if physical < 8 {
        return Err(Error::Invalid("input is not CAF version 1"));
    }
    let caff: [u8; 4] = [0x63u8, 0x61, 0x66, 0x66];
    assert(caff@ =~= seq![0x63u8, 0x61, 0x66, 0x66]);
    if !tag_at(input, 0, caff) || read_be16(input, 4) != 1 {
        return Err(Error::Invalid("input is not CAF version 1"));
    }
    let ghost maxch = options.max_channels as int;
    let ghost walk = caf_walk(input@, 8, None, None, maxch);
    let mut position: usize = 8;
    let mut format: Option<Format> = None;
    let mut data: Option<Segment> = None;
    let mut store = storage(Profile::Caf);
    while position <= physical && physical - position >= 12
        invariant
            position <= physical || position >= 8,
            physical == input@.len(),
            format matches Some(f) ==> f.wf() && f.rate >= 1,
            data matches Some(d) ==> d.offset + d.size <= physical,
            maxch == options.max_channels,
            walk == caf_walk(input@, 8, None, None, maxch),
            walk == caf_walk(input@, position as int, desc_state(format, store), data, maxch),
            store.eight_bit_signed == storage_of(Profile::Caf).eight_bit_signed,
            format is None ==> store == storage_of(Profile::Caf),
        decreases physical + 1 - position,
    {
        let ghost pos0 = position as int;
        let ghost desc0 = desc_state(format, store);
        let ghost data0 = data;
        let raw = read_be64(input, position + 4);
        let payload = position + 12;
        let size: usize = if raw >= 0x8000_0000_0000_0000 {
            physical - payload
        } else {
            if raw > (physical - payload) as u64 {
                return Err(Error::Invalid("CAF chunk extends past EOF"));
            }
            raw as usize
        };
        let next = payload + size;
        if tag_at(input, position, [0x64u8, 0x65, 0x73, 0x63]) {
            if size < 32 {
                return Err(Error::Invalid("CAF desc chunk is incomplete"));
            }
            let rate = match crate::ieee::decode_f64_rate(read_be64(input, payload)) {
                Some(v) => v,
                None => return Err(Error::Unsupported("CAF sample rate is not an exact WAVE integer")),
            };
            if !tag_at(input, payload + 8, [0x6cu8, 0x70, 0x63, 0x6d]) {
                return Err(Error::Unsupported("CAF codec is not linear PCM"));
            }
            let flags = read_be32(input, payload + 12);
            if flags % 2 != 0 || (flags / 4) % 2 == 0 || (flags / 8) % 2 == 0 || (flags / 32) % 2 != 0 {
                return Err(Error::Unsupported("CAF PCM must be signed, packed, interleaved integer PCM"));
            }
            store.endian = if (flags / 2) % 2 != 0 { Endian::Big } else { Endian::Little };
            let bytes_packet = read_be32(input, payload + 16);
            let frames_packet = read_be32(input, payload + 20);
            let channels32 = read_be32(input, payload + 24);
            let valid = read_be32(input, payload + 28);
            if frames_packet != 1 {
                return Err(Error::Unsupported("CAF frames-per-packet must be one"));
            }
            if channels32 > 0xFFFF {
                return Err(Error::Unsupported("CAF channel count is too large"));
            }
            let channels = channels32 as u16;
            if channels == 0 || channels > options.max_channels || bytes_packet % channels32 != 0 {
                return Err(Error::Invalid("CAF channel or packet size is invalid"));
            }
            let sample_bytes = bytes_packet / channels32;
            if !(1 <= sample_bytes && sample_bytes <= 4) || valid == 0 || valid > sample_bytes * 8 {
                return Err(Error::Unsupported("CAF PCM width is unsupported"));
            }
            if bytes_packet > 0xFFFF {
                return Err(Error::Unsupported("CAF PCM width is unsupported"));
            }
            assert(bytes_packet == channels32 * sample_bytes) by {
                vstd::arithmetic::div_mod::lemma_fundamental_div_mod(bytes_packet as int, channels32 as int);
            }
            assert(channels32 as int * sample_bytes as int <= 65535 * 4) by (nonlinear_arith)
                requires
                    channels32 <= 65535,
                    sample_bytes <= 4,
            ;
            let fmt = Format {
                channels,
                rate,
                container_bits: (sample_bytes * 8) as u16,
                valid_bits: valid as u16,
                block_align: bytes_packet as u16,
            };
            assert(fmt.container_bits / 8 == sample_bytes);
            assert(fmt.block_align == fmt.channels * (fmt.container_bits / 8));
            format = Some(fmt);
        } else if tag_at(input, position, [0x64u8, 0x61, 0x74, 0x61]) {
            if size < 4 {
                return Err(Error::Invalid("CAF data chunk has no edit count"));
            }
            data = Some(Segment { offset: payload + 4, size: size - 4 });
        }
        position = next;
    }
    assert(walk == Some((desc_state(format, store), data, position as int)));
    if options.strict_header_consistency && position != physical {
        return Err(Error::Invalid("CAF chunks do not consume the input"));
    }
    let format = match format {
        Some(f) => f,
        None => return Err(Error::Invalid("missing CAF desc chunk")),
    };
    let data = match data {
        Some(d) => d,
        None => return Err(Error::Invalid("missing CAF data chunk")),
    };
    let mut segments: Vec<Segment> = Vec::new();
    segments.push(data);
    assert(segments@ == seq![data]);
    assert(total(segments@) == data.size) by {
        assert(segments@.drop_last() =~= Seq::<Segment>::empty());
        assert(total(Seq::<Segment>::empty()) == 0);
        assert(total(segments@.drop_last()) == 0);
    }
    finish(physical as u64, format, store, segments, Vec::new(), Ghost(physical as int))
}

/// Parses a RIFF-family WAVE file of the given profile.
/// `o` as an integer option.
pub open spec fn opt_int(o: Option<u64>) -> Option<int> {
    match o {
        Some(v) => Some(v as int),
        None => None,
    }
}

/// The container identifier of a RIFF-family profile.
pub open spec fn riff_magic(profile: Profile) -> Seq<u8> {
    if profile == Profile::Rf64 {
        seq![0x52u8, 0x46, 0x36, 0x34]
    } else if profile == Profile::Bw64 {
        seq![0x42u8, 0x57, 0x36, 0x34]
    } else {
        seq![0x52u8, 0x49, 0x46, 0x46]
    }
}

/// The RIFF chunks from `pos` up to `end`: the last format, every data
/// chunk, the `ds64` RIFF size and whether a `bext` chunk was seen, or
/// `None` when a chunk is refused. `ds_data` is the `ds64` data size.
pub open spec fn riff_walk(
    b: Seq<u8>,
    pos: int,
    end: int,
    fmt: Option<Format>,
    segs: Seq<Segment>,
    ds_data: Option<int>,
    ds_riff: Option<int>,
    bext: bool,
    max_channels: int,
    strict: bool,
) -> Option<(Option<Format>, Seq<Segment>, Option<int>, bool)>
    decreases end + 1 - pos,
{
    if !(0 <= pos <= end && end - pos >= 8) {
        Some((fmt, segs, ds_riff, bext))
    } else {
        let declared = crate::bytes::le32(b, pos + 4);
        let payload = pos + 8;
        let id = b.subrange(pos, pos + 4);
        let is_data = id == seq![0x64u8, 0x61, 0x74, 0x61];
        if is_data && declared == 0xFFFF_FFFF && ds_data is None {
            None
        } else {
            let size = if is_data && declared == 0xFFFF_FFFF {
                ds_data->0
            } else {
                declared
            };
            if size < 0 || size > end - payload || size % 2 > end - payload - size {
                None
            } else {
                let next = payload + size + size % 2;
                if id == seq![0x64u8, 0x73, 0x36, 0x34] {
                    if size < 28 {
                        None
                    } else {
                        riff_walk(
                            b,
                            next,
                            end,
                            fmt,
                            segs,
                            Some(crate::bytes::le64(b, payload + 8)),
                            Some(crate::bytes::le64(b, payload)),
                            bext,
                            max_channels,
                            strict,
                        )
                    }
                } else if id == seq![0x66u8, 0x6d, 0x74, 0x20] {
                    if size > 4096 {
                        None
                    } else {
                        match wave_format(b.subrange(payload, payload + size), max_channels, strict) {
                            None => None,
                            Some(f) => riff_walk(b, next, end, Some(f), segs, ds_data, ds_riff, bext, max_channels, strict),
                        }
                    }
                } else if is_data {
                    riff_walk(
                        b,
                        next,
                        end,
                        fmt,
                        segs.push(Segment { offset: payload as usize, size: size as usize }),
                        ds_data,
                        ds_riff,
                        bext,
                        max_channels,
                        strict,
                    )
                } else if id == seq![0x62u8, 0x65, 0x78, 0x74] {
                    riff_walk(b, next, end, fmt, segs, ds_data, ds_riff, true, max_channels, strict)
                } else {
                    riff_walk(b, next, end, fmt, segs, ds_data, ds_riff, bext, max_channels, strict)
                }
            }
        }
    }
}

/// The format and data segments of a RIFF-family file of `profile`, when
/// its header and chunks are accepted.
pub open spec fn riff_layout(b: Seq<u8>, profile: Profile, max_channels: int, strict: bool) -> Option<
    (Format, Seq<Segment>),
> {
    let extended = profile == Profile::Rf64 || profile == Profile::Bw64;
    let scan_end = if extended {
        b.len() as int
    } else {
        8 + crate::bytes::le32(b, 4)
    };
    if b.len() < 12 || b.subrange(0, 4) != riff_magic(profile) || b.subrange(8, 12) != seq![0x57u8, 0x41, 0x56, 0x45]
        || scan_end > b.len() || (strict && scan_end != b.len()) {
        None
    } else {
        match riff_walk(b, 12, scan_end, None, Seq::empty(), None, None, false, max_channels, strict) {
            Some((fmt, segs, ds_riff, bext)) => if extended && (ds_riff is None || ds_riff->0 > u64::MAX - 8 || 8
                + ds_riff->0 > b.len() || (strict && 8 + ds_riff->0 != b.len())) {
                None
            } else if profile == Profile::Bwf && !bext {
                None
            } else {
                match fmt {
                    Some(f) => Some((f, segs)),
                    None => None,
                }
            },
            None => None,
        }
    }
}

#[verifier::rlimit(100)]
pub fn parse_riff(input: &[u8], profile: Profile, options: &Options) -> (r: Result<Parsed, Error>)
    ensures
        r matches Ok(p) ==> parsed_ok(p, input@.len() as int),
        r is Ok <==> (riff_layout(input@, profile, options.max_channels as int, options.strict_header_consistency)
            matches Some((f, segs)) && segments_fit(f, segs)),
        r matches Ok(p) ==> riff_layout(input@, profile, options.max_channels as int, options.strict_header_consistency)
            == Some((p.format, p.segments@)),
{
    let physical = input.len();
    if physical < 12 {
        return Err(Error::Invalid("container is not the declared WAVE profile"));
    }
    let expected: [u8; 4] = if profile == Profile::Rf64 {
        [0x52, 0x46, 0x36, 0x34]
    } else if profile == Profile::Bw64 {
        [0x42, 0x57, 0x36, 0x34]
    } else {
        [0x52, 0x49, 0x46, 0x46]
    };
    assert(expected@ =~= riff_magic(profile));
    if !tag_at(input, 0, expected) || !tag_at(input, 8, [0x57u8, 0x41, 0x56, 0x45]) {
        return Err(Error::Invalid("container is not the declared WAVE profile"));
    }
    let extended = profile == Profile::Rf64 || profile == Profile::Bw64;
    let scan_end: usize = if extended {
        physical
    } else {
        let declared = 8 + read_le32(input, 4) as u64;
        if declared > physical as u64 {
            return Err(Error::Invalid("RIFF size extends past EOF"));
        }
        declared as usize
    };
    if options.strict_header_consistency && !extended && scan_end != physical {
        return Err(Error::Invalid("RIFF size does not match input length"));
    }
    let mut position: usize = 12;
    let mut format: Option<Format> = None;
    let mut segments: Vec<Segment> = Vec::new();
    let mut ds64_data: Option<u64> = None;
    let mut ds64_riff: Option<u64> = None;
    let mut bext = false;
    let mut warnings: Vec<String> = Vec::new();
    let ghost maxch = options.max_channels as int;
    let ghost strict = options.strict_header_consistency;
    let ghost walk = riff_walk(input@, 12, scan_end as int, None, Seq::empty(), None, None, false, maxch, strict);
    assert(segments@ =~= Seq::<Segment>::empty());
    assert(riff_layout(input@, profile, maxch, strict) == match walk {
        Some((fmt, segs, ds_riff, bext)) => if extended && (ds_riff is None || ds_riff->0 > u64::MAX - 8 || 8
            + ds_riff->0 > input@.len() || (strict && 8 + ds_riff->0 != input@.len())) {
            None
        } else if profile == Profile::Bwf && !bext {
            None
        } else {
            match fmt {
                Some(f) => Some((f, segs)),
                None => None,
            }
        },
        None => None,
    });
    while position <= scan_end && scan_end - position >= 8
        invariant
            scan_end <= physical,
            physical == input@.len(),
            format matches Some(f) ==> f.wf() && f.rate >= 1,
            forall|i: int| 0 <= i < segments@.len() ==> (#[trigger] segments@[i]).offset + segments@[i].size <= physical,
            maxch == options.max_channels,
            strict == options.strict_header_consistency,
            walk == riff_walk(
                input@,
                position as int,
                scan_end as int,
                format,
                segments@,
                opt_int(ds64_data),
                opt_int(ds64_riff),
                bext,
                maxch,
                strict,
            ),
            riff_layout(input@, profile, maxch, strict) == match walk {
                Some((fmt, segs, ds_riff, bext)) => if extended && (ds_riff is None || ds_riff->0 > u64::MAX - 8
                    || 8 + ds_riff->0 > input@.len() || (strict && 8 + ds_riff->0 != input@.len())) {
                    None
                } else if profile == Profile::Bwf && !bext {
                    None
                } else {
                    match fmt {
                        Some(f) => Some((f, segs)),
                        None => None,
                    }
                },
                None => None,
            },
        decreases scan_end + 1 - position,
    {
        let declared = read_le32(input, position + 4);
        let payload = position + 8;
        let is_data = tag_at(input, position, [0x64u8, 0x61, 0x74, 0x61]);
        let size: u64 = if is_data && declared == 0xFFFF_FFFF {
            match ds64_data {
                Some(v) => v,
                None => return Err(Error::Invalid("extended data precedes ds64")),
            }
        } else {
            declared as u64
        };
        if size > (scan_end - payload) as u64 || size % 2 > (scan_end - payload) as u64 - size {
            return Err(Error::Invalid("RIFF chunk extends past boundary"));
        }
        let size = size as usize;
        let next = payload + size + size % 2;
        if tag_at(input, position, [0x64u8, 0x73, 0x36, 0x34]) {
            if size < 28 {
                return Err(Error::Invalid("ds64 chunk is incomplete"));
            }
            ds64_riff = Some(read_le64(input, payload));
            ds64_data = Some(read_le64(input, payload + 8));
        } else if tag_at(input, position, [0x66u8, 0x6d, 0x74, 0x20]) {
            if size > 4096 {
                return Err(Error::Unsupported("fmt chunk is too large"));
            }
            let mut b: Vec<u8> = Vec::new();
            crate::bytes::push_range(&mut b, input, payload, size);
            assert(b@ =~= input@.subrange(payload as int, payload + size));
            format = match parse_wave_format(b.as_slice(), options) {
                Ok(f) => Some(f),
                Err(e) => {
                    return Err(e);
                },
            };
        } else if is_data {
            segments.push(Segment { offset: payload, size });
        } else if tag_at(input, position, [0x62u8, 0x65, 0x78, 0x74]) {
            bext = true;
        }
        position = next;
    }
    assert(walk == Some((format, segments@, opt_int(ds64_riff), bext)));
    if extended {
        let declared = match ds64_riff {
            Some(v) => v,
            None => return Err(Error::Invalid("extended WAVE is missing ds64")),
        };
        if declared > u64::MAX - 8 {
            return Err(Error::Overflow);
        }
        let end = 8 + declared;
        if end > physical as u64 {
            return Err(Error::Invalid("ds64 RIFF size extends past EOF"));
        }
        if options.strict_header_consistency && end != physical as u64 {
            return Err(Error::Invalid("ds64 RIFF size does not match input length"));
        }
    }
    if profile == Profile::Bwf && !bext {
        return Err(Error::Invalid("BWF input has no bext chunk"));
    }
    if profile == Profile::Wav && bext {
        warnings.push(crate::text::note("BWF bext metadata was not retained by plain WAVE output"));
    }
    let format = match format {
        Some(f) => f,
        None => return Err(Error::Invalid("missing fmt chunk")),
    };
    finish(physical as u64, format, storage(profile), segments, warnings, Ghost(physical as int))
}

/// Parses a Sun AU/SND file of linear integer PCM.
/// The Sun AU magic, `.snd`.
pub open spec fn au_magic() -> Seq<u8> {
    seq![0x2eu8, 0x73, 0x6e, 0x64]
}

/// The container bits of an AU linear PCM encoding; 0 for other encodings.
pub open spec fn au_bits(encoding: int) -> int {
    if encoding == 2 {
        8
    } else if encoding == 3 {
        16
    } else if encoding == 4 {
        24
    } else if encoding == 5 {
        32
    } else {
        0
    }
}

/// The format, data offset and data size a Sun AU header declares, when it
/// is one that is accepted.
pub open spec fn au_layout(b: Seq<u8>, max_channels: int, strict: bool) -> Option<(Format, int, int)> {
    if b.len() < 24 || b.subrange(0, 4) != au_magic() {
        None
    } else {
        let offset = crate::bytes::be32(b, 4);
        let declared = crate::bytes::be32(b, 8);
        let size = if declared == 0xFFFF_FFFF {
            b.len() - offset
        } else {
            declared
        };
        let bits = au_bits(crate::bytes::be32(b, 12));
        let rate = crate::bytes::be32(b, 16);
        let channels = crate::bytes::be32(b, 20);
        if offset < 24 || offset > b.len() || size > b.len() - offset || (strict && offset + size != b.len())
            || bits == 0 || channels > 0xFFFF || channels == 0 || channels > max_channels || rate == 0
            || channels * (bits / 8) > 0xFFFF {
            None
        } else {
            Some(
                (
                    Format {
                        channels: channels as u16,
                        rate: rate as u32,
                        container_bits: bits as u16,
                        valid_bits: bits as u16,
                        block_align: (channels * (bits / 8)) as u16,
                    },
                    offset,
                    size,
                ),
            )
        }
    }
}

pub fn parse_au(input: &[u8], options: &Options) -> (r: Result<Parsed, Error>)
    ensures
        r matches Ok(p) ==> parsed_ok(p, input@.len() as int),
        r is Ok <==> (au_layout(input@, options.max_channels as int, options.strict_header_consistency)
            matches Some((f, o, n)) && n % (f.block_align as int) == 0),
        r matches Ok(p) ==> (au_layout(input@, options.max_channels as int, options.strict_header_consistency)
            matches Some((f, o, n)) && p.format == f && p.segments@.len() == 1 && p.segments@[0].offset == o
            && p.segments@[0].size == n),
{
    let physical = input.len();
    if physical < 24 {
        return Err(Error::Invalid("input is not Sun AU/SND"));
    }
    let magic: [u8; 4] = [0x2eu8, 0x73, 0x6e, 0x64];
    assert(magic@ =~= au_magic());
    if !tag_at(input, 0, magic) {
        return Err(Error::Invalid("input is not Sun AU/SND"));
    }
    let relative = read_be32(input, 4) as usize;
    if relative < 24 {
        return Err(Error::Invalid("AU data offset is too small"));
    }
    if relative > physical {
        return Err(Error::Invalid("AU data offset exceeds EOF"));
    }
    let offset = relative;
    let declared = read_be32(input, 8);
    let size: usize = if declared == 0xFFFF_FFFF {
        physical - offset
    } else {
        declared as usize
    };
    if size > physical - offset {
        return Err(Error::Invalid("AU data size exceeds EOF"));
    }
    if options.strict_header_consistency && offset + size != physical {
        return Err(Error::Invalid("AU declared data does not consume the input"));
    }
    let encoding = read_be32(input, 12);
    let bits: u16 = if encoding == 2 {
        8
    } else if encoding == 3 {
        16
    } else if encoding == 4 {
        24
    } else if encoding == 5 {
        32
    } else {
        return Err(Error::Unsupported("AU encoding is not linear integer PCM"));
    };
    let rate = read_be32(input, 16);
    let channels32 = read_be32(input, 20);
    if channels32 > 0xFFFF {
        return Err(Error::Unsupported("AU channel count is too large"));
    }
    let channels = channels32 as u16;
    if channels == 0 || channels > options.max_channels || rate == 0 {
        return Err(Error::Unsupported("AU channels or rate are unsupported"));
    }
    assert(channels as int * (bits / 8) as int <= 65535 * 4) by (nonlinear_arith)
        requires
            bits / 8 <= 4,
    ;
    if channels as u32 * (bits / 8) as u32 > 0xFFFF {
        return Err(Error::Overflow);
    }
    let block = channels * (bits / 8);
    let mut segments: Vec<Segment> = Vec::new();
    segments.push(Segment { offset, size });
    assert(total(segments@) == size) by {
        assert(segments@.len() == 1);
        assert(segments@.drop_last() =~= Seq::<Segment>::empty());
        assert(total(Seq::<Segment>::empty()) == 0);
        assert(total(segments@.drop_last()) == 0);
        assert(segments@.last().size == size);
    }
    finish(
        physical as u64,
        Format { channels, rate, container_bits: bits, valid_bits: bits, block_align: block },
        storage(Profile::Au),
        segments,
        Vec::new(),
        Ghost(physical as int),
    )
}

/// Parses a classic AIFF file of 8/16/24/32-bit PCM.
/// The format an AIFF `COMM` payload at `payload` describes, when it is
/// accepted integer PCM.
pub open spec fn aiff_comm(b: Seq<u8>, payload: int, max_channels: int) -> Option<Format> {
    let channels = crate::bytes::be16(b, payload);
    let bits = crate::bytes::be16(b, payload + 6);
    let rate = crate::extended::ext_decode(crate::bytes::be16(b, payload + 8), crate::bytes::be64(b, payload + 10));
    if rate is None || channels == 0 || channels > max_channels || !(bits == 8 || bits == 16 || bits == 24
        || bits == 32) || channels * (bits / 8) > 0xFFFF {
        None
    } else {
        Some(
            Format {
                channels: channels as u16,
                rate: rate->0 as u32,
                container_bits: bits as u16,
                valid_bits: bits as u16,
                block_align: (channels * (bits / 8)) as u16,
            },
        )
    }
}

/// The AIFF chunks from `pos` up to `end`: the format and frame count of the
/// `COMM` chunk, the `SSND` audio and where the walk stopped, or `None` when
/// a chunk is refused.
pub open spec fn aiff_walk(
    b: Seq<u8>,
    pos: int,
    end: int,
    fmt: Option<Format>,
    frames: Option<int>,
    segs: Seq<Segment>,
    max_channels: int,
) -> Option<(Option<Format>, Option<int>, Seq<Segment>, int)>
    decreases end + 1 - pos,
{
    if !(0 <= pos <= end && end - pos >= 8) {
        Some((fmt, frames, segs, pos))
    } else {
        let size = crate::bytes::be32(b, pos + 4);
        let payload = pos + 8;
        if size > end - payload || size % 2 > end - payload - size {
            None
        } else {
            let next = payload + size + size % 2;
            let id = b.subrange(pos, pos + 4);
            if id == seq![0x43u8, 0x4f, 0x4d, 0x4d] {
                if fmt is Some || size < 18 {
                    None
                } else {
                    match aiff_comm(b, payload, max_channels) {
                        None => None,
                        Some(f) => aiff_walk(
                            b,
                            next,
                            end,
                            Some(f),
                            Some(crate::bytes::be32(b, payload + 2)),
                            segs,
                            max_channels,
                        ),
                    }
                }
            } else if id == seq![0x53u8, 0x53, 0x4e, 0x44] {
                let off = crate::bytes::be32(b, payload);
                if size < 8 || off > size - 8 {
                    None
                } else {
                    aiff_walk(
                        b,
                        next,
                        end,
                        fmt,
                        frames,
                        segs.push(Segment { offset: (payload + 8 + off) as usize, size: (size - 8 - off) as usize }),
                        max_channels,
                    )
                }
            } else {
                aiff_walk(b, next, end, fmt, frames, segs, max_channels)
            }
        }
    }
}

/// The format and audio segments of a classic AIFF file, when its header
/// and chunks are accepted.
pub open spec fn aiff_layout(b: Seq<u8>, max_channels: int, strict: bool) -> Option<(Format, Seq<Segment>)> {
    if b.len() < 12 || b.subrange(0, 4) != seq![0x46u8, 0x4f, 0x52, 0x4d] || b.subrange(8, 12) != seq![
        0x41u8,
        0x49,
        0x46,
        0x46,
    ] {
        None
    } else {
        let end = 8 + crate::bytes::be32(b, 4);
        if end > b.len() || (strict && end != b.len()) {
            None
        } else {
            match aiff_walk(b, 12, end, None, None, Seq::empty(), max_channels) {
                Some((Some(f), frames, segs, stop)) => if stop != end || total(segs) > u64::MAX || (strict && (
                frames is None || total(segs) / (f.block_align as int) != frames->0)) {
                    None
                } else {
                    Some((f, segs))
                },
                _ => None,
            }
        }
    }
}

#[verifier::rlimit(100)]
pub fn parse_aiff(input: &[u8], options: &Options) -> (r: Result<Parsed, Error>)
    ensures
        r matches Ok(p) ==> parsed_ok(p, input@.len() as int),
        r is Ok <==> (aiff_layout(input@, options.max_channels as int, options.strict_header_consistency)
            matches Some((f, segs)) && segments_fit(f, segs)),
        r matches Ok(p) ==> aiff_layout(input@, options.max_channels as int, options.strict_header_consistency)
            == Some((p.format, p.segments@)),
{
    let physical = input.len();
    if physical < 12 {
        return Err(Error::Invalid("input is not classic AIFF"));
    }
    if !tag_at(input, 0, [0x46u8, 0x4f, 0x52, 0x4d]) || !tag_at(input, 8, [0x41u8, 0x49, 0x46, 0x46]) {
        return Err(Error::Invalid("input is not classic AIFF"));
    }
    let end64 = 8 + read_be32(input, 4) as u64;
    if end64 > physical as u64 {
        return Err(Error::Invalid("AIFF FORM size extends past EOF"));
    }
    if options.strict_header_consistency && end64 != physical as u64 {
        return Err(Error::Invalid("AIFF FORM size does not match input length"));
    }
    let end = end64 as usize;
    let mut position: usize = 12;
    let mut format: Option<Format> = None;
    let mut declared_frames: Option<u64> = None;
    let mut segments: Vec<Segment> = Vec::new();
    let ghost maxch = options.max_channels as int;
    let ghost strict = options.strict_header_consistency;
    let ghost walk = aiff_walk(input@, 12, end as int, None, None, Seq::empty(), maxch);
    assert(segments@ =~= Seq::<Segment>::empty());
    while position <= end && end - position >= 8
        invariant
            end <= physical,
            physical == input@.len(),
            format matches Some(f) ==> f.wf() && f.rate >= 1,
            forall|i: int| 0 <= i < segments@.len() ==> (#[trigger] segments@[i]).offset + segments@[i].size <= physical,
            maxch == options.max_channels,
            strict == options.strict_header_consistency,
            end as int == 8 + crate::bytes::be32(input@, 4),
            walk == aiff_walk(input@, 12, end as int, None, None, Seq::empty(), maxch),
            walk == aiff_walk(
                input@,
                position as int,
                end as int,
                format,
                match declared_frames {
                    Some(v) => Some(v as int),
                    None => None,
                },
                segments@,
                maxch,
            ),
        decreases end + 1 - position,
    {
        let size = read_be32(input, position + 4) as usize;
        let payload = position + 8;
        if size > end - payload || size % 2 > end - payload - size {
            return Err(Error::Invalid("AIFF chunk extends past FORM boundary"));
        }
        let next = payload + size + size % 2;
        if tag_at(input, position, [0x43u8, 0x4f, 0x4d, 0x4d]) {
            if format.is_some() || size < 18 {
                return Err(Error::Invalid("AIFF COMM chunk is missing, duplicate or incomplete"));
            }
            let channels = read_be16(input, payload);
            let frames = read_be32(input, payload + 2);
            let bits = read_be16(input, payload + 6);
            let rate = match crate::extended::decode_rate(input, payload + 8) {
                Ok(v) => v,
                Err(e) => return Err(match e {
                    crate::extended::RateError::NotExtended => Error::Invalid("sample rate is not an 80-bit extended value"),
                    crate::extended::RateError::Negative => Error::Unsupported("negative AIFF sample rate"),
                    crate::extended::RateError::NonFinite => Error::Unsupported("non-finite, denormal or zero AIFF sample rate"),
                    crate::extended::RateError::NoIntegerBit => Error::Invalid("AIFF sample rate has no integer bit"),
                    crate::extended::RateError::OutOfRange => Error::Unsupported("AIFF sample rate is outside the integer range"),
                }),
            };
            if channels == 0 || channels > options.max_channels {
                return Err(Error::Unsupported("AIFF channel count is unsupported"));
            }
            if !(bits == 8 || bits == 16 || bits == 24 || bits == 32) {
                return Err(Error::Unsupported("AIFF PCM width must be 8, 16, 24 or 32 bits"));
            }
            assert(channels as int * (bits / 8) as int <= 65535 * 4) by (nonlinear_arith)
                requires
                    bits / 8 <= 4,
            ;
            if channels as u32 * (bits / 8) as u32 > 0xFFFF {
                return Err(Error::Overflow);
            }
            let block = channels * (bits / 8);
            assert(rate >= 1);
            format = Some(Format { channels, rate, container_bits: bits, valid_bits: bits, block_align: block });
            declared_frames = Some(frames as u64);
        } else if tag_at(input, position, [0x53u8, 0x53, 0x4e, 0x44]) {
            if size < 8 {
                return Err(Error::Invalid("AIFF SSND chunk is incomplete"));
            }
            let offset = read_be32(input, payload) as usize;
            if offset > size - 8 {
                return Err(Error::Invalid("AIFF SSND offset exceeds its chunk"));
            }
            segments.push(Segment { offset: payload + 8 + offset, size: size - 8 - offset });
        }
        position = next;
    }
    assert(walk == Some((
        format,
        match declared_frames {
            Some(v) => Some(v as int),
            None => None,
        },
        segments@,
        position as int,
    )));
    if position != end {
        return Err(Error::Invalid("AIFF chunks do not consume the FORM"));
    }
    let format = match format {
        Some(f) => f,
        None => return Err(Error::Invalid("missing AIFF COMM chunk")),
    };
    let mut audio: u64 = 0;
    let mut i: usize = 0;
    assert(aiff_layout(input@, maxch, strict) is Some ==> total(segments@) <= u64::MAX);
    while i < segments.len()
        invariant
            i <= segments@.len(),
            audio == total(segments@.subrange(0, i as int)),
            maxch == options.max_channels,
            strict == options.strict_header_consistency,
            aiff_layout(input@, maxch, strict) is Some ==> total(segments@) <= u64::MAX,
        decreases segments@.len() - i,
    {
        if audio > u64::MAX - segments[i].size as u64 {
            proof {
                assert(segments@.subrange(0, i + 1).drop_last() =~= segments@.subrange(0, i as int));
                lemma_total_prefix(segments@, i + 1);
            }
            return Err(Error::Overflow);
        }
        audio = audio + segments[i].size as u64;
        assert(segments@.subrange(0, i + 1).drop_last() =~= segments@.subrange(0, i as int));
        i = i + 1;
    }
    assert(segments@.subrange(0, i as int) =~= segments@);
    if options.strict_header_consistency {
        let frames = match declared_frames {
            Some(f) => f,
            None => return Err(Error::Invalid("missing AIFF frame count")),
        };
        if format.block_align == 0 || audio / format.block_align as u64 != frames {
            return Err(Error::Invalid("AIFF COMM frame count does not match SSND audio"));
        }
    }
    finish(physical as u64, format, storage(Profile::Aiff), segments, Vec::new(), Ghost(physical as int))
}

/// Parses a Sony Wave64 file.
/// The Wave64 chunks from `pos` up to `end`: the last format and every data
/// chunk seen, or `None` when a chunk is refused.
pub open spec fn w64_walk(
    b: Seq<u8>,
    pos: int,
    end: int,
    fmt: Option<Format>,
    segs: Seq<Segment>,
    max_channels: int,
    strict: bool,
) -> Option<(Option<Format>, Seq<Segment>)>
    decreases end + 1 - pos,
{
    if !(0 <= pos <= end && end - pos >= 24) {
        Some((fmt, segs))
    } else {
        let size = crate::bytes::le64(b, pos + 16);
        let payload = pos + 24;
        let next = round8(pos + size);
        let data_size = size - 24;
        if size < 24 || size > end - pos || pos + size + 7 > u64::MAX || next > end {
            None
        } else {
            let id = b.subrange(pos, pos + 16);
            if id == w64_fmt() {
                if data_size > 4096 {
                    None
                } else {
                    match wave_format(b.subrange(payload, payload + data_size), max_channels, strict) {
                        None => None,
                        Some(f) => w64_walk(b, next, end, Some(f), segs, max_channels, strict),
                    }
                }
            } else if id == w64_data() {
                w64_walk(
                    b,
                    next,
                    end,
                    fmt,
                    segs.push(Segment { offset: payload as usize, size: data_size as usize }),
                    max_channels,
                    strict,
                )
            } else {
                w64_walk(b, next, end, fmt, segs, max_channels, strict)
            }
        }
    }
}

/// The format and data segments of a Wave64 file, when its header and
/// chunks are accepted.
pub open spec fn wave64_layout(b: Seq<u8>, max_channels: int, strict: bool) -> Option<(Format, Seq<Segment>)> {
    if b.len() < 40 || b.subrange(0, 16) != w64_riff() || b.subrange(24, 40) != w64_wave() {
        None
    } else {
        let declared = crate::bytes::le64(b, 16);
        if declared < 40 || declared > b.len() || (strict && declared != b.len()) {
            None
        } else {
            match w64_walk(b, 40, declared, None, Seq::empty(), max_channels, strict) {
                Some((Some(f), segs)) => Some((f, segs)),
                _ => None,
            }
        }
    }
}

/// Whether the segments hold whole frames of `f` and their total fits 64 bits.
pub open spec fn segments_fit(f: Format, segs: Seq<Segment>) -> bool {
    &&& segs.len() >= 1
    &&& forall|i: int| 0 <= i < segs.len() ==> (#[trigger] segs[i]).size as int % (f.block_align as int) == 0
    &&& total(segs) <= u64::MAX
}

#[verifier::rlimit(100)]
pub fn parse_wave64(input: &[u8], options: &Options) -> (r: Result<Parsed, Error>)
    ensures
        r matches Ok(p) ==> parsed_ok(p, input@.len() as int),
        r is Ok <==> (wave64_layout(input@, options.max_channels as int, options.strict_header_consistency)
            matches Some((f, segs)) && segments_fit(f, segs)),
        r matches Ok(p) ==> wave64_layout(input@, options.max_channels as int, options.strict_header_consistency)
            == Some((p.format, p.segments@)),
{
    let physical = input.len();
    if physical < 40 {
        return Err(Error::Invalid("input is not Sony Wave64"));
    }
    assert(W64_RIFF@ =~= w64_riff());
    assert(W64_WAVE@ =~= w64_wave());
    assert(W64_FMT@ =~= w64_fmt());
    assert(W64_DATA@ =~= w64_data());
    let mut k: usize = 0;
    while k < 16
        invariant
            k <= 16,
            physical == input@.len(),
            physical >= 40,
            W64_RIFF@ == w64_riff(),
            W64_WAVE@ == w64_wave(),
            forall|j: int| 0 <= j < k ==> input@[j] == w64_riff()[j] && input@[24 + j] == w64_wave()[j],
        decreases 16 - k,
    {
        if input[k] != W64_RIFF[k] || input[24 + k] != W64_WAVE[k] {
            proof {
                if input@.subrange(0, 16) == w64_riff() {
                    assert(input@.subrange(0, 16)[k as int] == input@[k as int]);
                    assert(input@.subrange(24, 40)[k as int] == input@[24 + k]);
                }
            }
            return Err(Error::Invalid("input is not Sony Wave64"));
        }
        k = k + 1;
    }
    assert(input@.subrange(0, 16) =~= w64_riff());
    assert(input@.subrange(24, 40) =~= w64_wave());
    let ghost maxch = options.max_channels as int;
    let ghost strict = options.strict_header_consistency;
    let declared = read_le64(input, 16);
    if declared < 40 || declared > physical as u64 {
        return Err(Error::Invalid("Wave64 size exceeds EOF"));
    }
    if options.strict_header_consistency && declared != physical as u64 {
        return Err(Error::Invalid("Wave64 size does not match input length"));
    }
    let end = declared as usize;
    let mut position: usize = 40;
    let mut format: Option<Format> = None;
    let mut segments: Vec<Segment> = Vec::new();
    let ghost walk = w64_walk(input@, 40, end as int, None, Seq::empty(), maxch, strict);
    assert(segments@ =~= Seq::<Segment>::empty());
    assert(wave64_layout(input@, maxch, strict) == match walk {
        Some((Some(f), segs)) => Some((f, segs)),
        _ => None,
    });
    while position <= end && end - position >= 24
        invariant
            end <= physical,
            physical == input@.len(),
            format matches Some(f) ==> f.wf() && f.rate >= 1,
            forall|i: int| 0 <= i < segments@.len() ==> (#[trigger] segments@[i]).offset + segments@[i].size <= physical,
            maxch == options.max_channels,
            strict == options.strict_header_consistency,
            W64_FMT@ == w64_fmt(),
            W64_DATA@ == w64_data(),
            walk == w64_walk(input@, position as int, end as int, format, segments@, maxch, strict),
            wave64_layout(input@, maxch, strict) == match walk {
                Some((Some(f), segs)) => Some((f, segs)),
                _ => None,
            },
        decreases end + 1 - position,
    {
        let size = read_le64(input, position + 16);
        if size < 24 {
            return Err(Error::Invalid("Wave64 chunk size is smaller than its header"));
        }
        let payload = position + 24;
        if size > (end - position) as u64 {
            return Err(Error::Invalid("Wave64 chunk exceeds container"));
        }
        let next64 = match align(position as u64 + size, 8) {
            Ok(v) => v,
            Err(e) => return Err(e),
        };
        if next64 > end as u64 {
            return Err(Error::Invalid("Wave64 chunk exceeds container"));
        }
        let data_size = (size - 24) as usize;
        let mut is_fmt = true;
        let mut is_data = true;
        let mut j: usize = 0;
        while j < 16
            invariant
                j <= 16,
                position + 24 <= physical,
                physical == input@.len(),
                W64_FMT@ == w64_fmt(),
                W64_DATA@ == w64_data(),
                is_fmt <==> forall|i: int| 0 <= i < j ==> input@[position + i] == w64_fmt()[i],
                is_data <==> forall|i: int| 0 <= i < j ==> input@[position + i] == w64_data()[i],
            decreases 16 - j,
        {
            if input[position + j] != W64_FMT[j] {
                is_fmt = false;
            }
            if input[position + j] != W64_DATA[j] {
                is_data = false;
            }
            j = j + 1;
        }
        proof {
            let id = input@.subrange(position as int, position + 16);
            if is_fmt {
                assert(id =~= w64_fmt());
            }
            if id == w64_fmt() {
                assert forall|i: int| 0 <= i < 16 implies input@[position + i] == w64_fmt()[i] by {
                    assert(id[i] == input@[position + i]);
                }
            }
            if is_data {
                assert(id =~= w64_data());
            }
            if id == w64_data() {
                assert forall|i: int| 0 <= i < 16 implies input@[position + i] == w64_data()[i] by {
                    assert(id[i] == input@[position + i]);
                }
            }
        }
        if is_fmt {
            if data_size > 4096 {
                return Err(Error::Unsupported("Wave64 fmt is too large"));
            }
            let mut b: Vec<u8> = Vec::new();
            crate::bytes::push_range(&mut b, input, payload, data_size);
            assert(b@ =~= input@.subrange(payload as int, payload + data_size));
            format = match parse_wave_format(b.as_slice(), options) {
                Ok(f) => Some(f),
                Err(e) => {
                    return Err(e);
                },
            };
        } else if is_data {
            segments.push(Segment { offset: payload, size: data_size });
        }
        position = next64 as usize;
    }
    assert(walk == Some((format, segments@)));
    let format = match format {
        Some(f) => f,
        None => return Err(Error::Invalid("missing Wave64 fmt chunk")),
    };
    finish(physical as u64, format, storage(Profile::Wave64), segments, Vec::new(), Ghost(physical as int))
}

/// Parses `input` as the capsule's source profile.
pub fn parse(input: &[u8], options: &Options) -> (r: Result<Parsed, Error>)
    ensures
        r matches Ok(p) ==> parsed_ok(p, input@.len() as int),
        r is Ok <==> caf_accepts(input@, options.max_channels as int, options.strict_header_consistency),
        r matches Ok(p) ==> caf_parsed(p, input@, options.max_channels as int, options.strict_header_consistency),
{
    match SOURCE {
        Profile::Wav | Profile::Rf64 | Profile::Bw64 | Profile::Bwf => parse_riff(input, SOURCE, options),
        Profile::Aiff => parse_aiff(input, options),
        Profile::Caf => parse_caf(input, options),
        Profile::Au => parse_au(input, options),
        Profile::Wave64 => parse_wave64(input, options),
    }
}

/// The rewritten audio of `segs`, in order.
pub open spec fn moved(b: Seq<u8>, segs: Seq<Segment>, r: SampleRewrite) -> Seq<u8>
    decreases segs.len(),
{
    if segs.len() == 0 {
        Seq::empty()
    } else {
        moved(b, segs.drop_last(), r) + r.map_all(
            b.subrange(segs.last().offset as int, segs.last().offset + segs.last().size),
        )
    }
}

/// The target file for the audio `segs` of `b` in layout `f` and storage `st`.
#[verifier::opaque]
pub open spec fn target_file(b: Seq<u8>, f: Format, st: Storage, segs: Seq<Segment>) -> Seq<u8> {
    let audio = total(segs);
    plan_of(f, audio).0 + moved(b, segs, rewrite_between((f.container_bits / 8) as int, st, storage_of(TARGET)))
        + Seq::new(plan_of(f, audio).1 as nat, |_i: int| 0u8)
}

/// The working buffer: `buffer_size` rounded down to whole frames, at least
/// one frame.
fn buffer_length(buffer_size: usize, block: usize) -> (r: usize)
    requires
        block >= 1,
    ensures
        r <= buffer_size || r == block,
{
    let rem = buffer_size % block;
    proof {
        crate::arith::lemma_sub_mod(buffer_size as int, block as int);
    }
    let length = buffer_size - rem;
    if length == 0 {
        block
    } else {
        length
    }
}

/// Appends the rewritten audio of every segment of `parsed`.
fn move_audio(out: &mut Vec<u8>, input: &[u8], parsed: &Parsed, target: Storage)
    requires
        parsed_ok(*parsed, input@.len() as int),
    ensures
        final(out)@ == old(out)@ + moved(
            input@,
            parsed.segments@,
            rewrite_between((parsed.format.container_bits / 8) as int, parsed.storage, target),
        ),
{
    let f = parsed.format;
    let width = (f.container_bits / 8) as usize;
    let ghost rw = rewrite_between(width as int, parsed.storage, target);
    let mut i: usize = 0;
    while i < parsed.segments.len()
        invariant
            i <= parsed.segments@.len(),
            parsed_ok(*parsed, input@.len() as int),
            f == parsed.format,
            width == f.container_bits / 8,
            1 <= width <= 4,
            rw == rewrite_between(width as int, parsed.storage, target),
            out@ == old(out)@ + moved(input@, parsed.segments@.subrange(0, i as int), rw),
        decreases parsed.segments@.len() - i,
    {
        let seg = parsed.segments[i];
        proof {
            assert(seg.offset + seg.size <= input@.len());
            assert(seg.size as int % (f.block_align as int) == 0);
            crate::arith::lemma_multiple_of_factor(seg.size as int, f.channels as int, width as int);
        }
        transform(out, input, seg.offset, seg.size, width, parsed.storage, target);
        assert(parsed.segments@.subrange(0, i + 1).drop_last() =~= parsed.segments@.subrange(0, i as int));
        i = i + 1;
    }
    assert(parsed.segments@.subrange(0, i as int) =~= parsed.segments@);
}

/// `file` is the target file for the parse `p` of `b`.
#[verifier::opaque]
pub open spec fn conversion(p: Parsed, b: Seq<u8>, file: Seq<u8>) -> bool {
    parsed_ok(p, b.len() as int) && file == target_file(b, p.format, p.storage, p.segments@)
}

/// `file` and `report` are what a successful conversion of `b` yields.
#[verifier::opaque]
pub open spec fn rendered(b: Seq<u8>, file: Seq<u8>, report: Report) -> bool {
    exists|p: Parsed|
        #[trigger] conversion(p, b, file) && report.channels == p.format.channels
            && report.sample_rate == p.format.rate && report.audio_bytes == total(p.segments@)
}

/// Whole frames in `audio` bytes.
fn frames_of(audio: u64, block: u16) -> (n: u64)
    requires
        block >= 1,
    ensures
        n == audio as int / block as int,
{
    audio / block as u64
}

/// The target file and report for `input`.
#[verifier::rlimit(60)]
fn render(input: &[u8], options: &Options) -> (r: Result<(Vec<u8>, Report), Error>)
    requires
        256 <= options.buffer_size <= 16 * 1024 * 1024,
    ensures
        r matches Ok((file, report)) ==> rendered(input@, file@, report),
        r is Ok <==> (caf_layout(input@, options.max_channels as int, options.strict_header_consistency)
            matches Some((f, e, d)) && d.size as int % (f.block_align as int) == 0 && plan_fits(f, d.size as int)),
{
    let parsed = match parse(input, options) {
        Ok(p) => p,
        Err(e) => return Err(e),
    };
    let f = parsed.format;
    assert(f.channels as int * (f.container_bits / 8) as int >= 1) by (nonlinear_arith)
        requires
            f.channels >= 1,
            f.container_bits / 8 >= 1,
    ;
    assert(f.block_align >= 1);
    proof {
        let segs = parsed.segments@;
        assert(segs.len() == 1);
        assert(segs.drop_last() =~= Seq::<Segment>::empty());
        assert(total(Seq::<Segment>::empty()) == 0);
        assert(total(segs.drop_last()) == 0);
        assert(parsed.audio_bytes == segs[0].size);
    }
    let plan = match plan(f, parsed.audio_bytes) {
        Ok(p) => p,
        Err(e) => return Err(e),
    };
    let block = f.block_align;
    let length = buffer_length(options.buffer_size, block as usize);
    let frames = frames_of(parsed.audio_bytes, block);
    let output_bytes = (plan.prefix.len() as u64).saturating_add(parsed.audio_bytes).saturating_add(plan.padding as u64);
    let ghost pw = parsed;
    let file = build_file(input, &parsed, &plan);
    let report = Report {
        input_bytes: parsed.input_bytes,
        output_bytes,
        audio_bytes: parsed.audio_bytes,
        channels: f.channels,
        sample_rate: f.rate,
        container_bits_per_sample: f.container_bits,
        valid_bits_per_sample: f.valid_bits,
        sample_frames: frames,
        peak_working_memory_bytes: length as u64 + 4096,
        warnings: parsed.warnings,
    };
    assert(rendered(input@, file@, report)) by {
        reveal(rendered);
        assert(conversion(pw, input@, file@));
    }
    Ok((file, report))
}

/// The target file: the plan's header, the rewritten audio, the padding.
fn build_file(input: &[u8], parsed: &Parsed, plan: &Plan) -> (out: Vec<u8>)
    requires
        parsed_ok(*parsed, input@.len() as int),
        plan.prefix@ == plan_of(parsed.format, parsed.audio_bytes as int).0,
        plan.padding == plan_of(parsed.format, parsed.audio_bytes as int).1,
    ensures
        conversion(*parsed, input@, out@),
{
    let f = parsed.format;
    let width = (f.container_bits / 8) as usize;
    let target_storage = storage(TARGET);
    let mut out: Vec<u8> = Vec::new();
    crate::bytes::push_range(&mut out, plan.prefix.as_slice(), 0, plan.prefix.len());
    assert(plan.prefix@.subrange(0, plan.prefix@.len() as int) =~= plan.prefix@);
    move_audio(&mut out, input, parsed, target_storage);
    let ghost moved_part = moved(input@, parsed.segments@, rewrite_between(width as int, parsed.storage, target_storage));
    let ghost before_pad = out@;
    crate::bytes::push_zeros(&mut out, plan.padding);
    assert(out@ == target_file(input@, parsed.format, parsed.storage, parsed.segments@)) by {
        reveal(target_file);
        assert(total(parsed.segments@) == parsed.audio_bytes);
        assert(before_pad == plan_of(f, parsed.audio_bytes as int).0 + moved_part);
        assert(out@ =~= target_file(input@, parsed.format, parsed.storage, parsed.segments@));
    }
    assert(conversion(*parsed, input@, out@)) by {
        reveal(conversion);
    }
    out
}

/// Convert the capsule's source PCM container profile to its target,
/// appending the target file to `output` on success.
pub fn convert(input: &[u8], output: &mut Vec<u8>, options: &Options) -> (result: Result<
    Report,
    Error,
>)
    ensures
        !(256 <= options.buffer_size <= 16 * 1024 * 1024) ==> result matches Err(Error::Invalid(_)),
        result is Ok <==> (256 <= options.buffer_size <= 16 * 1024 * 1024 && (caf_layout(
            input@,
            options.max_channels as int,
            options.strict_header_consistency,
        ) matches Some((f, e, d)) && d.size as int % (f.block_align as int) == 0 && plan_fits(
            f,
            d.size as int,
        ))),
        result is Err ==> final(output)@ == old(output)@,
        result matches Ok(report) ==> rendered(
            input@,
            final(output)@.subrange(old(output)@.len() as int, final(output)@.len() as int),
            report,
        ),
        result is Ok ==> final(output)@.subrange(0, old(output)@.len() as int) == old(output)@,
{
    if options.buffer_size < 256 || options.buffer_size > 16 * 1024 * 1024 {
        return Err(Error::Invalid("buffer_size must be between 256 bytes and 16 MiB"));
    }
    let (mut file, report) = match render(input, options) {
        Ok(v) => v,
        Err(e) => return Err(e),
    };
    let ghost f = file@;
    output.append(&mut file);
    assert(output@.subrange(old(output)@.len() as int, output@.len() as int) =~= f);
    assert(output@.subrange(0, old(output)@.len() as int) =~= old(output)@);
    Ok(report)
}

/// A one-frame, 16-bit mono file in the source profile.
pub fn conformance_fixture() -> (v: Vec<u8>)
    ensures
        v@ == caf_prefix(Format { channels: 1, rate: 44100, container_bits: 16, valid_bits: 16, block_align: 2 }, 2)
            + rewrite_between(2, Storage { endian: Endian::Little, eight_bit_signed: true }, storage_of(SOURCE)).map_all(
            seq![0x34u8, 0x12],
        ),
{
    let format = Format { channels: 1, rate: 44100, container_bits: 16, valid_bits: 16, block_align: 2 };
    let plan = match SOURCE {
        Profile::Wav | Profile::Rf64 | Profile::Bw64 | Profile::Bwf => riff_plan(SOURCE, format, 2),
        Profile::Aiff => aiff_plan(format, 2),
        Profile::Caf => caf_plan(format, 2),
        Profile::Au => au_plan(format, 2),
        Profile::Wave64 => wave64_plan(format, 2),
    };
    let plan = match plan {
        Ok(p) => p,
        Err(_) => return Vec::new(),
    };
    let canonical: [u8; 2] = [0x34, 0x12];
    let mut out = plan.prefix;
    assert(canonical@.subrange(0, 2) =~= seq![0x34u8, 0x12]);
    transform(&mut out, &canonical, 0, 2, 2, Storage { endian: Endian::Little, eight_bit_signed: true }, storage(SOURCE));
    let ghost before = out@;
    crate::bytes::push_zeros(&mut out, plan.padding);
    assert(out@ =~= before);
    out
}

} // verus!
