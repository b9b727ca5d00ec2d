//! Classic AIFF integer PCM rewritten as RIFF/WAVE integer PCM.
//!
//! Big-endian signed samples become little-endian samples (8-bit samples
//! become unsigned); `NAME`/`AUTH`/`ANNO`/`(c) ` text maps to a LIST/INFO list.
use vstd::prelude::*;
use crate::bytes::{be16, be32, le16_bytes, le32_bytes, push_le16, push_le32, read_be16, read_be32, tag_at};
use crate::extended::{decode_rate, ext_decode};
use crate::pcm::SampleRewrite;
use crate::text;

verus! {

pub const PCM_GUID: [u8; 16] = [
    0x01,
    0x00,
    0x00,
    0x00,
    0x00,
    0x00,
    0x10,
    0x00,
    0x80,
    0x00,
    0x00,
    0xaa,
    0x00,
    0x38,
    0x9b,
    0x71,
];

#[derive(Debug, Clone, Copy, PartialEq, Eq, Structural)]
pub enum MetadataPolicy {
    CommonText,
    Discard,
}

#[derive(Debug, Clone, PartialEq, Eq)]
pub struct Options {
    pub metadata: MetadataPolicy,
    pub strict_header_consistency: bool,
    pub buffer_size: usize,
    pub max_metadata_bytes: u64,
    pub max_channels: u16,
}

impl Default for Options {
    fn default() -> (o: Self)
        ensures
            o.metadata == MetadataPolicy::CommonText,
            o.strict_header_consistency,
            o.buffer_size == 65536,
            o.max_metadata_bytes == 1048576,
            o.max_channels == 256,
    {
        Options {
            metadata: MetadataPolicy::CommonText,
            strict_header_consistency: true,
            buffer_size: 65536,
            max_metadata_bytes: 1048576,
            max_channels: 256,
        }
    }
}

#[derive(Debug, Clone, PartialEq, Eq)]
pub struct Report {
    pub input_bytes: u64,
    pub output_bytes: u64,
    pub source_audio_bytes: u64,
    pub output_audio_bytes: u64,
    pub channels: u16,
    pub sample_rate: u32,
    pub container_bits_per_sample: u16,
    pub valid_bits_per_sample: u16,
    pub sample_frames: u64,
    pub source_sound_chunks: usize,
    pub wave_format_extensible: bool,
    pub metadata_chunks_found: u32,
    pub metadata_chunks_preserved: u32,
    pub peak_working_memory_bytes: u64,
    pub warnings: Vec<String>,
}

#[derive(Debug)]
pub enum Error {
    InvalidOptions(&'static str),
    InvalidAiff(&'static str),
    Unsupported(&'static str),
    MetadataLimitExceeded { bytes: u64, limit: u64 },
    ContainerTooLarge,
    ArithmeticOverflow,
}

/// One IFF chunk: tag, payload offset and payload size.
pub struct Chunk {
    pub tag: Seq<u8>,
    pub payload: int,
    pub size: int,
}

/// The IFF chunks of `b` from `pos` up to `end`; `None` when a header is cut
/// short or a chunk (with its pad byte) runs past `end`.
pub open spec fn walk(b: Seq<u8>, pos: int, end: int) -> Option<Seq<Chunk>>
    decreases end + 1 - pos,
{
    if pos >= end {
        Some(Seq::empty())
    } else if end - pos < 8 {
        None
    } else {
        let size = be32(b, pos + 4);
        let next = pos + 8 + size + size % 2;
        proof {
            assert(b[pos + 4] >= 0 && b[pos + 5] >= 0 && b[pos + 6] >= 0 && b[pos + 7] >= 0);
        }
        if next > end {
            None
        } else {
            match walk(b, next, end) {
                Some(rest) => Some(
                    seq![Chunk { tag: b.subrange(pos, pos + 4), payload: pos + 8, size }] + rest,
                ),
                None => None,
            }
        }
    }
}

pub open spec fn comm_tag() -> Seq<u8> {
    seq![0x43u8, 0x4f, 0x4d, 0x4d]
}

pub open spec fn ssnd_tag() -> Seq<u8> {
    seq![0x53u8, 0x53, 0x4e, 0x44]
}

/// The RIFF INFO id that an AIFF text chunk tag maps to.
pub open spec fn mapped_id(tag: Seq<u8>) -> Option<Seq<u8>> {
    if tag == seq![0x4eu8, 0x41, 0x4d, 0x45] {
        Some(seq![0x49u8, 0x4e, 0x41, 0x4d])
    } else if tag == seq![0x41u8, 0x55, 0x54, 0x48] {
        Some(seq![0x49u8, 0x41, 0x52, 0x54])
    } else if tag == seq![0x41u8, 0x4e, 0x4e, 0x4f] {
        Some(seq![0x49u8, 0x43, 0x4d, 0x54])
    } else if tag == seq![0x28u8, 0x63, 0x29, 0x20] {
        Some(seq![0x49u8, 0x43, 0x4f, 0x50])
    } else {
        None
    }
}

/// `s` without its trailing zero bytes.
pub open spec fn trim_zeros(s: Seq<u8>) -> Seq<u8>
    decreases s.len(),
{
    if s.len() > 0 && s.last() == 0 {
        trim_zeros(s.drop_last())
    } else {
        s
    }
}

/// The sample spans (offset, size) of the SSND chunks among `cs`.
pub open spec fn sounds_of(b: Seq<u8>, cs: Seq<Chunk>) -> Seq<(int, int)>
    decreases cs.len(),
{
    if cs.len() == 0 {
        Seq::empty()
    } else {
        let c = cs.last();
        let rest = sounds_of(b, cs.drop_last());
        if c.tag == ssnd_tag() {
            let offset = be32(b, c.payload);
            rest.push((c.payload + 8 + offset, c.size - 8 - offset))
        } else {
            rest
        }
    }
}

/// The (INFO id, text) pairs of the mapped text chunks among `cs`.
pub open spec fn metadata_of(b: Seq<u8>, cs: Seq<Chunk>) -> Seq<(Seq<u8>, Seq<u8>)>
    decreases cs.len(),
{
    if cs.len() == 0 {
        Seq::empty()
    } else {
        let c = cs.last();
        let rest = metadata_of(b, cs.drop_last());
        match mapped_id(c.tag) {
            Some(id) => rest.push((id, trim_zeros(b.subrange(c.payload, c.payload + c.size)))),
            None => rest,
        }
    }
}

/// The number of chunks among `cs` carrying a mapped text tag.
pub open spec fn text_count(cs: Seq<Chunk>) -> nat
    decreases cs.len(),
{
    if cs.len() == 0 {
        0
    } else {
        text_count(cs.drop_last()) + if mapped_id(cs.last().tag) is Some {
            1nat
        } else {
            0nat
        }
    }
}

/// The COMM chunk among `cs`, if exactly one.
pub open spec fn comm_of(cs: Seq<Chunk>) -> Option<Chunk>
    decreases cs.len(),
{
    if cs.len() == 0 {
        None
    } else if cs.last().tag == comm_tag() {
        Some(cs.last())
    } else {
        comm_of(cs.drop_last())
    }
}

/// Decoded COMM fields: channels, declared frames, sample bits, sample rate.
pub struct Common {
    pub channels: u16,
    pub frames: u32,
    pub bits: u16,
    pub rate: u32,
}

/// The parse of an AIFF file accepted by this capsule.
pub struct Parsed {
    pub input_bytes: u64,
    pub common: Common,
    pub sounds: Vec<(usize, usize)>,
    pub audio_bytes: u64,
    pub metadata: Vec<([u8; 4], Vec<u8>)>,
    pub metadata_found: u32,
    pub warnings: Vec<String>,
}

pub open spec fn form_end(b: Seq<u8>) -> int {
    8 + be32(b, 4)
}

/// The chunk list of `b` when its FORM header is a classic AIFF header.
pub open spec fn chunks(b: Seq<u8>, o: Options) -> Option<Seq<Chunk>> {
    if b.len() >= 12 && b.subrange(0, 4) == seq![0x46u8, 0x4f, 0x52, 0x4d] && b.subrange(8, 12)
        == seq![0x41u8, 0x49, 0x46, 0x46] && form_end(b) <= b.len() && (
    o.strict_header_consistency ==> form_end(b) == b.len()) {
        walk(b, 12, form_end(b))
    } else {
        None
    }
}

/// The sound spans of an accepted input, as exec values, match the spec.
pub open spec fn spans_match(v: Seq<(usize, usize)>, s: Seq<(int, int)>) -> bool {
    &&& v.len() == s.len()
    &&& forall|i: int| 0 <= i < v.len() ==> v[i].0 == s[i].0 && v[i].1 == s[i].1
}

pub open spec fn metadata_match(v: Seq<([u8; 4], Vec<u8>)>, s: Seq<(Seq<u8>, Seq<u8>)>) -> bool {
    &&& v.len() == s.len()
    &&& forall|i: int| 0 <= i < v.len() ==> v[i].0@ == s[i].0 && v[i].1@ == s[i].1
}

/// What a successful parse of `b` establishes.
#[verifier::opaque]
pub open spec fn parsed_from(b: Seq<u8>, o: Options, p: Parsed) -> bool {
    &&& chunks(b, o) matches Some(cs)
    &&& comm_of(cs) matches Some(c)
    &&& c.size >= 18
    &&& p.common.channels == be16(b, c.payload)
    &&& p.common.frames == be32(b, c.payload + 2)
    &&& p.common.bits == be16(b, c.payload + 6)
    &&& ext_decode(be16(b, c.payload + 8), crate::bytes::be64(b, c.payload + 10)) == Some(
        p.common.rate as int,
    )
    &&& 1 <= p.common.channels <= o.max_channels
    &&& 1 <= p.common.bits <= 32
    &&& spans_match(p.sounds@, sounds_of(b, cs))
    &&& p.sounds@.len() > 0
    &&& forall|i: int| 0 <= i < p.sounds@.len() ==> p.sounds@[i].0 + p.sounds@[i].1 <= b.len()
    &&& metadata_match(p.metadata@, if o.metadata == MetadataPolicy::CommonText {
        metadata_of(b, cs)
    } else {
        Seq::empty()
    })
    &&& p.metadata_found == text_count(cs)
    &&& p.input_bytes == b.len()
    &&& p.audio_bytes == sum_sizes(sounds_of(b, cs))
}

/// The sum of the sizes of `s`.
pub open spec fn sum_sizes(s: Seq<(int, int)>) -> int
    decreases s.len(),
{
    if s.len() == 0 {
        0
    } else {
        sum_sizes(s.drop_last()) + s.last().1
    }
}

proof fn lemma_walk_step(b: Seq<u8>, pos: int, end: int)
    requires
        pos < end,
        end - pos >= 8,
        pos + 8 + be32(b, pos + 4) + be32(b, pos + 4) % 2 <= end,
    ensures
        ({
            let size = be32(b, pos + 4);
            let next = pos + 8 + size + size % 2;
            let c = Chunk { tag: b.subrange(pos, pos + 4), payload: pos + 8, size };
            match walk(b, next, end) {
                Some(rest) => walk(b, pos, end) == Some(seq![c] + rest),
                None => walk(b, pos, end) is None,
            }
        }),
{
}

/// The chunks `seen` hold at most one COMM chunk, readable, and only
/// well-formed SSND chunks.
pub open spec fn scan_ok(b: Seq<u8>, seen: Seq<Chunk>) -> bool {
    &&& forall|i: int, j: int|
        0 <= i < j < seen.len() && #[trigger] seen[i].tag == comm_tag() ==> #[trigger] seen[j].tag
            != comm_tag()
    &&& forall|i: int| 0 <= i < seen.len() && #[trigger] seen[i].tag == comm_tag() ==> comm_ok(b, seen[i])
    &&& forall|i: int| 0 <= i < seen.len() && #[trigger] seen[i].tag == ssnd_tag() ==> ssnd_ok(b, seen[i])
}

proof fn lemma_comm_of_none(s: Seq<Chunk>, i: int)
    requires
        comm_of(s) is None,
        0 <= i < s.len(),
    ensures
        s[i].tag != comm_tag(),
    decreases s.len(),
{
    if i < s.len() - 1 {
        lemma_comm_of_none(s.drop_last(), i);
        assert(s[i] == s.drop_last()[i]);
    }
}

proof fn lemma_scan_push(b: Seq<u8>, seen: Seq<Chunk>, c: Chunk)
    requires
        scan_ok(b, seen),
        c.tag == comm_tag() ==> comm_of(seen) is None && comm_ok(b, c),
        c.tag == ssnd_tag() ==> ssnd_ok(b, c),
    ensures
        scan_ok(b, seen.push(c)),
{
    let t = seen.push(c);
    assert forall|i: int, j: int|
        0 <= i < j < t.len() && #[trigger] t[i].tag == comm_tag() implies #[trigger] t[j].tag != comm_tag() by {
        assert(t[i] == seen[i]);
        if j == seen.len() {
            if c.tag == comm_tag() {
                lemma_comm_of_none(seen, i);
            }
        } else {
            assert(t[j] == seen[j]);
        }
    }
    assert forall|i: int| 0 <= i < t.len() && #[trigger] t[i].tag == comm_tag() implies comm_ok(b, t[i]) by {
        if i < seen.len() {
            assert(t[i] == seen[i]);
        }
    }
    assert forall|i: int| 0 <= i < t.len() && #[trigger] t[i].tag == ssnd_tag() implies ssnd_ok(b, t[i]) by {
        if i < seen.len() {
            assert(t[i] == seen[i]);
        }
    }
}

/// A COMM chunk this capsule can read.
pub open spec fn comm_ok(b: Seq<u8>, c: Chunk) -> bool {
    c.size >= 18 && ext_decode(be16(b, c.payload + 8), crate::bytes::be64(b, c.payload + 10)) is Some
}

/// An SSND chunk whose offset stays inside its payload.
pub open spec fn ssnd_ok(b: Seq<u8>, c: Chunk) -> bool {
    c.size >= 8 && be32(b, c.payload) <= c.size - 8
}

/// The payload bytes of the mapped text chunks among `cs`.
pub open spec fn mapped_size(cs: Seq<Chunk>) -> int
    decreases cs.len(),
{
    if cs.len() == 0 {
        0
    } else {
        mapped_size(cs.drop_last()) + if mapped_id(cs.last().tag) is Some {
            cs.last().size
        } else {
            0
        }
    }
}

/// The inputs whose chunk structure the capsule accepts: one readable COMM
/// chunk with a supported layout, well-formed SSND chunks, at least one of
/// them, and text within the metadata limits.
pub open spec fn inspect_ok(b: Seq<u8>, o: Options) -> bool {
    &&& chunks(b, o) matches Some(cs)
    &&& forall|i: int, j: int|
        0 <= i < j < cs.len() && #[trigger] cs[i].tag == comm_tag() ==> #[trigger] cs[j].tag
            != comm_tag()
    &&& forall|i: int| 0 <= i < cs.len() && #[trigger] cs[i].tag == comm_tag() ==> comm_ok(b, cs[i])
    &&& forall|i: int| 0 <= i < cs.len() && #[trigger] cs[i].tag == ssnd_tag() ==> ssnd_ok(b, cs[i])
    &&& text_count(cs) <= u32::MAX
    &&& (o.metadata == MetadataPolicy::CommonText ==> mapped_size(cs) <= o.max_metadata_bytes)
    &&& comm_of(cs) matches Some(c) && 1 <= be16(b, c.payload) <= o.max_channels && 1 <= be16(
        b,
        c.payload + 6,
    ) <= 32
    &&& sounds_of(b, cs).len() > 0
    &&& sum_sizes(sounds_of(b, cs)) <= u64::MAX
}

proof fn lemma_counts_concat(a: Seq<Chunk>, c: Seq<Chunk>)
    ensures
        text_count(a + c) == text_count(a) + text_count(c),
        mapped_size(a + c) == mapped_size(a) + mapped_size(c),
    decreases c.len(),
{
    if c.len() == 0 {
        assert(a + c =~= a);
    } else {
        lemma_counts_concat(a, c.drop_last());
        assert((a + c).drop_last() =~= a + c.drop_last());
    }
}

proof fn lemma_counts_nonneg(c: Seq<Chunk>)
    requires
        forall|i: int| 0 <= i < c.len() ==> #[trigger] c[i].size >= 0,
    ensures
        mapped_size(c) >= 0,
    decreases c.len(),
{
    if c.len() > 0 {
        lemma_counts_nonneg(c.drop_last());
    }
}

proof fn lemma_sum_prefix(s: Seq<(int, int)>, k: int)
    requires
        0 <= k <= s.len(),
        forall|i: int| 0 <= i < s.len() ==> #[trigger] s[i].1 >= 0,
    ensures
        sum_sizes(s.subrange(0, k)) <= sum_sizes(s),
    decreases s.len(),
{
    if k < s.len() {
        assert(s.drop_last().subrange(0, k) =~= s.subrange(0, k));
        lemma_sum_prefix(s.drop_last(), k);
    } else {
        assert(s.subrange(0, k) =~= s);
    }
}

proof fn lemma_walk_sizes(b: Seq<u8>, pos: int, end: int)
    ensures
        walk(b, pos, end) matches Some(cs) ==> forall|i: int| 0 <= i < cs.len() ==> #[trigger] cs[i].size >= 0,
    decreases end + 1 - pos,
{
    if pos < end && end - pos >= 8 {
        let size = be32(b, pos + 4);
        assert(size >= 0) by {
            assert(b[pos + 4] >= 0 && b[pos + 5] >= 0 && b[pos + 6] >= 0 && b[pos + 7] >= 0);
        }
        let next = pos + 8 + size + size % 2;
        if next <= end {
            lemma_walk_sizes(b, next, end);
            if let Some(rest) = walk(b, next, end) {
                let c = Chunk { tag: b.subrange(pos, pos + 4), payload: pos + 8, size };
                let cs = seq![c] + rest;
                assert forall|i: int| 0 <= i < cs.len() implies #[trigger] cs[i].size >= 0 by {
                    if i > 0 {
                        assert(cs[i] == rest[i - 1]);
                    }
                }
            }
        }
    }
}

proof fn lemma_comm_of_index(s: Seq<Chunk>)
    requires
        comm_of(s) is Some,
    ensures
        exists|j: int| 0 <= j < s.len() && #[trigger] s[j].tag == comm_tag(),
    decreases s.len(),
{
    if s.last().tag != comm_tag() {
        lemma_comm_of_index(s.drop_last());
        let j = choose|j: int| 0 <= j < s.drop_last().len() && #[trigger] s.drop_last()[j].tag == comm_tag();
        assert(s[j] == s.drop_last()[j]);
    } else {
        assert(s[s.len() - 1].tag == comm_tag());
    }
}

/// The chunk `c` at `pos`, after the chunks `seen`, is the next one of the
/// walk of `b`.
pub open spec fn at_chunk(b: Seq<u8>, o: Options, seen: Seq<Chunk>, c: Chunk) -> bool {
    chunks(b, o) matches Some(cs) ==> exists|rest: Seq<Chunk>| cs == seen + seq![c] + rest
}

/// Rejecting the chunk `c` that follows `seen` for `bad` rejects the input.
proof fn lemma_chunk_refused(b: Seq<u8>, o: Options, seen: Seq<Chunk>, c: Chunk, all: Option<Seq<Chunk>>, pos: int, end: int)
    requires
        chunks(b, o) == all,
        pos < end,
        end - pos >= 8,
        c == (Chunk { tag: b.subrange(pos, pos + 4), payload: pos + 8, size: be32(b, pos + 4) }),
        pos + 8 + c.size + c.size % 2 <= end,
        match walk(b, pos, end) {
            Some(rest) => all == Some(seen + rest),
            None => all is None,
        },
        forall|i: int| 0 <= i < seen.len() ==> #[trigger] seen[i].size >= 0,
        c.tag == comm_tag() && (comm_of(seen) is Some || !comm_ok(b, c))
            || c.tag == ssnd_tag() && !ssnd_ok(b, c)
            || mapped_id(c.tag) is Some && text_count(seen) + 1 > u32::MAX
            || mapped_id(c.tag) is Some && o.metadata == MetadataPolicy::CommonText && mapped_size(seen) + c.size
                > o.max_metadata_bytes,
    ensures
        !inspect_ok(b, o),
{
    lemma_walk_step(b, pos, end);
    if inspect_ok(b, o) {
        let cs = all->0;
        let rest = walk(b, pos + 8 + c.size + c.size % 2, end)->0;
        assert(cs == seen + (seq![c] + rest));
        let k = seen.len() as int;
        assert(cs[k] == c);
        assert forall|i: int| 0 <= i < k implies cs[i] == seen[i] by {}
        if c.tag == comm_tag() && comm_of(seen) is Some {
            lemma_comm_of_index(seen);
            let j = choose|j: int| 0 <= j < seen.len() && #[trigger] seen[j].tag == comm_tag();
            assert(cs[j] == seen[j]);
            assert(false);
        }
        if c.tag == comm_tag() {
            assert(cs[k].tag == comm_tag());
            assert(comm_ok(b, cs[k]));
        }
        if c.tag == ssnd_tag() {
            assert(cs[k].tag == ssnd_tag());
            assert(ssnd_ok(b, cs[k]));
        }
        lemma_counts_concat(seen, seq![c] + rest);
        lemma_counts_concat(seq![c], rest);
        assert((seq![c]).drop_last() =~= Seq::<Chunk>::empty());
        lemma_walk_sizes(b, pos + 8 + c.size + c.size % 2, end);
        lemma_counts_nonneg(rest);
        assert(seq![c].last() == c);
        assert(seq![c].drop_last() =~= Seq::<Chunk>::empty());
        assert(text_count(Seq::<Chunk>::empty()) == 0);
        assert(mapped_size(Seq::<Chunk>::empty()) == 0);
        assert(text_count(seq![c]) == (if mapped_id(c.tag) is Some { 1int } else { 0int }));
        assert(mapped_size(seq![c]) == (if mapped_id(c.tag) is Some { c.size } else { 0 }));
        assert(text_count(cs) == text_count(seen) + text_count(seq![c]) + text_count(rest));
        assert(mapped_size(cs) == mapped_size(seen) + mapped_size(seq![c]) + mapped_size(rest));
    }
}

/// Which text tag, if any, the four bytes at `pos` hold, as its INFO id.
fn mapped_info_id(input: &[u8], pos: usize) -> (r: Option<[u8; 4]>)
    requires
        pos + 4 <= input.len(),
    ensures
        r is Some <==> mapped_id(input@.subrange(pos as int, pos + 4)) is Some,
        r matches Some(id) ==> id@ == mapped_id(input@.subrange(pos as int, pos + 4))->0,
{
    let ghost t = input@.subrange(pos as int, pos + 4);
    assert([0x4eu8, 0x41, 0x4d, 0x45]@ =~= seq![0x4eu8, 0x41, 0x4d, 0x45]);
    assert([0x41u8, 0x55, 0x54, 0x48]@ =~= seq![0x41u8, 0x55, 0x54, 0x48]);
    assert([0x41u8, 0x4e, 0x4e, 0x4f]@ =~= seq![0x41u8, 0x4e, 0x4e, 0x4f]);
    assert([0x28u8, 0x63, 0x29, 0x20]@ =~= seq![0x28u8, 0x63, 0x29, 0x20]);
    assert([0x49u8, 0x4e, 0x41, 0x4d]@ =~= seq![0x49u8, 0x4e, 0x41, 0x4d]);
    assert([0x49u8, 0x41, 0x52, 0x54]@ =~= seq![0x49u8, 0x41, 0x52, 0x54]);
    assert([0x49u8, 0x43, 0x4d, 0x54]@ =~= seq![0x49u8, 0x43, 0x4d, 0x54]);
    assert([0x49u8, 0x43, 0x4f, 0x50]@ =~= seq![0x49u8, 0x43, 0x4f, 0x50]);
    if tag_at(input, pos, [0x4eu8, 0x41, 0x4d, 0x45]) {
        Some([0x49u8, 0x4e, 0x41, 0x4d])
    } else if tag_at(input, pos, [0x41u8, 0x55, 0x54, 0x48]) {
        Some([0x49u8, 0x41, 0x52, 0x54])
    } else if tag_at(input, pos, [0x41u8, 0x4e, 0x4e, 0x4f]) {
        Some([0x49u8, 0x43, 0x4d, 0x54])
    } else if tag_at(input, pos, [0x28u8, 0x63, 0x29, 0x20]) {
        Some([0x49u8, 0x43, 0x4f, 0x50])
    } else {
        None
    }
}

/// The payload bytes with trailing zeros removed.
fn trimmed(input: &[u8], start: usize, len: usize) -> (r: Vec<u8>)
    requires
        start + len <= input.len(),
    ensures
        r@ == trim_zeros(input@.subrange(start as int, start + len)),
{
    let mut data: Vec<u8> = Vec::new();
    crate::bytes::push_range(&mut data, input, start, len);
    while data.len() > 0 && data[data.len() - 1] == 0
        invariant
            trim_zeros(data@) == trim_zeros(input@.subrange(start as int, start + len)),
        decreases data.len(),
    {
        let ghost before = data@;
        data.pop();
        assert(data@ =~= before.drop_last());
    }
    data
}

#[verifier::rlimit(80)]
fn inspect(input: &[u8], options: &Options) -> (r: Result<Parsed, Error>)
    ensures
        r matches Ok(p) ==> parsed_from(input@, *options, p),
        r matches Err(e) ==> !(e is InvalidOptions),
        inspect_ok(input@, *options) <==> r is Ok,
{
    reveal(parsed_from);
    let len = input.len();
    if len < 12 {
        return Err(Error::InvalidAiff("input is not an IFF FORM"));
    }
    if !tag_at(input, 0, [0x46u8, 0x4f, 0x52, 0x4d]) {
        return Err(Error::InvalidAiff("input is not an IFF FORM"));
    }
    if tag_at(input, 8, [0x41u8, 0x49, 0x46, 0x43]) {
        assert(input@.subrange(8, 12)[3] == 0x43u8);
        assert(input@.subrange(8, 12) != seq![0x41u8, 0x49, 0x46, 0x46]);
        return Err(Error::Unsupported("AIFC input is not supported by this classic AIFF Capsule"));
    }
    if !tag_at(input, 8, [0x41u8, 0x49, 0x46, 0x46]) {
        return Err(Error::InvalidAiff("FORM type is not AIFF"));
    }
    assert([0x46u8, 0x4f, 0x52, 0x4d]@ =~= seq![0x46u8, 0x4f, 0x52, 0x4d]);
    assert([0x41u8, 0x49, 0x46, 0x46]@ =~= seq![0x41u8, 0x49, 0x46, 0x46]);
    let end = 8 + read_be32(input, 4) as u64;
    if end > len as u64 {
        return Err(Error::InvalidAiff("FORM size extends past EOF"));
    }
    if options.strict_header_consistency && end != len as u64 {
        return Err(Error::InvalidAiff("FORM size does not match physical input length"));
    }
    let end = end as usize;
    let ghost b = input@;
    let ghost all = walk(b, 12, end as int);
    assert(chunks(b, *options) == all);
    let ghost mut seen: Seq<Chunk> = Seq::empty();
    let mut common: Option<Common> = None;
    let mut sounds: Vec<(usize, usize)> = Vec::new();
    let mut metadata: Vec<([u8; 4], Vec<u8>)> = Vec::new();
    let mut metadata_found: u32 = 0;
    let mut metadata_bytes: u64 = 0;
    let mut warnings: Vec<String> = Vec::new();
    let mut unknown: u32 = 0;
    let mut pos: usize = 12;
    while pos < end
        invariant
            b == input@,
            len == input@.len(),
            end <= len,
            all == walk(b, 12, end as int),
            chunks(b, *options) == all,
            pos <= end || pos == 12,
            match walk(b, pos as int, end as int) {
                Some(rest) => all == Some(seen + rest),
                None => all is None,
            },
            forall|i: int| 0 <= i < seen.len() ==> seen[i].payload + seen[i].size <= len,
            forall|i: int| 0 <= i < seen.len() ==> #[trigger] seen[i].size >= 0,
            options.metadata == MetadataPolicy::CommonText ==> metadata_bytes == mapped_size(seen)
                && metadata_bytes <= options.max_metadata_bytes,
            scan_ok(b, seen),
            common is None ==> comm_of(seen) is None,
            common matches Some(cm) ==> comm_of(seen) matches Some(c) && c.size >= 18
                && cm.channels == be16(b, c.payload) && cm.frames == be32(b, c.payload + 2)
                && cm.bits == be16(b, c.payload + 6) && ext_decode(
                be16(b, c.payload + 8),
                crate::bytes::be64(b, c.payload + 10),
            ) == Some(cm.rate as int),
            spans_match(sounds@, sounds_of(b, seen)),
            forall|i: int| 0 <= i < sounds@.len() ==> sounds@[i].0 + sounds@[i].1 <= len,
            metadata_match(metadata@, if options.metadata == MetadataPolicy::CommonText {
                metadata_of(b, seen)
            } else {
                Seq::empty()
            }),
            metadata_found == text_count(seen),
        decreases end + 1 - pos,
    {
        if end - pos < 8 {
            return Err(Error::InvalidAiff("truncated AIFF chunk header"));
        }
        let size = read_be32(input, pos + 4) as usize;
        let payload = pos + 8;
        if size > end - payload || size % 2 > end - payload - size {
            return Err(Error::InvalidAiff("AIFF chunk extends past FORM boundary"));
        }
        let next = payload + size + size % 2;
        let ghost c = Chunk { tag: b.subrange(pos as int, pos + 4), payload: payload as int, size: size as int };
        proof {
            lemma_walk_step(b, pos as int, end as int);
        }
        let mapped = mapped_info_id(input, pos);
        assert([0x43u8, 0x4f, 0x4d, 0x4d]@ =~= comm_tag());
        assert([0x53u8, 0x53, 0x4e, 0x44]@ =~= ssnd_tag());
        let is_comm = tag_at(input, pos, [0x43u8, 0x4f, 0x4d, 0x4d]);
        let is_ssnd = tag_at(input, pos, [0x53u8, 0x53, 0x4e, 0x44]);
        proof {
            reveal_mapped_exclusive(c.tag);
        }
        if is_comm {
            if common.is_some() {
                proof { lemma_chunk_refused(b, *options, seen, c, all, pos as int, end as int); }
                return Err(Error::InvalidAiff("duplicate COMM chunk"));
            }
            if size < 18 {
                proof { lemma_chunk_refused(b, *options, seen, c, all, pos as int, end as int); }
                return Err(Error::InvalidAiff("COMM chunk is shorter than 18 bytes"));
            }
            let rate = match decode_rate(input, payload + 8) {
                Ok(v) => v,
                Err(e) => {
                    proof { lemma_chunk_refused(b, *options, seen, c, all, pos as int, end as int); }
                    return Err(
                        match e {
                            crate::extended::RateError::NotExtended => Error::InvalidAiff(
                                "sample rate is not an 80-bit extended value",
                            ),
                            crate::extended::RateError::Negative => Error::Unsupported(
                                "negative AIFF sample rate",
                            ),
                            crate::extended::RateError::NonFinite => Error::Unsupported(
                                "non-finite, denormal or zero AIFF sample rate",
                            ),
                            crate::extended::RateError::NoIntegerBit => Error::InvalidAiff(
                                "AIFF extended sample rate has no integer bit",
                            ),
                            crate::extended::RateError::OutOfRange => Error::Unsupported(
                                "AIFF sample rate is outside the WAVE integer range",
                            ),
                        },
                    );
                }
            };
            assert(comm_ok(b, c));
            common = Some(
                Common {
                    channels: read_be16(input, payload),
                    frames: read_be32(input, payload + 2),
                    bits: read_be16(input, payload + 6),
                    rate,
                },
            );
        } else if is_ssnd {
            if size < 8 {
                proof { lemma_chunk_refused(b, *options, seen, c, all, pos as int, end as int); }
                return Err(Error::InvalidAiff("SSND chunk is shorter than offset and block size"));
            }
            let offset = read_be32(input, payload) as usize;
            let block_size = read_be32(input, payload + 4);
            if offset > size - 8 {
                proof { lemma_chunk_refused(b, *options, seen, c, all, pos as int, end as int); }
                return Err(Error::InvalidAiff("SSND offset exceeds chunk payload"));
            }
            if block_size != 0 {
                warnings.push(
                    text::message("SSND blockSize ", block_size as u64, " is informational and was normalized"),
                );
            }
            assert(ssnd_ok(b, c));
            sounds.push((payload + 8 + offset, size - 8 - offset));
        } else if let Some(id) = mapped {
            metadata_found = match metadata_found.checked_add(1) {
                Some(v) => v,
                None => {
                    proof { lemma_chunk_refused(b, *options, seen, c, all, pos as int, end as int); }
                    return Err(Error::ArithmeticOverflow);
                },
            };
            if options.metadata == MetadataPolicy::CommonText {
                metadata_bytes = match metadata_bytes.checked_add(size as u64) {
                    Some(v) => v,
                    None => {
                        proof { lemma_chunk_refused(b, *options, seen, c, all, pos as int, end as int); }
                        return Err(Error::ArithmeticOverflow);
                    },
                };
                if metadata_bytes > options.max_metadata_bytes {
                    proof { lemma_chunk_refused(b, *options, seen, c, all, pos as int, end as int); }
                    return Err(
                        Error::MetadataLimitExceeded {
                            bytes: metadata_bytes,
                            limit: options.max_metadata_bytes,
                        },
                    );
                }
                let data = trimmed(input, payload, size);
                metadata.push((id, data));
            }
        } else {
            unknown = if unknown < 0xffff_ffff {
                unknown + 1
            } else {
                unknown
            };
        }
        proof {
            let old_seen = seen;
            lemma_scan_push(b, old_seen, c);
            seen = seen.push(c);
            assert(seen.drop_last() =~= old_seen);
            assert(seen.last() == c);
            match walk(b, next as int, end as int) {
                Some(rest) => {
                    assert(seen + rest =~= old_seen + (seq![c] + rest));
                }
                None => {}
            }
        }
        pos = next;
    }
    proof {
        assert(walk(b, pos as int, end as int) == Some(Seq::<Chunk>::empty()));
        assert(seen + Seq::<Chunk>::empty() =~= seen);
    }
    let common = match common {
        Some(c) => c,
        None => return Err(Error::InvalidAiff("missing COMM chunk")),
    };
    if common.channels == 0 || common.channels > options.max_channels {
        return Err(Error::Unsupported("AIFF channel count is unsupported"));
    }
    if common.bits < 1 || common.bits > 32 {
        return Err(Error::Unsupported("AIFF sample size must be between 1 and 32 bits"));
    }
    if sounds.len() == 0 {
        return Err(Error::InvalidAiff("missing SSND chunk"));
    }
    let ghost spans = sounds_of(b, seen);
    let mut audio_bytes: u64 = 0;
    let mut i: usize = 0;
    while i < sounds.len()
        invariant
            i <= sounds@.len(),
            spans_match(sounds@, spans),
            inspect_ok(b, *options) ==> sum_sizes(spans) <= u64::MAX,
            b == input@,
            audio_bytes == sum_sizes(spans.subrange(0, i as int)),
        decreases sounds@.len() - i,
    {
        audio_bytes = match audio_bytes.checked_add(sounds[i].1 as u64) {
            Some(v) => v,
            None => {
                proof {
                    assert(spans.subrange(0, i + 1).drop_last() =~= spans.subrange(0, i as int));
                    assert(spans.subrange(0, i + 1).last() == spans[i as int]);
                    assert(spans[i as int].1 == sounds@[i as int].1);
                    lemma_sum_prefix(spans, i + 1);
                }
                return Err(Error::ArithmeticOverflow);
            },
        };
        assert(spans.subrange(0, i + 1).drop_last() =~= spans.subrange(0, i as int));
        i = i + 1;
    }
    assert(spans.subrange(0, i as int) =~= spans);
    if unknown != 0 {
        warnings.push(
            text::message("", unknown as u64, " unrecognized AIFF chunks were not mapped to WAVE"),
        );
    }
    Ok(
        Parsed {
            input_bytes: len as u64,
            common,
            sounds,
            audio_bytes,
            metadata,
            metadata_found,
            warnings,
        },
    )
}

proof fn reveal_mapped_exclusive(t: Seq<u8>)
    ensures
        t == comm_tag() ==> mapped_id(t) is None && t != ssnd_tag(),
        t == ssnd_tag() ==> mapped_id(t) is None,
{
    if t == comm_tag() {
        assert(t[0] == 0x43u8);
        assert(t != ssnd_tag()) by {
            assert(ssnd_tag()[0] == 0x53u8);
        }
    }
    if t == ssnd_tag() {
        assert(t[0] == 0x53u8);
    }
}

/// Bytes per stored sample for `bits` significant bits.
pub open spec fn sample_width(bits: int) -> int {
    (bits + 7) / 8
}

/// Big-endian signed AIFF samples to WAVE layout: reverse multi-byte samples,
/// flip the sign of 8-bit samples.
pub open spec fn sample_rewrite(w: int) -> SampleRewrite {
    SampleRewrite {
        width: w as usize,
        reverse: w > 1,
        flip: if w == 1 {
            0
        } else {
            w as usize
        },
        keep: w as usize,
    }
}

/// The rewritten audio of the sample spans `spans` of `b`, in order.
pub open spec fn audio_of(b: Seq<u8>, spans: Seq<(int, int)>, r: SampleRewrite) -> Seq<u8>
    decreases spans.len(),
{
    if spans.len() == 0 {
        Seq::empty()
    } else {
        audio_of(b, spans.drop_last(), r) + r.map_all(
            b.subrange(spans.last().0, spans.last().0 + spans.last().1),
        )
    }
}

pub open spec fn pad(n: int) -> Seq<u8> {
    if n % 2 == 1 {
        seq![0u8]
    } else {
        Seq::empty()
    }
}

/// One INFO entry: id, size (text plus terminator), text, terminator, pad.
pub open spec fn info_entry(item: (Seq<u8>, Seq<u8>)) -> Seq<u8> {
    item.0 + le32_bytes(item.1.len() + 1int) + item.1 + seq![0u8] + pad(item.1.len() + 1int)
}

pub open spec fn info_items(m: Seq<(Seq<u8>, Seq<u8>)>) -> Seq<u8>
    decreases m.len(),
{
    if m.len() == 0 {
        Seq::empty()
    } else {
        info_items(m.drop_last()) + info_entry(m.last())
    }
}

/// The LIST payload: `INFO` and the entries, or nothing without metadata.
pub open spec fn info_list(m: Seq<(Seq<u8>, Seq<u8>)>) -> Seq<u8> {
    if m.len() == 0 {
        Seq::empty()
    } else {
        seq![0x49u8, 0x4e, 0x46, 0x4f] + info_items(m)
    }
}

pub open spec fn list_chunk(list: Seq<u8>) -> Seq<u8> {
    if list.len() == 0 {
        Seq::empty()
    } else {
        seq![0x4cu8, 0x49, 0x53, 0x54] + le32_bytes(list.len() as int) + list + pad(
            list.len() as int,
        )
    }
}

pub open spec fn pcm_guid() -> Seq<u8> {
    seq![
        0x01u8,
        0x00,
        0x00,
        0x00,
        0x00,
        0x00,
        0x10,
        0x00,
        0x80,
        0x00,
        0x00,
        0xaa,
        0x00,
        0x38,
        0x9b,
        0x71,
    ]
}

/// The `fmt ` chunk: plain PCM when the sample bits fill the container,
/// WAVE_FORMAT_EXTENSIBLE with valid bits otherwise.
pub open spec fn fmt_chunk(channels: int, rate: int, bits: int) -> Seq<u8> {
    let w = sample_width(bits);
    let block = channels * w;
    let ext = bits != w * 8;
    seq![0x66u8, 0x6d, 0x74, 0x20] + le32_bytes(
        if ext {
            40
        } else {
            16
        },
    ) + le16_bytes(
        if ext {
            0xfffe
        } else {
            1
        },
    ) + le16_bytes(channels) + le32_bytes(rate) + le32_bytes(rate * block) + le16_bytes(block)
        + le16_bytes(w * 8) + if ext {
        le16_bytes(22) + le16_bytes(bits) + le32_bytes(0) + pcm_guid()
    } else {
        Seq::empty()
    }
}

/// The RIFF/WAVE file for the given stream description.
pub open spec fn wave_file(
    b: Seq<u8>,
    channels: int,
    rate: int,
    bits: int,
    spans: Seq<(int, int)>,
    meta: Seq<(Seq<u8>, Seq<u8>)>,
) -> Seq<u8> {
    let fmt = fmt_chunk(channels, rate, bits);
    let list = list_chunk(info_list(meta));
    let audio = sum_sizes(spans);
    let riff = 4 + fmt.len() + list.len() + 8 + audio + audio % 2;
    seq![0x52u8, 0x49, 0x46, 0x46] + le32_bytes(riff) + seq![0x57u8, 0x41, 0x56, 0x45] + fmt
        + list + seq![0x64u8, 0x61, 0x74, 0x61] + le32_bytes(audio) + audio_of(
        b,
        spans,
        sample_rewrite(sample_width(bits)),
    ) + pad(audio)
}

/// The text metadata that the options carry over.
pub open spec fn kept_metadata(b: Seq<u8>, cs: Seq<Chunk>, o: Options) -> Seq<(Seq<u8>, Seq<u8>)> {
    if o.metadata == MetadataPolicy::CommonText {
        metadata_of(b, cs)
    } else {
        Seq::empty()
    }
}

/// The decoded COMM fields of an accepted input.
pub open spec fn comm_channels(b: Seq<u8>, o: Options) -> int {
    be16(b, comm_of(chunks(b, o)->0)->0.payload)
}

pub open spec fn comm_frames(b: Seq<u8>, o: Options) -> int {
    be32(b, comm_of(chunks(b, o)->0)->0.payload + 2)
}

pub open spec fn comm_bits(b: Seq<u8>, o: Options) -> int {
    be16(b, comm_of(chunks(b, o)->0)->0.payload + 6)
}

pub open spec fn comm_rate(b: Seq<u8>, o: Options) -> int {
    let c = comm_of(chunks(b, o)->0)->0;
    ext_decode(be16(b, c.payload + 8), crate::bytes::be64(b, c.payload + 10))->0
}

pub open spec fn spans(b: Seq<u8>, o: Options) -> Seq<(int, int)> {
    sounds_of(b, chunks(b, o)->0)
}

/// The WAVE file that an accepted AIFF input `b` becomes.
pub open spec fn wave_output(b: Seq<u8>, o: Options) -> Seq<u8> {
    wave_file(
        b,
        comm_channels(b, o),
        comm_rate(b, o),
        comm_bits(b, o),
        spans(b, o),
        kept_metadata(b, chunks(b, o)->0, o),
    )
}

pub open spec fn block_align(b: Seq<u8>, o: Options) -> int {
    comm_channels(b, o) * sample_width(comm_bits(b, o))
}

/// What every successful conversion of `b` has checked.
pub open spec fn converted(b: Seq<u8>, o: Options) -> bool {
    let audio = sum_sizes(spans(b, o));
    &&& chunks(b, o) matches Some(cs)
    &&& comm_of(cs) matches Some(c)
    &&& c.size >= 18
    &&& ext_decode(be16(b, c.payload + 8), crate::bytes::be64(b, c.payload + 10)) is Some
    &&& 1 <= comm_channels(b, o) <= o.max_channels
    &&& 1 <= comm_bits(b, o) <= 32
    &&& spans(b, o).len() > 0
    &&& forall|i: int|
        0 <= i < spans(b, o).len() ==> #[trigger] spans(b, o)[i].1 % block_align(b, o) == 0
    &&& (o.strict_header_consistency ==> audio / block_align(b, o) == comm_frames(b, o))
    &&& audio <= u32::MAX
}

proof fn lemma_sum_aligned(s: Seq<(int, int)>, d: int)
    requires
        d > 0,
        forall|i: int| 0 <= i < s.len() ==> #[trigger] s[i].1 % d == 0 && s[i].1 >= 0,
    ensures
        sum_sizes(s) % d == 0,
        sum_sizes(s) >= 0,
    decreases s.len(),
{
    if s.len() > 0 {
        let t = s.drop_last();
        assert forall|i: int| 0 <= i < t.len() implies #[trigger] t[i].1 % d == 0 && t[i].1 >= 0 by {
            assert(t[i] == s[i]);
        }
        lemma_sum_aligned(t, d);
        assert(s.last() == s[s.len() - 1]);
        vstd::arithmetic::div_mod::lemma_mod_adds(sum_sizes(t), s.last().1, d);
    }
}

/// Appends one INFO entry for `id` and `data`.
fn push_info(list: &mut Vec<u8>, id: [u8; 4], data: &Vec<u8>) -> (r: Result<(), Error>)
    ensures
        r is Ok <==> data@.len() + 1 <= u32::MAX,
        r matches Err(e) ==> e is ContainerTooLarge,
        r is Ok ==> final(list)@ == old(list)@ + info_entry((id@, data@)),
        r is Err ==> final(list)@ == old(list)@,
{
    if data.len() >= 0xffff_ffff {
        return Err(Error::ContainerTooLarge);
    }
    let size = data.len() + 1;
    list.extend_from_slice(&id);
    push_le32(list, size as u32);
    crate::bytes::push_range(list, data.as_slice(), 0, data.len());
    list.push(0u8);
    if size % 2 != 0 {
        list.push(0u8);
    }
    assert(data@.subrange(0, data@.len() as int) =~= data@);
    assert(list@ =~= old(list)@ + info_entry((id@, data@)));
    Ok(())
}

/// Builds the LIST/INFO payload for the mapped metadata.
fn build_list(metadata: &Vec<([u8; 4], Vec<u8>)>) -> (r: Result<Vec<u8>, Error>)
    ensures
        r matches Ok(list) ==> forall|m: Seq<(Seq<u8>, Seq<u8>)>|
            metadata_match(metadata@, m) ==> list@ == info_list(m),
        r is Ok <==> forall|i: int|
            0 <= i < metadata@.len() ==> #[trigger] metadata@[i].1@.len() + 1 <= u32::MAX,
        r matches Err(e) ==> e is ContainerTooLarge,
{
    let mut list: Vec<u8> = Vec::new();
    if metadata.len() == 0 {
        proof {
            assert forall|m: Seq<(Seq<u8>, Seq<u8>)>| metadata_match(metadata@, m) implies list@
                == info_list(m) by {
                assert(list@ =~= info_list(m));
            }
        }
        return Ok(list);
    }
    list.extend_from_slice(&[0x49u8, 0x4e, 0x46, 0x4f]);
    let ghost head = list@;
    let mut i: usize = 0;
    while i < metadata.len()
        invariant
            i <= metadata@.len(),
            metadata@.len() > 0,
            head == seq![0x49u8, 0x4e, 0x46, 0x4f],
            forall|j: int| 0 <= j < i ==> #[trigger] metadata@[j].1@.len() + 1 <= u32::MAX,
            forall|m: Seq<(Seq<u8>, Seq<u8>)>|
                metadata_match(metadata@, m) ==> list@ == head + info_items(
                    m.subrange(0, i as int),
                ),
        decreases metadata@.len() - i,
    {
        let ghost before = list@;
        let item = &metadata[i];
        match push_info(&mut list, item.0, &item.1) {
            Ok(()) => {},
            Err(e) => return Err(e),
        }
        proof {
            assert forall|m: Seq<(Seq<u8>, Seq<u8>)>| metadata_match(metadata@, m) implies list@
                == head + info_items(m.subrange(0, i + 1)) by {
                assert(m.subrange(0, i + 1).drop_last() =~= m.subrange(0, i as int));
                assert(m.subrange(0, i + 1).last() == m[i as int]);
                assert(m[i as int] == (metadata@[i as int].0@, metadata@[i as int].1@));
            }
        }
        i = i + 1;
    }
    proof {
        assert forall|m: Seq<(Seq<u8>, Seq<u8>)>| metadata_match(metadata@, m) implies list@
            == info_list(m) by {
            assert(m.subrange(0, i as int) =~= m);
        }
    }
    Ok(list)
}

/// Appends the rewritten audio of `sounds[..n]`.
fn emit_sounds(out: &mut Vec<u8>, input: &[u8], sounds: &Vec<(usize, usize)>, block: usize, channels: usize, r: SampleRewrite)
    requires
        r.wf(),
        channels >= 1,
        block == channels * r.width,
        forall|i: int| 0 <= i < sounds@.len() ==> #[trigger] sounds@[i].0 + sounds@[i].1 <= input@.len(),
        forall|i: int| 0 <= i < sounds@.len() ==> #[trigger] sounds@[i].1 % block == 0,
    ensures
        forall|s: Seq<(int, int)>|
            spans_match(sounds@, s) ==> final(out)@ == old(out)@ + audio_of(input@, s, r),
{
    let mut i: usize = 0;
    while i < sounds.len()
        invariant
            r.wf(),
            channels >= 1,
            block == channels * r.width,
            i <= sounds@.len(),
            forall|i: int| 0 <= i < sounds@.len() ==> #[trigger] sounds@[i].0 + sounds@[i].1 <= input@.len(),
            forall|i: int| 0 <= i < sounds@.len() ==> #[trigger] sounds@[i].1 % block == 0,
            forall|s: Seq<(int, int)>|
                spans_match(sounds@, s) ==> out@ == old(out)@ + audio_of(input@, s.subrange(0, i as int), r),
        decreases sounds@.len() - i,
    {
        let (offset, size) = sounds[i];
        assert(sounds@[i as int].1 % block == 0);
        proof {
            crate::arith::lemma_multiple_of_factor(size as int, channels as int, r.width as int);
        }
        let count = size / r.width;
        crate::pcm::push_samples(out, input, offset, count, r);
        assert(input@.subrange(offset as int, offset + size).len() / r.width as nat == count);
        proof {
            assert forall|s: Seq<(int, int)>| spans_match(sounds@, s) implies out@ == old(out)@
                + audio_of(input@, s.subrange(0, i + 1), r) by {
                assert(s.subrange(0, i + 1).drop_last() =~= s.subrange(0, i as int));
                assert(s.subrange(0, i + 1).last() == s[i as int]);
            }
        }
        i = i + 1;
    }
    proof {
        assert forall|s: Seq<(int, int)>| spans_match(sounds@, s) implies out@ == old(out)@
            + audio_of(input@, s, r) by {
            assert(s.subrange(0, i as int) =~= s);
        }
    }
}

/// Appends the `fmt ` chunk.
fn push_fmt(out: &mut Vec<u8>, channels: u16, rate: u32, bits: u16, byte_rate: u32)
    requires
        1 <= bits <= 32,
        byte_rate == rate * (channels * sample_width(bits as int)),
    ensures
        final(out)@ == old(out)@ + fmt_chunk(channels as int, rate as int, bits as int),
{
    let sample_bytes: u16 = (bits + 7) / 8;
    let container_bits: u16 = sample_bytes * 8;
    let extensible = bits != container_bits;
    assert(channels as int * sample_bytes as int <= 65535 * 4) by (nonlinear_arith)
        requires
            sample_bytes <= 4,
    ;
    let block: u32 = channels as u32 * sample_bytes as u32;
    out.extend_from_slice(&[0x66u8, 0x6d, 0x74, 0x20]);
    push_le32(out, if extensible { 40 } else { 16 });
    push_le16(out, if extensible { 0xfffe } else { 1 });
    push_le16(out, channels);
    push_le32(out, rate);
    push_le32(out, byte_rate);
    out.push((block % 256) as u8);
    out.push((block / 256 % 256) as u8);
    push_le16(out, container_bits);
    if extensible {
        push_le16(out, 22);
        push_le16(out, bits);
        push_le32(out, 0);
        out.extend_from_slice(&PCM_GUID);
    }
    assert(PCM_GUID@ =~= pcm_guid());
    assert(out@ =~= old(out)@ + fmt_chunk(channels as int, rate as int, bits as int));
}

/// Appends the LIST chunk holding `list`, if `list` is not empty.
fn push_list(out: &mut Vec<u8>, list: &Vec<u8>)
    requires
        list@.len() <= u32::MAX,
    ensures
        final(out)@ == old(out)@ + list_chunk(list@),
{
    if list.len() != 0 {
        out.extend_from_slice(&[0x4cu8, 0x49, 0x53, 0x54]);
        push_le32(out, list.len() as u32);
        crate::bytes::push_range(out, list.as_slice(), 0, list.len());
        if list.len() % 2 != 0 {
            out.push(0u8);
        }
    }
    assert(list@.subrange(0, list@.len() as int) =~= list@);
    assert(out@ =~= old(out)@ + list_chunk(list@));
}

/// The RIFF size field of the WAVE file for the given stream description.
pub open spec fn riff_of(channels: int, rate: int, bits: int, sp: Seq<(int, int)>, meta: Seq<(Seq<u8>, Seq<u8>)>) -> int {
    let audio = sum_sizes(sp);
    4 + fmt_chunk(channels, rate, bits).len() + list_chunk(info_list(meta)).len() + 8 + audio
        + audio % 2
}

/// The stream description fits a classic WAVE file: whole frames, a 32-bit
/// RIFF size, 32-bit text entries and a 32-bit byte rate.
pub open spec fn render_ok(channels: int, rate: int, bits: int, frames: int, strict: bool, sp: Seq<(int, int)>, meta: Seq<(Seq<u8>, Seq<u8>)>) -> bool {
    let block = channels * sample_width(bits);
    let audio = sum_sizes(sp);
    &&& forall|i: int| 0 <= i < sp.len() ==> #[trigger] sp[i].1 % block == 0
    &&& (strict ==> audio / block == frames)
    &&& audio <= u32::MAX
    &&& forall|i: int| 0 <= i < meta.len() ==> #[trigger] meta[i].1.len() + 1 <= u32::MAX
    &&& info_list(meta).len() <= u32::MAX
    &&& riff_of(channels, rate, bits, sp, meta) <= u32::MAX
    &&& rate * block <= u32::MAX
}

#[verifier::rlimit(100)]
/// Lays out the WAVE file for a parsed stream; `Ok` carries the file, the
/// frame count and the LIST payload length.
fn render(
    input: &[u8],
    sounds: &Vec<(usize, usize)>,
    metadata: &Vec<([u8; 4], Vec<u8>)>,
    common: &Common,
    audio_bytes: u64,
    strict: bool,
    Ghost(sp): Ghost<Seq<(int, int)>>,
    Ghost(meta): Ghost<Seq<(Seq<u8>, Seq<u8>)>>,
) -> (r: Result<(Vec<u8>, u64, u64), Error>)
    requires
        spans_match(sounds@, sp),
        metadata_match(metadata@, meta),
        audio_bytes == sum_sizes(sp),
        1 <= common.channels,
        1 <= common.bits <= 32,
        forall|i: int| 0 <= i < sounds@.len() ==> sounds@[i].0 + sounds@[i].1 <= input@.len(),
    ensures
        r matches Ok((out, frames, list_len)) ==> {
            let block = common.channels * sample_width(common.bits as int);
            &&& out@ == wave_file(
                input@,
                common.channels as int,
                common.rate as int,
                common.bits as int,
                sp,
                meta,
            )
            &&& forall|i: int| 0 <= i < sp.len() ==> #[trigger] sp[i].1 % block == 0
            &&& frames == audio_bytes as int / block
            &&& (strict ==> frames == common.frames)
            &&& audio_bytes <= u32::MAX
            &&& list_len == info_list(meta).len()
            &&& block >= 1
        },
        r matches Err(e) ==> !(e is InvalidOptions),
        render_ok(common.channels as int, common.rate as int, common.bits as int, common.frames as int, strict, sp, meta) <==> r is Ok,
{
    let bits = common.bits;
    let channels = common.channels;
    let sample_bytes: usize = (bits as usize + 7) / 8;
    assert(channels as int * sample_bytes as int <= 65535 * 4) by (nonlinear_arith)
        requires
            sample_bytes <= 4,
    ;
    assert(channels as int * sample_bytes as int >= 1) by (nonlinear_arith)
        requires
            sample_bytes >= 1,
            channels >= 1,
    ;
    let block_align: usize = channels as usize * sample_bytes;
    let mut i: usize = 0;
    while i < sounds.len()
        invariant
            i <= sounds@.len(),
            block_align >= 1,
            spans_match(sounds@, sp),
            block_align as int == common.channels * sample_width(common.bits as int),
            forall|j: int| 0 <= j < i ==> #[trigger] sounds@[j].1 % block_align == 0,
        decreases sounds@.len() - i,
    {
        if sounds[i].1 % block_align != 0 {
            assert(sp[i as int].1 % (block_align as int) != 0);
            return Err(Error::InvalidAiff("SSND audio is not aligned to complete PCM frames"));
        }
        i = i + 1;
    }
    proof {
        assert forall|j: int| 0 <= j < sp.len() implies #[trigger] sp[j].1 % (block_align as int)
            == 0 && sp[j].1 >= 0 by {
            assert(sounds@[j].1 % block_align == 0);
        }
        lemma_sum_aligned(sp, block_align as int);
    }
    let actual_frames = audio_bytes / block_align as u64;
    if strict && actual_frames != common.frames as u64 {
        return Err(Error::InvalidAiff("COMM frame count does not match complete SSND audio frames"));
    }
    if audio_bytes > 0xffff_ffff {
        return Err(Error::ContainerTooLarge);
    }
    let extensible = bits as usize != sample_bytes * 8;
    let fmt_size: u64 = if extensible {
        40
    } else {
        16
    };
    let list = match build_list(metadata) {
        Ok(l) => l,
        Err(e) => {
            proof {
                let k = choose|k: int| 0 <= k < metadata@.len() && !(#[trigger] metadata@[k].1@.len() + 1 <= u32::MAX);
                assert(meta[k].1 == metadata@[k].1@);
            }
            return Err(e);
        },
    };
    let list_len = list.len() as u64;
    let list_total: u64 = if list_len == 0 {
        0
    } else if list_len > 0xffff_ffff {
        return Err(Error::ContainerTooLarge);
    } else {
        8 + list_len + list_len % 2
    };
    let riff_size: u64 = 12 + fmt_size + list_total + 8 + audio_bytes + audio_bytes % 2;
    if riff_size > 0xffff_ffff {
        return Err(Error::ContainerTooLarge);
    }
    let byte_rate = match common.rate.checked_mul(block_align as u32) {
        Some(v) => v,
        None => return Err(Error::ArithmeticOverflow),
    };
    let mut out: Vec<u8> = Vec::new();
    out.extend_from_slice(&[0x52u8, 0x49, 0x46, 0x46]);
    push_le32(&mut out, riff_size as u32);
    out.extend_from_slice(&[0x57u8, 0x41, 0x56, 0x45]);
    let ghost after_riff = out@;
    push_fmt(&mut out, channels, common.rate, bits, byte_rate);
    let ghost after_fmt = out@;
    push_list(&mut out, &list);
    let ghost after_list = out@;
    out.extend_from_slice(&[0x64u8, 0x61, 0x74, 0x61]);
    push_le32(&mut out, audio_bytes as u32);
    let ghost after_data_header = out@;
    let r = SampleRewrite {
        width: sample_bytes,
        reverse: sample_bytes > 1,
        flip: if sample_bytes == 1 {
            0
        } else {
            sample_bytes
        },
        keep: sample_bytes,
    };
    emit_sounds(&mut out, input, sounds, block_align, channels as usize, r);
    if audio_bytes % 2 != 0 {
        out.push(0u8);
    }
    proof {
        assert(list@ == info_list(meta));
        assert(block_align as int == common.channels * sample_width(bits as int));
        assert(fmt_chunk(channels as int, common.rate as int, bits as int).len() == 8 + fmt_size);
        assert(list_chunk(list@).len() == list_total);
        assert(after_riff =~= seq![0x52u8, 0x49, 0x46, 0x46] + le32_bytes(riff_size as int)
            + seq![0x57u8, 0x41, 0x56, 0x45]);
        assert(r == sample_rewrite(sample_width(bits as int)));
        assert(out@ =~= wave_file(input@, channels as int, common.rate as int, bits as int, sp, meta));
    }
    Ok((out, actual_frames, list_len))
}

/// The parse facts that rendering needs.
proof fn lemma_parsed_facts(b: Seq<u8>, o: Options, p: Parsed)
    requires
        parsed_from(b, o, p),
    ensures
        ({
            let cs = chunks(b, o)->0;
            let sp = sounds_of(b, cs);
            &&& spans_match(p.sounds@, sp)
            &&& metadata_match(p.metadata@, kept_metadata(b, cs, o))
            &&& p.audio_bytes == sum_sizes(sp)
            &&& 1 <= p.common.channels
            &&& 1 <= p.common.bits <= 32
            &&& forall|i: int| 0 <= i < p.sounds@.len() ==> p.sounds@[i].0 + p.sounds@[i].1 <= b.len()
            &&& p.input_bytes == b.len()
        }),
{
    reveal(parsed_from);
}

/// Ties a rendered parse back to the input's spec-level description.
proof fn lemma_outcome(b: Seq<u8>, o: Options, p: Parsed, out: Seq<u8>, frames: int)
    requires
        parsed_from(b, o, p),
        ({
            let cs = chunks(b, o)->0;
            let sp = sounds_of(b, cs);
            let block = p.common.channels * sample_width(p.common.bits as int);
            &&& out == wave_file(
                b,
                p.common.channels as int,
                p.common.rate as int,
                p.common.bits as int,
                sp,
                kept_metadata(b, cs, o),
            )
            &&& forall|i: int| 0 <= i < sp.len() ==> #[trigger] sp[i].1 % block == 0
            &&& frames == p.audio_bytes as int / block
            &&& (o.strict_header_consistency ==> frames == p.common.frames)
            &&& p.audio_bytes <= u32::MAX
        }),
    ensures
        converted(b, o),
        wave_output(b, o) == out,
        comm_channels(b, o) == p.common.channels,
        comm_rate(b, o) == p.common.rate,
        comm_bits(b, o) == p.common.bits,
        sum_sizes(spans(b, o)) == p.audio_bytes,
        block_align(b, o) == p.common.channels * sample_width(p.common.bits as int),
        spans(b, o).len() == p.sounds@.len(),
        text_count(chunks(b, o)->0) == p.metadata_found,
        kept_metadata(b, chunks(b, o)->0, o).len() == p.metadata@.len(),
        p.metadata@.len() <= p.metadata_found,
{
    reveal(parsed_from);
    lemma_metadata_count(b, chunks(b, o)->0);
}

proof fn lemma_metadata_count(b: Seq<u8>, cs: Seq<Chunk>)
    ensures
        metadata_of(b, cs).len() == text_count(cs),
    decreases cs.len(),
{
    if cs.len() > 0 {
        lemma_metadata_count(b, cs.drop_last());
    }
}

/// The inputs that convert: valid options, an accepted chunk structure and
/// a stream that fits a classic WAVE file.
pub open spec fn accepted(b: Seq<u8>, o: Options) -> bool {
    &&& 256 <= o.buffer_size <= 16777216
    &&& inspect_ok(b, o)
    &&& render_ok(
        comm_channels(b, o),
        comm_rate(b, o),
        comm_bits(b, o),
        comm_frames(b, o),
        o.strict_header_consistency,
        spans(b, o),
        kept_metadata(b, chunks(b, o)->0, o),
    )
}

proof fn lemma_common_matches(b: Seq<u8>, o: Options, p: Parsed)
    requires
        parsed_from(b, o, p),
    ensures
        p.common.channels == comm_channels(b, o),
        p.common.frames == comm_frames(b, o),
        p.common.bits == comm_bits(b, o),
        p.common.rate == comm_rate(b, o),
{
    reveal(parsed_from);
}

/// Total text bytes of the metadata entries.
pub open spec fn text_total(m: Seq<([u8; 4], Vec<u8>)>) -> int
    decreases m.len(),
{
    if m.len() == 0 {
        0
    } else {
        text_total(m.drop_last()) + m.last().1@.len()
    }
}

proof fn lemma_text_total_nonneg(m: Seq<([u8; 4], Vec<u8>)>)
    ensures
        text_total(m) >= 0,
    decreases m.len(),
{
    if m.len() > 0 {
        lemma_text_total_nonneg(m.drop_last());
    }
}

/// Total text bytes held by `metadata`, saturating.
fn text_bytes(metadata: &Vec<([u8; 4], Vec<u8>)>) -> (n: u64)
    ensures
        n == vstd::math::min(text_total(metadata@), u64::MAX as int),
{
    let mut total: u64 = 0;
    let mut k: usize = 0;
    while k < metadata.len()
        invariant
            k <= metadata@.len(),
            total == vstd::math::min(text_total(metadata@.subrange(0, k as int)), u64::MAX as int),
        decreases metadata@.len() - k,
    {
        let n = metadata[k].1.len() as u64;
        total = if total <= u64::MAX - n {
            total + n
        } else {
            u64::MAX
        };
        proof {
            assert(metadata@.subrange(0, k + 1).drop_last() =~= metadata@.subrange(0, k as int));
            lemma_text_total_nonneg(metadata@.subrange(0, k as int));
        }
        k = k + 1;
    }
    assert(metadata@.subrange(0, k as int) =~= metadata@);
    total
}

/// Convert classic AIFF integer PCM to RIFF/WAVE integer PCM.
///
/// The whole of `input` is the AIFF file. On success the WAVE file is appended
/// to `output`; on failure `output` is left unchanged.
#[verifier::rlimit(100)]
pub fn convert(input: &[u8], output: &mut Vec<u8>, options: &Options) -> (result: Result<
    Report,
    Error,
>)
    ensures
        !(256 <= options.buffer_size <= 16777216) ==> result matches Err(
            Error::InvalidOptions(_),
        ),
        result matches Err(Error::InvalidOptions(_)) ==> !(256 <= options.buffer_size
            <= 16777216),
        result is Err ==> final(output)@ == old(output)@,
        result is Ok ==> converted(input@, *options),
        accepted(input@, *options) <==> result is Ok,
        result is Ok ==> final(output)@ == old(output)@ + wave_output(input@, *options),
        result matches Ok(report) ==> {
            let b = input@;
            let o = *options;
            let audio = sum_sizes(spans(b, o));
            let bits = comm_bits(b, o);
            let w = sample_width(bits);
            &&& report.input_bytes == b.len()
            &&& report.output_bytes == wave_output(b, o).len()
            &&& report.source_audio_bytes == audio
            &&& report.output_audio_bytes == audio
            &&& report.channels == comm_channels(b, o)
            &&& report.sample_rate == comm_rate(b, o)
            &&& report.container_bits_per_sample == w * 8
            &&& report.valid_bits_per_sample == bits
            &&& report.sample_frames == audio / block_align(b, o)
            &&& report.source_sound_chunks == spans(b, o).len()
            &&& report.wave_format_extensible == (bits != w * 8)
            &&& report.metadata_chunks_found == text_count(chunks(b, o)->0)
            &&& report.metadata_chunks_preserved == kept_metadata(b, chunks(b, o)->0, o).len()
        },
{
    if options.buffer_size < 256 || options.buffer_size > 16777216 {
        return Err(Error::InvalidOptions("buffer_size must be between 256 bytes and 16 MiB"));
    }
    let p = match inspect(input, options) {
        Ok(p) => p,
        Err(e) => return Err(e),
    };
    let ghost b = input@;
    let ghost cs = chunks(b, *options)->0;
    let ghost meta = kept_metadata(b, cs, *options);
    let ghost sp = sounds_of(b, cs);
    proof {
        lemma_parsed_facts(b, *options, p);
        lemma_common_matches(b, *options, p);
    }
    let (mut out, actual_frames, list_len) = match render(
        input,
        &p.sounds,
        &p.metadata,
        &p.common,
        p.audio_bytes,
        options.strict_header_consistency,
        Ghost(sp),
        Ghost(meta),
    ) {
        Ok(v) => v,
        Err(e) => return Err(e),
    };
    proof {
        lemma_outcome(b, *options, p, out@, actual_frames as int);
    }
    let sample_bytes: usize = (p.common.bits as usize + 7) / 8;
    let container_bits: u16 = (sample_bytes * 8) as u16;
    let channels = p.common.channels;
    assert(channels as int * sample_bytes as int <= 65535 * 4) by (nonlinear_arith)
        requires
            sample_bytes <= 4,
    ;
    assert(channels as int * sample_bytes as int >= 1) by (nonlinear_arith)
        requires
            sample_bytes >= 1,
            channels >= 1,
    ;
    let block_align: usize = channels as usize * sample_bytes;
    proof {
        crate::arith::lemma_sub_mod(options.buffer_size as int, block_align as int);
    }
    let mut buffer_len = options.buffer_size - options.buffer_size % block_align;
    if buffer_len == 0 {
        buffer_len = block_align;
    }
    let mut warnings = p.warnings;
    if actual_frames != p.common.frames as u64 {
        let mut w = text::message("COMM declared ", p.common.frames as u64, " frames; emitted ");
        text::push_decimal(&mut w, actual_frames);
        warnings.push(w);
    }
    let metadata_text = text_bytes(&p.metadata);
    let kept_text = if metadata_text < options.max_metadata_bytes {
        metadata_text
    } else {
        options.max_metadata_bytes
    };
    let peak = (buffer_len as u64).saturating_add(list_len).saturating_add(kept_text);
    let output_bytes = out.len() as u64;
    let preserved = p.metadata.len() as u32;
    output.append(&mut out);
    Ok(
        Report {
            input_bytes: p.input_bytes,
            output_bytes,
            source_audio_bytes: p.audio_bytes,
            output_audio_bytes: p.audio_bytes,
            channels: p.common.channels,
            sample_rate: p.common.rate,
            container_bits_per_sample: container_bits,
            valid_bits_per_sample: p.common.bits,
            sample_frames: actual_frames,
            source_sound_chunks: p.sounds.len(),
            wave_format_extensible: p.common.bits != container_bits,
            metadata_chunks_found: p.metadata_found,
            metadata_chunks_preserved: preserved,
            peak_working_memory_bytes: peak,
            warnings,
        },
    )
}

} // verus!
