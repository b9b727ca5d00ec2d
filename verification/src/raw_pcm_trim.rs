//! Frame-level operations on raw interleaved integer PCM.
//!
//! The capsule is built for one operation (`MODE`): trimming a frame range,
//! reversing frame order, remapping channels, or normalising sample layout.
use vstd::prelude::*;
use crate::pcm::SampleRewrite;

verus! {

#[derive(Clone, Copy, Debug, PartialEq, Eq, Structural)]
pub enum Mode {
    Trim,
    Reverse,
    ChannelMap,
    Normalize,
}

/// The operation this capsule performs.
pub const MODE: Mode = Mode::Trim;

#[derive(Clone, Copy, Debug, PartialEq, Eq, Structural)]
pub enum Endianness {
    Little,
    Big,
}

#[derive(Clone, Copy, Debug, PartialEq, Eq, Structural)]
pub enum IntegerEncoding {
    Signed,
    Unsigned,
}

#[derive(Clone, Debug, PartialEq, Eq)]
pub struct Options {
    pub channels: u16,
    pub bits_per_sample: u16,
    pub input_endianness: Endianness,
    pub output_endianness: Endianness,
    pub input_encoding: IntegerEncoding,
    pub output_encoding: IntegerEncoding,
    pub start_frame: u64,
    pub frame_count: Option<u64>,
    pub channel_map: Vec<u16>,
    pub buffer_size: usize,
    pub max_channels: u16,
}

impl Default for Options {
    fn default() -> (o: Self)
        ensures
            o.channels == (if MODE == Mode::ChannelMap { 2u16 } else { 1u16 }),
            o.bits_per_sample == 16,
            o.input_endianness == Endianness::Little,
            o.output_endianness == (if MODE == Mode::Normalize {
                Endianness::Big
            } else {
                Endianness::Little
            }),
            o.input_encoding == IntegerEncoding::Signed,
            o.output_encoding == IntegerEncoding::Signed,
            o.start_frame == 0,
            o.frame_count is None,
            o.channel_map@ == (if MODE == Mode::ChannelMap { seq![1u16, 0] } else { seq![0u16] }),
            o.buffer_size == 65536,
            o.max_channels == 256,
    {
        let channel_map = if MODE == Mode::ChannelMap {
            vec![1u16, 0]
        } else {
            vec![0u16]
        };
        Options {
            channels: if MODE == Mode::ChannelMap {
                2
            } else {
                1
            },
            bits_per_sample: 16,
            input_endianness: Endianness::Little,
            output_endianness: if MODE == Mode::Normalize {
                Endianness::Big
            } else {
                Endianness::Little
            },
            input_encoding: IntegerEncoding::Signed,
            output_encoding: IntegerEncoding::Signed,
            start_frame: 0,
            frame_count: None,
            channel_map,
            buffer_size: 65536,
            max_channels: 256,
        }
    }
}

#[derive(Clone, Debug, PartialEq, Eq)]
pub struct Report {
    pub input_bytes: u64,
    pub output_bytes: u64,
    pub input_frames: u64,
    pub output_frames: u64,
    pub input_channels: u16,
    pub output_channels: u16,
    pub bits_per_sample: u16,
    pub peak_working_memory_bytes: u64,
    pub warnings: Vec<String>,
}

#[derive(Debug)]
pub enum Error {
    Invalid(&'static str),
    Overflow,
}

pub open spec fn width(o: Options) -> int {
    (o.bits_per_sample / 8) as int
}

pub open spec fn frame(o: Options) -> int {
    o.channels * width(o)
}

/// The options describe a stream and an operation this capsule can run.
pub open spec fn valid_options(o: Options) -> bool {
    &&& 1 <= o.channels <= o.max_channels
    &&& (o.bits_per_sample == 8 || o.bits_per_sample == 16 || o.bits_per_sample == 24
        || o.bits_per_sample == 32)
    &&& 256 <= o.buffer_size <= 16 * 1024 * 1024
    &&& (MODE == Mode::ChannelMap ==> {
        &&& 1 <= o.channel_map@.len() <= o.max_channels
        &&& forall|k: int| 0 <= k < o.channel_map@.len() ==> o.channel_map@[k] < o.channels
    })
}

/// The frames kept by a trim of `frames` input frames, if the range is valid.
pub open spec fn trim_range(o: Options, frames: int) -> Option<(int, int)> {
    if o.start_frame > frames {
        None
    } else {
        let available = frames - o.start_frame;
        let count = match o.frame_count {
            Some(c) => c as int,
            None => available,
        };
        if count > available {
            None
        } else {
            Some((o.start_frame as int, count))
        }
    }
}

/// Frames `k..n` of `b`, last first.
pub open spec fn reversed(b: Seq<u8>, frame: int, k: int, n: int) -> Seq<u8>
    decreases n - k,
{
    if k >= n {
        Seq::empty()
    } else {
        reversed(b, frame, k + 1, n) + b.subrange(k * frame, k * frame + frame)
    }
}

/// The channels `map` picked, in order, from the frame starting at `base`.
pub open spec fn pick(b: Seq<u8>, base: int, width: int, map: Seq<u16>) -> Seq<u8>
    decreases map.len(),
{
    if map.len() == 0 {
        Seq::empty()
    } else {
        pick(b, base, width, map.drop_last()) + b.subrange(
            base + map.last() * width,
            base + map.last() * width + width,
        )
    }
}

/// The first `n` frames of `b`, each remapped by `map`.
pub open spec fn remapped(b: Seq<u8>, frame: int, width: int, map: Seq<u16>, n: nat) -> Seq<u8>
    decreases n,
{
    if n == 0 {
        Seq::empty()
    } else {
        remapped(b, frame, width, map, (n - 1) as nat) + pick(b, (n - 1) * frame, width, map)
    }
}

/// The per-sample layout change from the input to the output convention.
pub open spec fn normalizer(o: Options) -> SampleRewrite {
    let w = width(o) as usize;
    SampleRewrite {
        width: w,
        reverse: w > 1 && o.input_endianness != o.output_endianness,
        flip: if o.input_encoding != o.output_encoding {
            if w == 1 || o.output_endianness == Endianness::Big {
                0
            } else {
                (w - 1) as usize
            }
        } else {
            w
        },
        keep: w,
    }
}

/// Why the input `b` is refused, if it is.
pub open spec fn refused(b: Seq<u8>, o: Options) -> bool {
    ||| !valid_options(o)
    ||| (b.len() as int) % frame(o) != 0
    ||| (MODE == Mode::Trim && trim_range(o, (b.len() as int) / frame(o)) is None)
}

/// The output of the operation on an accepted input.
pub open spec fn output_of(b: Seq<u8>, o: Options) -> Seq<u8> {
    let f = frame(o);
    let n = (b.len() as int) / f;
    match MODE {
        Mode::Trim => {
            let (start, count) = trim_range(o, n)->0;
            b.subrange(start * f, (start + count) * f)
        },
        Mode::Reverse => reversed(b, f, 0, n),
        Mode::ChannelMap => remapped(b, f, width(o), o.channel_map@, n as nat),
        Mode::Normalize => normalizer(o).map_all(b),
    }
}

/// The number of frames the operation emits.
pub open spec fn frames_out(b: Seq<u8>, o: Options) -> int {
    let n = (b.len() as int) / frame(o);
    if MODE == Mode::Trim {
        (trim_range(o, n)->0).1
    } else {
        n
    }
}

fn validate(options: &Options) -> (r: Result<(usize, usize), Error>)
    ensures
        r is Ok <==> valid_options(*options),
        r matches Err(e) ==> e is Invalid,
        r matches Ok((w, f)) ==> w == width(*options) && f == frame(*options) && 1 <= w <= 4
            && f >= 1 && f <= 65535 * 4,
{
    if options.channels == 0 || options.channels > options.max_channels {
        return Err(Error::Invalid("channels must be between 1 and max_channels"));
    }
    let bits = options.bits_per_sample;
    if !(bits == 8 || bits == 16 || bits == 24 || bits == 32) {
        return Err(Error::Invalid("bits_per_sample must be 8, 16, 24 or 32"));
    }
    if options.buffer_size < 256 || options.buffer_size > 16 * 1024 * 1024 {
        return Err(Error::Invalid("buffer_size must be between 256 bytes and 16 MiB"));
    }
    let width = (bits / 8) as usize;
    assert(options.channels as int * width as int <= 65535 * 4) by (nonlinear_arith)
        requires
            width <= 4,
            options.channels <= 65535,
    ;
    assert(options.channels as int * width as int >= 1) by (nonlinear_arith)
        requires
            width >= 1,
            options.channels >= 1,
    ;
    let frame = options.channels as usize * width;
    if MODE == Mode::ChannelMap {
        if options.channel_map.len() == 0 || options.channel_map.len()
            > options.max_channels as usize {
            return Err(Error::Invalid("channel_map must contain 1 through max_channels entries"));
        }
        let mut k: usize = 0;
        while k < options.channel_map.len()
            invariant
                MODE == Mode::ChannelMap,
                k <= options.channel_map@.len(),
                forall|j: int| 0 <= j < k ==> options.channel_map@[j] < options.channels,
            decreases options.channel_map@.len() - k,
        {
            if options.channel_map[k] >= options.channels {
                assert(!(options.channel_map@[k as int] < options.channels));
                return Err(Error::Invalid("channel_map references a missing input channel"));
            }
            k = k + 1;
        }
    }
    Ok((width, frame))
}

/// Copies the frames `start..start + count`.
fn trim(input: &[u8], output: &mut Vec<u8>, frame: usize, start: u64, count: u64)
    requires
        frame >= 1,
        (start + count) * frame <= input@.len(),
    ensures
        final(output)@ == old(output)@ + input@.subrange(
            start * frame as int,
            (start + count) * frame as int,
        ),
{
    let len = input.len();
    assert(start <= start * frame <= (start + count) * frame && start + count <= (start + count) * frame) by (nonlinear_arith)
        requires
            frame >= 1,
    ;
    let from = start as usize * frame;
    let to = (start + count) as usize * frame;
    crate::bytes::push_range(output, input, from, to - from);
}

/// Appends the frames `0..n` of `input`, last first.
fn reverse(input: &[u8], output: &mut Vec<u8>, frame: usize, n: usize)
    requires
        frame >= 1,
        n * frame <= input@.len(),
    ensures
        final(output)@ == old(output)@ + reversed(input@, frame as int, 0, n as int),
{
    let len = input.len();
    let mut remaining: usize = n;
    while remaining > 0
        invariant
            len == input@.len(),
            remaining <= n,
            frame >= 1,
            n * frame <= input@.len(),
            output@ == old(output)@ + reversed(input@, frame as int, remaining as int, n as int),
        decreases remaining,
    {
        let k = remaining - 1;
        assert(k * frame + frame <= n * frame) by (nonlinear_arith)
            requires
                k < n,
        ;
        assert(k * frame <= input@.len());
        crate::bytes::push_range(output, input, k * frame, frame);
        remaining = k;
        assert(output@ =~= old(output)@ + reversed(input@, frame as int, remaining as int, n as int));
    }
}

/// Appends each of the first `n` frames with its channels picked by `map`.
fn channel_map(input: &[u8], output: &mut Vec<u8>, frame: usize, width: usize, channels: usize, map: &Vec<u16>, n: usize)
    requires
        frame == channels * width,
        width >= 1,
        n * frame <= input@.len(),
        forall|k: int| 0 <= k < map@.len() ==> map@[k] < channels,
    ensures
        final(output)@ == old(output)@ + remapped(input@, frame as int, width as int, map@, n as nat),
{
    let len = input.len();
    let mut i: usize = 0;
    while i < n
        invariant
            len == input@.len(),
            i <= n,
            frame == channels * width,
            width >= 1,
            n * frame <= input@.len(),
            forall|k: int| 0 <= k < map@.len() ==> map@[k] < channels,
            output@ == old(output)@ + remapped(input@, frame as int, width as int, map@, i as nat),
        decreases n - i,
    {
        assert(i * frame + frame <= n * frame) by (nonlinear_arith)
            requires
                i < n,
        ;
        assert(i * frame <= input@.len());
        let base = i * frame;
        let ghost before = output@;
        let mut k: usize = 0;
        while k < map.len()
            invariant
                len == input@.len(),
                k <= map@.len(),
                frame == channels * width,
                width >= 1,
                base + frame <= input@.len(),
                forall|k: int| 0 <= k < map@.len() ==> map@[k] < channels,
                output@ == before + pick(input@, base as int, width as int, map@.subrange(0, k as int)),
            decreases map@.len() - k,
        {
            let c = map[k] as usize;
            assert(c * width + width <= frame) by (nonlinear_arith)
                requires
                    c < channels,
                    frame == channels * width,
            ;
            assert(c * width <= frame);
            crate::bytes::push_range(output, input, base + c * width, width);
            proof {
                let m = map@.subrange(0, k + 1);
                assert(m.drop_last() =~= map@.subrange(0, k as int));
                assert(m.last() == map@[k as int]);
            }
            k = k + 1;
        }
        assert(map@.subrange(0, k as int) =~= map@);
        i = i + 1;
    }
}

/// Rewrites every sample of `input` to the output layout.
fn normalize(input: &[u8], output: &mut Vec<u8>, r: SampleRewrite)
    requires
        r.wf(),
        (input@.len() as int) % (r.width as int) == 0,
    ensures
        final(output)@ == old(output)@ + r.map_all(input@),
{
    let count = input.len() / r.width;
    assert(count * r.width == input@.len()) by (nonlinear_arith)
        requires
            count == (input@.len() as int) / (r.width as int),
            (input@.len() as int) % (r.width as int) == 0,
            r.width >= 1,
    ;
    crate::pcm::push_samples(output, input, 0, count, r);
    assert(input@.subrange(0, count * r.width) =~= input@);
}

/// Apply the declared raw PCM operation using explicit parameter-owned semantics.
///
/// The whole of `input` is the raw stream. On success the result is appended
/// to `output`; on failure `output` is left unchanged.
pub fn convert(input: &[u8], output: &mut Vec<u8>, options: &Options) -> (result: Result<
    Report,
    Error,
>)
    ensures
        result is Ok <==> !refused(input@, *options),
        result is Err ==> final(output)@ == old(output)@,
        result is Ok ==> final(output)@ == old(output)@ + output_of(input@, *options),
        result matches Ok(r) ==> {
            &&& r.input_bytes == input@.len()
            &&& r.input_frames == (input@.len() as int) / frame(*options)
            &&& r.output_frames == frames_out(input@, *options)
            &&& r.output_bytes == output_of(input@, *options).len()
            &&& r.input_channels == options.channels
            &&& r.output_channels == (if MODE == Mode::ChannelMap {
                options.channel_map@.len() as u16
            } else {
                options.channels
            })
            &&& r.bits_per_sample == options.bits_per_sample
            &&& r.peak_working_memory_bytes == options.buffer_size * 2
            &&& r.warnings@.len() == 0
        },
        result matches Err(e) ==> e is Invalid,
{
    let (width, frame) = match validate(options) {
        Ok(v) => v,
        Err(e) => return Err(e),
    };
    let len = input.len();
    if len % frame != 0 {
        return Err(Error::Invalid("raw PCM input is not frame aligned"));
    }
    let frames = len / frame;
    assert(frames * frame == len) by (nonlinear_arith)
        requires
            frames as int == len as int / frame as int,
            len as int % frame as int == 0,
            frame >= 1,
    ;
    let ghost before = output@;
    let start_len = output.len();
    let output_frames: u64;
    if MODE == Mode::Trim {
        if options.start_frame > frames as u64 {
            return Err(Error::Invalid("start_frame exceeds input frame count"));
        }
        let available = frames as u64 - options.start_frame;
        let count = match options.frame_count {
            Some(c) => c,
            None => available,
        };
        if count > available {
            return Err(Error::Invalid("requested frame_count exceeds input"));
        }
        assert((options.start_frame + count) * frame <= frames * frame) by (nonlinear_arith)
            requires
                options.start_frame + count <= frames,
        ;
        trim(input, output, frame, options.start_frame, count);
        output_frames = count;
    } else if MODE == Mode::Reverse {
        reverse(input, output, frame, frames);
        output_frames = frames as u64;
    } else if MODE == Mode::ChannelMap {
        channel_map(input, output, frame, width, options.channels as usize, &options.channel_map, frames);
        output_frames = frames as u64;
    } else {
        let r = SampleRewrite {
            width,
            reverse: width > 1 && options.input_endianness != options.output_endianness,
            flip: if options.input_encoding != options.output_encoding {
                if width == 1 || options.output_endianness == Endianness::Big {
                    0
                } else {
                    width - 1
                }
            } else {
                width
            },
            keep: width,
        };
        proof {
            crate::arith::lemma_multiple_of_factor(len as int, options.channels as int, width as int);
        }
        normalize(input, output, r);
        output_frames = frames as u64;
    }
    let ghost produced = output_of(input@, *options);
    assert(output@ =~= before + produced);
    let output_bytes = (output.len() - start_len) as u64;
    Ok(
        Report {
            input_bytes: len as u64,
            output_bytes,
            input_frames: frames as u64,
            output_frames,
            input_channels: options.channels,
            output_channels: if MODE == Mode::ChannelMap {
                options.channel_map.len() as u16
            } else {
                options.channels
            },
            bits_per_sample: options.bits_per_sample,
            peak_working_memory_bytes: options.buffer_size as u64 * 2,
            warnings: Vec::new(),
        },
    )
}

/// A small input on which the default options run the operation.
pub fn conformance_fixture() -> (v: Vec<u8>)
    ensures
        v@ == (if MODE == Mode::ChannelMap {
            seq![1u8, 0, 2, 0, 3, 0, 4, 0]
        } else {
            seq![1u8, 0, 2, 0, 3, 0]
        }),
{
    if MODE == Mode::ChannelMap {
        vec![1u8, 0, 2, 0, 3, 0, 4, 0]
    } else {
        vec![1u8, 0, 2, 0, 3, 0]
    }
}

} // verus!
