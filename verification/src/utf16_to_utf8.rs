//! UTF-16 (either byte order, optional BOM) transcoded to UTF-8.
//!
//! Decoding is a state machine over code units: a high surrogate waits for
//! the low surrogate that completes it; malformed sequences are refused or
//! replaced with U+FFFD, as the options say.
use vstd::prelude::*;

verus! {

#[derive(Debug, Clone, Copy, PartialEq, Eq, Structural)]
pub enum Endianness {
    Auto,
    Little,
    Big,
}

#[derive(Debug, Clone, Copy, PartialEq, Eq, Structural)]
pub enum ByteOrder {
    Little,
    Big,
}

#[derive(Debug, Clone, Copy, PartialEq, Eq, Structural)]
pub enum InvalidSequencePolicy {
    Error,
    Replace,
}

#[derive(Debug, Clone, PartialEq, Eq)]
pub struct Options {
    pub input_endianness: Endianness,
    pub default_endianness: ByteOrder,
    pub invalid_sequence: InvalidSequencePolicy,
    pub emit_utf8_bom: bool,
    pub buffer_size: usize,
}

impl Default for Options {
    fn default() -> (o: Self)
        ensures
            o.input_endianness == Endianness::Auto,
            o.default_endianness == ByteOrder::Little,
            o.invalid_sequence == InvalidSequencePolicy::Error,
            !o.emit_utf8_bom,
            o.buffer_size == 65536,
    {
        Options {
            input_endianness: Endianness::Auto,
            default_endianness: ByteOrder::Little,
            invalid_sequence: InvalidSequencePolicy::Error,
            emit_utf8_bom: false,
            buffer_size: 65536,
        }
    }
}

#[derive(Debug, Clone, PartialEq, Eq)]
pub struct Report {
    pub input_bytes: u64,
    pub output_bytes: u64,
    pub decoded_scalar_values: u64,
    pub replacement_count: u64,
    pub detected_endianness: ByteOrder,
    pub input_bom_consumed: bool,
    pub default_endianness_used: bool,
    pub utf8_bom_emitted: bool,
    pub strategy: &'static str,
    pub backend: &'static str,
    pub warnings: Vec<String>,
}

#[derive(Debug)]
pub enum Error {
    InvalidOptions(&'static str),
    OddByteLength { byte_offset: u64 },
    ConflictingBom { configured: ByteOrder, bom: ByteOrder },
    UnpairedHighSurrogate { code_unit_index: u64, value: u16 },
    UnexpectedLowSurrogate { code_unit_index: u64, value: u16 },
}

/// The UTF-8 encoding of the scalar value `c`.
pub open spec fn utf8_of(c: int) -> Seq<u8> {
    if c < 0x80 {
        seq![c as u8]
    } else if c < 0x800 {
        seq![(0xC0 + c / 64) as u8, (0x80 + c % 64) as u8]
    } else if c < 0x10000 {
        seq![(0xE0 + c / 4096) as u8, (0x80 + c / 64 % 64) as u8, (0x80 + c % 64) as u8]
    } else {
        seq![
            (0xF0 + c / 262144) as u8,
            (0x80 + c / 4096 % 64) as u8,
            (0x80 + c / 64 % 64) as u8,
            (0x80 + c % 64) as u8,
        ]
    }
}

pub open spec fn is_high(u: u16) -> bool {
    0xD800 <= u <= 0xDBFF
}

pub open spec fn is_low(u: u16) -> bool {
    0xDC00 <= u <= 0xDFFF
}

/// The scalar value a surrogate pair encodes.
pub open spec fn pair_scalar(h: u16, l: u16) -> int {
    0x10000 + (h - 0xD800) * 1024 + (l - 0xDC00)
}

/// The decoder's state: output so far, counters, and a high surrogate
/// waiting for its partner (with its code-unit index).
pub struct Dec {
    pub out: Seq<u8>,
    pub scalars: int,
    pub replaced: int,
    pub pending: Option<(u16, u64)>,
}

pub open spec fn emit(d: Dec, c: int) -> Dec {
    Dec { out: d.out + utf8_of(c), scalars: d.scalars + 1, ..d }
}

pub open spec fn replace(d: Dec) -> Dec {
    let e = emit(d, 0xFFFD);
    Dec { replaced: e.replaced + 1, ..e }
}

/// The decoder state after unit `u` at index `idx`, or the error it raises.
pub open spec fn step(d: Dec, u: u16, idx: u64, p: InvalidSequencePolicy) -> Result<Dec, Error> {
    let cleared = Dec { pending: None, ..d };
    let first: Result<Dec, Error> = match d.pending {
        Some((h, hi)) => if is_low(u) {
            Ok(emit(cleared, pair_scalar(h, u)))
        } else if p == InvalidSequencePolicy::Error {
            Err(Error::UnpairedHighSurrogate { code_unit_index: hi, value: h })
        } else {
            Ok(replace(cleared))
        },
        None => Ok(d),
    };
    match first {
        Err(e) => Err(e),
        Ok(d1) => if d.pending is Some && is_low(u) {
            Ok(d1)
        } else if is_high(u) {
            Ok(Dec { pending: Some((u, idx)), ..d1 })
        } else if is_low(u) {
            if p == InvalidSequencePolicy::Error {
                Err(Error::UnexpectedLowSurrogate { code_unit_index: idx, value: u })
            } else {
                Ok(replace(d1))
            }
        } else {
            Ok(emit(d1, u as int))
        },
    }
}

/// The code unit at unit index `k` of `b`.
pub open spec fn unit(b: Seq<u8>, order: ByteOrder, k: int) -> u16 {
    if order == ByteOrder::Little {
        (b[2 * k] + 256 * b[2 * k + 1]) as u16
    } else {
        (256 * b[2 * k] + b[2 * k + 1]) as u16
    }
}

/// The decoder run over units `first..n` of `b`, from state `d0`.
pub open spec fn run(
    b: Seq<u8>,
    order: ByteOrder,
    p: InvalidSequencePolicy,
    d0: Dec,
    first: int,
    n: int,
) -> Result<Dec, Error>
    decreases n - first,
{
    if n <= first {
        Ok(d0)
    } else {
        match run(b, order, p, d0, first, n - 1) {
            Ok(d) => step(d, unit(b, order, n - 1), (n - 1) as u64, p),
            Err(e) => Err(e),
        }
    }
}

/// The byte order a leading BOM announces.
pub open spec fn bom_of(b: Seq<u8>) -> Option<ByteOrder> {
    if b.len() >= 2 && b[0] == 0xFF && b[1] == 0xFE {
        Some(ByteOrder::Little)
    } else if b.len() >= 2 && b[0] == 0xFE && b[1] == 0xFF {
        Some(ByteOrder::Big)
    } else {
        None
    }
}

pub open spec fn configured_of(o: Options) -> Option<ByteOrder> {
    match o.input_endianness {
        Endianness::Auto => None,
        Endianness::Little => Some(ByteOrder::Little),
        Endianness::Big => Some(ByteOrder::Big),
    }
}

/// The byte order used to decode `b`.
pub open spec fn order_of(b: Seq<u8>, o: Options) -> ByteOrder {
    match configured_of(o) {
        Some(c) => c,
        None => match bom_of(b) {
            Some(m) => m,
            None => o.default_endianness,
        },
    }
}

pub open spec fn utf8_bom() -> Seq<u8> {
    seq![0xEFu8, 0xBB, 0xBF]
}

pub open spec fn initial(o: Options) -> Dec {
    Dec {
        out: if o.emit_utf8_bom {
            utf8_bom()
        } else {
            Seq::empty()
        },
        scalars: 0,
        replaced: 0,
        pending: None,
    }
}

/// The decoder state after every complete code unit of `b`.
pub open spec fn decoded(b: Seq<u8>, o: Options) -> Result<Dec, Error> {
    run(
        b,
        order_of(b, o),
        o.invalid_sequence,
        initial(o),
        if bom_of(b) is Some {
            1
        } else {
            0
        },
        b.len() as int / 2,
    )
}

/// The outcome of transcoding `b`: the final decoder state or the error.
pub open spec fn transcode(b: Seq<u8>, o: Options) -> Result<Dec, Error> {
    if o.buffer_size < 2 || o.buffer_size > 16 * 1024 * 1024 {
        Err(Error::InvalidOptions(""))
    } else if b.len() == 1 {
        Err(Error::OddByteLength { byte_offset: 0 })
    } else if configured_of(o) is Some && bom_of(b) is Some && configured_of(o) != bom_of(b) {
        Err(Error::ConflictingBom { configured: configured_of(o)->0, bom: bom_of(b)->0 })
    } else {
        match decoded(b, o) {
            Err(e) => Err(e),
            Ok(d) => if b.len() % 2 == 1 {
                Err(Error::OddByteLength { byte_offset: (b.len() - 1) as u64 })
            } else {
                match d.pending {
                    None => Ok(d),
                    Some((h, hi)) => if o.invalid_sequence == InvalidSequencePolicy::Error {
                        Err(Error::UnpairedHighSurrogate { code_unit_index: hi, value: h })
                    } else {
                        Ok(replace(Dec { pending: None, ..d }))
                    },
                }
            },
        }
    }
}

/// Same error, ignoring the message of `InvalidOptions`.
pub open spec fn same_error(e: Error, f: Error) -> bool {
    match (e, f) {
        (Error::InvalidOptions(_), Error::InvalidOptions(_)) => true,
        _ => e == f,
    }
}

/// Counters stay within the units consumed; a waiting high surrogate is one.
pub open spec fn bounded(d: Dec, n: int) -> bool {
    &&& 0 <= d.replaced <= d.scalars
    &&& d.scalars + (if d.pending is Some {
        1int
    } else {
        0int
    }) <= n
    &&& (d.pending matches Some((h, hi)) ==> is_high(h) && hi < n)
}

proof fn lemma_step_bounded(d: Dec, u: u16, idx: u64, p: InvalidSequencePolicy, n: int)
    requires
        bounded(d, n),
        idx == n,
    ensures
        step(d, u, idx, p) matches Ok(d2) ==> bounded(d2, n + 1),
{
}

/// Once the decoder has failed, later units do not change the error.
/// The output the decoder has written by unit `n` when it stops at the
/// first refused unit: the output before that unit.
pub open spec fn run_out(
    b: Seq<u8>,
    order: ByteOrder,
    p: InvalidSequencePolicy,
    d0: Dec,
    first: int,
    n: int,
) -> Seq<u8>
    decreases n - first,
{
    if n <= first {
        d0.out
    } else {
        match run(b, order, p, d0, first, n - 1) {
            Ok(d) => match step(d, unit(b, order, n - 1), (n - 1) as u64, p) {
                Ok(d2) => d2.out,
                Err(_) => d.out,
            },
            Err(_) => run_out(b, order, p, d0, first, n - 1),
        }
    }
}

/// What a refused conversion has written: nothing when the options, a lone
/// byte or a conflicting BOM refuse it, else the UTF-8 BOM (if asked for)
/// and the text decoded before the refusal.
pub open spec fn written_on_error(b: Seq<u8>, o: Options) -> Seq<u8> {
    if o.buffer_size < 2 || o.buffer_size > 16 * 1024 * 1024 || b.len() == 1 || (configured_of(o) is Some
        && bom_of(b) is Some && configured_of(o) != bom_of(b)) {
        Seq::empty()
    } else {
        run_out(
            b,
            order_of(b, o),
            o.invalid_sequence,
            initial(o),
            if bom_of(b) is Some { 1int } else { 0int },
            (b.len() / 2) as int,
        )
    }
}

proof fn lemma_written(b: Seq<u8>, o: Options, order: ByteOrder, first: int, units: int)
    requires
        2 <= o.buffer_size <= 16 * 1024 * 1024,
        b.len() != 1,
        !(configured_of(o) is Some && bom_of(b) is Some && configured_of(o) != bom_of(b)),
        order == order_of(b, o),
        first == (if bom_of(b) is Some { 1int } else { 0int }),
        units == b.len() / 2,
    ensures
        written_on_error(b, o) == run_out(b, order, o.invalid_sequence, initial(o), first, units),
{
}

proof fn lemma_run_out_ok(b: Seq<u8>, order: ByteOrder, p: InvalidSequencePolicy, d0: Dec, first: int, n: int)
    requires
        run(b, order, p, d0, first, n) is Ok,
    ensures
        run_out(b, order, p, d0, first, n) == run(b, order, p, d0, first, n)->Ok_0.out,
{
}

proof fn lemma_run_out_sticks(
    b: Seq<u8>,
    order: ByteOrder,
    p: InvalidSequencePolicy,
    d0: Dec,
    first: int,
    n: int,
    m: int,
)
    requires
        first <= n <= m,
        run(b, order, p, d0, first, n) is Err,
    ensures
        run_out(b, order, p, d0, first, m) == run_out(b, order, p, d0, first, n),
    decreases m - n,
{
    if m > n {
        lemma_run_out_sticks(b, order, p, d0, first, n, m - 1);
        lemma_run_error_sticks(b, order, p, d0, first, n, m - 1);
    }
}

proof fn lemma_run_error_sticks(
    b: Seq<u8>,
    order: ByteOrder,
    p: InvalidSequencePolicy,
    d0: Dec,
    first: int,
    n: int,
    m: int,
)
    requires
        first <= n <= m,
        run(b, order, p, d0, first, n) is Err,
    ensures
        run(b, order, p, d0, first, m) == run(b, order, p, d0, first, n),
    decreases m - n,
{
    if m > n {
        lemma_run_error_sticks(b, order, p, d0, first, n, m - 1);
    }
}

/// Appends the UTF-8 encoding of the scalar value `c`.
fn push_utf8(out: &mut Vec<u8>, c: u32)
    requires
        c <= 0x10FFFF,
    ensures
        final(out)@ == old(out)@ + utf8_of(c as int),
{
    if c < 0x80 {
        out.push(c as u8);
    } else if c < 0x800 {
        out.push((0xC0 + c / 64) as u8);
        out.push((0x80 + c % 64) as u8);
    } else if c < 0x10000 {
        out.push((0xE0 + c / 4096) as u8);
        out.push((0x80 + c / 64 % 64) as u8);
        out.push((0x80 + c % 64) as u8);
    } else {
        out.push((0xF0 + c / 262144) as u8);
        out.push((0x80 + c / 4096 % 64) as u8);
        out.push((0x80 + c / 64 % 64) as u8);
        out.push((0x80 + c % 64) as u8);
    }
    assert(out@ =~= old(out)@ + utf8_of(c as int));
}

/// The running decoder state.
struct DecodeState {
    pending_high: Option<(u16, u64)>,
    decoded_scalar_values: u64,
    replacement_count: u64,
}

spec fn view_of(st: DecodeState, out: Seq<u8>) -> Dec {
    Dec {
        out,
        scalars: st.decoded_scalar_values as int,
        replaced: st.replacement_count as int,
        pending: st.pending_high,
    }
}

fn write_replacement(out: &mut Vec<u8>, st: &mut DecodeState)
    requires
        old(st).decoded_scalar_values < u64::MAX,
        old(st).replacement_count <= old(st).decoded_scalar_values,
    ensures
        view_of(*final(st), final(out)@) == replace(view_of(*old(st), old(out)@)),
{
    push_utf8(out, 0xFFFD);
    st.decoded_scalar_values = st.decoded_scalar_values + 1;
    st.replacement_count = st.replacement_count + 1;
}

/// Feeds one code unit to the decoder.
fn process_unit(unit: u16, idx: u64, policy: InvalidSequencePolicy, out: &mut Vec<u8>, st: &mut DecodeState) -> (r: Result<(), Error>)
    requires
        bounded(view_of(*old(st), old(out)@), idx as int),
        idx < u64::MAX,
    ensures
        match step(view_of(*old(st), old(out)@), unit, idx, policy) {
            Ok(d) => r is Ok && view_of(*final(st), final(out)@) == d,
            Err(e) => r == Err::<(), Error>(e) && final(out)@ == old(out)@,
        },
{
    proof {
        lemma_step_bounded(view_of(*st, out@), unit, idx, policy, idx as int);
    }
    let ghost d = view_of(*st, out@);
    if let Some((high, high_index)) = st.pending_high {
        st.pending_high = None;
        if 0xDC00 <= unit && unit <= 0xDFFF {
            let scalar = 0x10000u32 + ((high as u32 - 0xD800) * 1024) + (unit as u32 - 0xDC00);
            push_utf8(out, scalar);
            st.decoded_scalar_values = st.decoded_scalar_values + 1;
            return Ok(());
        }
        match policy {
            InvalidSequencePolicy::Error => {
                return Err(
                    Error::UnpairedHighSurrogate { code_unit_index: high_index, value: high },
                );
            },
            InvalidSequencePolicy::Replace => write_replacement(out, st),
        }
    }
    if 0xD800 <= unit && unit <= 0xDBFF {
        st.pending_high = Some((unit, idx));
        Ok(())
    } else if 0xDC00 <= unit && unit <= 0xDFFF {
        match policy {
            InvalidSequencePolicy::Error => Err(
                Error::UnexpectedLowSurrogate { code_unit_index: idx, value: unit },
            ),
            InvalidSequencePolicy::Replace => {
                write_replacement(out, st);
                Ok(())
            },
        }
    } else {
        push_utf8(out, unit as u32);
        st.decoded_scalar_values = st.decoded_scalar_values + 1;
        Ok(())
    }
}

/// The code unit at unit index `k` of `b`.
fn decode_unit(b: &[u8], k: usize, order: ByteOrder) -> (u: u16)
    requires
        2 * k + 1 < b@.len(),
    ensures
        u == unit(b@, order, k as int),
{
    let _n = b.len();
    match order {
        ByteOrder::Little => b[2 * k] as u16 + 256 * (b[2 * k + 1] as u16),
        ByteOrder::Big => 256 * (b[2 * k] as u16) + b[2 * k + 1] as u16,
    }
}

/// Transcode UTF-16 `input` to UTF-8, appended to `output` on success.
pub fn convert(input: &[u8], output: &mut Vec<u8>, options: &Options) -> (result: Result<
    Report,
    Error,
>)
    ensures
        result is Ok <==> transcode(input@, *options) is Ok,
        result matches Err(e) ==> same_error(e, transcode(input@, *options)->Err_0),
        result is Err ==> final(output)@ == old(output)@ + written_on_error(input@, *options),
        result matches Ok(r) ==> {
            let d = transcode(input@, *options)->Ok_0;
            &&& r.strategy == (if options.invalid_sequence == InvalidSequencePolicy::Error {
                "strict"
            } else {
                "replace-invalid"
            })
            &&& r.backend == "native-portable"
            &&& final(output)@ == old(output)@ + d.out
            &&& r.input_bytes == input@.len()
            &&& r.output_bytes == d.out.len()
            &&& r.decoded_scalar_values == d.scalars
            &&& r.replacement_count == d.replaced
            &&& r.detected_endianness == order_of(input@, *options)
            &&& r.input_bom_consumed == bom_of(input@) is Some
            &&& r.default_endianness_used == (configured_of(*options) is None && bom_of(input@) is None)
            &&& r.utf8_bom_emitted == options.emit_utf8_bom
            &&& (r.warnings@.len() == 0 <==> d.replaced == 0)
        },
{
    if options.buffer_size < 2 {
        return Err(Error::InvalidOptions("buffer_size must be at least 2 bytes"));
    }
    if options.buffer_size > 16 * 1024 * 1024 {
        return Err(Error::InvalidOptions("buffer_size exceeds 16 MiB"));
    }
    let len = input.len();
    if len == 1 {
        return Err(Error::OddByteLength { byte_offset: 0 });
    }
    let bom_order: Option<ByteOrder> = if len >= 2 && input[0] == 0xFF && input[1] == 0xFE {
        Some(ByteOrder::Little)
    } else if len >= 2 && input[0] == 0xFE && input[1] == 0xFF {
        Some(ByteOrder::Big)
    } else {
        None
    };
    let configured_order: Option<ByteOrder> = match options.input_endianness {
        Endianness::Auto => None,
        Endianness::Little => Some(ByteOrder::Little),
        Endianness::Big => Some(ByteOrder::Big),
    };
    if let (Some(configured), Some(bom)) = (configured_order, bom_order) {
        if configured != bom {
            return Err(Error::ConflictingBom { configured, bom });
        }
    }
    let order = match configured_order {
        Some(c) => c,
        None => match bom_order {
            Some(m) => m,
            None => options.default_endianness,
        },
    };
    let input_bom_consumed = bom_order.is_some();
    let default_endianness_used = configured_order.is_none() && bom_order.is_none();
    let mut out: Vec<u8> = Vec::new();
    if options.emit_utf8_bom {
        out.push(0xEFu8);
        out.push(0xBBu8);
        out.push(0xBFu8);
    }
    let mut st = DecodeState { pending_high: None, decoded_scalar_values: 0, replacement_count: 0 };
    let first: usize = if input_bom_consumed {
        1
    } else {
        0
    };
    let units = len / 2;
    let ghost b = input@;
    let ghost p = options.invalid_sequence;
    let ghost d0 = initial(*options);
    assert(out@ =~= d0.out);
    assert(view_of(st, out@) == d0);
    proof {
        lemma_written(b, *options, order, first as int, units as int);
    }
    let mut k: usize = first;
    while k < units
        invariant
            b == input@,
            len == b.len(),
            units == len / 2,
            first <= 1,
            first <= units || units == 0,
            first <= k <= units || (units == 0 && k == first),
            order == order_of(b, *options),
            run(b, order, p, d0, first as int, k as int) == Ok::<Dec, Error>(view_of(st, out@)),
            bounded(view_of(st, out@), k as int),
            p == options.invalid_sequence,
            d0 == initial(*options),
            2 <= options.buffer_size <= 16 * 1024 * 1024,
            len != 1,
            first == (if bom_of(b) is Some { 1int } else { 0int }),
            !(configured_of(*options) is Some && bom_of(b) is Some && configured_of(*options) != bom_of(b)),
            output@ == old(output)@,
            written_on_error(b, *options) == run_out(b, order, p, d0, first as int, units as int),
        decreases units - k,
    {
        let u = decode_unit(input, k, order);
        let r = process_unit(u, k as u64, options.invalid_sequence, &mut out, &mut st);
        match r {
            Ok(()) => {},
            Err(e) => {
                proof {
                    lemma_run_error_sticks(b, order, p, d0, first as int, k + 1, units as int);
                    lemma_run_out_sticks(b, order, p, d0, first as int, k + 1, units as int);
                    assert(run_out(b, order, p, d0, first as int, k + 1) == out@);
                }
                output.append(&mut out);
                return Err(e);
            },
        }
        proof {
            lemma_step_bounded(run(b, order, p, d0, first as int, k as int)->Ok_0, u, k as u64, p, k as int);
        }
        k = k + 1;
    }
    assert(run(b, order, p, d0, first as int, units as int) == Ok::<Dec, Error>(view_of(st, out@)));
    proof {
        lemma_run_out_ok(b, order, p, d0, first as int, units as int);
    }
    if len % 2 == 1 {
        output.append(&mut out);
        return Err(Error::OddByteLength { byte_offset: (len - 1) as u64 });
    }
    if let Some((high, high_index)) = st.pending_high {
        match options.invalid_sequence {
            InvalidSequencePolicy::Error => {
                output.append(&mut out);
                return Err(Error::UnpairedHighSurrogate { code_unit_index: high_index, value: high });
            },
            InvalidSequencePolicy::Replace => {
                st.pending_high = None;
                write_replacement(&mut out, &mut st);
            },
        }
    }
    let warnings: Vec<String> = if st.replacement_count == 0 {
        Vec::new()
    } else {
        let mut w: Vec<String> = Vec::new();
        w.push(
            crate::text::message(
                "",
                st.replacement_count,
                " malformed UTF-16 sequence(s) replaced with U+FFFD",
            ),
        );
        w
    };
    let output_bytes = out.len() as u64;
    output.append(&mut out);
    Ok(
        Report {
            input_bytes: len as u64,
            output_bytes,
            decoded_scalar_values: st.decoded_scalar_values,
            replacement_count: st.replacement_count,
            detected_endianness: order,
            input_bom_consumed,
            default_endianness_used,
            utf8_bom_emitted: options.emit_utf8_bom,
            strategy: match options.invalid_sequence {
                InvalidSequencePolicy::Error => "strict",
                InvalidSequencePolicy::Replace => "replace-invalid",
            },
            backend: "native-portable",
            warnings,
        },
    )
}

} // verus!
