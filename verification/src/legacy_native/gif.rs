//! GIF decoding (LZW, interlace, disposal) and exact-palette encoding.
use vstd::prelude::*;
use super::{checked_pixels, Error, Image, Pixel};
use crate::bytes::{le16, read_le16, stream_value, lemma_flush_byte, lemma_add_pending};
use vstd::arithmetic::power2::pow2;
use std::collections::BTreeMap;

verus! {

/// Rows `start, start + step, ..` below `h`.
pub open spec fn pass_rows(start: int, step: int, h: int) -> Seq<int>
    decreases (if h > start { h - start } else { 0 }),
{
    if start >= h || step <= 0 {
        Seq::empty()
    } else {
        seq![start] + pass_rows(start + step, step, h)
    }
}

/// The order in which an interlaced GIF stores its rows.
pub open spec fn interlaced(h: int) -> Seq<int> {
    pass_rows(0, 8, h) + pass_rows(4, 8, h) + pass_rows(2, 4, h) + pass_rows(1, 2, h)
}

proof fn lemma_pass_rows(start: int, step: int, h: int)
    requires
        0 <= start,
        1 <= step,
    ensures
        forall|i: int|
            0 <= i < pass_rows(start, step, h).len() ==> #[trigger] pass_rows(start, step, h)[i]
                == start + i * step && start + i * step < h,
        forall|r: int|
            start <= r < h && (r - start) % step == 0 ==> #[trigger] pass_rows(start, step, h).contains(r),
    decreases (if h > start { h - start } else { 0 }),
{
    if start < h {
        lemma_pass_rows(start + step, step, h);
        let rest = pass_rows(start + step, step, h);
        let all = pass_rows(start, step, h);
        assert(all == seq![start] + rest);
        assert forall|i: int| 0 <= i < all.len() implies #[trigger] all[i] == start + i * step && start + i * step < h by {
            if i > 0 {
                assert(all[i] == rest[i - 1]);
                assert(start + step + (i - 1) * step == start + i * step) by (nonlinear_arith);
            }
        }
        assert forall|r: int| start <= r < h && (r - start) % step == 0 implies #[trigger] all.contains(r) by {
            if r == start {
                assert(all[0] == r);
            } else {
                assert(r >= start + step) by {
                    vstd::arithmetic::div_mod::lemma_fundamental_div_mod(r - start, step);
                    assert((r - start) / step >= 1) by (nonlinear_arith)
                        requires
                            r - start > 0,
                            (r - start) == step * ((r - start) / step) + (r - start) % step,
                            (r - start) % step == 0,
                            step >= 1,
                    ;
                    assert(step * ((r - start) / step) >= step) by (nonlinear_arith)
                        requires
                            (r - start) / step >= 1,
                            step >= 1,
                    ;
                }
                vstd::arithmetic::div_mod::lemma_mod_sub_multiples_vanish(r - start, step);
                assert((r - (start + step)) % step == 0);
                assert(rest.contains(r));
                let k = choose|k: int| 0 <= k < rest.len() && rest[k] == r;
                assert(all[k + 1] == r);
            }
        }
    }
}

/// The rows an interlaced GIF stores are a permutation of `0..h`: every row
/// appears exactly once.
#[verifier::spinoff_prover]
#[verifier::rlimit(40)]
pub proof fn lemma_interlace_permutation(h: int)
    requires
        h >= 0,
    ensures
        interlaced(h).len() == h,
        interlaced(h).no_duplicates(),
        forall|i: int| 0 <= i < interlaced(h).len() ==> 0 <= #[trigger] interlaced(h)[i] < h,
        forall|r: int| 0 <= r < h ==> #[trigger] interlaced(h).contains(r),
{
    lemma_pass_rows(0, 8, h);
    lemma_pass_rows(4, 8, h);
    lemma_pass_rows(2, 4, h);
    lemma_pass_rows(1, 2, h);
    let a = pass_rows(0, 8, h);
    let b = pass_rows(4, 8, h);
    let c = pass_rows(2, 4, h);
    let d = pass_rows(1, 2, h);
    let s = interlaced(h);
    assert(s == a + b + c + d);
    assert forall|i: int| 0 <= i < s.len() implies 0 <= #[trigger] s[i] < h && (i < a.len() ==> s[i] % 8 == 0)
        && (a.len() <= i < a.len() + b.len() ==> s[i] % 8 == 4)
        && (a.len() + b.len() <= i < a.len() + b.len() + c.len() ==> s[i] % 4 == 2)
        && (a.len() + b.len() + c.len() <= i ==> s[i] % 2 == 1) by {
        if i < a.len() {
            assert(s[i] == a[i]);
            assert(a[i] == i * 8);
            assert((i * 8) % 8 == 0) by (nonlinear_arith);
        } else if i < a.len() + b.len() {
            let k = i - a.len();
            assert(s[i] == b[k]);
            assert((4 + k * 8) % 8 == 4) by (nonlinear_arith)
                requires
                    k >= 0,
            ;
        } else if i < a.len() + b.len() + c.len() {
            let k = i - a.len() - b.len();
            assert(s[i] == c[k]);
            assert((2 + k * 4) % 4 == 2) by (nonlinear_arith)
                requires
                    k >= 0,
            ;
        } else {
            let k = i - a.len() - b.len() - c.len();
            assert(s[i] == d[k]);
            assert((1 + k * 2) % 2 == 1) by (nonlinear_arith)
                requires
                    k >= 0,
            ;
        }
    }
    assert forall|i: int, j: int| 0 <= i < s.len() && 0 <= j < s.len() && i != j implies s[i] != s[j] by {
        if s[i] == s[j] {
            // same class, so the same pass; within a pass entries strictly increase
            let ci = if i < a.len() { 0int } else if i < a.len() + b.len() { 1int } else if i < a.len() + b.len() + c.len() { 2int } else { 3int };
            let cj = if j < a.len() { 0int } else if j < a.len() + b.len() { 1int } else if j < a.len() + b.len() + c.len() { 2int } else { 3int };
            assert(ci == cj);
            if ci == 0 {
                assert(s[i] == i * 8 && s[j] == j * 8);
                assert(i * 8 != j * 8) by (nonlinear_arith)
                    requires
                        i != j,
                ;
            } else if ci == 1 {
                assert(s[i] == 4 + (i - a.len()) * 8 && s[j] == 4 + (j - a.len()) * 8);
                assert((i - a.len()) * 8 != (j - a.len()) * 8) by (nonlinear_arith)
                    requires
                        i != j,
                ;
            } else if ci == 2 {
                assert(s[i] == 2 + (i - a.len() - b.len()) * 4 && s[j] == 2 + (j - a.len() - b.len()) * 4);
                assert((i - a.len() - b.len()) * 4 != (j - a.len() - b.len()) * 4) by (nonlinear_arith)
                    requires
                        i != j,
                ;
            } else {
                assert(s[i] == 1 + (i - a.len() - b.len() - c.len()) * 2 && s[j] == 1 + (j - a.len() - b.len() - c.len()) * 2);
                assert((i - a.len() - b.len() - c.len()) * 2 != (j - a.len() - b.len() - c.len()) * 2) by (nonlinear_arith)
                    requires
                        i != j,
                ;
            }
        }
    }
    assert forall|r: int| 0 <= r < h implies #[trigger] s.contains(r) by {
        if r % 2 == 1 {
            assert((r - 1) % 2 == 0);
            assert(d.contains(r));
            let k = choose|k: int| 0 <= k < d.len() && d[k] == r;
            assert(s[a.len() + b.len() + c.len() + k] == r);
        } else if r % 4 == 2 {
            assert((r - 2) % 4 == 0);
            assert(c.contains(r));
            let k = choose|k: int| 0 <= k < c.len() && c[k] == r;
            assert(s[a.len() + b.len() + k] == r);
        } else if r % 8 == 4 {
            assert((r - 4) % 8 == 0);
            assert(b.contains(r));
            let k = choose|k: int| 0 <= k < b.len() && b[k] == r;
            assert(s[a.len() + k] == r);
        } else {
            assert(r % 8 == 0);
            assert((r - 0) % 8 == 0);
            assert(a.contains(r));
            let k = choose|k: int| 0 <= k < a.len() && a[k] == r;
            assert(s[k] == r);
        }
    }
    s.unique_seq_to_set();
    vstd::set_lib::lemma_int_range(0, h);
    assert(s.to_set() =~= vstd::set_lib::set_int_range(0, h));
}

fn push_pass(rows: &mut Vec<usize>, start: usize, step: usize, height: usize)
    requires
        1 <= step <= 8,
        start < step,
    ensures
        final(rows)@.map_values(|r: usize| r as int) == old(rows)@.map_values(|r: usize| r as int)
            + pass_rows(start as int, step as int, height as int),
{
    let mut row = start;
    while row < height
        invariant
            1 <= step <= 8,
            row <= height + step,
            rows@.map_values(|r: usize| r as int) + pass_rows(row as int, step as int, height as int)
                == old(rows)@.map_values(|r: usize| r as int) + pass_rows(start as int, step as int, height as int),
        decreases height + step - row,
    {
        let ghost before = rows@;
        rows.push(row);
        assert(rows@.map_values(|r: usize| r as int) =~= before.map_values(|r: usize| r as int).push(row as int));
        assert(rows@.map_values(|r: usize| r as int) + pass_rows(row + step, step as int, height as int)
            =~= before.map_values(|r: usize| r as int) + pass_rows(row as int, step as int, height as int));
        if row > usize::MAX - step {
            assert(pass_rows(row + step, step as int, height as int) == Seq::<int>::empty());
            row = height;
        } else {
            row = row + step;
        }
    }
    assert(pass_rows(row as int, step as int, height as int) == Seq::<int>::empty());
    assert(rows@.map_values(|r: usize| r as int) =~= rows@.map_values(|r: usize| r as int) + Seq::<int>::empty());
}

/// The interlaced row order for `height` rows.
pub fn interlace_rows(height: usize) -> (rows: Vec<usize>)
    ensures
        rows@.map_values(|r: usize| r as int) == interlaced(height as int),
{
    let mut rows: Vec<usize> = Vec::new();
    assert(rows@.map_values(|r: usize| r as int) =~= Seq::<int>::empty());
    push_pass(&mut rows, 0, 8, height);
    push_pass(&mut rows, 4, 8, height);
    push_pass(&mut rows, 2, 4, height);
    push_pass(&mut rows, 1, 2, height);
    assert(Seq::<int>::empty() + pass_rows(0, 8, height as int) + pass_rows(4, 8, height as int)
        + pass_rows(2, 4, height as int) + pass_rows(1, 2, height as int) =~= interlaced(height as int));
    rows
}

/// The `width`-bit value at bit `bit` of `b`, least significant bit first.
pub open spec fn bits_at(b: Seq<u8>, bit: int, width: nat) -> int
    decreases width,
{
    if width == 0 {
        0
    } else {
        bits_at(b, bit, (width - 1) as nat) + ((b[(bit + width - 1) / 8] as int / crate::extended::two_pow(((bit + width - 1) % 8) as nat) as int) % 2) * crate::extended::two_pow((width - 1) as nat) as int
    }
}

/// Reads the next `width`-bit LZW code.
pub fn read_code(data: &[u8], bit: &mut usize, width: u8) -> (r: Result<u16, Error>)
    requires
        width <= 12,
    ensures
        r matches Ok(v) ==> *final(bit) == *old(bit) + width && *final(bit) <= data@.len() * 8
            && v as int == bits_at(data@, *old(bit) as int, width as nat),
        r is Err <==> *old(bit) + width > data@.len() * 8 || *old(bit) > usize::MAX - 12,
        r matches Err(e) ==> e == (if *old(bit) > usize::MAX - 12 {
            Error::Overflow("GIF LZW bit offset")
        } else {
            Error::Truncated("GIF LZW code")
        }),
        r is Err ==> *final(bit) == *old(bit),
{
    let len = data.len();
    if *bit > usize::MAX - 12 {
        return Err(Error::Overflow("GIF LZW bit offset"));
    }
    if (*bit as u128) + (width as u128) > (len as u128) * 8 {
        return Err(Error::Truncated("GIF LZW code"));
    }
    let mut value: u32 = 0;
    let mut shift: u8 = 0;
    proof {
        crate::extended::lemma_two_pow_values();
    }
    while shift < width
        invariant
            shift <= width,
            width <= 12,
            *bit <= usize::MAX - 12,
            *bit as int + width as int <= len as int * 8,
            len == data@.len(),
            value as int == bits_at(data@, *bit as int, shift as nat),
            value < crate::extended::two_pow(shift as nat),
        decreases width - shift,
    {
        let absolute = *bit + shift as usize;
        let byte = data[absolute / 8];
        let d = crate::png_codec::pow2_small((absolute % 8) as u32);
        let p = crate::png_codec::pow2_small(shift as u32);
        proof {
            crate::extended::lemma_two_pow_pos((absolute % 8) as nat);
            crate::extended::lemma_two_pow_add(shift as nat, 1);
            crate::extended::lemma_two_pow_mono((shift + 1) as nat, 12);
            crate::extended::lemma_two_pow_is_pow2(12);
            vstd::arithmetic::power2::lemma2_to64();
        }
        let b = (byte as u32 / d) % 2;
        assert(b * p <= p) by (nonlinear_arith)
            requires
                b < 2,
        ;
        assert(value + b * p < crate::extended::two_pow((shift + 1) as nat));
        value = value + b * p;
        shift = shift + 1;
    }
    proof {
        crate::extended::lemma_two_pow_mono(width as nat, 12);
        crate::extended::lemma_two_pow_is_pow2(12);
        vstd::arithmetic::power2::lemma2_to64();
    }
    assert(value < 4096);
    *bit = *bit + width as usize;
    Ok(value as u16)
}

/// The dictionary after a clear code: one single-byte entry per colour,
/// then the (empty) clear and end codes.
pub fn reset_dictionary(clear: usize) -> (d: Vec<Vec<u8>>)
    requires
        clear <= 256,
    ensures
        d@.len() == clear + 2,
        forall|i: int| 0 <= i < clear ==> (#[trigger] d@[i])@ == seq![i as u8],
        d@[clear as int]@.len() == 0,
        d@[clear + 1]@.len() == 0,
        d@.map_values(|v: Vec<u8>| v@) == lzw_reset(clear as int),
{
    let mut d: Vec<Vec<u8>> = Vec::new();
    let mut v: usize = 0;
    while v < clear
        invariant
            v <= clear,
            clear <= 256,
            d@.len() == v,
            forall|i: int| 0 <= i < v ==> (#[trigger] d@[i])@ == seq![i as u8],
        decreases clear - v,
    {
        let mut e: Vec<u8> = Vec::new();
        e.push(v as u8);
        assert(e@ =~= seq![v as u8]);
        d.push(e);
        v = v + 1;
    }
    d.push(Vec::new());
    d.push(Vec::new());
    assert(d@[clear as int]@ =~= Seq::<u8>::empty());
    assert(d@[clear + 1]@ =~= Seq::<u8>::empty());
    assert(d@.map_values(|v: Vec<u8>| v@) =~= lzw_reset(clear as int));
    d
}

fn copy_bytes(v: &Vec<u8>) -> (r: Vec<u8>)
    ensures
        r@ == v@,
{
    let mut r: Vec<u8> = Vec::new();
    crate::bytes::push_range(&mut r, v.as_slice(), 0, v.len());
    assert(v@.subrange(0, v@.len() as int) =~= v@);
    r
}

/// The table a clear code sets up: one single-index entry per colour, then
/// the empty clear and end entries.
pub open spec fn lzw_reset(clear: int) -> Seq<Seq<u8>> {
    Seq::new((clear + 2) as nat, |i: int| if i < clear { seq![i as u8] } else { Seq::<u8>::empty() })
}

/// The view of an optional entry.
pub open spec fn entry_view(o: Option<Vec<u8>>) -> Option<Seq<u8>> {
    match o {
        Some(v) => Some(v@),
        None => None,
    }
}

/// The indices that code `code` stands for, given the table `dict`, the
/// next free code `next` and the previous code's indices `prev`.
pub open spec fn lzw_entry(dict: Seq<Seq<u8>>, code: int, next: int, prev: Option<Seq<u8>>) -> Result<
    Seq<u8>,
    Error,
> {
    if 0 <= code < dict.len() && dict[code].len() != 0 {
        Ok(dict[code])
    } else if code == next {
        match prev {
            Some(p) => if p.len() == 0 {
                Err(Error::Invalid("GIF LZW empty previous code"))
            } else {
                Ok(p.push(p[0]))
            },
            None => Err(Error::Invalid("GIF LZW first dictionary reference")),
        }
    } else {
        Err(Error::Invalid("GIF LZW dictionary reference"))
    }
}

/// The GIF LZW decoding of the codes of `data` from bit `bit` on, with
/// minimum code size `m`, the table `dict`, the code width `width`, the
/// next free code `next`, the previous code's indices `prev` and the indices
/// `out` decoded so far: the indices when the end code comes and exactly
/// `expected` were decoded, else the error met first.
pub open spec fn lzw_from(
    data: Seq<u8>,
    m: int,
    expected: int,
    bit: int,
    dict: Seq<Seq<u8>>,
    width: int,
    next: int,
    prev: Option<Seq<u8>>,
    out: Seq<u8>,
) -> Result<Seq<u8>, Error>
    decreases data.len() * 8 - bit,
{
    let clear = crate::extended::two_pow(m as nat) as int;
    if width < 1 {
        Err(Error::Invalid("GIF LZW minimum code size"))
    } else if bit > usize::MAX - 12 {
        Err(Error::Overflow("GIF LZW bit offset"))
    } else if bit + width > data.len() * 8 {
        Err(Error::Truncated("GIF LZW code"))
    } else {
        let code = bits_at(data, bit, width as nat);
        let after = bit + width;
        if code == clear {
            lzw_from(data, m, expected, after, lzw_reset(clear), m + 1, clear + 2, None, out)
        } else if code == clear + 1 {
            if out.len() == expected {
                Ok(out)
            } else {
                Err(Error::Invalid("GIF LZW termination or output length"))
            }
        } else {
            match lzw_entry(dict, code, next, prev) {
                Err(e) => Err(e),
                Ok(entry) => if entry.len() > expected - out.len() {
                    Err(Error::Invalid("GIF LZW output length"))
                } else {
                    match prev {
                        Some(old) => if next < 4096 {
                            if entry.len() == 0 {
                                Err(Error::Invalid("GIF LZW empty entry"))
                            } else if dict.len() < next {
                                Err(Error::Invalid("GIF LZW dictionary gap"))
                            } else {
                                let grown = if dict.len() == next {
                                    dict.push(old.push(entry[0]))
                                } else {
                                    dict.update(next, old.push(entry[0]))
                                };
                                let wider = if width < 12 && next + 1 == crate::extended::two_pow(
                                    width as nat,
                                ) {
                                    width + 1
                                } else {
                                    width
                                };
                                lzw_from(data, m, expected, after, grown, wider, next + 1, Some(entry), out + entry)
                            }
                        } else {
                            lzw_from(data, m, expected, after, dict, width, next, Some(entry), out + entry)
                        },
                        None => lzw_from(data, m, expected, after, dict, width, next, Some(entry), out + entry),
                    }
                },
            }
        }
    }
}

/// The GIF LZW decoding of `data` at minimum code size `m` into exactly
/// `expected` indices.
pub open spec fn lzw_decode(data: Seq<u8>, m: int, expected: int) -> Result<Seq<u8>, Error> {
    if m < 2 || m > 8 {
        Err(Error::Invalid("GIF LZW minimum code size"))
    } else {
        let clear = crate::extended::two_pow(m as nat) as int;
        lzw_from(data, m, expected, 0, lzw_reset(clear), m + 1, clear + 2, None, Seq::empty())
    }
}

/// Decodes a GIF LZW stream that must produce exactly `expected` indices.
pub fn decode_lzw(data: &[u8], minimum_code_size: u8, expected: usize) -> (r: Result<Vec<u8>, Error>)
    ensures
        match lzw_decode(data@, minimum_code_size as int, expected as int) {
            Ok(s) => r matches Ok(out) && out@ == s,
            Err(e) => r == Err::<Vec<u8>, Error>(e),
        },
        r matches Ok(out) ==> out@.len() == expected && 2 <= minimum_code_size <= 8,
        (minimum_code_size < 2 || minimum_code_size > 8) ==> r == Err::<Vec<u8>, Error>(
            Error::Invalid("GIF LZW minimum code size"),
        ),
{
    if minimum_code_size < 2 || minimum_code_size > 8 {
        return Err(Error::Invalid("GIF LZW minimum code size"));
    }
    let clear: usize = crate::png_codec::pow2_small(minimum_code_size as u32) as usize;
    proof {
        crate::extended::lemma_two_pow_mono(minimum_code_size as nat, 8);
        crate::extended::lemma_two_pow_is_pow2(8);
        crate::extended::lemma_two_pow_pos(minimum_code_size as nat);
        vstd::arithmetic::power2::lemma2_to64();
    }
    let end = clear + 1;
    let mut dictionary = reset_dictionary(clear);
    assert(dictionary@.map_values(|v: Vec<u8>| v@) =~= lzw_reset(clear as int));
    let mut width: u8 = minimum_code_size + 1;
    let mut next: usize = end + 1;
    let mut previous: Option<Vec<u8>> = None;
    let mut output: Vec<u8> = Vec::new();
    let mut bit: usize = 0;
    let ghost m = minimum_code_size as int;
    let ghost goal = lzw_decode(data@, m, expected as int);
    assert(output@ =~= Seq::<u8>::empty());
    loop
        invariant
            clear <= 256,
            clear == crate::extended::two_pow(m as nat),
            m == minimum_code_size,
            end == clear + 1,
            2 <= minimum_code_size <= 8,
            3 <= width <= 12,
            next <= 4096,
            dictionary@.len() <= 4096,
            bit <= data@.len() * 8,
            output@.len() <= expected,
            goal == lzw_decode(data@, m, expected as int),
            goal == lzw_from(
                data@,
                m,
                expected as int,
                bit as int,
                dictionary@.map_values(|v: Vec<u8>| v@),
                width as int,
                next as int,
                entry_view(previous),
                output@,
            ),
        decreases data@.len() * 8 - bit,
    {
        let ghost dict = dictionary@.map_values(|v: Vec<u8>| v@);
        let ghost prev = entry_view(previous);
        let ghost out0 = output@;
        let ghost bit0 = bit as int;
        let code = match read_code(data, &mut bit, width) {
            Ok(v) => v as usize,
            Err(e) => return Err(e),
        };
        if code == clear {
            dictionary = reset_dictionary(clear);
            assert(dictionary@.map_values(|v: Vec<u8>| v@) =~= lzw_reset(clear as int));
            width = minimum_code_size + 1;
            next = end + 1;
            previous = None;
            continue;
        }
        if code == end {
            if output.len() != expected {
                return Err(Error::Invalid("GIF LZW termination or output length"));
            }
            return Ok(output);
        }
        let entry: Vec<u8> = if code < dictionary.len() && dictionary[code].len() != 0 {
            assert(dict[code as int] == dictionary@[code as int]@);
            copy_bytes(&dictionary[code])
        } else if code == next {
            match &previous {
                Some(p) => {
                    if p.len() == 0 {
                        return Err(Error::Invalid("GIF LZW empty previous code"));
                    }
                    let mut value = copy_bytes(p);
                    value.push(p[0]);
                    value
                },
                None => return Err(Error::Invalid("GIF LZW first dictionary reference")),
            }
        } else {
            proof {
                if 0 <= code < dict.len() {
                    assert(dict[code as int] == dictionary@[code as int]@);
                }
            }
            return Err(Error::Invalid("GIF LZW dictionary reference"));
        };
        assert(lzw_entry(dict, code as int, next as int, prev) == Ok::<Seq<u8>, Error>(entry@));
        if entry.len() > expected - output.len() {
            return Err(Error::Invalid("GIF LZW output length"));
        }
        crate::bytes::push_range(&mut output, entry.as_slice(), 0, entry.len());
        assert(entry@.subrange(0, entry@.len() as int) =~= entry@);
        match previous {
            Some(old) => {
                if next < 4096 {
                    if entry.len() == 0 {
                        return Err(Error::Invalid("GIF LZW empty entry"));
                    }
                    let ghost grown_value = old@.push(entry@[0]);
                    let mut value = old;
                    value.push(entry[0]);
                    if dictionary.len() == next {
                        dictionary.push(value);
                        assert(dictionary@.map_values(|v: Vec<u8>| v@) =~= dict.push(grown_value));
                    } else if dictionary.len() > next {
                        dictionary.set(next, value);
                        assert(dictionary@.map_values(|v: Vec<u8>| v@) =~= dict.update(next as int, grown_value));
                    } else {
                        return Err(Error::Invalid("GIF LZW dictionary gap"));
                    }
                    next = next + 1;
                    if width < 12 && next == crate::png_codec::pow2_small(width as u32) as usize {
                        width = width + 1;
                    }
                }
            },
            None => {},
        }
        previous = Some(entry);
    }
}

#[derive(Debug, Clone, PartialEq, Eq)]
pub struct GifFrame {
    pub image: Image,
    pub delay_centiseconds: u16,
    pub disposal: u8,
}

#[derive(Debug, Clone, PartialEq, Eq)]
pub struct GifFile {
    pub version: &'static str,
    pub width: u32,
    pub height: u32,
    pub loop_count: Option<u16>,
    pub frames: Vec<GifFrame>,
    pub comments: usize,
}

/// The opaque pixel of the RGB triple at `at`.
pub open spec fn rgb_entry(b: Seq<u8>, at: int) -> Pixel {
    Pixel { r: b[at], g: b[at + 1], b: b[at + 2], a: 255 }
}

/// `entries` RGB triples at `*offset`, as opaque pixels.
fn read_palette(bytes: &[u8], offset: &mut usize, entries: usize) -> (r: Result<Vec<Pixel>, Error>)
    requires
        entries <= 256,
    ensures
        r is Ok <==> *old(offset) + 3 * entries <= bytes@.len(),
        r matches Ok(p) ==> p@.len() == entries && *final(offset) == *old(offset) + 3 * entries
            && *final(offset) <= bytes@.len(),
        r matches Ok(p) ==> forall|k: int|
            0 <= k < entries ==> #[trigger] p@[k] == rgb_entry(bytes@, *old(offset) + 3 * k),
        r is Err ==> *final(offset) == *old(offset),
{
    let len = bytes.len();
    if *offset > len || 3 * entries > len - *offset {
        return Err(Error::Truncated("GIF palette"));
    }
    let mut p: Vec<Pixel> = Vec::new();
    let mut k: usize = 0;
    while k < entries
        invariant
            k <= entries,
            entries <= 256,
            *offset + 3 * entries <= len,
            len == bytes@.len(),
            p@.len() == k,
            forall|j: int| 0 <= j < k ==> #[trigger] p@[j] == rgb_entry(bytes@, *offset + 3 * j),
        decreases entries - k,
    {
        let at = *offset + 3 * k;
        p.push(Pixel { r: bytes[at], g: bytes[at + 1], b: bytes[at + 2], a: 255 });
        k = k + 1;
    }
    *offset = *offset + 3 * entries;
    Ok(p)
}

/// The payloads of the data sub-blocks at `off` and the offset just past
/// their terminator, when every block is whole and the payloads hold at most
/// `max` bytes.
pub open spec fn sub_block_chain(b: Seq<u8>, off: int, max: int) -> Option<(Seq<u8>, int)>
    decreases b.len() - off,
{
    if off < 0 || off >= b.len() {
        None
    } else {
        let n = b[off] as int;
        if n == 0 {
            Some((Seq::<u8>::empty(), off + 1))
        } else if n > b.len() - (off + 1) || n > max {
            None
        } else {
            match sub_block_chain(b, off + 1 + n, max - n) {
                Some((rest, end)) => Some((b.subrange(off + 1, off + 1 + n) + rest, end)),
                None => None,
            }
        }
    }
}

/// `c` with `pre` put in front of its payloads.
pub open spec fn after_prefix(pre: Seq<u8>, c: Option<(Seq<u8>, int)>) -> Option<(Seq<u8>, int)> {
    match c {
        Some((rest, end)) => Some((pre + rest, end)),
        None => None,
    }
}

/// The payloads of the data sub-blocks at `*offset`, up to the terminator.
fn read_sub_blocks(bytes: &[u8], offset: &mut usize, max_bytes: usize) -> (r: Result<Vec<u8>, Error>)
    requires
        *old(offset) <= bytes@.len(),
    ensures
        *final(offset) <= bytes@.len(),
        *final(offset) >= *old(offset),
        r is Ok ==> *final(offset) > *old(offset),
        r matches Ok(v) ==> v@.len() <= max_bytes,
        r is Ok <==> sub_block_chain(bytes@, *old(offset) as int, max_bytes as int) is Some,
        r matches Ok(v) ==> sub_block_chain(bytes@, *old(offset) as int, max_bytes as int) == Some(
            (v@, *final(offset) as int),
        ),
{
    let len = bytes.len();
    let mut result: Vec<u8> = Vec::new();
    let start = *offset;
    assert(after_prefix(result@, sub_block_chain(bytes@, start as int, max_bytes as int))
        =~= sub_block_chain(bytes@, start as int, max_bytes as int)) by {
        match sub_block_chain(bytes@, start as int, max_bytes as int) {
            Some((rest, end)) => {
                assert(result@ + rest =~= rest);
            },
            None => {},
        }
    }
    loop
        invariant_except_break
            start <= *offset <= len,
            start == *old(offset),
            len == bytes@.len(),
            result@.len() <= max_bytes,
            sub_block_chain(bytes@, start as int, max_bytes as int) == after_prefix(
                result@,
                sub_block_chain(bytes@, *offset as int, max_bytes - result@.len()),
            ),
        ensures
            start < *offset <= len,
            result@.len() <= max_bytes,
            sub_block_chain(bytes@, start as int, max_bytes as int) == Some((result@, *offset as int)),
        decreases len - *offset,
    {
        let ghost off = *offset as int;
        let ghost max = max_bytes - result@.len();
        if *offset >= len {
            return Err(Error::Truncated("GIF sub-block length"));
        }
        let length = bytes[*offset] as usize;
        *offset = *offset + 1;
        if length == 0 {
            assert(result@ + Seq::<u8>::empty() =~= result@);
            break;
        }
        if length > len - *offset {
            return Err(Error::Truncated("GIF sub-block payload"));
        }
        let at = *offset;
        *offset = *offset + length;
        if length > max_bytes - result.len() {
            return Err(Error::Limit("GIF sub-block bytes"));
        }
        let ghost pre = result@;
        crate::bytes::push_range(&mut result, bytes, at, length);
        proof {
            let piece = bytes@.subrange(at as int, at + length);
            assert(result@ == pre + piece);
            assert(max_bytes - result@.len() == max - length);
            match sub_block_chain(bytes@, *offset as int, max - length) {
                Some((rest, end)) => {
                    assert(pre + (piece + rest) =~= result@ + rest);
                },
                None => {},
            }
        }
    }
    Ok(result)
}

/// The frame area a disposal acts on, and what it restores.
pub struct PreviousFrame {
    pub disposal: u8,
    pub left: usize,
    pub top: usize,
    pub width: usize,
    pub height: usize,
    pub saved: Option<Vec<Pixel>>,
    pub disposal_background: Pixel,
}

/// Whether canvas index `i`, on rows of `w` pixels, lies in the rectangle.
pub open spec fn in_rect(i: int, w: int, left: int, top: int, width: int, height: int) -> bool {
    &&& top <= i / w < top + height
    &&& left <= i % w < left + width
}

/// Paints the previous frame's rectangle with `value`.
fn fill_rect(canvas: &mut Vec<Pixel>, canvas_width: usize, canvas_height: usize, previous: &PreviousFrame, value: Pixel)
    requires
        old(canvas)@.len() == canvas_width * canvas_height,
        previous.left + previous.width <= canvas_width,
        previous.top + previous.height <= canvas_height,
    ensures
        final(canvas)@.len() == old(canvas)@.len(),
        forall|i: int|
            0 <= i < old(canvas)@.len() ==> #[trigger] final(canvas)@[i] == (if in_rect(
                i,
                canvas_width as int,
                previous.left as int,
                previous.top as int,
                previous.width as int,
                previous.height as int,
            ) {
                value
            } else {
                old(canvas)@[i]
            }),
{
    let _n = canvas.len();
    let ghost orig = canvas@;
    let ghost w = canvas_width as int;
    let ghost left = previous.left as int;
    let ghost top = previous.top as int;
    let ghost width = previous.width as int;
    let mut y = previous.top;
    while y < previous.top + previous.height
        invariant
            previous.top <= y <= previous.top + previous.height,
            previous.top + previous.height <= canvas_height,
            previous.left + previous.width <= canvas_width,
            canvas@.len() == canvas_width * canvas_height,
            _n == canvas@.len(),
            orig.len() == canvas@.len(),
            w == canvas_width,
            left == previous.left,
            top == previous.top,
            width == previous.width,
            forall|i: int|
                0 <= i < orig.len() ==> #[trigger] canvas@[i] == (if in_rect(i, w, left, top, width, y - top) {
                    value
                } else {
                    orig[i]
                }),
        decreases previous.top + previous.height - y,
    {
        assert(y * canvas_width + canvas_width <= canvas_width * canvas_height) by (nonlinear_arith)
            requires
                y < canvas_height,
        ;
        let start = y * canvas_width + previous.left;
        let mut x: usize = 0;
        while x < previous.width
            invariant
                x <= previous.width,
                start + previous.width <= canvas@.len(),
                start == y * canvas_width + previous.left,
                previous.left + previous.width <= canvas_width,
                previous.top <= y < previous.top + previous.height,
                canvas@.len() == canvas_width * canvas_height,
                _n == canvas@.len(),
                orig.len() == canvas@.len(),
                w == canvas_width,
                left == previous.left,
                top == previous.top,
                width == previous.width,
                forall|i: int|
                    0 <= i < orig.len() ==> #[trigger] canvas@[i] == (if in_rect(i, w, left, top, width, y - top)
                        || (i / w == y && left <= i % w < left + x) {
                        value
                    } else {
                        orig[i]
                    }),
            decreases previous.width - x,
        {
            let ghost before = canvas@;
            canvas.set(start + x, value);
            proof {
                let k = start + x;
                vstd::arithmetic::div_mod::lemma_fundamental_div_mod_converse(
                    k as int,
                    w,
                    y as int,
                    left + x,
                );
                assert forall|i: int| 0 <= i < orig.len() implies #[trigger] canvas@[i] == (if in_rect(
                    i,
                    w,
                    left,
                    top,
                    width,
                    y - top,
                ) || (i / w == y && left <= i % w < left + x + 1) {
                    value
                } else {
                    orig[i]
                }) by {
                    if i == k {
                        assert(canvas@[i] == value);
                        assert(i / w == y && i % w == left + x);
                    } else {
                        assert(canvas@[i] == before[i]);
                        if i / w == y && i % w == left + x {
                            vstd::arithmetic::div_mod::lemma_fundamental_div_mod(i, w);
                            vstd::arithmetic::mul::lemma_mul_is_commutative(w, y as int);
                            assert(i == k);
                        }
                    }
                }
            }
            x = x + 1;
        }
        y = y + 1;
    }
}

/// `NETSCAPE2.0`, the usual looping application identifier.
pub open spec fn netscape_id() -> Seq<u8> {
    seq![0x4eu8, 0x45, 0x54, 0x53, 0x43, 0x41, 0x50, 0x45, 0x32, 0x2e, 0x30]
}

/// `ANIMEXTS1.0`, the other looping application identifier.
pub open spec fn animexts_id() -> Seq<u8> {
    seq![0x41u8, 0x4e, 0x49, 0x4d, 0x45, 0x58, 0x54, 0x53, 0x31, 0x2e, 0x30]
}

/// Whether `bytes[start..start + 11]` spells one of the looping application
/// identifiers.
fn is_loop_extension(bytes: &[u8], start: usize, size: usize) -> (r: bool)
    requires
        start + size <= bytes@.len(),
    ensures
        r == (size == 11 && (bytes@.subrange(start as int, start + 11) == netscape_id()
            || bytes@.subrange(start as int, start + 11) == animexts_id())),
{
    if size != 11 {
        return false;
    }
    let netscape: [u8; 11] = [0x4e, 0x45, 0x54, 0x53, 0x43, 0x41, 0x50, 0x45, 0x32, 0x2e, 0x30];
    let animexts: [u8; 11] = [0x41, 0x4e, 0x49, 0x4d, 0x45, 0x58, 0x54, 0x53, 0x31, 0x2e, 0x30];
    let mut a = true;
    let mut b = true;
    let _n = bytes.len();
    let mut k: usize = 0;
    assert(netscape@ == netscape_id());
    assert(animexts@ == animexts_id());
    while k < 11
        invariant
            k <= 11,
            _n == bytes@.len(),
            start + 11 <= bytes@.len(),
            netscape@ == netscape_id(),
            animexts@ == animexts_id(),
            a <==> forall|j: int| 0 <= j < k ==> bytes@[start + j] == netscape_id()[j],
            b <==> forall|j: int| 0 <= j < k ==> bytes@[start + j] == animexts_id()[j],
        decreases 11 - k,
    {
        if bytes[start + k] != netscape[k] {
            a = false;
        }
        if bytes[start + k] != animexts[k] {
            b = false;
        }
        k = k + 1;
    }
    let ghost w = bytes@.subrange(start as int, start + 11);
    assert(a <==> w == netscape_id()) by {
        if a {
            assert(w =~= netscape_id());
        }
        if w == netscape_id() {
            assert forall|j: int| 0 <= j < 11 implies bytes@[start + j] == netscape_id()[j] by {
                assert(w[j] == bytes@[start + j]);
            }
        }
    }
    assert(b <==> w == animexts_id()) by {
        if b {
            assert(w =~= animexts_id());
        }
        if w == animexts_id() {
            assert forall|j: int| 0 <= j < 11 implies bytes@[start + j] == animexts_id()[j] by {
                assert(w[j] == bytes@[start + j]);
            }
        }
    }
    a || b
}

/// Every frame holds a full canvas of the logical screen.
pub open spec fn frames_ok(g: GifFile) -> bool {
    &&& g.frames@.len() >= 1
    &&& forall|i: int|
        0 <= i < g.frames@.len() ==> {
            &&& (#[trigger] g.frames@[i]).image.width == g.width
            &&& g.frames@[i].image.height == g.height
            &&& g.frames@[i].image.pixels@.len() == g.width * g.height
        }
}

/// Whether `b` starts with the GIF signature of version `87a` (`v` being
/// `0x37`) or `89a` (`0x39`).
pub open spec fn gif_signature(b: Seq<u8>, v: u8) -> bool {
    b[0] == 0x47 && b[1] == 0x49 && b[2] == 0x46 && b[3] == 0x38 && b[4] == v && b[5] == 0x61
}

/// The order in which a frame's `frame_height` stored rows go to the
/// frame's rows: row `i` of the stream is row `row_order(..)[i]`.
/// Interlaced order when bit 6 (`0x40`) of the image descriptor's packed
/// field is set, top to bottom otherwise.
pub open spec fn row_order(image_packed: u8, frame_height: int) -> Seq<int> {
    if (image_packed / 64) % 2 == 1 {
        interlaced(frame_height)
    } else {
        Seq::new(frame_height as nat, |i: int| i)
    }
}

/// The stored rows of a frame go to its rows in interlaced order exactly
/// when bit 6 (`0x40`) of the descriptor's packed byte is set, and to rows
/// top to bottom otherwise; either way every row of the frame is written
/// exactly once.
pub proof fn lemma_row_order(image_packed: u8, h: int)
    requires
        h >= 0,
    ensures
        ((64 <= image_packed < 128) || image_packed >= 192) ==> row_order(image_packed, h) == interlaced(h),
        !((64 <= image_packed < 128) || image_packed >= 192) ==> forall|i: int|
            0 <= i < h ==> #[trigger] row_order(image_packed, h)[i] == i,
        row_order(image_packed, h).len() == h,
        row_order(image_packed, h).no_duplicates(),
        forall|r: int| 0 <= r < h ==> #[trigger] row_order(image_packed, h).contains(r),
{
    lemma_interlace_permutation(h);
    if !((image_packed / 64) % 2 == 1) {
        let s = row_order(image_packed, h);
        assert forall|r: int| 0 <= r < h implies #[trigger] s.contains(r) by {
            assert(s[r] == r);
        }
    }
}

/// The target row of each stored row of a frame with `frame_height` rows
/// and the image-descriptor packed field `image_packed`.
pub fn frame_rows(image_packed: u8, frame_height: usize) -> (rows: Vec<usize>)
    ensures
        rows@.len() == frame_height,
        forall|j: int| 0 <= j < rows@.len() ==> #[trigger] rows@[j] < frame_height,
        rows@.map_values(|r: usize| r as int) == row_order(image_packed, frame_height as int),
        rows@.no_duplicates(),
{
    let rows: Vec<usize> = if image_packed % 128 >= 64 {
        let r = interlace_rows(frame_height);
        proof {
            lemma_interlace_permutation(frame_height as int);
            assert forall|k: int| 0 <= k < r@.len() implies #[trigger] r@[k] < frame_height by {
                assert(r@.map_values(|v: usize| v as int)[k] == r@[k] as int);
            }
        }
        r
    } else {
        let mut r: Vec<usize> = Vec::new();
        let mut k: usize = 0;
        while k < frame_height
            invariant
                k <= frame_height,
                r@.len() == k,
                forall|j: int| 0 <= j < k ==> #[trigger] r@[j] < frame_height,
                forall|j: int| 0 <= j < k ==> #[trigger] r@[j] == j,
            decreases frame_height - k,
        {
            r.push(k);
            k = k + 1;
        }
        assert(r@.map_values(|v: usize| v as int) =~= Seq::new(frame_height as nat, |i: int| i));
        r
    };
    proof {
        lemma_interlace_permutation(frame_height as int);
        lemma_row_order(image_packed, frame_height as int);
        assert(rows@.len() == rows@.map_values(|v: usize| v as int).len());
        let m = rows@.map_values(|v: usize| v as int);
        assert forall|a: int, b: int| 0 <= a < rows@.len() && 0 <= b < rows@.len() && a != b implies rows@[a] != rows@[b] by {
            assert(m[a] == rows@[a] as int && m[b] == rows@[b] as int);
        }
    }
    rows
}

/// What compositing index `index` onto the canvas pixel `old` gives: `old`
/// when `index` is the transparent index, else the palette colour.
pub open spec fn painted(old: Pixel, index: u8, palette: Seq<Pixel>, transparent: Option<u8>) -> Pixel {
    if transparent == Some(index) {
        old
    } else {
        palette[index as int]
    }
}

/// Composites a `frame_width` by `frame_height` frame of palette indices
/// `decoded` onto the `w`-wide canvas at (`left`, `top`): stored row `s`
/// goes to frame row `rows[s]`, each index paints its palette colour, and
/// the transparent index leaves the canvas as it was.
#[verifier::loop_isolation(false)]
fn paint_frame(
    canvas: &mut Vec<Pixel>,
    decoded: &Vec<u8>,
    palette: &Vec<Pixel>,
    rows: &Vec<usize>,
    w: usize,
    h: usize,
    left: usize,
    top: usize,
    frame_width: usize,
    frame_height: usize,
    transparent: Option<u8>,
) -> (r: Result<(), Error>)
    requires
        old(canvas)@.len() == w * h,
        w * h <= usize::MAX,
        decoded@.len() == frame_width * frame_height,
        rows@.len() == frame_height,
        forall|j: int| 0 <= j < rows@.len() ==> #[trigger] rows@[j] < frame_height,
        rows@.no_duplicates(),
        left + frame_width <= w,
        top + frame_height <= h,
    ensures
        final(canvas)@.len() == old(canvas)@.len(),
        r matches Err(e) ==> e == Error::Invalid("GIF palette index"),
        r is Err <==> exists|s: int, x: int|
            0 <= s < frame_height && 0 <= x < frame_width && transparent != Some(
                #[trigger] decoded@[s * frame_width + x],
            ) && decoded@[s * frame_width + x] >= palette@.len(),
        r is Ok ==> forall|i: int|
            0 <= i < old(canvas)@.len() && !in_rect(i, w as int, left as int, top as int, frame_width as int, frame_height as int)
                ==> #[trigger] final(canvas)@[i] == old(canvas)@[i],
        r is Ok ==> forall|s: int, x: int|
            0 <= s < frame_height && 0 <= x < frame_width ==> #[trigger] final(canvas)@[(top + rows@[s]) * w + left + x]
                == painted(
                old(canvas)@[(top + rows@[s]) * w + left + x],
                decoded@[s * frame_width + x],
                palette@,
                transparent,
            ),
{
    let ghost orig = canvas@;
    let _d = decoded.len();
    let mut source_row: usize = 0;
    while source_row < rows.len()
        invariant
            source_row <= frame_height,
            canvas@.len() == orig.len(),
            forall|s: int, x: int|
                0 <= s < source_row && 0 <= x < frame_width ==> transparent == Some(#[trigger] decoded@[s * frame_width + x])
                    || decoded@[s * frame_width + x] < palette@.len(),
            forall|i: int|
                0 <= i < orig.len() && (!in_rect(i, w as int, left as int, top as int, frame_width as int, frame_height as int)
                    || forall|s: int| 0 <= s < source_row ==> (i / (w as int)) != top + #[trigger] rows@[s]) ==> #[trigger] canvas@[i]
                    == orig[i],
            forall|s: int, x: int|
                0 <= s < source_row && 0 <= x < frame_width ==> #[trigger] canvas@[(top + rows@[s]) * w + left + x] == painted(
                    orig[(top + rows@[s]) * w + left + x],
                    decoded@[s * frame_width + x],
                    palette@,
                    transparent,
                ),
        decreases rows@.len() - source_row,
    {
        let target_row = rows[source_row];
        let ghost before_row = canvas@;
        let mut x: usize = 0;
        while x < frame_width
            invariant
                x <= frame_width,
                canvas@.len() == orig.len(),
                source_row < frame_height,
                target_row == rows@[source_row as int],
                forall|x2: int|
                    0 <= x2 < x ==> transparent == Some(#[trigger] decoded@[source_row * frame_width + x2])
                        || decoded@[source_row * frame_width + x2] < palette@.len(),
                forall|i: int|
                    0 <= i < orig.len() && !(i / (w as int) == top + target_row && left <= i % (w as int) < left + x)
                        ==> #[trigger] canvas@[i] == before_row[i],
                forall|x2: int|
                    0 <= x2 < x ==> #[trigger] canvas@[(top + target_row) * w + left + x2] == painted(
                        before_row[(top + target_row) * w + left + x2],
                        decoded@[source_row * frame_width + x2],
                        palette@,
                        transparent,
                    ),
            decreases frame_width - x,
        {
            assert(source_row * frame_width + x < frame_width * frame_height) by (nonlinear_arith)
                requires
                    source_row < frame_height,
                    x < frame_width,
            ;
            let index = decoded[source_row * frame_width + x];
            let skip = match transparent {
                Some(t) => t == index,
                None => false,
            };
            let ghost pos = (top + target_row) * w + left + x;
            assert((top + target_row) * w + left + x < w * h) by (nonlinear_arith)
                requires
                    top + target_row < h,
                    left + x < w,
            ;
            proof {
                vstd::arithmetic::div_mod::lemma_fundamental_div_mod_converse(pos, w as int, top + target_row, left + x);
            }
            if !skip {
                if index as usize >= palette.len() {
                    return Err(Error::Invalid("GIF palette index"));
                }
                let color = palette[index as usize];
                let ghost prev = canvas@;
                canvas.set((top + target_row) * w + left + x, color);
                assert forall|i: int|
                    0 <= i < orig.len() && !(i / (w as int) == top + target_row && left <= i % (w as int) < left + x + 1)
                        implies #[trigger] canvas@[i] == before_row[i] by {
                    assert(canvas@[i] == prev[i]);
                }
            }
            assert forall|x2: int|
                0 <= x2 < x + 1 implies #[trigger] canvas@[(top + target_row) * w + left + x2] == painted(
                    before_row[(top + target_row) * w + left + x2],
                    decoded@[source_row * frame_width + x2],
                    palette@,
                    transparent,
                ) by {
                if x2 < x {
                    assert((top + target_row) * w + left + x2 != (top + target_row) * w + left + x);
                }
            }
            x = x + 1;
        }
        proof {
            assert forall|i: int|
                0 <= i < orig.len() && (!in_rect(i, w as int, left as int, top as int, frame_width as int, frame_height as int)
                    || forall|s: int| 0 <= s < source_row + 1 ==> (i / (w as int)) != top + #[trigger] rows@[s]) implies #[trigger] canvas@[i]
                    == orig[i] by {
                vstd::arithmetic::div_mod::lemma_fundamental_div_mod(i, w as int);
                if !in_rect(i, w as int, left as int, top as int, frame_width as int, frame_height as int) {
                    if i / (w as int) == top + target_row {
                        assert(!(left <= i % (w as int) < left + frame_width));
                    }
                } else {
                    assert((i / (w as int)) != top + rows@[source_row as int]);
                }
                assert(canvas@[i] == before_row[i]);
            }
            assert forall|s: int, x2: int|
                0 <= s < source_row + 1 && 0 <= x2 < frame_width implies #[trigger] canvas@[(top + rows@[s]) * w + left + x2]
                    == painted(orig[(top + rows@[s]) * w + left + x2], decoded@[s * frame_width + x2], palette@, transparent) by {
                let p = (top + rows@[s]) * w + left + x2;
                assert(0 <= rows@[s] < frame_height);
                assert(p < w * h) by (nonlinear_arith)
                    requires
                        p == (top + rows@[s]) * w + left + x2,
                        top + rows@[s] < h,
                        left + x2 < w,
                ;
                vstd::arithmetic::div_mod::lemma_fundamental_div_mod_converse(p, w as int, top + rows@[s], left + x2);
                if s < source_row {
                    assert(rows@[s] != rows@[source_row as int]);
                    assert(canvas@[p] == before_row[p]);
                } else {
                    assert(forall|s2: int| 0 <= s2 < source_row ==> (p / (w as int)) != top + #[trigger] rows@[s2]) by {
                        assert forall|s2: int| 0 <= s2 < source_row implies (p / (w as int)) != top + #[trigger] rows@[s2] by {
                            assert(rows@[s2] != rows@[source_row as int]);
                        }
                    }
                    assert(before_row[p] == orig[p]);
                }
            }
        }
        source_row = source_row + 1;
    }
    proof {
        assert forall|i: int|
            0 <= i < orig.len() && !in_rect(i, w as int, left as int, top as int, frame_width as int, frame_height as int)
                implies #[trigger] canvas@[i] == orig[i] by {}
    }
    Ok(())
}

/// Decodes every frame of a GIF onto the logical screen.
pub fn decode_gif(bytes: &[u8], max_pixels: u64, max_frames: u32, max_sub_block_bytes: usize) -> (r: Result<GifFile, Error>)
    ensures
        bytes@.len() < 6 ==> r == Err::<GifFile, Error>(Error::Truncated("GIF header")),
        bytes@.len() >= 6 && !gif_signature(bytes@, 0x37) && !gif_signature(bytes@, 0x39) ==> r
            == Err::<GifFile, Error>(Error::Signature("GIF")),
        6 <= bytes@.len() < 13 && (gif_signature(bytes@, 0x37) || gif_signature(bytes@, 0x39)) ==> r
            == Err::<GifFile, Error>(Error::Truncated("GIF logical screen descriptor")),
        bytes@.len() >= 13 && (gif_signature(bytes@, 0x37) || gif_signature(bytes@, 0x39)) && (le16(
            bytes@,
            6,
        ) == 0 || le16(bytes@, 8) == 0) ==> r == Err::<GifFile, Error>(Error::Invalid("zero image dimension")),
        bytes@.len() >= 13 && (gif_signature(bytes@, 0x37) || gif_signature(bytes@, 0x39)) && le16(bytes@, 6)
            >= 1 && le16(bytes@, 8) >= 1 && le16(bytes@, 6) * le16(bytes@, 8) > max_pixels ==> r == Err::<
            GifFile,
            Error,
        >(Error::Limit("pixel count")),
        r matches Ok(g) ==> g.version == (if gif_signature(bytes@, 0x37) { "GIF87a" } else { "GIF89a" })
            && g.frames@.len() >= 1 && bytes@[bytes@.len() - 1] == 0x3b,
        r matches Ok(g) ==> {
            &&& frames_ok(g)
            &&& g.frames@.len() <= max_frames
            &&& g.width * g.height <= max_pixels
            &&& bytes@.len() >= 13
            &&& g.width == le16(bytes@, 6)
            &&& g.height == le16(bytes@, 8)
        },
{
    let len = bytes.len();
    if len < 6 {
        return Err(Error::Truncated("GIF header"));
    }
    let is87 = bytes[0] == 0x47 && bytes[1] == 0x49 && bytes[2] == 0x46 && bytes[3] == 0x38 && bytes[4] == 0x37 && bytes[5] == 0x61;
    let is89 = bytes[0] == 0x47 && bytes[1] == 0x49 && bytes[2] == 0x46 && bytes[3] == 0x38 && bytes[4] == 0x39 && bytes[5] == 0x61;
    let version: &'static str = if is87 {
        "GIF87a"
    } else if is89 {
        "GIF89a"
    } else {
        return Err(Error::Signature("GIF"));
    };
    if len < 13 {
        return Err(Error::Truncated("GIF logical screen descriptor"));
    }
    let width = read_le16(bytes, 6) as u32;
    let height = read_le16(bytes, 8) as u32;
    let count = match checked_pixels(width, height, max_pixels) {
        Ok(c) => c,
        Err(e) => return Err(e),
    };
    let w = width as usize;
    let h = height as usize;
    let packed = bytes[10];
    let background_index = bytes[11] as usize;
    let mut offset: usize = 13;
    let global: Option<Vec<Pixel>> = if packed >= 0x80 {
        let n = crate::png_codec::pow2_small((packed % 8) as u32 + 1) as usize;
        proof {
            crate::extended::lemma_two_pow_mono(((packed % 8) + 1) as nat, 8);
            crate::extended::lemma_two_pow_is_pow2(8);
            vstd::arithmetic::power2::lemma2_to64();
        }
        match read_palette(bytes, &mut offset, n) {
            Ok(p) => Some(p),
            Err(e) => return Err(e),
        }
    } else {
        None
    };
    let background: Pixel = match &global {
        Some(p) => if background_index < p.len() {
            p[background_index]
        } else {
            Pixel { r: 0, g: 0, b: 0, a: 0 }
        },
        None => Pixel { r: 0, g: 0, b: 0, a: 0 },
    };
    let mut canvas: Vec<Pixel> = Vec::new();
    let mut i: usize = 0;
    while i < count
        invariant
            i <= count,
            canvas@.len() == i,
        decreases count - i,
    {
        canvas.push(background);
        i = i + 1;
    }
    let mut c_disposal: u8 = 0;
    let mut c_delay: u16 = 0;
    let mut c_transparent: Option<u8> = None;
    let mut previous: Option<PreviousFrame> = None;
    let mut frames: Vec<GifFrame> = Vec::new();
    let mut loop_count: Option<u16> = None;
    let mut comments: usize = 0;
    let mut trailer = false;
    while offset < len
        invariant_except_break
            !trailer,
        invariant
            offset <= len,
            len == bytes@.len(),
            len >= 13,
            count == w * h,
            w == width && h == height,
            width == le16(bytes@, 6),
            height == le16(bytes@, 8),
            canvas@.len() == count,
            frames@.len() <= max_frames,
            trailer ==> offset >= 1 && bytes@[offset - 1] == 0x3b,
            gif_signature(bytes@, 0x37) || gif_signature(bytes@, 0x39),
            version == (if gif_signature(bytes@, 0x37) { "GIF87a" } else { "GIF89a" }),
            1 <= width && 1 <= height && width * height <= max_pixels,
            c_disposal <= 3,
            previous matches Some(p) ==> p.left + p.width <= w && p.top + p.height <= h && (p.saved matches Some(s) ==> s@.len() == count),
            forall|k: int|
                0 <= k < frames@.len() ==> {
                    &&& (#[trigger] frames@[k]).image.width == width
                    &&& frames@[k].image.height == height
                    &&& frames@[k].image.pixels@.len() == width * height
                },
        decreases len - offset,
    {
        let marker = bytes[offset];
        offset = offset + 1;
        if marker == 0x3b {
            trailer = true;
            break;
        } else if marker == 0x21 {
            if offset >= len {
                return Err(Error::Truncated("GIF extension label"));
            }
            let label = bytes[offset];
            offset = offset + 1;
            if label == 0xf9 {
                if offset >= len {
                    return Err(Error::Truncated("GIF graphic-control size"));
                }
                let size = bytes[offset] as usize;
                offset = offset + 1;
                if size != 4 {
                    return Err(Error::Invalid("GIF graphic-control size"));
                }
                if len - offset < 4 {
                    return Err(Error::Truncated("GIF graphic-control payload"));
                }
                let raw0 = bytes[offset];
                let delay = read_le16(bytes, offset + 1);
                let raw3 = bytes[offset + 3];
                offset = offset + 4;
                if offset >= len {
                    return Err(Error::Truncated("GIF graphic-control terminator"));
                }
                if bytes[offset] != 0 {
                    return Err(Error::Invalid("GIF graphic-control terminator"));
                }
                offset = offset + 1;
                let disposal = (raw0 / 4) % 8;
                if disposal > 3 {
                    return Err(Error::Unsupported("GIF disposal method above 3"));
                }
                c_disposal = disposal;
                c_delay = delay;
                c_transparent = if raw0 % 2 != 0 { Some(raw3) } else { None };
            } else if label == 0xff {
                if offset >= len {
                    return Err(Error::Truncated("GIF application size"));
                }
                let size = bytes[offset] as usize;
                offset = offset + 1;
                if size > len - offset {
                    return Err(Error::Truncated("GIF application identifier"));
                }
                let id_at = offset;
                offset = offset + size;
                let data = match read_sub_blocks(bytes, &mut offset, max_sub_block_bytes) {
                    Ok(d) => d,
                    Err(e) => return Err(e),
                };
                if is_loop_extension(bytes, id_at, size) && data.len() >= 3 && data[0] == 1 {
                    loop_count = Some(data[1] as u16 + 256 * (data[2] as u16));
                }
            } else if label == 0xfe {
                match read_sub_blocks(bytes, &mut offset, max_sub_block_bytes) {
                    Ok(_) => {},
                    Err(e) => return Err(e),
                }
                comments = comments.wrapping_add(1);
            } else if label == 0x01 {
                return Err(Error::Unsupported("GIF plain-text rendering extension"));
            } else {
                match read_sub_blocks(bytes, &mut offset, max_sub_block_bytes) {
                    Ok(_) => {},
                    Err(e) => return Err(e),
                }
            }
        } else if marker == 0x2c {
            if frames.len() >= max_frames as usize {
                return Err(Error::Limit("GIF frame count"));
            }
            match previous {
                Some(state) => {
                    if state.disposal == 2 {
                        fill_rect(&mut canvas, w, h, &state, state.disposal_background);
                    } else if state.disposal == 3 {
                        match state.saved {
                            Some(saved) => {
                                canvas = saved;
                            },
                            None => {},
                        }
                    }
                },
                None => {},
            }
            previous = None;
            if len - offset < 9 {
                return Err(Error::Truncated("GIF image descriptor"));
            }
            let left = read_le16(bytes, offset) as usize;
            let top = read_le16(bytes, offset + 2) as usize;
            let frame_width = read_le16(bytes, offset + 4) as usize;
            let frame_height = read_le16(bytes, offset + 6) as usize;
            let image_packed = bytes[offset + 8];
            offset = offset + 9;
            if frame_width == 0 || frame_height == 0 || left + frame_width > w || top + frame_height > h {
                return Err(Error::Invalid("GIF frame rectangle"));
            }
            let local: Option<Vec<Pixel>> = if image_packed >= 0x80 {
                let n = crate::png_codec::pow2_small((image_packed % 8) as u32 + 1) as usize;
                proof {
                    crate::extended::lemma_two_pow_mono(((image_packed % 8) + 1) as nat, 8);
                    crate::extended::lemma_two_pow_is_pow2(8);
                    vstd::arithmetic::power2::lemma2_to64();
                }
                match read_palette(bytes, &mut offset, n) {
                    Ok(p) => Some(p),
                    Err(e) => return Err(e),
                }
            } else {
                None
            };
            let palette: &Vec<Pixel> = match &local {
                Some(p) => p,
                None => match &global {
                    Some(p) => p,
                    None => return Err(Error::Invalid("GIF missing color table")),
                },
            };
            if offset >= len {
                return Err(Error::Truncated("GIF LZW minimum code size"));
            }
            let minimum = bytes[offset];
            offset = offset + 1;
            let compressed = match read_sub_blocks(bytes, &mut offset, max_sub_block_bytes) {
                Ok(d) => d,
                Err(e) => return Err(e),
            };
            assert(frame_width * frame_height <= w * h) by (nonlinear_arith)
                requires
                    frame_width <= w,
                    frame_height <= h,
            ;
            let frame_count = frame_width * frame_height;
            let decoded = match decode_lzw(compressed.as_slice(), minimum, frame_count) {
                Ok(d) => d,
                Err(e) => return Err(e),
            };
            let rows = frame_rows(image_packed, frame_height);
            if frames.len() == 0 && c_transparent.is_some() {
                let mut k: usize = 0;
                while k < canvas.len()
                    invariant
                        k <= canvas@.len(),
                        canvas@.len() == count,
                    decreases canvas@.len() - k,
                {
                    canvas.set(k, Pixel { r: 0, g: 0, b: 0, a: 0 });
                    k = k + 1;
                }
            }
            let saved: Option<Vec<Pixel>> = if c_disposal == 3 {
                Some(canvas.clone())
            } else {
                None
            };
            match paint_frame(
                &mut canvas,
                &decoded,
                palette,
                &rows,
                w,
                h,
                left,
                top,
                frame_width,
                frame_height,
                c_transparent,
            ) {
                Ok(()) => {},
                Err(e) => return Err(e),
            }
            let snapshot = canvas.clone();
            frames.push(
                GifFrame {
                    image: Image { width, height, pixels: snapshot },
                    delay_centiseconds: c_delay,
                    disposal: c_disposal,
                },
            );
            previous = Some(
                PreviousFrame {
                    disposal: c_disposal,
                    left,
                    top,
                    width: frame_width,
                    height: frame_height,
                    saved,
                    disposal_background: if c_transparent.is_some() {
                        Pixel { r: 0, g: 0, b: 0, a: 0 }
                    } else {
                        background
                    },
                },
            );
            c_disposal = 0;
            c_delay = 0;
            c_transparent = None;
        } else {
            return Err(Error::Invalid("GIF block marker"));
        }
    }
    if !trailer || frames.len() == 0 {
        return Err(Error::Invalid("GIF trailer or frame set"));
    }
    if offset != len {
        return Err(Error::Invalid("GIF trailing data"));
    }
    Ok(GifFile { version, width, height, loop_count, frames, comments })
}

/// Packs variable-width LZW codes least significant bit first.
pub struct GifWriter {
    pub bytes: Vec<u8>,
    pub value: u32,
    pub bits: u8,
}

impl GifWriter {
    pub open spec fn wf(self) -> bool {
        self.bits < 8 && self.value < (1u32 << self.bits)
    }

    /// Bits written so far, pending ones included.
    pub open spec fn bit_len(self) -> int {
        8 * self.bytes@.len() + self.bits
    }

    /// The value of every bit written so far, the first as the least
    /// significant.
    pub open spec fn stream(self) -> int {
        stream_value(self.bytes@, self.value as int)
    }

    /// Appends `code` as `width` bits.
    pub fn code(&mut self, code: u16, width: u8)
        requires
            old(self).wf(),
            width <= 12,
            code < (1u16 << width),
        ensures
            final(self).wf(),
            final(self).bytes@.len() >= old(self).bytes@.len(),
            final(self).bytes@.subrange(0, old(self).bytes@.len() as int) == old(self).bytes@,
            final(self).bit_len() == old(self).bit_len() + width,
            final(self).stream() == old(self).stream() + code * pow2(old(self).bit_len() as nat),
    {
        let v = self.value;
        let n = self.bits;
        assert((v | ((code as u32) << (n as u32))) < (1u32 << ((n + width) as u32))) by (bit_vector)
            requires
                v < (1u32 << n),
                n < 8,
                code < (1u16 << width),
                width <= 12,
        ;
        assert((v | ((code as u32) << (n as u32))) == v + ((code as u32) << (n as u32))) by (bit_vector)
            requires
                v < (1u32 << n),
                n < 8,
                code < (1u16 << width),
                width <= 12,
        ;
        proof {
            assert(code < 4096) by (bit_vector)
                requires
                    code < (1u16 << width),
                    width <= 12,
            ;
            vstd::arithmetic::power2::lemma2_to64();
            vstd::arithmetic::power2::lemma_pow2_pos(n as nat);
            assert(pow2(n as nat) <= 128) by {
                if n < 7 {
                    vstd::arithmetic::power2::lemma_pow2_strictly_increases(n as nat, 7);
                }
            }
            assert(code as u32 * pow2(n as nat) <= u32::MAX) by (nonlinear_arith)
                requires
                    code < 4096,
                    pow2(n as nat) <= 128,
            ;
            vstd::bits::lemma_u32_shl_is_mul(code as u32, n as u32);
            lemma_add_pending(self.bytes@, v as int, code as int, n as nat);
        }
        self.value = v | ((code as u32) << (n as u32));
        self.bits = n + width;
        let ghost start = self.bytes@;
        let ghost target = old(self).stream() + code * pow2(old(self).bit_len() as nat);
        let ghost target_len = old(self).bit_len() + width;
        assert(self.stream() == target);
        while self.bits >= 8
            invariant
                self.bits <= 20,
                self.value < (1u32 << (self.bits as u32)),
                self.bytes@.len() >= start.len(),
                self.bytes@.subrange(0, start.len() as int) == start,
                start == old(self).bytes@,
                self.stream() == target,
                self.bit_len() == target_len,
            decreases self.bits,
        {
            let v = self.value;
            let n = self.bits;
            let ghost before = self.bytes@;
            self.bytes.push((v & 0xff) as u8);
            assert(self.bytes@.subrange(0, start.len() as int) =~= before.subrange(0, start.len() as int));
            assert((v >> 8u32) < (1u32 << ((n - 8) as u32))) by (bit_vector)
                requires
                    v < (1u32 << (n as u32)),
                    8 <= n <= 20,
            ;
            assert(v == (v >> 8u32) * 256 + ((v & 0xff) as u8)) by (bit_vector);
            proof {
                lemma_flush_byte(before, v as int, (v >> 8u32) as int, (v & 0xff) as u8);
            }
            self.value = v >> 8;
            self.bits = n - 8;
        }
    }

    pub fn finish(self) -> (out: Vec<u8>)
        ensures
            out@ == (if self.bits != 0 {
                self.bytes@.push(self.value as u8)
            } else {
                self.bytes@
            }),
            self.wf() ==> crate::bytes::le_value(out@) == self.stream() && out@.len() == (self.bit_len() + 7)
                / 8,
    {
        let mut out = self.bytes;
        let ghost p = pow2((8 * out@.len()) as nat) as int;
        if self.bits != 0 {
            proof {
                if self.wf() {
                    let n = self.bits;
                    let v = self.value;
                    assert(v < 256) by (bit_vector)
                        requires
                            v < (1u32 << n),
                            n < 8,
                    ;
                    assert(out@.push(v as u8).drop_last() =~= out@);
                    assert(crate::bytes::le_value(out@.push(v as u8)) == crate::bytes::le_value(out@) + v * p);
                }
            }
            out.push(self.value as u8);
        } else {
            proof {
                if self.wf() {
                    let v = self.value;
                    assert(v == 0) by (bit_vector)
                        requires
                            v < (1u32 << 0u8),
                    ;
                    assert(v * p == 0) by (nonlinear_arith)
                        requires
                            v == 0,
                    ;
                }
            }
        }
        out
    }
}

/// `s` as GIF data sub-blocks of at most 255 bytes, then the terminator.
pub open spec fn sub_blocks(s: Seq<u8>) -> Seq<u8>
    decreases s.len(),
{
    if s.len() == 0 {
        seq![0u8]
    } else if s.len() <= 255 {
        seq![s.len() as u8] + s + seq![0u8]
    } else {
        seq![255u8] + s.subrange(0, 255) + sub_blocks(s.subrange(255, s.len() as int))
    }
}

pub fn write_sub_blocks(out: &mut Vec<u8>, bytes: &Vec<u8>)
    ensures
        final(out)@ == old(out)@ + sub_blocks(bytes@),
{
    let len = bytes.len();
    let mut pos: usize = 0;
    assert(bytes@.subrange(0, len as int) =~= bytes@);
    while pos < len
        invariant
            pos <= len,
            len == bytes@.len(),
            out@ + sub_blocks(bytes@.subrange(pos as int, len as int)) == old(out)@ + sub_blocks(bytes@),
        decreases len - pos,
    {
        let ghost rest = bytes@.subrange(pos as int, len as int);
        let n = if len - pos < 255 { len - pos } else { 255 };
        out.push(n as u8);
        crate::bytes::push_range(out, bytes.as_slice(), pos, n);
        if n < 255 {
            assert(rest.len() <= 255);
            assert(bytes@.subrange(pos as int, pos + n) =~= rest);
            assert(bytes@.subrange(pos + n, len as int) =~= Seq::<u8>::empty());
        } else {
            assert(rest.subrange(0, 255) =~= bytes@.subrange(pos as int, pos + 255));
            assert(rest.subrange(255, rest.len() as int) =~= bytes@.subrange(pos + 255, len as int));
            proof {
                if rest.len() == 255 {
                    assert(bytes@.subrange(pos + 255, len as int) =~= Seq::<u8>::empty());
                }
            }
        }
        pos = pos + n;
    }
    out.push(0u8);
    assert(bytes@.subrange(pos as int, len as int) =~= Seq::<u8>::empty());
    assert(out@ =~= old(out)@ + sub_blocks(bytes@));
}

proof fn lemma_shift_lt(a: u8, b: u8)
    requires
        1 <= a < b <= 15,
    ensures
        (1u16 << a) < (1u16 << b),
        (1u16 << a) + 1 < (1u16 << b),
{
    assert((1u16 << a) < (1u16 << b) && (1u16 << a) + 1 < (1u16 << b)) by (bit_vector)
        requires
            1 <= a < b <= 15,
    ;
}

/// The codes for `indices[i..]` and the end code, `(value, bits)`: each
/// index as a literal at the width the decoder's growing table calls for,
/// where `next` is the decoder's next table slot, `width` the code width and
/// `previous` whether a code came before.
pub open spec fn literal_codes(indices: Seq<u8>, i: int, next: int, width: int, previous: bool, end: int) -> (
    int,
    int,
)
    decreases indices.len() - i,
{
    if i < 0 || i >= indices.len() {
        (end, width)
    } else {
        let grown = previous && next < 4096;
        let next2 = if grown {
            next + 1
        } else {
            next
        };
        let width2 = if grown && width < 12 && next2 == pow2(width as nat) {
            width + 1
        } else {
            width
        };
        let (rv, rl) = literal_codes(indices, i + 1, next2, width2, true, end);
        (indices[i] + rv * pow2(width as nat), width + rl)
    }
}

/// The whole literal LZW stream for `indices`, `(value, bits)`: the clear
/// code, the literal codes, the end code.
pub open spec fn literal_lzw(indices: Seq<u8>, minimum_code_size: int) -> (int, int) {
    let clear = pow2(minimum_code_size as nat) as int;
    let width = minimum_code_size + 1;
    let (rv, rl) = literal_codes(indices, 0, clear + 2, width, false, clear + 1);
    (clear + rv * pow2(width as nat), width + rl)
}

/// An LZW stream that codes every index as a literal: a clear code, one code
/// per index (widening as the decoder's table grows) and the end code.
pub fn encode_literal_lzw(indices: &Vec<u8>, minimum_code_size: u8) -> (out: Vec<u8>)
    requires
        2 <= minimum_code_size <= 8,
        forall|i: int| 0 <= i < indices@.len() ==> (indices@[i] as u16) < (1u16 << minimum_code_size),
    ensures
        crate::bytes::le_value(out@) == literal_lzw(indices@, minimum_code_size as int).0,
        out@.len() == (literal_lzw(indices@, minimum_code_size as int).1 + 7) / 8,
{
    let clear: u16 = 1u16 << minimum_code_size;
    assert(clear <= 256) by (bit_vector)
        requires
            clear == (1u16 << minimum_code_size),
            minimum_code_size <= 8,
    ;
    let end = clear + 1;
    let mut width: u8 = minimum_code_size + 1;
    let mut next: usize = end as usize + 1;
    let mut previous = false;
    let mut codes = GifWriter { bytes: Vec::new(), value: 0, bits: 0 };
    assert(0u32 < (1u32 << 0u8)) by (bit_vector);
    proof {
        lemma_shift_lt(minimum_code_size, width);
        vstd::arithmetic::power2::lemma2_to64();
        vstd::bits::lemma_u16_shl_is_mul(1u16, minimum_code_size as u16);
    }
    assert(codes.stream() == 0 && codes.bit_len() == 0) by {
        assert(codes.bytes@.len() == 0);
    }
    codes.code(clear, width);
    let ghost w0 = width as int;
    let ghost goal_v = literal_lzw(indices@, minimum_code_size as int).0;
    let ghost goal_l = literal_lzw(indices@, minimum_code_size as int).1;
    assert(clear == pow2(minimum_code_size as nat));
    let mut i: usize = 0;
    while i < indices.len()
        invariant
            2 <= minimum_code_size <= 8,
            minimum_code_size < width <= 12,
            clear == (1u16 << minimum_code_size),
            clear == pow2(minimum_code_size as nat),
            end == clear + 1,
            codes.wf(),
            forall|i: int| 0 <= i < indices@.len() ==> (indices@[i] as u16) < (1u16 << minimum_code_size),
            i <= indices@.len(),
            next <= 4096,
            i > 0 <==> previous,
            codes.stream() + literal_codes(indices@, i as int, next as int, width as int, previous, end as int).0
                * pow2(codes.bit_len() as nat) == goal_v,
            codes.bit_len() + literal_codes(indices@, i as int, next as int, width as int, previous, end as int).1
                == goal_l,
            codes.bit_len() >= 0,
        decreases indices@.len() - i,
    {
        proof {
            lemma_shift_lt(minimum_code_size, width);
        }
        let ghost s = codes.stream();
        let ghost t = codes.bit_len();
        let ghost n0 = next as int;
        let ghost wd = width as int;
        codes.code(indices[i] as u16, width);
        if previous && next < 4096 {
            next = next + 1;
            proof {
                vstd::arithmetic::power2::lemma2_to64();
                vstd::bits::lemma_usize_shl_is_mul(1usize, width as usize);
            }
            if width < 12 && next == (1usize << (width as usize)) {
                width = width + 1;
            }
        }
        proof {
            crate::bmp_to_png::deflate::lemma_append_pair(
                s,
                t as nat,
                indices@[i as int] as int,
                wd as nat,
                literal_codes(indices@, i + 1, next as int, width as int, true, end as int).0,
            );
        }
        previous = true;
        i = i + 1;
    }
    proof {
        lemma_shift_lt(minimum_code_size, width);
    }
    let ghost s = codes.stream();
    let ghost t = codes.bit_len();
    codes.code(end, width);
    assert(codes.stream() == goal_v);
    codes.finish()
}

/// Every pixel is opaque or fully transparent black.
pub open spec fn binary_alpha(px: Seq<Pixel>) -> bool {
    forall|i: int|
        0 <= i < px.len() ==> ((#[trigger] px[i]).a == 255 || (px[i].a == 0 && px[i].r == 0 && px[i].g == 0
            && px[i].b == 0))
}

/// A pixel as the GIF palette holds it: a fully transparent pixel as
/// transparent black.
pub open spec fn palette_color(p: Pixel) -> Pixel {
    if p.a == 0 {
        Pixel { r: 0, g: 0, b: 0, a: 0 }
    } else {
        p
    }
}

/// The distinct palette colours of `px`.
pub open spec fn gif_colors(px: Seq<Pixel>) -> Set<Pixel> {
    px.map_values(|p: Pixel| palette_color(p)).to_set()
}

/// The lookup key of a palette colour.
pub open spec fn pixel_key(p: Pixel) -> u32 {
    (p.r * 16777216 + p.g * 65536 + p.b * 256 + p.a) as u32
}

/// `u32` keys order as integers do, as the palette lookup needs.
proof fn lemma_u32_keys_ordered()
    ensures
        vstd::laws_cmp::obeys_cmp::<u32>(),
{
    broadcast use vstd::laws_cmp::group_laws_cmp;
}

proof fn lemma_pixel_key_injective(p: Pixel, q: Pixel)
    requires
        pixel_key(p) == pixel_key(q),
    ensures
        p == q,
{
    let (pr, pg, pb, pa) = (p.r, p.g, p.b, p.a);
    let (qr, qg, qb, qa) = (q.r, q.g, q.b, q.a);
    assert(pr == qr && pg == qg && pb == qb && pa == qa) by (bit_vector)
        requires
            ((pr as u32) * 16777216 + (pg as u32) * 65536 + (pb as u32) * 256 + (pa as u32)) == ((qr as u32)
                * 16777216 + (qg as u32) * 65536 + (qb as u32) * 256 + (qa as u32)),
    ;
}

proof fn lemma_colors_step(px: Seq<Pixel>, i: int)
    requires
        0 <= i < px.len(),
    ensures
        gif_colors(px.subrange(0, i + 1)) == gif_colors(px.subrange(0, i)).insert(palette_color(px[i])),
        gif_colors(px.subrange(0, i + 1)).subset_of(gif_colors(px)),
        gif_colors(px).finite(),
{
    let f = |p: Pixel| palette_color(p);
    let a = px.subrange(0, i).map_values(f);
    assert(px.subrange(0, i + 1).map_values(f) =~= a + seq![palette_color(px[i])]);
    Seq::<Pixel>::lemma_to_set_insert_commutes(a, palette_color(px[i]));
    assert forall|c: Pixel| gif_colors(px.subrange(0, i + 1)).contains(c) implies gif_colors(px).contains(c) by {
        let m = px.subrange(0, i + 1).map_values(f);
        let k = choose|k: int| 0 <= k < m.len() && m[k] == c;
        assert(px.map_values(f)[k] == c);
    }
    vstd::seq_lib::seq_to_set_is_finite(px.map_values(f));
}

proof fn lemma_palette_step(palette: Seq<Pixel>, c: Pixel)
    requires
        palette.no_duplicates(),
        !palette.contains(c),
    ensures
        palette.push(c).no_duplicates(),
        palette.push(c).to_set() == palette.to_set().insert(c),
{
    assert(palette.push(c) =~= palette + seq![c]);
    Seq::<Pixel>::lemma_to_set_insert_commutes(palette, c);
    assert forall|a: int, b: int| 0 <= a < b < palette.push(c).len() implies palette.push(c)[a] != palette.push(c)[b] by {
        if b == palette.len() {
            assert(palette[a] == palette.push(c)[a]);
        }
    }
}

proof fn lemma_too_many_colors(palette: Seq<Pixel>, px: Seq<Pixel>, i: int)
    requires
        0 <= i < px.len(),
        palette.no_duplicates(),
        palette.len() == 256,
        palette.to_set() == gif_colors(px.subrange(0, i)),
        !palette.contains(palette_color(px[i])),
    ensures
        gif_colors(px).len() > 256,
{
    lemma_colors_step(px, i);
    palette.unique_seq_to_set();
    vstd::seq_lib::seq_to_set_is_finite(palette);
    assert(!palette.to_set().contains(palette_color(px[i])));
    assert(gif_colors(px.subrange(0, i + 1)).len() == 257);
    vstd::set_lib::lemma_len_subset(gif_colors(px.subrange(0, i + 1)), gif_colors(px));
}

fn color_key(p: Pixel) -> (k: u32)
    ensures
        k == p.r * 16777216 + p.g * 65536 + p.b * 256 + p.a,
        k == pixel_key(p),
{
    p.r as u32 * 16777216 + p.g as u32 * 65536 + p.b as u32 * 256 + p.a as u32
}

/// What the encoder writes for the pixels `px`: `out` ends with the
/// sub-blocks of the LZW stream `z` and the trailer; the byte before the
/// sub-blocks is the minimum code size at which `z` codes the indices `idx`
/// as literals; `idx` picks for each pixel the palette entry of its colour;
/// and the colour table from byte 13 on holds the palette's RGB values.
pub open spec fn gif_payload(px: Seq<Pixel>, palette: Seq<Pixel>, idx: Seq<u8>, z: Seq<u8>, out: Seq<u8>) -> bool {
    let sb = sub_blocks(z);
    let at = out.len() - 1 - sb.len();
    let mcs = out[at - 1] as int;
    &&& 14 <= at
    &&& 2 <= mcs <= 8
    &&& out.subrange(at, out.len() - 1) == sb
    &&& crate::bytes::le_value(z) == literal_lzw(idx, mcs).0
    &&& z.len() == (literal_lzw(idx, mcs).1 + 7) / 8
    &&& idx.len() == px.len()
    &&& palette.len() <= 256
    &&& forall|i: int|
        0 <= i < px.len() ==> (#[trigger] idx[i] as int) < palette.len() && palette[idx[i] as int]
            == palette_color(px[i])
    &&& 13 + 3 * palette.len() <= at
    &&& forall|k: int|
        0 <= k < palette.len() ==> out[13 + 3 * k] == (#[trigger] palette[k]).r && out[13 + 3 * k + 1]
            == palette[k].g && out[13 + 3 * k + 2] == palette[k].b
}

/// `out` carries the pixels `px` as `gif_payload` lays them out, for some
/// palette, indices and LZW stream.
pub open spec fn gif_encodes(px: Seq<Pixel>, out: Seq<u8>) -> bool {
    exists|palette: Seq<Pixel>, idx: Seq<u8>, z: Seq<u8>| #[trigger] gif_payload(px, palette, idx, z, out)
}

/// Encodes an image of at most 256 exact colours (alpha 0 or 255) as a
/// single-frame GIF89a with one literal-coded LZW stream.
#[verifier::spinoff_prover]
#[verifier::rlimit(100)]
pub fn encode_gif(image: &Image) -> (r: Result<Vec<u8>, Error>)
    ensures
        r is Ok <==> (1 <= image.width && 1 <= image.height && image.width * image.height <= usize::MAX
            && image.pixels@.len() == image.width * image.height && image.width <= 65535 && image.height <= 65535
            && binary_alpha(image.pixels@) && gif_colors(image.pixels@).len() <= 256),
        (image.width == 0 || image.height == 0) ==> r == Err::<Vec<u8>, Error>(Error::Invalid("zero image dimension")),
        (1 <= image.width && 1 <= image.height && image.width * image.height > usize::MAX) ==> r == Err::<
            Vec<u8>,
            Error,
        >(Error::Overflow("pixel allocation")),
        (1 <= image.width && 1 <= image.height && image.width * image.height <= usize::MAX
            && image.pixels@.len() != image.width * image.height) ==> r == Err::<Vec<u8>, Error>(
            Error::Invalid("GIF encoder pixel count"),
        ),
        (1 <= image.width && 1 <= image.height && image.width * image.height <= usize::MAX
            && image.pixels@.len() == image.width * image.height && (image.width > 65535 || image.height
            > 65535)) ==> r == Err::<Vec<u8>, Error>(Error::Limit("GIF dimensions")),
        (1 <= image.width <= 65535 && 1 <= image.height <= 65535 && image.width * image.height <= usize::MAX
            && image.pixels@.len() == image.width * image.height) ==> (r matches Err(e) ==> e is Unsupported),
        r matches Ok(out) ==> {
            &&& binary_alpha(image.pixels@)
            &&& image.pixels@.len() == image.width * image.height
            &&& 1 <= image.width <= 65535 && 1 <= image.height <= 65535
            &&& out@.len() >= 13
            &&& out@.subrange(0, 6) == seq![0x47u8, 0x49, 0x46, 0x38, 0x39, 0x61]
            &&& le16(out@, 6) == image.width && le16(out@, 8) == image.height
            &&& out@.last() == 0x3b
        },
        r matches Ok(out) ==> gif_encodes(image.pixels@, out@),
{
    assert(image.width * image.height <= u64::MAX) by (nonlinear_arith)
        requires
            image.width <= u32::MAX,
            image.height <= u32::MAX,
    ;
    let count = match checked_pixels(image.width, image.height, u64::MAX) {
        Ok(c) => c,
        Err(e) => return Err(e),
    };
    if image.pixels.len() != count {
        return Err(Error::Invalid("GIF encoder pixel count"));
    }
    if image.width > 65535 || image.height > 65535 {
        return Err(Error::Limit("GIF dimensions"));
    }
    let mut palette: Vec<Pixel> = Vec::new();
    let mut lookup: BTreeMap<u32, u8> = BTreeMap::new();
    let mut indices: Vec<u8> = Vec::new();
    let mut transparent: Option<u8> = None;
    let mut i: usize = 0;
    proof {
        assert(palette@.to_set() =~= gif_colors(image.pixels@.subrange(0, 0)));
    }
    while i < image.pixels.len()
        invariant
            i <= image.pixels@.len(),
            palette@.len() <= 256,
            indices@.len() == i,
            forall|k: int| 0 <= k < i ==> (#[trigger] indices@[k] as int) < palette@.len(),
            forall|k: int| 0 <= k < i ==> palette@[#[trigger] indices@[k] as int] == palette_color(image.pixels@[k]),
            forall|k: int|
                0 <= k < i ==> ((#[trigger] image.pixels@[k]).a == 255 || (image.pixels@[k].a == 0
                    && image.pixels@[k].r == 0 && image.pixels@[k].g == 0 && image.pixels@[k].b == 0)),
            palette@.no_duplicates(),
            palette@.to_set() == gif_colors(image.pixels@.subrange(0, i as int)),
            forall|j: int|
                0 <= j < palette@.len() ==> lookup@.contains_key(pixel_key(#[trigger] palette@[j]))
                    && lookup@[pixel_key(palette@[j])] == j,
            forall|key: u32|
                #[trigger] lookup@.contains_key(key) ==> (lookup@[key] as int) < palette@.len() && pixel_key(
                    palette@[lookup@[key] as int],
                ) == key,
            1 <= image.width && 1 <= image.height && image.width * image.height <= usize::MAX,
            image.pixels@.len() == image.width * image.height,
            image.width <= 65535 && image.height <= 65535,
        decreases image.pixels@.len() - i,
    {
        let pixel = image.pixels[i];
        if pixel.a != 0 && pixel.a != 255 {
            return Err(Error::Unsupported("GIF partial alpha without quantization"));
        }
        if pixel.a == 0 && (pixel.r != 0 || pixel.g != 0 || pixel.b != 0) {
            return Err(Error::Unsupported("GIF transparent nonzero RGB code values"));
        }
        let canonical = if pixel.a == 0 {
            Pixel { r: 0, g: 0, b: 0, a: 0 }
        } else {
            pixel
        };
        let key = color_key(canonical);
        assert(canonical == palette_color(image.pixels@[i as int]));
        proof {
            lemma_u32_keys_ordered();
            broadcast use vstd::std_specs::btree::group_btree_axioms;
        }
        let found: Option<u8> = match lookup.get(&key) {
            Some(v) => if (*v as usize) < palette.len() { Some(*v) } else { None },
            None => None,
        };
        proof {
            lemma_colors_step(image.pixels@, i as int);
            match found {
                Some(v) => {
                    lemma_pixel_key_injective(palette@[v as int], canonical);
                    assert(palette@.contains(canonical));
                },
                None => {
                    assert forall|j: int| 0 <= j < palette@.len() implies palette@[j] != canonical by {
                        assert(lookup@.contains_key(pixel_key(palette@[j])));
                    }
                    assert(!palette@.contains(canonical));
                },
            }
        }
        let index = match found {
            Some(v) => {
                assert(palette@.to_set().contains(canonical));
                assert(palette@.to_set().insert(canonical) =~= palette@.to_set());
                v
            },
            None => {
                if palette.len() == 256 {
                    proof {
                        lemma_too_many_colors(palette@, image.pixels@, i as int);
                    }
                    return Err(Error::Unsupported("GIF exact palette requires at most 256 colors"));
                }
                let value = palette.len() as u8;
                if canonical.a == 0 {
                    transparent = Some(value);
                }
                let ghost old_palette = palette@;
                let ghost old_lookup = lookup@;
                lookup.insert(key, value);
                palette.push(canonical);
                proof {
                    lemma_palette_step(old_palette, canonical);
                    assert forall|j: int| 0 <= j < palette@.len() implies lookup@.contains_key(pixel_key(#[trigger] palette@[j]))
                        && lookup@[pixel_key(palette@[j])] == j by {
                        if j < old_palette.len() {
                            assert(palette@[j] == old_palette[j]);
                            assert(old_lookup.contains_key(pixel_key(old_palette[j])));
                            if pixel_key(old_palette[j]) == key {
                                lemma_pixel_key_injective(old_palette[j], canonical);
                                assert(old_palette.contains(canonical));
                            }
                        }
                    }
                    assert forall|k: u32| #[trigger] lookup@.contains_key(k) implies (lookup@[k] as int) < palette@.len()
                        && pixel_key(palette@[lookup@[k] as int]) == k by {
                        if k != key {
                            assert(old_lookup.contains_key(k));
                            assert(palette@[old_lookup[k] as int] == old_palette[old_lookup[k] as int]);
                        }
                    }
                }
                value
            },
        };
        let ghost before_idx = indices@;
        indices.push(index);
        proof {
            assert(palette@[index as int] == canonical) by {
                if found is Some {
                    lemma_pixel_key_injective(palette@[index as int], canonical);
                }
            }
            assert forall|k: int| 0 <= k < i + 1 implies palette@[#[trigger] indices@[k] as int] == palette_color(
                image.pixels@[k],
            ) by {
                if k < i {
                    assert(indices@[k] == before_idx[k]);
                }
            }
        }
        i = i + 1;
    }
    proof {
        assert(image.pixels@.subrange(0, i as int) =~= image.pixels@);
        palette@.unique_seq_to_set();
    }
    let ghost full = palette@;
    while palette.len() < 2
        invariant
            palette@.len() <= 256,
            forall|k: int| 0 <= k < indices@.len() ==> (#[trigger] indices@[k] as int) < palette@.len(),
            full.len() <= palette@.len(),
            forall|k: int| 0 <= k < full.len() ==> #[trigger] palette@[k] == full[k],
        decreases 2 - palette@.len(),
    {
        palette.push(Pixel { r: 0, g: 0, b: 0, a: 255 });
    }
    assert(forall|k: int| 0 <= k < indices@.len() ==> palette@[#[trigger] indices@[k] as int] == palette_color(
        image.pixels@[k],
    )) by {
        assert forall|k: int| 0 <= k < indices@.len() implies palette@[#[trigger] indices@[k] as int] == palette_color(
            image.pixels@[k],
        ) by {
            assert(full[indices@[k] as int] == palette_color(image.pixels@[k]));
        }
    }
    let mut table_entries: usize = 2;
    let mut table_bits: u8 = 1;
    assert(2usize == (1usize << (1u8 as usize))) by (bit_vector);
    while table_entries < palette.len()
        invariant
            2 <= table_entries <= 256,
            1 <= table_bits <= 8,
            table_entries == (1usize << (table_bits as usize)),
            palette@.len() <= 256,
        decreases 256 - table_entries,
    {
        assert(table_bits < 8) by (bit_vector)
            requires
                table_entries == (1usize << (table_bits as usize)),
                table_entries < 256,
                1 <= table_bits <= 8,
        ;
        assert(table_entries * 2 == (1usize << ((table_bits + 1) as usize)) && table_entries * 2 <= 256) by (bit_vector)
            requires
                table_entries == (1usize << (table_bits as usize)),
                table_bits < 8,
        ;
        table_entries = table_entries * 2;
        table_bits = table_bits + 1;
    }
    let minimum_code_size: u8 = if table_bits < 2 { 2 } else { table_bits };
    proof {
        assert forall|k: int| 0 <= k < indices@.len() implies (indices@[k] as u16) < (1u16 << minimum_code_size) by {
            assert((indices@[k] as int) < table_entries);
            assert((table_entries as u16) <= (1u16 << minimum_code_size)) by (bit_vector)
                requires
                    table_entries == (1usize << (table_bits as usize)),
                    1 <= table_bits <= 8,
                    minimum_code_size >= table_bits,
                    minimum_code_size <= 8,
            ;
        }
    }
    let compressed = encode_literal_lzw(&indices, minimum_code_size);
    let mut out: Vec<u8> = Vec::new();
    out.extend_from_slice(&[0x47u8, 0x49, 0x46, 0x38, 0x39, 0x61]);
    crate::bytes::push_le16(&mut out, image.width as u16);
    crate::bytes::push_le16(&mut out, image.height as u16);
    let ghost header = out@;
    out.push(0x80u8 + 0x70 + (table_bits - 1));
    out.push(0u8);
    out.push(0u8);
    let mut k: usize = 0;
    while k < table_entries
        invariant
            k <= table_entries,
            out@.len() == 13 + 3 * k,
            out@.subrange(0, 10) == header,
            forall|j: int|
                0 <= j < k && j < palette@.len() ==> out@[13 + 3 * j] == (#[trigger] palette@[j]).r && out@[13
                    + 3 * j + 1] == palette@[j].g && out@[13 + 3 * j + 2] == palette@[j].b,
        decreases table_entries - k,
    {
        let pixel = if k < palette.len() { palette[k] } else { Pixel { r: 0, g: 0, b: 0, a: 0 } };
        let ghost before = out@;
        out.push(pixel.r);
        out.push(pixel.g);
        out.push(pixel.b);
        assert(out@.subrange(0, 10) =~= before.subrange(0, 10));
        assert forall|j: int|
            0 <= j < k + 1 && j < palette@.len() implies out@[13 + 3 * j] == (#[trigger] palette@[j]).r && out@[13
                + 3 * j + 1] == palette@[j].g && out@[13 + 3 * j + 2] == palette@[j].b by {
            if j < k {
                assert(out@[13 + 3 * j] == before[13 + 3 * j]);
                assert(out@[13 + 3 * j + 1] == before[13 + 3 * j + 1]);
                assert(out@[13 + 3 * j + 2] == before[13 + 3 * j + 2]);
            }
        }
        k = k + 1;
    }
    let ghost table = out@;
    let ghost before = out@;
    match transparent {
        Some(index) => {
            out.extend_from_slice(&[0x21u8, 0xf9, 4, 1, 0, 0, index, 0]);
        },
        None => {},
    }
    out.push(0x2cu8);
    out.extend_from_slice(&[0u8, 0, 0, 0]);
    crate::bytes::push_le16(&mut out, image.width as u16);
    crate::bytes::push_le16(&mut out, image.height as u16);
    out.push(0u8);
    out.push(minimum_code_size);
    let ghost mid = out@;
    write_sub_blocks(&mut out, &compressed);
    out.push(0x3bu8);
    proof {
        let sb = sub_blocks(compressed@);
        assert(out@ == mid + sb + seq![0x3bu8]);
        assert(out@.subrange(mid.len() as int, out@.len() - 1) =~= sb);
        assert(out@[mid.len() - 1] == minimum_code_size);
        assert(mid.subrange(0, table.len() as int) =~= table) by {
            assert(mid.len() >= table.len());
        }
        assert forall|j: int| 0 <= j < palette@.len() implies out@[13 + 3 * j] == (#[trigger] palette@[j]).r
            && out@[13 + 3 * j + 1] == palette@[j].g && out@[13 + 3 * j + 2] == palette@[j].b by {
            assert(out@[13 + 3 * j] == table[13 + 3 * j]);
            assert(out@[13 + 3 * j + 1] == table[13 + 3 * j + 1]);
            assert(out@[13 + 3 * j + 2] == table[13 + 3 * j + 2]);
        }
        assert(gif_payload(image.pixels@, palette@, indices@, compressed@, out@));
    }
    assert(out@.subrange(0, 10) =~= before.subrange(0, 10));
    assert(out@.last() == 0x3b);
    assert(out@[6] == header[6] && out@[7] == header[7] && out@[8] == header[8] && out@[9] == header[9]);
    assert(binary_alpha(image.pixels@));
    assert(header =~= seq![0x47u8, 0x49, 0x46, 0x38, 0x39, 0x61] + crate::bytes::le16_bytes(image.width as int) + crate::bytes::le16_bytes(image.height as int));
    assert(out@.subrange(0, 6) =~= seq![0x47u8, 0x49, 0x46, 0x38, 0x39, 0x61]);
    assert(gif_payload(image.pixels@, palette@, indices@, compressed@, out@));
    assert(gif_encodes(image.pixels@, out@));
    Ok(out)
}

/// The value of `s` read as a little-endian number is below `2^(8|s|)`.
proof fn lemma_le_value_bound(s: Seq<u8>)
    ensures
        0 <= crate::bytes::le_value(s) < pow2((8 * s.len()) as nat),
    decreases s.len(),
{
    vstd::arithmetic::power2::lemma2_to64();
    if s.len() > 0 {
        lemma_le_value_bound(s.drop_last());
        let p = pow2((8 * (s.len() - 1)) as nat) as int;
        vstd::arithmetic::power2::lemma_pow2_adds((8 * (s.len() - 1)) as nat, 8);
        vstd::arithmetic::power2::lemma2_to64();
        assert(pow2((8 * s.len()) as nat) == p * 256);
        assert(crate::bytes::le_value(s.drop_last()) + s.last() * p < p * 256) by (nonlinear_arith)
            requires
                0 <= crate::bytes::le_value(s.drop_last()) < p,
                s.last() <= 255,
                p > 0,
        ;
        assert(0 <= s.last() * p) by (nonlinear_arith)
            requires
                p > 0,
        ;
    }
}

/// The little-endian value of `a + b` is that of `a` plus that of `b`
/// shifted past `a`.
proof fn lemma_le_value_concat(a: Seq<u8>, b: Seq<u8>)
    ensures
        crate::bytes::le_value(a + b) == crate::bytes::le_value(a) + crate::bytes::le_value(b) * pow2(
            (8 * a.len()) as nat,
        ),
    decreases b.len(),
{
    if b.len() == 0 {
        assert(a + b =~= a);
    } else {
        lemma_le_value_concat(a, b.drop_last());
        assert((a + b).drop_last() =~= a + b.drop_last());
        let pa = pow2((8 * a.len()) as nat) as int;
        let pb = pow2((8 * (b.len() - 1)) as nat) as int;
        vstd::arithmetic::power2::lemma_pow2_adds((8 * a.len()) as nat, (8 * (b.len() - 1)) as nat);
        assert(pow2((8 * ((a + b).len() - 1)) as nat) == pa * pb);
        let lb = crate::bytes::le_value(b.drop_last());
        assert((lb + b.last() * pb) * pa == lb * pa + b.last() * (pa * pb)) by (nonlinear_arith);
    }
}

proof fn lemma_le_value_single(x: u8)
    ensures
        crate::bytes::le_value(seq![x]) == x,
{
    let one = seq![x];
    vstd::arithmetic::power2::lemma2_to64();
    assert(one.drop_last() =~= Seq::<u8>::empty());
    assert(crate::bytes::le_value(one.drop_last()) == 0);
    assert(one.last() == x);
    assert(crate::bytes::le_value(one) == crate::bytes::le_value(one.drop_last()) + one.last() * pow2(0));
    assert(x * 1 == x) by (nonlinear_arith);
}

/// Bit `k` of the little-endian value of `z` is bit `k % 8` of byte `k / 8`.
proof fn lemma_le_value_bit(z: Seq<u8>, k: int)
    requires
        0 <= k < 8 * z.len(),
    ensures
        (crate::bytes::le_value(z) / pow2(k as nat) as int) % 2 == (z[k / 8] as int / pow2((k % 8) as nat) as int) % 2,
{
    let j = k / 8;
    let r = k % 8;
    let a = z.subrange(0, j);
    let c = z.subrange(j + 1, z.len() as int);
    let zj = z[j] as int;
    assert(z =~= a + seq![z[j]] + c);
    lemma_le_value_concat(a, seq![z[j]]);
    lemma_le_value_concat(a + seq![z[j]], c);
    lemma_le_value_bound(a);
    vstd::arithmetic::power2::lemma2_to64();
    let p = pow2((8 * j) as nat) as int;
    vstd::arithmetic::power2::lemma_pow2_adds((8 * j) as nat, 8);
    vstd::arithmetic::power2::lemma_pow2_pos((8 * j) as nat);
    lemma_le_value_single(z[j]);
    let av = crate::bytes::le_value(a);
    let cv = crate::bytes::le_value(c);
    let v = crate::bytes::le_value(z);
    assert(v == av + zj * p + cv * (p * 256));
    let q = zj + 256 * cv;
    assert(v == p * q + av) by (nonlinear_arith)
        requires
            v == av + zj * p + cv * (p * 256),
            q == zj + 256 * cv,
    ;
    assert(0 <= cv) by {
        lemma_le_value_bound(c);
    }
    vstd::arithmetic::div_mod::lemma_fundamental_div_mod_converse(v, p, q, av);
    let pr = pow2(r as nat) as int;
    vstd::arithmetic::power2::lemma_pow2_adds((8 * j) as nat, r as nat);
    vstd::arithmetic::power2::lemma_pow2_pos(r as nat);
    assert(pow2(k as nat) == p * pr);
    vstd::arithmetic::div_mod::lemma_div_denominator(v, p, pr);
    let e = pow2((8 - r) as nat) as int;
    vstd::arithmetic::power2::lemma_pow2_adds(r as nat, (8 - r) as nat);
    assert(pr * e == 256);
    vstd::arithmetic::power2::lemma_pow2_unfold((8 - r) as nat);
    let h = pow2((7 - r) as nat) as int;
    assert(e == 2 * h);
    vstd::arithmetic::div_mod::lemma_fundamental_div_mod(zj, pr);
    let d = zj / pr;
    let t = zj % pr;
    assert(q == pr * (d + e * cv) + t) by (nonlinear_arith)
        requires
            zj == pr * d + t,
            q == zj + 256 * cv,
            pr * e == 256,
    ;
    assert(0 <= t < pr) by {
        vstd::arithmetic::div_mod::lemma_mod_bound(zj, pr);
    }
    vstd::arithmetic::div_mod::lemma_fundamental_div_mod_converse(q, pr, d + e * cv, t);
    assert(d + e * cv == d + 2 * (h * cv)) by (nonlinear_arith)
        requires
            e == 2 * h,
    ;
}

/// `bits_at` reads the little-endian value of `z`: the `width` bits from
/// bit `bit` on are `(le_value(z) / 2^bit) % 2^width`.
proof fn lemma_bits_at(z: Seq<u8>, bit: int, width: nat)
    requires
        0 <= bit,
        bit + width <= 8 * z.len(),
    ensures
        bits_at(z, bit, width) == (crate::bytes::le_value(z) / pow2(bit as nat) as int) % pow2(width) as int,
    decreases width,
{
    let v = crate::bytes::le_value(z);
    lemma_le_value_bound(z);
    vstd::arithmetic::power2::lemma_pow2_pos(bit as nat);
    let x = v / pow2(bit as nat) as int;
    if width == 0 {
        vstd::arithmetic::power2::lemma2_to64();
    } else {
        let w1 = (width - 1) as nat;
        lemma_bits_at(z, bit, w1);
        let k = bit + width - 1;
        lemma_le_value_bit(z, k);
        crate::extended::lemma_two_pow_is_pow2(w1);
        crate::extended::lemma_two_pow_is_pow2((k % 8) as nat);
        vstd::arithmetic::power2::lemma_pow2_pos(w1);
        vstd::arithmetic::power2::lemma_pow2_adds(bit as nat, w1);
        vstd::arithmetic::div_mod::lemma_div_denominator(v, pow2(bit as nat) as int, pow2(w1) as int);
        assert(v / pow2(k as nat) as int == x / pow2(w1) as int);
        vstd::arithmetic::div_mod::lemma_div_pos_is_pos(v, pow2(bit as nat) as int);
        vstd::arithmetic::div_mod::lemma_mod_breakdown(x, pow2(w1) as int, 2);
        vstd::arithmetic::power2::lemma_pow2_unfold(width);
        assert(pow2(width) == pow2(w1) * 2);
    }
}

/// The literal codes are non-negative and hold at least one code.
proof fn lemma_literal_codes(indices: Seq<u8>, i: int, next: int, width: int, previous: bool, end: int)
    requires
        end >= 0,
        width >= 1,
    ensures
        literal_codes(indices, i, next, width, previous, end).0 >= 0,
        literal_codes(indices, i, next, width, previous, end).1 >= width,
    decreases indices.len() - i,
{
    if !(i < 0 || i >= indices.len()) {
        let grown = previous && next < 4096;
        let next2 = if grown { next + 1 } else { next };
        let width2 = if grown && width < 12 && next2 == pow2(width as nat) { width + 1 } else { width };
        lemma_literal_codes(indices, i + 1, next2, width2, true, end);
        let rv = literal_codes(indices, i + 1, next2, width2, true, end).0;
        vstd::arithmetic::power2::lemma_pow2_pos(width as nat);
        assert(rv * pow2(width as nat) >= 0) by (nonlinear_arith)
            requires
                rv >= 0,
                pow2(width as nat) > 0,
        ;
    }
}

/// `(s + r * 2^w) / 2^w == r` and `(s + r * 2^w) % 2^w == s` for `s < 2^w`.
proof fn lemma_split_code(s: int, r: int, w: nat)
    requires
        0 <= s < pow2(w),
        r >= 0,
    ensures
        (s + r * pow2(w)) % pow2(w) as int == s,
        (s + r * pow2(w)) / pow2(w) as int == r,
{
    vstd::arithmetic::power2::lemma_pow2_pos(w);
    assert(s + r * pow2(w) == pow2(w) * r + s) by (nonlinear_arith);
    vstd::arithmetic::div_mod::lemma_fundamental_div_mod_converse(s + r * pow2(w), pow2(w) as int, r, s);
}

/// Decoding the literal codes of `idx[i..]` from bit `bit` on, with the
/// decoder in the state the encoder assumed, gives the rest of `idx`.
proof fn lemma_lzw_literal_run(
    z: Seq<u8>,
    m: int,
    idx: Seq<u8>,
    i: int,
    bit: int,
    dict: Seq<Seq<u8>>,
    width: int,
    next: int,
    prev: Option<Seq<u8>>,
)
    requires
        2 <= m <= 8,
        forall|k: int| 0 <= k < idx.len() ==> (#[trigger] idx[k] as int) < pow2(m as nat),
        0 <= i <= idx.len(),
        prev is Some <==> i > 0,
        pow2(m as nat) + 2 <= next <= 4096,
        dict.len() == next,
        forall|c: int| 0 <= c < pow2(m as nat) ==> #[trigger] dict[c] == seq![c as u8],
        m + 1 <= width <= 12,
        0 <= bit,
        bit + literal_codes(idx, i, next, width, prev is Some, pow2(m as nat) as int + 1).1 <= 8 * z.len(),
        8 * z.len() + 12 <= usize::MAX,
        crate::bytes::le_value(z) / pow2(bit as nat) as int == literal_codes(
            idx,
            i,
            next,
            width,
            prev is Some,
            pow2(m as nat) as int + 1,
        ).0,
    ensures
        lzw_from(z, m, idx.len() as int, bit, dict, width, next, prev, idx.subrange(0, i)) == Ok::<
            Seq<u8>,
            Error,
        >(idx),
    decreases idx.len() - i,
{
    let clear = pow2(m as nat) as int;
    let end = clear + 1;
    crate::extended::lemma_two_pow_is_pow2(m as nat);
    crate::extended::lemma_two_pow_is_pow2(width as nat);
    vstd::arithmetic::power2::lemma_pow2_strictly_increases(m as nat, width as nat);
    vstd::arithmetic::power2::lemma_pow2_unfold((m + 1) as nat);
    vstd::arithmetic::power2::lemma_pow2_pos(m as nat);
    if width > m + 1 {
        vstd::arithmetic::power2::lemma_pow2_strictly_increases((m + 1) as nat, width as nat);
    }
    assert(end < pow2(width as nat));
    lemma_literal_codes(idx, i, next, width, prev is Some, end);
    let lc = literal_codes(idx, i, next, width, prev is Some, end);
    lemma_bits_at(z, bit, width as nat);
    let code = bits_at(z, bit, width as nat);
    if i >= idx.len() {
        assert(lc == (end, width));
        vstd::arithmetic::div_mod::lemma_small_mod(end as nat, pow2(width as nat));
        assert(code == end);
        assert(idx.subrange(0, i) =~= idx);
    } else {
        let grown = (prev is Some) && next < 4096;
        let next2 = if grown { next + 1 } else { next };
        let width2 = if grown && width < 12 && next2 == pow2(width as nat) { width + 1 } else { width };
        let rest = literal_codes(idx, i + 1, next2, width2, true, end);
        lemma_literal_codes(idx, i + 1, next2, width2, true, end);
        assert(lc == (idx[i] + rest.0 * pow2(width as nat), width + rest.1));
        assert(idx[i] < clear);
        lemma_split_code(idx[i] as int, rest.0, width as nat);
        assert(code == idx[i]);
        let entry = seq![idx[i]];
        assert(dict[idx[i] as int] == entry);
        assert(lzw_entry(dict, code, next, prev) == Ok::<Seq<u8>, Error>(entry));
        let after = bit + width;
        vstd::arithmetic::power2::lemma_pow2_adds(bit as nat, width as nat);
        vstd::arithmetic::power2::lemma_pow2_pos(bit as nat);
        lemma_le_value_bound(z);
        vstd::arithmetic::div_mod::lemma_div_denominator(
            crate::bytes::le_value(z),
            pow2(bit as nat) as int,
            pow2(width as nat) as int,
        );
        assert(crate::bytes::le_value(z) / pow2(after as nat) as int == rest.0);
        assert(idx.subrange(0, i) + entry =~= idx.subrange(0, i + 1));
        let dict2 = if grown { dict.push(prev->0.push(entry[0])) } else { dict };
        assert forall|c: int| 0 <= c < pow2(m as nat) implies #[trigger] dict2[c] == seq![c as u8] by {
            assert(dict[c] == seq![c as u8]);
        }
        lemma_lzw_literal_run(z, m, idx, i + 1, after, dict2, width2, next2, Some(entry));
    }
}

/// Decoding the literal LZW stream of `idx` (as `encode_literal_lzw` writes
/// it) at the same minimum code size gives `idx` back.
pub proof fn lemma_lzw_literal_round_trip(idx: Seq<u8>, m: int, z: Seq<u8>)
    requires
        2 <= m <= 8,
        forall|k: int| 0 <= k < idx.len() ==> (#[trigger] idx[k] as int) < pow2(m as nat),
        crate::bytes::le_value(z) == literal_lzw(idx, m).0,
        z.len() == (literal_lzw(idx, m).1 + 7) / 8,
        8 * z.len() + 12 <= usize::MAX,
    ensures
        lzw_decode(z, m, idx.len() as int) == Ok::<Seq<u8>, Error>(idx),
{
    let clear = pow2(m as nat) as int;
    let w = m + 1;
    crate::extended::lemma_two_pow_is_pow2(m as nat);
    vstd::arithmetic::power2::lemma_pow2_unfold(w as nat);
    vstd::arithmetic::power2::lemma_pow2_pos(m as nat);
    vstd::arithmetic::power2::lemma2_to64();
    let (rv, rl) = literal_codes(idx, 0, clear + 2, w, false, clear + 1);
    lemma_literal_codes(idx, 0, clear + 2, w, false, clear + 1);
    assert(literal_lzw(idx, m) == (clear + rv * pow2(w as nat), w + rl));
    assert(w <= 8 * z.len());
    lemma_bits_at(z, 0, w as nat);
    lemma_split_code(clear, rv, w as nat);
    assert(pow2(0) == 1);
    assert(crate::bytes::le_value(z) / 1 == crate::bytes::le_value(z));
    assert(bits_at(z, 0, w as nat) == clear);
    lemma_le_value_bound(z);
    assert(crate::bytes::le_value(z) / pow2(w as nat) as int == rv);
    let d = lzw_reset(clear);
    assert forall|c: int| 0 <= c < clear implies #[trigger] d[c] == seq![c as u8] by {}
    assert(Seq::<u8>::empty() =~= idx.subrange(0, 0));
    lemma_lzw_literal_run(z, m, idx, 0, w, d, w, clear + 2, None);
}

} // verus!
