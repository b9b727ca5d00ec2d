//! A zlib/Deflate decoder: stored, fixed-Huffman and dynamic-Huffman blocks.
use vstd::prelude::*;
use crate::checksum::{adler32, adler32_spec};

verus! {

#[derive(Debug, Clone, Copy, PartialEq, Eq)]
pub enum InflateError {
    Truncated(&'static str),
    Invalid(&'static str),
    Unsupported(&'static str),
    Limit(&'static str),
    Overflow(&'static str),
}

/// A least-significant-bit-first reader over a byte slice.
pub struct Bits {
    pub pos: usize,
    pub value: u8,
    pub left: u8,
}

impl Bits {
    pub open spec fn wf(self, len: int) -> bool {
        &&& self.pos <= len
        &&& self.left <= 8
    }

    /// Bits not yet consumed.
    pub open spec fn remaining(self, len: int) -> int {
        (len - self.pos) * 8 + self.left
    }

    /// The stream position of the next bit.
    pub open spec fn position(self) -> int {
        8 * self.pos - self.left
    }

    /// The pending bits are the unread high bits of the last byte read.
    pub open spec fn synced(self, b: Seq<u8>) -> bool {
        self.left > 0 ==> self.pos >= 1 && self.pos <= b.len() && self.left <= 8 && self.value == b[self.pos - 1]
            >> ((8 - self.left) as u8)
    }

    pub fn new() -> (b: Bits)
        ensures
            b.pos == 0 && b.left == 0,
            forall|s: Seq<u8>| b.synced(s),
    {
        Bits { pos: 0, value: 0, left: 0 }
    }

    /// The next bit.
    pub fn bit(&mut self, bytes: &[u8]) -> (r: Result<u32, InflateError>)
        requires
            old(self).wf(bytes@.len() as int),
        ensures
            final(self).wf(bytes@.len() as int),
            r matches Ok(v) ==> v <= 1 && final(self).remaining(bytes@.len() as int) == old(
                self,
            ).remaining(bytes@.len() as int) - 1,
            r is Err ==> old(self).remaining(bytes@.len() as int) == 0,
            r is Err ==> *final(self) == *old(self),
            old(self).synced(bytes@) ==> final(self).synced(bytes@),
            r is Ok ==> final(self).position() == old(self).position() + 1,
            r matches Ok(v) ==> old(self).synced(bytes@) ==> v == stream_bit(bytes@, old(self).position()),
    {
        let ghost p = self.position();
        if self.left == 0 {
            if self.pos >= bytes.len() {
                return Err(InflateError::Truncated("Deflate bit stream"));
            }
            let fresh = bytes[self.pos];
            assert(fresh == fresh >> 0u8) by (bit_vector);
            self.value = fresh;
            self.pos = self.pos + 1;
            self.left = 8;
        }
        let v = self.value;
        let result = (v & 1) as u32;
        assert((v & 1) <= 1) by (bit_vector);
        proof {
            if self.synced(bytes@) {
                let k = (8 - self.left) as u8;
                let x = bytes@[self.pos - 1];
                vstd::arithmetic::div_mod::lemma_fundamental_div_mod_converse(p, 8, self.pos - 1, k as int);
                assert((x >> k) >> 1u8 == x >> ((k + 1) as u8) && (v & 1) == ((x >> k) & 1)) by (bit_vector)
                    requires
                        v == x >> k,
                        k < 8,
                ;
            }
        }
        self.value = v >> 1;
        self.left = self.left - 1;
        Ok(result)
    }

    /// The next `count` bits, least significant first.
    pub fn read(&mut self, bytes: &[u8], count: u8) -> (r: Result<u32, InflateError>)
        requires
            old(self).wf(bytes@.len() as int),
            count <= 16,
        ensures
            final(self).wf(bytes@.len() as int),
            r matches Ok(v) ==> v < (1u32 << count) && final(self).remaining(bytes@.len() as int)
                == old(self).remaining(bytes@.len() as int) - count,
            final(self).remaining(bytes@.len() as int) <= old(self).remaining(bytes@.len() as int),
            r is Ok <==> old(self).remaining(bytes@.len() as int) >= count,
            old(self).synced(bytes@) ==> final(self).synced(bytes@),
            r is Ok ==> final(self).position() == old(self).position() + count,
            r matches Ok(v) ==> old(self).synced(bytes@) ==> v == read_bits(bytes@, old(self).position(), count as nat),
    {
        let mut result: u32 = 0;
        let mut shift: u8 = 0;
        assert(0u32 < (1u32 << 0u8)) by (bit_vector);
        while shift < count
            invariant
                shift <= count,
                count <= 16,
                self.wf(bytes@.len() as int),
                result < (1u32 << shift),
                self.remaining(bytes@.len() as int) == old(self).remaining(bytes@.len() as int)
                    - shift,
                self.position() == old(self).position() + shift,
                old(self).synced(bytes@) ==> self.synced(bytes@),
                old(self).synced(bytes@) ==> result == read_bits(bytes@, old(self).position(), shift as nat),
            decreases count - shift,
        {
            let b = match self.bit(bytes) {
                Ok(v) => v,
                Err(e) => {
                    return Err(e);
                },
            };
            assert((result | (b << shift)) < (1u32 << (shift + 1))) by (bit_vector)
                requires
                    result < (1u32 << shift),
                    b <= 1,
                    shift < 16,
            ;
            result = result | (b << shift);
            shift = shift + 1;
        }
        Ok(result)
    }

    /// Drops the bits left in the current byte.
    pub fn align(&mut self, bytes: &[u8])
        requires
            old(self).wf(bytes@.len() as int),
        ensures
            final(self).synced(bytes@),
            final(self).wf(bytes@.len() as int),
            final(self).left == 0,
            final(self).pos == old(self).pos,
    {
        self.value = 0;
        self.left = 0;
    }

    /// The next whole byte; the reader must be byte aligned.
    pub fn byte(&mut self, bytes: &[u8]) -> (r: Result<u8, InflateError>)
        requires
            old(self).wf(bytes@.len() as int),
        ensures
            final(self).wf(bytes@.len() as int),
            r is Ok ==> final(self).remaining(bytes@.len() as int) == old(self).remaining(
                bytes@.len() as int,
            ) - 8,
            r is Ok ==> old(self).left == 0 && r->Ok_0 == bytes@[old(self).pos as int],
            r is Ok <==> old(self).left == 0 && old(self).pos < bytes@.len(),
            r is Ok ==> final(self).pos == old(self).pos + 1 && final(self).left == 0,
            r is Err ==> *final(self) == *old(self),
            old(self).synced(bytes@) ==> final(self).synced(bytes@),
    {
        if self.left != 0 {
            return Err(InflateError::Invalid("unaligned Deflate byte read"));
        }
        if self.pos >= bytes.len() {
            return Err(InflateError::Truncated("Deflate byte stream"));
        }
        let result = bytes[self.pos];
        self.pos = self.pos + 1;
        Ok(result)
    }
}

/// Bit `k` of the stream `b`, least significant bit of each byte first.
pub open spec fn stream_bit(b: Seq<u8>, k: int) -> u32 {
    ((b[k / 8] >> ((k % 8) as u8)) & 1) as u32
}

/// The `n` stream bits from position `p` as a number, the first as the
/// least significant.
pub open spec fn read_bits(b: Seq<u8>, p: int, n: nat) -> u32
    decreases n,
{
    if n == 0 {
        0
    } else {
        read_bits(b, p, (n - 1) as nat) | (stream_bit(b, p + n - 1) << ((n - 1) as u32))
    }
}

/// The `n` stream bits from position `p`, the first as the least
/// significant.
pub open spec fn code_bits(b: Seq<u8>, p: int, n: nat) -> u16
    decreases n,
{
    if n == 0 {
        0
    } else {
        code_bits(b, p, (n - 1) as nat) | ((stream_bit(b, p + n - 1) as u16) << ((n - 1) as u16))
    }
}

/// The symbol of the first of `entries[k..]` that codes `code` in `length`
/// bits.
pub open spec fn entry_symbol(entries: Seq<(u16, u16, u8)>, length: int, code: u16, k: int) -> Option<u16>
    decreases entries.len() - k,
{
    if k < 0 || k >= entries.len() {
        None
    } else if entries[k].2 == length && entries[k].0 == code {
        Some(entries[k].1)
    } else {
        entry_symbol(entries, length, code, k + 1)
    }
}

/// Canonical Huffman decoding from code length `length` on, with
/// `available` bits left at stream position `p`: the symbol of the shortest
/// code the next bits spell and its length.
pub open spec fn huffman_decode(
    entries: Seq<(u16, u16, u8)>,
    max: int,
    b: Seq<u8>,
    p: int,
    available: int,
    length: int,
) -> Option<(u16, int)>
    decreases 16 - length,
{
    if length < 1 || length > max || length > 15 || available < length {
        None
    } else {
        match entry_symbol(entries, length, code_bits(b, p, length as nat), 0) {
            Some(sym) => Some((sym, length)),
            None => huffman_decode(entries, max, b, p, available, length + 1),
        }
    }
}

/// The low `n` bits of `code`, reversed onto the end of `acc`.
pub open spec fn reverse_onto(code: u16, acc: u16, n: nat) -> u16
    decreases n,
{
    if n == 0 {
        acc
    } else {
        reverse_onto(code >> 1u16, (acc << 1u16) | (code & 1u16), (n - 1) as nat)
    }
}

/// The low `length` bits of `code` in reverse order.
pub fn reverse(code: u16, length: u8) -> (r: u16)
    requires
        length <= 15,
    ensures
        r == reverse_onto(code, 0, length as nat),
        r < (1u16 << length),
{
    let mut result: u16 = 0;
    let mut c: u16 = code;
    let mut k: u8 = 0;
    assert(0u16 < (1u16 << 0u8)) by (bit_vector);
    while k < length
        invariant
            k <= length,
            length <= 15,
            result < (1u16 << k),
            reverse_onto(code, 0, length as nat) == reverse_onto(c, result, (length - k) as nat),
        decreases length - k,
    {
        assert(((result << 1u16) | (c & 1u16)) < (1u16 << (k + 1))) by (bit_vector)
            requires
                result < (1u16 << k),
                k < 15,
        ;
        result = (result << 1) | (c & 1);
        c = c >> 1;
        k = k + 1;
    }
    result
}

/// A canonical Huffman code: `(reversed code, symbol, length)` for every
/// symbol with a non-zero length, in symbol order.
pub struct Huffman {
    pub entries: Vec<(u16, u16, u8)>,
    pub max: u8,
}

/// The largest of `lengths[start..end]`.
pub open spec fn max_length(lengths: Seq<u8>, start: int, end: int) -> int
    decreases end - start,
{
    if end <= start {
        0
    } else {
        let m = max_length(lengths, start, end - 1);
        if lengths[end - 1] > m {
            lengths[end - 1] as int
        } else {
            m
        }
    }
}

/// How many of `lengths[start..end]` equal `l`.
pub open spec fn length_count(lengths: Seq<u8>, start: int, end: int, l: int) -> int
    decreases end - start,
{
    if end <= start {
        0
    } else {
        length_count(lengths, start, end - 1, l) + if lengths[end - 1] == l {
            1int
        } else {
            0int
        }
    }
}

/// How many of `lengths[start..end]` are non-zero.
pub open spec fn coded_count(lengths: Seq<u8>, start: int, end: int) -> int
    decreases end - start,
{
    if end <= start {
        0
    } else {
        coded_count(lengths, start, end - 1) + if lengths[end - 1] > 0 {
            1int
        } else {
            0int
        }
    }
}

/// The codes of length `b` still free once the codes of lengths `1..=b`
/// are assigned (negative when the lengths oversubscribe the code space).
pub open spec fn free_codes(lengths: Seq<u8>, start: int, end: int, b: int) -> int
    decreases b,
{
    if b <= 0 {
        1
    } else {
        2 * free_codes(lengths, start, end, b - 1) - length_count(lengths, start, end, b)
    }
}

/// The first code of length `l` in the canonical code of
/// `lengths[start..end]` (RFC 1951, 3.2.2): the codes of each length follow
/// on, one bit longer, from those of the length before.
pub open spec fn first_code(lengths: Seq<u8>, start: int, end: int, l: int) -> int
    decreases l,
{
    if l <= 1 {
        0
    } else {
        (first_code(lengths, start, end, l - 1) + length_count(lengths, start, end, l - 1)) * 2
    }
}

/// The canonical code of `lengths[start..end]` for the symbols before `i`:
/// `(code reversed into stream bit order, symbol, length)` for each symbol
/// with a length of 1 to 15 bits, in symbol order, the codes of one length
/// being consecutive from that length's first code.
pub open spec fn canonical_entries(lengths: Seq<u8>, start: int, end: int, i: int) -> Seq<(u16, u16, u8)>
    decreases i - start,
{
    if i <= start {
        Seq::empty()
    } else {
        let prev = canonical_entries(lengths, start, end, i - 1);
        let l = lengths[i - 1];
        if 0 < l <= 15 {
            let code = first_code(lengths, start, end, l as int) + length_count(lengths, start, i - 1, l as int);
            prev.push((reverse_onto(code as u16, 0, l as nat), (i - 1 - start) as u16, l))
        } else {
            prev
        }
    }
}

/// Whether `lengths[start..end]` describe a usable canonical code: lengths
/// of 1 to 15 bits, not oversubscribed, and complete unless `allow_single`
/// and exactly one symbol is coded.
pub open spec fn huffman_lengths_ok(lengths: Seq<u8>, start: int, end: int, allow_single: bool) -> bool {
    &&& 1 <= max_length(lengths, start, end) <= 15
    &&& forall|b: int| 1 <= b <= 15 ==> #[trigger] free_codes(lengths, start, end, b) >= 0
    &&& (free_codes(lengths, start, end, 15) == 0 || (allow_single && coded_count(lengths, start, end) == 1))
}

impl Huffman {
    pub open spec fn wf(self) -> bool {
        1 <= self.max <= 15
    }

    /// Builds the canonical code for the lengths `lengths[start..end]`.
    ///
    /// Refused: lengths all zero or above 15, an oversubscribed code, or an
    /// incomplete one (unless `allow_single` and exactly one symbol is coded).
    pub fn new(lengths: &[u8], start: usize, end: usize, allow_single: bool) -> (r: Result<
        Huffman,
        InflateError,
    >)
        requires
            start <= end <= lengths@.len(),
            end - start <= 320,
        ensures
            r matches Ok(h) ==> h.wf() && h.max == max_length(lengths@, start as int, end as int),
            r matches Ok(h) ==> h.entries@ == canonical_entries(lengths@, start as int, end as int, end as int),
            r is Ok ==> 1 <= max_length(lengths@, start as int, end as int) <= 15,
            r is Ok <==> huffman_lengths_ok(lengths@, start as int, end as int, allow_single),
    {
        let mut max: u8 = 0;
        let mut i: usize = start;
        while i < end
            invariant
                start <= i <= end,
                end <= lengths@.len(),
                max == max_length(lengths@, start as int, i as int),
            decreases end - i,
        {
            if lengths[i] > max {
                max = lengths[i];
            }
            i = i + 1;
        }
        if max > 15 || max == 0 {
            return Err(InflateError::Invalid("empty or overlong Huffman tree"));
        }
        let mut counts: Vec<u32> = vec![0u32; 16];
        let mut symbols: u32 = 0;
        let mut i: usize = start;
        while i < end
            invariant
                start <= i <= end,
                end <= lengths@.len(),
                end - start <= 320,
                counts@.len() == 16,
                max <= 15,
                forall|k: int| 0 <= k < 16 ==> #[trigger] counts@[k] <= i - start,
                counts@[0] == 0,
                symbols <= i - start,
                forall|k: int| 1 <= k < 16 ==> #[trigger] counts@[k] == length_count(lengths@, start as int, i as int, k),
                symbols == coded_count(lengths@, start as int, i as int),
            decreases end - i,
        {
            let l = lengths[i];
            if l > 0 {
                if l <= 15 {
                    let c = counts[l as usize];
                    counts.set(l as usize, c + 1);
                }
                symbols = symbols + 1;
            }
            i = i + 1;
        }
        let mut next: Vec<u32> = vec![0u32; 16];
        let mut code: u32 = 0;
        let mut left: i64 = 1;
        let mut bits: usize = 1;
        proof {
            crate::extended::lemma_two_pow_values();
        }
        while bits <= 15
            invariant
                1 <= bits <= 16,
                counts@.len() == 16,
                next@.len() == 16,
                forall|k: int| 0 <= k < 16 ==> #[trigger] counts@[k] <= 320,
                forall|k: int| 1 <= k < bits ==> #[trigger] next@[k] <= 32768,
                0 <= left,
                left + code + counts@[bits - 1] == crate::extended::two_pow((bits - 1) as nat),
                counts@[0] == 0,
                bits - 1 <= 15,
                crate::extended::two_pow((bits - 1) as nat) <= 32768,
                forall|k: int| 1 <= k < 16 ==> #[trigger] counts@[k] == length_count(lengths@, start as int, end as int, k),
                left == free_codes(lengths@, start as int, end as int, bits - 1),
                forall|b: int| 1 <= b < bits ==> #[trigger] free_codes(lengths@, start as int, end as int, b) >= 0,
                symbols == coded_count(lengths@, start as int, end as int),
                1 <= max_length(lengths@, start as int, end as int) <= 15,
                code == first_code(lengths@, start as int, end as int, bits - 1),
                forall|k: int| 1 <= k < bits ==> #[trigger] next@[k] == first_code(lengths@, start as int, end as int, k),
            decreases 16 - bits,
        {
            proof {
                crate::extended::lemma_two_pow_add((bits - 1) as nat, 1);
                crate::extended::lemma_two_pow_values();
                if bits < 15 {
                    crate::extended::lemma_two_pow_mono(bits as nat, 15);
                }
            }
            code = (code + counts[bits - 1]) * 2;
            next.set(bits, code);
            left = left * 2 - counts[bits] as i64;
            assert(left == free_codes(lengths@, start as int, end as int, bits as int));
            if left < 0 {
                assert(!huffman_lengths_ok(lengths@, start as int, end as int, allow_single));
                return Err(InflateError::Invalid("oversubscribed Huffman tree"));
            }
            bits = bits + 1;
        }
        if left > 0 && !(allow_single && symbols == 1) {
            return Err(InflateError::Invalid("incomplete Huffman tree"));
        }
        let mut entries: Vec<(u16, u16, u8)> = Vec::new();
        let mut i: usize = start;
        while i < end
            invariant
                start <= i <= end,
                end <= lengths@.len(),
                end - start <= 320,
                next@.len() == 16,
                forall|k: int| 1 <= k < 16 ==> #[trigger] next@[k] <= 32768 + (i - start),
                forall|k: int|
                    1 <= k < 16 ==> #[trigger] next@[k] == first_code(lengths@, start as int, end as int, k)
                        + length_count(lengths@, start as int, i as int, k),
                entries@ == canonical_entries(lengths@, start as int, end as int, i as int),
            decreases end - i,
        {
            let l = lengths[i];
            let ghost before = next@;
            if l > 0 && l <= 15 {
                let canonical = next[l as usize];
                next.set(l as usize, canonical + 1);
                let reversed = reverse(canonical as u16, l);
                entries.push((reversed, (i - start) as u16, l));
            }
            assert forall|k: int| 1 <= k < 16 implies #[trigger] next@[k] == first_code(
                lengths@,
                start as int,
                end as int,
                k,
            ) + length_count(lengths@, start as int, i + 1, k) by {
                assert(before[k] == first_code(lengths@, start as int, end as int, k) + length_count(
                    lengths@,
                    start as int,
                    i as int,
                    k,
                ));
            }
            i = i + 1;
        }
        Ok(Huffman { entries, max })
    }

    /// Decodes one symbol; on success at least one bit was consumed.
    pub fn symbol(&self, bytes: &[u8], bits: &mut Bits) -> (r: Result<u16, InflateError>)
        requires
            self.wf(),
            old(bits).wf(bytes@.len() as int),
        ensures
            final(bits).wf(bytes@.len() as int),
            final(bits).remaining(bytes@.len() as int) <= old(bits).remaining(bytes@.len() as int),
            r is Ok ==> final(bits).remaining(bytes@.len() as int) < old(bits).remaining(
                bytes@.len() as int,
            ),
            old(bits).synced(bytes@) ==> final(bits).synced(bytes@),
            old(bits).synced(bytes@) ==> (r is Ok <==> huffman_decode(
                self.entries@,
                self.max as int,
                bytes@,
                old(bits).position(),
                old(bits).remaining(bytes@.len() as int),
                1,
            ) is Some),
            r matches Ok(sym) ==> old(bits).synced(bytes@) ==> huffman_decode(
                self.entries@,
                self.max as int,
                bytes@,
                old(bits).position(),
                old(bits).remaining(bytes@.len() as int),
                1,
            ) == Some((sym, final(bits).position() - old(bits).position())),
    {
        let ghost s0 = old(bits).synced(bytes@);
        let ghost p0 = old(bits).position();
        let ghost rem0 = old(bits).remaining(bytes@.len() as int);
        let ghost goal = huffman_decode(self.entries@, self.max as int, bytes@, p0, rem0, 1);
        let mut code: u16 = 0;
        let mut length: u8 = 1;
        while length <= self.max
            invariant
                1 <= length <= 16,
                self.wf(),
                bits.wf(bytes@.len() as int),
                length > 1 ==> bits.remaining(bytes@.len() as int) < old(bits).remaining(
                    bytes@.len() as int,
                ),
                bits.remaining(bytes@.len() as int) <= old(bits).remaining(bytes@.len() as int),
                s0 == old(bits).synced(bytes@),
                p0 == old(bits).position(),
                rem0 == old(bits).remaining(bytes@.len() as int),
                goal == huffman_decode(self.entries@, self.max as int, bytes@, p0, rem0, 1),
                bits.remaining(bytes@.len() as int) == rem0 - (length - 1),
                bits.position() == p0 + length - 1,
                s0 ==> bits.synced(bytes@),
                s0 ==> code == code_bits(bytes@, p0, (length - 1) as nat),
                s0 ==> goal == huffman_decode(self.entries@, self.max as int, bytes@, p0, rem0, length as int),
            decreases 16 - length,
        {
            let b = match bits.bit(bytes) {
                Ok(v) => v,
                Err(e) => {
                    return Err(e);
                },
            };
            code = code | ((b as u16) << ((length - 1) as u16));
            let ghost c = code;
            assert(s0 ==> c == code_bits(bytes@, p0, length as nat));
            let mut k: usize = 0;
            while k < self.entries.len()
                invariant
                    k <= self.entries@.len(),
                    bits.wf(bytes@.len() as int),
                    bits.remaining(bytes@.len() as int) < old(bits).remaining(bytes@.len() as int),
                    s0 ==> entry_symbol(self.entries@, length as int, code, 0) == entry_symbol(
                        self.entries@,
                        length as int,
                        code,
                        k as int,
                    ),
                    s0 == old(bits).synced(bytes@),
                    p0 == old(bits).position(),
                    rem0 == old(bits).remaining(bytes@.len() as int),
                    goal == huffman_decode(self.entries@, self.max as int, bytes@, p0, rem0, 1),
                    1 <= length <= self.max,
                    self.wf(),
                    bits.remaining(bytes@.len() as int) == rem0 - length,
                    bits.position() == p0 + length,
                    s0 ==> bits.synced(bytes@),
                    s0 ==> code == code_bits(bytes@, p0, length as nat),
                    s0 ==> goal == huffman_decode(self.entries@, self.max as int, bytes@, p0, rem0, length as int),
                decreases self.entries@.len() - k,
            {
                let (candidate, symbol, l) = self.entries[k];
                if l == length && candidate == code {
                    return Ok(symbol);
                }
                k = k + 1;
            }
            length = length + 1;
        }
        Err(InflateError::Invalid("Huffman code"))
    }
}

/// The code length of literal/length symbol `i` in the fixed code.
pub open spec fn fixed_literal_length(i: int) -> u8 {
    if i < 144 {
        8
    } else if i < 256 {
        9
    } else if i < 280 {
        7
    } else {
        8
    }
}

/// The code lengths of the fixed literal/length code.
pub open spec fn fixed_literal_lengths() -> Seq<u8> {
    Seq::new(288, |i: int| fixed_literal_length(i))
}

proof fn lemma_count_range(s: Seq<u8>, m: int, e: int, v: u8, l: int)
    requires
        0 <= m <= e <= s.len(),
        forall|j: int| m <= j < e ==> s[j] == v,
    ensures
        length_count(s, 0, e, l) == length_count(s, 0, m, l) + if v == l {
            e - m
        } else {
            0
        },
    decreases e - m,
{
    if e > m {
        lemma_count_range(s, m, e - 1, v, l);
    }
}

proof fn lemma_max_range(s: Seq<u8>, m: int, e: int, v: u8)
    requires
        0 <= m < e <= s.len(),
        forall|j: int| m <= j < e ==> s[j] == v,
    ensures
        max_length(s, 0, e) == if v > max_length(s, 0, m) {
            v as int
        } else {
            max_length(s, 0, m)
        },
    decreases e - m,
{
    if e > m + 1 {
        lemma_max_range(s, m, e - 1, v);
    }
}

proof fn lemma_fixed_lengths_ok()
    ensures
        huffman_lengths_ok(fixed_literal_lengths(), 0, 288, false),
        huffman_lengths_ok(Seq::new(32, |i: int| 5u8), 0, 32, false),
{
    let s = fixed_literal_lengths();
    assert forall|l: int| #[trigger] length_count(s, 0, 288, l) == (if l == 8 {
        152int
    } else if l == 9 {
        112int
    } else if l == 7 {
        24int
    } else {
        0int
    }) by {
        lemma_count_range(s, 0, 144, 8, l);
        lemma_count_range(s, 144, 256, 9, l);
        lemma_count_range(s, 256, 280, 7, l);
        lemma_count_range(s, 280, 288, 8, l);
    }
    lemma_max_range(s, 0, 144, 8);
    lemma_max_range(s, 144, 256, 9);
    lemma_max_range(s, 256, 280, 7);
    lemma_max_range(s, 280, 288, 8);
    assert(max_length(s, 0, 288) == 9);
    assert(free_codes(s, 0, 288, 0) == 1);
    assert(free_codes(s, 0, 288, 1) == 2);
    assert(free_codes(s, 0, 288, 2) == 4);
    assert(free_codes(s, 0, 288, 3) == 8);
    assert(free_codes(s, 0, 288, 4) == 16);
    assert(free_codes(s, 0, 288, 5) == 32);
    assert(free_codes(s, 0, 288, 6) == 64);
    assert(free_codes(s, 0, 288, 7) == 104);
    assert(free_codes(s, 0, 288, 8) == 56);
    assert(free_codes(s, 0, 288, 9) == 0);
    assert(free_codes(s, 0, 288, 10) == 0);
    assert(free_codes(s, 0, 288, 11) == 0);
    assert(free_codes(s, 0, 288, 12) == 0);
    assert(free_codes(s, 0, 288, 13) == 0);
    assert(free_codes(s, 0, 288, 14) == 0);
    assert(free_codes(s, 0, 288, 15) == 0);
    assert forall|b: int| 1 <= b <= 15 implies #[trigger] free_codes(s, 0, 288, b) >= 0 by {
        if b <= 8 {
            if b <= 4 {
                if b <= 2 {
                    if b == 1 {
                    } else {
                    }
                } else if b == 3 {
                } else {
                }
            } else if b <= 6 {
                if b == 5 {
                } else {
                }
            } else if b == 7 {
            } else {
            }
        } else if b <= 12 {
            if b <= 10 {
                if b == 9 {
                } else {
                }
            } else if b == 11 {
            } else {
            }
        } else if b <= 14 {
            if b == 13 {
            } else {
            }
        } else {
        }
    }
    let d = Seq::new(32, |i: int| 5u8);
    assert forall|l: int| #[trigger] length_count(d, 0, 32, l) == (if l == 5 {
        32int
    } else {
        0int
    }) by {
        lemma_count_range(d, 0, 32, 5, l);
    }
    lemma_max_range(d, 0, 32, 5);
    assert(max_length(d, 0, 0) == 0);
    assert(free_codes(d, 0, 32, 0) == 1);
    assert(free_codes(d, 0, 32, 1) == 2);
    assert(free_codes(d, 0, 32, 2) == 4);
    assert(free_codes(d, 0, 32, 3) == 8);
    assert(free_codes(d, 0, 32, 4) == 16);
    assert(free_codes(d, 0, 32, 5) == 0);
    assert(free_codes(d, 0, 32, 6) == 0);
    assert(free_codes(d, 0, 32, 7) == 0);
    assert(free_codes(d, 0, 32, 8) == 0);
    assert(free_codes(d, 0, 32, 9) == 0);
    assert(free_codes(d, 0, 32, 10) == 0);
    assert(free_codes(d, 0, 32, 11) == 0);
    assert(free_codes(d, 0, 32, 12) == 0);
    assert(free_codes(d, 0, 32, 13) == 0);
    assert(free_codes(d, 0, 32, 14) == 0);
    assert(free_codes(d, 0, 32, 15) == 0);
    assert forall|b: int| 1 <= b <= 15 implies #[trigger] free_codes(d, 0, 32, b) >= 0 by {
        if b <= 8 {
            if b <= 4 {
                if b <= 2 {
                    if b == 1 {
                    } else {
                    }
                } else if b == 3 {
                } else {
                }
            } else if b <= 6 {
                if b == 5 {
                } else {
                }
            } else if b == 7 {
            } else {
            }
        } else if b <= 12 {
            if b <= 10 {
                if b == 9 {
                } else {
                }
            } else if b == 11 {
            } else {
            }
        } else if b <= 14 {
            if b == 13 {
            } else {
            }
        } else {
        }
    }
}

/// The fixed literal/length and distance codes.
pub fn fixed_trees() -> (r: Result<(Huffman, Huffman), InflateError>)
    ensures
        r matches Ok((l, d)) ==> l.wf() && d.wf(),
        r matches Ok((l, d)) ==> l.entries@ == canonical_entries(fixed_literal_lengths(), 0, 288, 288)
            && d.entries@ == canonical_entries(Seq::new(32, |i: int| 5u8), 0, 32, 32),
        r is Ok,
{
    let mut literal: Vec<u8> = Vec::new();
    let mut i: usize = 0;
    while i < 288
        invariant
            i <= 288,
            literal@.len() == i,
            forall|j: int| 0 <= j < i ==> #[trigger] literal@[j] == fixed_literal_length(j),
        decreases 288 - i,
    {
        literal.push(
            if i < 144 {
                8
            } else if i < 256 {
                9
            } else if i < 280 {
                7
            } else {
                8
            },
        );
        i = i + 1;
    }
    let distance: Vec<u8> = vec![5u8; 32];
    proof {
        lemma_fixed_lengths_ok();
        assert(literal@ =~= fixed_literal_lengths());
        assert(distance@ =~= Seq::new(32, |i: int| 5u8));
    }
    let l = match Huffman::new(literal.as_slice(), 0, 288, false) {
        Ok(h) => h,
        Err(e) => return Err(e),
    };
    let d = match Huffman::new(distance.as_slice(), 0, 32, false) {
        Ok(h) => h,
        Err(e) => return Err(e),
    };
    Ok((l, d))
}

/// Reads the code-length code and the two dynamic codes of a block header.
pub fn dynamic_trees(bytes: &[u8], bits: &mut Bits) -> (r: Result<(Huffman, Huffman), InflateError>)
    requires
        old(bits).wf(bytes@.len() as int),
    ensures
        final(bits).wf(bytes@.len() as int),
        final(bits).remaining(bytes@.len() as int) <= old(bits).remaining(bytes@.len() as int),
        r matches Ok((l, d)) ==> l.wf() && d.wf(),
{
    assert((1u32 << 2u8) == 4u32) by (bit_vector);
    assert((1u32 << 3u8) == 8u32) by (bit_vector);
    assert((1u32 << 4u8) == 16u32) by (bit_vector);
    assert((1u32 << 5u8) == 32u32) by (bit_vector);
    assert((1u32 << 7u8) == 128u32) by (bit_vector);
    let literal_count = match bits.read(bytes, 5) {
        Ok(v) => v as usize + 257,
        Err(e) => return Err(e),
    };
    let distance_count = match bits.read(bytes, 5) {
        Ok(v) => v as usize + 1,
        Err(e) => return Err(e),
    };
    let code_count = match bits.read(bytes, 4) {
        Ok(v) => v as usize + 4,
        Err(e) => return Err(e),
    };
    assert((1u32 << 5u8) == 32u32) by (bit_vector);
    assert((1u32 << 4u8) == 16u32) by (bit_vector);
    let order: [usize; 19] = [16, 17, 18, 0, 8, 7, 9, 6, 10, 5, 11, 4, 12, 3, 13, 2, 14, 1, 15];
    let mut code_lengths: Vec<u8> = vec![0u8; 19];
    let mut index: usize = 0;
    while index < code_count
        invariant
            index <= code_count,
            code_count <= 19,
            code_lengths@.len() == 19,
            bits.wf(bytes@.len() as int),
            bits.remaining(bytes@.len() as int) <= old(bits).remaining(bytes@.len() as int),
            order@ == seq![16usize, 17, 18, 0, 8, 7, 9, 6, 10, 5, 11, 4, 12, 3, 13, 2, 14, 1, 15],
        decreases code_count - index,
    {
        let v = match bits.read(bytes, 3) {
            Ok(v) => v,
            Err(e) => return Err(e),
        };
        assert((1u32 << 3u8) == 8u32) by (bit_vector);
        let slot = order[index];
        code_lengths.set(slot, v as u8);
        index = index + 1;
    }
    let code_tree = match Huffman::new(code_lengths.as_slice(), 0, 19, true) {
        Ok(h) => h,
        Err(e) => return Err(e),
    };
    let total = literal_count + distance_count;
    let mut lengths: Vec<u8> = Vec::new();
    while lengths.len() < total
        invariant
            lengths@.len() <= total,
            total <= 320,
            total >= 258,
            code_tree.wf(),
            (1u32 << 2u8) == 4u32,
            (1u32 << 3u8) == 8u32,
            (1u32 << 7u8) == 128u32,
            bits.wf(bytes@.len() as int),
            bits.remaining(bytes@.len() as int) <= old(bits).remaining(bytes@.len() as int),
        decreases bits.remaining(bytes@.len() as int),
    {
        let symbol = match code_tree.symbol(bytes, bits) {
            Ok(v) => v,
            Err(e) => return Err(e),
        };
        if symbol <= 15 {
            lengths.push(symbol as u8);
        } else if symbol == 16 {
            if lengths.len() == 0 {
                return Err(InflateError::Invalid("repeat with no previous code length"));
            }
            let previous = lengths[lengths.len() - 1];
            let count = match bits.read(bytes, 2) {
                Ok(v) => v as usize + 3,
                Err(e) => return Err(e),
            };
            assert((1u32 << 2u8) == 4u32) by (bit_vector);
            if lengths.len() + count > total {
                return Err(InflateError::Invalid("code-length repeat exceeds tree"));
            }
            let mut k: usize = 0;
            while k < count
                invariant
                    k <= count,
                    lengths@.len() + count - k <= total,
                decreases count - k,
            {
                lengths.push(previous);
                k = k + 1;
            }
        } else if symbol == 17 || symbol == 18 {
            let count = if symbol == 17 {
                match bits.read(bytes, 3) {
                    Ok(v) => v as usize + 3,
                    Err(e) => return Err(e),
                }
            } else {
                match bits.read(bytes, 7) {
                    Ok(v) => v as usize + 11,
                    Err(e) => return Err(e),
                }
            };
            assert((1u32 << 3u8) == 8u32) by (bit_vector);
            assert((1u32 << 7u8) == 128u32) by (bit_vector);
            if lengths.len() + count > total {
                return Err(
                    InflateError::Invalid(
                        if symbol == 17 {
                            "zero repeat exceeds tree"
                        } else {
                            "long zero repeat exceeds tree"
                        },
                    ),
                );
            }
            let mut k: usize = 0;
            while k < count
                invariant
                    k <= count,
                    lengths@.len() + count - k <= total,
                decreases count - k,
            {
                lengths.push(0u8);
                k = k + 1;
            }
        } else {
            return Err(InflateError::Invalid("code-length symbol"));
        }
    }
    if lengths[256] == 0 {
        return Err(InflateError::Invalid("Deflate tree lacks end-of-block symbol"));
    }
    let literal = match Huffman::new(lengths.as_slice(), 0, literal_count, false) {
        Ok(h) => h,
        Err(e) => return Err(e),
    };
    let distance = match Huffman::new(lengths.as_slice(), literal_count, total, true) {
        Ok(h) => h,
        Err(e) => return Err(e),
    };
    Ok((literal, distance))
}

pub const LENGTH_BASE: [usize; 29] = [
    3, 4, 5, 6, 7, 8, 9, 10, 11, 13, 15, 17, 19, 23, 27, 31, 35, 43, 51, 59, 67, 83, 99, 115, 131,
    163, 195, 227, 258,
];

pub const LENGTH_EXTRA: [u8; 29] = [
    0, 0, 0, 0, 0, 0, 0, 0, 1, 1, 1, 1, 2, 2, 2, 2, 3, 3, 3, 3, 4, 4, 4, 4, 5, 5, 5, 5, 0,
];

pub const DIST_BASE: [usize; 30] = [
    1, 2, 3, 4, 5, 7, 9, 13, 17, 25, 33, 49, 65, 97, 129, 193, 257, 385, 513, 769, 1025, 1537,
    2049, 3073, 4097, 6145, 8193, 12289, 16385, 24577,
];

pub const DIST_EXTRA: [u8; 30] = [
    0, 0, 0, 0, 1, 1, 2, 2, 3, 3, 4, 4, 5, 5, 6, 6, 7, 7, 8, 8, 9, 9, 10, 10, 11, 11, 12, 12, 13,
    13,
];

proof fn lemma_shift_bound(c: u8)
    requires
        c <= 16,
    ensures
        (1u32 << c) <= 65536,
{
    assert((1u32 << c) <= 65536) by (bit_vector)
        requires
            c <= 16,
    ;
}

/// `out` extended by `n` bytes, each a copy of the byte `back` positions
/// before it (an LZ77 back-reference; the copy may overlap what it writes).
pub open spec fn lz_copy(out: Seq<u8>, back: int, n: nat) -> Seq<u8>
    decreases n,
{
    if n == 0 {
        out
    } else {
        let o = lz_copy(out, back, (n - 1) as nat);
        o.push(o[o.len() - back])
    }
}

/// A length/distance pair read from bit `p1` of `b` after the length
/// symbol `257 + i`, applied to `out`: the length is `LENGTH_BASE[i]` plus
/// its extra bits, the distance `DIST_BASE[d]` plus its extra bits for the
/// next distance symbol `d`, and the pair appends that many bytes copied
/// from that distance back. The result is the output and the bit position
/// after the pair, or `None` as for `block_output`.
pub open spec fn match_output(
    b: Seq<u8>,
    p1: int,
    out: Seq<u8>,
    i: int,
    dist: Seq<(u16, u16, u8)>,
    dmax: int,
    max: int,
) -> Option<(Seq<u8>, int)> {
    let le = LENGTH_EXTRA[i] as int;
    let length = LENGTH_BASE[i] + read_bits(b, p1, le as nat);
    let p2 = p1 + le;
    if 8 * b.len() - p1 < le {
        None
    } else {
        match huffman_decode(dist, dmax, b, p2, 8 * b.len() - p2, 1) {
            None => None,
            Some((d, dl)) => {
                let p3 = p2 + dl;
                let de = DIST_EXTRA[d as int] as int;
                let back = DIST_BASE[d as int] + read_bits(b, p3, de as nat);
                if d >= 30 || 8 * b.len() - p3 < de || back == 0 || back > out.len() || length > max
                    - out.len() {
                    None
                } else {
                    Some((lz_copy(out, back, length as nat), p3 + de))
                }
            },
        }
    }
}

/// The Deflate commands of one Huffman-coded block read from bit `p` of
/// `b`, with the literal/length code `lit` (longest code `lmax`) and the
/// distance code `dist` (longest `dmax`), appended to `out`: a literal
/// appends itself; a length symbol `257 + i` with its extra bits gives the
/// length `LENGTH_BASE[i] + extra`, a distance symbol `d` with its extra
/// bits the distance `DIST_BASE[d] + extra`, and the pair appends that many
/// bytes copied from that distance back; symbol 256 ends the block. The
/// result is the output and the bit position after the end symbol, or
/// `None` when the stream is cut short, holds an invalid symbol, refers
/// past the output, or the output would pass `max` bytes.
pub open spec fn block_output(
    b: Seq<u8>,
    p: int,
    out: Seq<u8>,
    lit: Seq<(u16, u16, u8)>,
    lmax: int,
    dist: Seq<(u16, u16, u8)>,
    dmax: int,
    max: int,
) -> Option<(Seq<u8>, int)>
    decreases 8 * b.len() - p,
{
    let avail = 8 * b.len() - p;
    match huffman_decode(lit, lmax, b, p, avail, 1) {
        None => None,
        Some((sym, len)) => {
            let p1 = p + len;
            if len < 1 || len > avail {
                None
            } else if sym <= 255 {
                if out.len() >= max {
                    None
                } else {
                    block_output(b, p1, out.push(sym as u8), lit, lmax, dist, dmax, max)
                }
            } else if sym == 256 {
                Some((out, p1))
            } else if sym <= 285 {
                match match_output(b, p1, out, sym - 257, dist, dmax, max) {
                    None => None,
                    Some((o, q)) => if q <= p || q > 8 * b.len() {
                        None
                    } else {
                        block_output(b, q, o, lit, lmax, dist, dmax, max)
                    },
                }
            } else {
                None
            }
        },
    }
}

/// An LZ77 copy keeps what came before and makes each new byte equal to the
/// byte `back` positions before it.
pub proof fn lemma_lz_copy(out: Seq<u8>, back: int, n: nat)
    requires
        1 <= back <= out.len(),
    ensures
        lz_copy(out, back, n).len() == out.len() + n,
        lz_copy(out, back, n).subrange(0, out.len() as int) == out,
        forall|k: int|
            out.len() <= k < out.len() + n ==> #[trigger] lz_copy(out, back, n)[k] == lz_copy(out, back, n)[k
                - back],
    decreases n,
{
    if n > 0 {
        lemma_lz_copy(out, back, (n - 1) as nat);
        let o = lz_copy(out, back, (n - 1) as nat);
        assert(lz_copy(out, back, n).subrange(0, out.len() as int) =~= o.subrange(0, out.len() as int));
        assert forall|k: int| out.len() <= k < out.len() + n implies #[trigger] lz_copy(out, back, n)[k]
            == lz_copy(out, back, n)[k - back] by {
            if k < out.len() + n - 1 {
                assert(lz_copy(out, back, n)[k] == o[k]);
                assert(lz_copy(out, back, n)[k - back] == o[k - back]);
            }
        }
    } else {
        assert(out.subrange(0, out.len() as int) =~= out);
    }
}

/// Decodes one Huffman-coded block, appending to `output` at most up to
/// `max` bytes in all.
/// Reads the extra length bits, the distance and its extra bits of a
/// length/distance pair whose length symbol is `257 + index`, and appends
/// the copied bytes.
fn length_match(
    bytes: &[u8],
    bits: &mut Bits,
    output: &mut Vec<u8>,
    distance: &Huffman,
    index: usize,
    max: usize,
) -> (r: Result<(), InflateError>)
    requires
        old(bits).wf(bytes@.len() as int),
        distance.wf(),
        index < 29,
        old(output)@.len() <= max,
    ensures
        final(bits).wf(bytes@.len() as int),
        final(bits).remaining(bytes@.len() as int) <= old(bits).remaining(bytes@.len() as int),
        final(output)@.len() <= max,
        final(output)@.len() >= old(output)@.len(),
        final(output)@.subrange(0, old(output)@.len() as int) == old(output)@,
        old(bits).synced(bytes@) ==> final(bits).synced(bytes@),
        old(bits).synced(bytes@) ==> (r is Ok <==> match_output(
            bytes@,
            old(bits).position(),
            old(output)@,
            index as int,
            distance.entries@,
            distance.max as int,
            max as int,
        ) is Some),
        old(bits).synced(bytes@) && r is Ok ==> match_output(
            bytes@,
            old(bits).position(),
            old(output)@,
            index as int,
            distance.entries@,
            distance.max as int,
            max as int,
        ) == Some((final(output)@, final(bits).position())),
{
    let ghost out0 = output@;
    let ghost p1 = bits.position();
    let extra = match bits.read(bytes, LENGTH_EXTRA[index]) {
        Ok(v) => v,
        Err(e) => return Err(e),
    };
    proof {
        lemma_shift_bound(LENGTH_EXTRA[index as int]);
    }
    let length = LENGTH_BASE[index] + extra as usize;
    let ghost p2 = bits.position();
    let distance_symbol = match distance.symbol(bytes, bits) {
        Ok(v) => v as usize,
        Err(e) => return Err(e),
    };
    if distance_symbol >= 30 {
        return Err(InflateError::Invalid("reserved Deflate distance symbol"));
    }
    let ghost p3 = bits.position();
    let dextra = match bits.read(bytes, DIST_EXTRA[distance_symbol]) {
        Ok(v) => v,
        Err(e) => return Err(e),
    };
    proof {
        lemma_shift_bound(DIST_EXTRA[distance_symbol as int]);
    }
    let back = DIST_BASE[distance_symbol] + dextra as usize;
    if back == 0 || back > output.len() {
        return Err(InflateError::Invalid("Deflate distance exceeds history"));
    }
    if length > max - output.len() {
        return Err(InflateError::Limit("inflated bytes"));
    }
    let mut k: usize = 0;
    while k < length
        invariant
            k <= length,
            1 <= back <= out0.len(),
            out0.len() + length <= max,
            output@ == lz_copy(out0, back as int, k as nat),
            output@.len() == out0.len() + k,
            out0.len() >= old(output)@.len(),
            out0.subrange(0, old(output)@.len() as int) == old(output)@,
        decreases length - k,
    {
        let b = output[output.len() - back];
        output.push(b);
        k = k + 1;
    }
    proof {
        lemma_lz_copy(out0, back as int, length as nat);
        assert(output@.subrange(0, old(output)@.len() as int) =~= out0.subrange(0, old(output)@.len() as int));
    }
    Ok(())
}

pub fn compressed_block(
    bytes: &[u8],
    bits: &mut Bits,
    output: &mut Vec<u8>,
    literal: &Huffman,
    distance: &Huffman,
    max: usize,
) -> (r: Result<(), InflateError>)
    requires
        old(bits).wf(bytes@.len() as int),
        literal.wf(),
        distance.wf(),
        old(output)@.len() <= max,
    ensures
        final(bits).wf(bytes@.len() as int),
        final(bits).remaining(bytes@.len() as int) <= old(bits).remaining(bytes@.len() as int),
        final(output)@.len() <= max,
        final(output)@.len() >= old(output)@.len(),
        final(output)@.subrange(0, old(output)@.len() as int) == old(output)@,
        old(bits).synced(bytes@) ==> final(bits).synced(bytes@),
        old(bits).synced(bytes@) ==> (r is Ok <==> block_output(
            bytes@,
            old(bits).position(),
            old(output)@,
            literal.entries@,
            literal.max as int,
            distance.entries@,
            distance.max as int,
            max as int,
        ) is Some),
        old(bits).synced(bytes@) && r is Ok ==> block_output(
            bytes@,
            old(bits).position(),
            old(output)@,
            literal.entries@,
            literal.max as int,
            distance.entries@,
            distance.max as int,
            max as int,
        ) == Some((final(output)@, final(bits).position())),
{
    let ghost synced = old(bits).synced(bytes@);
    let ghost lit = literal.entries@;
    let ghost dst = distance.entries@;
    let ghost goal = block_output(
        bytes@,
        old(bits).position(),
        old(output)@,
        lit,
        literal.max as int,
        dst,
        distance.max as int,
        max as int,
    );
    loop
        invariant
            bits.wf(bytes@.len() as int),
            bits.remaining(bytes@.len() as int) <= old(bits).remaining(bytes@.len() as int),
            literal.wf(),
            distance.wf(),
            output@.len() <= max,
            output@.len() >= old(output)@.len(),
            output@.subrange(0, old(output)@.len() as int) == old(output)@,
            synced == old(bits).synced(bytes@),
            goal == block_output(
                bytes@,
                old(bits).position(),
                old(output)@,
                lit,
                literal.max as int,
                dst,
                distance.max as int,
                max as int,
            ),
            lit == literal.entries@ && dst == distance.entries@,
            synced ==> bits.synced(bytes@),
            synced ==> goal == block_output(
                bytes@,
                bits.position(),
                output@,
                lit,
                literal.max as int,
                dst,
                distance.max as int,
                max as int,
            ),
        decreases bits.remaining(bytes@.len() as int),
    {
        let ghost p0 = bits.position();
        let ghost out0 = output@;
        let symbol = match literal.symbol(bytes, bits) {
            Ok(v) => v,
            Err(e) => return Err(e),
        };
        if symbol <= 255 {
            if output.len() >= max {
                return Err(InflateError::Limit("inflated bytes"));
            }
            let ghost before = output@;
            output.push(symbol as u8);
            assert(output@.subrange(0, old(output)@.len() as int) =~= before.subrange(0, old(output)@.len() as int));
        } else if symbol == 256 {
            return Ok(());
        } else if symbol <= 285 {
            let index = (symbol - 257) as usize;
            match length_match(bytes, bits, output, distance, index, max) {
                Ok(()) => {},
                Err(e) => return Err(e),
            }
        } else {
            return Err(InflateError::Invalid("reserved Deflate literal/length symbol"));
        }
    }
}

/// The two zlib header bytes announce Deflate with a window of at most
/// 32 KiB, a valid check value and no preset dictionary.
pub open spec fn zlib_header_ok(cmf: u8, flg: u8) -> bool {
    &&& cmf % 16 == 8
    &&& cmf / 16 <= 7
    &&& (cmf as int * 256 + flg as int) % 31 == 0
    &&& flg & 0x20 == 0
}

/// Bit facts behind reading a stored-block header: a header byte `x` of 0
/// or 1 gives the final-block flag `x` and block type 0, `!n` is the
/// complement `65535 - n`, and the flag byte `0x01` asks for no dictionary.
proof fn lemma_stored_bits(x: u8, n: u16)
    requires
        x <= 1,
    ensures
        (0u32 | ((((x >> 0u8) & 1u8) as u32) << 0u32)) == x as u32,
        ((0u32 | ((((x >> 1u8) & 1u8) as u32) << 0u32)) | ((((x >> 2u8) & 1u8) as u32) << 1u32)) == 0u32,
        !n == 65535u16 - n,
        1u8 & 0x20u8 == 0u8,
{
    assert((0u32 | ((((x >> 0u8) & 1u8) as u32) << 0u32)) == x as u32 && ((0u32 | ((((x >> 1u8) & 1u8)
        as u32) << 0u32)) | ((((x >> 2u8) & 1u8) as u32) << 1u32)) == 0u32 && !n == 65535u16 - n && 1u8
        & 0x20u8 == 0u8) by (bit_vector)
        requires
            x <= 1,
    ;
}

/// The layout of `stored_blocks(rest)`: a header byte (1 for the last
/// block), the chunk length and its complement, the chunk, and the blocks
/// of what follows.
proof fn lemma_stored_layout(rest: Seq<u8>)
    ensures
        ({
            let n = if rest.len() <= 65535 { rest.len() as int } else { 65535int };
            let sb = crate::png_codec::stored_blocks(rest);
            &&& sb.len() >= 5 + n
            &&& sb[0] == (if rest.len() <= 65535 { 1u8 } else { 0u8 })
            &&& sb[1] as int + 256 * sb[2] as int == n
            &&& sb[3] as int + 256 * sb[4] as int == 65535 - n
            &&& sb.subrange(5, 5 + n) == rest.subrange(0, n)
            &&& rest.len() <= 65535 ==> sb.len() == 5 + n
            &&& rest.len() > 65535 ==> sb.subrange(5 + n, sb.len() as int)
                == crate::png_codec::stored_blocks(rest.subrange(65535, rest.len() as int))
        }),
{
    let n = if rest.len() <= 65535 { rest.len() as int } else { 65535int };
    let sb = crate::png_codec::stored_blocks(rest);
    if rest.len() <= 65535 {
        assert(sb.subrange(5, 5 + n) =~= rest.subrange(0, n));
    } else {
        let tail = crate::png_codec::stored_blocks(rest.subrange(65535, rest.len() as int));
        assert(sb.subrange(5, 5 + n) =~= rest.subrange(0, n));
        assert(sb.subrange(5 + n, sb.len() as int) =~= tail);
    }
}

/// Reading back the four big-endian bytes of a 32-bit value gives it.
proof fn lemma_be32_round(v: int)
    requires
        0 <= v < 0x1_0000_0000,
    ensures
        crate::bytes::be32(crate::bytes::be32_bytes(v), 0) == v,
{
    let b = crate::bytes::be32_bytes(v);
    assert(b[0] == v / 16777216 % 256 && b[1] == v / 65536 % 256 && b[2] == v / 256 % 256 && b[3] == v % 256);
    assert(16777216 * (v / 16777216 % 256) + 65536 * (v / 65536 % 256) + 256 * (v / 256 % 256) + v % 256 == v)
        by (nonlinear_arith)
        requires
            0 <= v < 0x1_0000_0000,
    ;
}

/// Stored blocks of equally long contents are equal only for equal contents.
proof fn lemma_stored_blocks_injective(s1: Seq<u8>, s2: Seq<u8>)
    requires
        s1.len() == s2.len(),
        crate::png_codec::stored_blocks(s1) == crate::png_codec::stored_blocks(s2),
    ensures
        s1 == s2,
    decreases s1.len(),
{
    lemma_stored_layout(s1);
    lemma_stored_layout(s2);
    let sb = crate::png_codec::stored_blocks(s1);
    if s1.len() <= 65535 {
        assert(s1 =~= s1.subrange(0, s1.len() as int));
        assert(s2 =~= s2.subrange(0, s2.len() as int));
    } else {
        let t1 = s1.subrange(65535, s1.len() as int);
        let t2 = s2.subrange(65535, s2.len() as int);
        lemma_stored_blocks_injective(t1, t2);
        assert(s1 =~= s1.subrange(0, 65535) + t1);
        assert(s2 =~= s2.subrange(0, 65535) + t2);
    }
}

/// The first three bits of a stored-block header byte `b[q]` of 0 or 1:
/// the final-block flag `b[q]`, then block type 0.
proof fn lemma_header_bits(b: Seq<u8>, q: int)
    requires
        0 <= q < b.len(),
        b[q] <= 1,
    ensures
        read_bits(b, 8 * q, 1) == b[q] as u32,
        read_bits(b, 8 * q + 1, 2) == 0,
{
    lemma_stored_bits(b[q], 0);
    assert(read_bits(b, 8 * q, 0) == 0);
    assert(read_bits(b, 8 * q + 1, 0) == 0);
    assert(read_bits(b, 8 * q, 1) == (0u32 | (stream_bit(b, 8 * q) << 0u32)));
    assert(stream_bit(b, 8 * q) == (((b[q] >> 0u8) & 1u8) as u32));
    assert(read_bits(b, 8 * q + 1, 1) == (0u32 | (stream_bit(b, 8 * q + 1) << 0u32)));
    assert(read_bits(b, 8 * q + 1, 2) == (read_bits(b, 8 * q + 1, 1) | (stream_bit(b, 8 * q + 2) << 1u32)));
    assert(stream_bit(b, 8 * q + 1) == (((b[q] >> 1u8) & 1u8) as u32));
    assert(stream_bit(b, 8 * q + 2) == (((b[q] >> 2u8) & 1u8) as u32));
}

/// Reads the rest of a stored block, whose three header bits were read
/// from the byte before `bits.pos`, appending its bytes to `output`. When
/// the stream holds `stored_blocks(rest)` from that byte up to its last four
/// bytes, the block's chunk of `rest` is appended.
#[verifier::loop_isolation(false)]
fn stored_block(
    stream: &[u8],
    bits: &mut Bits,
    output: &mut Vec<u8>,
    expected: usize,
    stored: Ghost<bool>,
    rest: Ghost<Seq<u8>>,
) -> (r: Result<(), InflateError>)
    requires
        old(bits).wf(stream@.len() as int),
        old(output)@.len() <= expected,
        stored@ ==> {
            &&& 1 <= old(bits).pos
            &&& old(bits).pos - 1 <= stream@.len() - 4
            &&& old(bits).left < 8
            &&& stream@.subrange(old(bits).pos - 1, stream@.len() - 4) == crate::png_codec::stored_blocks(rest@)
            &&& old(output)@.len() + rest@.len() <= expected
        },
    ensures
        final(bits).wf(stream@.len() as int),
        final(bits).remaining(stream@.len() as int) <= old(bits).remaining(stream@.len() as int),
        final(output)@.len() <= expected,
        stored@ ==> {
            let n = if rest@.len() <= 65535 { rest@.len() as int } else { 65535int };
            &&& r is Ok
            &&& final(bits).left == 0
            &&& final(bits).pos == old(bits).pos + 4 + n
            &&& final(output)@ == old(output)@ + rest@.subrange(0, n)
        },
{
    let ghost q = bits.pos - 1;
    let ghost out0 = output@;
    let ghost sb = crate::png_codec::stored_blocks(rest@);
    let ghost n = if rest@.len() <= 65535 { rest@.len() as int } else { 65535int };
    let ghost len = stream@.len() as int;
    proof {
        if stored@ {
            lemma_stored_layout(rest@);
            assert forall|i: int| 0 <= i < sb.len() implies stream@[q + i] == #[trigger] sb[i] by {
                assert(stream@.subrange(q, len - 4)[i] == stream@[q + i]);
            }
        }
    }
    bits.align(stream);
    let b0 = match bits.byte(stream) {
        Ok(v) => v,
        Err(e) => return Err(e),
    };
    let b1 = match bits.byte(stream) {
        Ok(v) => v,
        Err(e) => return Err(e),
    };
    let b2 = match bits.byte(stream) {
        Ok(v) => v,
        Err(e) => return Err(e),
    };
    let b3 = match bits.byte(stream) {
        Ok(v) => v,
        Err(e) => return Err(e),
    };
    let block_len = b0 as u16 + 256 * (b1 as u16);
    let nlen = b2 as u16 + 256 * (b3 as u16);
    proof {
        if stored@ {
            lemma_stored_bits(0, nlen);
            assert(block_len == n);
        }
    }
    if block_len != !nlen {
        return Err(InflateError::Invalid("stored Deflate block length"));
    }
    if block_len as usize > expected - output.len() {
        return Err(InflateError::Limit("inflated bytes"));
    }
    let ghost r1 = bits.remaining(stream@.len() as int);
    assert(stored@ ==> q + 5 + block_len <= len - 4);
    let mut k: u16 = 0;
    while k < block_len
        invariant
            k <= block_len,
            bits.wf(stream@.len() as int),
            bits.remaining(stream@.len() as int) <= r1,
            r1 <= old(bits).remaining(stream@.len() as int),
            output@.len() + (block_len - k) <= expected,
            stored@ ==> bits.left == 0 && bits.pos == q + 5 + k && output@ == out0 + stream@.subrange(
                q + 5,
                q + 5 + k,
            ),
        decreases block_len - k,
    {
        let b = match bits.byte(stream) {
            Ok(v) => v,
            Err(e) => return Err(e),
        };
        output.push(b);
        k = k + 1;
        proof {
            if stored@ {
                assert(output@ =~= out0 + stream@.subrange(q + 5, q + 5 + k));
            }
        }
    }
    proof {
        if stored@ {
            assert(stream@.subrange(q + 5, q + 5 + n) =~= sb.subrange(5, 5 + n));
        }
    }
    Ok(())
}

/// Inflates the zlib stream `stream`, which must decode to exactly
/// `expected` bytes and end with their Adler-32 checksum.
pub fn inflate_zlib(stream: &[u8], expected: usize) -> (r: Result<Vec<u8>, InflateError>)
    ensures
        r matches Ok(out) ==> {
            &&& stream@.len() >= 6
            &&& zlib_header_ok(stream@[0], stream@[1])
            &&& out@.len() == expected
            &&& adler32_spec(out@) == crate::bytes::be32(stream@, stream@.len() - 4)
        },
        stream@.len() < 6 ==> r == Err::<Vec<u8>, InflateError>(InflateError::Truncated("zlib stream")),
        stream@.len() >= 6 && !(stream@[0] % 16 == 8 && stream@[0] / 16 <= 7 && (stream@[0] as int * 256
            + stream@[1] as int) % 31 == 0) ==> r == Err::<Vec<u8>, InflateError>(
            InflateError::Invalid("zlib header"),
        ),
        stream@.len() >= 6 && stream@[0] % 16 == 8 && stream@[0] / 16 <= 7 && (stream@[0] as int * 256
            + stream@[1] as int) % 31 == 0 && stream@[1] & 0x20 != 0 ==> r
            == Err::<Vec<u8>, InflateError>(InflateError::Unsupported("preset zlib dictionary")),
        forall|s: Seq<u8>|
            #[trigger] crate::png_codec::zlib_stored(s) == stream@ && s.len() == expected ==> (r matches Ok(
                out,
            ) && out@ == s),
{
    let ghost stored = exists|s: Seq<u8>|
        #[trigger] crate::png_codec::zlib_stored(s) == stream@ && s.len() == expected;
    let ghost sv: Seq<u8> = if stored {
        choose|s: Seq<u8>| #[trigger] crate::png_codec::zlib_stored(s) == stream@ && s.len() == expected
    } else {
        Seq::empty()
    };
    proof {
        if stored {
            let sb = crate::png_codec::stored_blocks(sv);
            let tail = crate::bytes::be32_bytes(adler32_spec(sv));
            lemma_stored_layout(sv);
            lemma_stored_bits(0, 0);
            assert(stream@ == seq![0x78u8, 0x01] + sb + tail);
            assert(stream@[0] == 0x78 && stream@[1] == 0x01);
        }
    }
    let len = stream.len();
    if len < 6 {
        return Err(InflateError::Truncated("zlib stream"));
    }
    let cmf = stream[0];
    let flg = stream[1];
    if cmf % 16 != 8 || cmf / 16 > 7 || (cmf as u32 * 256 + flg as u32) % 31 != 0 {
        return Err(InflateError::Invalid("zlib header"));
    }
    if flg & 0x20 != 0 {
        return Err(InflateError::Unsupported("preset zlib dictionary"));
    }
    let output = match inflate_blocks(stream, expected, Ghost(stored), Ghost(sv)) {
        Ok(o) => o,
        Err(e) => return Err(e),
    };
    proof {
        assert forall|s: Seq<u8>|
            #[trigger] crate::png_codec::zlib_stored(s) == stream@ && s.len() == expected implies output@ == s by {
            let sb1 = crate::png_codec::stored_blocks(s);
            let sb2 = crate::png_codec::stored_blocks(sv);
            assert(stream@.subrange(2, stream@.len() - 4) =~= sb1);
            assert(stream@.subrange(2, stream@.len() - 4) =~= sb2);
            lemma_stored_blocks_injective(s, sv);
        }
    }
    Ok(output)
}

/// Inflates the Deflate blocks of the zlib stream `stream` after its
/// two-byte header and checks the Adler-32 trailer: `stored_blocks(sv)`
/// gives `sv` back.
fn inflate_blocks(stream: &[u8], expected: usize, is_stored: Ghost<bool>, content: Ghost<Seq<u8>>) -> (r: Result<
    Vec<u8>,
    InflateError,
>)
    requires
        stream@.len() >= 6,
        is_stored@ ==> crate::png_codec::zlib_stored(content@) == stream@ && content@.len() == expected,
    ensures
        r matches Ok(out) ==> {
            &&& out@.len() == expected
            &&& adler32_spec(out@) == crate::bytes::be32(stream@, stream@.len() - 4)
        },
        is_stored@ ==> (r matches Ok(out) && out@ == content@),
{
    let ghost stored = is_stored@;
    let ghost sv = content@;
    proof {
        if stored {
            let sb = crate::png_codec::stored_blocks(sv);
            let tail = crate::bytes::be32_bytes(adler32_spec(sv));
            lemma_stored_layout(sv);
            assert(stream@ == seq![0x78u8, 0x01] + sb + tail);
            assert(stream@.subrange(2, stream@.len() - 4) =~= sb);
            assert(stream@.subrange(stream@.len() - 4, stream@.len() as int) =~= tail);
            assert(sv.subrange(0, 0) =~= Seq::<u8>::empty());
            assert(sv.subrange(0, sv.len() as int) =~= sv);
        }
    }
    let len = stream.len();
    let mut bits = Bits { pos: 2, value: 0, left: 0 };
    let mut output: Vec<u8> = Vec::new();
    loop
        invariant_except_break
            stored ==> {
                &&& bits.left == 0
                &&& 2 <= bits.pos <= len - 4
                &&& output@.len() <= sv.len()
                &&& output@ == sv.subrange(0, output@.len() as int)
                &&& stream@.subrange(bits.pos as int, len - 4) == crate::png_codec::stored_blocks(
                    sv.subrange(output@.len() as int, sv.len() as int),
                )
            },
        invariant
            bits.wf(len as int),
            len == stream@.len(),
            output@.len() <= expected,
            stored == is_stored@ && sv == content@,
            stored ==> crate::png_codec::zlib_stored(sv) == stream@ && sv.len() == expected,
            stored ==> stream@.subrange(len - 4, len as int) == crate::bytes::be32_bytes(adler32_spec(sv)),
        ensures
            bits.wf(len as int),
            output@.len() <= expected,
            stored ==> bits.left == 0 && bits.pos == len - 4 && output@ == sv,
        decreases bits.remaining(len as int),
    {
        let ghost r0 = bits.remaining(len as int);
        let ghost q = bits.pos as int;
        let ghost out0 = output@;
        let ghost rest = sv.subrange(output@.len() as int, sv.len() as int);
        let ghost sb = crate::png_codec::stored_blocks(rest);
        let ghost n = if rest.len() <= 65535 { rest.len() as int } else { 65535int };
        proof {
            if stored {
                lemma_stored_layout(rest);
                assert(stream@.subrange(q, len - 4)[0] == stream@[q]);
                lemma_header_bits(stream@, q);
            }
        }
        let final_block = match bits.read(stream, 1) {
            Ok(v) => v != 0,
            Err(e) => return Err(e),
        };
        let kind = match bits.read(stream, 2) {
            Ok(v) => v,
            Err(e) => return Err(e),
        };
        assert(stored ==> final_block == (rest.len() <= 65535) && kind == 0);
        if kind == 0 {
            match stored_block(stream, &mut bits, &mut output, expected, Ghost(stored), Ghost(rest)) {
                Ok(()) => {},
                Err(e) => return Err(e),
            }
            proof {
                if stored {
                    assert(output@ =~= sv.subrange(0, output@.len() as int));
                    if rest.len() > 65535 {
                        assert(sv.subrange(output@.len() as int, sv.len() as int) =~= rest.subrange(
                            65535,
                            rest.len() as int,
                        ));
                        assert(stream@.subrange(bits.pos as int, len - 4) =~= sb.subrange(5 + n, sb.len() as int));
                    } else {
                        assert(output@.len() == sv.len());
                        assert(bits.pos == len - 4);
                    }
                }
            }
        } else if kind == 1 {
            let (literal, distance) = match fixed_trees() {
                Ok(t) => t,
                Err(e) => return Err(e),
            };
            match compressed_block(stream, &mut bits, &mut output, &literal, &distance, expected) {
                Ok(()) => {},
                Err(e) => return Err(e),
            }
        } else if kind == 2 {
            let (literal, distance) = match dynamic_trees(stream, &mut bits) {
                Ok(t) => t,
                Err(e) => return Err(e),
            };
            match compressed_block(stream, &mut bits, &mut output, &literal, &distance, expected) {
                Ok(()) => {},
                Err(e) => return Err(e),
            }
        } else {
            return Err(InflateError::Invalid("reserved Deflate block type"));
        }
        if final_block {
            break;
        }
    }
    bits.align(stream);
    let consumed = bits.pos;
    if consumed > len - 4 {
        return Err(InflateError::Truncated("zlib Adler-32"));
    }
    if consumed + 4 != len {
        return Err(InflateError::Invalid("trailing zlib bytes"));
    }
    let checksum = crate::bytes::read_be32(stream, consumed);
    proof {
        if stored {
            let tail = crate::bytes::be32_bytes(adler32_spec(sv));
            assert(output@ =~= sv);
            assert(stream@.subrange(len - 4, len as int)[0] == stream@[len - 4]);
            assert(crate::bytes::be32(stream@, len - 4) == crate::bytes::be32(tail, 0));
            lemma_be32_round(adler32_spec(sv));
        }
    }
    if checksum != adler32(output.as_slice()) {
        return Err(InflateError::Invalid("zlib Adler-32"));
    }
    if output.len() != expected {
        return Err(InflateError::Invalid("inflated byte count"));
    }
    Ok(output)
}

} // verus!
