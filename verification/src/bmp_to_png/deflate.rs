//! Deflate output for PNG: a fixed-Huffman encoder that turns byte runs into
//! distance-one matches.
use vstd::prelude::*;
use crate::inflate::{reverse, reverse_onto, LENGTH_BASE, LENGTH_EXTRA};
use crate::bytes::{stream_value, lemma_flush_byte, lemma_add_pending};
use vstd::arithmetic::power2::pow2;

verus! {

/// Packs bit fields least significant bit first into bytes.
pub struct BitWriter {
    pub out: Vec<u8>,
    pub bits: u64,
    pub count: u8,
}

impl BitWriter {
    pub open spec fn wf(self) -> bool {
        self.count < 8 && self.bits < (1u64 << (self.count as u64))
    }

    /// Bits written so far, pending ones included.
    pub open spec fn bit_len(self) -> int {
        8 * self.out@.len() + self.count
    }

    /// The value of every bit written so far, the first as the least
    /// significant.
    pub open spec fn stream(self) -> int {
        stream_value(self.out@, self.bits as int)
    }

    /// Appends the low `count` bits of `value`.
    pub fn write_bits(&mut self, value: u32, count: u8)
        requires
            old(self).wf(),
            count <= 16,
            value < (1u32 << count),
        ensures
            final(self).wf(),
            final(self).out@.len() >= old(self).out@.len(),
            final(self).out@.subrange(0, old(self).out@.len() as int) == old(self).out@,
            final(self).bit_len() == old(self).bit_len() + count,
            final(self).stream() == old(self).stream() + value * pow2(old(self).bit_len() as nat),
    {
        let b = self.bits;
        let c = self.count;
        assert((b | ((value as u64) << (c as u64))) < (1u64 << ((c + count) as u64))) by (bit_vector)
            requires
                b < (1u64 << (c as u64)),
                c < 8,
                value < (1u32 << count),
                count <= 16,
        ;
        assert((b | ((value as u64) << (c as u64))) == b + ((value as u64) << (c as u64))) by (bit_vector)
            requires
                b < (1u64 << (c as u64)),
                c < 8,
                value < (1u32 << count),
                count <= 16,
        ;
        proof {
            assert(value < 65536) by (bit_vector)
                requires
                    value < (1u32 << count),
                    count <= 16,
            ;
            vstd::arithmetic::power2::lemma2_to64();
            vstd::arithmetic::power2::lemma_pow2_pos(c as nat);
            assert(pow2(c as nat) <= 128) by {
                if c < 7 {
                    vstd::arithmetic::power2::lemma_pow2_strictly_increases(c as nat, 7);
                }
            }
            assert(value as u64 * pow2(c as nat) <= u64::MAX) by (nonlinear_arith)
                requires
                    value < 65536,
                    pow2(c as nat) <= 128,
            ;
            vstd::bits::lemma_u64_shl_is_mul(value as u64, c as u64);
            lemma_add_pending(self.out@, b as int, value as int, c as nat);
        }
        self.bits = b | ((value as u64) << (c as u64));
        self.count = c + count;
        let ghost start = self.out@;
        let ghost target = old(self).stream() + value * pow2(old(self).bit_len() as nat);
        let ghost target_len = old(self).bit_len() + count;
        assert(self.stream() == target);
        while self.count >= 8
            invariant
                self.count <= 24,
                self.bits < (1u64 << (self.count as u64)),
                self.out@.len() >= start.len(),
                self.out@.subrange(0, start.len() as int) == start,
                start == old(self).out@,
                self.stream() == target,
                self.bit_len() == target_len,
            decreases self.count,
        {
            let v = self.bits;
            let n = self.count;
            let ghost before = self.out@;
            self.out.push((v & 0xFF) as u8);
            assert(self.out@.subrange(0, start.len() as int) =~= before.subrange(0, start.len() as int));
            assert((v >> 8u64) < (1u64 << ((n - 8) as u64))) by (bit_vector)
                requires
                    v < (1u64 << (n as u64)),
                    8 <= n <= 24,
            ;
            assert(v == (v >> 8u64) * 256 + ((v & 0xFF) as u8)) by (bit_vector);
            proof {
                lemma_flush_byte(before, v as int, (v >> 8u64) as int, (v & 0xFF) as u8);
            }
            self.bits = v >> 8;
            self.count = n - 8;
        }
    }

    /// Flushes a partial final byte, padded with zero bits.
    pub fn finish(&mut self)
        requires
            old(self).wf(),
        ensures
            final(self).out@.len() >= old(self).out@.len(),
            final(self).out@.subrange(0, old(self).out@.len() as int) == old(self).out@,
            final(self).count == 0,
            final(self).bits == 0,
            final(self).stream() == old(self).stream(),
            final(self).out@.len() == (old(self).bit_len() + 7) / 8,
    {
        proof {
            vstd::arithmetic::power2::lemma2_to64();
            vstd::bits::lemma_u64_shl_is_mul(1u64, 0u64);
        }
        if self.count != 0 {
            let ghost before = self.out@;
            let b = self.bits;
            let c = self.count;
            proof {
                vstd::arithmetic::power2::lemma2_to64();
                vstd::arithmetic::power2::lemma_pow2_strictly_increases(c as nat, 8);
                vstd::bits::lemma_u64_shl_is_mul(1u64, c as u64);
            }
            assert(b < 256);
            proof {
                lemma_flush_byte(before, b as int, 0, b as u8);
            }
            self.out.push(self.bits as u8);
            assert(self.out@.subrange(0, before.len() as int) =~= before);
            self.bits = 0;
            self.count = 0;
        }
    }
}

/// The fixed-Huffman code `(code, length)` of a literal/length symbol.
pub open spec fn fixed_code(symbol: u16) -> (u32, u8) {
    if symbol <= 143 {
        ((0x30 + symbol) as u32, 8)
    } else if symbol <= 255 {
        ((0x190 + (symbol - 144)) as u32, 9)
    } else if symbol <= 279 {
        ((symbol - 256) as u32, 7)
    } else {
        ((0xC0 + (symbol - 280)) as u32, 8)
    }
}

/// The bits of `symbol`'s fixed-Huffman code as written to the stream,
/// `(value, length)`: the code reversed, so that its first bit goes first.
pub open spec fn symbol_code(symbol: u16) -> (int, int) {
    let (code, length) = fixed_code(symbol);
    (reverse_onto(code as u16, 0, length as nat) as int, length as int)
}

/// Appends the fixed-Huffman code of `symbol`, most significant bit first.
fn fixed_symbol(w: &mut BitWriter, symbol: u16)
    requires
        old(w).wf(),
        symbol <= 287,
    ensures
        final(w).wf(),
        final(w).out@.len() >= old(w).out@.len(),
        final(w).out@.subrange(0, old(w).out@.len() as int) == old(w).out@,
        final(w).bit_len() == old(w).bit_len() + symbol_code(symbol).1,
        final(w).stream() == old(w).stream() + symbol_code(symbol).0 * pow2(old(w).bit_len() as nat),
{
    let (code, bits): (u32, u8) = if symbol <= 143 {
        (0x30 + symbol as u32, 8)
    } else if symbol <= 255 {
        (0x190 + (symbol as u32 - 144), 9)
    } else if symbol <= 279 {
        (symbol as u32 - 256, 7)
    } else {
        (0xC0 + (symbol as u32 - 280), 8)
    };
    let reversed = reverse(code as u16, bits);
    assert((reversed as u32) < (1u32 << bits)) by (bit_vector)
        requires
            reversed < (1u16 << bits),
            bits <= 9,
    ;
    w.write_bits(reversed as u32, bits);
}

/// The upper end of the range of length code `k`.
pub open spec fn length_upper(k: int) -> int {
    if k == 28 {
        LENGTH_BASE[28] as int
    } else {
        LENGTH_BASE[k + 1] - 1
    }
}

/// The first length code from `k` on whose range holds `length`; 0 when
/// none does.
pub open spec fn length_code_from(length: int, k: int) -> int
    decreases 29 - k,
{
    if k < 0 || k >= 29 {
        0
    } else if LENGTH_BASE[k] <= length && length <= length_upper(k) {
        k
    } else {
        length_code_from(length, k + 1)
    }
}

/// The bits of a match of `length` bytes at distance one, `(value, length)`:
/// the length symbol, its extra bits, then the five-bit distance code zero.
pub open spec fn match_code(length: int) -> (int, int) {
    let k = length_code_from(length, 0);
    let (sv, sl) = symbol_code((257 + k) as u16);
    let eb = LENGTH_EXTRA[k] as int;
    let extra = length - LENGTH_BASE[k];
    if eb != 0 && extra >= 0 && extra < pow2(eb as nat) {
        (sv + extra * pow2(sl as nat), sl + eb + 5)
    } else {
        (sv, sl + 5)
    }
}

/// Appending `mv` (`ml` bits) and then `rv` to a stream at bit `t`, against
/// appending `mv + rv * 2^ml` at once.
pub proof fn lemma_append_pair(s: int, t: nat, mv: int, ml: nat, rv: int)
    ensures
        (s + mv * pow2(t)) + rv * pow2(t + ml) == s + (mv + rv * pow2(ml)) * pow2(t),
{
    vstd::arithmetic::power2::lemma_pow2_adds(t, ml);
    let p = pow2(t) as int;
    let q = pow2(ml) as int;
    assert(mv * p + rv * (p * q) == (mv + rv * q) * p) by (nonlinear_arith);
}

/// Appends a match of `length` bytes at distance one.
fn fixed_distance_one_match(w: &mut BitWriter, length: usize)
    requires
        old(w).wf(),
        3 <= length <= 258,
    ensures
        final(w).wf(),
        final(w).out@.len() >= old(w).out@.len(),
        final(w).out@.subrange(0, old(w).out@.len() as int) == old(w).out@,
        final(w).bit_len() == old(w).bit_len() + match_code(length as int).1,
        final(w).stream() == old(w).stream() + match_code(length as int).0 * pow2(old(w).bit_len() as nat),
{
    let mut index: usize = 0;
    let mut k: usize = 0;
    while k < 29
        invariant_except_break
            k <= 29,
            index == 0,
            length_code_from(length as int, 0) == length_code_from(length as int, k as int),
        invariant
            3 <= length <= 258,
            index < 29,
        ensures
            index == length_code_from(length as int, 0),
        decreases 29 - k,
    {
        let upper = if k == 28 {
            LENGTH_BASE[k]
        } else {
            LENGTH_BASE[k + 1] - 1
        };
        if length >= LENGTH_BASE[k] && length <= upper {
            index = k;
            break;
        }
        k = k + 1;
    }
    let ghost t = old(w).bit_len();
    let ghost s0 = old(w).stream();
    let ghost before = w.out@;
    fixed_symbol(w, 257 + index as u16);
    let ghost sl = symbol_code((257 + index) as u16).1;
    let ghost sv = symbol_code((257 + index) as u16).0;
    let extra_bits = LENGTH_EXTRA[index];
    let ghost mid = w.out@;
    if extra_bits != 0 && length >= LENGTH_BASE[index] {
        let extra = (length - LENGTH_BASE[index]) as u32;
        proof {
            vstd::arithmetic::power2::lemma2_to64();
            vstd::bits::lemma_u32_shl_is_mul(1u32, extra_bits as u32);
        }
        if extra < (1u32 << extra_bits) {
            w.write_bits(extra, extra_bits);
            proof {
                lemma_append_pair(s0, t as nat, sv, sl as nat, extra as int);
            }
        }
    }
    assert(0u32 < (1u32 << 5u8)) by (bit_vector);
    w.write_bits(0, 5);
    assert(w.out@.subrange(0, before.len() as int) =~= before) by {
        assert(mid.subrange(0, before.len() as int) == before);
    }
}

/// The bits for `n` more bytes equal to `value` after its first literal,
/// `(value, length)`: distance-one matches of up to 258 bytes while at least
/// three remain, then literals.
pub open spec fn repeat_code(value: u8, n: int) -> (int, int)
    decreases n,
{
    if n >= 3 {
        let l = if n < 258 {
            n
        } else {
            258
        };
        let (mv, ml) = match_code(l);
        let (rv, rl) = repeat_code(value, n - l);
        (mv + rv * pow2(ml as nat), ml + rl)
    } else if n > 0 {
        let (cv, cl) = symbol_code(value as u16);
        let (rv, rl) = repeat_code(value, n - 1);
        (cv + rv * pow2(cl as nat), cl + rl)
    } else {
        (0, 0)
    }
}

/// The bits of a pending run of `count` bytes equal to `pending`'s value:
/// one literal, then the rest as `repeat_code` has them; none without a run.
pub open spec fn run_code(pending: Option<u8>, count: int) -> (int, int) {
    match pending {
        Some(v) => {
            let (cv, cl) = symbol_code(v as u16);
            let (rv, rl) = repeat_code(v, count - 1);
            (cv + rv * pow2(cl as nat), cl + rl)
        },
        None => (0, 0),
    }
}

/// Emits the pending run: one literal, then distance-one matches, then
/// any remainder shorter than a match as literals.
fn flush_run(w: &mut BitWriter, pending: Option<u8>, count: usize)
    requires
        old(w).wf(),
        pending is Some ==> 1 <= count <= 259,
    ensures
        final(w).wf(),
        final(w).out@.len() >= old(w).out@.len(),
        final(w).out@.subrange(0, old(w).out@.len() as int) == old(w).out@,
        final(w).bit_len() == old(w).bit_len() + run_code(pending, count as int).1,
        final(w).stream() == old(w).stream() + run_code(pending, count as int).0 * pow2(
            old(w).bit_len() as nat,
        ),
{
    let ghost start = w.out@;
    if let Some(value) = pending {
        let ghost t0 = w.bit_len();
        let ghost s0 = w.stream();
        fixed_symbol(w, value as u16);
        let ghost t1 = w.bit_len();
        let ghost s1 = w.stream();
        let mut remaining = count - 1;
        let ghost goal_v = s1 + repeat_code(value, remaining as int).0 * pow2(t1 as nat);
        let ghost goal_l = t1 + repeat_code(value, remaining as int).1;
        proof {
            lemma_append_pair(
                s0,
                t0 as nat,
                symbol_code(value as u16).0,
                symbol_code(value as u16).1 as nat,
                repeat_code(value, remaining as int).0,
            );
        }
        while remaining >= 3
            invariant
                w.wf(),
                w.out@.len() >= start.len(),
                w.out@.subrange(0, start.len() as int) == start,
                w.stream() + repeat_code(value, remaining as int).0 * pow2(w.bit_len() as nat) == goal_v,
                w.bit_len() + repeat_code(value, remaining as int).1 == goal_l,
                w.bit_len() >= 0,
            decreases remaining,
        {
            let length = if remaining < 258 {
                remaining
            } else {
                258
            };
            let ghost before = w.out@;
            let ghost t = w.bit_len();
            let ghost s = w.stream();
            fixed_distance_one_match(w, length);
            proof {
                lemma_append_pair(
                    s,
                    t as nat,
                    match_code(length as int).0,
                    match_code(length as int).1 as nat,
                    repeat_code(value, remaining - length).0,
                );
            }
            assert(w.out@.subrange(0, start.len() as int) =~= before.subrange(0, start.len() as int));
            remaining = remaining - length;
        }
        while remaining > 0
            invariant
                w.wf(),
                w.out@.len() >= start.len(),
                w.out@.subrange(0, start.len() as int) == start,
                remaining < 3,
                w.stream() + repeat_code(value, remaining as int).0 * pow2(w.bit_len() as nat) == goal_v,
                w.bit_len() + repeat_code(value, remaining as int).1 == goal_l,
                w.bit_len() >= 0,
            decreases remaining,
        {
            let ghost before = w.out@;
            let ghost t = w.bit_len();
            let ghost s = w.stream();
            fixed_symbol(w, value as u16);
            proof {
                lemma_append_pair(
                    s,
                    t as nat,
                    symbol_code(value as u16).0,
                    symbol_code(value as u16).1 as nat,
                    repeat_code(value, remaining - 1).0,
                );
            }
            assert(w.out@.subrange(0, start.len() as int) =~= before.subrange(0, start.len() as int));
            remaining = remaining - 1;
        }
        let ghost z = repeat_code(value, remaining as int).0;
        assert(z * pow2(w.bit_len() as nat) == 0) by (nonlinear_arith)
            requires
                z == 0,
        ;
        assert(w.stream() == goal_v);
        assert(goal_v == s0 + run_code(pending, count as int).0 * pow2(t0 as nat));
    } else {
        let ghost z = run_code(pending, count as int).0;
        assert(z * pow2(w.bit_len() as nat) == 0) by (nonlinear_arith)
            requires
                z == 0,
        ;
    }
}

/// Bits `a` followed by bits `b`, each `(value, length)`.
pub open spec fn join(a: (int, int), b: (int, int)) -> (int, int) {
    (a.0 + b.0 * pow2(a.1 as nat), a.1 + b.1)
}

/// The bits for `data[i..]`, with a pending run of `count` bytes equal to
/// `pending`'s value: runs of one byte value of at most 259 bytes, each as
/// `run_code` has it.
pub open spec fn runs_code(data: Seq<u8>, i: int, pending: Option<u8>, count: int) -> (int, int)
    decreases data.len() - i,
{
    if i >= data.len() {
        run_code(pending, count)
    } else {
        let byte = data[i];
        match pending {
            Some(p) => if p == byte {
                if count + 1 == 259 {
                    join(run_code(pending, 259), runs_code(data, i + 1, None, 0))
                } else {
                    runs_code(data, i + 1, pending, count + 1)
                }
            } else {
                join(run_code(pending, count), runs_code(data, i + 1, Some(byte), 1))
            },
            None => runs_code(data, i + 1, Some(byte), 1),
        }
    }
}

/// The bits of the one fixed-Huffman block of `data`: the final-block flag,
/// block type one, the runs, and the end-of-block symbol.
pub open spec fn rle_block(data: Seq<u8>) -> (int, int) {
    join((3, 3), join(runs_code(data, 0, None, 0), symbol_code(256)))
}

pub proof fn lemma_repeat_len(value: u8, n: int)
    ensures
        repeat_code(value, n).1 >= 0,
    decreases n,
{
    if n >= 3 {
        let l = if n < 258 {
            n
        } else {
            258
        };
        lemma_repeat_len(value, n - l);
    } else if n > 0 {
        lemma_repeat_len(value, n - 1);
    }
}

/// `data` as a zlib stream of one fixed-Huffman block in which every run of
/// a repeated byte becomes a literal followed by distance-one matches: the
/// zlib header, the bits of `rle_block` packed least significant bit first
/// and padded with zero bits to a whole byte, then the Adler-32 of `data`.
pub fn fixed_rle(data: &[u8]) -> (z: Vec<u8>)
    ensures
        z@.len() == 6 + (rle_block(data@).1 + 7) / 8,
        z@[0] == 0x78 && z@[1] == 0x01,
        crate::bytes::le_value(z@.subrange(0, z@.len() - 4)) == 0x178 + rle_block(data@).0 * pow2(16),
        z@.subrange(z@.len() - 4, z@.len() as int) == crate::bytes::be32_bytes(
            crate::checksum::adler32_spec(data@),
        ),
{
    let mut out: Vec<u8> = Vec::new();
    out.push(0x78u8);
    out.push(0x01u8);
    assert(out@ =~= seq![0x78u8, 0x01]);
    let mut w = BitWriter { out, bits: 0, count: 0 };
    let ghost w0 = w.out@;
    assert(0u64 < (1u64 << 0u64)) by (bit_vector);
    assert(1u32 < (1u32 << 1u8)) by (bit_vector);
    assert(1u32 < (1u32 << 2u8)) by (bit_vector);
    proof {
        assert(w0.drop_last() =~= seq![0x78u8]);
        assert(w0.drop_last().drop_last() =~= Seq::<u8>::empty());
        vstd::arithmetic::power2::lemma2_to64();
        let e = Seq::<u8>::empty();
        assert(crate::bytes::le_value(e) == 0);
        assert(crate::bytes::le_value(w0.drop_last()) == crate::bytes::le_value(e) + 0x78 * pow2(0));
        assert(crate::bytes::le_value(w0) == crate::bytes::le_value(w0.drop_last()) + 1 * pow2(8));
        assert(crate::bytes::le_value(w0) == 0x178);
        let p16 = pow2(16) as int;
        assert(0 * p16 == 0) by (nonlinear_arith);
        assert(w.stream() == 0x178);
    }
    w.write_bits(1, 1);
    let ghost w1 = w.out@;
    w.write_bits(1, 2);
    let ghost head = seq![0x78u8, 0x01];
    assert(w1.subrange(0, 2) == head);
    assert(w.out@.subrange(0, 2) =~= w1.subrange(0, 2));
    let ghost sh = w.stream();
    let ghost th = w.bit_len();
    assert(th == 19);
    assert(sh == 0x178 + pow2(16) + pow2(17));
    let ghost r0 = runs_code(data@, 0, None, 0);
    let mut pending: Option<u8> = None;
    let mut count: usize = 0;
    let mut i: usize = 0;
    while i < data.len()
        invariant
            i <= data@.len(),
            w.wf(),
            w.out@.len() >= 2,
            w.out@.subrange(0, 2) == head,
            pending is Some ==> 1 <= count <= 258,
            w.stream() + runs_code(data@, i as int, pending, count as int).0 * pow2(w.bit_len() as nat)
                == sh + r0.0 * pow2(th as nat),
            w.bit_len() + runs_code(data@, i as int, pending, count as int).1 == th + r0.1,
            w.bit_len() >= th,
        decreases data@.len() - i,
    {
        let byte = data[i];
        let ghost before = w.out@;
        let ghost t = w.bit_len();
        let ghost s0 = w.stream();
        match pending {
            Some(p) => {
                if p == byte {
                    count = count + 1;
                    if count == 259 {
                        proof {
                            lemma_repeat_len(p, 258);
                            lemma_append_pair(
                                s0,
                                t as nat,
                                run_code(pending, 259).0,
                                run_code(pending, 259).1 as nat,
                                runs_code(data@, i + 1, None, 0).0,
                            );
                        }
                        flush_run(&mut w, pending, count);
                        pending = None;
                        count = 0;
                    }
                } else {
                    proof {
                        lemma_repeat_len(p, count - 1);
                        lemma_append_pair(
                            s0,
                            t as nat,
                            run_code(pending, count as int).0,
                            run_code(pending, count as int).1 as nat,
                            runs_code(data@, i + 1, Some(byte), 1).0,
                        );
                    }
                    flush_run(&mut w, pending, count);
                    pending = Some(byte);
                    count = 1;
                }
            },
            None => {
                pending = Some(byte);
                count = 1;
            },
        }
        assert(w.out@.subrange(0, 2) =~= before.subrange(0, 2));
        i = i + 1;
    }
    let ghost before = w.out@;
    let ghost t = w.bit_len();
    let ghost s0 = w.stream();
    proof {
        if pending is Some {
            lemma_repeat_len(pending->0, count - 1);
        }
    }
    flush_run(&mut w, pending, count);
    let ghost rc = run_code(pending, count as int);
    let ghost s1 = w.stream();
    let ghost t1 = w.bit_len();
    fixed_symbol(&mut w, 256);
    proof {
        lemma_append_pair(sh, th as nat, r0.0, r0.1 as nat, symbol_code(256).0);
        assert(runs_code(data@, i as int, pending, count as int) == rc);
    }
    let ghost s2 = w.stream();
    let ghost t2 = w.bit_len();
    w.finish();
    assert(w.out@.subrange(0, 2) =~= before.subrange(0, 2));
    let mut out = w.out;
    let ghost body = out@;
    proof {
        let rb = join(r0, symbol_code(256));
        assert(s2 == sh + rb.0 * pow2(th as nat));
        assert(t2 == th + rb.1);
        vstd::arithmetic::power2::lemma_pow2_adds(16, 3);
        vstd::arithmetic::power2::lemma2_to64();
        let p16 = pow2(16) as int;
        assert(p16 * (3 + rb.0 * 8) == p16 + 2 * p16 + rb.0 * (p16 * 8)) by (nonlinear_arith);
        assert(stream_value(body, 0) == crate::bytes::le_value(body));
    }
    crate::bytes::push_be32(&mut out, crate::checksum::adler32(data));
    assert(out@.subrange(0, 2) =~= body.subrange(0, 2));
    assert(out@.subrange(0, out@.len() - 4) =~= body);
    assert(out@.subrange(out@.len() - 4, out@.len() as int) =~= crate::bytes::be32_bytes(
        crate::checksum::adler32_spec(data@),
    ));
    out
}

} // verus!
