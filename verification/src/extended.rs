//! Integer sample rates held in the 80-bit IEEE extended format of AIFF.
use vstd::prelude::*;
use crate::bytes::{be16, be32, be64, be16_bytes, be64_bytes, push_be16, push_be64, read_be16, read_be64};

verus! {

/// `2^n`.
pub open spec fn two_pow(n: nat) -> nat
    decreases n,
{
    if n == 0 {
        1
    } else {
        2 * two_pow((n - 1) as nat)
    }
}

pub proof fn lemma_two_pow_add(a: nat, b: nat)
    ensures
        two_pow(a) * two_pow(b) == two_pow(a + b),
    decreases a,
{
    if a > 0 {
        lemma_two_pow_add((a - 1) as nat, b);
        assert(two_pow(a) * two_pow(b) == 2 * (two_pow((a - 1) as nat) * two_pow(b)))
            by (nonlinear_arith)
            requires
                two_pow(a) == 2 * two_pow((a - 1) as nat),
        ;
        assert(two_pow(a + b) == 2 * two_pow((a + b - 1) as nat));
        assert(((a - 1) as nat + b) as nat == (a + b - 1) as nat);
    } else {
        assert(two_pow(a) == 1);
        assert(two_pow(a) * two_pow(b) == two_pow(b)) by (nonlinear_arith)
            requires
                two_pow(a) == 1,
        ;
        assert(a + b == b);
    }
}

pub proof fn lemma_two_pow_pos(a: nat)
    ensures
        two_pow(a) >= 1,
    decreases a,
{
    if a > 0 {
        lemma_two_pow_pos((a - 1) as nat);
    }
}

pub proof fn lemma_two_pow_mono(a: nat, b: nat)
    requires
        a <= b,
    ensures
        two_pow(a) <= two_pow(b),
    decreases b,
{
    if a < b {
        lemma_two_pow_mono(a, (b - 1) as nat);
        lemma_two_pow_pos((b - 1) as nat);
    }
}

pub proof fn lemma_two_pow_is_pow2(n: nat)
    ensures
        two_pow(n) == vstd::arithmetic::power2::pow2(n),
    decreases n,
{
    if n == 0 {
        vstd::arithmetic::power2::lemma2_to64();
    } else {
        lemma_two_pow_is_pow2((n - 1) as nat);
        vstd::arithmetic::power2::lemma_pow2_unfold(n);
    }
}

pub proof fn lemma_two_pow_values()
    ensures
        two_pow(0) == 1,
        two_pow(1) == 2,
        two_pow(15) == 0x8000,
        two_pow(31) == 0x8000_0000,
        two_pow(32) == 0x1_0000_0000,
        two_pow(63) == 0x8000_0000_0000_0000,
        two_pow(64) == 0x1_0000_0000_0000_0000,
{
    vstd::arithmetic::power2::lemma2_to64();
    vstd::arithmetic::power2::lemma2_to64_rest();
    lemma_two_pow_is_pow2(0);
    lemma_two_pow_is_pow2(1);
    lemma_two_pow_is_pow2(15);
    lemma_two_pow_is_pow2(31);
    lemma_two_pow_is_pow2(32);
    lemma_two_pow_is_pow2(63);
    lemma_two_pow_is_pow2(64);
}

/// `2^n` for `n < 64`.
pub fn two_pow_u64(n: u32) -> (p: u64)
    requires
        n < 64,
    ensures
        p == two_pow(n as nat),
{
    let mut p: u64 = 1;
    let mut k: u32 = 0;
    while k < n
        invariant
            k <= n < 64,
            p == two_pow(k as nat),
        decreases n - k,
    {
        proof {
            lemma_two_pow_mono((k + 1) as nat, 63);
            lemma_two_pow_values();
        }
        p = p * 2;
        k = k + 1;
    }
    p
}

/// The integer value of the extended number with sign/exponent field `raw`
/// and 64-bit mantissa `m`, when it is a non-zero 32-bit unsigned integer.
/// A positive binary exponent shifts the mantissa left within 64 bits.
pub open spec fn ext_decode(raw: int, m: int) -> Option<int> {
    let shift = raw - 16383 - 63;
    let value = if shift >= 0 {
        (m * two_pow(shift as nat)) % 0x1_0000_0000_0000_0000
    } else {
        m / (two_pow((-shift) as nat) as int)
    };
    if raw >= 0x8000 || raw == 0 || raw == 0x7fff || m < 0x8000_0000_0000_0000 {
        None
    } else if shift >= 64 || -shift >= 64 {
        None
    } else if shift < 0 && m % (two_pow((-shift) as nat) as int) != 0 {
        None
    } else if 1 <= value <= u32::MAX {
        Some(value)
    } else {
        None
    }
}

/// Why an extended sample rate is refused.
#[derive(Debug, Clone, Copy, PartialEq, Eq)]
pub enum RateError {
    /// Fewer than ten bytes hold the value.
    NotExtended,
    /// The sign bit is set.
    Negative,
    /// The value is zero, denormal, infinite or NaN.
    NonFinite,
    /// The explicit integer bit of the mantissa is clear.
    NoIntegerBit,
    /// The value is fractional, too large, too small or outside `1..=u32::MAX`.
    OutOfRange,
}

/// Decodes the ten-byte extended value at `bytes[at..at + 10]`.
pub fn decode_rate(bytes: &[u8], at: usize) -> (r: Result<u32, RateError>)
    ensures
        r is Ok <==> at + 10 <= bytes.len() && ext_decode(be16(bytes@, at as int), be64(bytes@, at + 2)) is Some,
        r matches Err(e) ==> (e is NotExtended <==> at + 10 > bytes.len()),
        r matches Ok(v) ==> v == ext_decode(be16(bytes@, at as int), be64(bytes@, at + 2))->0,
        r matches Err(e) ==> (e is NoIntegerBit ==> be64(bytes@, at + 2)
            < 0x8000_0000_0000_0000),
{
    if at > bytes.len() || bytes.len() - at < 10 {
        return Err(RateError::NotExtended);
    }
    let raw = read_be16(bytes, at);
    if raw >= 0x8000 {
        return Err(RateError::Negative);
    }
    if raw == 0 || raw == 0x7fff {
        return Err(RateError::NonFinite);
    }
    let m = read_be64(bytes, at + 2);
    if m < 0x8000_0000_0000_0000 {
        return Err(RateError::NoIntegerBit);
    }
    let value: u64 = if raw >= 16383 + 63 {
        let shift = (raw - 16383 - 63) as u32;
        if shift >= 64 {
            return Err(RateError::OutOfRange);
        }
        let p = two_pow_u64(shift);
        proof {
            lemma_two_pow_mono(shift as nat, 63);
            lemma_two_pow_values();
            assert((m as int) * (p as int) < 0x1_0000_0000_0000_0000 * 0x8000_0000_0000_0001)
                by (nonlinear_arith)
                requires
                    m < 0x1_0000_0000_0000_0000,
                    p <= 0x8000_0000_0000_0000,
            ;
        }
        ((m as u128 * p as u128) % 0x1_0000_0000_0000_0000u128) as u64
    } else {
        let right = (16383 + 63 - raw) as u32;
        if right >= 64 {
            return Err(RateError::OutOfRange);
        }
        let p = two_pow_u64(right);
        proof {
            lemma_two_pow_pos(right as nat);
        }
        if m % p != 0 {
            return Err(RateError::OutOfRange);
        }
        m / p
    };
    if value == 0 || value > 0xffff_ffff {
        return Err(RateError::OutOfRange);
    }
    Ok(value as u32)
}

/// The exponent `p` with `2^p <= rate < 2^(p + 1)`.
pub open spec fn log2_floor(rate: nat) -> nat
    decreases rate,
{
    if rate < 2 {
        0
    } else {
        1 + log2_floor(rate / 2)
    }
}

pub proof fn lemma_log2_floor(rate: nat)
    requires
        rate >= 1,
    ensures
        two_pow(log2_floor(rate)) <= rate < two_pow(log2_floor(rate) + 1),
    decreases rate,
{
    let p = log2_floor(rate);
    if rate >= 2 {
        lemma_log2_floor(rate / 2);
        let q = log2_floor(rate / 2);
        assert(p == q + 1);
        assert(two_pow(q + 1) == 2 * two_pow(q));
        assert(two_pow(q + 2) == 2 * two_pow(q + 1));
        assert(2 * (rate / 2) <= rate <= 2 * (rate / 2) + 1);
    } else {
        assert(p == 0);
        assert(two_pow(1) == 2 * two_pow(0));
    }
}

/// The ten-byte extended representation of a non-zero integer `rate`.
pub open spec fn ext_encode(rate: nat) -> Seq<u8> {
    let p = log2_floor(rate);
    be16_bytes(16383 + p as int) + be64_bytes((rate * two_pow((63 - p) as nat)) as int)
}

/// Appends the extended representation of `rate`.
pub fn push_rate(out: &mut Vec<u8>, rate: u32)
    requires
        rate != 0,
    ensures
        final(out)@ == old(out)@ + ext_encode(rate as nat),
{
    let mut power: u32 = 0;
    let mut rest: u32 = rate;
    assert(two_pow(0) == 1);
    assert(rest as int <= (u32::MAX as int) / 1);
    while rest >= 2
        invariant
            rate >= 1,
            rest >= 1,
            power <= 31,
            power + log2_floor(rest as nat) == log2_floor(rate as nat),
            rest as nat * two_pow(power as nat) <= rate,
            rest as int <= (u32::MAX as int) / (two_pow(power as nat) as int),
        decreases rest,
    {
        proof {
            lemma_two_pow_pos(power as nat);
            assert(two_pow((power + 1) as nat) == 2 * two_pow(power as nat));
            assert(rest as nat * two_pow(power as nat) >= 2 * two_pow(power as nat))
                by (nonlinear_arith)
                requires
                    rest >= 2,
                    two_pow(power as nat) >= 1,
            ;
            assert(two_pow(power as nat) <= 0x8000_0000) by (nonlinear_arith)
                requires
                    rest as nat * two_pow(power as nat) <= rate,
                    rest >= 2,
                    rate <= u32::MAX,
            ;
            if power >= 31 {
                lemma_two_pow_mono(31, power as nat);
                lemma_two_pow_values();
                assert(false) by (nonlinear_arith)
                    requires
                        rest as nat * two_pow(power as nat) <= rate,
                        rest >= 2,
                        two_pow(power as nat) >= 0x8000_0000,
                        rate <= u32::MAX,
                ;
            }
            assert((rest / 2) as nat * two_pow((power + 1) as nat) <= rate) by (nonlinear_arith)
                requires
                    rest as nat * two_pow(power as nat) <= rate,
                    two_pow((power + 1) as nat) == 2 * two_pow(power as nat),
            ;
            assert((rest / 2) as int <= (u32::MAX as int) / (two_pow((power + 1) as nat) as int)) by {
                lemma_two_pow_pos((power + 1) as nat);
                assert((rest / 2) as nat * two_pow((power + 1) as nat) <= u32::MAX);
                vstd::arithmetic::div_mod::lemma_div_is_ordered(
                    (rest / 2) as int * two_pow((power + 1) as nat) as int,
                    u32::MAX as int,
                    two_pow((power + 1) as nat) as int,
                );
                crate::arith::lemma_mul_div((rest / 2) as int, two_pow((power + 1) as nat) as int);
            }
        }
        rest = rest / 2;
        power = power + 1;
    }
    proof {
        lemma_log2_floor(rate as nat);
        assert(log2_floor(rest as nat) == 0);
        lemma_two_pow_mono(power as nat, 31);
    }
    let exponent = (16383 + power) as u16;
    let scale = two_pow_u64(63 - power);
    proof {
        lemma_two_pow_add(power as nat, (63 - power) as nat);
        lemma_two_pow_mono((power + 1) as nat, 32);
        lemma_two_pow_values();
        lemma_two_pow_add((power + 1) as nat, (63 - power) as nat);
        assert((rate as int) * (scale as int) < 0x1_0000_0000_0000_0000) by (nonlinear_arith)
            requires
                rate < two_pow((power + 1) as nat),
                two_pow((power + 1) as nat) * two_pow((63 - power) as nat) == two_pow(64),
                scale == two_pow((63 - power) as nat),
                two_pow(64) == 0x1_0000_0000_0000_0000,
        ;
    }
    push_be16(out, exponent);
    push_be64(out, rate as u64 * scale);
}

#[verifier::rlimit(50)]
proof fn lemma_fields_roundtrip(e: int, m: int)
    requires
        0 <= e < 0x10000,
        0 <= m < 0x1_0000_0000_0000_0000,
    ensures
        be16(be16_bytes(e) + be64_bytes(m), 0) == e,
        be64(be16_bytes(e) + be64_bytes(m), 2) == m,
{
    let s = be16_bytes(e) + be64_bytes(m);
    let hi = m / 4294967296;
    let lo = m % 4294967296;
    assert(s[2] == (hi / 16777216 % 256) as u8);
    assert(s[6] == (lo / 16777216 % 256) as u8);
    assert(be64(s, 2) == 4294967296 * be32(s, 2) + be32(s, 6));
    assert(be32(s, 2) == hi);
    assert(be32(s, 6) == lo);
}

/// Decoding the extended representation of a non-zero 32-bit rate gives
/// the rate back.
pub proof fn lemma_rate_roundtrip(rate: u32)
    requires
        rate != 0,
    ensures
        ext_decode(be16(ext_encode(rate as nat), 0), be64(ext_encode(rate as nat), 2))
            == Some(rate as int),
{
    let p = log2_floor(rate as nat);
    lemma_log2_floor(rate as nat);
    lemma_two_pow_values();
    if p >= 32 {
        lemma_two_pow_mono(32, p);
    }
    assert(p <= 31);
    let right = (63 - p) as nat;
    let m = rate as int * two_pow(right);
    lemma_two_pow_add(p, right);
    lemma_two_pow_add(p + 1, right);
    lemma_two_pow_pos(right);
    assert(0x8000_0000_0000_0000 <= m < 0x1_0000_0000_0000_0000) by (nonlinear_arith)
        requires
            two_pow(p) <= rate < two_pow(p + 1),
            two_pow(p) * two_pow(right) == 0x8000_0000_0000_0000,
            two_pow(p + 1) * two_pow(right) == 0x1_0000_0000_0000_0000,
            m == rate * two_pow(right),
            two_pow(right) >= 1,
    ;
    crate::arith::lemma_mul_div(rate as int, two_pow(right) as int);
    lemma_fields_roundtrip(16383 + p as int, m);
    assert(ext_encode(rate as nat) == be16_bytes(16383 + p as int) + be64_bytes(m));
    let shift = 16383 + p - 16383 - 63;
    assert(-shift == right);
}

} // verus!
