//! Integer sample rates carried in IEEE 754 binary64 bit patterns, read and
//! written with integer arithmetic only.
use vstd::prelude::*;
use crate::extended::{log2_floor, two_pow, two_pow_u64};

verus! {

/// The value of the binary64 pattern `b` when it is a finite, positive whole
/// number no larger than `u32::MAX`.
pub open spec fn f64_rate(b: int) -> Option<int> {
    let sign = b / two_pow(63) as int;
    let exp = (b / two_pow(52) as int) % 2048;
    let mant = b % two_pow(52) as int;
    if exp == 2047 || sign != 0 || exp == 0 || exp >= 1075 || 1075 - exp > 52 {
        None
    } else {
        let sh = (1075 - exp) as nat;
        let sig = two_pow(52) + mant;
        if sig % two_pow(sh) as int != 0 {
            None
        } else if sig / two_pow(sh) as int > u32::MAX {
            None
        } else {
            Some(sig / two_pow(sh) as int)
        }
    }
}

/// The whole sample rate a binary64 pattern holds, if it holds one.
pub fn decode_f64_rate(bits: u64) -> (r: Option<u32>)
    ensures
        match f64_rate(bits as int) {
            Some(v) => r == Some(v as u32),
            None => r is None,
        },
        r matches Some(v) ==> v >= 1,
{
    proof {
        crate::extended::lemma_two_pow_values();
        crate::extended::lemma_two_pow_pos(52);
        crate::extended::lemma_two_pow_mono(52, 63);
    }
    let p52 = two_pow_u64(52);
    let p63 = two_pow_u64(63);
    let sign = bits / p63;
    let exp = (bits / p52) % 2048;
    let mant = bits % p52;
    if exp == 2047 || sign != 0 || exp == 0 || exp >= 1075 || 1075 - exp > 52 {
        return None;
    }
    let sh = (1075 - exp) as u32;
    let sig = p52 + mant;
    let d = two_pow_u64(sh);
    proof {
        crate::extended::lemma_two_pow_pos(sh as nat);
    }
    if sig % d != 0 {
        return None;
    }
    if sig / d > 0xffff_ffff {
        return None;
    }
    proof {
        crate::extended::lemma_two_pow_mono(sh as nat, 52);
        vstd::arithmetic::div_mod::lemma_div_is_ordered(d as int, sig as int, d as int);
        vstd::arithmetic::div_mod::lemma_div_by_self(d as int);
    }
    Some((sig / d) as u32)
}

/// The binary64 pattern of the whole number `rate`.
pub open spec fn f64_bits(rate: nat) -> int {
    if rate == 0 {
        0
    } else {
        let p = log2_floor(rate);
        (1023 + p) * two_pow(52) as int + (rate * two_pow((52 - p) as nat) as int - two_pow(52) as int)
    }
}

/// The binary64 pattern of `rate` (exact, as every `u32` is representable).
pub fn encode_f64_rate(rate: u32) -> (b: u64)
    ensures
        b as int == f64_bits(rate as nat),
{
    if rate == 0 {
        return 0;
    }
    let mut power: u32 = 0;
    let mut rest: u32 = rate;
    assert(two_pow(0) == 1);
    while rest >= 2
        invariant
            rest >= 1,
            power <= 31,
            power + log2_floor(rest as nat) == log2_floor(rate as nat),
            rest as nat * two_pow(power as nat) <= rate,
        decreases rest,
    {
        proof {
            crate::extended::lemma_two_pow_pos(power as nat);
            assert(two_pow((power + 1) as nat) == 2 * two_pow(power as nat));
            if power >= 31 {
                crate::extended::lemma_two_pow_mono(31, power as nat);
                crate::extended::lemma_two_pow_values();
                assert(false) by (nonlinear_arith)
                    requires
                        rest as nat * two_pow(power as nat) <= rate,
                        rest >= 2,
                        two_pow(power as nat) >= 0x8000_0000,
                        rate <= u32::MAX,
                ;
            }
            assert((rest / 2) as nat * two_pow((power + 1) as nat) <= rate) by (nonlinear_arith)
                requires
                    rest as nat * two_pow(power as nat) <= rate,
                    two_pow((power + 1) as nat) == 2 * two_pow(power as nat),
            ;
        }
        rest = rest / 2;
        power = power + 1;
    }
    proof {
        crate::extended::lemma_log2_floor(rate as nat);
        assert(log2_floor(rest as nat) == 0);
        crate::extended::lemma_two_pow_mono(power as nat, 31);
        crate::extended::lemma_two_pow_values();
        crate::extended::lemma_two_pow_add(power as nat, (52 - power) as nat);
        crate::extended::lemma_two_pow_mono(52, 63);
    }
    let p52 = two_pow_u64(52);
    let scale = two_pow_u64(52 - power);
    proof {
        crate::extended::lemma_two_pow_pos((52 - power) as nat);
        crate::extended::lemma_two_pow_add((power + 1) as nat, (52 - power) as nat);
        crate::extended::lemma_two_pow_is_pow2(52);
        crate::extended::lemma_two_pow_is_pow2(53);
        vstd::arithmetic::power2::lemma2_to64_rest();
        vstd::arithmetic::power2::lemma2_to64();
    }
    assert(p52 == 0x10_0000_0000_0000);
    let ghost tp = two_pow(power as nat) as int;
    let ghost tp1 = two_pow((power + 1) as nat) as int;
    assert(tp * (scale as int) == p52 as int);
    assert(tp1 * (scale as int) == 0x20_0000_0000_0000);
    assert((rate as int) * (scale as int) >= (p52 as int) && (rate as int) * (scale as int) < 0x20_0000_0000_0000) by (nonlinear_arith)
        requires
            tp <= rate as int,
            (rate as int) < tp1,
            tp * (scale as int) == p52 as int,
            tp1 * (scale as int) == 0x20_0000_0000_0000,
            scale >= 1,
    ;
    let exponent = (1023 + power) as u64;
    assert(exponent as int * p52 as int <= 1054 * 0x10_0000_0000_0000) by (nonlinear_arith)
        requires
            exponent <= 1054,
            p52 == 0x10_0000_0000_0000,
    ;
    exponent * p52 + (rate as u64 * scale - p52)
}

/// Writing a whole sample rate as a binary64 pattern and reading it back
/// gives the rate: `decode_f64_rate` undoes `encode_f64_rate` on every
/// non-zero `u32`.
pub proof fn lemma_f64_rate_roundtrip(rate: u32)
    requires
        rate != 0,
    ensures
        f64_rate(f64_bits(rate as nat)) == Some(rate as int),
{
    let p = log2_floor(rate as nat);
    crate::extended::lemma_log2_floor(rate as nat);
    crate::extended::lemma_two_pow_values();
    if p >= 32 {
        crate::extended::lemma_two_pow_mono(32, p);
    }
    assert(p <= 31);
    let sh = (52 - p) as nat;
    let p52 = two_pow(52) as int;
    crate::extended::lemma_two_pow_add(p, sh);
    crate::extended::lemma_two_pow_add(p + 1, sh);
    crate::extended::lemma_two_pow_add(11, 52);
    crate::extended::lemma_two_pow_pos(sh);
    crate::extended::lemma_two_pow_is_pow2(52);
    crate::extended::lemma_two_pow_is_pow2(53);
    vstd::arithmetic::power2::lemma2_to64();
    vstd::arithmetic::power2::lemma2_to64_rest();
    assert(p52 == 0x10_0000_0000_0000);
    assert(two_pow(p + 1) == 2 * two_pow(p));
    let sig = rate as int * two_pow(sh) as int;
    assert(p52 <= sig < 2 * p52) by (nonlinear_arith)
        requires
            two_pow(p) <= rate < two_pow(p + 1),
            two_pow(p) * two_pow(sh) == p52,
            two_pow(p + 1) == 2 * two_pow(p),
            sig == rate * two_pow(sh),
            two_pow(sh) >= 1,
    ;
    let mant = sig - p52;
    let exp = 1023 + p as int;
    let b = exp * p52 + mant;
    assert(b == f64_bits(rate as nat));
    assert(0 <= mant < p52);
    vstd::arithmetic::div_mod::lemma_fundamental_div_mod_converse(b, p52, exp, mant);
    assert(b / p52 == exp);
    assert(b % p52 == mant);
    assert(exp % 2048 == exp);
    assert(b < two_pow(63)) by (nonlinear_arith)
        requires
            b == exp * p52 + mant,
            exp <= 1054,
            mant < p52,
            p52 == 0x10_0000_0000_0000,
            two_pow(63) == 0x8000_0000_0000_0000,
    ;
    assert(b / (two_pow(63) as int) == 0);
    assert(1075 - exp == sh);
    crate::arith::lemma_mul_div(rate as int, two_pow(sh) as int);
    assert(p52 + mant == sig);
}

} // verus!
