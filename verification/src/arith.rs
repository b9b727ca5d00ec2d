//! Small facts about integer division used by the size computations.
use vstd::prelude::*;
use vstd::arithmetic::div_mod::{
    lemma_fundamental_div_mod, lemma_mod_multiples_basic, lemma_div_multiples_vanish,
    lemma_fundamental_div_mod_converse,
};
use vstd::arithmetic::mul::lemma_mul_is_associative;

verus! {

/// A multiple of `c * w` is a multiple of `w`.
pub proof fn lemma_multiple_of_factor(a: int, c: int, w: int)
    requires
        c > 0,
        w > 0,
        a >= 0,
        a % (c * w) == 0,
    ensures
        a % w == 0,
        (a / w) * w == a,
{
    assert(c * w > 0) by (nonlinear_arith)
        requires
            c > 0,
            w > 0,
    ;
    lemma_fundamental_div_mod(a, c * w);
    let k = a / (c * w);
    assert(a == (c * w) * k);
    lemma_mul_is_associative(k, c, w);
    assert(a == (k * c) * w) by (nonlinear_arith)
        requires
            a == (c * w) * k,
    ;
    lemma_mod_multiples_basic(k * c, w);
    lemma_div_multiples_vanish(k * c, w);
    assert(w * (k * c) == (k * c) * w) by (nonlinear_arith);
}

/// Dropping the remainder leaves a multiple.
pub proof fn lemma_sub_mod(a: int, d: int)
    requires
        d > 0,
        a >= 0,
    ensures
        (a - a % d) % d == 0,
        0 <= a - a % d <= a,
        (a - a % d) / d == a / d,
{
    lemma_fundamental_div_mod(a, d);
    let q = a / d;
    assert(a - a % d == d * q);
    assert(0 <= a % d < d);
    assert(q >= 0) by (nonlinear_arith)
        requires
            d * q >= 0,
            d > 0,
    ;
    assert(a - a % d == q * d + 0) by (nonlinear_arith)
        requires
            a - a % d == d * q,
    ;
    lemma_fundamental_div_mod_converse(a - a % d, d, q, 0);
}

/// `q * d` divided by `d` is `q`.
pub proof fn lemma_mul_div(q: int, d: int)
    requires
        d > 0,
    ensures
        (q * d) / d == q,
        (q * d) % d == 0,
{
    assert(q * d == q * d + 0);
    lemma_fundamental_div_mod_converse(q * d, d, q, 0);
}

} // verus!
