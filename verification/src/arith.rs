use vstd::prelude::*;
use vstd::arithmetic::power2::{pow2, lemma_pow2_pos, lemma_pow2_adds};
use vstd::arithmetic::div_mod::{
    lemma_hoist_over_denominator, lemma_mod_multiples_vanish, lemma_div_denominator,
    lemma_fundamental_div_mod,
};
use vstd::arithmetic::mul::{lemma_mul_is_commutative, lemma_mul_is_associative, lemma_mul_inequality};

verus! {

/// Adding a multiple of the divisor adds the multiplier to the quotient.
pub proof fn lemma_div_add_multiple(a: nat, k: nat, d: nat)
    requires
        d > 0,
    ensures
        (a + k * d) / d == a / d + k,
{
    lemma_hoist_over_denominator(a as int, k as int, d);
}

/// Adding a multiple of the modulus leaves the remainder unchanged.
pub proof fn lemma_mod_add_multiple(a: nat, k: nat, d: nat)
    requires
        d > 0,
    ensures
        (a + d * k) % d == a % d,
{
    lemma_mod_multiples_vanish(k as int, a as int, d as int);
}

/// `2^(e1 + e2) = 2^e1 * 2^e2`, stated for a split point inside `e`.
pub proof fn lemma_pow2_split(e: nat, f: nat)
    requires
        f <= e,
    ensures
        pow2(e) == pow2(f) * pow2((e - f) as nat),
{
    lemma_pow2_adds(f, (e - f) as nat);
}

/// A value below `2^e`, shifted right by `f <= e` bits, is below `2^(e - f)`.
pub proof fn lemma_div_pow2_bound(x: nat, e: nat, f: nat)
    requires
        f <= e,
        x < pow2(e),
    ensures
        x / pow2(f) < pow2((e - f) as nat),
{
    lemma_pow2_pos(f);
    lemma_pow2_pos((e - f) as nat);
    lemma_pow2_split(e, f);
    let q = pow2((e - f) as nat);
    let d = pow2(f);
    // x < d * q  ==>  x / d < q
    lemma_fundamental_div_mod(x as int, d as int);
    if x / d >= q {
        lemma_mul_inequality(q as int, (x / d) as int, d as int);
        lemma_mul_is_commutative(q as int, d as int);
        assert(false);
    }
}

/// Dividing by `2^a` and then by `2^b` is dividing by `2^(a + b)`.
pub proof fn lemma_div_pow2_twice(x: nat, a: nat, b: nat)
    ensures
        x / pow2(a) / pow2(b) == x / pow2(a + b),
{
    lemma_pow2_pos(a);
    lemma_pow2_pos(b);
    lemma_div_denominator(x as int, pow2(a) as int, pow2(b) as int);
    lemma_pow2_adds(a, b);
}

/// The low `w` bits of `x >> e1` do not see anything added at or above bit `e2 >= e1 + w`.
pub proof fn lemma_window_ignores_high(x: nat, t: nat, e1: nat, e2: nat, w: nat)
    requires
        e1 + w <= e2,
    ensures
        ((x + pow2(e2) * t) / pow2(e1)) % pow2(w) == (x / pow2(e1)) % pow2(w),
{
    lemma_pow2_pos(e1);
    lemma_pow2_pos(w);
    let g = (e2 - e1) as nat;
    lemma_pow2_split(e2, e1);
    lemma_pow2_split(g, w);
    let k = pow2(g) * t;
    assert(pow2(e2) * t == k * pow2(e1)) by {
        lemma_mul_is_associative(pow2(e1) as int, pow2(g) as int, t as int);
        lemma_mul_is_commutative(pow2(e1) as int, k as int);
    }
    lemma_div_add_multiple(x, k, pow2(e1));
    let r = pow2((g - w) as nat) * t;
    assert(k == pow2(w) * r) by {
        lemma_mul_is_associative(pow2(w) as int, pow2((g - w) as nat) as int, t as int);
    }
    lemma_mod_add_multiple(x / pow2(e1), r, pow2(w));
}


/// Something added at bit `e`, seen from bit `f <= e`, lands at bit `e - f`.
pub proof fn lemma_div_add_shifted(x: nat, m: nat, e: nat, f: nat)
    requires
        f <= e,
    ensures
        (x + m * pow2(e)) / pow2(f) == x / pow2(f) + m * pow2((e - f) as nat),
{
    let g = (e - f) as nat;
    lemma_pow2_split(e, f);
    lemma_pow2_pos(f);
    assert(m * pow2(e) == (m * pow2(g)) * pow2(f)) by {
        lemma_mul_is_associative(m as int, pow2(g) as int, pow2(f) as int);
        lemma_mul_is_commutative(pow2(f) as int, pow2(g) as int);
    }
    lemma_div_add_multiple(x, m * pow2(g), pow2(f));
}

} // verus!
