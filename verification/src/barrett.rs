//! Barrett reduction: division by the modulus is replaced by one
//! multiplication with a precomputed factor and a shift, followed by a
//! correction loop that is proved to run at most twice.

use vstd::prelude::*;
use vstd::arithmetic::div_mod::*;
use vstd::arithmetic::mul::*;
use vstd::arithmetic::power2::*;

verus! {

/// Barrett's correction bound: for any modulus `n > 1`, any exponent `k`
/// with `2^k > n`, the precomputed factor `m = 2^k / n`, and any value
/// `v` below `2·2^k`, the first estimate `v − ((v·m)/2^k)·n` lies in
/// `[0, 3n)`, so at most two subtractions of `n` reach the canonical
/// range `[0, n)`.
pub proof fn lemma_barrett_estimate_bound(v: int, n: int, k: nat, m: int)
    requires
        1 < n,
        n < pow2(k),
        m == pow2(k) as int / n,
        0 <= v < 2 * pow2(k),
    ensures
        0 <= v - ((v * m) / pow2(k) as int) * n,
        v - ((v * m) / pow2(k) as int) * n < 3 * n,
{
    let p = pow2(k) as int;
    let s = p % n;
    lemma_fundamental_div_mod(p, n);
    lemma_mod_bound(p, n);
    let q = (v * m) / p;
    let rem = (v * m) % p;
    lemma_pow2_pos(k);
    lemma_mul_nonnegative(v, m);
    lemma_fundamental_div_mod(v * m, p);
    lemma_mod_bound(v * m, p);
    lemma_div_pos_is_pos(v * m, p);
    assert((v - q * n) * p == rem * n + v * s) by (nonlinear_arith)
        requires
            v * m == q * p + rem,
            p == m * n + s,
    ;
    assert(rem * n + v * s >= 0) by (nonlinear_arith)
        requires
            rem >= 0,
            n > 1,
            v >= 0,
            s >= 0,
    ;
    assert(v - q * n >= 0) by (nonlinear_arith)
        requires
            (v - q * n) * p == rem * n + v * s,
            rem * n + v * s >= 0,
            p > 0,
    ;
    assert(rem * n + v * s < 3 * n * p) by (nonlinear_arith)
        requires
            0 <= rem < p,
            0 <= s < n,
            0 <= v < 2 * p,
            n > 1,
            p > 0,
    ;
    assert(v - q * n < 3 * n) by (nonlinear_arith)
        requires
            (v - q * n) * p == rem * n + v * s,
            rem * n + v * s < 3 * n * p,
            p > 0,
    ;
}

/// Reduces `value` modulo `modulus` with the precomputed Barrett factor
/// `multiplier = 2^64 / modulus`: an estimated quotient from a
/// multiply-and-shift, then at most two corrective subtractions.
pub fn barrett_reduce(modulus: u64, multiplier: u64, value: u128) -> (r: u64)
    requires
        1 < modulus,
        modulus < 0x1_0000_0000,
        multiplier == pow2(64) / (modulus as nat),
        value < 2 * pow2(64),
    ensures
        r == (value as nat) % (modulus as nat),
{
    proof {
        lemma2_to64();
        assert(multiplier <= 0x8000_0000_0000_0000) by {
            lemma_div_is_ordered_by_denominator(pow2(64) as int, 2, modulus as int);
            assert(0x1_0000_0000_0000_0000int / 2 == 0x8000_0000_0000_0000);
        }
        assert(value * multiplier <= u128::MAX) by (nonlinear_arith)
            requires
                value < 0x2_0000_0000_0000_0000,
                multiplier <= 0x8000_0000_0000_0000,
        ;
        lemma_barrett_estimate_bound(value as int, modulus as int, 64, multiplier as int);
    }
    let q: u128 = (value * (multiplier as u128)) / 0x1_0000_0000_0000_0000u128;
    let est: u128 = value - q * (modulus as u128);
    proof {
        lemma_mul_is_commutative(q as int, modulus as int);
        lemma_mod_multiples_vanish(-(q as int), value as int, modulus as int);
        assert(modulus as int * -(q as int) + value == value - q * modulus) by (nonlinear_arith);
    }
    let ghost mut steps: int = 0;
    let mut r: u128 = est;
    while r >= modulus as u128
        invariant
            (r as int) % (modulus as int) == (value as int) % (modulus as int),
            r < (3 - steps) * modulus,
            0 <= steps <= 2,
        decreases r,
    {
        proof {
            lemma_mod_sub_multiples_vanish(r as int, modulus as int);
            assert(r - modulus < (3 - (steps + 1)) * modulus) by (nonlinear_arith)
                requires
                    r < (3 - steps) * modulus,
            ;
            assert(steps + 1 <= 2) by (nonlinear_arith)
                requires
                    r >= modulus,
                    modulus > 1,
                    r < (3 - steps) * modulus,
            ;
            steps = steps + 1;
        }
        r = r - modulus as u128;
    }
    proof {
        lemma_mod_bound(value as int, modulus as int);
        lemma_small_mod(r as nat, modulus as nat);
    }
    r as u64
}

} // verus!
