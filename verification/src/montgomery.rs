//! Montgomery reduction: values are carried in the transformed domain
//! `[x] = x·R mod N` with `R = 2^32`, where reduction needs only
//! multiplications, masks and shifts. The precomputed constants are the
//! negated modular inverse `N′ = −N⁻¹ mod R`, the inverse `R⁻¹ mod N`,
//! and `R² mod N` for entering the domain.

use vstd::prelude::*;
use vstd::arithmetic::div_mod::*;
use vstd::arithmetic::mul::*;
use vstd::arithmetic::power2::*;

verus! {

/// The Montgomery radix `R = 2^32`: a power of two above every modulus the
/// strategy accepts, coprime to every odd modulus.
pub const MONTGOMERY_R: u64 = 0x1_0000_0000;

/// A value below `n` with a given residue of `a·R mod n` is pinned down:
/// multiplying the residue equation by `R⁻¹ mod n` recovers it.
pub proof fn lemma_montgomery_represents(n: int, r_inv: int, a: int, v: int)
    requires
        1 < n,
        0 <= a < n,
        (r_inv * 0x1_0000_0000) % n == 1,
        0 <= v,
        (a * 0x1_0000_0000) % n == v % n,
    ensures
        a == (v * r_inv) % n,
{
    let r = 0x1_0000_0000int;
    assert((v * r_inv) % n == ((v % n) * r_inv) % n) by {
        lemma_mul_mod_noop_left(v, r_inv, n);
    }
    assert((((a * r) % n) * r_inv) % n == ((a * r) * r_inv) % n) by {
        lemma_mul_mod_noop_left(a * r, r_inv, n);
    }
    assert((a * r) * r_inv == a * (r_inv * r)) by (nonlinear_arith);
    assert((a * (r_inv * r)) % n == (a * ((r_inv * r) % n)) % n) by {
        lemma_mul_mod_noop_right(a, r_inv * r, n);
    }
    lemma_small_mod(a as nat, n as nat);
}

/// Computes `N′ = −N⁻¹ mod R` for an odd modulus, lifting the inverse one
/// bit at a time: after bit `i`, `N·inv ≡ 1 (mod 2^(i+1))`.
pub fn compute_n_prime(modulus: u64) -> (np: u64)
    requires
        modulus % 2 == 1,
        1 < modulus,
        modulus < 0x1_0000_0000,
    ensures
        np < 0x1_0000_0000,
        (np * modulus) % 0x1_0000_0000 == 0xFFFF_FFFF,
{
    let mut inv: u64 = 1;
    let mut bit: u64 = 2;
    let mut i: usize = 1;
    proof {
        lemma2_to64();
    }
    while i < 32
        invariant
            1 <= i <= 32,
            bit == pow2(i as nat),
            inv < pow2(i as nat),
            (modulus * inv) % (pow2(i as nat) as int) == 1,
        decreases 32 - i,
    {
        proof {
            lemma_pow2_strictly_increases(i as nat, 32);
            lemma_pow2_adds(i as nat, 1);
            lemma_mul_nonnegative(modulus as int, inv as int);
            lemma_mod_breakdown(modulus as int * inv as int, pow2(i as nat) as int, 2);
            lemma_mod_bound((modulus as int * inv as int) / pow2(i as nat) as int, 2);
            assert(modulus * inv <= u64::MAX) by (nonlinear_arith)
                requires
                    modulus < 0x1_0000_0000,
                    inv < 0x1_0000_0000,
            ;
        }
        let t: u64 = (modulus * inv) % (2 * bit);
        proof {
            let pi = pow2(i as nat) as int;
            let pp = modulus as int * inv as int;
            lemma_mul_basics(pi);
            assert(pi * 2 == 2 * bit);
            assert(t == pi * ((pp / pi) % 2) + 1);
            if t != 1 {
                // flipping bit i multiplies in modulus·2^i, which is 2^i mod 2^(i+1)
                assert(t == pi + 1);
                lemma_truncate_middle(modulus as int, pi, 2);
                assert(pi * modulus == modulus * pi) by (nonlinear_arith);
                assert((modulus as int * (inv as int + pi)) == pp + modulus as int * pi)
                    by (nonlinear_arith)
                    requires
                        pp == modulus as int * inv as int,
                ;
                lemma_add_mod_noop(pp, modulus as int * pi, 2 * pi);
                assert((modulus as int * pi) % (pi * 2) == pi * (modulus as int % 2));
                assert((pp % (2 * pi) + (modulus as int * pi) % (2 * pi)) == pi + 1 + pi);
                assert((pi + 1 + pi) % (2 * pi) == 1) by {
                    lemma_mod_multiples_vanish(1, 1, 2 * pi);
                    lemma_small_mod(1nat, (2 * pi) as nat);
                }
            } else {
                lemma_small_mod(1nat, (2 * pi) as nat);
            }
        }
        if t != 1 {
            inv = inv + bit;
        }
        bit = bit * 2;
        i = i + 1;
    }
    proof {
        lemma2_to64();
        if inv == 0 {
            assert(modulus as int * inv as int == 0) by (nonlinear_arith)
                requires
                    inv == 0,
            ;
            lemma_pow2_pos(32);
            lemma_small_mod(0nat, pow2(32));
            assert(false);
        }
    }
    let np: u64 = MONTGOMERY_R - inv;
    proof {
        let r = 0x1_0000_0000int;
        let a = (modulus as int * inv as int) / r;
        lemma_mul_nonnegative(modulus as int, inv as int);
        lemma_fundamental_div_mod(modulus as int * inv as int, r);
        assert(np as int * modulus as int == r * modulus as int - modulus as int * inv as int)
            by (nonlinear_arith)
            requires
                np == r - inv,
        ;
        // np·N == r·(modulus − a) − 1, so its residue mod r is that of −1
        assert(np as int * modulus as int == r * (modulus as int - a) + (-1)) by (nonlinear_arith)
            requires
                modulus as int * inv as int == r * a + 1,
                np as int * modulus as int == r * modulus as int - modulus as int * inv as int,
        ;
        lemma_mod_multiples_vanish(modulus as int - a, -1, r);
        assert((-1int) % r == r - 1);
    }
    np
}

/// One Montgomery reduction step: for `value < N·R` returns the unique
/// `t < N` with `t·R ≡ value (mod N)`.
pub fn redc(modulus: u64, n_prime: u64, value: u64) -> (t: u64)
    requires
        1 < modulus,
        modulus < 0x1_0000_0000,
        n_prime < 0x1_0000_0000,
        (n_prime * modulus) % 0x1_0000_0000 == 0xFFFF_FFFF,
        value < modulus * 0x1_0000_0000,
    ensures
        t < modulus,
        (t * 0x1_0000_0000) % (modulus as int) == value as int % (modulus as int),
{
    let v_lo: u64 = value % MONTGOMERY_R;
    proof {
        assert(v_lo * n_prime <= u64::MAX) by (nonlinear_arith)
            requires
                v_lo < 0x1_0000_0000,
                n_prime < 0x1_0000_0000,
        ;
    }
    let m: u64 = (v_lo * n_prime) % MONTGOMERY_R;
    proof {
        assert((m as int) * (modulus as int) < 0x1_0000_0000_0000_0000int) by (nonlinear_arith)
            requires
                m < 0x1_0000_0000,
                modulus < 0x1_0000_0000,
        ;
    }
    let t_wide: u128 = value as u128 + (m as u128) * (modulus as u128);
    proof {
        let r = 0x1_0000_0000int;
        let nn = modulus as int;
        // m·N ≡ v_lo·(R−1) ≡ −v_lo (mod R)
        assert((m * nn) % r == ((v_lo * n_prime) % r * nn) % r);
        lemma_mul_mod_noop_left(v_lo as int * n_prime as int, nn, r);
        assert((v_lo as int * n_prime as int) * nn == v_lo as int * (n_prime as int * nn))
            by (nonlinear_arith);
        lemma_mul_mod_noop_right(v_lo as int, n_prime as int * nn, r);
        assert((m * nn) % r == (v_lo as int * (r - 1)) % r);
        assert(v_lo as int * (r - 1) == r * v_lo as int + (-(v_lo as int))) by (nonlinear_arith);
        lemma_mod_multiples_vanish(v_lo as int, -(v_lo as int), r);
        // t_wide ≡ v_lo − v_lo ≡ 0 (mod R)
        lemma_add_mod_noop_right(value as int, (m * nn) as int, r);
        assert((value + m * nn) % r == (value as int + (-(v_lo as int)) % r) % r) by {
            assert((m as int * nn) % r == (-(v_lo as int)) % r);
        }
        lemma_add_mod_noop_right(value as int, -(v_lo as int), r);
        assert((value as int + (-(v_lo as int))) % r == 0) by {
            lemma_mod_multiples_vanish(value as int / r, 0, r);
            lemma_fundamental_div_mod(value as int, r);
        }
        assert(t_wide % (r as u128) == 0);
        // bound: t_wide < 2·N·R
        assert(m as int * nn < r * nn) by (nonlinear_arith)
            requires
                m < r,
                nn > 1,
        ;
        assert(nn * r == r * nn) by (nonlinear_arith);
        assert(t_wide < 2 * (nn * r));
    }
    let t0: u64 = (t_wide / (MONTGOMERY_R as u128)) as u64;
    proof {
        let r = 0x1_0000_0000int;
        let nn = modulus as int;
        lemma_fundamental_div_mod(t_wide as int, r);
        assert(t_wide == r * (t0 as int));
        assert(t0 < 2 * nn) by (nonlinear_arith)
            requires
                r * t0 < 2 * (nn * r),
                r > 0,
        ;
        // t0·R == value + m·N ≡ value (mod N)
        lemma_mul_is_commutative(t0 as int, r);
        lemma_mul_is_commutative(m as int, nn);
        lemma_mod_multiples_vanish(m as int, value as int, nn);
    }
    if t0 >= modulus {
        proof {
            let r = 0x1_0000_0000int;
            let nn = modulus as int;
            assert((t0 - nn) * r == t0 as int * r + nn * (-r)) by (nonlinear_arith);
            lemma_mod_multiples_vanish(-r, t0 as int * r, nn);
        }
        t0 - modulus
    } else {
        t0
    }
}

/// Multiplying by `R² mod N` and then by `R⁻¹ mod N` amounts, modulo `N`,
/// to multiplying by `R` itself.
pub proof fn lemma_montgomery_r2_r_inv(n: int, r_inv: int, r2: int, x: int)
    requires
        1 < n,
        (r_inv * 0x1_0000_0000) % n == 1,
        r2 == 0x1_0000_0000_0000_0000int % n,
        0 <= x,
    ensures
        ((x * r2) * r_inv) % n == (x * 0x1_0000_0000) % n,
{
    let r = 0x1_0000_0000int;
    assert((x * r2) * r_inv == x * (r2 * r_inv)) by (nonlinear_arith);
    lemma_mul_mod_noop_right(x, r2 * r_inv, n);
    assert((r2 * r_inv) % n == ((r * r) % n * r_inv) % n);
    lemma_mul_mod_noop_left(r * r, r_inv, n);
    assert((r * r) * r_inv == r * (r_inv * r)) by (nonlinear_arith);
    lemma_mul_mod_noop_right(r, r_inv * r, n);
    assert((r2 * r_inv) % n == (r * 1) % n);
    lemma_mul_mod_noop_right(x, r, n);
    assert((x * ((r % n))) % n == (x * r) % n) by {
        lemma_mul_mod_noop_right(x, r, n);
    }
}

/// Reduces any double-word value modulo an odd modulus through Montgomery
/// steps alone: the value is split at the radix, each half carried through
/// `redc`, and the halves recombined. `r_inv` is a ghost witness that the
/// steps invert cleanly.
pub fn montgomery_reduce(
    modulus: u64,
    n_prime: u64,
    r_squared: u64,
    r_inv: Ghost<u64>,
    value: u128,
) -> (r: u64)
    requires
        1 < modulus,
        modulus < 0x1_0000_0000,
        n_prime < 0x1_0000_0000,
        (n_prime * modulus) % 0x1_0000_0000 == 0xFFFF_FFFF,
        r_squared == pow2(64) % (modulus as nat),
        (r_inv@ * 0x1_0000_0000) % (modulus as int) == 1,
        value < pow2(64),
    ensures
        r == (value as nat) % (modulus as nat),
{
    proof {
        lemma2_to64();
        lemma_mod_bound(pow2(64) as int, modulus as int);
    }
    let hi: u64 = (value / (MONTGOMERY_R as u128)) as u64;
    let lo: u64 = (value % (MONTGOMERY_R as u128)) as u64;
    let ghost rr = 0x1_0000_0000int;
    let ghost nn = modulus as int;
    proof {
        assert(hi < 0x1_0000_0000) by {
            lemma_div_is_ordered(value as int, 0xFFFF_FFFF_FFFF_FFFF_int, rr);
            assert(0xFFFF_FFFF_FFFF_FFFF_int / 0x1_0000_0000int == 0xFFFF_FFFF_int);
        }
        assert(hi * r_squared < nn * rr) by (nonlinear_arith)
            requires
                hi < rr,
                r_squared < nn,
                1 < nn,
        ;
        lemma_mul_nonnegative(hi as int, r_squared as int);
    }
    let t1: u64 = redc(modulus, n_prime, hi * r_squared);
    proof {
        lemma_montgomery_represents(nn, r_inv@ as int, t1 as int, hi as int * r_squared as int);
        lemma_montgomery_r2_r_inv(nn, r_inv@ as int, r_squared as int, hi as int);
        assert(t1 == (hi as int * rr) % nn);
        assert(t1 + lo < nn * rr) by (nonlinear_arith)
            requires
                t1 < nn,
                lo < rr,
                1 < nn,
                1 < rr,
        ;
    }
    let s: u64 = t1 + lo;
    let u: u64 = redc(modulus, n_prime, s);
    proof {
        // s ≡ hi·R + lo == value (mod N)
        lemma_fundamental_div_mod(value as int, rr);
        lemma_mul_is_commutative(hi as int, rr);
        lemma_add_mod_noop_right(lo as int, hi as int * rr, nn);
        assert(s as int % nn == value as int % nn);
        assert(u as int * r_squared < nn * rr) by (nonlinear_arith)
            requires
                u < nn,
                r_squared < nn,
                nn < rr,
        ;
        lemma_mul_nonnegative(u as int, r_squared as int);
    }
    let w: u64 = redc(modulus, n_prime, u * r_squared);
    proof {
        lemma_montgomery_represents(nn, r_inv@ as int, w as int, u as int * r_squared as int);
        lemma_montgomery_r2_r_inv(nn, r_inv@ as int, r_squared as int, u as int);
        assert(w == (u as int * rr) % nn);
        lemma_mod_bound(value as int, nn);
    }
    w
}

} // verus!
