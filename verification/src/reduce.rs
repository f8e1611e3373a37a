//! The reduction-strategy capability: a modulus bundled with the
//! precomputed state of the chosen strategy. Every strategy reduces a
//! supported value to exactly `value mod modulus`, so Barrett and
//! Montgomery agree bit-for-bit with the naive division baseline.

use vstd::prelude::*;
use vstd::arithmetic::div_mod::*;
use vstd::arithmetic::mul::*;
use vstd::arithmetic::power2::*;
use crate::ArithError;
use crate::barrett::barrett_reduce;
use crate::montgomery::{
    compute_n_prime, lemma_montgomery_r2_r_inv, lemma_montgomery_represents, montgomery_reduce,
    redc, MONTGOMERY_R,
};

verus! {

/// Which reduction strategy to build for a modulus.
#[derive(Clone, Copy, Debug, PartialEq, Eq, Structural)]
pub enum StrategyKind {
    Naive,
    Barrett,
    Montgomery,
}

/// A reduction strategy with its per-variant precomputed state.
#[derive(Clone, Copy, Debug)]
pub enum Strategy {
    /// Plain division, the correctness baseline; no precomputed state.
    Naive,
    /// Barrett reduction: `shift = k` with `2^k > modulus` and
    /// `multiplier = 2^k / modulus`, computed once per modulus.
    Barrett { shift: u64, multiplier: u64 },
    /// Montgomery reduction with radix `R = 2^32`: `n_prime = −N⁻¹ mod R`,
    /// `r_inv = R⁻¹ mod N`, and `r_squared = R² mod N`.
    Montgomery { n_prime: u64, r_inv: u64, r_squared: u64 },
}

/// A modulus together with the strategy that was built for it. Bundling
/// the two makes a constants/modulus mismatch structurally impossible.
#[derive(Clone, Copy, Debug)]
pub struct Reducer {
    pub modulus: u64,
    pub strategy: Strategy,
}

impl Reducer {
    /// Well-formedness: the modulus admits the strategy and the
    /// precomputed constants are the ones belonging to this modulus.
    ///
    /// The Barrett shift is pinned to 64 so that the supported range
    /// covers every double-word intermediate the engine produces.
    pub open spec fn wf(&self) -> bool {
        1 < self.modulus && match self.strategy {
            Strategy::Naive => true,
            Strategy::Barrett { shift, multiplier } => {
                &&& self.modulus < 0x1_0000_0000
                &&& shift == 64
                &&& multiplier == pow2(64) / (self.modulus as nat)
            },
            Strategy::Montgomery { n_prime, r_inv, r_squared } => {
                &&& self.modulus < 0x1_0000_0000
                &&& self.modulus % 2 == 1
                &&& n_prime < 0x1_0000_0000
                &&& (n_prime * self.modulus) % 0x1_0000_0000 == 0xFFFF_FFFF
                &&& r_inv < self.modulus
                &&& (r_inv * 0x1_0000_0000) % (self.modulus as int) == 1
                &&& r_squared == pow2(64) % (self.modulus as nat)
            },
        }
    }

    /// The tag of the strategy this reducer carries.
    pub open spec fn kind(&self) -> StrategyKind {
        match self.strategy {
            Strategy::Naive => StrategyKind::Naive,
            Strategy::Barrett { .. } => StrategyKind::Barrett,
            Strategy::Montgomery { .. } => StrategyKind::Montgomery,
        }
    }

    pub open spec fn is_montgomery(&self) -> bool {
        self.strategy is Montgomery
    }

    /// The values the strategy can reduce: its supported range.
    pub open spec fn supports(&self, value: nat) -> bool {
        match self.strategy {
            Strategy::Naive => value <= u128::MAX,
            Strategy::Barrett { .. } => value < 2 * pow2(64),
            Strategy::Montgomery { .. } => value < pow2(64),
        }
    }

    /// Every strategy supports at least the double-word range.
    pub proof fn lemma_supports_double_word(&self, value: nat)
        requires
            value < pow2(64),
        ensures
            self.supports(value),
    {
        lemma2_to64();
    }

    /// The product of two canonical values stays in the supported range.
    pub proof fn lemma_supports_product(&self, a: nat, b: nat)
        requires
            self.wf(),
            a < self.modulus,
            b < self.modulus,
        ensures
            self.supports(a * b),
    {
        lemma2_to64();
        match self.strategy {
            Strategy::Naive => {
                assert(a * b <= u128::MAX) by (nonlinear_arith)
                    requires
                        a < 0x1_0000_0000_0000_0000,
                        b < 0x1_0000_0000_0000_0000,
                ;
            },
            Strategy::Barrett { .. } => {
                assert(a * b < 0x1_0000_0000_0000_0000) by (nonlinear_arith)
                    requires
                        a < 0x1_0000_0000,
                        b < 0x1_0000_0000,
                ;
            },
            Strategy::Montgomery { .. } => {
                assert(a * b < 0x1_0000_0000_0000_0000) by (nonlinear_arith)
                    requires
                        a < 0x1_0000_0000,
                        b < 0x1_0000_0000,
                ;
            },
        }
    }

    /// The sum of two canonical values stays in the supported range.
    pub proof fn lemma_supports_sum(&self, a: nat, b: nat)
        requires
            self.wf(),
            a < self.modulus,
            b < self.modulus,
        ensures
            self.supports(a + b),
    {
        lemma2_to64();
    }

    /// The moduli for which a strategy can be built within the working
    /// integer width: Barrett and Montgomery need single-word moduli so
    /// their double-word intermediates fit, and Montgomery needs the
    /// modulus odd for `N⁻¹ mod 2^32` to exist.
    pub open spec fn modulus_supported(kind: StrategyKind, modulus: u64) -> bool {
        match kind {
            StrategyKind::Naive => 1 < modulus,
            StrategyKind::Barrett => 1 < modulus && modulus < 0x1_0000_0000,
            StrategyKind::Montgomery => 1 < modulus && modulus < 0x1_0000_0000 && modulus % 2
                == 1,
        }
    }

    /// Builds the strategy for `modulus`, computing its constants on
    /// demand; fails with `UnsupportedModulus` exactly when the modulus
    /// admits no such strategy.
    pub fn new(modulus: u64, kind: StrategyKind) -> (r: Result<Reducer, ArithError>)
        ensures
            match r {
                Ok(red) => Self::modulus_supported(kind, modulus) && red.wf() && red.modulus
                    == modulus && red.kind() == kind,
                Err(e) => e == ArithError::UnsupportedModulus && !Self::modulus_supported(
                    kind,
                    modulus,
                ),
            },
    {
        match kind {
            StrategyKind::Naive => {
                if modulus > 1 {
                    Ok(Reducer { modulus, strategy: Strategy::Naive })
                } else {
                    Err(ArithError::UnsupportedModulus)
                }
            },
            StrategyKind::Barrett => {
                if modulus > 1 && modulus < MONTGOMERY_R {
                    proof {
                        lemma2_to64();
                        lemma_div_is_ordered_by_denominator(
                            0x1_0000_0000_0000_0000int,
                            2,
                            modulus as int,
                        );
                        assert(0x1_0000_0000_0000_0000int / 2 == 0x8000_0000_0000_0000int);
                        lemma_div_pos_is_pos(0x1_0000_0000_0000_0000int, modulus as int);
                    }
                    let multiplier: u64 = (0x1_0000_0000_0000_0000u128 / (modulus as u128)) as u64;
                    Ok(Reducer { modulus, strategy: Strategy::Barrett { shift: 64, multiplier } })
                } else {
                    Err(ArithError::UnsupportedModulus)
                }
            },
            StrategyKind::Montgomery => {
                if modulus > 1 && modulus < MONTGOMERY_R && modulus % 2 == 1 {
                    let n_prime: u64 = compute_n_prime(modulus);
                    proof {
                        lemma2_to64();
                        lemma_mod_bound(0x1_0000_0000_0000_0000int, modulus as int);
                    }
                    let r_squared: u64 = (0x1_0000_0000_0000_0000u128 % (modulus as u128)) as u64;
                    proof {
                        assert(1 < (modulus as int) * 0x1_0000_0000int) by (nonlinear_arith)
                            requires
                                modulus > 1,
                        ;
                        lemma_small_mod(1nat, modulus as nat);
                    }
                    let r_inv: u64 = redc(modulus, n_prime, 1);
                    Ok(
                        Reducer {
                            modulus,
                            strategy: Strategy::Montgomery { n_prime, r_inv, r_squared },
                        },
                    )
                } else {
                    Err(ArithError::UnsupportedModulus)
                }
            },
        }
    }

    /// Tests whether `value` lies in the strategy's supported range.
    pub fn supports_value(&self, value: u128) -> (b: bool)
        ensures
            b == self.supports(value as nat),
    {
        proof {
            lemma2_to64();
        }
        match self.strategy {
            Strategy::Naive => true,
            Strategy::Barrett { .. } => value < 0x2_0000_0000_0000_0000u128,
            Strategy::Montgomery { .. } => value < 0x1_0000_0000_0000_0000u128,
        }
    }

    /// Reduces `value` into `[0, modulus)`. Every strategy returns exactly
    /// `value mod modulus`, so on any shared supported value all
    /// strategies agree with the naive division baseline.
    pub fn reduce(&self, value: u128) -> (r: u64)
        requires
            self.wf(),
            self.supports(value as nat),
        ensures
            r == (value as nat) % (self.modulus as nat),
            r < self.modulus,
    {
        proof {
            lemma_mod_bound(value as int, self.modulus as int);
        }
        match self.strategy {
            Strategy::Naive => {
                let q: u128 = value / (self.modulus as u128);
                proof {
                    lemma_fundamental_div_mod(value as int, self.modulus as int);
                    lemma_mul_is_commutative(q as int, self.modulus as int);
                }
                let r0: u128 = value - q * (self.modulus as u128);
                r0 as u64
            },
            Strategy::Barrett { shift: _, multiplier } => {
                proof {
                    lemma2_to64();
                }
                barrett_reduce(self.modulus, multiplier, value)
            },
            Strategy::Montgomery { n_prime, r_inv, r_squared } => {
                proof {
                    lemma2_to64();
                }
                montgomery_reduce(self.modulus, n_prime, r_squared, Ghost(r_inv), value)
            },
        }
    }

    /// The Montgomery-form image `x·R mod N` of a canonical value.
    pub open spec fn to_montgomery_spec(&self, x: nat) -> nat {
        (x * 0x1_0000_0000) % (self.modulus as nat)
    }

    /// The inverse map: a Montgomery-form element times `R⁻¹ mod N`.
    pub open spec fn from_montgomery_spec(&self, y: nat) -> nat {
        (y * self.mont_r_inv()) % (self.modulus as nat)
    }

    /// The stored `R⁻¹ mod N` (zero for the other strategies).
    pub open spec fn mont_r_inv(&self) -> nat {
        match self.strategy {
            Strategy::Montgomery { r_inv, .. } => r_inv as nat,
            _ => 0,
        }
    }

    /// Carries a canonical value into the Montgomery domain.
    pub fn to_montgomery_form(&self, x: u64) -> (r: u64)
        requires
            self.wf(),
            self.is_montgomery(),
            x < self.modulus,
        ensures
            r == self.to_montgomery_spec(x as nat),
            r < self.modulus,
    {
        match self.strategy {
            Strategy::Montgomery { n_prime, r_inv, r_squared } => {
                proof {
                    lemma2_to64();
                    lemma_mod_bound(pow2(64) as int, self.modulus as int);
                    assert((x as int) * (r_squared as int) < (self.modulus as int)
                        * 0x1_0000_0000int) by (nonlinear_arith)
                        requires
                            x < self.modulus,
                            r_squared < self.modulus,
                            self.modulus < 0x1_0000_0000,
                    ;
                    lemma_mul_nonnegative(x as int, r_squared as int);
                }
                let t: u64 = redc(self.modulus, n_prime, x * r_squared);
                proof {
                    let nn = self.modulus as int;
                    lemma_montgomery_represents(
                        nn,
                        r_inv as int,
                        t as int,
                        x as int * r_squared as int,
                    );
                    lemma_montgomery_r2_r_inv(nn, r_inv as int, r_squared as int, x as int);
                    lemma_mod_bound(x as int * 0x1_0000_0000int, nn);
                }
                t
            },
            _ => {
                proof {
                    assert(false);
                }
                0
            },
        }
    }

    /// Carries a Montgomery-form element back to its canonical value.
    pub fn from_montgomery_form(&self, y: u64) -> (r: u64)
        requires
            self.wf(),
            self.is_montgomery(),
            y < self.modulus,
        ensures
            r == self.from_montgomery_spec(y as nat),
            r < self.modulus,
    {
        match self.strategy {
            Strategy::Montgomery { n_prime, r_inv, r_squared: _ } => {
                proof {
                    assert((y as int) < (self.modulus as int) * 0x1_0000_0000int)
                        by (nonlinear_arith)
                        requires
                            y < self.modulus,
                            self.modulus > 1,
                    ;
                }
                let t: u64 = redc(self.modulus, n_prime, y);
                proof {
                    lemma_montgomery_represents(self.modulus as int, r_inv as int, t as int, y as int);
                }
                t
            },
            _ => {
                proof {
                    assert(false);
                }
                0
            },
        }
    }
}

/// Montgomery round trip: entering the Montgomery domain and leaving it
/// again returns every canonical value `x` in `[0, N)` unchanged.
pub proof fn lemma_montgomery_round_trip(red: Reducer, x: u64)
    requires
        red.wf(),
        red.is_montgomery(),
        x < red.modulus,
    ensures
        red.from_montgomery_spec(red.to_montgomery_spec(x as nat)) == x,
{
    let n = red.modulus as int;
    let ri = red.mont_r_inv() as int;
    let r = 0x1_0000_0000int;
    lemma_mod_bound(x as int * r, n);
    assert(((x as int * r) % n * ri) % n == ((x as int * r) * ri) % n) by {
        lemma_mul_mod_noop_left(x as int * r, ri, n);
    }
    assert((x as int * r) * ri == x as int * (ri * r)) by (nonlinear_arith);
    assert((x as int * (ri * r)) % n == (x as int * ((ri * r) % n)) % n) by {
        lemma_mul_mod_noop_right(x as int, ri * r, n);
    }
    assert((ri * r) % n == 1);
    lemma_mul_basics(x as int);
    lemma_small_mod(x as nat, red.modulus as nat);
}

} // verus!
