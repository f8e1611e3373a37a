//! Modular values: an operand bound to the modulus and reduction strategy
//! it was constructed with. Operations return new values; after every
//! public operation the value is canonical, in `[0, modulus)`.

use vstd::prelude::*;
use vstd::arithmetic::div_mod::*;
use vstd::arithmetic::mul::*;
use vstd::arithmetic::power2::*;
use crate::ArithError;
use crate::adder::{add_words, fold_words};
use crate::codec::split;
use crate::multiplier::mul_words;
use crate::reduce::{Reducer, StrategyKind};

verus! {

/// An operand bound to a modulus and the strategy built for that modulus.
#[derive(Clone, Copy, Debug)]
pub struct ModularValue {
    pub value: u64,
    pub reducer: Reducer,
}

impl ModularValue {
    /// Well-formedness: the strategy belongs to the modulus and the value
    /// is in canonical form.
    pub open spec fn wf(&self) -> bool {
        self.reducer.wf() && self.value < self.reducer.modulus
    }

    /// Reads the canonical value.
    pub fn value(&self) -> (v: u64)
        ensures
            v == self.value,
    {
        self.value
    }

    /// Reads the modulus the value is bound to.
    pub fn modulus(&self) -> (m: u64)
        ensures
            m == self.reducer.modulus,
    {
        self.reducer.modulus
    }

    /// Compares canonical values directly; two values agree only when
    /// both the modulus and the canonical value agree.
    pub fn equals(&self, other: &ModularValue) -> (b: bool)
        ensures
            b == (self.value == other.value && self.reducer.modulus == other.reducer.modulus),
    {
        self.value == other.value && self.reducer.modulus == other.reducer.modulus
    }

    /// Adds two Modular Values over their shared modulus: both operands
    /// are split into 32-bit word arrays, added word-wise with carries in
    /// base `2^32`, and the three-word sum is folded back through the
    /// strategy. Mismatched moduli are rejected before any arithmetic.
    pub fn add(&self, other: &ModularValue) -> (r: Result<ModularValue, ArithError>)
        requires
            self.wf(),
            other.wf(),
        ensures
            match r {
                Ok(c) => {
                    &&& self.reducer.modulus == other.reducer.modulus
                    &&& c.reducer == self.reducer
                    &&& c.wf()
                    &&& c.value == (self.value + other.value) % (self.reducer.modulus as int)
                },
                Err(e) => e == ArithError::ModulusMismatch && self.reducer.modulus
                    != other.reducer.modulus,
            },
    {
        if self.reducer.modulus != other.reducer.modulus {
            return Err(ArithError::ModulusMismatch);
        }
        let us: Vec<u64> = split(self.value, 32, 2);
        let vs: Vec<u64> = split(other.value, 32, 2);
        proof {
            lemma2_to64();
            lemma_small_mod(self.value as nat, pow2(64));
            lemma_small_mod(other.value as nat, pow2(64));
        }
        let ws: Vec<u64> = add_words(&us, &vs, 32);
        let folded: u64 = fold_words(&ws, 32, &self.reducer);
        Ok(ModularValue { value: folded, reducer: self.reducer })
    }

    /// Multiplies two Modular Values over their shared modulus: both
    /// operands are split into eight 8-bit words, multiplied by the
    /// schoolbook method into a sixteen-word array, and that array is
    /// folded back through the strategy. Mismatched moduli are rejected
    /// before any arithmetic.
    pub fn multiply(&self, other: &ModularValue) -> (r: Result<ModularValue, ArithError>)
        requires
            self.wf(),
            other.wf(),
        ensures
            match r {
                Ok(c) => {
                    &&& self.reducer.modulus == other.reducer.modulus
                    &&& c.reducer == self.reducer
                    &&& c.wf()
                    &&& c.value == (self.value * other.value) % (self.reducer.modulus as int)
                },
                Err(e) => e == ArithError::ModulusMismatch && self.reducer.modulus
                    != other.reducer.modulus,
            },
    {
        if self.reducer.modulus != other.reducer.modulus {
            return Err(ArithError::ModulusMismatch);
        }
        let us: Vec<u64> = split(self.value, 8, 8);
        let vs: Vec<u64> = split(other.value, 8, 8);
        proof {
            lemma2_to64();
            lemma_small_mod(self.value as nat, pow2(64));
            lemma_small_mod(other.value as nat, pow2(64));
        }
        let ws: Vec<u64> = mul_words(&us, &vs, 8);
        let folded: u64 = fold_words(&ws, 8, &self.reducer);
        Ok(ModularValue { value: folded, reducer: self.reducer })
    }
}

/// Builds a Modular Value: the strategy is constructed for the modulus,
/// and the raw value is carried into canonical form by that strategy.
pub fn construct_modular_value(value: u64, modulus: u64, kind: StrategyKind) -> (r: Result<
    ModularValue,
    ArithError,
>)
    ensures
        match r {
            Ok(mv) => {
                &&& Reducer::modulus_supported(kind, modulus)
                &&& mv.wf()
                &&& mv.reducer.modulus == modulus
                &&& mv.reducer.kind() == kind
                &&& mv.value == (value as nat) % (modulus as nat)
            },
            Err(e) => e == ArithError::UnsupportedModulus && !Reducer::modulus_supported(
                kind,
                modulus,
            ),
        },
{
    match Reducer::new(modulus, kind) {
        Ok(red) => {
            proof {
                lemma2_to64();
                red.lemma_supports_double_word(value as nat);
            }
            let canonical: u64 = red.reduce(value as u128);
            Ok(ModularValue { value: canonical, reducer: red })
        },
        Err(e) => Err(e),
    }
}

/// Additive identity: adding the Modular Value zero leaves any canonical
/// value unchanged, `(a + 0) mod N == a`.
pub proof fn lemma_add_identity(a: ModularValue, zero: ModularValue)
    requires
        a.wf(),
        zero.wf(),
        zero.value == 0,
        zero.reducer.modulus == a.reducer.modulus,
    ensures
        (a.value + zero.value) % (a.reducer.modulus as int) == a.value,
{
    lemma_small_mod(a.value as nat, a.reducer.modulus as nat);
}

/// Addition is commutative: `add(a, b)` and `add(b, a)` yield the same
/// canonical value.
pub proof fn lemma_add_commutative(a: ModularValue, b: ModularValue)
    requires
        a.wf(),
        b.wf(),
        a.reducer.modulus == b.reducer.modulus,
    ensures
        (a.value + b.value) % (a.reducer.modulus as int) == (b.value + a.value) % (
        b.reducer.modulus as int),
{
}

/// Multiplication is commutative: `multiply(a, b)` and `multiply(b, a)`
/// yield the same canonical value.
pub proof fn lemma_multiply_commutative(a: ModularValue, b: ModularValue)
    requires
        a.wf(),
        b.wf(),
        a.reducer.modulus == b.reducer.modulus,
    ensures
        (a.value * b.value) % (a.reducer.modulus as int) == (b.value * a.value) % (
        b.reducer.modulus as int),
{
    lemma_mul_is_commutative(a.value as int, b.value as int);
}

} // verus!
