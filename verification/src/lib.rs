//! A fixed-width modular-arithmetic engine.
//!
//! Operands are decomposed into little-endian word arrays, added or
//! multiplied word by word with carry propagation, and folded back into the
//! range `[0, modulus)` through an interchangeable reduction strategy
//! (schoolbook division, Barrett reduction, or Montgomery reduction).
#![verifier::loop_isolation(false)]

use vstd::prelude::*;

pub mod adder;
pub mod barrett;
pub mod codec;
pub mod factory;
pub mod modular;
pub mod montgomery;
pub mod multiplier;
pub mod reduce;

verus! {

/// The ways an engine operation can fail.
///
/// `ReductionInvariantViolation` names the internal-consistency failures the
/// engine guards against (a Barrett correction loop overrunning its bound, a
/// Montgomery round trip losing its value). Verification proves those
/// situations impossible, so no operation ever returns it; the variant stays
/// so that the taxonomy of failures is complete.
#[derive(Clone, Copy, Debug, PartialEq, Eq, Structural)]
pub enum ArithError {
    UnsupportedModulus,
    ModulusMismatch,
    Overflow,
    ReductionInvariantViolation,
}

} // verus!
