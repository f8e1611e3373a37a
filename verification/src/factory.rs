//! The strategy factory: computes the Barrett pair and the Montgomery
//! triple for a modulus the first time that modulus is seen, and serves
//! the memoized constants on every later request. The naive strategy has
//! no precomputed state and is built directly.

use vstd::prelude::*;
use std::collections::HashMap;
use crate::ArithError;
use crate::reduce::{Reducer, StrategyKind};

verus! {

broadcast use vstd::std_specs::hash::group_hash_axioms;

/// A per-modulus cache of precomputed reduction constants. Every cached
/// entry is well-formed and belongs to the modulus it is keyed by, so a
/// lookup can never pair a modulus with another modulus' constants.
pub struct StrategyFactory {
    pub barrett: HashMap<u64, Reducer>,
    pub montgomery: HashMap<u64, Reducer>,
}

impl StrategyFactory {
    /// Every cached strategy is well-formed, keyed by its own modulus,
    /// and stored in the table of its own kind.
    pub open spec fn wf(&self) -> bool {
        &&& forall|m: u64|
            self.barrett@.contains_key(m) ==> {
                &&& (#[trigger] self.barrett@[m]).wf()
                &&& self.barrett@[m].modulus == m
                &&& self.barrett@[m].kind() == StrategyKind::Barrett
            }
        &&& forall|m: u64|
            self.montgomery@.contains_key(m) ==> {
                &&& (#[trigger] self.montgomery@[m]).wf()
                &&& self.montgomery@[m].modulus == m
                &&& self.montgomery@[m].kind() == StrategyKind::Montgomery
            }
    }

    /// An empty cache.
    pub fn new() -> (f: StrategyFactory)
        ensures
            f.wf(),
            f.barrett@.len() == 0,
            f.montgomery@.len() == 0,
    {
        StrategyFactory { barrett: HashMap::new(), montgomery: HashMap::new() }
    }

    /// Returns the strategy for `modulus`, computing and caching its
    /// constants the first time the modulus is seen; fails with
    /// `UnsupportedModulus` exactly when the modulus admits no such
    /// strategy.
    pub fn get(&mut self, modulus: u64, kind: StrategyKind) -> (r: Result<Reducer, ArithError>)
        requires
            old(self).wf(),
        ensures
            final(self).wf(),
            match r {
                Ok(red) => Reducer::modulus_supported(kind, modulus) && red.wf() && red.modulus
                    == modulus && red.kind() == kind,
                Err(e) => e == ArithError::UnsupportedModulus && !Reducer::modulus_supported(
                    kind,
                    modulus,
                ),
            },
    {
        match kind {
            StrategyKind::Naive => Reducer::new(modulus, kind),
            StrategyKind::Barrett => {
                match self.barrett.get(&modulus) {
                    Some(red) => Ok(*red),
                    None => {
                        match Reducer::new(modulus, kind) {
                            Ok(red) => {
                                self.barrett.insert(modulus, red);
                                Ok(red)
                            },
                            Err(e) => Err(e),
                        }
                    },
                }
            },
            StrategyKind::Montgomery => {
                match self.montgomery.get(&modulus) {
                    Some(red) => Ok(*red),
                    None => {
                        match Reducer::new(modulus, kind) {
                            Ok(red) => {
                                self.montgomery.insert(modulus, red);
                                Ok(red)
                            },
                            Err(e) => Err(e),
                        }
                    },
                }
            },
        }
    }
}

} // verus!
