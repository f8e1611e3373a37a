//! Multi-word adder: position-wise addition with carry propagation in
//! base `2^width`, and the fold that brings a word array back into the
//! modulus' range through the reduction strategy. Carry arithmetic stays
//! strictly in base `2^width`; all modular reduction happens in the fold.

use vstd::prelude::*;
use vstd::arithmetic::div_mod::*;
use vstd::arithmetic::mul::*;
use vstd::arithmetic::power2::*;
use crate::codec::{
    lemma_words_value_push, lemma_words_value_take_step, pow2_u128, words_value,
};
use crate::reduce::Reducer;

verus! {

/// Adds two equal-length word arrays position-wise with carry
/// propagation, producing an array one word longer than the inputs.
pub fn add_words(us: &Vec<u64>, vs: &Vec<u64>, width: usize) -> (ws: Vec<u64>)
    requires
        us.len() == vs.len(),
        1 <= width <= 63,
        forall|i: int| 0 <= i < us.len() ==> #[trigger] us[i] < pow2(width as nat),
        forall|i: int| 0 <= i < vs.len() ==> #[trigger] vs[i] < pow2(width as nat),
    ensures
        ws.len() == us.len() + 1,
        forall|i: int| 0 <= i < ws.len() ==> #[trigger] ws[i] < pow2(width as nat),
        words_value(ws@, width as nat) == words_value(us@, width as nat) + words_value(
            vs@,
            width as nat,
        ),
{
    proof {
        lemma2_to64();
        lemma2_to64_rest();
        if width < 63 {
            lemma_pow2_strictly_increases(width as nat, 63);
        }
        assert(pow2(width as nat) <= pow2(63));
        lemma_pow2_pos(width as nat);
        if 1 < width {
            lemma_pow2_strictly_increases(1, width as nat);
        }
    }
    let base: u64 = pow2_u128(width) as u64;
    let mut ws: Vec<u64> = Vec::new();
    let mut carry: u64 = 0;
    let mut i: usize = 0;
    while i < us.len()
        invariant
            i <= us.len(),
            ws.len() == i,
            carry <= 1,
            base == pow2(width as nat),
            forall|j: int| 0 <= j < i ==> #[trigger] ws[j] < pow2(width as nat),
            words_value(ws@, width as nat) + carry * pow2((i * width) as nat) == words_value(
                us@.take(i as int),
                width as nat,
            ) + words_value(vs@.take(i as int), width as nat),
        decreases us.len() - i,
    {
        proof {
            lemma2_to64_rest();
            assert(us[i as int] < pow2(width as nat) && vs[i as int] < pow2(width as nat));
            assert(pow2(width as nat) <= pow2(63));
        }
        let t: u64 = us[i] + vs[i] + carry;
        let d: u64 = t % base;
        let c: u64 = t / base;
        proof {
            lemma_mod_bound(t as int, base as int);
            assert(c <= 1) by {
                lemma_div_is_ordered(t as int, 2 * base - 1, base as int);
                lemma_fundamental_div_mod_converse(
                    2 * base as int - 1,
                    base as int,
                    1,
                    base as int - 1,
                );
            }
            lemma_fundamental_div_mod(t as int, base as int);
            lemma_words_value_push(ws@, width as nat, d);
            lemma_words_value_take_step(us@, width as nat, i as int);
            lemma_words_value_take_step(vs@, width as nat, i as int);
            lemma_pow2_adds((i * width) as nat, width as nat);
            let pw = pow2((i * width) as nat) as int;
            let bs = base as int;
            assert((i + 1) * width == i * width + width) by (nonlinear_arith);
            // d·P + c·(P·base) == t·P, and the invariant moves one step
            assert(d * pw + c * (pw * bs) == (d + bs * c) * pw) by (nonlinear_arith);
            assert((us[i as int] + vs[i as int] + carry) * pw == us[i as int] * pw + vs[i as int]
                * pw + carry * pw) by (nonlinear_arith);
        }
        ws.push(d);
        carry = c;
        i = i + 1;
    }
    proof {
        assert(us@.take(us@.len() as int) =~= us@);
        assert(vs@.take(vs@.len() as int) =~= vs@);
        lemma_words_value_push(ws@, width as nat, carry);
    }
    ws.push(carry);
    ws
}

/// Folds a little-endian word array into `[0, modulus)`: each word is
/// reduced through the strategy, multiplied by its positional weight
/// `2^(i·width) mod N` (itself maintained through the strategy), and
/// accumulated modulo N. A zero word contributes nothing and skips the
/// strategy calls for its term.
pub fn fold_words(ws: &Vec<u64>, width: usize, red: &Reducer) -> (r: u64)
    requires
        red.wf(),
        1 <= width <= 32,
        forall|i: int| 0 <= i < ws.len() ==> #[trigger] ws[i] < pow2(width as nat),
    ensures
        r == words_value(ws@, width as nat) % (red.modulus as nat),
        r < red.modulus,
{
    proof {
        lemma2_to64();
        if width < 64 {
            lemma_pow2_strictly_increases(width as nat, 64);
        }
        lemma_pow2_pos(width as nat);
    }
    let base: u128 = pow2_u128(width);
    proof {
        red.lemma_supports_double_word(base as nat);
    }
    let base_m: u64 = red.reduce(base);
    let mut acc: u64 = 0;
    let mut weight: u64 = 1;
    let mut i: usize = 0;
    proof {
        assert(ws@.take(0) =~= Seq::<u64>::empty());
        lemma_small_mod(0nat, red.modulus as nat);
        lemma_small_mod(1nat, red.modulus as nat);
        assert(0 * width == 0) by (nonlinear_arith);
        assert(pow2(0) == 1);
    }
    while i < ws.len()
        invariant
            i <= ws.len(),
            base == pow2(width as nat),
            base_m == pow2(width as nat) % (red.modulus as nat),
            acc == words_value(ws@.take(i as int), width as nat) % (red.modulus as nat),
            acc < red.modulus,
            weight == pow2((i * width) as nat) % (red.modulus as nat),
            weight < red.modulus,
        decreases ws.len() - i,
    {
        let w: u64 = ws[i];
        proof {
            lemma_words_value_take_step(ws@, width as nat, i as int);
        }
        if w != 0 {
            proof {
                lemma_pow2_strictly_increases(width as nat, 64);
                red.lemma_supports_double_word(w as nat);
            }
            let term: u64 = red.reduce(w as u128);
            proof {
                red.lemma_supports_product(term as nat, weight as nat);
                assert((term as int) * (weight as int) <= u128::MAX) by (nonlinear_arith)
                    requires
                        term < 0x1_0000_0000_0000_0000,
                        weight < 0x1_0000_0000_0000_0000,
                ;
            }
            let t: u64 = red.reduce((term as u128) * (weight as u128));
            proof {
                red.lemma_supports_sum(acc as nat, t as nat);
                // t == (ws[i]·2^(i·width)) mod N
                lemma_mul_mod_noop_general(
                    w as int,
                    pow2((i * width) as nat) as int,
                    red.modulus as int,
                );
                lemma_add_mod_noop(
                    words_value(ws@.take(i as int), width as nat) as int,
                    w as int * pow2((i * width) as nat) as int,
                    red.modulus as int,
                );
            }
            acc = red.reduce((acc as u128) + (t as u128));
        } else {
            proof {
                lemma_mul_basics(pow2((i * width) as nat) as int);
            }
        }
        proof {
            red.lemma_supports_product(weight as nat, base_m as nat);
            assert((weight as int) * (base_m as int) <= u128::MAX) by (nonlinear_arith)
                requires
                    weight < 0x1_0000_0000_0000_0000,
                    base_m < 0x1_0000_0000_0000_0000,
            ;
            lemma_mul_mod_noop_general(
                pow2((i * width) as nat) as int,
                pow2(width as nat) as int,
                red.modulus as int,
            );
            lemma_pow2_adds((i * width) as nat, width as nat);
            assert((i + 1) * width == i * width + width) by (nonlinear_arith);
        }
        weight = red.reduce((weight as u128) * (base_m as u128));
        i = i + 1;
    }
    proof {
        assert(ws@.take(ws@.len() as int) =~= ws@);
    }
    acc
}

} // verus!
