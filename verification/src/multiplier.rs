//! Multi-word multiplier: schoolbook long multiplication, word by word
//! with carry propagation in base `2^width`, filling a double-width word
//! array. A zero multiplier word short-circuits its whole row.

use vstd::prelude::*;
use vstd::arithmetic::div_mod::*;
use vstd::arithmetic::mul::*;
use vstd::arithmetic::power2::*;
use crate::codec::{
    lemma_words_value_push, lemma_words_value_take_step, lemma_words_value_update, pow2_u128,
    words_value,
};

verus! {

/// Multiplies two equal-length word arrays into a double-length word
/// array by the schoolbook method: row `i` accumulates `us[i]·vs[j]`
/// into position `i+j` with carries in base `2^width`.
pub fn mul_words(us: &Vec<u64>, vs: &Vec<u64>, width: usize) -> (ws: Vec<u64>)
    requires
        us.len() == vs.len(),
        2 * us.len() <= usize::MAX,
        1 <= width <= 31,
        forall|k: int| 0 <= k < us.len() ==> #[trigger] us[k] < pow2(width as nat),
        forall|k: int| 0 <= k < vs.len() ==> #[trigger] vs[k] < pow2(width as nat),
    ensures
        ws.len() == 2 * us.len(),
        forall|k: int| 0 <= k < ws.len() ==> #[trigger] ws[k] < pow2(width as nat),
        words_value(ws@, width as nat) == words_value(us@, width as nat) * words_value(
            vs@,
            width as nat,
        ),
{
    let n: usize = us.len();
    proof {
        lemma2_to64();
        if width < 31 {
            lemma_pow2_strictly_increases(width as nat, 31);
        }
        assert(pow2(width as nat) <= pow2(31));
        lemma_pow2_pos(width as nat);
    }
    let base: u64 = pow2_u128(width) as u64;
    let mut ws: Vec<u64> = Vec::new();
    let mut k: usize = 0;
    while k < 2 * n
        invariant
            k <= 2 * n,
            ws.len() == k,
            forall|p: int| 0 <= p < k ==> #[trigger] ws[p] == 0,
            words_value(ws@, width as nat) == 0,
        decreases 2 * n - k,
    {
        proof {
            lemma_words_value_push(ws@, width as nat, 0);
            assert(0 * pow2((ws@.len() * width) as nat) == 0) by (nonlinear_arith);
        }
        ws.push(0);
        k = k + 1;
    }
    let ghost uu = us@;
    let ghost vv = vs@;
    let ghost wd = width as nat;
    let ghost vval = words_value(vs@, width as nat);
    let mut i: usize = 0;
    proof {
        assert(uu.take(0) =~= Seq::<u64>::empty());
        assert(0 * vval == 0) by (nonlinear_arith);
    }
    while i < n
        invariant
            i <= n,
            ws.len() == 2 * n,
            base == pow2(wd),
            forall|p: int| 0 <= p < 2 * n ==> #[trigger] ws[p] < pow2(wd),
            forall|p: int| i + n <= p < 2 * n ==> #[trigger] ws[p] == 0,
            words_value(ws@, wd) == words_value(uu.take(i as int), wd) * vval,
        decreases n - i,
    {
        proof {
            lemma_words_value_take_step(uu, wd, i as int);
        }
        if us[i] == 0 {
            proof {
                assert(words_value(uu.take(i as int + 1), wd) == words_value(
                    uu.take(i as int),
                    wd,
                ) + 0 * pow2((i * width) as nat));
                assert(0 * pow2((i * width) as nat) == 0) by (nonlinear_arith);
            }
        } else {
            let f: u64 = us[i];
            let mut carry: u64 = 0;
            let mut j: usize = 0;
            proof {
                assert(vv.take(0) =~= Seq::<u64>::empty());
                let fp = f * pow2((i * width) as nat);
                assert(fp * 0 == 0) by (nonlinear_arith);
                assert(carry * pow2(((i + 0) * width) as nat) == 0) by (nonlinear_arith)
                    requires
                        carry == 0,
                ;
            }
            while j < n
                invariant
                    j <= n,
                    i < n,
                    f == us[i as int],
                    f < pow2(wd),
                    ws.len() == 2 * n,
                    base == pow2(wd),
                    carry < pow2(wd),
                    forall|p: int| 0 <= p < 2 * n ==> #[trigger] ws[p] < pow2(wd),
                    forall|p: int| i + n <= p < 2 * n ==> #[trigger] ws[p] == 0,
                    words_value(ws@, wd) + carry * pow2(((i + j) * width) as nat) == words_value(
                        uu.take(i as int),
                        wd,
                    ) * vval + (f * pow2((i * width) as nat)) * words_value(
                        vv.take(j as int),
                        wd,
                    ),
                decreases n - j,
            {
                let ghost ws0 = ws@;
                let ghost c0 = carry;
                proof {
                    assert(vs[j as int] < pow2(wd));
                    assert(ws[i + j] < pow2(wd));
                    assert(f * vs[j as int] + ws[i as int + j as int] + carry < pow2(wd) * pow2(
                        wd,
                    )) by (nonlinear_arith)
                        requires
                            f < pow2(wd),
                            vs[j as int] < pow2(wd),
                            ws[i as int + j as int] < pow2(wd),
                            carry < pow2(wd),
                            pow2(wd) >= 2,
                    ;
                    assert(pow2(wd) * pow2(wd) == pow2(wd + wd)) by {
                        lemma_pow2_adds(wd, wd);
                    }
                    lemma_pow2_strictly_increases(wd + wd, 64);
                    lemma2_to64_rest();
                }
                let t: u64 = f * vs[j] + ws[i + j] + carry;
                let d: u64 = t % base;
                let c: u64 = t / base;
                proof {
                    lemma_mod_bound(t as int, base as int);
                    lemma_fundamental_div_mod(t as int, base as int);
                    lemma_multiply_divide_lt(t as int, base as int, base as int);
                    assert((t as int) < (base as int) * (base as int)) by (nonlinear_arith)
                        requires
                            f < base,
                            vs[j as int] < base,
                            ws[i as int + j as int] < base,
                            carry < base,
                            t == f * vs[j as int] + ws[i as int + j as int] + carry,
                            base >= 2,
                    ;
                }
                ws[i + j] = d;
                carry = c;
                proof {
                    let p_ij = pow2(((i + j) * width) as nat) as int;
                    let p_iw = pow2((i * width) as nat) as int;
                    let p_jw = pow2((j * width) as nat) as int;
                    let bs = base as int;
                    let w_old = ws0[i as int + j as int] as int;
                    lemma_words_value_update(ws0, wd, i as int + j as int, d);
                    lemma_words_value_take_step(vv, wd, j as int);
                    assert(p_iw * p_jw == p_ij) by {
                        lemma_pow2_adds((i * width) as nat, (j * width) as nat);
                        assert(i * width + j * width == (i + j) * width) by (nonlinear_arith);
                    }
                    assert(p_ij * bs == pow2(((i + j + 1) * width) as nat)) by {
                        lemma_pow2_adds(((i + j) * width) as nat, wd);
                        assert((i + j) * width + width == (i + j + 1) * width)
                            by (nonlinear_arith);
                    }
                    let dd = d as int;
                    let cc = c as int;
                    let tt = t as int;
                    let ff = f as int;
                    let vj = vs[j as int] as int;
                    assert(dd * p_ij + cc * (p_ij * bs) == tt * p_ij) by (nonlinear_arith)
                        requires
                            tt == bs * cc + dd,
                    ;
                    assert(tt * p_ij == (ff * vj) * p_ij + w_old * p_ij + c0 * p_ij)
                        by (nonlinear_arith)
                        requires
                            tt == ff * vj + w_old + c0,
                    ;
                    let tj = words_value(vv.take(j as int), wd) as int;
                    let tj1 = words_value(vv.take(j as int + 1), wd) as int;
                    assert((ff * p_iw) * tj1 == (ff * p_iw) * tj + (ff * vj) * p_ij)
                        by (nonlinear_arith)
                        requires
                            tj1 == tj + vj * p_jw,
                            p_iw * p_jw == p_ij,
                    ;
                }
                j = j + 1;
            }
            proof {
                assert(vv.take(n as int) =~= vv);
                let ghost ws1 = ws@;
                lemma_words_value_update(ws1, wd, i as int + n as int, carry);
                assert(ws1[i as int + n as int] == 0);
                assert(0 * pow2(((i + n) * width) as nat) == 0) by (nonlinear_arith);
            }
            ws[i + n] = carry;
            proof {
                let p_iw = pow2((i * width) as nat) as int;
                let a = words_value(uu.take(i as int), wd) as int;
                let a1 = words_value(uu.take(i as int + 1), wd) as int;
                let vvv = vval as int;
                let ff = f as int;
                assert(a1 * vvv == a * vvv + (ff * p_iw) * vvv) by (nonlinear_arith)
                    requires
                        a1 == a + ff * p_iw,
                ;
            }
        }
        i = i + 1;
    }
    proof {
        assert(uu.take(n as int) =~= uu);
    }
    ws
}

} // verus!
