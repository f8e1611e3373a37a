//! Word-array codec: decomposing an unsigned integer into an ordered,
//! little-endian sequence of fixed-width words, and reassembling it.

use vstd::prelude::*;
use vstd::arithmetic::div_mod::*;
use vstd::arithmetic::mul::*;
use vstd::arithmetic::power2::*;

verus! {

/// The integer a little-endian word sequence denotes: word `i` carries
/// weight `2^(i·width)`.
pub open spec fn words_value(ws: Seq<u64>, width: nat) -> nat
    decreases ws.len(),
{
    if ws.len() == 0 {
        0
    } else {
        (ws[0] + pow2(width) * words_value(ws.skip(1), width)) as nat
    }
}

/// Peeling one word off the front: the remaining suffix is again a word
/// sequence, one position lower.
pub proof fn lemma_words_value_skip_step(ws: Seq<u64>, width: nat, j: int)
    requires
        0 <= j < ws.len(),
    ensures
        words_value(ws.skip(j), width) == ws[j] + pow2(width) * words_value(
            ws.skip(j + 1),
            width,
        ),
{
    assert(ws.skip(j).skip(1) =~= ws.skip(j + 1));
    assert(ws.skip(j)[0] == ws[j]);
}

/// Appending a word adds its value at weight `2^(len·width)`.
pub proof fn lemma_words_value_push(ws: Seq<u64>, width: nat, x: u64)
    ensures
        words_value(ws.push(x), width) == words_value(ws, width) + x * pow2(
            ws.len() * width,
        ),
    decreases ws.len(),
{
    if ws.len() == 0 {
        assert(ws.push(x).skip(1) =~= Seq::<u64>::empty());
        assert(pow2(0) == 1) by {
            lemma2_to64();
        }
        assert(ws.len() * width == 0);
        assert(words_value(Seq::<u64>::empty(), width) == 0);
        assert(ws.push(x)[0] == x);
        assert(words_value(ws.push(x), width) == x + pow2(width) * 0);
        assert(words_value(ws, width) == 0);
    } else {
        let tail = ws.skip(1);
        assert(ws.push(x).skip(1) =~= tail.push(x));
        lemma_words_value_push(tail, width, x);
        let tv = words_value(tail, width);
        let l1 = (ws.len() - 1) as nat;
        lemma_pow2_pos(width);
        lemma_pow2_pos(l1 * width);
        assert(width + l1 * width == ws.len() * width) by (nonlinear_arith)
            requires
                l1 == ws.len() - 1,
        ;
        lemma_pow2_adds(width, l1 * width);
        assert(ws.push(x)[0] == ws[0]);
        assert(words_value(ws, width) == ws[0] + pow2(width) * tv);
        assert(words_value(ws.push(x), width) == ws[0] + pow2(width) * (tv + x * pow2(l1 * width)));
        assert(pow2(width) * (tv + x * pow2(l1 * width)) == pow2(width) * tv + x * (pow2(width)
            * pow2(l1 * width))) by (nonlinear_arith);
        assert(pow2(width) * pow2(l1 * width) == pow2(ws.len() * width));
    }
}

/// One more word of a prefix adds `ws[i]` at weight `2^(i·width)`.
pub proof fn lemma_words_value_take_step(ws: Seq<u64>, width: nat, i: int)
    requires
        0 <= i < ws.len(),
    ensures
        words_value(ws.take(i + 1), width) == words_value(ws.take(i), width) + ws[i] * pow2(
            (i * width) as nat,
        ),
{
    assert(ws.take(i + 1) =~= ws.take(i).push(ws[i]));
    lemma_words_value_push(ws.take(i), width, ws[i]);
}

/// Overwriting word `i` moves the denoted value by the difference of the
/// old and new word, each at weight `2^(i·width)`.
pub proof fn lemma_words_value_update(ws: Seq<u64>, width: nat, i: int, v: u64)
    requires
        0 <= i < ws.len(),
    ensures
        words_value(ws.update(i, v), width) + ws[i] * pow2((i * width) as nat) == words_value(
            ws,
            width,
        ) + v * pow2((i * width) as nat),
    decreases i,
{
    if i == 0 {
        assert(ws.update(0, v).skip(1) =~= ws.skip(1));
        assert(0 * width == 0) by (nonlinear_arith);
        assert(pow2(0) == 1) by {
            lemma2_to64();
        }
    } else {
        let tail = ws.skip(1);
        assert(ws.update(i, v).skip(1) =~= tail.update(i - 1, v));
        lemma_words_value_update(tail, width, i - 1, v);
        let q = pow2(((i - 1) * width) as nat);
        let b = pow2(width);
        assert(b * q == pow2((i * width) as nat)) by {
            lemma_pow2_adds(width, ((i - 1) * width) as nat);
            assert(width + (i - 1) * width == i * width) by (nonlinear_arith);
        }
        let x1 = words_value(tail.update(i - 1, v), width);
        let x2 = words_value(tail, width);
        assert(b * (x1 + tail[i - 1] * q) == b * x1 + tail[i - 1] * (b * q)) by (nonlinear_arith);
        assert(b * (x2 + v * q) == b * x2 + v * (b * q)) by (nonlinear_arith);
        assert(ws.update(i, v)[0] == ws[0]);
        assert(words_value(ws.update(i, v), width) == ws[0] + b * x1);
        assert(words_value(ws, width) == ws[0] + b * x2);
        assert(tail[i - 1] == ws[i]);
    }
}

/// A word sequence splits at any point: the prefix plus the shifted suffix.
pub proof fn lemma_words_value_prefix(ws: Seq<u64>, width: nat, i: int)
    requires
        0 <= i <= ws.len(),
    ensures
        words_value(ws, width) == words_value(ws.take(i), width) + pow2((i * width) as nat)
            * words_value(ws.skip(i), width),
    decreases i,
{
    if i == 0 {
        assert(ws.take(0) =~= Seq::<u64>::empty());
        assert(ws.skip(0) =~= ws);
        assert(pow2(0) == 1) by {
            lemma2_to64();
        }
        assert(i * width == 0) by (nonlinear_arith)
            requires
                i == 0,
        ;
        assert(words_value(ws.take(0), width) == 0);
        assert(pow2(0) * words_value(ws, width) == words_value(ws, width));
    } else {
        lemma_words_value_prefix(ws, width, i - 1);
        lemma_words_value_take_step(ws, width, i - 1);
        lemma_words_value_skip_step(ws, width, i - 1);
        let p = pow2((((i - 1)) * width) as nat);
        let s = words_value(ws.skip(i), width);
        assert(p * (ws[i - 1] + pow2(width) * s) == ws[i - 1] * p + (p * pow2(width)) * s)
            by (nonlinear_arith);
        assert(p * pow2(width) == pow2(((i - 1) * width) as nat + width)) by {
            lemma_pow2_adds(((i - 1) * width) as nat, width);
        }
        assert((i - 1) * width + width == i * width) by (nonlinear_arith);
        assert(p * pow2(width) == pow2((i * width) as nat));
        assert(words_value(ws, width) == words_value(ws.take(i - 1), width) + p * words_value(
            ws.skip(i - 1),
            width,
        ));
        assert(words_value(ws, width) == words_value(ws.take(i - 1), width) + ws[i - 1] * p + (p
            * pow2(width)) * words_value(ws.skip(i), width));
    }
}

/// The words produced by `split` denote `value mod 2^(count·width)`.
pub proof fn lemma_words_value_of_split(ws: Seq<u64>, value: nat, width: nat)
    requires
        1 <= width,
        forall|i: int|
            0 <= i < ws.len() ==> #[trigger] ws[i] == (value / pow2((i * width) as nat)) % pow2(
                width,
            ),
    ensures
        words_value(ws, width) == value % pow2(ws.len() * width),
    decreases ws.len(),
{
    lemma_pow2_pos(width);
    if ws.len() == 0 {
        assert(pow2(0) == 1) by {
            lemma2_to64();
        }
        lemma_mod_division_less_than_divisor(value as int, 1);
    } else {
        let tail = ws.skip(1);
        let v1 = value / pow2(width);
        assert forall|i: int| 0 <= i < tail.len() implies #[trigger] tail[i] == (v1 / pow2(
            (i * width) as nat,
        )) % pow2(width) by {
            assert(tail[i] == ws[i + 1]);
            lemma_pow2_pos((i * width) as nat);
            lemma_div_denominator(value as int, pow2(width) as int, pow2((i * width) as nat) as int);
            lemma_pow2_adds(width, (i * width) as nat);
            assert(width + i * width == (i + 1) * width) by (nonlinear_arith);
        }
        lemma_words_value_of_split(tail, v1, width);
        assert(ws[0] == value % pow2(width)) by {
            assert(0 * width == 0) by (nonlinear_arith);
            assert(pow2(0) == 1) by {
                lemma2_to64();
            }
            lemma_div_basics(value as int);
        }
        let l1 = (ws.len() - 1) as nat;
        // value % 2^(len·width) == 2^width·((value/2^width) % 2^(l1·width)) + value % 2^width
        assert(pow2(width) * pow2(l1 * width) == pow2(ws.len() * width)) by {
            lemma_pow2_adds(width, l1 * width);
            assert(width + l1 * width == ws.len() * width) by (nonlinear_arith)
            requires
                l1 == ws.len() - 1,
        ;
        }
        lemma_pow2_pos(l1 * width);
        lemma_mod_breakdown(value as int, pow2(width) as int, pow2(l1 * width) as int);
    }
}

/// Computes `2^width` for widths up to 64.
pub fn pow2_u128(width: usize) -> (r: u128)
    requires
        width <= 64,
    ensures
        r == pow2(width as nat),
{
    let mut r: u128 = 1;
    let mut j: usize = 0;
    proof {
        lemma2_to64();
    }
    while j < width
        invariant
            j <= width,
            r == pow2(j as nat),
        decreases width - j,
    {
        proof {
            lemma_pow2_unfold((j + 1) as nat);
            lemma2_to64();
            lemma_pow2_strictly_increases(j as nat, 64);
        }
        r = r * 2;
        j = j + 1;
    }
    r
}

/// Splits `value` into `count` little-endian words of `width` bits each:
/// word `i` holds exactly the bits of `value` at positions
/// `i·width .. (i+1)·width`, zero-extended.
pub fn split(value: u64, width: usize, count: usize) -> (ws: Vec<u64>)
    requires
        1 <= width <= 64,
    ensures
        ws.len() == count,
        forall|i: int|
            0 <= i < count ==> #[trigger] ws[i]
                == (value as nat / pow2((i * width) as nat)) % pow2(width as nat),
        forall|i: int| 0 <= i < count ==> #[trigger] ws[i] < pow2(width as nat),
        words_value(ws@, width as nat) == (value as nat) % pow2((count * width) as nat),
{
    let base: u128 = pow2_u128(width);
    let mut ws: Vec<u64> = Vec::new();
    let mut cur: u128 = value as u128;
    let mut i: usize = 0;
    proof {
        lemma_pow2_pos(width as nat);
        lemma2_to64();
        assert(pow2(0) == 1);
        assert(value as int / 1 == value as int) by {
            lemma_div_basics(value as int);
        }
    }
    while i < count
        invariant
            i <= count,
            ws.len() == i,
            base == pow2(width as nat),
            cur == value as nat / pow2((i * width) as nat),
            cur <= u64::MAX,
            forall|j: int|
                0 <= j < i ==> #[trigger] ws[j]
                    == (value as nat / pow2((j * width) as nat)) % pow2(width as nat),
            forall|j: int| 0 <= j < i ==> #[trigger] ws[j] < pow2(width as nat),
        decreases count - i,
    {
        proof {
            lemma_pow2_pos(width as nat);
            lemma_pow2_pos((i * width) as nat);
            lemma_mod_division_less_than_divisor(cur as int, base as int);
            lemma_pow2_strictly_increases(width as nat, 65);
            lemma2_to64_rest();
        }
        let w: u64 = (cur % base) as u64;
        proof {
            // cur / base == value / 2^((i+1)·width)
            lemma_div_denominator(
                value as int,
                pow2((i * width) as nat) as int,
                base as int,
            );
            lemma_pow2_adds((i * width) as nat, width as nat);
            assert((i + 1) * width == i * width + width) by (nonlinear_arith);
            lemma_div_is_ordered(
                value as int / pow2((i * width) as nat) as int,
                value as int,
                base as int,
            );
            lemma_div_nonincreasing(value as int, base as int);
        }
        ws.push(w);
        cur = cur / base;
        i = i + 1;
    }
    proof {
        lemma_words_value_of_split(ws@, value as nat, width as nat);
    }
    ws
}

/// Reassembles a little-endian word array into one integer, the inverse of
/// `split`; fails with `Overflow` when the denoted value does not fit the
/// target integer width.
pub fn join(ws: &Vec<u64>, width: usize) -> (r: Result<u64, crate::ArithError>)
    requires
        1 <= width <= 64,
    ensures
        match r {
            Ok(v) => v == words_value(ws@, width as nat),
            Err(e) => e == crate::ArithError::Overflow && words_value(ws@, width as nat)
                > u64::MAX,
        },
{
    let base: u128 = pow2_u128(width);
    proof {
        lemma2_to64();
        if width < 64 {
            lemma_pow2_strictly_increases(width as nat, 64);
        }
    }
    let mut acc: u128 = 0;
    let mut j: usize = ws.len();
    proof {
        assert(ws@.skip(ws@.len() as int) =~= Seq::<u64>::empty());
    }
    while j > 0
        invariant
            j <= ws.len(),
            base == pow2(width as nat),
            base <= pow2(64),
            acc == words_value(ws@.skip(j as int), width as nat),
            acc <= u64::MAX,
        decreases j,
    {
        j = j - 1;
        proof {
            lemma_words_value_skip_step(ws@, width as nat, j as int);
            assert(acc == words_value(ws@.skip(j as int + 1), width as nat));
            assert(words_value(ws@.skip(j as int), width as nat) == ws@[j as int] + pow2(
                width as nat,
            ) * words_value(ws@.skip(j as int + 1), width as nat));
            assert(acc * base + ws@[j as int] <= u128::MAX) by (nonlinear_arith)
                requires
                    acc <= u64::MAX,
                    base <= 0x1_0000_0000_0000_0000,
                    ws@[j as int] <= u64::MAX,
            ;
        }
        let next: u128 = acc * base + (ws[j] as u128);
        proof {
            lemma_mul_is_commutative(acc as int, base as int);
            assert(next == words_value(ws@.skip(j as int), width as nat));
        }
        if next > u64::MAX as u128 {
            proof {
                lemma_words_value_prefix(ws@, width as nat, j as int);
                lemma_pow2_pos((j * width) as nat);
                let sv = words_value(ws@.skip(j as int), width as nat);
                assert(pow2((j * width) as nat) * sv >= sv) by (nonlinear_arith)
                    requires
                        pow2((j * width) as nat) >= 1,
                ;
            }
            return Err(crate::ArithError::Overflow);
        }
        acc = next;
    }
    proof {
        assert(ws@.skip(0) =~= ws@);
    }
    Ok(acc as u64)
}

/// Round-trip law: joining the words that `split` produced gives back the
/// original value whenever that value fits in `count·width` bits.
pub proof fn lemma_split_join_round_trip(ws: Seq<u64>, value: u64, width: nat, count: nat)
    requires
        1 <= width,
        ws.len() == count,
        forall|i: int|
            0 <= i < count ==> #[trigger] ws[i] == (value as nat / pow2((i * width) as nat)) % pow2(
                width,
            ),
        value < pow2(count * width),
    ensures
        words_value(ws, width) == value,
{
    lemma_words_value_of_split(ws, value as nat, width);
    lemma_pow2_pos(count * width);
    lemma_small_mod(value as nat, pow2(count * width));
}

} // verus!
