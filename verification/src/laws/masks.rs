//! How likely the bits of a mask are.
use crate::bits::{lemma_word_consts, lemma_word_ops, word_bit};
use crate::dyadic::lemma_pow2_step;
use crate::rng::{rng_skip, rng_word};
use crate::sampling::mask_word;
use vstd::arithmetic::power2::{lemma_pow2_pos, pow2};
use vstd::prelude::*;

verus! {

/// The number with the given binary digits, the highest first.
pub open spec fn binary_value(digits: Seq<u8>) -> int {
    digits.fold_left(0, |a: int, d: u8| 2 * a + d)
}

/// What the words that are drawn for a mask hold at bit `b`, turned over: one digit per word, from
/// the word that is drawn last to the one that is drawn first.
pub open spec fn drawn_digits(s: u64, n: nat, b: int) -> Seq<u8> {
    Seq::new(
        n,
        |i: int|
            if word_bit(rng_word(rng_skip(s, (n - 1 - i) as nat)), b) {
                0u8
            } else {
                1u8
            },
    )
}

proof fn lemma_first_digit(digits: Seq<u8>)
    requires
        digits.len() >= 1,
    ensures
        binary_value(digits) == digits[0] * pow2((digits.len() - 1) as nat) + binary_value(
            digits.drop_first(),
        ),
    decreases digits.len(),
{
    let step = |a: int, d: u8| 2 * a + d;
    let n = digits.len();
    let rest = digits.drop_first();
    let head = digits.drop_last();
    vstd::arithmetic::power2::lemma2_to64();
    if n == 1 {
        assert(head.fold_left(0, step) == 0);
        assert(rest.fold_left(0, step) == 0);
        assert(digits[0] * 1 == digits[0]);
    } else {
        lemma_first_digit(head);
        assert(head.drop_first() =~= rest.drop_last());
        assert(rest.last() == digits.last());
        let p = pow2((n - 2) as nat) as int;
        lemma_pow2_step((n - 2) as nat);
        assert((n - 2) as nat + 1 == (n - 1) as nat);
        let d = digits[0] as int;
        assert(2 * (d * p) == d * (2 * p)) by (nonlinear_arith);
    }
}

proof fn lemma_value_small(digits: Seq<u8>)
    requires
        forall|i: int| 0 <= i < digits.len() ==> #[trigger] digits[i] <= 1,
    ensures
        0 <= binary_value(digits) < pow2(digits.len()),
    decreases digits.len(),
{
    vstd::arithmetic::power2::lemma2_to64();
    if digits.len() > 0 {
        let rest = digits.drop_first();
        assert forall|i: int| 0 <= i < rest.len() implies #[trigger] rest[i] <= 1 by {
            assert(rest[i] == digits[i + 1]);
        }
        lemma_value_small(rest);
        lemma_first_digit(digits);
        lemma_pow2_step((digits.len() - 1) as nat);
        assert(digits[0] <= 1);
        let p = pow2((digits.len() - 1) as nat) as int;
        assert(digits[0] * p <= p && digits[0] * p >= 0) by (nonlinear_arith)
            requires
                0 <= digits[0] <= 1,
                p > 0,
        ;
    }
}

/// A bit of a mask is set exactly if the binary fraction that was drawn for it lies below the
/// fraction with the given digits. So it is set with the chance that the digits say, and every bit
/// goes by the bits at its own place alone.
pub proof fn lemma_bit_is_drawn_below(s: u64, digits: Seq<u8>, b: int)
    requires
        0 <= b < 64,
        forall|i: int| 0 <= i < digits.len() ==> #[trigger] digits[i] <= 1,
    ensures
        word_bit(mask_word(s, digits), b) <==> binary_value(drawn_digits(s, digits.len(), b))
            < binary_value(digits),
    decreases digits.len(),
{
    let n = digits.len();
    let drawn = drawn_digits(s, n, b);
    if n == 0 {
        lemma_word_consts(b, 0);
        assert(drawn =~= digits);
    } else {
        let rest = digits.drop_first();
        assert forall|i: int| 0 <= i < rest.len() implies #[trigger] rest[i] <= 1 by {
            assert(rest[i] == digits[i + 1]);
        }
        lemma_bit_is_drawn_below(s, rest, b);
        let later = drawn_digits(s, (n - 1) as nat, b);
        assert(drawn.drop_first() =~= later);
        lemma_first_digit(digits);
        lemma_first_digit(drawn);
        lemma_value_small(rest);
        lemma_value_small(later);
        let p = pow2((n - 1) as nat) as int;
        lemma_pow2_pos((n - 1) as nat);
        let word = rng_word(rng_skip(s, (n - 1) as nat));
        let under = mask_word(s, rest);
        lemma_word_ops(word, under, b);
        assert(drawn[0] == if word_bit(word, b) {
            0u8
        } else {
            1u8
        });
        assert(digits[0] <= 1);
        assert(0 * p == 0 && 1 * p == p);
    }
}

} // verus!
