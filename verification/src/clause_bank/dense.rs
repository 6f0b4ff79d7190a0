//! Dense automata: one counter per literal, and the packed set of included literals.
//!
//! A literal is included when its counter reaches `half`. Counters run from 0 to
//! `max_state`; both ends absorb: a counter at `max_state` is not lowered by Type I
//! feedback, and a counter at 0 is not raised by Type II feedback.
use crate::bits::{
    bit_at, byte_of, clear_bit, expand_bits_to_bytes, get_bit, lemma_word_consts, lemma_word_ops,
    lemma_word_zero, set_bit, word_bit, words_needed,
};
use crate::rng::{rng_frac, rng_next, Rng};
use vstd::prelude::*;

verus! {

/// Precision, in bits, of the packed Bernoulli masks.
pub const MASK_BITS: usize = 12;

/// Items from which work is spread over threads whatever their size.
pub const PARALLEL_MIN: usize = 128;

/// Clauses from which exact dense training is spread over threads.
pub const DENSE_TRAIN_PARALLEL_MIN: usize = 4096;

/// Total work (items times words per item) from which work is spread over threads.
pub const PARALLEL_WORK_MIN: usize = 256;

/// Whether work is spread over threads: there are many items, or much work in all.
pub fn use_parallel(items: usize, words_per_item: usize) -> (r: bool)
    ensures
        r == (items >= PARALLEL_MIN || items * words_per_item >= PARALLEL_WORK_MIN),
{
    items >= PARALLEL_MIN || match items.checked_mul(words_per_item) {
        Some(work) => work >= PARALLEL_WORK_MIN,
        None => true,
    }
}

/// No bit of `inc` that is valid and active is missing from `lit`.
pub open spec fn none_missing(
    inc: Seq<u64>,
    lit: Seq<u64>,
    valid: Seq<u64>,
    active: Seq<u64>,
    n: int,
) -> bool {
    forall|l: int|
        0 <= l < n && bit_at(inc, l) && bit_at(valid, l) && bit_at(active, l) ==> #[trigger] bit_at(
            lit,
            l,
        )
}

/// Some bit of `inc` is valid.
pub open spec fn any_included(inc: Seq<u64>, valid: Seq<u64>, n: int) -> bool {
    exists|l: int| 0 <= l < n && #[trigger] bit_at(inc, l) && bit_at(valid, l)
}

proof fn lemma_conflict(inc: u64, valid: u64, active: u64, lit: u64)
    ensures
        (inc & valid & active & !lit == 0) <==> forall|i: int|
            0 <= i < 64 && word_bit(inc, i) && word_bit(valid, i) && word_bit(active, i)
                ==> #[trigger] word_bit(lit, i),
{
    let both = inc & valid & active & !lit;
    lemma_word_zero(both);
    assert forall|i: int|
        #![trigger word_bit(lit, i)]
        #![trigger word_bit(both, i)]
        0 <= i < 64 implies word_bit(both, i) == (word_bit(inc, i) && word_bit(valid, i) && word_bit(
        active,
        i,
    ) && !word_bit(lit, i)) by {
        lemma_word_ops(inc, valid, i);
        lemma_word_ops(inc & valid, active, i);
        lemma_word_ops(inc & valid & active, !lit, i);
        lemma_word_ops(lit, 0, i);
    }
}

/// Whether a clause fires for inference: it includes some literal, and every included
/// literal is present.
pub fn fire_predict(inc: &[u64], lit: &[u64], valid: &[u64], words: usize) -> (r: bool)
    requires
        words <= inc@.len(),
        words <= lit@.len(),
        words <= valid@.len(),
    ensures
        r == (any_included(inc@, valid@, 64 * words) && none_missing(
            inc@,
            lit@,
            valid@,
            valid@,
            64 * words,
        )),
{
    let mut violation: u64 = 0;
    let mut included: u64 = 0;
    let mut k: usize = 0;
    while k < words
        invariant
            k <= words,
            words <= inc@.len(),
            words <= lit@.len(),
            words <= valid@.len(),
            (violation == 0) == none_missing(inc@, lit@, valid@, valid@, 64 * k),
            (included != 0) == any_included(inc@, valid@, 64 * k),
        decreases words - k,
    {
        let inc_k: u64 = inc[k] & valid[k];
        let v1: u64 = inc_k & !lit[k];
        proof {
            let a = inc@[k as int];
            let b = valid@[k as int];
            let c = lit@[k as int];
            assert(a & b & b & !c == (a & b) & !c) by (bit_vector);
            assert((violation | v1) == 0 <==> violation == 0 && v1 == 0) by (bit_vector);
            assert((included | inc_k) == 0 <==> included == 0 && inc_k == 0) by (bit_vector);
            lemma_conflict(a, b, b, c);
            lemma_word_zero(inc_k);
            lemma_word_missing(inc@, lit@, valid@, valid@, k as int);
            if inc_k != 0 {
                let i = choose|i: int| 0 <= i < 64 && word_bit(inc_k, i);
                lemma_word_ops(a, b, i);
                let l = 64 * k + i;
                assert(l / 64 == k && l % 64 == i);
                assert(bit_at(inc@, l) && bit_at(valid@, l));
                assert(any_included(inc@, valid@, 64 * (k + 1)));
            } else if any_included(inc@, valid@, 64 * (k + 1)) {
                let l = choose|l: int|
                    0 <= l < 64 * (k + 1) && #[trigger] bit_at(inc@, l) && bit_at(valid@, l);
                if l >= 64 * k {
                    assert(l / 64 == k);
                    lemma_word_ops(a, b, l % 64);
                    assert(word_bit(inc_k, l % 64));
                }
            }
            if any_included(inc@, valid@, 64 * k as int) {
                let l = choose|l: int|
                    0 <= l < 64 * k && #[trigger] bit_at(inc@, l) && bit_at(valid@, l);
                assert(bit_at(inc@, l) && bit_at(valid@, l));
            }
        }
        violation = violation | v1;
        included = included | inc_k;
        k = k + 1;
    }
    violation == 0 && included != 0
}

/// What one more word adds to `none_missing`.
proof fn lemma_word_missing(inc: Seq<u64>, lit: Seq<u64>, valid: Seq<u64>, active: Seq<u64>, k: int)
    requires
        0 <= k,
    ensures
        none_missing(inc, lit, valid, active, 64 * (k + 1)) == (none_missing(
            inc,
            lit,
            valid,
            active,
            64 * k,
        ) && forall|i: int|
            0 <= i < 64 && word_bit(inc[k], i) && word_bit(valid[k], i) && word_bit(active[k], i)
                ==> word_bit(lit[k], i)),
{
    let more = none_missing(inc, lit, valid, active, 64 * (k + 1));
    if more {
        assert forall|i: int|
            0 <= i < 64 && word_bit(inc[k], i) && word_bit(valid[k], i) && word_bit(active[k], i) implies word_bit(lit[k], i) by {
            let l = 64 * k + i;
            assert(l / 64 == k && l % 64 == i);
            assert(bit_at(lit, l));
        }
        assert forall|l: int|
            0 <= l < 64 * k && bit_at(inc, l) && bit_at(valid, l) && bit_at(active, l) implies #[trigger] bit_at(
            lit,
            l,
        ) by {}
    } else {
        let l = choose|l: int|
            0 <= l < 64 * (k + 1) && bit_at(inc, l) && bit_at(valid, l) && bit_at(active, l)
                && !#[trigger] bit_at(lit, l);
        if l >= 64 * k {
            assert(l / 64 == k);
            assert(!word_bit(lit[k], l % 64));
        }
    }
}

/// Whether a clause fires in training: every included literal that is active is present.
/// A clause without included literals fires.
pub fn clause_fire(
    inc: &[u64],
    lit: &[u64],
    valid: &[u64],
    words: usize,
    lit_active: &[u64],
) -> (r: bool)
    requires
        words <= inc@.len(),
        words <= lit@.len(),
        words <= valid@.len(),
        words <= lit_active@.len(),
    ensures
        r == none_missing(inc@, lit@, valid@, lit_active@, 64 * words),
{
    let mut violation: u64 = 0;
    let mut k: usize = 0;
    while k < words
        invariant
            k <= words,
            words <= inc@.len(),
            words <= lit@.len(),
            words <= valid@.len(),
            words <= lit_active@.len(),
            (violation == 0) == none_missing(inc@, lit@, valid@, lit_active@, 64 * k),
        decreases words - k,
    {
        let v1: u64 = inc[k] & valid[k] & lit_active[k] & !lit[k];
        proof {
            assert((violation | v1) == 0 <==> violation == 0 && v1 == 0) by (bit_vector);
            lemma_conflict(inc@[k as int], valid@[k as int], lit_active@[k as int], lit@[k as int]);
            lemma_word_missing(inc@, lit@, valid@, lit_active@, k as int);
        }
        violation = violation | v1;
        k = k + 1;
    }
    violation == 0
}

/// Bit `b` stops the clause from firing, and is the first to do so.
pub open spec fn is_first_missing(
    inc: Seq<u64>,
    lit: Seq<u64>,
    valid: Seq<u64>,
    active: Seq<u64>,
    b: int,
) -> bool {
    &&& bit_at(inc, b) && bit_at(valid, b) && bit_at(active, b) && !bit_at(lit, b)
    &&& none_missing(inc, lit, valid, active, b)
}

/// The first included, valid and active literal that is absent from the sample: none exactly
/// where `clause_fire` holds.
pub fn first_false_literal(
    inc: &[u64],
    lit: &[u64],
    valid: &[u64],
    lit_active: &[u64],
    words: usize,
) -> (r: Option<usize>)
    requires
        words <= inc@.len(),
        words <= lit@.len(),
        words <= valid@.len(),
        words <= lit_active@.len(),
        64 * words <= usize::MAX,
    ensures
        (r is None) == none_missing(inc@, lit@, valid@, lit_active@, 64 * words),
        r matches Some(b) ==> b < 64 * words && is_first_missing(
            inc@,
            lit@,
            valid@,
            lit_active@,
            b as int,
        ),
{
    let mut k: usize = 0;
    while k < words
        invariant
            k <= words,
            words <= inc@.len(),
            words <= lit@.len(),
            words <= valid@.len(),
            words <= lit_active@.len(),
            64 * words <= usize::MAX,
            none_missing(inc@, lit@, valid@, lit_active@, 64 * k),
        decreases words - k,
    {
        let blocking: u64 = inc[k] & valid[k] & lit_active[k] & !lit[k];
        proof {
            lemma_conflict(inc@[k as int], valid@[k as int], lit_active@[k as int], lit@[k as int]);
            lemma_word_missing(inc@, lit@, valid@, lit_active@, k as int);
        }
        if blocking != 0 {
            let z: u32 = blocking.trailing_zeros();
            proof {
                vstd::std_specs::bits::axiom_u64_trailing_zeros(blocking);
                let a = inc@[k as int];
                let v = valid@[k as int];
                let c = lit_active@[k as int];
                let d = lit@[k as int];
                assert forall|i: int| 0 <= i < 64 implies word_bit(blocking, i) == (word_bit(a, i)
                    && word_bit(v, i) && word_bit(c, i) && !word_bit(d, i)) by {
                    lemma_word_ops(a, v, i);
                    lemma_word_ops(a & v, c, i);
                    lemma_word_ops(a & v & c, !d, i);
                    lemma_word_ops(d, 0, i);
                }
                let b = 64 * k + z;
                assert(b / 64 == k && b % 64 == z);
                assert(word_bit(blocking, z as int));
                assert forall|l: int|
                    0 <= l < b && bit_at(inc@, l) && bit_at(valid@, l) && bit_at(lit_active@, l) implies #[trigger] bit_at(
                    lit@,
                    l,
                ) by {
                    if l >= 64 * k {
                        let i = (l % 64) as u64;
                        assert(l / 64 == k);
                        assert((blocking >> i) & 1u64 == 0u64);
                        assert(!word_bit(blocking, i as int));
                    }
                }
                assert(!none_missing(inc@, lit@, valid@, lit_active@, 64 * words)) by {
                    assert(!bit_at(lit@, b));
                }
            }
            return Some(k * 64 + z as usize);
        }
        k = k + 1;
    }
    None
}

/// `inc` holds the valid literals whose counter reaches `half`.
pub open spec fn includes(inc: Seq<u64>, ta: Seq<u8>, valid: Seq<u64>, half: u8) -> bool {
    forall|l: int|
        0 <= l < 64 * inc.len() ==> #[trigger] bit_at(inc, l) == (l < ta.len() && ta[l] >= half
            && bit_at(valid, l))
}

/// Recomputes the included set from the counters. Words of `inc` beyond `words` are left alone.
pub fn rebuild_include(
    ta: &[u8],
    inc: &mut [u64],
    valid: &[u64],
    words: usize,
    n_literals: usize,
    half: u8,
)
    requires
        n_literals <= ta@.len(),
        words == words_needed(n_literals as int),
        words <= old(inc)@.len(),
        words <= valid@.len(),
    ensures
        final(inc)@.len() == old(inc)@.len(),
        forall|l: int|
            0 <= l < 64 * words ==> #[trigger] bit_at(final(inc)@, l) == (l < n_literals && ta@[l]
                >= half && bit_at(valid@, l)),
        forall|k: int|
            words <= k < old(inc)@.len() ==> #[trigger] final(inc)@[k] == old(inc)@[k],
{
    let ghost old_inc = inc@;
    let mut k: usize = 0;
    while k < words
        invariant
            k <= words,
            n_literals <= ta@.len(),
            words == words_needed(n_literals as int),
            inc@.len() == old_inc.len(),
            words <= inc@.len(),
            words <= valid@.len(),
            forall|j: int| k <= j < old_inc.len() ==> #[trigger] inc@[j] == old_inc[j],
            forall|l: int|
                0 <= l < 64 * k ==> #[trigger] bit_at(inc@, l) == (l < n_literals && ta@[l] >= half
                    && bit_at(valid@, l)),
        decreases words - k,
    {
        let base: usize = k * 64;
        let left: usize = n_literals - base;
        let limit: usize = if left < 64 {
            left
        } else {
            64
        };
        let mut word: u64 = 0;
        let mut bit: usize = 0;
        proof {
            assert forall|i: int| 0 <= i < 64 implies !#[trigger] word_bit(0, i) by {
                lemma_word_consts(i, 0);
            }
        }
        while bit < limit
            invariant
                bit <= limit <= 64,
                base + limit <= n_literals,
                n_literals <= ta@.len(),
                forall|i: int|
                    0 <= i < 64 ==> #[trigger] word_bit(word, i) == (i < bit && ta@[base + i]
                        >= half),
            decreases limit - bit,
        {
            if ta[base + bit] >= half {
                let one: u64 = 1u64 << (bit as u64);
                proof {
                    assert forall|i: int| 0 <= i < 64 implies #[trigger] word_bit(word | one, i) == (i
                        < bit + 1 && ta@[base + i] >= half) by {
                        lemma_word_consts(i, bit as u64);
                        lemma_word_ops(word, one, i);
                    }
                }
                word = word | one;
            }
            bit = bit + 1;
        }
        let ghost before = inc@;
        inc[k] = word & valid[k];
        proof {
            assert forall|l: int| 0 <= l < 64 * (k + 1) implies #[trigger] bit_at(inc@, l) == (l
                < n_literals && ta@[l] >= half && bit_at(valid@, l)) by {
                if l >= 64 * k {
                    assert(l / 64 == k);
                    lemma_word_ops(word, valid@[k as int], l % 64);
                    assert(base + l % 64 == l);
                } else {
                    assert(bit_at(before, l) == bit_at(inc@, l));
                }
            }
        }
        k = k + 1;
    }
}

/// How many of the first `n` bits are set both in `inc` and in `valid`.
pub open spec fn count_common(inc: Seq<u64>, valid: Seq<u64>, n: nat) -> nat
    decreases n,
{
    if n == 0 {
        0
    } else {
        count_common(inc, valid, (n - 1) as nat) + if bit_at(inc, n - 1) && bit_at(valid, n - 1) {
            1nat
        } else {
            0
        }
    }
}

/// How many of the first `n` counters reach `half`.
pub open spec fn count_included(ta: Seq<u8>, half: u8, n: nat) -> nat
    decreases n,
{
    if n == 0 {
        0
    } else {
        count_included(ta, half, (n - 1) as nat) + if ta[n - 1] >= half {
            1nat
        } else {
            0
        }
    }
}

/// The included set has as many elements as there are counters that reach `half`.
pub proof fn lemma_count(inc: Seq<u64>, ta: Seq<u8>, valid: Seq<u64>, half: u8, n: nat)
    requires
        includes(inc, ta, valid, half),
        forall|l: int| 0 <= l < ta.len() ==> #[trigger] bit_at(valid, l),
        n <= 64 * inc.len(),
        ta.len() <= 64 * inc.len(),
    ensures
        count_common(inc, valid, n) == count_included(
            ta,
            half,
            if n <= ta.len() {
                n
            } else {
                ta.len()
            },
        ),
    decreases n,
{
    if n > 0 {
        lemma_count(inc, ta, valid, half, (n - 1) as nat);
        assert(bit_at(inc, n - 1) == (n - 1 < ta.len() && ta[n - 1] >= half && bit_at(valid, n - 1)));
        if n - 1 < ta.len() {
            assert(bit_at(valid, n - 1));
        }
    }
}

/// Whether a clause may still include more literals: there is no limit, or the included
/// set is smaller than the limit.
pub fn under_include_limit(inc: &[u64], valid: &[u64], words: usize, max_included: usize) -> (r: bool)
    requires
        words <= inc@.len(),
        words <= valid@.len(),
    ensures
        r == (max_included == usize::MAX || count_common(inc@, valid@, (64 * words) as nat)
            < max_included),
{
    if max_included == usize::MAX {
        return true;
    }
    let mut n: u128 = 0;
    let mut k: usize = 0;
    while k < words
        invariant
            k <= words,
            words <= inc@.len(),
            words <= valid@.len(),
            n == count_common(inc@, valid@, (64 * k) as nat),
            n <= 64 * k,
        decreases words - k,
    {
        let mut b: usize = 0;
        let w: u64 = inc[k] & valid[k];
        while b < 64
            invariant
                k < words,
                b <= 64,
                w == inc@[k as int] & valid@[k as int],
                n == count_common(inc@, valid@, (64 * k + b) as nat),
                n <= 64 * k + b,
            decreases 64 - b,
        {
            proof {
                let l = 64 * k + b;
                assert(l / 64 == k && l % 64 == b);
                lemma_word_ops(inc@[k as int], valid@[k as int], b as int);
            }
            if (w >> (b as u64)) & 1 == 1 {
                n = n + 1;
            }
            b = b + 1;
        }
        k = k + 1;
    }
    n < max_included as u128
}

/// A counter after Type I feedback. In a clause that fires and may still grow, a present
/// literal is rewarded (always with `boost`, else where `keep`). In every clause an absent
/// literal is penalised where `inv`, unless its counter is at `max`.
pub open spec fn type_i_counter(
    t: u8,
    fired: bool,
    boost: bool,
    lit: bool,
    inv: bool,
    keep: bool,
    active: bool,
    max: u8,
) -> u8 {
    if fired && lit {
        let up = if active && (boost || keep) {
            t + 1
        } else {
            t as int
        };
        if up > max {
            max
        } else {
            up as u8
        }
    } else {
        let base = if fired && t > max {
            max
        } else {
            t
        };
        if active && !lit && inv && t < max && t > 0 {
            (base - 1) as u8
        } else {
            base
        }
    }
}

/// Applies Type I feedback to the counters of a clause. With `fired_under` present literals are
/// rewarded and absent ones penalised; without, absent ones are penalised and present ones are
/// left alone.
pub fn type_i_update_bytes(
    ta: &mut [u8],
    n_literals: usize,
    fired_under: bool,
    boost: bool,
    lit_b: &[u8],
    inv_b: &[u8],
    keep_b: &[u8],
    active_b: &[u8],
    max_state: u8,
)
    requires
        n_literals <= old(ta)@.len(),
        n_literals <= lit_b@.len(),
        n_literals <= inv_b@.len(),
        n_literals <= keep_b@.len(),
        n_literals <= active_b@.len(),
        forall|l: int| 0 <= l < n_literals ==> #[trigger] lit_b@[l] <= 1,
    ensures
        final(ta)@.len() == old(ta)@.len(),
        forall|l: int|
            0 <= l < n_literals ==> #[trigger] final(ta)@[l] == type_i_counter(
                old(ta)@[l],
                fired_under,
                boost,
                lit_b@[l] == 1,
                inv_b@[l] == 1,
                keep_b@[l] == 1,
                active_b@[l] == 1,
                max_state,
            ),
        forall|l: int|
            n_literals <= l < old(ta)@.len() ==> #[trigger] final(ta)@[l] == old(ta)@[l],
{
    let ghost before = ta@;
    let mut l: usize = 0;
    while l < n_literals
        invariant
            l <= n_literals,
            ta@.len() == before.len(),
            n_literals <= before.len(),
            n_literals <= lit_b@.len(),
            n_literals <= inv_b@.len(),
            n_literals <= keep_b@.len(),
            n_literals <= active_b@.len(),
            forall|i: int| 0 <= i < n_literals ==> #[trigger] lit_b@[i] <= 1,
            forall|i: int|
                0 <= i < l ==> #[trigger] ta@[i] == type_i_counter(
                    before[i],
                    fired_under,
                    boost,
                    lit_b@[i] == 1,
                    inv_b@[i] == 1,
                    keep_b@[i] == 1,
                    active_b@[i] == 1,
                    max_state,
                ),
            forall|i: int| l <= i < before.len() ==> #[trigger] ta@[i] == before[i],
        decreases n_literals - l,
    {
        let t: u8 = ta[l];
        let active: bool = active_b[l] == 1;
        if fired_under && lit_b[l] == 1 {
            let up: u8 = if active && (boost || keep_b[l] == 1) && t < 255 {
                t + 1
            } else {
                t
            };
            ta[l] = if up > max_state {
                max_state
            } else {
                up
            };
        } else {
            let base: u8 = if fired_under && t > max_state {
                max_state
            } else {
                t
            };
            ta[l] = if active && lit_b[l] == 0 && inv_b[l] == 1 && t < max_state && t > 0 {
                base - 1
            } else {
                base
            };
        }
        l = l + 1;
    }
}

/// A counter after Type II feedback: an absent, active literal that is not included moves
/// towards inclusion, unless its counter is at 0.
pub open spec fn type_ii_counter(t: u8, lit: bool, active: bool, half: u8, max: u8) -> u8 {
    let up = if !lit && active && 0 < t < half {
        t + 1
    } else {
        t as int
    };
    if up > max {
        max
    } else {
        up as u8
    }
}

/// Applies Type II feedback to the counters of a clause.
pub fn type_ii_update_bytes(
    ta: &mut [u8],
    n_literals: usize,
    lit_b: &[u8],
    active_b: &[u8],
    half: u8,
    max_state: u8,
)
    requires
        n_literals <= old(ta)@.len(),
        n_literals <= lit_b@.len(),
        n_literals <= active_b@.len(),
        forall|l: int| 0 <= l < n_literals ==> #[trigger] lit_b@[l] <= 1,
    ensures
        final(ta)@.len() == old(ta)@.len(),
        forall|l: int|
            0 <= l < n_literals ==> #[trigger] final(ta)@[l] == type_ii_counter(
                old(ta)@[l],
                lit_b@[l] == 1,
                active_b@[l] == 1,
                half,
                max_state,
            ),
        forall|l: int|
            n_literals <= l < old(ta)@.len() ==> #[trigger] final(ta)@[l] == old(ta)@[l],
{
    let ghost before = ta@;
    let mut l: usize = 0;
    while l < n_literals
        invariant
            l <= n_literals,
            ta@.len() == before.len(),
            n_literals <= before.len(),
            n_literals <= lit_b@.len(),
            n_literals <= active_b@.len(),
            forall|i: int| 0 <= i < n_literals ==> #[trigger] lit_b@[i] <= 1,
            forall|i: int|
                0 <= i < l ==> #[trigger] ta@[i] == type_ii_counter(
                    before[i],
                    lit_b@[i] == 1,
                    active_b@[i] == 1,
                    half,
                    max_state,
                ),
            forall|i: int| l <= i < before.len() ==> #[trigger] ta@[i] == before[i],
        decreases n_literals - l,
    {
        let t: u8 = ta[l];
        let up: u8 = if lit_b[l] != 1 && active_b[l] == 1 && t < half && t > 0 {
            t + 1
        } else {
            t
        };
        ta[l] = if up > max_state {
            max_state
        } else {
            up
        };
        l = l + 1;
    }
}

/// An indicator after Type III feedback on a clause that fires: a present, active literal
/// gains where it is in `cat` (and `do_inc`), and loses where it is not.
pub open spec fn type_iii_indicator(
    i: u8,
    cat: bool,
    lit: bool,
    active: bool,
    valid: bool,
    do_inc: bool,
    max: u8,
) -> u8 {
    let up = if do_inc && active && cat && lit {
        i + 1
    } else {
        i as int
    };
    let capped = if up > max {
        max
    } else {
        up as u8
    };
    if active && !cat && lit && valid && capped > 0 {
        (capped - 1) as u8
    } else {
        capped
    }
}

/// A counter after the Type III decrement: it drops where the literal is active and its
/// indicator is below `half`.
pub open spec fn type_iii_counter(t: u8, ind: u8, active: bool, half: u8) -> u8 {
    if active && ind < half && t > 0 {
        (t - 1) as u8
    } else {
        t
    }
}

/// Updates the indicators of a clause that fires.
pub fn type_iii_ind_words(
    ind: &mut [u8],
    n_literals: usize,
    lit_active: &[u64],
    cat: &[u64],
    lit: &[u64],
    valid: &[u64],
    do_inc: bool,
    max_ind: u8,
)
    requires
        n_literals <= old(ind)@.len(),
        n_literals <= 64 * lit_active@.len(),
        n_literals <= 64 * cat@.len(),
        n_literals <= 64 * lit@.len(),
        n_literals <= 64 * valid@.len(),
    ensures
        final(ind)@.len() == old(ind)@.len(),
        forall|l: int|
            0 <= l < n_literals ==> #[trigger] final(ind)@[l] == type_iii_indicator(
                old(ind)@[l],
                bit_at(cat@, l),
                bit_at(lit@, l),
                bit_at(lit_active@, l),
                bit_at(valid@, l),
                do_inc,
                max_ind,
            ),
        forall|l: int|
            n_literals <= l < old(ind)@.len() ==> #[trigger] final(ind)@[l] == old(ind)@[l],
{
    let ghost before = ind@;
    let mut l: usize = 0;
    while l < n_literals
        invariant
            l <= n_literals,
            n_literals <= before.len(),
            ind@.len() == before.len(),
            n_literals <= 64 * lit_active@.len(),
            n_literals <= 64 * cat@.len(),
            n_literals <= 64 * lit@.len(),
            n_literals <= 64 * valid@.len(),
            forall|i: int|
                0 <= i < l ==> #[trigger] ind@[i] == type_iii_indicator(
                    before[i],
                    bit_at(cat@, i),
                    bit_at(lit@, i),
                    bit_at(lit_active@, i),
                    bit_at(valid@, i),
                    do_inc,
                    max_ind,
                ),
            forall|i: int| l <= i < before.len() ==> #[trigger] ind@[i] == before[i],
        decreases n_literals - l,
    {
        let present: bool = get_bit(lit_active, l) && get_bit(lit, l);
        let held: bool = get_bit(cat, l);
        let i: u8 = ind[l];
        let up: u8 = if do_inc && present && held && i < 255 {
            i + 1
        } else {
            i
        };
        let capped: u8 = if up > max_ind {
            max_ind
        } else {
            up
        };
        ind[l] = if present && !held && get_bit(valid, l) && capped > 0 {
            capped - 1
        } else {
            capped
        };
        l = l + 1;
    }
}

/// Lowers the counter of every active literal whose indicator is below `half_ind`.
pub fn type_iii_ta_dec_bytes(
    ta: &mut [u8],
    ind: &[u8],
    n_literals: usize,
    active_b: &[u8],
    half_ind: u8,
)
    requires
        n_literals <= old(ta)@.len(),
        n_literals <= ind@.len(),
        n_literals <= active_b@.len(),
    ensures
        final(ta)@.len() == old(ta)@.len(),
        forall|l: int|
            0 <= l < n_literals ==> #[trigger] final(ta)@[l] == type_iii_counter(
                old(ta)@[l],
                ind@[l],
                active_b@[l] == 1,
                half_ind,
            ),
        forall|l: int|
            n_literals <= l < old(ta)@.len() ==> #[trigger] final(ta)@[l] == old(ta)@[l],
{
    let ghost before = ta@;
    let mut l: usize = 0;
    while l < n_literals
        invariant
            l <= n_literals,
            n_literals <= before.len(),
            ta@.len() == before.len(),
            n_literals <= ind@.len(),
            n_literals <= active_b@.len(),
            forall|i: int|
                0 <= i < l ==> #[trigger] ta@[i] == type_iii_counter(
                    before[i],
                    ind@[i],
                    active_b@[i] == 1,
                    half_ind,
                ),
            forall|i: int| l <= i < before.len() ==> #[trigger] ta@[i] == before[i],
        decreases n_literals - l,
    {
        let t: u8 = ta[l];
        if active_b[l] == 1 && ind[l] < half_ind && t > 0 {
            ta[l] = t - 1;
        }
        l = l + 1;
    }
}

/// Updates the indicators of a clause that fires and lowers its counters by the new
/// indicators, in one pass.
pub fn type_iii_ind_words_and_ta_dec(
    ta: &mut [u8],
    ind: &mut [u8],
    n_literals: usize,
    lit_active: &[u64],
    cat: &[u64],
    lit: &[u64],
    valid: &[u64],
    active_b: &[u8],
    do_inc: bool,
    max_ind: u8,
    half_ind: u8,
)
    requires
        n_literals <= old(ta)@.len(),
        n_literals <= old(ind)@.len(),
        n_literals <= 64 * lit_active@.len(),
        n_literals <= 64 * cat@.len(),
        n_literals <= 64 * lit@.len(),
        n_literals <= 64 * valid@.len(),
        n_literals <= active_b@.len(),
    ensures
        final(ta)@.len() == old(ta)@.len(),
        final(ind)@.len() == old(ind)@.len(),
        forall|l: int|
            0 <= l < n_literals ==> #[trigger] final(ind)@[l] == type_iii_indicator(
                old(ind)@[l],
                bit_at(cat@, l),
                bit_at(lit@, l),
                bit_at(lit_active@, l),
                bit_at(valid@, l),
                do_inc,
                max_ind,
            ),
        forall|l: int|
            0 <= l < n_literals ==> #[trigger] final(ta)@[l] == type_iii_counter(
                old(ta)@[l],
                final(ind)@[l],
                active_b@[l] == 1,
                half_ind,
            ),
        forall|l: int|
            n_literals <= l < old(ind)@.len() ==> #[trigger] final(ind)@[l] == old(ind)@[l],
        forall|l: int|
            n_literals <= l < old(ta)@.len() ==> #[trigger] final(ta)@[l] == old(ta)@[l],
{
    let ghost before_ta = ta@;
    let ghost before = ind@;
    let mut l: usize = 0;
    while l < n_literals
        invariant
            l <= n_literals,
            n_literals <= before.len(),
            n_literals <= before_ta.len(),
            ta@.len() == before_ta.len(),
            ind@.len() == before.len(),
            n_literals <= 64 * lit_active@.len(),
            n_literals <= 64 * cat@.len(),
            n_literals <= 64 * lit@.len(),
            n_literals <= 64 * valid@.len(),
            n_literals <= active_b@.len(),
            forall|i: int|
                0 <= i < l ==> #[trigger] ind@[i] == type_iii_indicator(
                    before[i],
                    bit_at(cat@, i),
                    bit_at(lit@, i),
                    bit_at(lit_active@, i),
                    bit_at(valid@, i),
                    do_inc,
                    max_ind,
                ),
            forall|i: int|
                0 <= i < l ==> #[trigger] ta@[i] == type_iii_counter(
                    before_ta[i],
                    ind@[i],
                    active_b@[i] == 1,
                    half_ind,
                ),
            forall|i: int| l <= i < before.len() ==> #[trigger] ind@[i] == before[i],
            forall|i: int| l <= i < before_ta.len() ==> #[trigger] ta@[i] == before_ta[i],
        decreases n_literals - l,
    {
        let present: bool = get_bit(lit_active, l) && get_bit(lit, l);
        let held: bool = get_bit(cat, l);
        let i: u8 = ind[l];
        let up: u8 = if do_inc && present && held && i < 255 {
            i + 1
        } else {
            i
        };
        let capped: u8 = if up > max_ind {
            max_ind
        } else {
            up
        };
        let next: u8 = if present && !held && get_bit(valid, l) && capped > 0 {
            capped - 1
        } else {
            capped
        };
        ind[l] = next;
        let t: u8 = ta[l];
        if active_b[l] == 1 && next < half_ind && t > 0 {
            ta[l] = t - 1;
        }
        l = l + 1;
    }
}

/// Applies Type I feedback to one clause, with its weight and included set. The weight
/// grows, up to `wmax`, where the clause fires and may still include more literals.
pub fn clause_type_i_bytes(
    ta: &mut [u8],
    inc: &mut [u64],
    weight: &mut i32,
    lit: &[u64],
    valid: &[u64],
    words: usize,
    n_literals: usize,
    boost: bool,
    inv_mask: &[u64],
    keep_mask: &[u64],
    wmax: i32,
    max_included: usize,
    lit_active: &[u64],
    half: u8,
    max_state: u8,
)
    requires
        n_literals <= old(ta)@.len(),
        words == words_needed(n_literals as int),
        words <= old(inc)@.len(),
        words <= lit@.len(),
        words <= valid@.len(),
        words <= inv_mask@.len(),
        words <= keep_mask@.len(),
        words <= lit_active@.len(),
    ensures
        ({
            let fired = none_missing(old(inc)@, lit@, valid@, lit_active@, 64 * words) && (
            max_included == usize::MAX || count_common(old(inc)@, valid@, (64 * words) as nat)
                < max_included);
            &&& final(ta)@.len() == old(ta)@.len()
            &&& forall|l: int|
                n_literals <= l < old(ta)@.len() ==> #[trigger] final(ta)@[l] == old(ta)@[l]
            &&& forall|l: int|
                0 <= l < n_literals ==> #[trigger] final(ta)@[l] == type_i_counter(
                    old(ta)@[l],
                    fired,
                    boost,
                    bit_at(lit@, l),
                    bit_at(inv_mask@, l),
                    bit_at(keep_mask@, l),
                    bit_at(valid@, l) && bit_at(lit_active@, l),
                    max_state,
                )
            &&& *final(weight) == if !fired {
                *old(weight)
            } else if *old(weight) < wmax {
                (*old(weight) + 1) as i32
            } else {
                wmax
            }
            &&& final(inc)@.len() == old(inc)@.len()
            &&& forall|l: int|
                0 <= l < 64 * words ==> #[trigger] bit_at(final(inc)@, l) == (l < n_literals
                    && final(ta)@[l] >= half && bit_at(valid@, l))
            &&& forall|k: int|
                words <= k < old(inc)@.len() ==> #[trigger] final(inc)@[k] == old(inc)@[k]
        }),
{
    let fired: bool = clause_fire(inc, lit, valid, words, lit_active) && under_include_limit(
        inc,
        valid,
        words,
        max_included,
    );
    let lit_b: Vec<u8> = expand_bits_to_bytes(lit, n_literals);
    let inv_b: Vec<u8> = expand_bits_to_bytes(inv_mask, n_literals);
    let keep_b: Vec<u8> = expand_bits_to_bytes(keep_mask, n_literals);
    let active_b: Vec<u8> = active_bytes(valid, lit_active, n_literals);
    if fired {
        *weight = if *weight < wmax {
            *weight + 1
        } else {
            wmax
        };
    }
    type_i_update_bytes(
        ta,
        n_literals,
        fired,
        boost,
        &lit_b,
        &inv_b,
        &keep_b,
        &active_b,
        max_state,
    );
    rebuild_include(ta, inc, valid, words, n_literals, half);
}

/// The bits that are set in both arrays, one per byte.
fn active_bytes(valid: &[u64], lit_active: &[u64], n: usize) -> (r: Vec<u8>)
    requires
        n <= 64 * valid@.len(),
        n <= 64 * lit_active@.len(),
    ensures
        r@.len() == n,
        forall|l: int|
            0 <= l < n ==> #[trigger] r@[l] == byte_of(bit_at(valid@, l) && bit_at(lit_active@, l)),
{
    let mut r: Vec<u8> = Vec::with_capacity(n);
    let mut l: usize = 0;
    while l < n
        invariant
            l <= n,
            n <= 64 * valid@.len(),
            n <= 64 * lit_active@.len(),
            r@.len() == l,
            forall|i: int|
                0 <= i < l ==> #[trigger] r@[i] == byte_of(
                    bit_at(valid@, i) && bit_at(lit_active@, i),
                ),
        decreases n - l,
    {
        r.push(if get_bit(valid, l) && get_bit(lit_active, l) {
            1
        } else {
            0
        });
        l = l + 1;
    }
    r
}

/// Applies Type II feedback to one clause, with its weight and included set. A clause that
/// does not fire is left alone; the weight of one that does drops, down to 1.
pub fn clause_type_ii_bytes(
    ta: &mut [u8],
    inc: &mut [u64],
    weight: &mut i32,
    lit: &[u64],
    valid: &[u64],
    words: usize,
    n_literals: usize,
    lit_active: &[u64],
    half: u8,
    max_state: u8,
)
    requires
        n_literals <= old(ta)@.len(),
        words == words_needed(n_literals as int),
        words <= old(inc)@.len(),
        words <= lit@.len(),
        words <= valid@.len(),
        words <= lit_active@.len(),
    ensures
        ({
            let fired = none_missing(old(inc)@, lit@, valid@, lit_active@, 64 * words);
            &&& !fired ==> final(ta)@ == old(ta)@ && final(inc)@ == old(inc)@ && *final(weight)
                == *old(weight)
            &&& fired ==> {
                &&& final(ta)@.len() == old(ta)@.len()
                &&& forall|l: int|
                    n_literals <= l < old(ta)@.len() ==> #[trigger] final(ta)@[l] == old(ta)@[l]
                &&& forall|l: int|
                    0 <= l < n_literals ==> #[trigger] final(ta)@[l] == type_ii_counter(
                        old(ta)@[l],
                        bit_at(lit@, l),
                        bit_at(valid@, l) && bit_at(lit_active@, l),
                        half,
                        max_state,
                    )
                &&& *final(weight) == if *old(weight) > 1 {
                    (*old(weight) - 1) as i32
                } else {
                    1
                }
                &&& final(inc)@.len() == old(inc)@.len()
                &&& forall|l: int|
                    0 <= l < 64 * words ==> #[trigger] bit_at(final(inc)@, l) == (l < n_literals
                        && final(ta)@[l] >= half && bit_at(valid@, l))
                &&& forall|k: int|
                    words <= k < old(inc)@.len() ==> #[trigger] final(inc)@[k] == old(inc)@[k]
            }
        }),
{
    if !clause_fire(inc, lit, valid, words, lit_active) {
        return ;
    }
    *weight = if *weight > 1 {
        *weight - 1
    } else {
        1
    };
    let lit_b: Vec<u8> = expand_bits_to_bytes(lit, n_literals);
    let active_b: Vec<u8> = active_bytes(valid, lit_active, n_literals);
    type_ii_update_bytes(ta, n_literals, &lit_b, &active_b, half, max_state);
    rebuild_include(ta, inc, valid, words, n_literals, half);
}

/// A bit of the target record `cat` after Type III feedback on a clause that does not fire:
/// the first missing literal is recorded, or forgotten if it was and the sample is a target.
pub open spec fn recorded(cat: bool, target: bool) -> bool {
    !cat || !target
}

/// Applies Type III feedback to one clause and says whether its counters may have changed;
/// the caller then rebuilds the included set.
///
/// A clause that fires draws (on a target only) whether indicators gain, with the chance
/// `d_gate`, then updates its indicators and its target record. A clause that does not
/// fire records the first literal that stopped it. Either way the counters of literals
/// with a low indicator drop with the chance `gate`.
pub fn type_iii_update(
    ta: &mut [u8],
    ind: &mut [u8],
    cat: &mut [u64],
    inc: &[u64],
    lit: &[u64],
    valid: &[u64],
    lit_active: &[u64],
    active_b: &[u8],
    words: usize,
    n_literals: usize,
    d_gate: u64,
    gate: u64,
    target: bool,
    rng: &mut Rng,
    half_ind: u8,
    max_ind: u8,
) -> (r: bool)
    requires
        n_literals <= old(ta)@.len(),
        n_literals <= old(ind)@.len(),
        n_literals <= active_b@.len(),
        words == words_needed(n_literals as int),
        64 * words <= usize::MAX,
        words <= old(cat)@.len(),
        words <= inc@.len(),
        words <= lit@.len(),
        words <= valid@.len(),
        words <= lit_active@.len(),
    ensures
        ({
            let fires = none_missing(inc@, lit@, valid@, lit_active@, 64 * words);
            let s = old(rng)@;
            let gains = fires && target && rng_frac(s) <= d_gate;
            let at = if fires && target {
                rng_next(s)
            } else {
                s
            };
            &&& final(rng)@ == rng_next(at)
            &&& r == (rng_frac(at) <= gate)
            &&& final(ta)@.len() == old(ta)@.len()
            &&& final(ind)@.len() == old(ind)@.len()
            &&& final(cat)@.len() == old(cat)@.len()
            &&& forall|l: int|
                n_literals <= l < old(ta)@.len() ==> #[trigger] final(ta)@[l] == old(ta)@[l]
            &&& forall|l: int|
                n_literals <= l < old(ind)@.len() ==> #[trigger] final(ind)@[l] == old(ind)@[l]
            &&& forall|k: int|
                words <= k < old(cat)@.len() ==> #[trigger] final(cat)@[k] == old(cat)@[k]
            &&& forall|l: int|
                0 <= l < n_literals ==> #[trigger] final(ind)@[l] == if fires {
                    type_iii_indicator(
                        old(ind)@[l],
                        bit_at(old(cat)@, l),
                        bit_at(lit@, l),
                        bit_at(lit_active@, l),
                        bit_at(valid@, l),
                        gains,
                        max_ind,
                    )
                } else {
                    old(ind)@[l]
                }
            &&& forall|l: int|
                0 <= l < n_literals ==> #[trigger] final(ta)@[l] == if r {
                    type_iii_counter(old(ta)@[l], final(ind)@[l], active_b@[l] == 1, half_ind)
                } else {
                    old(ta)@[l]
                }
            &&& fires ==> forall|l: int|
                0 <= l < 64 * words ==> #[trigger] bit_at(final(cat)@, l) == (bit_at(valid@, l) && (
                target ==> !bit_at(old(cat)@, l)))
            &&& !fires ==> exists|b: int|
                0 <= b < 64 * words && #[trigger] is_first_missing(inc@, lit@, valid@, lit_active@, b)
                    && forall|l: int|
                    0 <= l < 64 * words ==> #[trigger] bit_at(final(cat)@, l) == if l == b {
                        recorded(bit_at(old(cat)@, l), target)
                    } else {
                        bit_at(old(cat)@, l)
                    }
        }),
{
    let ghost old_cat = cat@;
    let fires: bool = clause_fire(inc, lit, valid, words, lit_active);
    if fires {
        let do_inc: bool = target && rng.next_fraction() <= d_gate;
        let lower: bool = rng.next_fraction() <= gate;
        if lower {
            type_iii_ind_words_and_ta_dec(
                ta,
                ind,
                n_literals,
                lit_active,
                cat,
                lit,
                valid,
                active_b,
                do_inc,
                max_ind,
                half_ind,
            );
        } else {
            type_iii_ind_words(ind, n_literals, lit_active, cat, lit, valid, do_inc, max_ind);
        }
        let mut k: usize = 0;
        while k < words
            invariant
                k <= words,
                cat@.len() == old_cat.len(),
                words <= cat@.len(),
                words <= valid@.len(),
                forall|j: int| k <= j < old_cat.len() ==> #[trigger] cat@[j] == old_cat[j],
                forall|l: int|
                    0 <= l < 64 * k ==> #[trigger] bit_at(cat@, l) == (bit_at(valid@, l) && (target
                        ==> !bit_at(old_cat, l))),
            decreases words - k,
        {
            let ghost before = cat@;
            let c: u64 = cat[k];
            let v: u64 = valid[k];
            cat[k] = if target {
                !c & v
            } else {
                v
            };
            proof {
                assert forall|l: int| 0 <= l < 64 * (k + 1) implies #[trigger] bit_at(cat@, l) == (
                bit_at(valid@, l) && (target ==> !bit_at(old_cat, l))) by {
                    if l >= 64 * k {
                        assert(l / 64 == k);
                        lemma_word_ops(!c, v, l % 64);
                        lemma_word_ops(c, v, l % 64);
                    } else {
                        assert(bit_at(cat@, l) == bit_at(before, l));
                    }
                }
            }
            k = k + 1;
        }
        lower
    } else {
        let found: Option<usize> = first_false_literal(inc, lit, valid, lit_active, words);
        if let Some(off) = found {
            if !get_bit(cat, off) {
                set_bit(cat, off);
            } else if target {
                clear_bit(cat, off);
            }
            proof {
                assert(is_first_missing(inc@, lit@, valid@, lit_active@, off as int));
            }
        }
        let lower: bool = rng.next_fraction() <= gate;
        if lower {
            type_iii_ta_dec_bytes(ta, ind, n_literals, active_b, half_ind);
        }
        lower
    }
}

} // verus!
