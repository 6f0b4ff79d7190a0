//! Random decisions of a training step, each a function of a stream position.
use crate::dyadic::{below_chance, Chance};
use crate::rng::{
    lemma_other_index_exists, lemma_skip_adds, lemma_stream_reaches, rng_frac, rng_index, rng_next,
    rng_skip, rng_word, Rng,
};
use vstd::prelude::*;

verus! {

/// A Bernoulli word: every bit is set with the probability whose binary digits are
/// `digits`, drawing one word per digit from the last digit to the first.
pub open spec fn mask_word(s: u64, digits: Seq<u8>) -> u64
    decreases digits.len(),
{
    if digits.len() == 0 {
        0
    } else {
        let rest = mask_word(s, digits.drop_first());
        let r = rng_word(rng_skip(s, (digits.len() - 1) as nat));
        if digits[0] == 1 {
            r | rest
        } else {
            r & rest
        }
    }
}

/// `words` Bernoulli words drawn one after the other.
pub open spec fn mask_words(s: u64, digits: Seq<u8>, words: nat) -> Seq<u64> {
    Seq::new(words, |k: int| mask_word(rng_skip(s, (k * digits.len()) as nat), digits))
}

/// Generates a word of 64 Bernoulli bits.
pub fn bmask_word(rng: &mut Rng, digits: &[u8]) -> (r: u64)
    ensures
        r == mask_word(old(rng)@, digits@),
        final(rng)@ == rng_skip(old(rng)@, digits@.len()),
{
    let ghost s = rng@;
    let mut word: u64 = 0;
    let mut i: usize = digits.len();
    while i > 0
        invariant
            i <= digits@.len(),
            word == mask_word(s, digits@.subrange(i as int, digits@.len() as int)),
            rng@ == rng_skip(s, (digits@.len() - i) as nat),
        decreases i,
    {
        proof {
            let tail = digits@.subrange(i - 1, digits@.len() as int);
            assert(tail.drop_first() =~= digits@.subrange(i as int, digits@.len() as int));
            assert(tail[0] == digits@[i - 1]);
        }
        i = i - 1;
        let r: u64 = rng.next_u64();
        word = if digits[i] == 1 {
            r | word
        } else {
            r & word
        };
    }
    proof {
        assert(digits@.subrange(0, digits@.len() as int) =~= digits@);
    }
    word
}

/// Generates `words` words of Bernoulli bits.
pub fn bernoulli_mask(rng: &mut Rng, digits: &[u8], words: usize) -> (r: Vec<u64>)
    ensures
        r@ == mask_words(old(rng)@, digits@, words as nat),
        final(rng)@ == rng_skip(old(rng)@, (words * digits@.len()) as nat),
{
    let ghost s = rng@;
    let mut r: Vec<u64> = Vec::with_capacity(words);
    let mut k: usize = 0;
    proof {
        assert(0 * digits@.len() == 0) by (nonlinear_arith);
    }
    while k < words
        invariant
            k <= words,
            r@ == mask_words(s, digits@, k as nat),
            rng@ == rng_skip(s, (k * digits@.len()) as nat),
        decreases words - k,
    {
        proof {
            let n = digits@.len() as int;
            assert((k + 1) * n == k * n + n) by (nonlinear_arith);
            assert(k * n >= 0) by (nonlinear_arith)
                requires
                    n >= 0,
            ;
            lemma_skip_adds(s, (k * n) as nat, n as nat);
        }
        r.push(bmask_word(rng, digits));
        k = k + 1;
    }
    r
}

/// Which of `n` clauses are dropped: one fraction is drawn for each.
pub open spec fn drops_of(s: u64, p: Chance, n: nat) -> Seq<bool> {
    Seq::new(n, |j: int| below_chance(p, rng_frac(rng_skip(s, j as nat))))
}

/// Decides for each of `n` clauses whether it is dropped, with probability `p`.
pub fn draw_drops(rng: &mut Rng, p: Chance, n: usize) -> (r: Vec<bool>)
    ensures
        r@ == drops_of(old(rng)@, p, n as nat),
        final(rng)@ == rng_skip(old(rng)@, n as nat),
{
    let ghost s = rng@;
    let mut r: Vec<bool> = Vec::with_capacity(n);
    let mut j: usize = 0;
    while j < n
        invariant
            j <= n,
            r@ == drops_of(s, p, j as nat),
            rng@ == rng_skip(s, j as nat),
        decreases n - j,
    {
        let f: u64 = rng.next_fraction();
        r.push(p.exceeds(f));
        j = j + 1;
    }
    r
}

/// The sequence with its entries `i` and `k` exchanged.
pub open spec fn swapped(order: Seq<usize>, i: int, k: int) -> Seq<usize> {
    order.update(i, order[k]).update(k, order[i])
}

/// The Fisher-Yates shuffle from entry `i` down to entry 1, one draw per entry.
pub open spec fn shuffle_from(order: Seq<usize>, s: u64, i: nat) -> Seq<usize>
    decreases i,
{
    if i == 0 {
        order
    } else {
        shuffle_from(
            swapped(order, i as int, rng_index(s, i as int + 1)),
            rng_next(s),
            (i - 1) as nat,
        )
    }
}

/// The order in which an epoch visits `n` samples, from stream position `s`.
pub open spec fn epoch_order_of(s: u64, n: nat) -> Seq<usize> {
    let identity = Seq::new(n, |i: int| i as usize);
    if n == 0 {
        identity
    } else {
        shuffle_from(identity, s, (n - 1) as nat)
    }
}

/// The number of draws that shuffling `n` samples takes.
pub open spec fn shuffle_draws(n: nat) -> nat {
    if n == 0 {
        0
    } else {
        (n - 1) as nat
    }
}

/// Shuffling keeps the length and only moves entries around.
pub proof fn lemma_shuffle_permutes(order: Seq<usize>, s: u64, i: nat)
    requires
        i < order.len(),
    ensures
        shuffle_from(order, s, i).len() == order.len(),
        shuffle_from(order, s, i).to_multiset() == order.to_multiset(),
    decreases i,
{
    if i > 0 {
        let k = rng_index(s, i as int + 1);
        assert(0 <= k < i + 1) by (nonlinear_arith)
            requires
                k == rng_word(s) as int % (i as int + 1),
                i >= 0,
        ;
        let next = swapped(order, i as int, k);
        lemma_shuffle_permutes(next, rng_next(s), (i - 1) as nat);
        lemma_swap_multiset(order, i as int, k);
    }
}

proof fn lemma_swap_multiset(order: Seq<usize>, i: int, k: int)
    requires
        0 <= i < order.len(),
        0 <= k < order.len(),
    ensures
        swapped(order, i, k).to_multiset() == order.to_multiset(),
{
    broadcast use vstd::seq_lib::group_to_multiset_ensures;
    let a = order.update(i, order[k]);
    assert(a.update(k, order[i]) == swapped(order, i, k));
    vstd::seq_lib::to_multiset_update(order, i, order[k]);
    vstd::seq_lib::to_multiset_update(a, k, order[i]);
    if i == k {
        assert(swapped(order, i, k) =~= order);
    }
}

/// An epoch visits every sample exactly once.
pub proof fn lemma_epoch_order_permutes(s: u64, n: nat)
    requires
        n <= usize::MAX + 1,
    ensures
        epoch_order_of(s, n).len() == n,
        epoch_order_of(s, n).to_multiset() == Seq::new(n, |i: int| i as usize).to_multiset(),
        forall|i: int| 0 <= i < n ==> #[trigger] epoch_order_of(s, n)[i] < n,
{
    broadcast use vstd::seq_lib::group_to_multiset_ensures;
    let identity = Seq::new(n, |i: int| i as usize);
    if n > 0 {
        lemma_shuffle_permutes(identity, s, (n - 1) as nat);
    }
    let order = epoch_order_of(s, n);
    assert forall|i: int| 0 <= i < n implies #[trigger] order[i] < n by {
        assert(order.contains(order[i]));
        assert(order.to_multiset().count(order[i]) > 0);
        assert(identity.contains(order[i]));
    }
}

/// Draws the order in which an epoch visits `n` samples.
pub fn epoch_order(rng: &mut Rng, n: usize) -> (order: Vec<usize>)
    ensures
        order@ == epoch_order_of(old(rng)@, n as nat),
        order@.len() == n,
        forall|i: int| 0 <= i < n ==> #[trigger] order@[i] < n,
        final(rng)@ == rng_skip(old(rng)@, shuffle_draws(n as nat)),
{
    let ghost s = rng@;
    let mut order: Vec<usize> = Vec::with_capacity(n);
    let mut i: usize = 0;
    while i < n
        invariant
            i <= n,
            order@ == Seq::new(i as nat, |j: int| j as usize),
        decreases n - i,
    {
        order.push(i);
        i = i + 1;
    }
    proof {
        lemma_epoch_order_permutes(s, n as nat);
    }
    if n == 0 {
        return order;
    }
    let mut i: usize = n - 1;
    let ghost mut done: nat = 0;
    while i > 0
        invariant
            i < n,
            order@.len() == n,
            done == n - 1 - i,
            rng@ == rng_skip(s, done),
            shuffle_from(order@, rng@, i as nat) == epoch_order_of(s, n as nat),
        decreases i,
    {
        let ghost before = order@;
        let ghost at = rng@;
        let k: usize = rng.below(i + 1);
        let a: usize = order[i];
        let b: usize = order[k];
        order.set(i, b);
        order.set(k, a);
        proof {
            assert(order@ =~= swapped(before, i as int, k as int));
            done = done + 1;
        }
        i = i - 1;
    }
    order
}

/// The `k`-th draw from stream position `s` is the first index in [0, n) other than `y`.
pub open spec fn is_first_other(s: u64, n: int, y: int, k: nat) -> bool {
    &&& rng_index(rng_skip(s, k), n) != y
    &&& forall|j: nat| j < k ==> rng_index(#[trigger] rng_skip(s, j), n) == y
}

/// How many draws equal to `y` precede the first other index.
pub open spec fn rejections(s: u64, n: int, y: int) -> nat {
    choose|k: nat| is_first_other(s, n, y, k)
}

/// The first index in [0, n) other than `y` that is drawn from stream position `s`.
pub open spec fn other_index(s: u64, n: int, y: int) -> int {
    rng_index(rng_skip(s, rejections(s, n, y)), n)
}

/// The stream position after the first index other than `y` was drawn.
pub open spec fn after_other(s: u64, n: int, y: int) -> u64 {
    rng_skip(s, rejections(s, n, y) + 1)
}

/// The number of rejected draws is what `is_first_other` says it is.
pub proof fn lemma_rejections(s: u64, n: int, y: int, k: nat)
    requires
        is_first_other(s, n, y, k),
    ensures
        rejections(s, n, y) == k,
{
    let r = rejections(s, n, y);
    assert(is_first_other(s, n, y, r));
    if r < k {
        assert(rng_index(rng_skip(s, r), n) == y);
    } else if k < r {
        assert(rng_index(rng_skip(s, k), n) == y);
    }
}

/// Draws a class other than `y` by rejection. The stream passes through every
/// position, so another class is drawn after finitely many tries.
pub fn sample_other(rng: &mut Rng, n: usize, y: usize) -> (r: usize)
    requires
        n >= 2,
    ensures
        r == other_index(old(rng)@, n as int, y as int),
        r < n,
        r != y,
        final(rng)@ == after_other(old(rng)@, n as int, y as int),
{
    let ghost s = rng@;
    let ghost t = lemma_other_index_exists(n as int, y as int);
    let ghost distance = lemma_stream_reaches(s, t);
    let ghost mut k: nat = 0;
    let mut other: usize = rng.below(n);
    proof {
        assert(rng_skip(s, 0) == s);
        assert(rng_skip(s, 1) == rng_next(rng_skip(s, 0)));
    }
    while other == y
        invariant
            n >= 2,
            other < n,
            rng@ == rng_skip(s, k + 1),
            other == rng_index(rng_skip(s, k), n as int),
            forall|j: nat| j < k ==> rng_index(#[trigger] rng_skip(s, j), n as int) == y,
            rng_skip(s, distance) == t,
            rng_index(t, n as int) != y,
            k <= distance,
        decreases distance - k,
    {
        proof {
            assert(k != distance);
            k = k + 1;
        }
        other = rng.below(n);
    }
    proof {
        assert(is_first_other(s, n as int, y as int, k));
        lemma_rejections(s, n as int, y as int, k);
    }
    other
}

} // verus!
