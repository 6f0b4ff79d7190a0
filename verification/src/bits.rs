//! Packed bit arrays: 64 bits per word, bit `l` in word `l / 64`.
use vstd::prelude::*;

verus! {

/// Bits per word.
pub const WORD_BITS: usize = 64;

/// Bit `b` of a word.
pub open spec fn word_bit(w: u64, b: int) -> bool {
    (w >> (b as u64)) & 1u64 == 1u64
}

/// Bit `l` of a packed array.
pub open spec fn bit_at(ws: Seq<u64>, l: int) -> bool {
    word_bit(ws[l / 64], l % 64)
}

/// The first `n` bits of a packed array.
pub open spec fn bits_of(ws: Seq<u64>, n: nat) -> Seq<bool> {
    Seq::new(n, |l: int| bit_at(ws, l))
}

/// The bits of a bitwise combination are the combined bits.
pub proof fn lemma_word_ops(a: u64, b: u64, i: int)
    requires
        0 <= i < 64,
    ensures
        word_bit(a | b, i) == (word_bit(a, i) || word_bit(b, i)),
        word_bit(a & b, i) == (word_bit(a, i) && word_bit(b, i)),
        word_bit(!a, i) == !word_bit(a, i),
{
    let k = i as u64;
    assert((((a | b) >> k) & 1u64 == 1u64) == (((a >> k) & 1u64 == 1u64) || ((b >> k) & 1u64 == 1u64)))
        by (bit_vector);
    assert((((a & b) >> k) & 1u64 == 1u64) == (((a >> k) & 1u64 == 1u64) && ((b >> k) & 1u64 == 1u64)))
        by (bit_vector);
    assert((((!a) >> k) & 1u64 == 1u64) == !((a >> k) & 1u64 == 1u64)) by (bit_vector)
        requires
            k < 64,
    ;
}

/// The bits of the words 0, `!0` and `v << k` with `v` 0 or 1.
pub proof fn lemma_word_consts(i: int, k: u64)
    requires
        0 <= i < 64,
        k < 64,
    ensures
        !word_bit(0, i),
        word_bit(!0u64, i),
        word_bit(1u64 << k, i) == (i == k),
        !word_bit(0u64 << k, i),
{
    let j = i as u64;
    assert((0u64 >> j) & 1u64 != 1u64) by (bit_vector);
    assert(((!0u64) >> j) & 1u64 == 1u64) by (bit_vector)
        requires
            j < 64,
    ;
    assert((((1u64 << k) >> j) & 1u64 == 1u64) == (j == k)) by (bit_vector)
        requires
            j < 64,
            k < 64,
    ;
    assert(((0u64 << k) >> j) & 1u64 != 1u64) by (bit_vector);
}

/// A word is zero exactly when none of its bits is set.
pub proof fn lemma_word_zero(w: u64)
    ensures
        w == 0 <==> forall|i: int| 0 <= i < 64 ==> !word_bit(w, i),
{
    if w == 0 {
        assert forall|i: int| 0 <= i < 64 implies !word_bit(w, i) by {
            lemma_word_consts(i, 0);
        }
    } else {
        vstd::std_specs::bits::axiom_u64_trailing_zeros(w);
        let z = vstd::std_specs::bits::u64_trailing_zeros(w) as int;
        assert(word_bit(w, z));
    }
}

/// Packed arrays of one length with the same bits are the same.
pub proof fn lemma_same_bits(a: Seq<u64>, b: Seq<u64>)
    requires
        a.len() == b.len(),
        forall|l: int| 0 <= l < 64 * a.len() ==> #[trigger] bit_at(a, l) == bit_at(b, l),
    ensures
        a == b,
{
    assert forall|k: int| 0 <= k < a.len() implies #[trigger] a[k] == b[k] by {
        let (v, w) = (a[k], b[k]);
        assert forall|i: int| 0 <= i < 64 implies !#[trigger] word_bit(v & !w, i) by {
            assert(bit_at(a, 64 * k + i) == bit_at(b, 64 * k + i));
            lemma_word_ops(w, v, i);
            lemma_word_ops(v, !w, i);
        }
        assert forall|i: int| 0 <= i < 64 implies !#[trigger] word_bit(w & !v, i) by {
            assert(bit_at(a, 64 * k + i) == bit_at(b, 64 * k + i));
            lemma_word_ops(v, w, i);
            lemma_word_ops(w, !v, i);
        }
        lemma_word_zero(v & !w);
        lemma_word_zero(w & !v);
        assert(v == w) by (bit_vector)
            requires
                v & !w == 0,
                w & !v == 0,
        ;
    }
    assert(a =~= b);
}

/// The minimum number of 64-bit words that hold `bits` bits.
pub open spec fn words_needed(bits: int) -> int {
    (bits + 63) / 64
}

/// The minimum number of 64-bit words that hold `bits` bits.
pub fn words_for(bits: usize) -> (r: usize)
    ensures
        r == words_needed(bits as int),
{
    bits / 64 + if bits % 64 != 0 {
        1
    } else {
        0
    }
}

/// Bit `l` of a packed array.
pub fn get_bit(ws: &[u64], l: usize) -> (r: bool)
    requires
        l < 64 * ws@.len(),
    ensures
        r == bit_at(ws@, l as int),
{
    (ws[l / 64] >> ((l % 64) as u64)) & 1 == 1
}

/// Sets bit `l` of a packed array.
pub fn set_bit(ws: &mut [u64], l: usize)
    requires
        l < 64 * old(ws)@.len(),
    ensures
        final(ws)@.len() == old(ws)@.len(),
        forall|i: int|
            0 <= i < 64 * old(ws)@.len() ==> #[trigger] bit_at(final(ws)@, i) == (i == l || bit_at(
                old(ws)@,
                i,
            )),
        forall|k: int|
            0 <= k < old(ws)@.len() && k != l as int / 64 ==> #[trigger] final(ws)@[k] == old(ws)@[k],
{
    let ghost before = ws@;
    let k: usize = l / 64;
    let b: u64 = (l % 64) as u64;
    let w: u64 = ws[k];
    ws[k] = w | (1u64 << b);
    proof {
        assert forall|i: int| 0 <= i < 64 * before.len() implies #[trigger] bit_at(ws@, i) == (i == l
            || bit_at(before, i)) by {
            lemma_word_consts(i % 64, b);
            lemma_word_ops(w, 1u64 << b, i % 64);
        }
    }
}

/// Clears bit `l` of a packed array.
pub fn clear_bit(ws: &mut [u64], l: usize)
    requires
        l < 64 * old(ws)@.len(),
    ensures
        final(ws)@.len() == old(ws)@.len(),
        forall|i: int|
            0 <= i < 64 * old(ws)@.len() ==> #[trigger] bit_at(final(ws)@, i) == (i != l && bit_at(
                old(ws)@,
                i,
            )),
        forall|k: int|
            0 <= k < old(ws)@.len() && k != l as int / 64 ==> #[trigger] final(ws)@[k] == old(ws)@[k],
{
    let ghost before = ws@;
    let k: usize = l / 64;
    let b: u64 = (l % 64) as u64;
    let w: u64 = ws[k];
    ws[k] = w & !(1u64 << b);
    proof {
        assert forall|i: int| 0 <= i < 64 * before.len() implies #[trigger] bit_at(ws@, i) == (i != l
            && bit_at(before, i)) by {
            lemma_word_consts(i % 64, b);
            lemma_word_ops(w, !(1u64 << b), i % 64);
            lemma_word_ops(1u64 << b, 0, i % 64);
        }
    }
}

/// `words` words without a set bit.
pub fn no_bits(words: usize) -> (r: Vec<u64>)
    ensures
        r@.len() == words,
        forall|l: int| 0 <= l < 64 * words ==> !#[trigger] bit_at(r@, l),
{
    let r: Vec<u64> = vec![0u64; words];
    proof {
        assert forall|l: int| 0 <= l < 64 * words implies !#[trigger] bit_at(r@, l) by {
            lemma_word_consts(l % 64, 0);
        }
    }
    r
}

/// `words` words with every bit set.
pub fn all_bits(words: usize) -> (r: Vec<u64>)
    ensures
        r@ == Seq::new(words as nat, |k: int| !0u64),
        forall|l: int| 0 <= l < 64 * words ==> #[trigger] bit_at(r@, l),
{
    let r: Vec<u64> = vec![!0u64; words];
    proof {
        assert forall|l: int| 0 <= l < 64 * words implies #[trigger] bit_at(r@, l) by {
            lemma_word_consts(l % 64, 0);
        }
    }
    r
}

/// The packed array whose set bits are the first `n`.
pub fn valid_mask(n: usize) -> (r: Vec<u64>)
    ensures
        r@.len() == words_needed(n as int),
        forall|l: int| 0 <= l < 64 * r@.len() ==> #[trigger] bit_at(r@, l) == (l < n),
{
    let mut r: Vec<u64> = no_bits(words_for(n));
    let mut i: usize = 0;
    while i < n
        invariant
            i <= n,
            r@.len() == words_needed(n as int),
            forall|l: int| 0 <= l < 64 * r@.len() ==> #[trigger] bit_at(r@, l) == (l < i),
        decreases n - i,
    {
        set_bit(&mut r, i);
        i = i + 1;
    }
    r
}

/// Literal `l` of a sample with `n` features: feature `l` itself below `n`, the negation
/// of feature `l - n` from there on.
pub open spec fn literal(x: Seq<u8>, n: int, l: int) -> bool {
    if l < n {
        x[l] != 0
    } else {
        x[l - n] == 0
    }
}

/// The `2 * n` literals of a sample with `n` features.
pub open spec fn literals_of(x: Seq<u8>, n: int) -> Seq<bool> {
    Seq::new((2 * n) as nat, |l: int| literal(x, n, l))
}

/// Packs a raw feature vector into literal bits: feature `i` sets bit `i` where it is not
/// zero and bit `n_features + i` where it is. All other bits are cleared.
pub fn pack(x: &[u8], n_features: usize, out: &mut [u64])
    requires
        n_features <= x@.len(),
        2 * n_features <= 64 * old(out)@.len(),
        2 * n_features <= usize::MAX,
    ensures
        final(out)@.len() == old(out)@.len(),
        forall|l: int|
            0 <= l < 64 * old(out)@.len() ==> #[trigger] bit_at(final(out)@, l) == (l < 2 * n_features
                && literal(x@, n_features as int, l)),
{
    let ghost words = out@.len();
    let mut k: usize = 0;
    while k < out.len()
        invariant
            k <= out@.len(),
            out@.len() == words,
            forall|j: int| 0 <= j < k ==> out@[j] == 0,
        decreases out@.len() - k,
    {
        out[k] = 0;
        k = k + 1;
    }
    proof {
        assert forall|l: int| 0 <= l < 64 * words implies !#[trigger] bit_at(out@, l) by {
            lemma_word_consts(l % 64, 0);
        }
    }
    let mut i: usize = 0;
    while i < n_features
        invariant
            i <= n_features <= x@.len(),
            2 * n_features <= 64 * words,
            2 * n_features <= usize::MAX,
            out@.len() == words,
            forall|l: int|
                0 <= l < 64 * words ==> #[trigger] bit_at(out@, l) == ((l < i || (n_features <= l
                    < n_features + i)) && literal(x@, n_features as int, l)),
        decreases n_features - i,
    {
        if x[i] != 0 {
            set_bit(out, i);
        } else {
            set_bit(out, n_features + i);
        }
        i = i + 1;
    }
}

/// 1 for a set bit, 0 for a cleared one.
pub open spec fn byte_of(b: bool) -> u8 {
    if b {
        1
    } else {
        0
    }
}

/// `bytes` holds the first `n` bits of `ws`, one per byte.
pub open spec fn expands(bytes: Seq<u8>, ws: Seq<u64>, n: int) -> bool {
    &&& bytes.len() == n
    &&& forall|l: int| 0 <= l < n ==> #[trigger] bytes[l] == byte_of(bit_at(ws, l))
}

/// Expands the first `n` bits of a packed array into bytes of 0 and 1.
pub fn expand_bits_to_bytes(bits: &[u64], n: usize) -> (r: Vec<u8>)
    requires
        n <= 64 * bits@.len(),
    ensures
        expands(r@, bits@, n as int),
{
    let mut r: Vec<u8> = Vec::with_capacity(n);
    let mut l: usize = 0;
    while l < n
        invariant
            l <= n <= 64 * bits@.len(),
            expands(r@, bits@, l as int),
        decreases n - l,
    {
        r.push(if get_bit(bits, l) {
            1
        } else {
            0
        });
        l = l + 1;
    }
    r
}

/// Of a feature and its negation exactly one literal is set.
pub proof fn lemma_literals_complement(x: Seq<u8>, n: int, i: int)
    requires
        0 <= i < n,
    ensures
        literals_of(x, n)[i] == !literals_of(x, n)[n + i],
{
}

} // verus!
