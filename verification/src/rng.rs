//! SplitMix64, the pseudorandom stream behind every stochastic decision.
use vstd::prelude::*;

verus! {

/// The golden-ratio increment of SplitMix64, also used to spread seeds.
pub const GOLDEN: u64 = 0x9E37_79B9_7F4A_7C15;

/// The stream position that follows position `s`.
pub open spec fn rng_next(s: u64) -> u64 {
    s.wrapping_add(GOLDEN)
}

/// The stream position `n` draws after position `s`.
pub open spec fn rng_skip(s: u64, n: nat) -> u64
    decreases n,
{
    if n == 0 {
        s
    } else {
        rng_next(rng_skip(s, (n - 1) as nat))
    }
}

/// The finalizer that turns a stream position into an output word.
pub open spec fn rng_mix(z: u64) -> u64 {
    let z1 = (z ^ (z >> 30u64)).wrapping_mul(0xBF58_476D_1CE4_E5B9u64);
    let z2 = (z1 ^ (z1 >> 27u64)).wrapping_mul(0x94D0_49BB_1331_11EBu64);
    z2 ^ (z2 >> 31u64)
}

/// The word that a draw at stream position `s` returns.
pub open spec fn rng_word(s: u64) -> u64 {
    rng_mix(rng_next(s))
}

/// The 53-bit fraction that a draw at stream position `s` returns.
pub open spec fn rng_frac(s: u64) -> u64 {
    rng_word(s) >> 11u64
}

/// SplitMix64: a fast non-cryptographic generator for the inner training loop.
#[derive(Clone, Copy, Debug)]
pub struct Rng(u64);

impl View for Rng {
    type V = u64;

    closed spec fn view(&self) -> u64 {
        self.0
    }
}

impl Rng {
    /// A generator seeded with `seed`; the golden constant keeps it away from state 0.
    pub fn new(seed: u64) -> (r: Self)
        ensures
            r@ == rng_next(seed),
    {
        Rng(seed.wrapping_add(GOLDEN))
    }

    /// Advances the stream and returns the next 64-bit word.
    pub fn next_u64(&mut self) -> (r: u64)
        ensures
            final(self)@ == rng_next(old(self)@),
            r == rng_word(old(self)@),
    {
        self.0 = self.0.wrapping_add(GOLDEN);
        let mut z: u64 = self.0;
        z = (z ^ (z >> 30u64)).wrapping_mul(0xBF58_476D_1CE4_E5B9u64);
        z = (z ^ (z >> 27u64)).wrapping_mul(0x94D0_49BB_1331_11EBu64);
        z ^ (z >> 31u64)
    }

    /// Advances the stream and returns a uniform 53-bit fraction: the numerator, over
    /// `2^53`, of a uniform number in [0, 1).
    pub fn next_fraction(&mut self) -> (r: u64)
        ensures
            final(self)@ == rng_next(old(self)@),
            r == rng_frac(old(self)@),
    {
        self.next_u64() >> 11u64
    }

    /// Advances the stream and returns an index in [0, n).
    pub fn below(&mut self, n: usize) -> (r: usize)
        requires
            n > 0,
        ensures
            final(self)@ == rng_next(old(self)@),
            r == rng_index(old(self)@, n as int),
            r < n,
    {
        (self.next_u64() % n as u64) as usize
    }

    /// The stream position, from which [`Rng::from_raw`] resumes.
    pub fn raw(&self) -> (r: u64)
        ensures
            r == self@,
    {
        self.0
    }

    /// A generator at stream position `state`.
    pub fn from_raw(state: u64) -> (r: Self)
        ensures
            r@ == state,
    {
        Rng(state)
    }
}

/// The index in [0, n) that a draw at stream position `s` returns.
pub open spec fn rng_index(s: u64, n: int) -> int {
    rng_word(s) as int % n
}

/// Skipping `a` draws and then `b` draws skips `a + b`.
pub proof fn lemma_skip_adds(s: u64, a: nat, b: nat)
    ensures
        rng_skip(rng_skip(s, a), b) == rng_skip(s, a + b),
    decreases b,
{
    if b > 0 {
        lemma_skip_adds(s, a, (b - 1) as nat);
    }
}

/// Each draw moves the stream by the golden increment, modulo 2^64.
pub proof fn lemma_skip_position(s: u64, n: nat)
    ensures
        rng_skip(s, n) as int == (s + n * 0x9E37_79B9_7F4A_7C15) % 0x1_0000_0000_0000_0000,
    decreases n,
{
    if n > 0 {
        lemma_skip_position(s, (n - 1) as nat);
        let prev = rng_skip(s, (n - 1) as nat) as int;
        let m = 0x1_0000_0000_0000_0000int;
        let g = 0x9E37_79B9_7F4A_7C15int;
        let before = s + (n - 1) * g;
        assert(before + g == s + n * g) by (nonlinear_arith)
            requires
                before == s + (n - 1) * g,
        ;
        vstd::arithmetic::div_mod::lemma_add_mod_noop(before, g, m);
        assert((prev + g) % m == (before + g) % m) by {
            vstd::arithmetic::div_mod::lemma_small_mod(g as nat, m as nat);
        }
    }
}

/// The stream reaches every position: from `s` it is at `t` after some number of draws.
pub proof fn lemma_stream_reaches(s: u64, t: u64) -> (n: nat)
    ensures
        rng_skip(s, n) == t,
{
    let m = 0x1_0000_0000_0000_0000int;
    let g = 0x9E37_79B9_7F4A_7C15int;
    let inverse = 0xF1DE_83E1_9937_733Dint;
    let excess = 0x957B_BF35_006E_D677int;
    assert(g * inverse == 1 + m * excess);
    let d = t - s;
    let prod = d * inverse;
    let n = prod % m;
    let q = prod / m;
    assert(prod == m * q + n && n >= 0) by (nonlinear_arith)
        requires
            n == prod % m,
            q == prod / m,
            m > 0,
    ;
    assert(s + n * g == t + m * (d * excess - q * g)) by (nonlinear_arith)
        requires
            d == t - s,
            prod == d * inverse,
            prod == m * q + n,
            g * inverse == 1 + m * excess,
    ;
    vstd::arithmetic::div_mod::lemma_mod_multiples_vanish(d * excess - q * g, t as int, m);
    vstd::arithmetic::div_mod::lemma_small_mod(t as nat, m as nat);
    lemma_skip_position(s, n as nat);
    n as nat
}

proof fn lemma_wrapping_product(a: u64, b: u64, q: int, r: u64)
    requires
        a * b == q * 0x1_0000_0000_0000_0000 + r,
    ensures
        a.wrapping_mul(b) == r,
{
    vstd::arithmetic::div_mod::lemma_fundamental_div_mod_converse(
        a * b,
        0x1_0000_0000_0000_0000,
        q,
        r as int,
    );
}

/// The stream positions at which the words 0 and 1 are drawn.
#[verifier::spinoff_prover]
proof fn lemma_words_zero_and_one()
    ensures
        rng_word(0x61C8_8646_80B5_83EBu64) == 0,
        rng_word(0xF836_4607_E9C9_49BDu64) == 1,
{
    assert(rng_next(0x61C8_8646_80B5_83EBu64) == 0u64);
    assert(rng_mix(0) == 0) by {
        assert(0u64 ^ (0u64 >> 30u64) == 0u64 && 0u64 ^ (0u64 >> 27u64) == 0u64 && 0u64 ^ (0u64
            >> 31u64) == 0u64) by (bit_vector);
        lemma_wrapping_product(0, 0xBF58_476D_1CE4_E5B9, 0, 0);
        lemma_wrapping_product(0, 0x94D0_49BB_1331_11EB, 0, 0);
    }
    let z = 0x966D_BFC1_6913_C5D2u64;
    assert(rng_next(0xF836_4607_E9C9_49BDu64) == z);
    assert(rng_mix(z) == 1) by {
        assert(0x966D_BFC1_6913_C5D2u64 ^ (0x966D_BFC1_6913_C5D2u64 >> 30u64)
            == 0x966D_BFC3_30A5_3AD7u64 && 0x3196_42B4_E085_D85Fu64 ^ (0x3196_42B4_E085_D85Fu64
            >> 27u64) == 0x3196_42B2_D24D_8EC3u64 && 1u64 ^ (1u64 >> 31u64) == 1u64) by (bit_vector);
        lemma_wrapping_product(
            0x966D_BFC3_30A5_3AD7,
            0xBF58_476D_1CE4_E5B9,
            0x706F_C1C5_1A48_4A01,
            0x3196_42B4_E085_D85F,
        );
        lemma_wrapping_product(
            0x3196_42B2_D24D_8EC3,
            0x94D0_49BB_1331_11EB,
            0x1CD3_36ED_A85F_1453,
            1,
        );
    }
}

/// A stream position at which an index other than `y` is drawn.
pub proof fn lemma_other_index_exists(n: int, y: int) -> (t: u64)
    requires
        n >= 2,
    ensures
        rng_index(t, n) != y,
{
    lemma_words_zero_and_one();
    let zero = 0x61C8_8646_80B5_83EBu64;
    let one = 0xF836_4607_E9C9_49BDu64;
    assert(0int % n == 0 && 1int % n == 1) by {
        vstd::arithmetic::div_mod::lemma_small_mod(0, n as nat);
        vstd::arithmetic::div_mod::lemma_small_mod(1, n as nat);
    }
    if y == 0 {
        one
    } else {
        zero
    }
}

} // verus!
