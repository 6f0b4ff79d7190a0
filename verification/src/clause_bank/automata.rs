//! The automata of one clause as a unit: counters, indicators and target record.
use crate::bits::{
    bit_at, bits_of, expands, get_bit, literal, literals_of, no_bits, set_bit, valid_mask,
    words_for, words_needed,
};
use crate::clause_bank::dense::{
    any_included, clause_fire, count_included, fire_predict, includes, is_first_missing,
    lemma_count, none_missing, rebuild_include, recorded, type_i_counter, type_i_update_bytes,
    type_ii_counter, type_ii_update_bytes, type_iii_counter, type_iii_indicator, type_iii_update,
    under_include_limit,
};
use crate::rng::{rng_frac, rng_next, rng_skip, rng_word, Rng};
use vstd::prelude::*;

verus! {

/// What the automata of a bank have in common: how many literals there are, and where
/// their counters begin to include and end.
#[derive(Clone, Debug)]
pub struct Geometry {
    pub n_literals: usize,
    pub words: usize,
    /// The counter from which a literal is included.
    pub half: u8,
    /// The largest counter.
    pub max_state: u8,
    /// The bits of a packed array that stand for literals.
    pub valid: Vec<u64>,
}

/// The inclusion threshold of counters of `bits` bits: `2^(bits - 1)`.
pub open spec fn half_of(bits: u8) -> u8 {
    if bits == 2 {
        2
    } else if bits == 3 {
        4
    } else if bits == 4 {
        8
    } else if bits == 5 {
        16
    } else if bits == 6 {
        32
    } else if bits == 7 {
        64
    } else {
        128
    }
}

/// The inclusion threshold of counters of `bits` bits.
pub fn half_from_bits(bits: u8) -> (r: u8)
    requires
        2 <= bits <= 8,
    ensures
        r == half_of(bits),
        2 <= r <= 128,
{
    if bits == 2 {
        2
    } else if bits == 3 {
        4
    } else if bits == 4 {
        8
    } else if bits == 5 {
        16
    } else if bits == 6 {
        32
    } else if bits == 7 {
        64
    } else {
        128
    }
}

impl Geometry {
    pub open spec fn wf(&self) -> bool {
        &&& self.n_literals + 64 <= usize::MAX
        &&& self.words == words_needed(self.n_literals as int)
        &&& self.valid@.len() == self.words
        &&& 2 <= self.half <= 128
        &&& self.max_state == 2 * self.half - 1
        &&& forall|l: int|
            0 <= l < 64 * self.words ==> #[trigger] bit_at(self.valid@, l) == (l < self.n_literals)
    }

    /// The geometry of `n_literals` literals with counters of `state_bits` bits.
    pub fn new(n_literals: usize, state_bits: u8) -> (r: Self)
        requires
            n_literals + 64 <= usize::MAX,
            2 <= state_bits <= 8,
        ensures
            r.wf(),
            r.n_literals == n_literals,
            r.half == half_of(state_bits),
    {
        let half: u8 = half_from_bits(state_bits);
        Geometry {
            n_literals,
            words: words_for(n_literals),
            half,
            max_state: half - 1 + half,
            valid: valid_mask(n_literals),
        }
    }

    /// The geometry with `n_literals` literals and the same counters.
    pub fn resized(&self, n_literals: usize) -> (r: Self)
        requires
            self.wf(),
            n_literals + 64 <= usize::MAX,
        ensures
            r.wf(),
            r.n_literals == n_literals,
            r.half == self.half,
    {
        Geometry {
            n_literals,
            words: words_for(n_literals),
            half: self.half,
            max_state: self.max_state,
            valid: valid_mask(n_literals),
        }
    }
}

/// The automata of one clause, seen as values.
#[verifier::ext_equal]
pub struct ClauseState {
    /// The counter of each literal.
    pub ta: Seq<u8>,
    /// The indicator of each literal, for Type III feedback.
    pub ind: Seq<u8>,
    /// The target record of each literal, for Type III feedback.
    pub cat: Seq<bool>,
}

/// The automata of one clause.
#[derive(Clone, Debug)]
pub struct Automata {
    pub ta: Vec<u8>,
    pub inc: Vec<u64>,
    pub ind: Vec<u8>,
    pub cat: Vec<u64>,
}

impl View for Automata {
    type V = ClauseState;

    open spec fn view(&self) -> ClauseState {
        ClauseState { ta: self.ta@, ind: self.ind@, cat: bits_of(self.cat@, self.ta@.len()) }
    }
}

/// In training a clause fires when every included literal that is active is present.
pub open spec fn holds(ta: Seq<u8>, half: u8, x: Seq<bool>, act: Seq<bool>) -> bool {
    forall|l: int| 0 <= l < ta.len() && #[trigger] ta[l] >= half && act[l] ==> x[l]
}

/// In inference a clause fires when it includes a literal and every included one is present.
pub open spec fn votes(ta: Seq<u8>, half: u8, x: Seq<bool>) -> bool {
    &&& exists|l: int| 0 <= l < ta.len() && #[trigger] ta[l] >= half
    &&& forall|l: int| 0 <= l < ta.len() && #[trigger] ta[l] >= half ==> x[l]
}

/// The clause may still include more literals.
pub open spec fn may_grow(ta: Seq<u8>, half: u8, max_included: usize) -> bool {
    max_included == usize::MAX || count_included(ta, half, ta.len()) < max_included
}

/// The flags that bytes of 0 and 1 stand for.
pub open spec fn flags(b: Seq<u8>) -> Seq<bool> {
    Seq::new(b.len(), |l: int| b[l] == 1)
}

/// Expanded bits are the bits.
pub proof fn lemma_flags(b: Seq<u8>, ws: Seq<u64>, n: nat)
    requires
        expands(b, ws, n as int),
    ensures
        flags(b) == bits_of(ws, n),
        forall|l: int| 0 <= l < n ==> #[trigger] b[l] <= 1,
{
    assert(flags(b) =~= bits_of(ws, n));
}

/// The counters after Type I feedback. A clause that may not grow forgets without a look at the
/// sample: all its literals count as absent.
pub open spec fn type_i_of(
    ta: Seq<u8>,
    fired: bool,
    boost: bool,
    x: Seq<bool>,
    inv: Seq<bool>,
    keep: Seq<bool>,
    act: Seq<bool>,
    max: u8,
) -> Seq<u8> {
    Seq::new(
        ta.len(),
        |l: int|
            type_i_counter(ta[l], fired, boost, fired && x[l], inv[l], keep[l], act[l], max),
    )
}

/// The counters after Type II feedback.
pub open spec fn type_ii_of(ta: Seq<u8>, x: Seq<bool>, act: Seq<bool>, half: u8, max: u8) -> Seq<u8> {
    Seq::new(ta.len(), |l: int| type_ii_counter(ta[l], x[l], act[l], half, max))
}

/// The indicators after Type III feedback on a clause that fires.
pub open spec fn indicators_of(
    ind: Seq<u8>,
    cat: Seq<bool>,
    x: Seq<bool>,
    act: Seq<bool>,
    gains: bool,
    max: u8,
) -> Seq<u8> {
    Seq::new(
        ind.len(),
        |l: int| type_iii_indicator(ind[l], cat[l], x[l], act[l], true, gains, max),
    )
}

/// The counters after the Type III decrement.
pub open spec fn lowered(ta: Seq<u8>, ind: Seq<u8>, act: Seq<bool>, half: u8) -> Seq<u8> {
    Seq::new(ta.len(), |l: int| type_iii_counter(ta[l], ind[l], act[l], half))
}

/// Literal `b` is the first that stops the clause from firing.
pub open spec fn is_first_blocking(
    ta: Seq<u8>,
    half: u8,
    x: Seq<bool>,
    act: Seq<bool>,
    b: int,
) -> bool {
    &&& 0 <= b < ta.len()
    &&& ta[b] >= half && act[b] && !x[b]
    &&& forall|l: int| 0 <= l < b && #[trigger] ta[l] >= half && act[l] ==> x[l]
}

/// The first literal that stops the clause from firing.
pub open spec fn first_blocking(ta: Seq<u8>, half: u8, x: Seq<bool>, act: Seq<bool>) -> int {
    choose|b: int| is_first_blocking(ta, half, x, act, b)
}

/// There is only one first blocking literal.
pub proof fn lemma_first_blocking(ta: Seq<u8>, half: u8, x: Seq<bool>, act: Seq<bool>, b: int)
    requires
        is_first_blocking(ta, half, x, act, b),
    ensures
        first_blocking(ta, half, x, act) == b,
{
    let c = first_blocking(ta, half, x, act);
    assert(is_first_blocking(ta, half, x, act, c));
    if c < b {
        assert(ta[c] >= half);
    } else if b < c {
        assert(ta[b] >= half);
    }
}

/// The stream position after Type III feedback drew from position `s`.
pub open spec fn type_iii_stream(fires: bool, target: bool, s: u64) -> u64 {
    if fires && target {
        rng_next(rng_next(s))
    } else {
        rng_next(s)
    }
}

/// The automata after Type III feedback that draws from stream position `s`.
pub open spec fn type_iii_of(
    m: ClauseState,
    s: u64,
    target: bool,
    d_gate: u64,
    gate: u64,
    x: Seq<bool>,
    act: Seq<bool>,
    half: u8,
    max: u8,
) -> ClauseState {
    if holds(m.ta, half, x, act) {
        let gains = target && rng_frac(s) <= d_gate;
        let at = if target {
            rng_next(s)
        } else {
            s
        };
        let ind = indicators_of(m.ind, m.cat, x, act, gains, max);
        ClauseState {
            ta: if rng_frac(at) <= gate {
                lowered(m.ta, ind, act, half)
            } else {
                m.ta
            },
            ind,
            cat: Seq::new(m.cat.len(), |l: int| target ==> !m.cat[l]),
        }
    } else {
        let b = first_blocking(m.ta, half, x, act);
        ClauseState {
            ta: if rng_frac(s) <= gate {
                lowered(m.ta, m.ind, act, half)
            } else {
                m.ta
            },
            ind: m.ind,
            cat: m.cat.update(b, recorded(m.cat[b], target)),
        }
    }
}

/// Which counter a literal starts from, decided by a drawn word.
pub open spec fn first_counter(s: u64, half: u8) -> u8 {
    if rng_word(s) & 1 == 0 {
        (half - 1) as u8
    } else {
        half
    }
}

/// The automata of a new clause whose counters are drawn from stream position `s`.
pub open spec fn fresh_state(s: u64, n: nat, half: u8) -> ClauseState {
    ClauseState {
        ta: Seq::new(n, |l: int| first_counter(rng_skip(s, l as nat), half)),
        ind: Seq::new(n, |l: int| half),
        cat: Seq::new(n, |l: int| false),
    }
}

/// The automata of a new clause that includes nothing.
pub open spec fn blank_state(n: nat, half: u8) -> ClauseState {
    ClauseState {
        ta: Seq::new(n, |l: int| (half - 1) as u8),
        ind: Seq::new(n, |l: int| half),
        cat: Seq::new(n, |l: int| false),
    }
}

/// Every counter and indicator is at most `max`, and there is one of each per literal.
pub open spec fn state_wf(m: ClauseState, n: nat, max: u8) -> bool {
    &&& m.ta.len() == n
    &&& m.ind.len() == n
    &&& m.cat.len() == n
    &&& forall|l: int| 0 <= l < n ==> #[trigger] m.ta[l] <= max
    &&& forall|l: int| 0 <= l < n ==> #[trigger] m.ind[l] <= max
}

impl Automata {
    pub open spec fn wf(&self, g: &Geometry) -> bool {
        &&& g.wf()
        &&& state_wf(self@, g.n_literals as nat, g.max_state)
        &&& self.inc@.len() == g.words
        &&& self.cat@.len() == g.words
        &&& includes(self.inc@, self.ta@, g.valid@, g.half)
        &&& forall|l: int| g.n_literals <= l < 64 * g.words ==> !#[trigger] bit_at(self.cat@, l)
    }

    /// New automata, each counter drawn to be just below or just at the threshold.
    pub fn fresh(g: &Geometry, rng: &mut Rng) -> (r: Self)
        requires
            g.wf(),
        ensures
            r.wf(g),
            r@ == fresh_state(old(rng)@, g.n_literals as nat, g.half),
            final(rng)@ == rng_skip(old(rng)@, g.n_literals as nat),
    {
        let ghost s = rng@;
        let mut ta: Vec<u8> = Vec::with_capacity(g.n_literals);
        let mut l: usize = 0;
        while l < g.n_literals
            invariant
                g.wf(),
                l <= g.n_literals,
                ta@.len() == l,
                forall|i: int|
                    0 <= i < l ==> #[trigger] ta@[i] == first_counter(rng_skip(s, i as nat), g.half),
                rng@ == rng_skip(s, l as nat),
            decreases g.n_literals - l,
        {
            let w: u64 = rng.next_u64();
            ta.push(if w & 1 == 0 {
                g.half - 1
            } else {
                g.half
            });
            l = l + 1;
        }
        Self::from_counters(g, ta)
    }

    /// New automata whose counters are all just below the threshold.
    pub fn blank(g: &Geometry) -> (r: Self)
        requires
            g.wf(),
        ensures
            r.wf(g),
            r@ == blank_state(g.n_literals as nat, g.half),
    {
        let ta: Vec<u8> = vec![g.half - 1; g.n_literals];
        Self::from_counters(g, ta)
    }

    /// New automata with the counters `ta`.
    pub fn from_counters(g: &Geometry, ta: Vec<u8>) -> (r: Self)
        requires
            g.wf(),
            ta@.len() == g.n_literals,
            forall|l: int| 0 <= l < ta@.len() ==> #[trigger] ta@[l] <= g.max_state,
        ensures
            r.wf(g),
            r@ == (ClauseState {
                ta: ta@,
                ind: Seq::new(g.n_literals as nat, |l: int| g.half),
                cat: Seq::new(g.n_literals as nat, |l: int| false),
            }),
    {
        let mut inc: Vec<u64> = no_bits(g.words);
        rebuild_include(&ta, &mut inc, &g.valid, g.words, g.n_literals, g.half);
        let ind: Vec<u8> = vec![g.half; g.n_literals];
        let cat: Vec<u64> = no_bits(g.words);
        Automata { ta, inc, ind, cat }
    }

    /// The same automata with the counters `ta`.
    pub fn with_counters(&self, g: &Geometry, ta: Vec<u8>) -> (r: Self)
        requires
            self.wf(g),
            ta@.len() == g.n_literals,
            forall|l: int| 0 <= l < ta@.len() ==> #[trigger] ta@[l] <= g.max_state,
        ensures
            r.wf(g),
            r@ == (ClauseState { ta: ta@, ..self@ }),
    {
        let mut inc: Vec<u64> = no_bits(g.words);
        rebuild_include(&ta, &mut inc, &g.valid, g.words, g.n_literals, g.half);
        let r: Automata = Automata { ta, inc, ind: self.ind.clone(), cat: self.cat.clone() };
        proof {
            assert(r.ind@ =~= self.ind@);
            assert(r.cat@ =~= self.cat@);
        }
        r
    }

    /// A copy of the automata.
    pub fn duplicate(&self, g: &Geometry) -> (r: Self)
        requires
            self.wf(g),
        ensures
            r.wf(g),
            r@ == self@,
    {
        let r: Automata = Automata {
            ta: self.ta.clone(),
            inc: self.inc.clone(),
            ind: self.ind.clone(),
            cat: self.cat.clone(),
        };
        proof {
            assert(r.ta@ =~= self.ta@);
            assert(r.inc@ =~= self.inc@);
            assert(r.ind@ =~= self.ind@);
            assert(r.cat@ =~= self.cat@);
        }
        r
    }

    /// Whether the clause fires in training.
    pub fn fires(&self, g: &Geometry, lit: &[u64], lit_active: &[u64]) -> (r: bool)
        requires
            self.wf(g),
            lit@.len() == g.words,
            lit_active@.len() == g.words,
        ensures
            r == holds(
                self@.ta,
                g.half,
                bits_of(lit@, g.n_literals as nat),
                bits_of(lit_active@, g.n_literals as nat),
            ),
    {
        proof {
            self.lemma_holds(g, lit@, lit_active@);
        }
        clause_fire(&self.inc, lit, &g.valid, g.words, lit_active)
    }

    proof fn lemma_holds(&self, g: &Geometry, lit: Seq<u64>, act: Seq<u64>)
        requires
            self.wf(g),
        ensures
            none_missing(self.inc@, lit, g.valid@, act, 64 * g.words) == holds(
                self@.ta,
                g.half,
                bits_of(lit, g.n_literals as nat),
                bits_of(act, g.n_literals as nat),
            ),
    {
        let n = g.n_literals as nat;
        let x = bits_of(lit, n);
        let a = bits_of(act, n);
        if none_missing(self.inc@, lit, g.valid@, act, 64 * g.words) {
            assert forall|l: int| 0 <= l < n && #[trigger] self.ta@[l] >= g.half && a[l] implies x[l] by {
                assert(bit_at(g.valid@, l));
                assert(bit_at(self.inc@, l));
                assert(bit_at(lit, l));
            }
        } else {
            let l = choose|l: int|
                0 <= l < 64 * g.words && bit_at(self.inc@, l) && bit_at(g.valid@, l) && bit_at(act, l)
                    && !#[trigger] bit_at(lit, l);
            assert(self.ta@[l] >= g.half);
            assert(a[l] && !x[l]);
        }
    }

    /// Whether the clause fires in inference.
    pub fn matches(&self, g: &Geometry, lit: &[u64]) -> (r: bool)
        requires
            self.wf(g),
            lit@.len() == g.words,
        ensures
            r == votes(self@.ta, g.half, bits_of(lit@, g.n_literals as nat)),
    {
        proof {
            let n = g.n_literals as nat;
            let x = bits_of(lit@, n);
            let all = bits_of(g.valid@, n);
            self.lemma_holds(g, lit@, g.valid@);
            assert forall|l: int| 0 <= l < n implies all[l] by {
                assert(bit_at(g.valid@, l));
            }
            assert(holds(self.ta@, g.half, x, all) == forall|l: int|
                0 <= l < n && #[trigger] self.ta@[l] >= g.half ==> x[l]);
            if any_included(self.inc@, g.valid@, 64 * g.words) {
                let l = choose|l: int|
                    0 <= l < 64 * g.words && #[trigger] bit_at(self.inc@, l) && bit_at(g.valid@, l);
                assert(self.ta@[l] >= g.half);
            }
            if exists|l: int| 0 <= l < n && #[trigger] self.ta@[l] >= g.half {
                let l = choose|l: int| 0 <= l < n && #[trigger] self.ta@[l] >= g.half;
                assert(bit_at(g.valid@, l));
                assert(bit_at(self.inc@, l));
            }
        }
        fire_predict(&self.inc, lit, &g.valid, g.words)
    }

    /// Whether the clause may still include more literals.
    pub fn can_grow(&self, g: &Geometry, max_included: usize) -> (r: bool)
        requires
            self.wf(g),
        ensures
            r == may_grow(self@.ta, g.half, max_included),
    {
        proof {
            assert forall|l: int| 0 <= l < self.ta@.len() implies #[trigger] bit_at(g.valid@, l) by {}
            lemma_count(self.inc@, self.ta@, g.valid@, g.half, (64 * g.words) as nat);
        }
        under_include_limit(&self.inc, &g.valid, g.words, max_included)
    }

    /// Applies Type I feedback. A clause that may not grow forgets without a look at the sample:
    /// all its literals count as absent, so that a clause that never fires lets go of each of them.
    pub fn type_i(
        &mut self,
        g: &Geometry,
        fired: bool,
        boost: bool,
        lit_b: &[u8],
        inv_b: &[u8],
        keep_b: &[u8],
        active_b: &[u8],
    )
        requires
            old(self).wf(g),
            lit_b@.len() == g.n_literals,
            inv_b@.len() == g.n_literals,
            keep_b@.len() == g.n_literals,
            active_b@.len() == g.n_literals,
            forall|l: int| 0 <= l < g.n_literals ==> #[trigger] lit_b@[l] <= 1,
        ensures
            final(self).wf(g),
            final(self)@ == (ClauseState {
                ta: type_i_of(
                    old(self)@.ta,
                    fired,
                    boost,
                    flags(lit_b@),
                    flags(inv_b@),
                    flags(keep_b@),
                    flags(active_b@),
                    g.max_state,
                ),
                ..old(self)@
            }),
    {
        if fired {
            type_i_update_bytes(
                &mut self.ta,
                g.n_literals,
                true,
                boost,
                lit_b,
                inv_b,
                keep_b,
                active_b,
                g.max_state,
            );
        } else {
            let absent: Vec<u8> = vec![0u8; g.n_literals];
            type_i_update_bytes(
                &mut self.ta,
                g.n_literals,
                false,
                boost,
                &absent,
                inv_b,
                keep_b,
                active_b,
                g.max_state,
            );
        }
        rebuild_include(&self.ta, &mut self.inc, &g.valid, g.words, g.n_literals, g.half);
    }

    /// Applies Type II feedback.
    pub fn type_ii(&mut self, g: &Geometry, lit_b: &[u8], active_b: &[u8])
        requires
            old(self).wf(g),
            lit_b@.len() == g.n_literals,
            active_b@.len() == g.n_literals,
            forall|l: int| 0 <= l < g.n_literals ==> #[trigger] lit_b@[l] <= 1,
        ensures
            final(self).wf(g),
            final(self)@ == (ClauseState {
                ta: type_ii_of(
                    old(self)@.ta,
                    flags(lit_b@),
                    flags(active_b@),
                    g.half,
                    g.max_state,
                ),
                ..old(self)@
            }),
    {
        type_ii_update_bytes(&mut self.ta, g.n_literals, lit_b, active_b, g.half, g.max_state);
        rebuild_include(&self.ta, &mut self.inc, &g.valid, g.words, g.n_literals, g.half);
    }

    /// Applies Type III feedback.
    pub fn type_iii(
        &mut self,
        g: &Geometry,
        lit: &[u64],
        lit_active: &[u64],
        active_b: &[u8],
        d_gate: u64,
        gate: u64,
        target: bool,
        rng: &mut Rng,
    )
        requires
            old(self).wf(g),
            lit@.len() == g.words,
            lit_active@.len() == g.words,
            expands(active_b@, lit_active@, g.n_literals as int),
        ensures
            final(self).wf(g),
            final(self)@ == type_iii_of(
                old(self)@,
                old(rng)@,
                target,
                d_gate,
                gate,
                bits_of(lit@, g.n_literals as nat),
                bits_of(lit_active@, g.n_literals as nat),
                g.half,
                g.max_state,
            ),
            final(rng)@ == type_iii_stream(
                holds(
                    old(self)@.ta,
                    g.half,
                    bits_of(lit@, g.n_literals as nat),
                    bits_of(lit_active@, g.n_literals as nat),
                ),
                target,
                old(rng)@,
            ),
    {
        let ghost before = *self;
        let ghost n = g.n_literals as nat;
        let ghost x = bits_of(lit@, n);
        let ghost act = bits_of(lit_active@, n);
        let changed: bool = type_iii_update(
            &mut self.ta,
            &mut self.ind,
            &mut self.cat,
            &self.inc,
            lit,
            &g.valid,
            lit_active,
            active_b,
            g.words,
            g.n_literals,
            d_gate,
            gate,
            target,
            rng,
            g.half,
            g.max_state,
        );
        proof {
            before.lemma_holds(g, lit@, lit_active@);
            lemma_flags(active_b@, lit_active@, n);
            assert forall|l: int| 0 <= l < n implies bit_at(g.valid@, l) by {}
            if !holds(before.ta@, g.half, x, act) {
                let b = choose|b: int|
                    0 <= b < 64 * g.words && #[trigger] is_first_missing(
                        before.inc@,
                        lit@,
                        g.valid@,
                        lit_active@,
                        b,
                    ) && forall|l: int|
                        0 <= l < 64 * g.words ==> #[trigger] bit_at(self.cat@, l) == if l == b {
                            recorded(bit_at(before.cat@, l), target)
                        } else {
                            bit_at(before.cat@, l)
                        };
                assert(bit_at(before.inc@, b));
                assert forall|l: int| 0 <= l < b && #[trigger] before.ta@[l] >= g.half && act[l] implies x[l] by {
                    assert(bit_at(before.inc@, l));
                    assert(bit_at(lit@, l));
                }
                assert(is_first_blocking(before.ta@, g.half, x, act, b));
                lemma_first_blocking(before.ta@, g.half, x, act, b);
            }
        }
        if changed {
            rebuild_include(&self.ta, &mut self.inc, &g.valid, g.words, g.n_literals, g.half);
        } else {
            proof {
                assert(self.ta@ =~= before.ta@);
            }
        }
        proof {
            let want = type_iii_of(
                before@,
                old(rng)@,
                target,
                d_gate,
                gate,
                x,
                act,
                g.half,
                g.max_state,
            );
            assert(self@.ta =~= want.ta);
            assert(self@.ind =~= want.ind);
            assert(self@.cat =~= want.cat);
        }
    }
}

/// The included literals among the first `n`, as pairs of a feature and whether it is negated.
pub open spec fn rule_of(ta: Seq<u8>, half: u8, n_features: int, n: nat) -> Seq<(usize, bool)>
    decreases n,
{
    if n == 0 {
        seq![]
    } else {
        let rest = rule_of(ta, half, n_features, (n - 1) as nat);
        let l = n - 1;
        if ta[l] >= half {
            rest.push(
                if l < n_features {
                    (l as usize, false)
                } else {
                    ((l - n_features) as usize, true)
                },
            )
        } else {
            rest
        }
    }
}

/// How many of the first `n` counters are `v`.
pub open spec fn count_at(ta: Seq<u8>, v: u8, n: nat) -> nat
    decreases n,
{
    if n == 0 {
        0
    } else {
        count_at(ta, v, (n - 1) as nat) + if ta[n - 1] == v {
            1nat
        } else {
            0
        }
    }
}

/// A value per literal, laid out for more features: what belonged to a feature or its
/// negation still does, and the new literals get `fill`.
pub open spec fn regrown<T>(s: Seq<T>, old_nf: int, new_nf: int, fill: T) -> Seq<T> {
    Seq::new(
        (2 * new_nf) as nat,
        |l: int|
            if l < old_nf {
                s[l]
            } else if new_nf <= l < new_nf + old_nf {
                s[l - (new_nf - old_nf)]
            } else {
                fill
            },
    )
}

/// The automata after the number of features grew. New literals start just excluded.
pub open spec fn grown_state(m: ClauseState, old_nf: int, new_nf: int, half: u8) -> ClauseState {
    ClauseState {
        ta: regrown(m.ta, old_nf, new_nf, (half - 1) as u8),
        ind: regrown(m.ind, old_nf, new_nf, half),
        cat: regrown(m.cat, old_nf, new_nf, false),
    }
}

/// Copies a byte per literal into the layout for more features.
fn regrow_bytes(old: &[u8], old_nf: usize, new_nf: usize, fill: u8) -> (r: Vec<u8>)
    requires
        old@.len() == 2 * old_nf,
        old_nf <= new_nf,
        2 * new_nf <= usize::MAX,
    ensures
        r@ == regrown(old@, old_nf as int, new_nf as int, fill),
{
    let mut r: Vec<u8> = Vec::with_capacity(2 * new_nf);
    let mut l: usize = 0;
    while l < 2 * new_nf
        invariant
            old@.len() == 2 * old_nf,
            old_nf <= new_nf,
            2 * new_nf <= usize::MAX,
            l <= 2 * new_nf,
            r@.len() == l,
            forall|i: int|
                0 <= i < l ==> #[trigger] r@[i] == regrown(old@, old_nf as int, new_nf as int, fill)[i],
        decreases 2 * new_nf - l,
    {
        r.push(
            if l < old_nf {
                old[l]
            } else if l >= new_nf && l - new_nf < old_nf {
                old[l - (new_nf - old_nf)]
            } else {
                fill
            },
        );
        l = l + 1;
    }
    r
}

impl Automata {
    /// The included literals, as pairs of a feature and whether it is negated.
    pub fn rule(&self, g: &Geometry, n_features: usize) -> (r: Vec<(usize, bool)>)
        requires
            self.wf(g),
            g.n_literals == 2 * n_features,
        ensures
            r@ == rule_of(self@.ta, g.half, n_features as int, g.n_literals as nat),
    {
        let mut r: Vec<(usize, bool)> = Vec::new();
        let mut l: usize = 0;
        while l < g.n_literals
            invariant
                self.wf(g),
                g.n_literals == 2 * n_features,
                l <= g.n_literals,
                r@ == rule_of(self@.ta, g.half, n_features as int, l as nat),
            decreases g.n_literals - l,
        {
            proof {
                assert(bit_at(g.valid@, l as int));
            }
            if get_bit(&self.inc, l) {
                if l < n_features {
                    r.push((l, false));
                } else {
                    r.push((l - n_features, true));
                }
            }
            l = l + 1;
        }
        r
    }

    /// How many counters are `v`.
    pub fn count_state(&self, v: u8) -> (r: usize)
        ensures
            r == count_at(self@.ta, v, self@.ta.len()),
            r <= self@.ta.len(),
    {
        let mut r: usize = 0;
        let mut l: usize = 0;
        while l < self.ta.len()
            invariant
                l <= self.ta@.len(),
                r <= l,
                r == count_at(self.ta@, v, l as nat),
            decreases self.ta@.len() - l,
        {
            if self.ta[l] == v {
                r = r + 1;
            }
            l = l + 1;
        }
        r
    }

    /// The automata for more features, with everything learned kept.
    pub fn grow(&self, g: &Geometry, wide: &Geometry, old_nf: usize, new_nf: usize) -> (r: Self)
        requires
            self.wf(g),
            wide.wf(),
            g.n_literals == 2 * old_nf,
            wide.n_literals == 2 * new_nf,
            old_nf <= new_nf,
            wide.half == g.half,
        ensures
            r.wf(wide),
            r@ == grown_state(self@, old_nf as int, new_nf as int, g.half),
            forall|l: int|
                wide.n_literals <= l < 64 * wide.words ==> !#[trigger] bit_at(r.cat@, l),
    {
        let ta: Vec<u8> = regrow_bytes(&self.ta, old_nf, new_nf, g.half - 1);
        let ind: Vec<u8> = regrow_bytes(&self.ind, old_nf, new_nf, g.half);
        let mut cat: Vec<u64> = no_bits(wide.words);
        let ghost want = regrown(self@.cat, old_nf as int, new_nf as int, false);
        let mut l: usize = 0;
        while l < wide.n_literals
            invariant
                self.wf(g),
                wide.wf(),
                g.n_literals == 2 * old_nf,
                wide.n_literals == 2 * new_nf,
                old_nf <= new_nf,
                l <= wide.n_literals,
                cat@.len() == wide.words,
                want == regrown(self@.cat, old_nf as int, new_nf as int, false),
                forall|i: int| 0 <= i < 64 * wide.words ==> #[trigger] bit_at(cat@, i) == (i < l && want[i]),
            decreases wide.n_literals - l,
        {
            if l < old_nf {
                if get_bit(&self.cat, l) {
                    set_bit(&mut cat, l);
                }
            } else if l >= new_nf && l - new_nf < old_nf {
                if get_bit(&self.cat, l - (new_nf - old_nf)) {
                    set_bit(&mut cat, l);
                }
            }
            l = l + 1;
        }
        let mut inc: Vec<u64> = no_bits(wide.words);
        rebuild_include(&ta, &mut inc, &wide.valid, wide.words, wide.n_literals, wide.half);
        let r: Automata = Automata { ta, inc, ind, cat };
        proof {
            assert(r@.cat =~= want);
        }
        r
    }
}

/// Growing does not change how a clause votes, whatever the new features are: the new literals
/// are excluded, and the old ones keep their features.
pub proof fn lemma_grow_keeps_votes(m: ClauseState, old_nf: nat, new_nf: nat, half: u8, x: Seq<u8>, wide: Seq<u8>)
    requires
        m.ta.len() == 2 * old_nf,
        old_nf <= new_nf,
        half >= 1,
        x.len() == old_nf,
        wide.len() == new_nf,
        forall|i: int| 0 <= i < old_nf ==> #[trigger] wide[i] == x[i],
    ensures
        votes(
            grown_state(m, old_nf as int, new_nf as int, half).ta,
            half,
            literals_of(wide, new_nf as int),
        ) == votes(m.ta, half, literals_of(x, old_nf as int)),
{
    let g = grown_state(m, old_nf as int, new_nf as int, half).ta;
    let gx = literals_of(wide, new_nf as int);
    let ox = literals_of(x, old_nf as int);
    let d = new_nf - old_nf;
    assert forall|l: int| 0 <= l < 2 * old_nf implies {
        let w = if l < old_nf {
            l
        } else {
            l + d
        };
        #[trigger] m.ta[l] == g[w] && ox[l] == gx[w]
    } by {
        if l >= old_nf {
            assert(wide[l - old_nf] == x[l - old_nf]);
        } else {
            assert(wide[l] == x[l]);
        }
    }
    assert forall|w: int| 0 <= w < 2 * new_nf && #[trigger] g[w] >= half implies {
        let l = if w < old_nf {
            w
        } else {
            w - d
        };
        0 <= l < 2 * old_nf && m.ta[l] == g[w] && ox[l] == gx[w]
    } by {
        if w < old_nf {
            assert(m.ta[w] == g[w]);
        } else {
            assert(m.ta[w - d] == g[w]);
        }
    }
    if votes(m.ta, half, ox) {
        let l = choose|l: int| 0 <= l < m.ta.len() && #[trigger] m.ta[l] >= half;
        let w = if l < old_nf {
            l
        } else {
            l + d
        };
        assert(g[w] >= half);
    }
    if votes(g, half, gx) {
        let w = choose|w: int| 0 <= w < g.len() && #[trigger] g[w] >= half;
        let l = if w < old_nf {
            w
        } else {
            w - d
        };
        assert(m.ta[l] >= half);
        assert forall|i: int| 0 <= i < m.ta.len() && #[trigger] m.ta[i] >= half implies ox[i] by {
            let wi = if i < old_nf {
                i
            } else {
                i + d
            };
            assert(g[wi] >= half);
        }
    }
}

/// A counter at the largest state absorbs: neither Type I nor Type II feedback moves it.
pub proof fn lemma_include_absorbs(
    ta: Seq<u8>,
    l: int,
    fired: bool,
    boost: bool,
    x: Seq<bool>,
    inv: Seq<bool>,
    keep: Seq<bool>,
    act: Seq<bool>,
    half: u8,
    max: u8,
)
    requires
        0 <= l < ta.len(),
        ta[l] == max,
        half <= max,
    ensures
        type_i_of(ta, fired, boost, x, inv, keep, act, max)[l] == max,
        type_ii_of(ta, x, act, half, max)[l] == max,
{
}

/// A counter at 0 absorbs: Type II feedback does not move it, nor does Type I feedback to a clause
/// that does not fire or to an absent literal.
pub proof fn lemma_exclude_absorbs(
    ta: Seq<u8>,
    l: int,
    fired: bool,
    boost: bool,
    x: Seq<bool>,
    inv: Seq<bool>,
    keep: Seq<bool>,
    act: Seq<bool>,
    half: u8,
    max: u8,
)
    requires
        0 <= l < ta.len(),
        ta[l] == 0,
    ensures
        !fired || !x[l] ==> type_i_of(ta, fired, boost, x, inv, keep, act, max)[l] == 0,
        type_ii_of(ta, x, act, half, max)[l] == 0,
{
}

/// A literal that is not active keeps its counter, whatever the feedback.
pub proof fn lemma_inactive_kept(
    m: ClauseState,
    l: int,
    fired: bool,
    boost: bool,
    target: bool,
    s: u64,
    d_gate: u64,
    gate: u64,
    x: Seq<bool>,
    inv: Seq<bool>,
    keep: Seq<bool>,
    act: Seq<bool>,
    half: u8,
    max: u8,
)
    requires
        0 <= l < m.ta.len(),
        m.ta[l] <= max,
        !act[l],
    ensures
        type_i_of(m.ta, fired, boost, x, inv, keep, act, max)[l] == m.ta[l],
        type_ii_of(m.ta, x, act, half, max)[l] == m.ta[l],
        type_iii_of(m, s, target, d_gate, gate, x, act, half, max).ta[l] == m.ta[l],
{
}

/// Type I feedback to a clause that may not grow includes nothing, and to one that may it excludes
/// no present literal. Type II feedback excludes nothing.
pub proof fn lemma_feedback_directions(
    ta: Seq<u8>,
    boost: bool,
    x: Seq<bool>,
    inv: Seq<bool>,
    keep: Seq<bool>,
    act: Seq<bool>,
    half: u8,
    max: u8,
)
    requires
        forall|l: int| 0 <= l < ta.len() ==> #[trigger] ta[l] <= max,
    ensures
        forall|l: int|
            0 <= l < ta.len() ==> #[trigger] type_i_of(ta, false, boost, x, inv, keep, act, max)[l]
                <= ta[l],
        forall|l: int|
            0 <= l < ta.len() && x[l] ==> #[trigger] type_i_of(
                ta,
                true,
                boost,
                x,
                inv,
                keep,
                act,
                max,
            )[l] >= ta[l],
        forall|l: int|
            0 <= l < ta.len() ==> #[trigger] type_ii_of(ta, x, act, half, max)[l] >= ta[l],
{
}

/// A clause without literals votes for nothing in inference and fires always in training.
pub proof fn lemma_empty_clause(ta: Seq<u8>, half: u8, x: Seq<bool>, act: Seq<bool>)
    requires
        forall|l: int| 0 <= l < ta.len() ==> #[trigger] ta[l] < half,
    ensures
        !votes(ta, half, x),
        holds(ta, half, x, act),
{
}

/// New counters are just below or just at the threshold, so none is absorbed.
pub proof fn lemma_fresh_unabsorbed(s: u64, n: nat, half: u8, max: u8, k: nat)
    requires
        2 <= half <= 128,
        max == 2 * half - 1,
        k <= n,
    ensures
        count_at(fresh_state(s, n, half).ta, 0, k) == 0,
        count_at(fresh_state(s, n, half).ta, max, k) == 0,
    decreases k,
{
    if k > 0 {
        lemma_fresh_unabsorbed(s, n, half, max, (k - 1) as nat);
    }
}

/// Literal `l` as a pair of a feature and whether it is negated.
pub open spec fn literal_pair(l: int, n_features: int) -> (usize, bool) {
    if l < n_features {
        (l as usize, false)
    } else {
        ((l - n_features) as usize, true)
    }
}

/// A rule lists exactly the included literals, each once.
pub proof fn lemma_rule_lists_included(ta: Seq<u8>, half: u8, n_features: nat, n: nat)
    requires
        n <= 2 * n_features <= usize::MAX,
    ensures
        rule_of(ta, half, n_features as int, n).len() == count_included(ta, half, n),
        forall|l: int|
            0 <= l < n ==> (ta[l] >= half <==> rule_of(ta, half, n_features as int, n).contains(
                #[trigger] literal_pair(l, n_features as int),
            )),
        forall|i: int|
            0 <= i < rule_of(ta, half, n_features as int, n).len() ==> is_pair_below(
                #[trigger] rule_of(ta, half, n_features as int, n)[i],
                n_features as int,
                n as int,
            ),
    decreases n,
{
    if n > 0 {
        let nf = n_features as int;
        let k = (n - 1) as nat;
        lemma_rule_lists_included(ta, half, n_features, k);
        let before = rule_of(ta, half, nf, k);
        let after = rule_of(ta, half, nf, n);
        assert forall|i: int| 0 <= i < before.len() implies is_pair_below(#[trigger] before[i], nf, n as int) by {
            let l = choose|l: int| 0 <= l < k && before[i] == literal_pair(l, nf);
            assert(0 <= l < n && before[i] == literal_pair(l, nf));
        }
        assert forall|i: int| 0 <= i < after.len() implies is_pair_below(#[trigger] after[i], nf, n as int) by {
            if i < before.len() {
                assert(after[i] == before[i]);
            } else {
                assert(after[i] == literal_pair(n - 1, nf));
            }
        }
        assert forall|l: int| 0 <= l < n implies (ta[l] >= half <==> after.contains(
            #[trigger] literal_pair(l, nf),
        )) by {
            let pair = literal_pair(l, nf);
            if l < k {
                if before.contains(pair) {
                    let i = choose|i: int| 0 <= i < before.len() && before[i] == pair;
                    assert(after[i] == pair);
                }
                if after.contains(pair) {
                    let i = choose|i: int| 0 <= i < after.len() && after[i] == pair;
                    if i < before.len() {
                        assert(before[i] == pair);
                    } else {
                        assert(literal_pair(n - 1, nf) == pair);
                    }
                }
            } else {
                if ta[l] >= half {
                    assert(after[before.len() as int] == pair);
                } else if after.contains(pair) {
                    let i = choose|i: int| 0 <= i < before.len() && before[i] == pair;
                    let j = choose|j: int| 0 <= j < k && before[i] == literal_pair(j, nf);
                    assert(literal_pair(j, nf) == literal_pair(l, nf));
                }
            }
        }
    }
}

/// The pair is that of a literal below `n`.
pub open spec fn is_pair_below(p: (usize, bool), n_features: int, n: int) -> bool {
    exists|l: int| 0 <= l < n && p == #[trigger] literal_pair(l, n_features)
}

/// Where the first `n` literals of a grown clause come from.
spec fn grown_from(n: int, old_nf: int, new_nf: int) -> int {
    if n <= old_nf {
        n
    } else if n <= new_nf {
        old_nf
    } else if n <= new_nf + old_nf {
        n - (new_nf - old_nf)
    } else {
        2 * old_nf
    }
}

proof fn lemma_grown_rule(m: ClauseState, old_nf: nat, new_nf: nat, half: u8, n: nat)
    requires
        half >= 1,
        m.ta.len() == 2 * old_nf,
        old_nf <= new_nf,
        n <= 2 * new_nf,
    ensures
        rule_of(grown_state(m, old_nf as int, new_nf as int, half).ta, half, new_nf as int, n) == rule_of(
            m.ta,
            half,
            old_nf as int,
            grown_from(n as int, old_nf as int, new_nf as int) as nat,
        ),
    decreases n,
{
    if n > 0 {
        lemma_grown_rule(m, old_nf, new_nf, half, (n - 1) as nat);
    }
}

/// Growing keeps the rule of a clause: the same features, negated or not, in the same order.
pub proof fn lemma_grow_keeps_rule(m: ClauseState, old_nf: nat, new_nf: nat, half: u8)
    requires
        half >= 1,
        m.ta.len() == 2 * old_nf,
        old_nf <= new_nf,
    ensures
        rule_of(
            grown_state(m, old_nf as int, new_nf as int, half).ta,
            half,
            new_nf as int,
            2 * new_nf,
        ) == rule_of(m.ta, half, old_nf as int, 2 * old_nf),
{
    lemma_grown_rule(m, old_nf, new_nf, half, 2 * new_nf);
}

} // verus!
