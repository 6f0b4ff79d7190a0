//! Weighted clauses, the feedback that trains them, and the votes they cast.
use crate::bits::{bit_at, bits_of, expand_bits_to_bytes, expands, literals_of, words_needed};
use crate::clause_bank::automata::{
    count_at, flags, grown_state, holds, lemma_flags, lemma_grow_keeps_votes, may_grow, type_i_of,
    type_ii_of, type_iii_of, type_iii_stream, votes, Automata, ClauseState, Geometry,
};
use crate::dyadic::{is_positive, Chance};
use crate::rng::{rng_frac, rng_next, rng_skip, Rng};
use crate::sampling::{bernoulli_mask, draw_drops, drops_of, mask_words};
use vstd::prelude::*;

verus! {

/// A clause with its weight and its own random stream, seen as values.
#[verifier::ext_equal]
pub struct ClauseModel {
    pub auto: ClauseState,
    pub weight: i32,
    pub rng: u64,
}

/// A clause with its weight and its own random stream.
#[derive(Clone, Debug)]
pub struct Clause {
    pub auto: Automata,
    pub weight: i32,
    pub rng: Rng,
}

impl View for Clause {
    type V = ClauseModel;

    open spec fn view(&self) -> ClauseModel {
        ClauseModel { auto: self.auto@, weight: self.weight, rng: self.rng@ }
    }
}

/// How a model gives feedback.
#[derive(Clone, Copy, Debug)]
pub struct Rules {
    /// Type I feedback always rewards present literals.
    pub boost: bool,
    /// How many literals a clause may include before Type I feedback stops rewarding it.
    pub max_included: usize,
    /// The smallest weight.
    pub wmin: i32,
    /// The largest weight.
    pub wmax: i32,
    /// Type III feedback is given.
    pub type_iii: bool,
    /// The bound on the drawn fraction for an indicator to gain.
    pub d_gate: u64,
    /// The probability with which a clause is dropped from an update.
    pub drop: Chance,
}

/// One sample as a training step sees it: its literals and the literals that are active,
/// both packed and expanded.
pub struct Inputs<'a> {
    pub lit: &'a [u64],
    pub lit_b: &'a [u8],
    pub active: &'a [u64],
    pub active_b: &'a [u8],
}

impl<'a> Inputs<'a> {
    pub open spec fn wf(&self, g: &Geometry) -> bool {
        &&& self.lit@.len() == g.words
        &&& self.active@.len() == g.words
        &&& expands(self.lit_b@, self.lit@, g.n_literals as int)
        &&& expands(self.active_b@, self.active@, g.n_literals as int)
    }

    /// The literals of the sample.
    pub open spec fn x(&self, g: &Geometry) -> Seq<bool> {
        bits_of(self.lit@, g.n_literals as nat)
    }

    /// The literals that are active.
    pub open spec fn act(&self, g: &Geometry) -> Seq<bool> {
        bits_of(self.active@, g.n_literals as nat)
    }
}

/// The clause after Type I (`reward`) or Type II feedback, given with the chance `gate`.
pub open spec fn feedback_of(
    c: ClauseModel,
    reward: bool,
    fires: bool,
    gate: u64,
    r: Rules,
    x: Seq<bool>,
    act: Seq<bool>,
    inv: Seq<bool>,
    keep: Seq<bool>,
    half: u8,
    max: u8,
) -> ClauseModel {
    let drawn = ClauseModel { rng: rng_next(c.rng), ..c };
    if rng_frac(c.rng) > gate {
        drawn
    } else if reward {
        let grows = fires && may_grow(c.auto.ta, half, r.max_included);
        ClauseModel {
            auto: ClauseState {
                ta: type_i_of(c.auto.ta, grows, r.boost, x, inv, keep, act, max),
                ..c.auto
            },
            weight: if grows && c.weight < r.wmax {
                (c.weight + 1) as i32
            } else {
                c.weight
            },
            ..drawn
        }
    } else if fires {
        ClauseModel {
            auto: ClauseState { ta: type_ii_of(c.auto.ta, x, act, half, max), ..c.auto },
            weight: if c.weight > r.wmin {
                (c.weight - 1) as i32
            } else {
                c.weight
            },
            ..drawn
        }
    } else {
        drawn
    }
}

/// The clause after Type III feedback.
pub open spec fn third_of(
    c: ClauseModel,
    target: bool,
    gate: u64,
    d_gate: u64,
    x: Seq<bool>,
    act: Seq<bool>,
    half: u8,
    max: u8,
) -> ClauseModel {
    ClauseModel {
        auto: type_iii_of(c.auto, c.rng, target, d_gate, gate, x, act, half, max),
        rng: type_iii_stream(holds(c.auto.ta, half, x, act), target, c.rng),
        ..c
    }
}

/// Clause `j` of a class after one update: even clauses speak for the class and are
/// rewarded on targets, odd ones speak against it.
pub open spec fn clause_step(
    c: ClauseModel,
    j: int,
    dropped: bool,
    target: bool,
    gate: u64,
    r: Rules,
    x: Seq<bool>,
    act: Seq<bool>,
    inv: Seq<bool>,
    keep: Seq<bool>,
    half: u8,
    max: u8,
) -> ClauseModel {
    if dropped {
        c
    } else {
        let c1 = feedback_of(
            c,
            target == (j % 2 == 0),
            holds(c.auto.ta, half, x, act),
            gate,
            r,
            x,
            act,
            inv,
            keep,
            half,
            max,
        );
        if r.type_iii {
            third_of(c1, target, gate, r.d_gate, x, act, half, max)
        } else {
            c1
        }
    }
}

impl Clause {
    pub open spec fn wf(&self, g: &Geometry, wmin: i32, wmax: i32) -> bool {
        &&& self.auto.wf(g)
        &&& wmin <= self.weight <= wmax
    }

    /// Gives Type I or Type II feedback to the clause, with the chance `gate`.
    pub fn apply_one_clause(
        &mut self,
        g: &Geometry,
        r: &Rules,
        reward: bool,
        fires: bool,
        gate: u64,
        lit_b: &[u8],
        inv_b: &[u8],
        keep_b: &[u8],
        active_b: &[u8],
    )
        requires
            old(self).wf(g, r.wmin, r.wmax),
            lit_b@.len() == g.n_literals,
            inv_b@.len() == g.n_literals,
            keep_b@.len() == g.n_literals,
            active_b@.len() == g.n_literals,
            forall|l: int| 0 <= l < g.n_literals ==> #[trigger] lit_b@[l] <= 1,
        ensures
            final(self).wf(g, r.wmin, r.wmax),
            final(self)@ == feedback_of(
                old(self)@,
                reward,
                fires,
                gate,
                *r,
                flags(lit_b@),
                flags(active_b@),
                flags(inv_b@),
                flags(keep_b@),
                g.half,
                g.max_state,
            ),
    {
        if self.rng.next_fraction() > gate {
            return ;
        }
        if reward {
            let grows: bool = fires && self.auto.can_grow(g, r.max_included);
            if grows && self.weight < r.wmax {
                self.weight = self.weight + 1;
            }
            self.auto.type_i(g, grows, r.boost, lit_b, inv_b, keep_b, active_b);
        } else if fires {
            if self.weight > r.wmin {
                self.weight = self.weight - 1;
            }
            self.auto.type_ii(g, lit_b, active_b);
        }
    }

    /// Gives Type III feedback to the clause.
    pub fn third(
        &mut self,
        g: &Geometry,
        inp: &Inputs,
        target: bool,
        gate: u64,
        d_gate: u64,
    )
        requires
            old(self).auto.wf(g),
            inp.wf(g),
        ensures
            final(self).auto.wf(g),
            final(self)@ == third_of(
                old(self)@,
                target,
                gate,
                d_gate,
                inp.x(g),
                inp.act(g),
                g.half,
                g.max_state,
            ),
    {
        self.auto.type_iii(
            g,
            inp.lit,
            inp.active,
            inp.active_b,
            d_gate,
            gate,
            target,
            &mut self.rng,
        );
    }
}

/// The clauses of one class and the stream from which its masks are drawn, as values.
#[verifier::ext_equal]
pub struct ClassModel {
    pub clauses: Seq<ClauseModel>,
    pub rng: u64,
}

/// The clauses of one class and the stream from which its masks are drawn.
#[derive(Clone, Debug)]
pub struct ClassBank {
    pub clauses: Vec<Clause>,
    pub rng: Rng,
}

/// The values of the clauses of a bank.
pub open spec fn clause_models(cs: Seq<Clause>) -> Seq<ClauseModel> {
    Seq::new(cs.len(), |j: int| cs[j]@)
}

impl View for ClassBank {
    type V = ClassModel;

    open spec fn view(&self) -> ClassModel {
        ClassModel { clauses: clause_models(self.clauses@), rng: self.rng@ }
    }
}

/// Which clauses of a class are dropped from an update that draws from `s`.
pub open spec fn class_drops(s: u64, drop: Chance, n: nat) -> Seq<bool> {
    if is_positive(drop) {
        drops_of(s, drop, n)
    } else {
        Seq::new(n, |j: int| false)
    }
}

/// The stream position after the decision which of `n` clauses are dropped.
pub open spec fn after_drops(s: u64, drop: Chance, n: nat) -> u64 {
    if is_positive(drop) {
        rng_skip(s, n)
    } else {
        s
    }
}

/// A Bernoulli mask over `n` literals drawn from stream position `s`.
pub open spec fn literal_mask(s: u64, digits: Seq<u8>, n: nat) -> Seq<bool> {
    bits_of(mask_words(s, digits, words_needed(n as int) as nat), n)
}

/// The stream position after a Bernoulli mask over `n` literals.
pub open spec fn after_mask(s: u64, digits: Seq<u8>, n: nat) -> u64 {
    rng_skip(s, (words_needed(n as int) * digits.len()) as nat)
}

/// A class after one update. Its stream decides which clauses are dropped and then draws
/// the two masks of Type I feedback, which all clauses share.
pub open spec fn class_update_of(
    m: ClassModel,
    target: bool,
    gate: u64,
    r: Rules,
    dig_inv: Seq<u8>,
    dig_keep: Seq<u8>,
    x: Seq<bool>,
    act: Seq<bool>,
    half: u8,
    max: u8,
) -> ClassModel {
    let n = m.clauses.len();
    let dropped = class_drops(m.rng, r.drop, n);
    let s1 = after_drops(m.rng, r.drop, n);
    let inv = literal_mask(s1, dig_inv, x.len());
    let s2 = after_mask(s1, dig_inv, x.len());
    let keep = literal_mask(s2, dig_keep, x.len());
    let s3 = after_mask(s2, dig_keep, x.len());
    ClassModel {
        clauses: Seq::new(
            n,
            |j: int|
                clause_step(m.clauses[j], j, dropped[j], target, gate, r, x, act, inv, keep, half, max),
        ),
        rng: s3,
    }
}

/// `v` limited to the range from `lo` to `hi`.
pub open spec fn clamp(v: int, lo: int, hi: int) -> int {
    if v < lo {
        lo
    } else if v > hi {
        hi
    } else {
        v
    }
}

/// The sum of the votes of the first `n` clauses: a clause that fires adds its weight if
/// its index is even and subtracts it if it is odd.
pub open spec fn polar_sum(fired: Seq<bool>, weights: Seq<i32>, n: nat) -> int
    decreases n,
{
    if n == 0 {
        0
    } else {
        polar_sum(fired, weights, (n - 1) as nat) + if !fired[n - 1] {
            0
        } else if (n - 1) % 2 == 0 {
            weights[n - 1] as int
        } else {
            -(weights[n - 1] as int)
        }
    }
}

/// The weights of clauses.
pub open spec fn weights_of(cs: Seq<ClauseModel>) -> Seq<i32> {
    Seq::new(cs.len(), |j: int| cs[j].weight)
}

/// Which clauses fire in training.
pub open spec fn fired_train(cs: Seq<ClauseModel>, half: u8, x: Seq<bool>, act: Seq<bool>) -> Seq<
    bool,
> {
    Seq::new(cs.len(), |j: int| holds(cs[j].auto.ta, half, x, act))
}

/// Which clauses fire in inference.
pub open spec fn fired_predict(cs: Seq<ClauseModel>, half: u8, x: Seq<bool>) -> Seq<bool> {
    Seq::new(cs.len(), |j: int| votes(cs[j].auto.ta, half, x))
}

/// The clamped vote sum of a class in training.
pub open spec fn train_sum(cs: Seq<ClauseModel>, half: u8, x: Seq<bool>, act: Seq<bool>, t: int) -> int {
    clamp(polar_sum(fired_train(cs, half, x, act), weights_of(cs), cs.len()), -t, t)
}

/// The vote sum of a class in inference.
pub open spec fn vote_sum(cs: Seq<ClauseModel>, half: u8, x: Seq<bool>) -> int {
    polar_sum(fired_predict(cs, half, x), weights_of(cs), cs.len())
}

/// The clamped vote sum of a class in inference.
pub open spec fn class_score(cs: Seq<ClauseModel>, half: u8, x: Seq<bool>, t: int) -> int {
    clamp(vote_sum(cs, half, x), -t, t)
}

/// Limits a vote sum to the threshold.
pub fn clamp_sum(sum: i128, t: i32) -> (r: i32)
    requires
        t >= 1,
    ensures
        r == clamp(sum as int, -t as int, t as int),
{
    if sum < -(t as i128) {
        -t
    } else if sum > t as i128 {
        t
    } else {
        sum as i32
    }
}

impl ClassBank {
    pub open spec fn wf(&self, g: &Geometry, wmin: i32, wmax: i32) -> bool {
        forall|j: int|
            0 <= j < self.clauses@.len() ==> (#[trigger] self.clauses@[j]).wf(g, wmin, wmax)
    }

    /// The automata of all clauses are well-formed.
    pub open spec fn autos_wf(&self, g: &Geometry) -> bool {
        forall|j: int| 0 <= j < self.clauses@.len() ==> (#[trigger] self.clauses@[j]).auto.wf(g)
    }

    /// The clamped vote sum in training.
    pub fn class_sum_train(&self, g: &Geometry, inp: &Inputs, t: i32) -> (r: i32)
        requires
            g.wf(),
            self.autos_wf(g),
            inp.wf(g),
            t >= 1,
        ensures
            r == train_sum(self@.clauses, g.half, inp.x(g), inp.act(g), t as int),
            -t <= r <= t,
    {
        let ghost m = self@.clauses;
        let ghost f = fired_train(m, g.half, inp.x(g), inp.act(g));
        let mut sum: i128 = 0;
        let mut j: usize = 0;
        while j < self.clauses.len()
            invariant
                j <= self.clauses@.len(),
                self.autos_wf(g),
                inp.wf(g),
                m == self@.clauses,
                f == fired_train(m, g.half, inp.x(g), inp.act(g)),
                sum == polar_sum(f, weights_of(m), j as nat),
                -0x8000_0000 * j <= sum <= 0x8000_0000 * j,
            decreases self.clauses@.len() - j,
        {
            let c: &Clause = &self.clauses[j];
            if c.auto.fires(g, inp.lit, inp.active) {
                if j % 2 == 0 {
                    sum = sum + c.weight as i128;
                } else {
                    sum = sum - c.weight as i128;
                }
            }
            j = j + 1;
        }
        clamp_sum(sum, t)
    }

    /// The vote sum in inference.
    pub fn vote(&self, g: &Geometry, lit: &[u64]) -> (r: i128)
        requires
            g.wf(),
            self.autos_wf(g),
            lit@.len() == g.words,
        ensures
            r == vote_sum(self@.clauses, g.half, bits_of(lit@, g.n_literals as nat)),
    {
        let ghost m = self@.clauses;
        let ghost x = bits_of(lit@, g.n_literals as nat);
        let ghost f = fired_predict(m, g.half, x);
        let mut sum: i128 = 0;
        let mut j: usize = 0;
        while j < self.clauses.len()
            invariant
                j <= self.clauses@.len(),
                self.autos_wf(g),
                lit@.len() == g.words,
                m == self@.clauses,
                x == bits_of(lit@, g.n_literals as nat),
                f == fired_predict(m, g.half, x),
                sum == polar_sum(f, weights_of(m), j as nat),
                -0x8000_0000 * j <= sum <= 0x8000_0000 * j,
            decreases self.clauses@.len() - j,
        {
            let c: &Clause = &self.clauses[j];
            if c.auto.matches(g, lit) {
                if j % 2 == 0 {
                    sum = sum + c.weight as i128;
                } else {
                    sum = sum - c.weight as i128;
                }
            }
            j = j + 1;
        }
        sum
    }

    /// The indices of the clauses that fire for a sample.
    pub fn fired(&self, g: &Geometry, lit: &[u64]) -> (r: Vec<usize>)
        requires
            g.wf(),
            self.autos_wf(g),
            lit@.len() == g.words,
        ensures
            r@ == fired_indices(
                fired_predict(self@.clauses, g.half, bits_of(lit@, g.n_literals as nat)),
                self.clauses@.len(),
            ),
    {
        let ghost f = fired_predict(self@.clauses, g.half, bits_of(lit@, g.n_literals as nat));
        let mut r: Vec<usize> = Vec::new();
        let mut j: usize = 0;
        while j < self.clauses.len()
            invariant
                j <= self.clauses@.len(),
                self.autos_wf(g),
                lit@.len() == g.words,
                f == fired_predict(self@.clauses, g.half, bits_of(lit@, g.n_literals as nat)),
                r@ == fired_indices(f, j as nat),
            decreases self.clauses@.len() - j,
        {
            if self.clauses[j].auto.matches(g, lit) {
                r.push(j);
            }
            j = j + 1;
        }
        r
    }

    /// Gives one update of feedback to all clauses of the class.
    pub fn update(
        &mut self,
        g: &Geometry,
        r: &Rules,
        dig_inv: &[u8],
        dig_keep: &[u8],
        target: bool,
        gate: u64,
        inp: &Inputs,
    )
        requires
            g.wf(),
            old(self).wf(g, r.wmin, r.wmax),
            inp.wf(g),
        ensures
            final(self).wf(g, r.wmin, r.wmax),
            final(self)@ == class_update_of(
                old(self)@,
                target,
                gate,
                *r,
                dig_inv@,
                dig_keep@,
                inp.x(g),
                inp.act(g),
                g.half,
                g.max_state,
            ),
    {
        let ghost m = self@;
        let ghost x = inp.x(g);
        let ghost act = inp.act(g);
        let n: usize = self.clauses.len();
        let dropped: Vec<bool> = if r.drop.positive() {
            draw_drops(&mut self.rng, r.drop, n)
        } else {
            vec![false; n]
        };
        proof {
            assert(dropped@ =~= class_drops(m.rng, r.drop, n as nat));
        }
        let inv_mask: Vec<u64> = bernoulli_mask(&mut self.rng, dig_inv, g.words);
        let keep_mask: Vec<u64> = bernoulli_mask(&mut self.rng, dig_keep, g.words);
        let inv_b: Vec<u8> = expand_bits_to_bytes(&inv_mask, g.n_literals);
        let keep_b: Vec<u8> = expand_bits_to_bytes(&keep_mask, g.n_literals);
        let ghost inv = bits_of(inv_mask@, g.n_literals as nat);
        let ghost keep = bits_of(keep_mask@, g.n_literals as nat);
        proof {
            lemma_flags(inv_b@, inv_mask@, g.n_literals as nat);
            lemma_flags(keep_b@, keep_mask@, g.n_literals as nat);
            lemma_flags(inp.lit_b@, inp.lit@, g.n_literals as nat);
            lemma_flags(inp.active_b@, inp.active@, g.n_literals as nat);
        }
        let ghost want = class_update_of(
            m,
            target,
            gate,
            *r,
            dig_inv@,
            dig_keep@,
            x,
            act,
            g.half,
            g.max_state,
        );
        let mut j: usize = 0;
        while j < n
            invariant
                j <= n,
                n == self.clauses@.len(),
                n == m.clauses.len(),
                g.wf(),
                inp.wf(g),
                self.wf(g, r.wmin, r.wmax),
                self.rng@ == want.rng,
                dropped@ == class_drops(m.rng, r.drop, n as nat),
                want.clauses.len() == n,
                forall|i: int| 0 <= i < j ==> (#[trigger] self.clauses@[i])@ == want.clauses[i],
                forall|i: int| j <= i < n ==> (#[trigger] self.clauses@[i])@ == m.clauses[i],
                forall|i: int|
                    0 <= i < n ==> #[trigger] want.clauses[i] == clause_step(
                        m.clauses[i],
                        i,
                        dropped@[i],
                        target,
                        gate,
                        *r,
                        x,
                        act,
                        inv,
                        keep,
                        g.half,
                        g.max_state,
                    ),
                x == inp.x(g),
                act == inp.act(g),
                flags(inp.lit_b@) == x,
                flags(inp.active_b@) == act,
                flags(inv_b@) == inv,
                flags(keep_b@) == keep,
                inv_b@.len() == g.n_literals,
                keep_b@.len() == g.n_literals,
                forall|l: int| 0 <= l < g.n_literals ==> #[trigger] inp.lit_b@[l] <= 1,
            decreases n - j,
        {
            let ghost before = self.clauses@;
            if !dropped[j] {
                let reward: bool = target == (j % 2 == 0);
                let c: &mut Clause = &mut self.clauses[j];
                let fires: bool = c.auto.fires(g, inp.lit, inp.active);
                c.apply_one_clause(
                    g,
                    r,
                    reward,
                    fires,
                    gate,
                    inp.lit_b,
                    &inv_b,
                    &keep_b,
                    inp.active_b,
                );
                if r.type_iii {
                    c.third(g, inp, target, gate, r.d_gate);
                }
            }
            proof {
                assert(self.clauses@[j as int]@ == want.clauses[j as int]);
            }
            j = j + 1;
        }
        proof {
            assert(self@.clauses =~= want.clauses);
        }
    }
}

/// The indices below `n` at which `f` is true, in increasing order.
pub open spec fn fired_indices(f: Seq<bool>, n: nat) -> Seq<usize>
    decreases n,
{
    if n == 0 {
        seq![]
    } else if f[n - 1] {
        fired_indices(f, (n - 1) as nat).push((n - 1) as usize)
    } else {
        fired_indices(f, (n - 1) as nat)
    }
}

/// Clauses after the number of features grew; weights and streams stay as they are.
pub open spec fn grown_clauses(cs: Seq<ClauseModel>, old_nf: int, new_nf: int, half: u8) -> Seq<
    ClauseModel,
> {
    Seq::new(
        cs.len(),
        |j: int| ClauseModel { auto: grown_state(cs[j].auto, old_nf, new_nf, half), ..cs[j] },
    )
}

/// Grows all clauses to more features, keeping everything learned.
pub fn grow_dense_state(
    clauses: &mut Vec<Clause>,
    g: &Geometry,
    wide: &Geometry,
    old_n_features: usize,
    new_n_features: usize,
)
    requires
        forall|j: int| 0 <= j < old(clauses)@.len() ==> (#[trigger] old(clauses)@[j]).auto.wf(g),
        wide.wf(),
        g.n_literals == 2 * old_n_features,
        wide.n_literals == 2 * new_n_features,
        old_n_features <= new_n_features,
        wide.half == g.half,
    ensures
        clause_models(final(clauses)@) == grown_clauses(
            clause_models(old(clauses)@),
            old_n_features as int,
            new_n_features as int,
            g.half,
        ),
        forall|j: int| 0 <= j < final(clauses)@.len() ==> (#[trigger] final(clauses)@[j]).auto.wf(wide),
        forall|j: int, l: int|
            0 <= j < final(clauses)@.len() && wide.n_literals <= l < 64 * wide.words
                ==> !#[trigger] bit_at(final(clauses)@[j].auto.cat@, l),
{
    let ghost before = clauses@;
    let n: usize = clauses.len();
    let mut j: usize = 0;
    while j < n
        invariant
            j <= n,
            n == before.len(),
            clauses@.len() == n,
            forall|i: int| 0 <= i < n ==> (#[trigger] before[i]).auto.wf(g),
            wide.wf(),
            g.n_literals == 2 * old_n_features,
            wide.n_literals == 2 * new_n_features,
            old_n_features <= new_n_features,
            wide.half == g.half,
            forall|i: int| j <= i < n ==> #[trigger] clauses@[i] == before[i],
            forall|i: int|
                0 <= i < j ==> (#[trigger] clauses@[i]).auto.wf(wide) && clauses@[i]@ == (ClauseModel {
                    auto: grown_state(
                        before[i].auto@,
                        old_n_features as int,
                        new_n_features as int,
                        g.half,
                    ),
                    ..before[i]@
                }),
        decreases n - j,
    {
        let c: &mut Clause = &mut clauses[j];
        proof {
            assert(before[j as int].auto.wf(g));
        }
        let grown: Automata = c.auto.grow(g, wide, old_n_features, new_n_features);
        c.auto = grown;
        j = j + 1;
    }
    proof {
        assert(clause_models(clauses@) =~= grown_clauses(
            clause_models(before),
            old_n_features as int,
            new_n_features as int,
            g.half,
        ));
    }
}

/// How many counters of the first `n` clauses are `v`.
pub open spec fn class_count_at(cs: Seq<ClauseModel>, v: u8, n: nat) -> nat
    decreases n,
{
    if n == 0 {
        0
    } else {
        class_count_at(cs, v, (n - 1) as nat) + count_at(
            cs[n - 1].auto.ta,
            v,
            cs[n - 1].auto.ta.len(),
        )
    }
}

impl ClassBank {
    /// How many counters of the class are `v`.
    pub fn count_state(&self, g: &Geometry, v: u8) -> (r: usize)
        requires
            self.autos_wf(g),
            self.clauses@.len() * g.n_literals <= usize::MAX,
        ensures
            r == class_count_at(self@.clauses, v, self.clauses@.len()),
            r <= self.clauses@.len() * g.n_literals,
    {
        let ghost m = self@.clauses;
        let mut r: usize = 0;
        let mut j: usize = 0;
        proof {
            assert(0 * g.n_literals == 0) by (nonlinear_arith);
        }
        while j < self.clauses.len()
            invariant
                j <= self.clauses@.len(),
                self.autos_wf(g),
                self.clauses@.len() * g.n_literals <= usize::MAX,
                m == self@.clauses,
                r == class_count_at(m, v, j as nat),
                r <= j * g.n_literals,
            decreases self.clauses@.len() - j,
        {
            let k: usize = self.clauses[j].auto.count_state(v);
            proof {
                let n = g.n_literals as int;
                let len = self.clauses@.len() as int;
                assert((j + 1) * n == j * n + n) by (nonlinear_arith);
                assert((j + 1) * n <= len * n) by (nonlinear_arith)
                    requires
                        j + 1 <= len,
                        n >= 0,
                ;
                assert(m[j as int].auto.ta.len() == n);
            }
            r = r + k;
            j = j + 1;
        }
        r
    }
}

/// An update of a class leaves the counters of literals that are not active as they are, in every
/// clause.
pub proof fn lemma_update_keeps_inactive(
    m: ClassModel,
    target: bool,
    gate: u64,
    r: Rules,
    dig_inv: Seq<u8>,
    dig_keep: Seq<u8>,
    x: Seq<bool>,
    act: Seq<bool>,
    half: u8,
    max: u8,
    j: int,
    l: int,
)
    requires
        0 <= j < m.clauses.len(),
        0 <= l < m.clauses[j].auto.ta.len(),
        m.clauses[j].auto.ta[l] <= max,
        !act[l],
    ensures
        class_update_of(m, target, gate, r, dig_inv, dig_keep, x, act, half, max).clauses[j].auto.ta[l]
            == m.clauses[j].auto.ta[l],
{
}

/// Dropped clauses are not touched by an update.
pub proof fn lemma_update_keeps_dropped(
    m: ClassModel,
    target: bool,
    gate: u64,
    r: Rules,
    dig_inv: Seq<u8>,
    dig_keep: Seq<u8>,
    x: Seq<bool>,
    act: Seq<bool>,
    half: u8,
    max: u8,
    j: int,
)
    requires
        0 <= j < m.clauses.len(),
        class_drops(m.rng, r.drop, m.clauses.len())[j],
    ensures
        class_update_of(m, target, gate, r, dig_inv, dig_keep, x, act, half, max).clauses[j]
            == m.clauses[j],
{
}

/// Vote sums depend on which clauses fire and on their weights alone.
pub proof fn lemma_polar_same(f: Seq<bool>, g: Seq<bool>, v: Seq<i32>, w: Seq<i32>, n: nat)
    requires
        n <= f.len(),
        n <= g.len(),
        n <= v.len(),
        n <= w.len(),
        forall|j: int| 0 <= j < n ==> #[trigger] f[j] == g[j],
        forall|j: int| 0 <= j < n ==> #[trigger] v[j] == w[j],
    ensures
        polar_sum(f, v, n) == polar_sum(g, w, n),
    decreases n,
{
    if n > 0 {
        lemma_polar_same(f, g, v, w, (n - 1) as nat);
        assert(f[n - 1] == g[n - 1] && v[n - 1] == w[n - 1]);
    }
}

/// Growing keeps the vote sum of a class, whatever the new features are.
pub proof fn lemma_grow_keeps_vote_sum(
    cs: Seq<ClauseModel>,
    old_nf: nat,
    new_nf: nat,
    half: u8,
    x: Seq<u8>,
    wide: Seq<u8>,
)
    requires
        forall|j: int| 0 <= j < cs.len() ==> (#[trigger] cs[j]).auto.ta.len() == 2 * old_nf,
        old_nf <= new_nf,
        half >= 1,
        x.len() == old_nf,
        wide.len() == new_nf,
        forall|i: int| 0 <= i < old_nf ==> #[trigger] wide[i] == x[i],
    ensures
        vote_sum(
            grown_clauses(cs, old_nf as int, new_nf as int, half),
            half,
            literals_of(wide, new_nf as int),
        ) == vote_sum(cs, half, literals_of(x, old_nf as int)),
{
    let g = grown_clauses(cs, old_nf as int, new_nf as int, half);
    let a = fired_predict(g, half, literals_of(wide, new_nf as int));
    let b = fired_predict(cs, half, literals_of(x, old_nf as int));
    assert forall|j: int| 0 <= j < cs.len() implies #[trigger] a[j] == b[j] by {
        lemma_grow_keeps_votes(cs[j].auto, old_nf, new_nf, half, x, wide);
    }
    lemma_polar_same(a, b, weights_of(g), weights_of(cs), cs.len());
}

} // verus!
