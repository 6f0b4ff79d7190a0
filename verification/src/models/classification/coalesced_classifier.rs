//! The coalesced multiclass Tsetlin Machine: all classes share one bank of clauses, and each
//! class weighs the clauses with signed weights.
use crate::bits::{bits_of, expand_bits_to_bytes};
use crate::clause_bank::automata::{half_of, rule_of};
use crate::clause_bank::feedback::{after_drops, clamp, clamp_sum, Inputs, Rules};
use crate::clause_bank::shared::{
    active_clauses, all_active, count_shared, draw_active_clauses, fire_shared, fresh_shared,
    fresh_weights, initial_shared, initial_weights, shared_count_at, shared_fired, shared_model,
    shared_update_of, shared_votes, shared_wf, signed_sum, sum_signed, update_shared, vote_shared,
    weight_rows, SharedClause, SharedModel, SharedUpdate,
};
use crate::dyadic::{
    at_most_of, chance_of, minus_of, normal_of, plain_bound, plain_gate, plus_of, portion_of, ratio,
    ratio_of, Chance, Dyadic,
};
use crate::encoder::{EncodedBatch, EncodedSample};
use crate::models::classification::sparse_classifier::positions;
use crate::models::config::{
    active_digits, certain_digits, clause_seed, indicator_gate, literal_seed, stream_rng,
    LITERAL_XOR, TrainConfig, WEIGHT_XOR,
};
use crate::models::ranking::{count_correct, first_max, lemma_first_max, lemma_max_exists};
use crate::rng::{rng_frac, rng_next, rng_skip, rng_word, Rng};
use crate::sampling::{
    after_other, epoch_order, epoch_order_of, other_index, sample_other, shuffle_draws,
};
use vstd::prelude::*;

verus! {

/// The configuration of a coalesced machine.
#[derive(Clone, Debug)]
pub struct CoalescedConfig {
    pub train: TrainConfig,
    pub n_classes: usize,
    pub n_features: usize,
    pub n_clauses: usize,
    /// Negative classes are drawn in proportion to their vote sums.
    pub focused_negative_sampling: bool,
}

/// The learned state of a coalesced machine and its streams, as values.
#[verifier::ext_equal]
pub struct CoalescedModel {
    pub clauses: SharedModel,
    pub weights: Seq<Seq<i32>>,
    pub class_rngs: Seq<u64>,
    pub rng: u64,
    pub literal_rng: u64,
}

/// A coalesced multiclass Tsetlin Machine.
#[derive(Clone, Debug)]
pub struct CoalescedTsetlinMachine {
    pub config: CoalescedConfig,
    pub clauses: Vec<SharedClause>,
    /// The weights of each class.
    pub weights: Vec<Vec<i32>>,
    pub class_rngs: Vec<Rng>,
    pub rng: Rng,
    pub literal_rng: Rng,
}

impl View for CoalescedTsetlinMachine {
    type V = CoalescedModel;

    open spec fn view(&self) -> CoalescedModel {
        CoalescedModel {
            clauses: shared_model(self.clauses@),
            weights: weight_rows(self.weights@),
            class_rngs: positions(self.class_rngs@),
            rng: self.rng@,
            literal_rng: self.literal_rng@,
        }
    }
}

/// The result of drawing a negative class: the class, and the stream position after it.
pub struct Negative {
    pub class: int,
    pub rng: u64,
}

impl CoalescedConfig {
    pub open spec fn wf(&self) -> bool {
        &&& self.train.wf()
        &&& self.n_classes >= 2
        &&& self.n_features >= 1
        &&& self.n_clauses >= 2
        &&& self.train.geom.n_literals == 2 * self.n_features
        &&& self.n_clauses * self.train.geom.n_literals <= usize::MAX
        &&& self.n_classes + self.n_clauses < usize::MAX
    }

    /// The clamped vote sum of a class in training.
    pub open spec fn sum_of(&self, weights: Seq<i32>, outs: Seq<bool>, active: Seq<bool>) -> int {
        clamp(
            signed_sum(outs, active, weights, weights.len()),
            -self.train.threshold as int,
            self.train.threshold as int,
        )
    }

    /// The bound on a drawn fraction for feedback to a class whose vote sum is `v`.
    pub open spec fn gate_of(&self, v: int, target: bool) -> u64 {
        let t = self.train.threshold as int;
        plain_bound(
            if target {
                t - v
            } else {
                t + v
            },
            2 * t,
        ) as u64
    }

    /// The machine after an update of class `c`.
    pub open spec fn updated(
        &self,
        m: CoalescedModel,
        c: int,
        target: bool,
        outs: Seq<bool>,
        active: Seq<bool>,
        x: Seq<bool>,
        act: Seq<bool>,
    ) -> CoalescedModel {
        let u = shared_update_of(
            SharedUpdate { clauses: m.clauses, weights: m.weights[c], rng: m.class_rngs[c] },
            active,
            target,
            self.gate_of(self.sum_of(m.weights[c], outs, active), target),
            outs,
            self.train.rules,
            self.train.dig_inv@,
            self.train.dig_keep@,
            x,
            act,
            self.train.geom.half,
            self.train.geom.max_state,
        );
        CoalescedModel {
            clauses: u.clauses,
            weights: m.weights.update(c, u.weights),
            class_rngs: m.class_rngs.update(c, u.rng),
            ..m
        }
    }

    /// How likely class `c` is drawn as a negative, relative to the others: the larger its
    /// vote sum, the likelier.
    pub open spec fn urgency(&self, m: CoalescedModel, c: int, outs: Seq<bool>, active: Seq<bool>) -> (int, int) {
        let t = self.train.threshold as int;
        normal_of(ratio_of(t + self.sum_of(m.weights[c], outs, active), 2 * t))
    }

    /// The sum of the urgencies of the first `n` classes other than `y`.
    pub open spec fn urgency_total(
        &self,
        m: CoalescedModel,
        y: int,
        outs: Seq<bool>,
        active: Seq<bool>,
        n: nat,
    ) -> (int, int)
        decreases n,
    {
        if n == 0 {
            (0int, 0int)
        } else {
            let before = self.urgency_total(m, y, outs, active, (n - 1) as nat);
            if n - 1 == y {
                before
            } else {
                plus_of(before, self.urgency(m, n - 1, outs, active))
            }
        }
    }

    /// The first class from `c` on at which `r` is used up by the urgencies.
    pub open spec fn urgency_pick(
        &self,
        m: CoalescedModel,
        y: int,
        outs: Seq<bool>,
        active: Seq<bool>,
        r: (int, int),
        c: nat,
    ) -> Option<int>
        decreases m.weights.len() - c,
    {
        if c >= m.weights.len() {
            None
        } else if c == y {
            self.urgency_pick(m, y, outs, active, r, c + 1)
        } else {
            let p = self.urgency(m, c as int, outs, active);
            if at_most_of(r, p) {
                Some(c as int)
            } else {
                self.urgency_pick(m, y, outs, active, minus_of(r, p), c + 1)
            }
        }
    }

    /// A negative class drawn uniformly from stream position `s`.
    pub open spec fn uniform_negative(&self, y: int, s: u64) -> Negative {
        Negative {
            class: other_index(s, self.n_classes as int, y),
            rng: after_other(s, self.n_classes as int, y),
        }
    }

    /// The negative class drawn from stream position `s`.
    pub open spec fn negative_of(
        &self,
        m: CoalescedModel,
        y: int,
        outs: Seq<bool>,
        active: Seq<bool>,
        s: u64,
    ) -> Negative {
        let total = self.urgency_total(m, y, outs, active, self.n_classes as nat);
        if self.focused_negative_sampling && total.0 > 0 {
            match self.urgency_pick(
                m,
                y,
                outs,
                active,
                portion_of(rng_frac(s) as int, total),
                0,
            ) {
                Some(c) => Negative { class: c, rng: rng_next(s) },
                None => self.uniform_negative(y, rng_next(s)),
            }
        } else {
            self.uniform_negative(y, s)
        }
    }

    /// The machine after training on one sample. Which clauses fire is decided once, before
    /// the class and a negative class are updated one after the other.
    pub open spec fn fit_one_of(&self, m: CoalescedModel, x: Seq<bool>, y: int) -> CoalescedModel {
        let n = m.clauses.autos.len();
        let act = self.train.active_of(m.literal_rng);
        let active = active_clauses(m.rng, self.train.rules.drop, n);
        let outs = shared_fired(m.clauses, self.train.geom.half, x, act);
        let neg = self.negative_of(
            m,
            y,
            outs,
            active,
            after_drops(m.rng, self.train.rules.drop, n),
        );
        let drawn = CoalescedModel {
            rng: neg.rng,
            literal_rng: self.train.after_active(m.literal_rng),
            ..m
        };
        self.updated(
            self.updated(drawn, y, true, outs, active, x, act),
            neg.class,
            false,
            outs,
            active,
            x,
            act,
        )
    }

    /// The machine after training on the first `k` samples of `order`.
    pub open spec fn fit_order_of(
        &self,
        m: CoalescedModel,
        xs: Seq<Seq<bool>>,
        ys: Seq<usize>,
        order: Seq<usize>,
        k: nat,
    ) -> CoalescedModel
        decreases k,
    {
        if k == 0 {
            m
        } else {
            let i = order[k - 1] as int;
            self.fit_one_of(self.fit_order_of(m, xs, ys, order, (k - 1) as nat), xs[i], ys[i] as int)
        }
    }

    /// The machine after one epoch: every sample once, in a random order.
    pub open spec fn fit_epoch_of(&self, m: CoalescedModel, xs: Seq<Seq<bool>>, ys: Seq<usize>) -> CoalescedModel {
        let n = xs.len();
        self.fit_order_of(
            CoalescedModel { rng: rng_skip(m.rng, shuffle_draws(n)), ..m },
            xs,
            ys,
            epoch_order_of(m.rng, n),
            n,
        )
    }

    /// The vote sums of all classes in inference.
    pub open spec fn sums_of(&self, m: CoalescedModel, x: Seq<bool>) -> Seq<int> {
        let fired = shared_votes(m.clauses, self.train.geom.half, x);
        Seq::new(
            m.weights.len(),
            |c: int| signed_sum(fired, all_active(fired.len()), m.weights[c], m.weights[c].len()),
        )
    }

    /// The scores of all classes: their vote sums, clamped to the threshold.
    pub open spec fn scores_of(&self, m: CoalescedModel, x: Seq<bool>) -> Seq<int> {
        Seq::new(
            m.weights.len(),
            |c: int|
                clamp(
                    self.sums_of(m, x)[c],
                    -self.train.threshold as int,
                    self.train.threshold as int,
                ),
        )
    }

    /// The class predicted for a sample: the first with the largest vote sum.
    pub open spec fn predict_of(&self, m: CoalescedModel, x: Seq<bool>) -> int {
        first_max(self.sums_of(m, x))
    }

    /// A batch fits the machine.
    pub open spec fn fits(&self, batch: &EncodedBatch) -> bool {
        batch.wf() && batch.words == self.train.geom.words
    }

    /// The literals of sample `i` of a batch.
    pub open spec fn row_bits(&self, batch: &EncodedBatch, i: int) -> Seq<bool> {
        bits_of(batch.sample(i), self.train.n())
    }

    /// The literals of all samples of a batch.
    pub open spec fn batch_bits(&self, batch: &EncodedBatch) -> Seq<Seq<bool>> {
        Seq::new(batch.n as nat, |i: int| self.row_bits(batch, i))
    }
}

/// A new machine seeded with `seed`.
pub open spec fn initial_coalesced(
    seed: u64,
    n_classes: nat,
    n_clauses: nat,
    n: nat,
    half: u8,
) -> CoalescedModel {
    CoalescedModel {
        clauses: initial_shared(seed, n_clauses, n, half),
        weights: initial_weights(rng_next(seed ^ WEIGHT_XOR), n_classes, n_clauses),
        class_rngs: Seq::new(n_classes, |c: int| clause_seed(seed, c + n_clauses)),
        rng: rng_skip(rng_next(seed), n_clauses * n),
        literal_rng: literal_seed(seed),
    }
}

/// The streams of `n` outputs that follow those of `first` clauses.
pub fn output_streams(seed: u64, n: usize, first: usize) -> (r: Vec<Rng>)
    requires
        n + first < usize::MAX,
    ensures
        positions(r@) == Seq::new(n as nat, |c: int| clause_seed(seed, c + first)),
        r@.len() == n,
{
    let mut r: Vec<Rng> = Vec::with_capacity(n);
    let mut c: usize = 0;
    while c < n
        invariant
            c <= n,
            n + first < usize::MAX,
            r@.len() == c,
            forall|k: int| 0 <= k < c ==> (#[trigger] r@[k])@ == clause_seed(seed, k + first),
        decreases n - c,
    {
        r.push(stream_rng(seed, c as u64 + first as u64));
        c = c + 1;
    }
    proof {
        assert(positions(r@) =~= Seq::new(n as nat, |k: int| clause_seed(seed, k + first)));
    }
    r
}

impl CoalescedTsetlinMachine {
    pub open spec fn wf(&self) -> bool {
        &&& self.config.wf()
        &&& self.clauses@.len() == self.config.n_clauses
        &&& shared_wf(self.clauses@, &self.config.train.geom)
        &&& self.weights@.len() == self.config.n_classes
        &&& forall|c: int|
            0 <= c < self.weights@.len() ==> (#[trigger] self.weights@[c])@.len()
                == self.config.n_clauses
        &&& self.class_rngs@.len() == self.config.n_classes
    }

    /// A machine with 8-bit counters, boosted rewards and seed 42.
    pub fn new(
        n_classes: usize,
        n_features: usize,
        n_clauses: usize,
        threshold: i32,
        s: Dyadic,
    ) -> (r: Self)
        requires
            n_classes >= 2,
            n_features >= 1,
            n_clauses >= 2,
            threshold >= 1,
            s.wf(),
            s.above_one(),
            2 * n_features + 64 <= usize::MAX,
            n_clauses * (2 * n_features) <= usize::MAX,
            n_classes + n_clauses < usize::MAX,
        ensures
            r.wf(),
            r.config.n_classes == n_classes,
            r.config.n_features == n_features,
            r.config.n_clauses == n_clauses,
            !r.config.focused_negative_sampling,
            r.config.train.threshold == threshold,
            r.config.train.s == s,
            r.config.train.geom.half == 128,
            r.config.train.rules == (Rules {
                boost: true,
                max_included: usize::MAX,
                wmin: 1,
                wmax: threshold,
                type_iii: false,
                d_gate: 0,
                drop: Chance { floor: 0, exact: true },
            }),
            r.config.train.literal_drop == (Chance { floor: 0, exact: true }),
            r.config.train.dig_lit_active@ == certain_digits(),
            r@ == initial_coalesced(
                42,
                n_classes as nat,
                n_clauses as nat,
                (2 * n_features) as nat,
                128,
            ),
    {
        Self::with_config(n_classes, n_features, n_clauses, threshold, s, 8, true, 42)
    }

    /// A machine with all settings given.
    pub fn with_config(
        n_classes: usize,
        n_features: usize,
        n_clauses: usize,
        threshold: i32,
        s: Dyadic,
        state_bits: u8,
        boost_true_positive: bool,
        seed: u64,
    ) -> (r: Self)
        requires
            n_classes >= 2,
            n_features >= 1,
            n_clauses >= 2,
            threshold >= 1,
            s.wf(),
            s.above_one(),
            2 <= state_bits <= 8,
            2 * n_features + 64 <= usize::MAX,
            n_clauses * (2 * n_features) <= usize::MAX,
            n_classes + n_clauses < usize::MAX,
        ensures
            r.wf(),
            r.config.n_classes == n_classes,
            r.config.n_features == n_features,
            r.config.n_clauses == n_clauses,
            !r.config.focused_negative_sampling,
            r.config.train.threshold == threshold,
            r.config.train.s == s,
            r.config.train.geom.half == half_of(state_bits),
            r.config.train.rules == (Rules {
                boost: boost_true_positive,
                max_included: usize::MAX,
                wmin: 1,
                wmax: threshold,
                type_iii: false,
                d_gate: 0,
                drop: Chance { floor: 0, exact: true },
            }),
            r.config.train.literal_drop == (Chance { floor: 0, exact: true }),
            r.config.train.dig_lit_active@ == certain_digits(),
            r@ == initial_coalesced(
                seed,
                n_classes as nat,
                n_clauses as nat,
                (2 * n_features) as nat,
                half_of(state_bits),
            ),
    {
        let train: TrainConfig = TrainConfig::new(
            2 * n_features,
            threshold,
            s,
            state_bits,
            boost_true_positive,
            1,
        );
        let mut rng: Rng = Rng::new(seed);
        let clauses: Vec<SharedClause> = fresh_shared(&train.geom, &mut rng, seed, n_clauses);
        let mut weight_rng: Rng = Rng::new(seed ^ WEIGHT_XOR);
        let weights: Vec<Vec<i32>> = fresh_weights(&mut weight_rng, n_classes, n_clauses);
        CoalescedTsetlinMachine {
            config: CoalescedConfig {
                train,
                n_classes,
                n_features,
                n_clauses,
                focused_negative_sampling: false,
            },
            clauses,
            weights,
            class_rngs: output_streams(seed, n_classes, n_clauses),
            rng,
            literal_rng: Rng::new(seed ^ LITERAL_XOR),
        }
    }

    /// Everything but the configuration is the same.
    pub open spec fn same_state(&self, other: &Self) -> bool {
        self.clauses == other.clauses && self.weights == other.weights && self.class_rngs
            == other.class_rngs && self.rng == other.rng && self.literal_rng == other.literal_rng
    }

    /// Limits how many literals each clause may include.
    pub fn max_included_literals(self, max: usize) -> (r: Self)
        requires
            self.wf(),
        ensures
            r.wf(),
            r.same_state(&self),
            r.config == (CoalescedConfig {
                train: TrainConfig {
                    rules: Rules { max_included: max, ..self.config.train.rules },
                    ..self.config.train
                },
                ..self.config
            }),
    {
        let mut r: CoalescedTsetlinMachine = self;
        r.config.train.set_max_included(max);
        r
    }

    /// Sets the probability, in [0, 1), with which a clause is dropped from a step.
    pub fn clause_drop_p(self, p: Dyadic) -> (r: Self)
        requires
            self.wf(),
            p.wf(),
            p.below_one(),
        ensures
            r.wf(),
            r.same_state(&self),
            r.config == (CoalescedConfig {
                train: TrainConfig {
                    rules: Rules {
                        drop: chance_of(p.mant as int, p.exp as int),
                        ..self.config.train.rules
                    },
                    ..self.config.train
                },
                ..self.config
            }),
    {
        let mut r: CoalescedTsetlinMachine = self;
        r.config.train.set_clause_drop(p);
        r
    }

    /// Sets the probability, in [0, 1), with which a literal is left out of a training step.
    pub fn literal_drop_p(self, p: Dyadic) -> (r: Self)
        requires
            self.wf(),
            p.wf(),
            p.below_one(),
        ensures
            r.wf(),
            r.same_state(&self),
            r.config.train.dig_lit_active@ == active_digits(p),
            r.config == (CoalescedConfig {
                train: TrainConfig {
                    literal_drop: chance_of(p.mant as int, p.exp as int),
                    dig_lit_active: r.config.train.dig_lit_active,
                    ..self.config.train
                },
                ..self.config
            }),
    {
        let mut r: CoalescedTsetlinMachine = self;
        r.config.train.set_literal_drop(p);
        r
    }

    /// Turns Type III feedback on, with strength `d > 1`.
    pub fn type_iii_feedback(self, d: Dyadic) -> (r: Self)
        requires
            self.wf(),
            d.wf(),
            d.above_one(),
        ensures
            r.wf(),
            r.same_state(&self),
            r.config == (CoalescedConfig {
                train: TrainConfig {
                    rules: Rules {
                        type_iii: true,
                        d_gate: indicator_gate(d),
                        ..self.config.train.rules
                    },
                    ..self.config.train
                },
                ..self.config
            }),
    {
        let mut r: CoalescedTsetlinMachine = self;
        r.config.train.set_type_iii(d);
        r
    }

    /// Draws negative classes in proportion to their vote sums, or uniformly.
    pub fn focused_negative_sampling(self, enabled: bool) -> (r: Self)
        requires
            self.wf(),
        ensures
            r.wf(),
            r.same_state(&self),
            r.config == (CoalescedConfig { focused_negative_sampling: enabled, ..self.config }),
    {
        let mut r: CoalescedTsetlinMachine = self;
        r.config.focused_negative_sampling = enabled;
        r
    }

    /// The number of classes.
    pub fn n_classes(&self) -> (r: usize)
        ensures
            r == self.config.n_classes,
    {
        self.config.n_classes
    }

    /// The number of features.
    pub fn n_features(&self) -> (r: usize)
        ensures
            r == self.config.n_features,
    {
        self.config.n_features
    }

    /// The number of shared clauses.
    pub fn n_clauses(&self) -> (r: usize)
        ensures
            r == self.config.n_clauses,
    {
        self.config.n_clauses
    }

    /// The number of words of a packed sample.
    pub fn words_per_sample(&self) -> (r: usize)
        ensures
            r == self.config.train.geom.words,
    {
        self.config.train.geom.words
    }

    /// The specificity.
    pub fn s(&self) -> (r: Dyadic)
        ensures
            r == self.config.train.s,
    {
        self.config.train.s
    }

    /// The weight that a class gives a clause.
    pub fn clause_weight(&self, class: usize, clause: usize) -> (r: i32)
        requires
            self.wf(),
            class < self.config.n_classes,
            clause < self.config.n_clauses,
        ensures
            r == self@.weights[class as int][clause as int],
    {
        self.weights[class][clause]
    }

    /// Whether a clause speaks for a class.
    pub fn clause_is_positive(&self, class: usize, clause: usize) -> (r: bool)
        requires
            self.wf(),
            class < self.config.n_classes,
            clause < self.config.n_clauses,
        ensures
            r == (self@.weights[class as int][clause as int] >= 0),
    {
        self.weights[class][clause] >= 0
    }

    /// The clamped vote sum of class `c` in training.
    fn class_sum(&self, c: usize, outs: &[bool], active: &[bool]) -> (r: i32)
        requires
            self.wf(),
            c < self.config.n_classes,
            outs@.len() == self.config.n_clauses,
            active@.len() == self.config.n_clauses,
        ensures
            r == self.config.sum_of(self@.weights[c as int], outs@, active@),
            -self.config.train.threshold <= r <= self.config.train.threshold,
    {
        clamp_sum(sum_signed(outs, active, &self.weights[c]), self.config.train.threshold)
    }

    /// How likely class `c` is drawn as a negative, relative to the others.
    fn class_urgency(&self, c: usize, outs: &[bool], active: &[bool]) -> (r: Dyadic)
        requires
            self.wf(),
            c < self.config.n_classes,
            outs@.len() == self.config.n_clauses,
            active@.len() == self.config.n_clauses,
        ensures
            r.pair() == self.config.urgency(self@, c as int, outs@, active@),
            r.full(),
            r.mant > 0 ==> -116 <= r.exp <= -51,
    {
        let v: i32 = self.class_sum(c, outs, active);
        let t: i64 = self.config.train.threshold as i64;
        let q: Dyadic = ratio((t + v as i64) as u64, (2 * t) as u64);
        q.normal()
    }

    /// Draws a negative class.
    fn choose_negative(&mut self, y: usize, outs: &[bool], active: &[bool]) -> (r: usize)
        requires
            old(self).wf(),
            y < old(self).config.n_classes,
            outs@.len() == old(self).config.n_clauses,
            active@.len() == old(self).config.n_clauses,
        ensures
            r == old(self).config.negative_of(
                old(self)@,
                y as int,
                outs@,
                active@,
                old(self)@.rng,
            ).class,
            r < old(self).config.n_classes,
            r != y,
            final(self).wf(),
            final(self).config == old(self).config,
            final(self)@ == (CoalescedModel {
                rng: old(self).config.negative_of(
                    old(self)@,
                    y as int,
                    outs@,
                    active@,
                    old(self)@.rng,
                ).rng,
                ..old(self)@
            }),
    {
        let ghost before = *self;
        let ghost m = self@;
        let ghost cfg = self.config;
        if self.config.focused_negative_sampling {
            let mut total: Dyadic = Dyadic { mant: 0, exp: 0 };
            let mut c: usize = 0;
            while c < self.config.n_classes
                invariant
                    *self == before,
                    self.wf(),
                    m == self@,
                    cfg == self.config,
                    outs@.len() == self.config.n_clauses,
                    active@.len() == self.config.n_clauses,
                    c <= self.config.n_classes,
                    total.pair() == cfg.urgency_total(m, y as int, outs@, active@, c as nat),
                    total.full(),
                    total.mant > 0 ==> -116 <= total.exp <= 22,
                decreases self.config.n_classes - c,
            {
                if c != y {
                    let p: Dyadic = self.class_urgency(c, outs, active);
                    total = total.plus(&p);
                }
                c = c + 1;
            }
            if total.mant > 0 {
                let f: u64 = self.rng.next_fraction();
                proof {
                    let w = rng_word(m.rng);
                    assert((w >> 11u64) < 0x20_0000_0000_0000u64) by (bit_vector);
                    assert(self@.weights == m.weights);
                }
                let mut r: Dyadic = total.portion(f);
                let ghost start = portion_of(
                    f as int,
                    cfg.urgency_total(m, y as int, outs@, active@, self.config.n_classes as nat),
                );
                let mut c: usize = 0;
                while c < self.config.n_classes
                    invariant
                        before == *old(self),
                        self.wf(),
                        self.config == before.config,
                        self.clauses == before.clauses,
                        self.weights == before.weights,
                        self.class_rngs == before.class_rngs,
                        self.literal_rng == before.literal_rng,
                        self.rng@ == rng_next(m.rng),
                        m == before@,
                        cfg == self.config,
                        cfg.focused_negative_sampling,
                        f == rng_frac(m.rng),
                        outs@.len() == self.config.n_clauses,
                        active@.len() == self.config.n_clauses,
                        c <= self.config.n_classes,
                        total.mant > 0,
                        total.pair() == cfg.urgency_total(
                            m,
                            y as int,
                            outs@,
                            active@,
                            self.config.n_classes as nat,
                        ),
                        start == portion_of(f as int, total.pair()),
                        cfg.urgency_pick(m, y as int, outs@, active@, r.pair(), c as nat)
                            == cfg.urgency_pick(m, y as int, outs@, active@, start, 0),
                        r.full(),
                        r.mant > 0 ==> -300 <= r.exp <= 60,
                    decreases self.config.n_classes - c,
                {
                    if c != y {
                        let p: Dyadic = self.class_urgency(c, outs, active);
                        proof {
                            assert(p.pair() == cfg.urgency(m, c as int, outs@, active@));
                        }
                        if r.is_at_most(&p) {
                            return c;
                        }
                        r = r.minus(&p);
                    }
                    c = c + 1;
                }
            }
        }
        sample_other(&mut self.rng, self.config.n_classes, y)
    }

    /// Applies feedback on one sample to class `c`.
    fn update_class(&mut self, c: usize, target: bool, outs: &[bool], active: &[bool], inp: &Inputs)
        requires
            old(self).wf(),
            c < old(self).config.n_classes,
            outs@.len() == old(self).config.n_clauses,
            active@.len() == old(self).config.n_clauses,
            inp.wf(&old(self).config.train.geom),
        ensures
            final(self).wf(),
            final(self).config == old(self).config,
            final(self)@ == old(self).config.updated(
                old(self)@,
                c as int,
                target,
                outs@,
                active@,
                inp.x(&old(self).config.train.geom),
                inp.act(&old(self).config.train.geom),
            ),
    {
        let ghost before = *self;
        let v: i32 = self.class_sum(c, outs, active);
        let t: i64 = self.config.train.threshold as i64;
        let u: i64 = if target {
            t - v as i64
        } else {
            t + v as i64
        };
        let gate: u64 = plain_gate(u as u64, (2 * t) as u64);
        let train: &TrainConfig = &self.config.train;
        let row: &mut Vec<i32> = &mut self.weights[c];
        let crng: &mut Rng = &mut self.class_rngs[c];
        update_shared(
            &mut self.clauses,
            row,
            crng,
            &train.geom,
            &train.rules,
            &train.dig_inv,
            &train.dig_keep,
            active,
            target,
            gate,
            outs,
            inp,
        );
        proof {
            let want = before.config.updated(
                before@,
                c as int,
                target,
                outs@,
                active@,
                inp.x(&before.config.train.geom),
                inp.act(&before.config.train.geom),
            );
            assert(self@.weights =~= want.weights);
            assert(self@.class_rngs =~= want.class_rngs);
        }
    }

    /// Trains on the packed literals of one sample with label `y`.
    pub fn fit_one_lit(&mut self, lit: &[u64], y: usize)
        requires
            old(self).wf(),
            lit@.len() == old(self).config.train.geom.words,
            y < old(self).config.n_classes,
        ensures
            final(self).wf(),
            final(self).config == old(self).config,
            final(self)@ == old(self).config.fit_one_of(
                old(self)@,
                bits_of(lit@, old(self).config.train.n()),
                y as int,
            ),
    {
        let ghost before = *self;
        let n_literals: usize = self.config.train.geom.n_literals;
        let lit_b: Vec<u8> = expand_bits_to_bytes(lit, n_literals);
        let active: Vec<u64> = self.config.train.draw_active(&mut self.literal_rng);
        let active_b: Vec<u8> = expand_bits_to_bytes(&active, n_literals);
        let takes_part: Vec<bool> = draw_active_clauses(
            &mut self.rng,
            self.config.train.rules.drop,
            self.config.n_clauses,
        );
        let outs: Vec<bool> = fire_shared(&self.clauses, &self.config.train.geom, lit, &active);
        let inp: Inputs = Inputs {
            lit,
            lit_b: lit_b.as_slice(),
            active: active.as_slice(),
            active_b: active_b.as_slice(),
        };
        let ghost mid = self@;
        let neg: usize = self.choose_negative(y, &outs, &takes_part);
        proof {
            let n = before@.clauses.autos.len();
            let s = after_drops(before@.rng, before.config.train.rules.drop, n);
            assert(mid.rng == s);
            before.config.lemma_negative_same(mid, before@, y as int, outs@, takes_part@, s);
        }
        self.update_class(y, true, &outs, &takes_part, &inp);
        self.update_class(neg, false, &outs, &takes_part, &inp);
    }

    /// Trains on one sample with label `y`.
    pub fn fit_one(&mut self, sample: &EncodedSample, y: usize)
        requires
            old(self).wf(),
            sample.0@.len() == old(self).config.train.geom.words,
            y < old(self).config.n_classes,
        ensures
            final(self).wf(),
            final(self).config == old(self).config,
            final(self)@ == old(self).config.fit_one_of(
                old(self)@,
                bits_of(sample.0@, old(self).config.train.n()),
                y as int,
            ),
    {
        self.fit_one_lit(&sample.0, y)
    }

    /// Trains for one epoch: every sample once, in a random order.
    pub fn fit_epoch(&mut self, batch: &EncodedBatch, ys: &[usize])
        requires
            old(self).wf(),
            old(self).config.fits(batch),
            ys@.len() == batch.n,
            forall|i: int| 0 <= i < ys@.len() ==> #[trigger] ys@[i] < old(self).config.n_classes,
        ensures
            final(self).wf(),
            final(self).config == old(self).config,
            final(self)@ == old(self).config.fit_epoch_of(
                old(self)@,
                old(self).config.batch_bits(batch),
                ys@,
            ),
    {
        let ghost before = *self;
        let order: Vec<usize> = epoch_order(&mut self.rng, batch.n);
        let ghost start = self@;
        let ghost xs = before.config.batch_bits(batch);
        proof {
            assert(start == (CoalescedModel {
                rng: rng_skip(before@.rng, shuffle_draws(batch.n as nat)),
                ..before@
            }));
        }
        let mut k: usize = 0;
        while k < order.len()
            invariant
                k <= order@.len(),
                order@.len() == batch.n,
                self.wf(),
                self.config == before.config,
                before.config.fits(batch),
                xs == before.config.batch_bits(batch),
                ys@.len() == batch.n,
                forall|i: int| 0 <= i < ys@.len() ==> #[trigger] ys@[i] < before.config.n_classes,
                forall|i: int| 0 <= i < order@.len() ==> #[trigger] order@[i] < batch.n,
                self@ == before.config.fit_order_of(start, xs, ys@, order@, k as nat),
            decreases order@.len() - k,
        {
            let i: usize = order[k];
            self.fit_one_lit(batch.row(i), ys[i]);
            k = k + 1;
        }
    }

    /// The vote sum of class `c`, given which clauses fire.
    fn vote_sum(&self, c: usize, fired: &[bool]) -> (r: i128)
        requires
            self.wf(),
            c < self.config.n_classes,
            fired@.len() == self.config.n_clauses,
        ensures
            r == signed_sum(
                fired@,
                all_active(fired@.len()),
                self@.weights[c as int],
                self@.weights[c as int].len(),
            ),
    {
        let everyone: Vec<bool> = vec![true; self.config.n_clauses];
        proof {
            assert(everyone@ =~= all_active(fired@.len()));
        }
        sum_signed(fired, &everyone, &self.weights[c])
    }

    /// The class predicted for the packed literals of a sample.
    pub fn predict_lit(&self, lit: &[u64]) -> (r: usize)
        requires
            self.wf(),
            lit@.len() == self.config.train.geom.words,
        ensures
            r == self.config.predict_of(self@, bits_of(lit@, self.config.train.n())),
            r < self.config.n_classes,
    {
        let ghost sums = self.config.sums_of(self@, bits_of(lit@, self.config.train.n()));
        let fired: Vec<bool> = vote_shared(&self.clauses, &self.config.train.geom, lit);
        let mut best: usize = 0;
        let mut best_sum: i128 = self.vote_sum(0, &fired);
        let mut c: usize = 1;
        while c < self.config.n_classes
            invariant
                self.wf(),
                sums == self.config.sums_of(self@, bits_of(lit@, self.config.train.n())),
                fired@ == shared_votes(
                    self@.clauses,
                    self.config.train.geom.half,
                    bits_of(lit@, self.config.train.n()),
                ),
                1 <= c <= self.config.n_classes,
                best < c,
                best_sum == sums[best as int],
                forall|j: int| 0 <= j < c ==> #[trigger] sums[j] <= best_sum,
                forall|j: int| 0 <= j < best ==> #[trigger] sums[j] < best_sum,
            decreases self.config.n_classes - c,
        {
            let v: i128 = self.vote_sum(c, &fired);
            proof {
                assert(v == sums[c as int]);
            }
            if v > best_sum {
                best_sum = v;
                best = c;
            }
            c = c + 1;
        }
        proof {
            lemma_first_max(sums, best as int);
        }
        best
    }

    /// The class predicted for a sample: the first with the largest vote sum.
    pub fn predict(&self, sample: &EncodedSample) -> (r: usize)
        requires
            self.wf(),
            sample.0@.len() == self.config.train.geom.words,
        ensures
            r == self.config.predict_of(self@, bits_of(sample.0@, self.config.train.n())),
            r < self.config.n_classes,
    {
        self.predict_lit(&sample.0)
    }

    /// Writes the score of each class for a sample: its vote sum, clamped to the threshold.
    pub fn scores(&self, sample: &EncodedSample, out: &mut [i32])
        requires
            self.wf(),
            sample.0@.len() == self.config.train.geom.words,
            old(out)@.len() == self.config.n_classes,
        ensures
            final(out)@.len() == self.config.n_classes,
            forall|c: int|
                0 <= c < self.config.n_classes ==> #[trigger] final(out)@[c] == self.config.scores_of(
                    self@,
                    bits_of(sample.0@, self.config.train.n()),
                )[c],
    {
        let ghost sc = self.config.scores_of(self@, bits_of(sample.0@, self.config.train.n()));
        let fired: Vec<bool> = vote_shared(&self.clauses, &self.config.train.geom, &sample.0);
        let mut c: usize = 0;
        while c < self.config.n_classes
            invariant
                self.wf(),
                sc == self.config.scores_of(self@, bits_of(sample.0@, self.config.train.n())),
                fired@ == shared_votes(
                    self@.clauses,
                    self.config.train.geom.half,
                    bits_of(sample.0@, self.config.train.n()),
                ),
                c <= self.config.n_classes,
                out@.len() == self.config.n_classes,
                forall|j: int| 0 <= j < c ==> #[trigger] out@[j] == sc[j],
            decreases self.config.n_classes - c,
        {
            out[c] = clamp_sum(self.vote_sum(c, &fired), self.config.train.threshold);
            c = c + 1;
        }
    }

    /// The classes predicted for all samples of a batch.
    pub fn predict_batch(&self, batch: &EncodedBatch) -> (r: Vec<usize>)
        requires
            self.wf(),
            self.config.fits(batch),
        ensures
            r@.len() == batch.n,
            forall|i: int|
                0 <= i < batch.n ==> #[trigger] r@[i] == self.config.predict_of(
                    self@,
                    self.config.row_bits(batch, i),
                ),
    {
        let mut r: Vec<usize> = Vec::with_capacity(batch.n);
        let mut i: usize = 0;
        while i < batch.n
            invariant
                self.wf(),
                self.config.fits(batch),
                i <= batch.n,
                r@.len() == i,
                forall|k: int|
                    0 <= k < i ==> #[trigger] r@[k] == self.config.predict_of(
                        self@,
                        self.config.row_bits(batch, k),
                    ),
            decreases batch.n - i,
        {
            r.push(self.predict_lit(batch.row(i)));
            i = i + 1;
        }
        r
    }

    /// The classes predicted for all samples of a batch, as values.
    pub open spec fn predictions(&self, batch: &EncodedBatch) -> Seq<int> {
        Seq::new(
            batch.n as nat,
            |i: int| self.config.predict_of(self@, self.config.row_bits(batch, i)),
        )
    }

    /// How many samples of a batch are predicted correctly, and how many there are.
    pub fn accuracy(&self, batch: &EncodedBatch, ys: &[usize]) -> (r: (usize, usize))
        requires
            self.wf(),
            self.config.fits(batch),
            ys@.len() == batch.n,
        ensures
            r.0 == count_correct(self.predictions(batch), ys@, batch.n as nat),
            r.1 == batch.n,
    {
        let ghost p = self.predictions(batch);
        let mut correct: usize = 0;
        let mut i: usize = 0;
        while i < batch.n
            invariant
                self.wf(),
                self.config.fits(batch),
                ys@.len() == batch.n,
                i <= batch.n,
                correct <= i,
                p == self.predictions(batch),
                correct == count_correct(p, ys@, i as nat),
            decreases batch.n - i,
        {
            if self.predict_lit(batch.row(i)) == ys[i] {
                correct = correct + 1;
            }
            i = i + 1;
        }
        (correct, batch.n)
    }

    /// How many counters are `v`, and how many there are.
    fn absorbed_fraction(&self, v: u8) -> (r: (usize, usize))
        requires
            self.wf(),
        ensures
            r.0 == shared_count_at(self@.clauses, v, self.config.n_clauses as nat),
            r.1 == self.config.n_clauses * self.config.train.geom.n_literals,
    {
        (
            count_shared(&self.clauses, &self.config.train.geom, v),
            self.config.n_clauses * self.config.train.geom.n_literals,
        )
    }

    /// How many counters are at the absorbing include state, and how many there are.
    pub fn absorbed_include_fraction(&self) -> (r: (usize, usize))
        requires
            self.wf(),
        ensures
            r.0 == shared_count_at(
                self@.clauses,
                self.config.train.geom.max_state,
                self.config.n_clauses as nat,
            ),
            r.1 == self.config.n_clauses * self.config.train.geom.n_literals,
    {
        self.absorbed_fraction(self.config.train.geom.max_state)
    }

    /// How many counters are at the absorbing exclude state, and how many there are.
    pub fn absorbed_exclude_fraction(&self) -> (r: (usize, usize))
        requires
            self.wf(),
        ensures
            r.0 == shared_count_at(self@.clauses, 0, self.config.n_clauses as nat),
            r.1 == self.config.n_clauses * self.config.train.geom.n_literals,
    {
        self.absorbed_fraction(0)
    }

    /// The included literals of a clause, as pairs of a feature and whether it is negated.
    pub fn clause_rule(&self, clause: usize) -> (r: Vec<(usize, bool)>)
        requires
            self.wf(),
            clause < self.config.n_clauses,
        ensures
            r@ == rule_of(
                self@.clauses.autos[clause as int].ta,
                self.config.train.geom.half,
                self.config.n_features as int,
                self.config.train.n(),
            ),
    {
        self.clauses[clause].auto.rule(&self.config.train.geom, self.config.n_features)
    }
}

impl CoalescedConfig {
    /// The negative class depends on the weights and the stream position only.
    proof fn lemma_negative_same(
        &self,
        a: CoalescedModel,
        b: CoalescedModel,
        y: int,
        outs: Seq<bool>,
        active: Seq<bool>,
        s: u64,
    )
        requires
            a.weights == b.weights,
        ensures
            self.negative_of(a, y, outs, active, s) == self.negative_of(b, y, outs, active, s),
    {
        self.lemma_total_same(a, b, y, outs, active, self.n_classes as nat);
        let total = self.urgency_total(a, y, outs, active, self.n_classes as nat);
        self.lemma_pick_same(a, b, y, outs, active, portion_of(rng_frac(s) as int, total), 0);
    }

    proof fn lemma_total_same(
        &self,
        a: CoalescedModel,
        b: CoalescedModel,
        y: int,
        outs: Seq<bool>,
        active: Seq<bool>,
        n: nat,
    )
        requires
            a.weights == b.weights,
        ensures
            self.urgency_total(a, y, outs, active, n) == self.urgency_total(b, y, outs, active, n),
        decreases n,
    {
        if n > 0 {
            self.lemma_total_same(a, b, y, outs, active, (n - 1) as nat);
        }
    }

    proof fn lemma_pick_same(
        &self,
        a: CoalescedModel,
        b: CoalescedModel,
        y: int,
        outs: Seq<bool>,
        active: Seq<bool>,
        r: (int, int),
        c: nat,
    )
        requires
            a.weights == b.weights,
        ensures
            self.urgency_pick(a, y, outs, active, r, c) == self.urgency_pick(b, y, outs, active, r, c),
        decreases a.weights.len() - c,
    {
        if c < a.weights.len() {
            if c == y {
                self.lemma_pick_same(a, b, y, outs, active, r, c + 1);
            } else {
                let p = self.urgency(a, c as int, outs, active);
                self.lemma_pick_same(a, b, y, outs, active, minus_of(r, p), c + 1);
            }
        }
    }
}

/// The predicted class has the largest score, also after scores are clamped.
pub proof fn lemma_prediction_has_top_score(cfg: &CoalescedConfig, m: CoalescedModel, x: Seq<bool>, c: int)
    requires
        cfg.train.threshold >= 1,
        0 <= c < m.weights.len(),
    ensures
        0 <= cfg.predict_of(m, x) < m.weights.len(),
        cfg.scores_of(m, x)[c] <= cfg.scores_of(m, x)[cfg.predict_of(m, x)],
        -cfg.train.threshold <= cfg.scores_of(m, x)[c] <= cfg.train.threshold,
{
    let sums = cfg.sums_of(m, x);
    lemma_max_exists(sums);
    assert(sums[c] <= sums[first_max(sums)]);
}

} // verus!
