//! The Tsetlin Machine regressor: the clamped sum of the weights of the clauses that fire.
use crate::bits::{bits_of, expand_bits_to_bytes};
use crate::clause_bank::automata::{
    blank_state, flags, half_of, holds, lemma_flags, rule_of, Automata,
};
use crate::clause_bank::feedback::{
    after_drops, after_mask, clamp, class_drops, clause_models, feedback_of, fired_predict,
    literal_mask, weights_of, Clause, ClauseModel, Rules,
};
use crate::clause_bank::shared::{all_active, signed_sum};
use crate::dyadic::{chance_of, Chance, Dyadic};
use crate::encoder::{EncodedBatch, EncodedSample};
use crate::models::config::{
    active_digits, certain_digits, clause_seed, literal_seed, stream_rng, LITERAL_XOR, TrainConfig,
};
use crate::models::regression::target::{error_bound, is_above, Target};
use crate::rng::{rng_next, rng_skip, Rng};
use crate::sampling::{bernoulli_mask, draw_drops, epoch_order, epoch_order_of, shuffle_draws};
use vstd::prelude::*;

verus! {

/// Below this bound on a drawn fraction, which stands for 2^-52, an error counts as none.
pub const NEGLIGIBLE: u64 = 2;

/// The configuration of a regressor.
#[derive(Clone, Debug)]
pub struct RegressorConfig {
    pub train: TrainConfig,
    pub n_features: usize,
    pub n_clauses: usize,
}

/// The learned state of a regressor and its streams, as values.
#[verifier::ext_equal]
pub struct RegressorModel {
    pub clauses: Seq<ClauseModel>,
    pub rng: u64,
    pub literal_rng: u64,
}

/// A Tsetlin Machine regressor. Weights are at least 0 and at most the threshold.
#[derive(Clone, Debug)]
pub struct TMRegressor {
    pub config: RegressorConfig,
    pub clauses: Vec<Clause>,
    pub rng: Rng,
    pub literal_rng: Rng,
}

impl View for TMRegressor {
    type V = RegressorModel;

    open spec fn view(&self) -> RegressorModel {
        RegressorModel {
            clauses: clause_models(self.clauses@),
            rng: self.rng@,
            literal_rng: self.literal_rng@,
        }
    }
}

/// A new regressor seeded with `seed`: no clause includes a literal and every weight is 1.
pub open spec fn initial_regressor(seed: u64, n_clauses: nat, n: nat, half: u8) -> RegressorModel {
    RegressorModel {
        clauses: Seq::new(
            n_clauses,
            |j: int|
                ClauseModel { auto: blank_state(n, half), weight: 1, rng: clause_seed(seed, j) },
        ),
        rng: rng_next(seed),
        literal_rng: literal_seed(seed),
    }
}

impl RegressorConfig {
    pub open spec fn wf(&self) -> bool {
        &&& self.train.wf()
        &&& self.train.rules.wmin == 0
        &&& self.n_features >= 1
        &&& self.n_clauses >= 2
        &&& self.train.geom.n_literals == 2 * self.n_features
    }

    /// The prediction for a sample: the sum of the weights of the clauses that fire, limited
    /// to the range from 0 to the threshold.
    pub open spec fn predict_of(&self, m: RegressorModel, x: Seq<bool>) -> int {
        clamp(
            signed_sum(
                fired_predict(m.clauses, self.train.geom.half, x),
                all_active(m.clauses.len()),
                weights_of(m.clauses),
                m.clauses.len(),
            ),
            0,
            self.train.threshold as int,
        )
    }

    /// The regressor after training on one sample. Clauses are rewarded where the target is
    /// above the prediction, and otherwise corrected. A negligible error changes nothing.
    pub open spec fn fit_one_of(&self, m: RegressorModel, x: Seq<bool>, y: Target) -> RegressorModel {
        let v = self.predict_of(m, x);
        let gate = error_bound(v, y, self.train.threshold as int) as u64;
        if gate < NEGLIGIBLE {
            m
        } else {
            let n = m.clauses.len();
            let act = self.train.active_of(m.literal_rng);
            let inv = literal_mask(m.rng, self.train.dig_inv@, x.len());
            let s1 = after_mask(m.rng, self.train.dig_inv@, x.len());
            let keep = literal_mask(s1, self.train.dig_keep@, x.len());
            let s2 = after_mask(s1, self.train.dig_keep@, x.len());
            let dropped = class_drops(s2, self.train.rules.drop, n);
            RegressorModel {
                clauses: Seq::new(
                    n,
                    |j: int|
                        self.clause_of(
                            m.clauses[j],
                            dropped[j],
                            is_above(v, y),
                            gate,
                            x,
                            act,
                            inv,
                            keep,
                        ),
                ),
                rng: after_drops(s2, self.train.rules.drop, n),
                literal_rng: self.train.after_active(m.literal_rng),
            }
        }
    }

    /// A clause after one update.
    pub open spec fn clause_of(
        &self,
        c: ClauseModel,
        dropped: bool,
        push_up: bool,
        gate: u64,
        x: Seq<bool>,
        act: Seq<bool>,
        inv: Seq<bool>,
        keep: Seq<bool>,
    ) -> ClauseModel {
        let half = self.train.geom.half;
        if dropped {
            c
        } else {
            feedback_of(
                c,
                push_up,
                holds(c.auto.ta, half, x, act),
                gate,
                self.train.rules,
                x,
                act,
                inv,
                keep,
                half,
                self.train.geom.max_state,
            )
        }
    }

    /// The regressor after training on the first `k` samples of `order`.
    pub open spec fn fit_order_of(
        &self,
        m: RegressorModel,
        xs: Seq<Seq<bool>>,
        ys: Seq<Target>,
        order: Seq<usize>,
        k: nat,
    ) -> RegressorModel
        decreases k,
    {
        if k == 0 {
            m
        } else {
            let i = order[k - 1] as int;
            self.fit_one_of(self.fit_order_of(m, xs, ys, order, (k - 1) as nat), xs[i], ys[i])
        }
    }

    /// The regressor after one epoch: every sample once, in a random order.
    pub open spec fn fit_epoch_of(
        &self,
        m: RegressorModel,
        xs: Seq<Seq<bool>>,
        ys: Seq<Target>,
    ) -> RegressorModel {
        let n = xs.len();
        self.fit_order_of(
            RegressorModel { rng: rng_skip(m.rng, shuffle_draws(n)), ..m },
            xs,
            ys,
            epoch_order_of(m.rng, n),
            n,
        )
    }

    /// A batch fits the regressor.
    pub open spec fn fits(&self, batch: &EncodedBatch) -> bool {
        batch.wf() && batch.words == self.train.geom.words
    }

    /// The literals of sample `i` of a batch.
    pub open spec fn row_bits(&self, batch: &EncodedBatch, i: int) -> Seq<bool> {
        bits_of(batch.sample(i), self.train.n())
    }

    /// The literals of all samples of a batch.
    pub open spec fn batch_bits(&self, batch: &EncodedBatch) -> Seq<Seq<bool>> {
        Seq::new(batch.n as nat, |i: int| self.row_bits(batch, i))
    }
}

impl TMRegressor {
    pub open spec fn wf(&self) -> bool {
        &&& self.config.wf()
        &&& self.clauses@.len() == self.config.n_clauses
        &&& forall|j: int|
            0 <= j < self.clauses@.len() ==> (#[trigger] self.clauses@[j]).wf(
                &self.config.train.geom,
                0,
                self.config.train.threshold,
            )
    }

    /// A regressor with 8-bit counters, boosted rewards and seed 42.
    pub fn new(n_features: usize, n_clauses: usize, threshold: i32, s: Dyadic) -> (r: Self)
        requires
            n_features >= 1,
            n_clauses >= 2,
            n_clauses < usize::MAX,
            threshold >= 1,
            s.wf(),
            s.above_one(),
            2 * n_features + 64 <= usize::MAX,
        ensures
            r.wf(),
            r.config.n_features == n_features,
            r.config.n_clauses == n_clauses,
            r.config.train.threshold == threshold,
            r.config.train.s == s,
            r.config.train.geom.half == 128,
            r.config.train.rules == (Rules {
                boost: true,
                max_included: usize::MAX,
                wmin: 0,
                wmax: threshold,
                type_iii: false,
                d_gate: 0,
                drop: Chance { floor: 0, exact: true },
            }),
            r.config.train.literal_drop == (Chance { floor: 0, exact: true }),
            r.config.train.dig_lit_active@ == certain_digits(),
            r@ == initial_regressor(
                42,
                n_clauses as nat,
                (2 * n_features) as nat,
                128,
            ),
    {
        Self::with_config(n_features, n_clauses, threshold, s, 8, true, 42)
    }

    /// A regressor with all settings given.
    pub fn with_config(
        n_features: usize,
        n_clauses: usize,
        threshold: i32,
        s: Dyadic,
        state_bits: u8,
        boost_true_positive: bool,
        seed: u64,
    ) -> (r: Self)
        requires
            n_features >= 1,
            n_clauses >= 2,
            n_clauses < usize::MAX,
            threshold >= 1,
            s.wf(),
            s.above_one(),
            2 <= state_bits <= 8,
            2 * n_features + 64 <= usize::MAX,
        ensures
            r.wf(),
            r.config.n_features == n_features,
            r.config.n_clauses == n_clauses,
            r.config.train.threshold == threshold,
            r.config.train.s == s,
            r.config.train.geom.half == half_of(state_bits),
            r.config.train.rules == (Rules {
                boost: boost_true_positive,
                max_included: usize::MAX,
                wmin: 0,
                wmax: threshold,
                type_iii: false,
                d_gate: 0,
                drop: Chance { floor: 0, exact: true },
            }),
            r.config.train.literal_drop == (Chance { floor: 0, exact: true }),
            r.config.train.dig_lit_active@ == certain_digits(),
            r@ == initial_regressor(
                seed,
                n_clauses as nat,
                (2 * n_features) as nat,
                half_of(state_bits),
            ),
    {
        let train: TrainConfig = TrainConfig::new(
            2 * n_features,
            threshold,
            s,
            state_bits,
            boost_true_positive,
            0,
        );
        let ghost want = initial_regressor(
            seed,
            n_clauses as nat,
            (2 * n_features) as nat,
            half_of(state_bits),
        );
        let mut clauses: Vec<Clause> = Vec::with_capacity(n_clauses);
        let mut j: usize = 0;
        while j < n_clauses
            invariant
                train.geom.wf(),
                train.geom.n_literals == 2 * n_features,
                train.geom.half == half_of(state_bits),
                threshold >= 1,
                n_clauses < usize::MAX,
                want == initial_regressor(
                    seed,
                    n_clauses as nat,
                    (2 * n_features) as nat,
                    half_of(state_bits),
                ),
                j <= n_clauses,
                clauses@.len() == j,
                forall|k: int|
                    0 <= k < j ==> (#[trigger] clauses@[k]).wf(&train.geom, 0, threshold)
                        && clauses@[k]@ == want.clauses[k],
            decreases n_clauses - j,
        {
            clauses.push(
                Clause {
                    auto: Automata::blank(&train.geom),
                    weight: 1,
                    rng: stream_rng(seed, j as u64),
                },
            );
            j = j + 1;
        }
        let r: TMRegressor = TMRegressor {
            config: RegressorConfig { train, n_features, n_clauses },
            clauses,
            rng: Rng::new(seed),
            literal_rng: Rng::new(seed ^ LITERAL_XOR),
        };
        proof {
            assert(r@.clauses =~= want.clauses);
        }
        r
    }

    /// Everything but the configuration is the same.
    pub open spec fn same_state(&self, other: &Self) -> bool {
        self.clauses == other.clauses && self.rng == other.rng && self.literal_rng
            == other.literal_rng
    }

    /// Limits how many literals each clause may include.
    pub fn max_included_literals(self, max: usize) -> (r: Self)
        requires
            self.wf(),
        ensures
            r.wf(),
            r.same_state(&self),
            r.config == (RegressorConfig {
                train: TrainConfig {
                    rules: Rules { max_included: max, ..self.config.train.rules },
                    ..self.config.train
                },
                ..self.config
            }),
    {
        let mut r: TMRegressor = self;
        r.config.train.set_max_included(max);
        r
    }

    /// Sets the probability, in [0, 1), with which a clause is dropped from an update.
    pub fn clause_drop_p(self, p: Dyadic) -> (r: Self)
        requires
            self.wf(),
            p.wf(),
            p.below_one(),
        ensures
            r.wf(),
            r.same_state(&self),
            r.config == (RegressorConfig {
                train: TrainConfig {
                    rules: Rules {
                        drop: chance_of(p.mant as int, p.exp as int),
                        ..self.config.train.rules
                    },
                    ..self.config.train
                },
                ..self.config
            }),
    {
        let mut r: TMRegressor = self;
        r.config.train.set_clause_drop(p);
        r
    }

    /// Sets the probability, in [0, 1), with which a literal is left out of a training step.
    pub fn literal_drop_p(self, p: Dyadic) -> (r: Self)
        requires
            self.wf(),
            p.wf(),
            p.below_one(),
        ensures
            r.wf(),
            r.same_state(&self),
            r.config.train.dig_lit_active@ == active_digits(p),
            r.config == (RegressorConfig {
                train: TrainConfig {
                    literal_drop: chance_of(p.mant as int, p.exp as int),
                    dig_lit_active: r.config.train.dig_lit_active,
                    ..self.config.train
                },
                ..self.config
            }),
    {
        let mut r: TMRegressor = self;
        r.config.train.set_literal_drop(p);
        r
    }

    /// The number of features.
    pub fn n_features(&self) -> (r: usize)
        ensures
            r == self.config.n_features,
    {
        self.config.n_features
    }

    /// The number of clauses.
    pub fn n_clauses(&self) -> (r: usize)
        ensures
            r == self.config.n_clauses,
    {
        self.config.n_clauses
    }

    /// The largest prediction.
    pub fn threshold(&self) -> (r: i32)
        ensures
            r == self.config.train.threshold,
    {
        self.config.train.threshold
    }

    /// The weight of a clause.
    pub fn clause_weight(&self, clause: usize) -> (r: i32)
        requires
            self.wf(),
            clause < self.config.n_clauses,
        ensures
            r == self@.clauses[clause as int].weight,
            0 <= r <= self.config.train.threshold,
    {
        proof {
            assert(self.clauses@[clause as int].wf(&self.config.train.geom, 0, self.config.train.threshold));
        }
        self.clauses[clause].weight
    }

    /// The prediction for the packed literals of a sample.
    pub fn predict_lit(&self, lit: &[u64]) -> (r: i32)
        requires
            self.wf(),
            lit@.len() == self.config.train.geom.words,
        ensures
            r == self.config.predict_of(self@, bits_of(lit@, self.config.train.n())),
            0 <= r <= self.config.train.threshold,
    {
        let ghost m = self@.clauses;
        let ghost f = fired_predict(
            m,
            self.config.train.geom.half,
            bits_of(lit@, self.config.train.n()),
        );
        let mut sum: i128 = 0;
        let mut j: usize = 0;
        while j < self.clauses.len()
            invariant
                self.wf(),
                lit@.len() == self.config.train.geom.words,
                m == self@.clauses,
                f == fired_predict(
                    m,
                    self.config.train.geom.half,
                    bits_of(lit@, self.config.train.n()),
                ),
                j <= self.clauses@.len(),
                sum == signed_sum(f, all_active(m.len()), weights_of(m), j as nat),
                0 <= sum <= 0x8000_0000 * j,
            decreases self.clauses@.len() - j,
        {
            let c: &Clause = &self.clauses[j];
            if c.auto.matches(&self.config.train.geom, lit) {
                sum = sum + c.weight as i128;
            }
            j = j + 1;
        }
        if sum > self.config.train.threshold as i128 {
            self.config.train.threshold
        } else {
            sum as i32
        }
    }

    /// The prediction for a sample.
    pub fn predict(&self, sample: &EncodedSample) -> (r: i32)
        requires
            self.wf(),
            sample.0@.len() == self.config.train.geom.words,
        ensures
            r == self.config.predict_of(self@, bits_of(sample.0@, self.config.train.n())),
            0 <= r <= self.config.train.threshold,
    {
        self.predict_lit(&sample.0)
    }

    /// The predictions for all samples of a batch.
    pub fn predict_batch(&self, batch: &EncodedBatch) -> (r: Vec<i32>)
        requires
            self.wf(),
            self.config.fits(batch),
        ensures
            r@.len() == batch.n,
            forall|i: int|
                0 <= i < batch.n ==> #[trigger] r@[i] == self.config.predict_of(
                    self@,
                    self.config.row_bits(batch, i),
                ),
    {
        let mut r: Vec<i32> = Vec::with_capacity(batch.n);
        let mut i: usize = 0;
        while i < batch.n
            invariant
                self.wf(),
                self.config.fits(batch),
                i <= batch.n,
                r@.len() == i,
                forall|k: int|
                    0 <= k < i ==> #[trigger] r@[k] == self.config.predict_of(
                        self@,
                        self.config.row_bits(batch, k),
                    ),
            decreases batch.n - i,
        {
            r.push(self.predict_lit(batch.row(i)));
            i = i + 1;
        }
        r
    }

    /// Trains on the packed literals of one sample with target `y`.
    pub fn fit_one_lit(&mut self, lit: &[u64], y: Target)
        requires
            old(self).wf(),
            lit@.len() == old(self).config.train.geom.words,
            y.wf(),
        ensures
            final(self).wf(),
            final(self).config == old(self).config,
            final(self)@ == old(self).config.fit_one_of(
                old(self)@,
                bits_of(lit@, old(self).config.train.n()),
                y,
            ),
    {
        let ghost before = *self;
        let ghost m = self@;
        let ghost n = self.config.train.n();
        let ghost x = bits_of(lit@, n);
        let ghost want = self.config.fit_one_of(m, x, y);
        let v: i32 = self.predict_lit(lit);
        let gate: u64 = y.error_gate(v, self.config.train.threshold);
        if gate < NEGLIGIBLE {
            return ;
        }
        let push_up: bool = y.above(v);
        let n_literals: usize = self.config.train.geom.n_literals;
        let words: usize = self.config.train.geom.words;
        let n_clauses: usize = self.clauses.len();
        let lit_b: Vec<u8> = expand_bits_to_bytes(lit, n_literals);
        let active: Vec<u64> = self.config.train.draw_active(&mut self.literal_rng);
        let active_b: Vec<u8> = expand_bits_to_bytes(&active, n_literals);
        let inv_mask: Vec<u64> = bernoulli_mask(&mut self.rng, &self.config.train.dig_inv, words);
        let keep_mask: Vec<u64> = bernoulli_mask(&mut self.rng, &self.config.train.dig_keep, words);
        let inv_b: Vec<u8> = expand_bits_to_bytes(&inv_mask, n_literals);
        let keep_b: Vec<u8> = expand_bits_to_bytes(&keep_mask, n_literals);
        let ghost s2 = self.rng@;
        let dropped: Vec<bool> = if self.config.train.rules.drop.positive() {
            draw_drops(&mut self.rng, self.config.train.rules.drop, n_clauses)
        } else {
            vec![false; n_clauses]
        };
        let ghost act = bits_of(active@, n);
        let ghost inv = bits_of(inv_mask@, n);
        let ghost keep = bits_of(keep_mask@, n);
        proof {
            assert(dropped@ =~= class_drops(s2, before.config.train.rules.drop, n_clauses as nat));
            lemma_flags(lit_b@, lit@, n);
            lemma_flags(active_b@, active@, n);
            lemma_flags(inv_b@, inv_mask@, n);
            lemma_flags(keep_b@, keep_mask@, n);
        }
        let mut j: usize = 0;
        while j < n_clauses
            invariant
                before.wf(),
                self.wf(),
                self.config == before.config,
                self.rng@ == want.rng,
                self.literal_rng@ == want.literal_rng,
                m == before@,
                n == before.config.train.n(),
                n_literals == n,
                n_clauses == m.clauses.len(),
                n_clauses == self.clauses@.len(),
                n_clauses == dropped@.len(),
                want.clauses.len() == n_clauses,
                lit@.len() == before.config.train.geom.words,
                active@.len() == before.config.train.geom.words,
                x == bits_of(lit@, n),
                act == bits_of(active@, n),
                flags(lit_b@) == x,
                flags(active_b@) == act,
                flags(inv_b@) == inv,
                flags(keep_b@) == keep,
                lit_b@.len() == n,
                active_b@.len() == n,
                inv_b@.len() == n,
                keep_b@.len() == n,
                forall|l: int| 0 <= l < n ==> #[trigger] lit_b@[l] <= 1,
                j <= n_clauses,
                forall|i: int| 0 <= i < j ==> (#[trigger] self.clauses@[i])@ == want.clauses[i],
                forall|i: int|
                    j <= i < n_clauses ==> (#[trigger] self.clauses@[i])@ == m.clauses[i],
                forall|i: int|
                    0 <= i < n_clauses ==> #[trigger] want.clauses[i] == before.config.clause_of(
                        m.clauses[i],
                        dropped@[i],
                        push_up,
                        gate,
                        x,
                        act,
                        inv,
                        keep,
                    ),
            decreases n_clauses - j,
        {
            if !dropped[j] {
                let train: &TrainConfig = &self.config.train;
                let c: &mut Clause = &mut self.clauses[j];
                let fires: bool = c.auto.fires(&train.geom, lit, &active);
                c.apply_one_clause(
                    &train.geom,
                    &train.rules,
                    push_up,
                    fires,
                    gate,
                    &lit_b,
                    &inv_b,
                    &keep_b,
                    &active_b,
                );
            }
            proof {
                assert(self.clauses@[j as int]@ == want.clauses[j as int]);
            }
            j = j + 1;
        }
        proof {
            assert(self@.clauses =~= want.clauses);
        }
    }

    /// Trains on one sample with target `y`.
    pub fn fit_one(&mut self, sample: &EncodedSample, y: Target)
        requires
            old(self).wf(),
            sample.0@.len() == old(self).config.train.geom.words,
            y.wf(),
        ensures
            final(self).wf(),
            final(self).config == old(self).config,
            final(self)@ == old(self).config.fit_one_of(
                old(self)@,
                bits_of(sample.0@, old(self).config.train.n()),
                y,
            ),
    {
        self.fit_one_lit(&sample.0, y)
    }

    /// Trains for one epoch: every sample once, in a random order.
    pub fn fit_epoch(&mut self, batch: &EncodedBatch, ys: &[Target])
        requires
            old(self).wf(),
            old(self).config.fits(batch),
            ys@.len() == batch.n,
            forall|i: int| 0 <= i < ys@.len() ==> (#[trigger] ys@[i]).wf(),
        ensures
            final(self).wf(),
            final(self).config == old(self).config,
            final(self)@ == old(self).config.fit_epoch_of(
                old(self)@,
                old(self).config.batch_bits(batch),
                ys@,
            ),
    {
        let ghost before = *self;
        let order: Vec<usize> = epoch_order(&mut self.rng, batch.n);
        let ghost start = self@;
        let ghost xs = before.config.batch_bits(batch);
        proof {
            assert(start == (RegressorModel {
                rng: rng_skip(before@.rng, shuffle_draws(batch.n as nat)),
                ..before@
            }));
        }
        let mut k: usize = 0;
        while k < order.len()
            invariant
                k <= order@.len(),
                order@.len() == batch.n,
                self.wf(),
                self.config == before.config,
                before.config.fits(batch),
                xs == before.config.batch_bits(batch),
                ys@.len() == batch.n,
                forall|i: int| 0 <= i < ys@.len() ==> (#[trigger] ys@[i]).wf(),
                forall|i: int| 0 <= i < order@.len() ==> #[trigger] order@[i] < batch.n,
                self@ == before.config.fit_order_of(start, xs, ys@, order@, k as nat),
            decreases order@.len() - k,
        {
            let i: usize = order[k];
            self.fit_one_lit(batch.row(i), ys[i]);
            k = k + 1;
        }
    }

    /// The included literals of a clause, as pairs of a feature and whether it is negated.
    pub fn clause_rule(&self, clause: usize) -> (r: Vec<(usize, bool)>)
        requires
            self.wf(),
            clause < self.config.n_clauses,
        ensures
            r@ == rule_of(
                self@.clauses[clause as int].auto.ta,
                self.config.train.geom.half,
                self.config.n_features as int,
                self.config.train.n(),
            ),
    {
        proof {
            assert(self.clauses@[clause as int].wf(&self.config.train.geom, 0, self.config.train.threshold));
        }
        self.clauses[clause].auto.rule(&self.config.train.geom, self.config.n_features)
    }

    /// Whether the index of a clause is even.
    pub fn clause_is_positive(&self, clause: usize) -> (r: bool)
        ensures
            r == (clause % 2 == 0),
    {
        clause % 2 == 0
    }
}

} // verus!
