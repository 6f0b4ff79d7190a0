//! The coalesced Tsetlin Machine autoencoder: every feature is an output, all outputs share one
//! bank of clauses, and each output weighs the clauses with signed weights.
use crate::bits::{bit_at, bits_of, byte_of, clear_bit, expand_bits_to_bytes, expands, get_bit};
use crate::clause_bank::automata::{half_of, rule_of};
use crate::clause_bank::feedback::{after_drops, clamp, clamp_sum, fired_indices, Inputs, Rules};
use crate::clause_bank::shared::{
    active_clauses, all_active, count_shared, draw_active_clauses, fire_shared, fresh_shared,
    fresh_weights, shared_count_at, shared_fired, shared_model, shared_update_of, shared_votes,
    shared_wf, signed_sum, sum_signed, update_shared, vote_shared, weight_rows, SharedClause,
    SharedUpdate,
};
use crate::dyadic::{chance_of, plain_bound, plain_gate, Chance, Dyadic};
use crate::encoder::{EncodedBatch, EncodedSample};
use crate::models::autoencoder::vanilla_autoencoder::{count_right, decided, masked, right_total};
use crate::models::classification::coalesced_classifier::{
    initial_coalesced, output_streams, CoalescedModel,
};
use crate::models::classification::sparse_classifier::positions;
use crate::models::config::{
    active_digits, certain_digits, indicator_gate, LITERAL_XOR, TrainConfig, WEIGHT_XOR,
};
use crate::rng::{rng_skip, Rng};
use crate::sampling::{epoch_order, epoch_order_of, shuffle_draws};
use vstd::prelude::*;

verus! {

/// The configuration of a coalesced autoencoder.
#[derive(Clone, Debug)]
pub struct CoalescedAutoEncoderConfig {
    pub train: TrainConfig,
    pub n_features: usize,
    pub n_clauses: usize,
}

/// A coalesced Tsetlin Machine autoencoder.
#[derive(Clone, Debug)]
pub struct TMCoalescedAutoEncoder {
    pub config: CoalescedAutoEncoderConfig,
    pub clauses: Vec<SharedClause>,
    /// The weights of each output.
    pub weights: Vec<Vec<i32>>,
    pub output_rngs: Vec<Rng>,
    pub rng: Rng,
    pub literal_rng: Rng,
}

impl View for TMCoalescedAutoEncoder {
    type V = CoalescedModel;

    open spec fn view(&self) -> CoalescedModel {
        CoalescedModel {
            clauses: shared_model(self.clauses@),
            weights: weight_rows(self.weights@),
            class_rngs: positions(self.output_rngs@),
            rng: self.rng@,
            literal_rng: self.literal_rng@,
        }
    }
}

impl CoalescedAutoEncoderConfig {
    pub open spec fn wf(&self) -> bool {
        &&& self.train.wf()
        &&& self.n_features >= 1
        &&& self.n_clauses >= 1
        &&& self.train.geom.n_literals == 2 * self.n_features
        &&& self.n_clauses * self.train.geom.n_literals <= usize::MAX
        &&& self.n_features + self.n_clauses < usize::MAX
    }

    /// The clamped vote sum of an output in training. Dropped clauses count too.
    pub open spec fn sum_of(&self, weights: Seq<i32>, outs: Seq<bool>) -> int {
        clamp(
            signed_sum(outs, all_active(outs.len()), weights, weights.len()),
            -self.train.threshold as int,
            self.train.threshold as int,
        )
    }

    /// The bound on a drawn fraction for feedback to an output whose vote sum is `v`.
    pub open spec fn gate_of(&self, v: int, target: bool) -> u64 {
        let t = self.train.threshold as int;
        plain_bound(
            if target {
                t - v
            } else {
                t + v
            },
            2 * t,
        ) as u64
    }

    /// The autoencoder after an update of output `o`, in which the feature itself is hidden.
    /// The stream of the output decides which clauses are dropped.
    pub open spec fn updated(&self, m: CoalescedModel, o: int, x: Seq<bool>, act: Seq<bool>) -> CoalescedModel {
        let n = m.clauses.autos.len();
        let seen = masked(act, o, self.n_features as int);
        let outs = shared_fired(m.clauses, self.train.geom.half, x, seen);
        let u = shared_update_of(
            SharedUpdate {
                clauses: m.clauses,
                weights: m.weights[o],
                rng: after_drops(m.class_rngs[o], self.train.rules.drop, n),
            },
            active_clauses(m.class_rngs[o], self.train.rules.drop, n),
            x[o],
            self.gate_of(self.sum_of(m.weights[o], outs), x[o]),
            outs,
            self.train.rules,
            self.train.dig_inv@,
            self.train.dig_keep@,
            x,
            seen,
            self.train.geom.half,
            self.train.geom.max_state,
        );
        CoalescedModel {
            clauses: u.clauses,
            weights: m.weights.update(o, u.weights),
            class_rngs: m.class_rngs.update(o, u.rng),
            ..m
        }
    }

    /// The autoencoder after updates of the first `k` outputs.
    pub open spec fn updated_outputs(
        &self,
        m: CoalescedModel,
        x: Seq<bool>,
        act: Seq<bool>,
        k: nat,
    ) -> CoalescedModel
        decreases k,
    {
        if k == 0 {
            m
        } else {
            self.updated(self.updated_outputs(m, x, act, (k - 1) as nat), k - 1, x, act)
        }
    }

    /// The autoencoder after training on one sample: all outputs one after the other.
    pub open spec fn fit_one_of(&self, m: CoalescedModel, x: Seq<bool>) -> CoalescedModel {
        self.updated_outputs(
            CoalescedModel { literal_rng: self.train.after_active(m.literal_rng), ..m },
            x,
            self.train.active_of(m.literal_rng),
            self.n_features as nat,
        )
    }

    /// The autoencoder after training on the first `k` samples of `order`.
    pub open spec fn fit_order_of(
        &self,
        m: CoalescedModel,
        xs: Seq<Seq<bool>>,
        order: Seq<usize>,
        k: nat,
    ) -> CoalescedModel
        decreases k,
    {
        if k == 0 {
            m
        } else {
            self.fit_one_of(
                self.fit_order_of(m, xs, order, (k - 1) as nat),
                xs[order[k - 1] as int],
            )
        }
    }

    /// The autoencoder after one epoch: every sample once, in a random order.
    pub open spec fn fit_epoch_of(&self, m: CoalescedModel, xs: Seq<Seq<bool>>) -> CoalescedModel {
        let n = xs.len();
        self.fit_order_of(
            CoalescedModel { rng: rng_skip(m.rng, shuffle_draws(n)), ..m },
            xs,
            epoch_order_of(m.rng, n),
            n,
        )
    }

    /// The vote sums of all outputs in inference.
    pub open spec fn sums_of(&self, m: CoalescedModel, x: Seq<bool>) -> Seq<int> {
        let fired = shared_votes(m.clauses, self.train.geom.half, x);
        Seq::new(
            m.weights.len(),
            |o: int| signed_sum(fired, all_active(fired.len()), m.weights[o], m.weights[o].len()),
        )
    }

    /// The reconstruction of a sample: a feature is 1 where the vote sum of its output is
    /// positive.
    pub open spec fn reconstruct_of(&self, m: CoalescedModel, x: Seq<bool>) -> Seq<u8> {
        Seq::new(m.weights.len(), |o: int| decided(self.sums_of(m, x)[o]))
    }

    /// The scores of all outputs: their vote sums, clamped to the threshold.
    pub open spec fn scores_of(&self, m: CoalescedModel, x: Seq<bool>) -> Seq<int> {
        Seq::new(
            m.weights.len(),
            |o: int|
                clamp(
                    self.sums_of(m, x)[o],
                    -self.train.threshold as int,
                    self.train.threshold as int,
                ),
        )
    }

    /// A batch fits the autoencoder.
    pub open spec fn fits(&self, batch: &EncodedBatch) -> bool {
        batch.wf() && batch.words == self.train.geom.words
    }

    /// The literals of sample `i` of a batch.
    pub open spec fn row_bits(&self, batch: &EncodedBatch, i: int) -> Seq<bool> {
        bits_of(batch.sample(i), self.train.n())
    }

    /// The literals of all samples of a batch.
    pub open spec fn batch_bits(&self, batch: &EncodedBatch) -> Seq<Seq<bool>> {
        Seq::new(batch.n as nat, |i: int| self.row_bits(batch, i))
    }
}

impl TMCoalescedAutoEncoder {
    pub open spec fn wf(&self) -> bool {
        &&& self.config.wf()
        &&& self.clauses@.len() == self.config.n_clauses
        &&& shared_wf(self.clauses@, &self.config.train.geom)
        &&& self.weights@.len() == self.config.n_features
        &&& forall|o: int|
            0 <= o < self.weights@.len() ==> (#[trigger] self.weights@[o])@.len()
                == self.config.n_clauses
        &&& self.output_rngs@.len() == self.config.n_features
    }

    /// An autoencoder with 8-bit counters, boosted rewards and seed 42.
    pub fn new(
        n_features: usize,
        n_clauses: usize,
        threshold: i32,
        s: Dyadic,
    ) -> (r: Self)
        requires
            n_features >= 1,
            n_clauses >= 1,
            threshold >= 1,
            s.wf(),
            s.above_one(),
            2 * n_features + 64 <= usize::MAX,
            n_clauses * (2 * n_features) <= usize::MAX,
            n_features + n_clauses < usize::MAX,
        ensures
            r.wf(),
            r.config.n_features == n_features,
            r.config.n_clauses == n_clauses,
            r.config.train.threshold == threshold,
            r.config.train.s == s,
            r.config.train.geom.half == 128,
            r.config.train.rules == (Rules {
                boost: true,
                max_included: usize::MAX,
                wmin: 1,
                wmax: threshold,
                type_iii: false,
                d_gate: 0,
                drop: Chance { floor: 0, exact: true },
            }),
            r.config.train.literal_drop == (Chance { floor: 0, exact: true }),
            r.config.train.dig_lit_active@ == certain_digits(),
            r@ == initial_coalesced(
                42,
                n_features as nat,
                n_clauses as nat,
                (2 * n_features) as nat,
                128,
            ),
    {
        Self::with_config(n_features, n_clauses, threshold, s, 8, true, 42)
    }

    /// An autoencoder with all settings given.
    pub fn with_config(
        n_features: usize,
        n_clauses: usize,
        threshold: i32,
        s: Dyadic,
        state_bits: u8,
        boost_true_positive: bool,
        seed: u64,
    ) -> (r: Self)
        requires
            n_features >= 1,
            n_clauses >= 1,
            threshold >= 1,
            s.wf(),
            s.above_one(),
            2 <= state_bits <= 8,
            2 * n_features + 64 <= usize::MAX,
            n_clauses * (2 * n_features) <= usize::MAX,
            n_features + n_clauses < usize::MAX,
        ensures
            r.wf(),
            r.config.n_features == n_features,
            r.config.n_clauses == n_clauses,
            r.config.train.threshold == threshold,
            r.config.train.s == s,
            r.config.train.geom.half == half_of(state_bits),
            r.config.train.rules == (Rules {
                boost: boost_true_positive,
                max_included: usize::MAX,
                wmin: 1,
                wmax: threshold,
                type_iii: false,
                d_gate: 0,
                drop: Chance { floor: 0, exact: true },
            }),
            r.config.train.literal_drop == (Chance { floor: 0, exact: true }),
            r.config.train.dig_lit_active@ == certain_digits(),
            r@ == initial_coalesced(
                seed,
                n_features as nat,
                n_clauses as nat,
                (2 * n_features) as nat,
                half_of(state_bits),
            ),
    {
        let train: TrainConfig = TrainConfig::new(
            2 * n_features,
            threshold,
            s,
            state_bits,
            boost_true_positive,
            1,
        );
        let mut rng: Rng = Rng::new(seed);
        let clauses: Vec<SharedClause> = fresh_shared(&train.geom, &mut rng, seed, n_clauses);
        let mut weight_rng: Rng = Rng::new(seed ^ WEIGHT_XOR);
        let weights: Vec<Vec<i32>> = fresh_weights(&mut weight_rng, n_features, n_clauses);
        TMCoalescedAutoEncoder {
            config: CoalescedAutoEncoderConfig { train, n_features, n_clauses },
            clauses,
            weights,
            output_rngs: output_streams(seed, n_features, n_clauses),
            rng,
            literal_rng: Rng::new(seed ^ LITERAL_XOR),
        }
    }

    /// Everything but the configuration is the same.
    pub open spec fn same_state(&self, other: &Self) -> bool {
        self.clauses == other.clauses && self.weights == other.weights && self.output_rngs
            == other.output_rngs && self.rng == other.rng && self.literal_rng == other.literal_rng
    }

    /// Limits how many literals each clause may include.
    pub fn max_included_literals(self, max: usize) -> (r: Self)
        requires
            self.wf(),
        ensures
            r.wf(),
            r.same_state(&self),
            r.config == (CoalescedAutoEncoderConfig {
                train: TrainConfig {
                    rules: Rules { max_included: max, ..self.config.train.rules },
                    ..self.config.train
                },
                ..self.config
            }),
    {
        let mut r: TMCoalescedAutoEncoder = self;
        r.config.train.set_max_included(max);
        r
    }

    /// Sets the probability, in [0, 1), with which a clause is dropped from a step.
    pub fn clause_drop_p(self, p: Dyadic) -> (r: Self)
        requires
            self.wf(),
            p.wf(),
            p.below_one(),
        ensures
            r.wf(),
            r.same_state(&self),
            r.config == (CoalescedAutoEncoderConfig {
                train: TrainConfig {
                    rules: Rules {
                        drop: chance_of(p.mant as int, p.exp as int),
                        ..self.config.train.rules
                    },
                    ..self.config.train
                },
                ..self.config
            }),
    {
        let mut r: TMCoalescedAutoEncoder = self;
        r.config.train.set_clause_drop(p);
        r
    }

    /// Sets the probability, in [0, 1), with which a literal is left out of a training step.
    pub fn literal_drop_p(self, p: Dyadic) -> (r: Self)
        requires
            self.wf(),
            p.wf(),
            p.below_one(),
        ensures
            r.wf(),
            r.same_state(&self),
            r.config.train.dig_lit_active@ == active_digits(p),
            r.config == (CoalescedAutoEncoderConfig {
                train: TrainConfig {
                    literal_drop: chance_of(p.mant as int, p.exp as int),
                    dig_lit_active: r.config.train.dig_lit_active,
                    ..self.config.train
                },
                ..self.config
            }),
    {
        let mut r: TMCoalescedAutoEncoder = self;
        r.config.train.set_literal_drop(p);
        r
    }

    /// Turns Type III feedback on, with strength `d > 1`.
    pub fn type_iii_feedback(self, d: Dyadic) -> (r: Self)
        requires
            self.wf(),
            d.wf(),
            d.above_one(),
        ensures
            r.wf(),
            r.same_state(&self),
            r.config == (CoalescedAutoEncoderConfig {
                train: TrainConfig {
                    rules: Rules {
                        type_iii: true,
                        d_gate: indicator_gate(d),
                        ..self.config.train.rules
                    },
                    ..self.config.train
                },
                ..self.config
            }),
    {
        let mut r: TMCoalescedAutoEncoder = self;
        r.config.train.set_type_iii(d);
        r
    }

    /// The number of features.
    pub fn n_features(&self) -> (r: usize)
        ensures
            r == self.config.n_features,
    {
        self.config.n_features
    }

    /// The number of shared clauses.
    pub fn n_clauses(&self) -> (r: usize)
        ensures
            r == self.config.n_clauses,
    {
        self.config.n_clauses
    }

    /// The number of words of a packed sample.
    pub fn words_per_sample(&self) -> (r: usize)
        ensures
            r == self.config.train.geom.words,
    {
        self.config.train.geom.words
    }

    /// The specificity.
    pub fn s(&self) -> (r: Dyadic)
        ensures
            r == self.config.train.s,
    {
        self.config.train.s
    }

    /// The weight that an output gives a clause.
    pub fn clause_weight(&self, output: usize, clause: usize) -> (r: i32)
        requires
            self.wf(),
            output < self.config.n_features,
            clause < self.config.n_clauses,
        ensures
            r == self@.weights[output as int][clause as int],
    {
        self.weights[output][clause]
    }

    /// The sum of the weights that output `o` gives the clauses in `fired`.
    fn sum_fired(&self, o: usize, fired: &[bool]) -> (r: i128)
        requires
            self.wf(),
            o < self.config.n_features,
            fired@.len() == self.config.n_clauses,
        ensures
            r == signed_sum(
                fired@,
                all_active(fired@.len()),
                self@.weights[o as int],
                self@.weights[o as int].len(),
            ),
    {
        let everyone: Vec<bool> = vec![true; self.config.n_clauses];
        proof {
            assert(everyone@ =~= all_active(fired@.len()));
        }
        sum_signed(fired, &everyone, &self.weights[o])
    }

    /// Applies feedback on one sample to output `o`. The feature is hidden in `inp`.
    fn update_output_coalesced(&mut self, o: usize, target: bool, inp: &Inputs, Ghost(act): Ghost<Seq<bool>>)
        requires
            old(self).wf(),
            o < old(self).config.n_features,
            inp.wf(&old(self).config.train.geom),
            target == inp.x(&old(self).config.train.geom)[o as int],
            inp.act(&old(self).config.train.geom) == masked(
                act,
                o as int,
                old(self).config.n_features as int,
            ),
        ensures
            final(self).wf(),
            final(self).config == old(self).config,
            final(self)@ == old(self).config.updated(
                old(self)@,
                o as int,
                inp.x(&old(self).config.train.geom),
                act,
            ),
    {
        let ghost before = *self;
        let outs: Vec<bool> = fire_shared(
            &self.clauses,
            &self.config.train.geom,
            inp.lit,
            inp.active,
        );
        let v: i32 = clamp_sum(self.sum_fired(o, &outs), self.config.train.threshold);
        let t: i64 = self.config.train.threshold as i64;
        let u: i64 = if target {
            t - v as i64
        } else {
            t + v as i64
        };
        let gate: u64 = plain_gate(u as u64, (2 * t) as u64);
        let train: &TrainConfig = &self.config.train;
        let row: &mut Vec<i32> = &mut self.weights[o];
        let orng: &mut Rng = &mut self.output_rngs[o];
        let takes_part: Vec<bool> = draw_active_clauses(
            orng,
            train.rules.drop,
            self.config.n_clauses,
        );
        update_shared(
            &mut self.clauses,
            row,
            orng,
            &train.geom,
            &train.rules,
            &train.dig_inv,
            &train.dig_keep,
            &takes_part,
            target,
            gate,
            &outs,
            inp,
        );
        proof {
            let want = before.config.updated(
                before@,
                o as int,
                inp.x(&before.config.train.geom),
                act,
            );
            assert(self@.weights =~= want.weights);
            assert(self@.class_rngs =~= want.class_rngs);
        }
    }

    /// Trains on the packed literals of one sample.
    pub fn fit_one_lit(&mut self, lit: &[u64])
        requires
            old(self).wf(),
            lit@.len() == old(self).config.train.geom.words,
        ensures
            final(self).wf(),
            final(self).config == old(self).config,
            final(self)@ == old(self).config.fit_one_of(
                old(self)@,
                bits_of(lit@, old(self).config.train.n()),
            ),
    {
        let ghost before = *self;
        let ghost n = self.config.train.n();
        let ghost x = bits_of(lit@, n);
        let ghost geom = self.config.train.geom;
        let n_literals: usize = self.config.train.geom.n_literals;
        let n_features: usize = self.config.n_features;
        let lit_b: Vec<u8> = expand_bits_to_bytes(lit, n_literals);
        let mut active: Vec<u64> = self.config.train.draw_active(&mut self.literal_rng);
        let mut active_b: Vec<u8> = expand_bits_to_bytes(&active, n_literals);
        let ghost active0 = active@;
        let ghost active_b0 = active_b@;
        let ghost act = bits_of(active0, n);
        let ghost start = self@;
        let mut o: usize = 0;
        while o < n_features
            invariant
                self.wf(),
                self.config == before.config,
                n_features == before.config.n_features,
                n_literals == 2 * n_features,
                n == before.config.train.n(),
                n == n_literals,
                geom == before.config.train.geom,
                lit@.len() == geom.words,
                x == bits_of(lit@, n),
                expands(lit_b@, lit@, n as int),
                active@ == active0,
                active_b@ == active_b0,
                active0.len() == geom.words,
                expands(active_b0, active0, n as int),
                act == bits_of(active0, n),
                o <= n_features,
                self@ == before.config.updated_outputs(start, x, act, o as nat),
            decreases n_features - o,
        {
            let target: bool = get_bit(lit, o);
            let neg: usize = o + n_features;
            let word: usize = o / 64;
            let neg_word: usize = neg / 64;
            let saved: u64 = active[word];
            let saved_neg: u64 = active[neg_word];
            let saved_b: u8 = active_b[o];
            let saved_neg_b: u8 = active_b[neg];
            clear_bit(&mut active, o);
            clear_bit(&mut active, neg);
            active_b.set(o, 0);
            active_b.set(neg, 0);
            proof {
                assert(bits_of(active@, n) =~= masked(act, o as int, n_features as int));
                assert forall|l: int| 0 <= l < n implies #[trigger] active_b@[l] == byte_of(
                    bit_at(active@, l),
                ) by {
                    assert(active_b0[l] == byte_of(bit_at(active0, l)));
                }
            }
            let inp: Inputs = Inputs {
                lit,
                lit_b: lit_b.as_slice(),
                active: active.as_slice(),
                active_b: active_b.as_slice(),
            };
            self.update_output_coalesced(o, target, &inp, Ghost(act));
            active.set(neg_word, saved_neg);
            active.set(word, saved);
            active_b.set(neg, saved_neg_b);
            active_b.set(o, saved_b);
            proof {
                assert(active@ =~= active0);
                assert(active_b@ =~= active_b0);
            }
            o = o + 1;
        }
    }

    /// Trains on one sample.
    pub fn fit_one(&mut self, sample: &EncodedSample)
        requires
            old(self).wf(),
            sample.0@.len() == old(self).config.train.geom.words,
        ensures
            final(self).wf(),
            final(self).config == old(self).config,
            final(self)@ == old(self).config.fit_one_of(
                old(self)@,
                bits_of(sample.0@, old(self).config.train.n()),
            ),
    {
        self.fit_one_lit(&sample.0)
    }

    /// Trains for one epoch: every sample once, in a random order.
    pub fn fit_epoch(&mut self, batch: &EncodedBatch)
        requires
            old(self).wf(),
            old(self).config.fits(batch),
        ensures
            final(self).wf(),
            final(self).config == old(self).config,
            final(self)@ == old(self).config.fit_epoch_of(
                old(self)@,
                old(self).config.batch_bits(batch),
            ),
    {
        let ghost before = *self;
        let order: Vec<usize> = epoch_order(&mut self.rng, batch.n);
        let ghost start = self@;
        let ghost xs = before.config.batch_bits(batch);
        proof {
            assert(start == (CoalescedModel {
                rng: rng_skip(before@.rng, shuffle_draws(batch.n as nat)),
                ..before@
            }));
        }
        let mut k: usize = 0;
        while k < order.len()
            invariant
                k <= order@.len(),
                order@.len() == batch.n,
                self.wf(),
                self.config == before.config,
                before.config.fits(batch),
                xs == before.config.batch_bits(batch),
                forall|i: int| 0 <= i < order@.len() ==> #[trigger] order@[i] < batch.n,
                self@ == before.config.fit_order_of(start, xs, order@, k as nat),
            decreases order@.len() - k,
        {
            let i: usize = order[k];
            self.fit_one_lit(batch.row(i));
            k = k + 1;
        }
    }

    /// The reconstruction of the packed literals of a sample.
    pub fn reconstruct_lit(&self, lit: &[u64]) -> (r: Vec<u8>)
        requires
            self.wf(),
            lit@.len() == self.config.train.geom.words,
        ensures
            r@ == self.config.reconstruct_of(self@, bits_of(lit@, self.config.train.n())),
    {
        let ghost x = bits_of(lit@, self.config.train.n());
        let ghost want = self.config.reconstruct_of(self@, x);
        let fired: Vec<bool> = vote_shared(&self.clauses, &self.config.train.geom, lit);
        let mut r: Vec<u8> = Vec::with_capacity(self.config.n_features);
        let mut o: usize = 0;
        while o < self.config.n_features
            invariant
                self.wf(),
                want == self.config.reconstruct_of(self@, x),
                fired@ == shared_votes(self@.clauses, self.config.train.geom.half, x),
                o <= self.config.n_features,
                r@.len() == o,
                forall|k: int| 0 <= k < o ==> #[trigger] r@[k] == want[k],
            decreases self.config.n_features - o,
        {
            let sum: i128 = self.sum_fired(o, &fired);
            r.push(if sum > 0 {
                1
            } else {
                0
            });
            o = o + 1;
        }
        r
    }

    /// The reconstruction of a sample.
    pub fn reconstruct(&self, sample: &EncodedSample) -> (r: Vec<u8>)
        requires
            self.wf(),
            sample.0@.len() == self.config.train.geom.words,
        ensures
            r@ == self.config.reconstruct_of(self@, bits_of(sample.0@, self.config.train.n())),
    {
        self.reconstruct_lit(&sample.0)
    }

    /// The reconstructions of all samples of a batch.
    pub fn reconstruct_batch(&self, batch: &EncodedBatch) -> (r: Vec<Vec<u8>>)
        requires
            self.wf(),
            self.config.fits(batch),
        ensures
            r@.len() == batch.n,
            forall|i: int|
                0 <= i < batch.n ==> (#[trigger] r@[i])@ == self.config.reconstruct_of(
                    self@,
                    self.config.row_bits(batch, i),
                ),
    {
        let mut r: Vec<Vec<u8>> = Vec::with_capacity(batch.n);
        let mut i: usize = 0;
        while i < batch.n
            invariant
                self.wf(),
                self.config.fits(batch),
                i <= batch.n,
                r@.len() == i,
                forall|k: int|
                    0 <= k < i ==> (#[trigger] r@[k])@ == self.config.reconstruct_of(
                        self@,
                        self.config.row_bits(batch, k),
                    ),
            decreases batch.n - i,
        {
            r.push(self.reconstruct_lit(batch.row(i)));
            i = i + 1;
        }
        r
    }

    /// Writes the score of each output for a sample: its vote sum, clamped to the threshold.
    pub fn reconstruct_scores(&self, sample: &EncodedSample, out: &mut [i32])
        requires
            self.wf(),
            sample.0@.len() == self.config.train.geom.words,
            old(out)@.len() == self.config.n_features,
        ensures
            final(out)@.len() == self.config.n_features,
            forall|o: int|
                0 <= o < self.config.n_features ==> #[trigger] final(out)@[o]
                    == self.config.scores_of(
                    self@,
                    bits_of(sample.0@, self.config.train.n()),
                )[o],
    {
        let ghost x = bits_of(sample.0@, self.config.train.n());
        let ghost sc = self.config.scores_of(self@, x);
        let fired: Vec<bool> = vote_shared(&self.clauses, &self.config.train.geom, &sample.0);
        let mut o: usize = 0;
        while o < self.config.n_features
            invariant
                self.wf(),
                sc == self.config.scores_of(self@, x),
                fired@ == shared_votes(self@.clauses, self.config.train.geom.half, x),
                o <= self.config.n_features,
                out@.len() == self.config.n_features,
                forall|k: int| 0 <= k < o ==> #[trigger] out@[k] == sc[k],
            decreases self.config.n_features - o,
        {
            out[o] = clamp_sum(self.sum_fired(o, &fired), self.config.train.threshold);
            o = o + 1;
        }
    }

    /// The shared clauses that fire for a sample, in increasing order. They are the same for
    /// every output.
    pub fn fired_clauses(&self, sample: &EncodedSample, _output: usize) -> (r: Vec<usize>)
        requires
            self.wf(),
            sample.0@.len() == self.config.train.geom.words,
        ensures
            r@ == fired_indices(
                shared_votes(
                    self@.clauses,
                    self.config.train.geom.half,
                    bits_of(sample.0@, self.config.train.n()),
                ),
                self.config.n_clauses as nat,
            ),
    {
        let fired: Vec<bool> = vote_shared(&self.clauses, &self.config.train.geom, &sample.0);
        let mut r: Vec<usize> = Vec::new();
        let mut j: usize = 0;
        while j < fired.len()
            invariant
                j <= fired@.len(),
                r@ == fired_indices(fired@, j as nat),
            decreases fired@.len() - j,
        {
            if fired[j] {
                r.push(j);
            }
            j = j + 1;
        }
        r
    }

    /// The reconstructions of all samples of a batch, as values.
    pub open spec fn reconstructions(&self, batch: &EncodedBatch) -> Seq<Seq<u8>> {
        Seq::new(
            batch.n as nat,
            |i: int| self.config.reconstruct_of(self@, self.config.row_bits(batch, i)),
        )
    }

    /// How many features of a batch are reconstructed correctly, and how many there are.
    pub fn reconstruction_accuracy(&self, batch: &EncodedBatch) -> (r: (usize, usize))
        requires
            self.wf(),
            self.config.fits(batch),
            batch.n * self.config.n_features <= usize::MAX,
        ensures
            r.0 == right_total(
                self.reconstructions(batch),
                self.config.batch_bits(batch),
                self.config.n_features as nat,
                batch.n as nat,
            ),
            r.1 == batch.n * self.config.n_features,
    {
        let ghost rs = self.reconstructions(batch);
        let ghost xs = self.config.batch_bits(batch);
        let nf: usize = self.config.n_features;
        let mut correct: usize = 0;
        let mut i: usize = 0;
        proof {
            assert(0 * nf == 0) by (nonlinear_arith);
        }
        while i < batch.n
            invariant
                self.wf(),
                self.config.fits(batch),
                nf == self.config.n_features,
                batch.n * nf <= usize::MAX,
                rs == self.reconstructions(batch),
                xs == self.config.batch_bits(batch),
                i <= batch.n,
                correct <= i * nf,
                correct == right_total(rs, xs, nf as nat, i as nat),
            decreases batch.n - i,
        {
            let lit: &[u64] = batch.row(i);
            let recon: Vec<u8> = self.reconstruct_lit(lit);
            let k: usize = count_right(&recon, lit, nf);
            proof {
                let total = batch.n as int;
                assert((i + 1) * nf == i * nf + nf) by (nonlinear_arith);
                assert((i + 1) * nf <= total * nf) by (nonlinear_arith)
                    requires
                        i + 1 <= total,
                        nf >= 0,
                ;
            }
            correct = correct + k;
            i = i + 1;
        }
        (correct, batch.n * nf)
    }

    /// How many counters are at the absorbing include state, and how many there are.
    pub fn absorbed_include_fraction(&self) -> (r: (usize, usize))
        requires
            self.wf(),
        ensures
            r.0 == shared_count_at(
                self@.clauses,
                self.config.train.geom.max_state,
                self.config.n_clauses as nat,
            ),
            r.1 == self.config.n_clauses * self.config.train.geom.n_literals,
    {
        (
            count_shared(
                &self.clauses,
                &self.config.train.geom,
                self.config.train.geom.max_state,
            ),
            self.config.n_clauses * self.config.train.geom.n_literals,
        )
    }

    /// How many counters are at the absorbing exclude state, and how many there are.
    pub fn absorbed_exclude_fraction(&self) -> (r: (usize, usize))
        requires
            self.wf(),
        ensures
            r.0 == shared_count_at(self@.clauses, 0, self.config.n_clauses as nat),
            r.1 == self.config.n_clauses * self.config.train.geom.n_literals,
    {
        (
            count_shared(&self.clauses, &self.config.train.geom, 0),
            self.config.n_clauses * self.config.train.geom.n_literals,
        )
    }

    /// The included literals of a clause, as pairs of a feature and whether it is negated.
    pub fn clause_rule(&self, clause: usize) -> (r: Vec<(usize, bool)>)
        requires
            self.wf(),
            clause < self.config.n_clauses,
        ensures
            r@ == rule_of(
                self@.clauses.autos[clause as int].ta,
                self.config.train.geom.half,
                self.config.n_features as int,
                self.config.train.n(),
            ),
    {
        self.clauses[clause].auto.rule(&self.config.train.geom, self.config.n_features)
    }
}

/// A feature is reconstructed as 1 exactly where the score of its output is positive.
pub proof fn lemma_coalesced_scores_decide(
    cfg: &CoalescedAutoEncoderConfig,
    m: CoalescedModel,
    x: Seq<bool>,
    o: int,
)
    requires
        cfg.train.threshold >= 1,
        0 <= o < m.weights.len(),
    ensures
        cfg.reconstruct_of(m, x)[o] == decided(cfg.scores_of(m, x)[o]),
{
}

} // verus!
