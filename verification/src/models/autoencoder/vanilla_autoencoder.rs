//! The Tsetlin Machine autoencoder: every feature is an output with clauses of its own,
//! which predict it from the other features.
use crate::bits::{bit_at, bits_of, byte_of, clear_bit, expand_bits_to_bytes, expands, get_bit};
use crate::clause_bank::automata::{half_of, rule_of};
use crate::clause_bank::feedback::{
    clamp_sum, class_score, class_update_of, fired_indices, fired_predict,
    lemma_update_keeps_inactive, train_sum, vote_sum, ClassBank, ClassModel, Inputs, Rules,
};
use crate::dyadic::{chance_of, plain_bound, plain_gate, Chance, Dyadic};
use crate::encoder::{EncodedBatch, EncodedSample};
use crate::models::classification::vanilla_classifier::{
    class_models, count_states, initial_machine, lemma_clause_counts, machine_count_at,
    MachineModel,
};
use crate::models::config::{
    active_digits, certain_digits, fresh_classes, indicator_gate, LITERAL_XOR, TrainConfig,
};
use crate::rng::{rng_skip, Rng};
use crate::sampling::{epoch_order, epoch_order_of, shuffle_draws};
use vstd::prelude::*;

verus! {

/// The configuration of an autoencoder.
#[derive(Clone, Debug)]
pub struct AutoEncoderConfig {
    pub train: TrainConfig,
    pub n_features: usize,
    pub clauses_per_output: usize,
}

/// A Tsetlin Machine autoencoder.
#[derive(Clone, Debug)]
pub struct TMAutoEncoder {
    pub config: AutoEncoderConfig,
    /// The clauses of each output.
    pub outputs: Vec<ClassBank>,
    pub rng: Rng,
    pub literal_rng: Rng,
}

impl View for TMAutoEncoder {
    type V = MachineModel;

    open spec fn view(&self) -> MachineModel {
        MachineModel {
            classes: class_models(self.outputs@),
            rng: self.rng@,
            literal_rng: self.literal_rng@,
        }
    }
}

/// The active literals without feature `o` and its negation.
pub open spec fn masked(act: Seq<bool>, o: int, n_features: int) -> Seq<bool> {
    act.update(o, false).update(o + n_features, false)
}

/// The reconstruction of a feature from a vote sum.
pub open spec fn decided(sum: int) -> u8 {
    if sum > 0 {
        1
    } else {
        0
    }
}

impl AutoEncoderConfig {
    pub open spec fn wf(&self) -> bool {
        &&& self.train.wf()
        &&& self.train.rules.wmin == 1
        &&& self.n_features >= 1
        &&& self.clauses_per_output >= 2
        &&& self.train.geom.n_literals == 2 * self.n_features
        &&& self.n_features * self.clauses_per_output * self.train.geom.n_literals <= usize::MAX
    }

    /// The bound on a drawn fraction for feedback to an output whose vote sum is `v`.
    pub open spec fn gate_of(&self, v: int, target: bool) -> u64 {
        let t = self.train.threshold as int;
        plain_bound(
            if target {
                t - v
            } else {
                t + v
            },
            2 * t,
        ) as u64
    }

    /// Output `o` after training on one sample, in which the feature itself is hidden.
    pub open spec fn updated(&self, m: ClassModel, o: int, x: Seq<bool>, act: Seq<bool>) -> ClassModel {
        let seen = masked(act, o, self.n_features as int);
        let v = train_sum(
            m.clauses,
            self.train.geom.half,
            x,
            seen,
            self.train.threshold as int,
        );
        class_update_of(
            m,
            x[o],
            self.gate_of(v, x[o]),
            self.train.rules,
            self.train.dig_inv@,
            self.train.dig_keep@,
            x,
            seen,
            self.train.geom.half,
            self.train.geom.max_state,
        )
    }

    /// The autoencoder after training on one sample.
    pub open spec fn fit_one_of(&self, m: MachineModel, x: Seq<bool>) -> MachineModel {
        let act = self.train.active_of(m.literal_rng);
        MachineModel {
            classes: Seq::new(m.classes.len(), |o: int| self.updated(m.classes[o], o, x, act)),
            literal_rng: self.train.after_active(m.literal_rng),
            ..m
        }
    }

    /// The autoencoder after training on the first `k` samples of `order`.
    pub open spec fn fit_order_of(
        &self,
        m: MachineModel,
        xs: Seq<Seq<bool>>,
        order: Seq<usize>,
        k: nat,
    ) -> MachineModel
        decreases k,
    {
        if k == 0 {
            m
        } else {
            self.fit_one_of(
                self.fit_order_of(m, xs, order, (k - 1) as nat),
                xs[order[k - 1] as int],
            )
        }
    }

    /// The autoencoder after one epoch: every sample once, in a random order.
    pub open spec fn fit_epoch_of(&self, m: MachineModel, xs: Seq<Seq<bool>>) -> MachineModel {
        let n = xs.len();
        self.fit_order_of(
            MachineModel { rng: rng_skip(m.rng, shuffle_draws(n)), ..m },
            xs,
            epoch_order_of(m.rng, n),
            n,
        )
    }

    /// The reconstruction of a sample: a feature is 1 where the vote sum of its output is
    /// positive.
    pub open spec fn reconstruct_of(&self, m: MachineModel, x: Seq<bool>) -> Seq<u8> {
        Seq::new(
            m.classes.len(),
            |o: int| decided(vote_sum(m.classes[o].clauses, self.train.geom.half, x)),
        )
    }

    /// The scores of all outputs: their vote sums, clamped to the threshold.
    pub open spec fn scores_of(&self, m: MachineModel, x: Seq<bool>) -> Seq<int> {
        Seq::new(
            m.classes.len(),
            |o: int|
                class_score(
                    m.classes[o].clauses,
                    self.train.geom.half,
                    x,
                    self.train.threshold as int,
                ),
        )
    }

    /// A batch fits the autoencoder.
    pub open spec fn fits(&self, batch: &EncodedBatch) -> bool {
        batch.wf() && batch.words == self.train.geom.words
    }

    /// The literals of sample `i` of a batch.
    pub open spec fn row_bits(&self, batch: &EncodedBatch, i: int) -> Seq<bool> {
        bits_of(batch.sample(i), self.train.n())
    }

    /// The literals of all samples of a batch.
    pub open spec fn batch_bits(&self, batch: &EncodedBatch) -> Seq<Seq<bool>> {
        Seq::new(batch.n as nat, |i: int| self.row_bits(batch, i))
    }
}

/// How many of the first `n` features a reconstruction gets right.
pub open spec fn right_features(recon: Seq<u8>, x: Seq<bool>, n: nat) -> nat
    decreases n,
{
    if n == 0 {
        0
    } else {
        right_features(recon, x, (n - 1) as nat) + if (recon[n - 1] == 1) == x[n - 1] {
            1nat
        } else {
            0
        }
    }
}

/// How many features of the first `n` samples their reconstructions get right.
pub open spec fn right_total(recons: Seq<Seq<u8>>, xs: Seq<Seq<bool>>, n_features: nat, n: nat) -> nat
    decreases n,
{
    if n == 0 {
        0
    } else {
        right_total(recons, xs, n_features, (n - 1) as nat) + right_features(
            recons[n - 1],
            xs[n - 1],
            n_features,
        )
    }
}

/// How many features of one sample a reconstruction gets right.
pub fn count_right(recon: &Vec<u8>, lit: &[u64], n_features: usize) -> (r: usize)
    requires
        recon@.len() == n_features,
        2 * n_features <= 64 * lit@.len(),
        forall|o: int| 0 <= o < n_features ==> #[trigger] recon@[o] <= 1,
    ensures
        r == right_features(recon@, bits_of(lit@, (2 * n_features) as nat), n_features as nat),
        r <= n_features,
{
    let ghost x = bits_of(lit@, (2 * n_features) as nat);
    let mut r: usize = 0;
    let mut o: usize = 0;
    while o < n_features
        invariant
            recon@.len() == n_features,
            2 * n_features <= 64 * lit@.len(),
            x == bits_of(lit@, (2 * n_features) as nat),
            o <= n_features,
            r <= o,
            r == right_features(recon@, x, o as nat),
        decreases n_features - o,
    {
        if (recon[o] == 1) == get_bit(lit, o) {
            r = r + 1;
        }
        o = o + 1;
    }
    r
}

impl TMAutoEncoder {
    pub open spec fn wf(&self) -> bool {
        &&& self.config.wf()
        &&& self.outputs@.len() == self.config.n_features
        &&& forall|o: int|
            0 <= o < self.outputs@.len() ==> (#[trigger] self.outputs@[o]).wf(
                &self.config.train.geom,
                1,
                self.config.train.threshold,
            )
        &&& forall|o: int|
            0 <= o < self.outputs@.len() ==> (#[trigger] self.outputs@[o]).clauses@.len()
                == self.config.clauses_per_output
    }

    /// An autoencoder with 8-bit counters, boosted rewards and seed 42.
    pub fn new(n_features: usize, clauses_per_output: usize, threshold: i32, s: Dyadic) -> (r: Self)
        requires
            n_features >= 1,
            clauses_per_output >= 2,
            threshold >= 1,
            s.wf(),
            s.above_one(),
            2 * n_features + 64 <= usize::MAX,
            n_features * clauses_per_output * (2 * n_features) <= usize::MAX,
        ensures
            r.wf(),
            r.config.n_features == n_features,
            r.config.clauses_per_output == clauses_per_output,
            r.config.train.threshold == threshold,
            r.config.train.s == s,
            r.config.train.geom.half == 128,
            r.config.train.rules == (Rules {
                boost: true,
                max_included: usize::MAX,
                wmin: 1,
                wmax: threshold,
                type_iii: false,
                d_gate: 0,
                drop: Chance { floor: 0, exact: true },
            }),
            r.config.train.literal_drop == (Chance { floor: 0, exact: true }),
            r.config.train.dig_lit_active@ == certain_digits(),
            r@ == initial_machine(
                42,
                n_features as nat,
                clauses_per_output as nat,
                (2 * n_features) as nat,
                128,
            ),
    {
        Self::with_config(n_features, clauses_per_output, threshold, s, 8, true, 42)
    }

    /// An autoencoder with all settings given.
    pub fn with_config(
        n_features: usize,
        clauses_per_output: usize,
        threshold: i32,
        s: Dyadic,
        state_bits: u8,
        boost_true_positive: bool,
        seed: u64,
    ) -> (r: Self)
        requires
            n_features >= 1,
            clauses_per_output >= 2,
            threshold >= 1,
            s.wf(),
            s.above_one(),
            2 <= state_bits <= 8,
            2 * n_features + 64 <= usize::MAX,
            n_features * clauses_per_output * (2 * n_features) <= usize::MAX,
        ensures
            r.wf(),
            r.config.n_features == n_features,
            r.config.clauses_per_output == clauses_per_output,
            r.config.train.threshold == threshold,
            r.config.train.s == s,
            r.config.train.geom.half == half_of(state_bits),
            r.config.train.rules == (Rules {
                boost: boost_true_positive,
                max_included: usize::MAX,
                wmin: 1,
                wmax: threshold,
                type_iii: false,
                d_gate: 0,
                drop: Chance { floor: 0, exact: true },
            }),
            r.config.train.literal_drop == (Chance { floor: 0, exact: true }),
            r.config.train.dig_lit_active@ == certain_digits(),
            r@ == initial_machine(
                seed,
                n_features as nat,
                clauses_per_output as nat,
                (2 * n_features) as nat,
                half_of(state_bits),
            ),
    {
        let train: TrainConfig = TrainConfig::new(
            2 * n_features,
            threshold,
            s,
            state_bits,
            boost_true_positive,
            1,
        );
        let mut rng: Rng = Rng::new(seed);
        proof {
            lemma_clause_counts(n_features as int, clauses_per_output as int, 2 * n_features);
        }
        let outputs: Vec<ClassBank> = fresh_classes(
            &train.geom,
            &mut rng,
            seed,
            n_features,
            clauses_per_output,
        );
        let r: TMAutoEncoder = TMAutoEncoder {
            config: AutoEncoderConfig { train, n_features, clauses_per_output },
            outputs,
            rng,
            literal_rng: Rng::new(seed ^ LITERAL_XOR),
        };
        proof {
            let want = initial_machine(
                seed,
                n_features as nat,
                clauses_per_output as nat,
                (2 * n_features) as nat,
                half_of(state_bits),
            );
            assert(r@.classes =~= want.classes);
        }
        r
    }

    /// Everything but the configuration is the same.
    pub open spec fn same_state(&self, other: &Self) -> bool {
        self.outputs == other.outputs && self.rng == other.rng && self.literal_rng
            == other.literal_rng
    }

    /// Limits how many literals each clause may include.
    pub fn max_included_literals(self, max: usize) -> (r: Self)
        requires
            self.wf(),
        ensures
            r.wf(),
            r.same_state(&self),
            r.config == (AutoEncoderConfig {
                train: TrainConfig {
                    rules: Rules { max_included: max, ..self.config.train.rules },
                    ..self.config.train
                },
                ..self.config
            }),
    {
        let mut r: TMAutoEncoder = self;
        r.config.train.set_max_included(max);
        r
    }

    /// Sets the probability, in [0, 1), with which a clause is dropped from an update.
    pub fn clause_drop_p(self, p: Dyadic) -> (r: Self)
        requires
            self.wf(),
            p.wf(),
            p.below_one(),
        ensures
            r.wf(),
            r.same_state(&self),
            r.config == (AutoEncoderConfig {
                train: TrainConfig {
                    rules: Rules {
                        drop: chance_of(p.mant as int, p.exp as int),
                        ..self.config.train.rules
                    },
                    ..self.config.train
                },
                ..self.config
            }),
    {
        let mut r: TMAutoEncoder = self;
        r.config.train.set_clause_drop(p);
        r
    }

    /// Sets the probability, in [0, 1), with which a literal is left out of a training step.
    pub fn literal_drop_p(self, p: Dyadic) -> (r: Self)
        requires
            self.wf(),
            p.wf(),
            p.below_one(),
        ensures
            r.wf(),
            r.same_state(&self),
            r.config.train.dig_lit_active@ == active_digits(p),
            r.config == (AutoEncoderConfig {
                train: TrainConfig {
                    literal_drop: chance_of(p.mant as int, p.exp as int),
                    dig_lit_active: r.config.train.dig_lit_active,
                    ..self.config.train
                },
                ..self.config
            }),
    {
        let mut r: TMAutoEncoder = self;
        r.config.train.set_literal_drop(p);
        r
    }

    /// Turns Type III feedback on, with strength `d > 1`.
    pub fn type_iii_feedback(self, d: Dyadic) -> (r: Self)
        requires
            self.wf(),
            d.wf(),
            d.above_one(),
        ensures
            r.wf(),
            r.same_state(&self),
            r.config == (AutoEncoderConfig {
                train: TrainConfig {
                    rules: Rules {
                        type_iii: true,
                        d_gate: indicator_gate(d),
                        ..self.config.train.rules
                    },
                    ..self.config.train
                },
                ..self.config
            }),
    {
        let mut r: TMAutoEncoder = self;
        r.config.train.set_type_iii(d);
        r
    }

    /// The number of features.
    pub fn n_features(&self) -> (r: usize)
        ensures
            r == self.config.n_features,
    {
        self.config.n_features
    }

    /// The number of clauses of each output.
    pub fn clauses_per_output(&self) -> (r: usize)
        ensures
            r == self.config.clauses_per_output,
    {
        self.config.clauses_per_output
    }

    /// The number of words of a packed sample.
    pub fn words_per_sample(&self) -> (r: usize)
        ensures
            r == self.config.train.geom.words,
    {
        self.config.train.geom.words
    }

    /// The specificity.
    pub fn s(&self) -> (r: Dyadic)
        ensures
            r == self.config.train.s,
    {
        self.config.train.s
    }

    /// The weight of a clause.
    pub fn clause_weight(&self, output: usize, clause: usize) -> (r: i32)
        requires
            self.wf(),
            output < self.config.n_features,
            clause < self.config.clauses_per_output,
        ensures
            r == self@.classes[output as int].clauses[clause as int].weight,
            1 <= r <= self.config.train.threshold,
    {
        proof {
            let c = self.outputs@[output as int];
            assert(c.clauses@[clause as int].wf(&self.config.train.geom, 1, self.config.train.threshold));
        }
        self.outputs[output].clauses[clause].weight
    }

    /// Whether a clause speaks for its output.
    pub fn clause_is_positive(&self, clause: usize) -> (r: bool)
        ensures
            r == (clause % 2 == 0),
    {
        clause % 2 == 0
    }

    /// The included literals of a clause, as pairs of a feature and whether it is negated.
    pub fn clause_rule(&self, output: usize, clause: usize) -> (r: Vec<(usize, bool)>)
        requires
            self.wf(),
            output < self.config.n_features,
            clause < self.config.clauses_per_output,
        ensures
            r@ == rule_of(
                self@.classes[output as int].clauses[clause as int].auto.ta,
                self.config.train.geom.half,
                self.config.n_features as int,
                self.config.train.n(),
            ),
    {
        proof {
            let c = self.outputs@[output as int];
            assert(c.clauses@[clause as int].wf(&self.config.train.geom, 1, self.config.train.threshold));
        }
        self.outputs[output].clauses[clause].auto.rule(
            &self.config.train.geom,
            self.config.n_features,
        )
    }

    /// Applies feedback on one sample to output `o`. The feature is hidden in `inp`.
    fn update_output(&mut self, o: usize, target: bool, inp: &Inputs)
        requires
            old(self).wf(),
            o < old(self).config.n_features,
            inp.wf(&old(self).config.train.geom),
        ensures
            final(self).wf(),
            final(self).config == old(self).config,
            final(self).rng == old(self).rng,
            final(self).literal_rng == old(self).literal_rng,
            final(self)@.classes == old(self)@.classes.update(
                o as int,
                class_update_of(
                    old(self)@.classes[o as int],
                    target,
                    old(self).config.gate_of(
                        train_sum(
                            old(self)@.classes[o as int].clauses,
                            old(self).config.train.geom.half,
                            inp.x(&old(self).config.train.geom),
                            inp.act(&old(self).config.train.geom),
                            old(self).config.train.threshold as int,
                        ),
                        target,
                    ),
                    old(self).config.train.rules,
                    old(self).config.train.dig_inv@,
                    old(self).config.train.dig_keep@,
                    inp.x(&old(self).config.train.geom),
                    inp.act(&old(self).config.train.geom),
                    old(self).config.train.geom.half,
                    old(self).config.train.geom.max_state,
                ),
            ),
    {
        let ghost before = *self;
        let v: i32 = self.outputs[o].class_sum_train(
            &self.config.train.geom,
            inp,
            self.config.train.threshold,
        );
        let t: i64 = self.config.train.threshold as i64;
        let u: i64 = if target {
            t - v as i64
        } else {
            t + v as i64
        };
        let gate: u64 = plain_gate(u as u64, (2 * t) as u64);
        let train: &TrainConfig = &self.config.train;
        let bank: &mut ClassBank = &mut self.outputs[o];
        bank.update(&train.geom, &train.rules, &train.dig_inv, &train.dig_keep, target, gate, inp);
        proof {
            assert(self@.classes =~= before@.classes.update(o as int, self.outputs@[o as int]@));
            assert(self.outputs@[o as int]@.clauses.len() == before.outputs@[o as int]@.clauses.len());
        }
    }

    /// Trains on the packed literals of one sample.
    pub fn fit_one_lit(&mut self, lit: &[u64])
        requires
            old(self).wf(),
            lit@.len() == old(self).config.train.geom.words,
        ensures
            final(self).wf(),
            final(self).config == old(self).config,
            final(self)@ == old(self).config.fit_one_of(
                old(self)@,
                bits_of(lit@, old(self).config.train.n()),
            ),
    {
        let ghost before = *self;
        let ghost n = self.config.train.n();
        let ghost x = bits_of(lit@, n);
        let ghost geom = self.config.train.geom;
        let n_literals: usize = self.config.train.geom.n_literals;
        let n_features: usize = self.config.n_features;
        let lit_b: Vec<u8> = expand_bits_to_bytes(lit, n_literals);
        let mut active: Vec<u64> = self.config.train.draw_active(&mut self.literal_rng);
        let mut active_b: Vec<u8> = expand_bits_to_bytes(&active, n_literals);
        let ghost active0 = active@;
        let ghost active_b0 = active_b@;
        let ghost act = bits_of(active0, n);
        let ghost want = before.config.fit_one_of(before@, x);
        proof {
            assert(self@.classes =~= before@.classes);
        }
        let mut o: usize = 0;
        while o < n_features
            invariant
                before.wf(),
                self.wf(),
                self.config == before.config,
                self.rng@ == before@.rng,
                self.literal_rng@ == want.literal_rng,
                n_features == before.config.n_features,
                n_literals == 2 * n_features,
                n == before.config.train.n(),
                n == n_literals,
                geom == before.config.train.geom,
                lit@.len() == geom.words,
                x == bits_of(lit@, n),
                expands(lit_b@, lit@, n as int),
                active@ == active0,
                active_b@ == active_b0,
                active0.len() == geom.words,
                expands(active_b0, active0, n as int),
                act == bits_of(active0, n),
                act == before.config.train.active_of(before@.literal_rng),
                want == before.config.fit_one_of(before@, x),
                o <= n_features,
                forall|k: int| 0 <= k < o ==> #[trigger] self@.classes[k] == want.classes[k],
                forall|k: int|
                    o <= k < n_features ==> #[trigger] self@.classes[k] == before@.classes[k],
            decreases n_features - o,
        {
            let target: bool = get_bit(lit, o);
            let neg: usize = o + n_features;
            let word: usize = o / 64;
            let neg_word: usize = neg / 64;
            let saved: u64 = active[word];
            let saved_neg: u64 = active[neg_word];
            let saved_b: u8 = active_b[o];
            let saved_neg_b: u8 = active_b[neg];
            clear_bit(&mut active, o);
            clear_bit(&mut active, neg);
            active_b.set(o, 0);
            active_b.set(neg, 0);
            proof {
                assert(bits_of(active@, n) =~= masked(act, o as int, n_features as int));
                assert forall|l: int| 0 <= l < n implies #[trigger] active_b@[l] == byte_of(
                    bit_at(active@, l),
                ) by {
                    assert(active_b0[l] == byte_of(bit_at(active0, l)));
                }
            }
            let ghost prior = self@.classes;
            let inp: Inputs = Inputs {
                lit,
                lit_b: lit_b.as_slice(),
                active: active.as_slice(),
                active_b: active_b.as_slice(),
            };
            self.update_output(o, target, &inp);
            proof {
                assert(self@.classes[o as int] == want.classes[o as int]);
            }
            active.set(neg_word, saved_neg);
            active.set(word, saved);
            active_b.set(neg, saved_neg_b);
            active_b.set(o, saved_b);
            proof {
                assert(active@ =~= active0);
                assert(active_b@ =~= active_b0);
            }
            o = o + 1;
        }
        proof {
            assert(self@.classes =~= want.classes);
        }
    }

    /// Trains on one sample.
    pub fn fit_one(&mut self, sample: &EncodedSample)
        requires
            old(self).wf(),
            sample.0@.len() == old(self).config.train.geom.words,
        ensures
            final(self).wf(),
            final(self).config == old(self).config,
            final(self)@ == old(self).config.fit_one_of(
                old(self)@,
                bits_of(sample.0@, old(self).config.train.n()),
            ),
    {
        self.fit_one_lit(&sample.0)
    }

    /// Trains for one epoch: every sample once, in a random order.
    pub fn fit_epoch(&mut self, batch: &EncodedBatch)
        requires
            old(self).wf(),
            old(self).config.fits(batch),
        ensures
            final(self).wf(),
            final(self).config == old(self).config,
            final(self)@ == old(self).config.fit_epoch_of(
                old(self)@,
                old(self).config.batch_bits(batch),
            ),
    {
        let ghost before = *self;
        let order: Vec<usize> = epoch_order(&mut self.rng, batch.n);
        let ghost start = self@;
        let ghost xs = before.config.batch_bits(batch);
        proof {
            assert(start == (MachineModel {
                rng: rng_skip(before@.rng, shuffle_draws(batch.n as nat)),
                ..before@
            }));
        }
        let mut k: usize = 0;
        while k < order.len()
            invariant
                k <= order@.len(),
                order@.len() == batch.n,
                self.wf(),
                self.config == before.config,
                before.config.fits(batch),
                xs == before.config.batch_bits(batch),
                forall|i: int| 0 <= i < order@.len() ==> #[trigger] order@[i] < batch.n,
                self@ == before.config.fit_order_of(start, xs, order@, k as nat),
            decreases order@.len() - k,
        {
            let i: usize = order[k];
            self.fit_one_lit(batch.row(i));
            k = k + 1;
        }
    }

    /// The reconstruction of the packed literals of a sample.
    pub fn reconstruct_lit(&self, lit: &[u64]) -> (r: Vec<u8>)
        requires
            self.wf(),
            lit@.len() == self.config.train.geom.words,
        ensures
            r@ == self.config.reconstruct_of(self@, bits_of(lit@, self.config.train.n())),
    {
        let ghost want = self.config.reconstruct_of(self@, bits_of(lit@, self.config.train.n()));
        let mut r: Vec<u8> = Vec::with_capacity(self.config.n_features);
        let mut o: usize = 0;
        while o < self.config.n_features
            invariant
                self.wf(),
                lit@.len() == self.config.train.geom.words,
                want == self.config.reconstruct_of(self@, bits_of(lit@, self.config.train.n())),
                o <= self.config.n_features,
                r@.len() == o,
                forall|k: int| 0 <= k < o ==> #[trigger] r@[k] == want[k],
            decreases self.config.n_features - o,
        {
            let sum: i128 = self.outputs[o].vote(&self.config.train.geom, lit);
            r.push(if sum > 0 {
                1
            } else {
                0
            });
            o = o + 1;
        }
        r
    }

    /// The reconstruction of a sample.
    pub fn reconstruct(&self, sample: &EncodedSample) -> (r: Vec<u8>)
        requires
            self.wf(),
            sample.0@.len() == self.config.train.geom.words,
        ensures
            r@ == self.config.reconstruct_of(self@, bits_of(sample.0@, self.config.train.n())),
    {
        self.reconstruct_lit(&sample.0)
    }

    /// The reconstructions of all samples of a batch.
    pub fn reconstruct_batch(&self, batch: &EncodedBatch) -> (r: Vec<Vec<u8>>)
        requires
            self.wf(),
            self.config.fits(batch),
        ensures
            r@.len() == batch.n,
            forall|i: int|
                0 <= i < batch.n ==> (#[trigger] r@[i])@ == self.config.reconstruct_of(
                    self@,
                    self.config.row_bits(batch, i),
                ),
    {
        let mut r: Vec<Vec<u8>> = Vec::with_capacity(batch.n);
        let mut i: usize = 0;
        while i < batch.n
            invariant
                self.wf(),
                self.config.fits(batch),
                i <= batch.n,
                r@.len() == i,
                forall|k: int|
                    0 <= k < i ==> (#[trigger] r@[k])@ == self.config.reconstruct_of(
                        self@,
                        self.config.row_bits(batch, k),
                    ),
            decreases batch.n - i,
        {
            r.push(self.reconstruct_lit(batch.row(i)));
            i = i + 1;
        }
        r
    }

    /// Writes the score of each output for a sample: its vote sum, clamped to the threshold.
    pub fn reconstruct_scores(&self, sample: &EncodedSample, out: &mut [i32])
        requires
            self.wf(),
            sample.0@.len() == self.config.train.geom.words,
            old(out)@.len() == self.config.n_features,
        ensures
            final(out)@.len() == self.config.n_features,
            forall|o: int|
                0 <= o < self.config.n_features ==> #[trigger] final(out)@[o]
                    == self.config.scores_of(
                    self@,
                    bits_of(sample.0@, self.config.train.n()),
                )[o],
    {
        let ghost sc = self.config.scores_of(self@, bits_of(sample.0@, self.config.train.n()));
        let mut o: usize = 0;
        while o < self.config.n_features
            invariant
                self.wf(),
                sample.0@.len() == self.config.train.geom.words,
                sc == self.config.scores_of(self@, bits_of(sample.0@, self.config.train.n())),
                o <= self.config.n_features,
                out@.len() == self.config.n_features,
                forall|k: int| 0 <= k < o ==> #[trigger] out@[k] == sc[k],
            decreases self.config.n_features - o,
        {
            out[o] = clamp_sum(
                self.outputs[o].vote(&self.config.train.geom, &sample.0),
                self.config.train.threshold,
            );
            o = o + 1;
        }
    }

    /// The clauses of `output` that fire for a sample, in increasing order.
    pub fn fired_clauses(&self, sample: &EncodedSample, output: usize) -> (r: Vec<usize>)
        requires
            self.wf(),
            sample.0@.len() == self.config.train.geom.words,
            output < self.config.n_features,
        ensures
            r@ == fired_indices(
                fired_predict(
                    self@.classes[output as int].clauses,
                    self.config.train.geom.half,
                    bits_of(sample.0@, self.config.train.n()),
                ),
                self.config.clauses_per_output as nat,
            ),
    {
        self.outputs[output].fired(&self.config.train.geom, &sample.0)
    }

    /// The reconstructions of all samples of a batch, as values.
    pub open spec fn reconstructions(&self, batch: &EncodedBatch) -> Seq<Seq<u8>> {
        Seq::new(
            batch.n as nat,
            |i: int| self.config.reconstruct_of(self@, self.config.row_bits(batch, i)),
        )
    }

    /// How many features of a batch are reconstructed correctly, and how many there are.
    pub fn reconstruction_accuracy(&self, batch: &EncodedBatch) -> (r: (usize, usize))
        requires
            self.wf(),
            self.config.fits(batch),
            batch.n * self.config.n_features <= usize::MAX,
        ensures
            r.0 == right_total(
                self.reconstructions(batch),
                self.config.batch_bits(batch),
                self.config.n_features as nat,
                batch.n as nat,
            ),
            r.1 == batch.n * self.config.n_features,
    {
        let ghost rs = self.reconstructions(batch);
        let ghost xs = self.config.batch_bits(batch);
        let nf: usize = self.config.n_features;
        let mut correct: usize = 0;
        let mut i: usize = 0;
        proof {
            assert(0 * nf == 0) by (nonlinear_arith);
        }
        while i < batch.n
            invariant
                self.wf(),
                self.config.fits(batch),
                nf == self.config.n_features,
                batch.n * nf <= usize::MAX,
                rs == self.reconstructions(batch),
                xs == self.config.batch_bits(batch),
                i <= batch.n,
                correct <= i * nf,
                correct == right_total(rs, xs, nf as nat, i as nat),
            decreases batch.n - i,
        {
            let lit: &[u64] = batch.row(i);
            let recon: Vec<u8> = self.reconstruct_lit(lit);
            let k: usize = count_right(&recon, lit, nf);
            proof {
                let total = batch.n as int;
                assert((i + 1) * nf == i * nf + nf) by (nonlinear_arith);
                assert((i + 1) * nf <= total * nf) by (nonlinear_arith)
                    requires
                        i + 1 <= total,
                        nf >= 0,
                ;
            }
            correct = correct + k;
            i = i + 1;
        }
        (correct, batch.n * nf)
    }

    /// The number of counters, over all clauses.
    fn n_counters(&self) -> (r: usize)
        requires
            self.wf(),
        ensures
            r == self.config.n_features * self.config.clauses_per_output
                * self.config.train.geom.n_literals,
    {
        proof {
            lemma_clause_counts(
                self.config.n_features as int,
                self.config.clauses_per_output as int,
                self.config.train.geom.n_literals as int,
            );
        }
        self.config.n_features * self.config.clauses_per_output * self.config.train.geom.n_literals
    }

    /// How many counters are at the absorbing include state, and how many there are.
    pub fn absorbed_include_fraction(&self) -> (r: (usize, usize))
        requires
            self.wf(),
        ensures
            r.0 == machine_count_at(
                self@.classes,
                self.config.train.geom.max_state,
                self.config.n_features as nat,
            ),
            r.1 == self.config.n_features * self.config.clauses_per_output
                * self.config.train.geom.n_literals,
    {
        (
            count_states(
                &self.outputs,
                &self.config.train.geom,
                self.config.clauses_per_output,
                self.config.train.geom.max_state,
            ),
            self.n_counters(),
        )
    }

    /// How many counters are at the absorbing exclude state, and how many there are.
    pub fn absorbed_exclude_fraction(&self) -> (r: (usize, usize))
        requires
            self.wf(),
        ensures
            r.0 == machine_count_at(self@.classes, 0, self.config.n_features as nat),
            r.1 == self.config.n_features * self.config.clauses_per_output
                * self.config.train.geom.n_literals,
    {
        (
            count_states(&self.outputs, &self.config.train.geom, self.config.clauses_per_output, 0),
            self.n_counters(),
        )
    }
}

/// Training an output on a sample does not change its counters of the feature itself and of its
/// negation, so an output cannot learn to copy its own feature.
pub proof fn lemma_feature_hidden(cfg: &AutoEncoderConfig, m: ClassModel, o: int, x: Seq<bool>, act: Seq<bool>, j: int)
    requires
        0 <= o < cfg.n_features,
        act.len() == 2 * cfg.n_features,
        0 <= j < m.clauses.len(),
        m.clauses[j].auto.ta.len() == 2 * cfg.n_features,
        forall|l: int|
            0 <= l < m.clauses[j].auto.ta.len() ==> #[trigger] m.clauses[j].auto.ta[l]
                <= cfg.train.geom.max_state,
    ensures
        ({
            let after = cfg.updated(m, o, x, act).clauses[j].auto.ta;
            &&& after[o] == m.clauses[j].auto.ta[o]
            &&& after[o + cfg.n_features] == m.clauses[j].auto.ta[o + cfg.n_features]
        }),
{
    let seen = masked(act, o, cfg.n_features as int);
    let v = train_sum(m.clauses, cfg.train.geom.half, x, seen, cfg.train.threshold as int);
    let t = cfg.train;
    lemma_update_keeps_inactive(
        m,
        x[o],
        cfg.gate_of(v, x[o]),
        t.rules,
        t.dig_inv@,
        t.dig_keep@,
        x,
        seen,
        t.geom.half,
        t.geom.max_state,
        j,
        o,
    );
    lemma_update_keeps_inactive(
        m,
        x[o],
        cfg.gate_of(v, x[o]),
        t.rules,
        t.dig_inv@,
        t.dig_keep@,
        x,
        seen,
        t.geom.half,
        t.geom.max_state,
        j,
        o + cfg.n_features,
    );
}

/// A feature is reconstructed as 1 exactly where the score of its output is positive.
pub proof fn lemma_scores_decide(cfg: &AutoEncoderConfig, m: MachineModel, x: Seq<bool>, o: int)
    requires
        cfg.train.threshold >= 1,
        0 <= o < m.classes.len(),
    ensures
        cfg.reconstruct_of(m, x)[o] == decided(cfg.scores_of(m, x)[o]),
{
}

} // verus!
