//! The weighted multiclass Tsetlin Machine: every class has clauses of its own.
use crate::bits::{bits_of, expand_bits_to_bytes, literals_of};
use crate::clause_bank::automata::{half_of, rule_of, Geometry};
use crate::clause_bank::feedback::{
    clamp_sum, class_count_at, class_score, class_update_of, clause_models, fired_indices,
    fired_predict, grow_dense_state, grown_clauses, lemma_grow_keeps_vote_sum, train_sum, ClassBank,
    ClassModel, Inputs, Rules,
};
use crate::dyadic::{chance_of, weighted_bound, weighted_gate, Chance, Dyadic};
use crate::encoder::{EncodedBatch, EncodedSample};
use crate::models::config::{
    active_digits, certain_digits, fresh_classes, indicator_gate, initial_class, literal_seed,
    LITERAL_XOR, TrainConfig,
};
use crate::models::ranking::{
    count_correct, first_max, is_first_max, lemma_first_max, lemma_max_exists,
};
use crate::rng::{rng_next, rng_skip, Rng};
use crate::sampling::{
    after_other, epoch_order, epoch_order_of, other_index, sample_other, shuffle_draws,
};
use vstd::prelude::*;

verus! {

/// The configuration of a machine.
#[derive(Clone, Debug)]
pub struct MachineConfig {
    pub train: TrainConfig,
    pub n_classes: usize,
    pub n_features: usize,
    pub clauses_per_class: usize,
    /// How strongly each class is fed back; 1 leaves the feedback as it is.
    pub class_weights: Vec<Dyadic>,
    /// Large epochs may be trained approximately on several threads.
    pub data_parallel: bool,
}

/// The learned state of a machine and its random streams, as values.
#[verifier::ext_equal]
pub struct MachineModel {
    pub classes: Seq<ClassModel>,
    pub rng: u64,
    pub literal_rng: u64,
}

/// The learned state of a machine and its random streams.
#[derive(Clone, Debug)]
pub struct MachineState {
    pub classes: Vec<ClassBank>,
    /// Shuffles samples and picks negative classes.
    pub rng: Rng,
    /// Decides which literals are active.
    pub literal_rng: Rng,
}

/// A weighted multiclass Tsetlin Machine.
#[derive(Clone, Debug)]
pub struct TsetlinMachine {
    pub config: MachineConfig,
    pub state: MachineState,
    /// The hint that large epochs can be trained faster was given.
    pub hint_shown: bool,
}

/// The values of the classes of a machine.
pub open spec fn class_models(cs: Seq<ClassBank>) -> Seq<ClassModel> {
    Seq::new(cs.len(), |c: int| cs[c]@)
}

impl MachineConfig {
    pub open spec fn wf(&self) -> bool {
        &&& self.train.wf()
        &&& self.train.rules.wmin == 1
        &&& self.n_classes >= 2
        &&& self.n_features >= 1
        &&& self.clauses_per_class >= 2
        &&& self.train.geom.n_literals == 2 * self.n_features
        &&& self.n_classes * self.clauses_per_class * self.train.geom.n_literals <= usize::MAX
        &&& self.class_weights@.len() == self.n_classes
        &&& forall|c: int|
            0 <= c < self.n_classes ==> (#[trigger] self.class_weights@[c]).wf()
                && self.class_weights@[c].mant > 0
    }

    /// The bound on a drawn fraction for feedback to class `c` whose vote sum is `v`: a
    /// target is fed back the more the lower its sum, another class the more the higher.
    pub open spec fn gate_of(&self, c: int, v: int, target: bool) -> u64 {
        let t = self.train.threshold as int;
        weighted_bound(
            if target {
                t - v
            } else {
                t + v
            },
            2 * t,
            self.class_weights@[c],
        ) as u64
    }

    /// The clamped vote sum of a class in training.
    pub open spec fn sum_of(&self, m: ClassModel, x: Seq<bool>, act: Seq<bool>) -> int {
        train_sum(m.clauses, self.train.geom.half, x, act, self.train.threshold as int)
    }

    /// Class `c` after feedback on one sample.
    pub open spec fn updated(&self, m: ClassModel, c: int, target: bool, x: Seq<bool>, act: Seq<bool>) -> ClassModel {
        class_update_of(
            m,
            target,
            self.gate_of(c, self.sum_of(m, x, act), target),
            self.train.rules,
            self.train.dig_inv@,
            self.train.dig_keep@,
            x,
            act,
            self.train.geom.half,
            self.train.geom.max_state,
        )
    }

    /// The machine after training on one sample: its class is updated as a target, and
    /// one other class, drawn at random, as a negative.
    pub open spec fn fit_one_of(&self, m: MachineModel, x: Seq<bool>, y: int) -> MachineModel {
        let neg = other_index(m.rng, self.n_classes as int, y);
        let act = self.train.active_of(m.literal_rng);
        MachineModel {
            classes: m.classes.update(y, self.updated(m.classes[y], y, true, x, act)).update(
                neg,
                self.updated(m.classes[neg], neg, false, x, act),
            ),
            rng: after_other(m.rng, self.n_classes as int, y),
            literal_rng: self.train.after_active(m.literal_rng),
        }
    }

    /// The machine after training on the first `k` samples of `order`.
    pub open spec fn fit_order_of(
        &self,
        m: MachineModel,
        xs: Seq<Seq<bool>>,
        ys: Seq<usize>,
        order: Seq<usize>,
        k: nat,
    ) -> MachineModel
        decreases k,
    {
        if k == 0 {
            m
        } else {
            let i = order[k - 1] as int;
            self.fit_one_of(self.fit_order_of(m, xs, ys, order, (k - 1) as nat), xs[i], ys[i] as int)
        }
    }

    /// The machine after one epoch: every sample once, in a random order.
    pub open spec fn fit_epoch_of(&self, m: MachineModel, xs: Seq<Seq<bool>>, ys: Seq<usize>) -> MachineModel {
        let n = xs.len();
        self.fit_order_of(
            MachineModel { rng: rng_skip(m.rng, shuffle_draws(n)), ..m },
            xs,
            ys,
            epoch_order_of(m.rng, n),
            n,
        )
    }

    /// The scores of all classes for a sample.
    pub open spec fn scores_of(&self, m: MachineModel, x: Seq<bool>) -> Seq<int> {
        Seq::new(
            m.classes.len(),
            |c: int|
                class_score(
                    m.classes[c].clauses,
                    self.train.geom.half,
                    x,
                    self.train.threshold as int,
                ),
        )
    }

    /// The class predicted for a sample: the first with the largest score.
    pub open spec fn predict_of(&self, m: MachineModel, x: Seq<bool>) -> int {
        first_max(self.scores_of(m, x))
    }

    /// A batch fits the machine.
    pub open spec fn fits(&self, batch: &EncodedBatch) -> bool {
        batch.wf() && batch.words == self.train.geom.words
    }

    /// The literals of sample `i` of a batch.
    pub open spec fn row_bits(&self, batch: &EncodedBatch, i: int) -> Seq<bool> {
        bits_of(batch.sample(i), self.train.n())
    }

    /// The literals of all samples of a batch.
    pub open spec fn batch_bits(&self, batch: &EncodedBatch) -> Seq<Seq<bool>> {
        Seq::new(batch.n as nat, |i: int| self.row_bits(batch, i))
    }
}

impl View for MachineState {
    type V = MachineModel;

    open spec fn view(&self) -> MachineModel {
        MachineModel {
            classes: class_models(self.classes@),
            rng: self.rng@,
            literal_rng: self.literal_rng@,
        }
    }
}

impl View for TsetlinMachine {
    type V = MachineModel;

    open spec fn view(&self) -> MachineModel {
        self.state@
    }
}

/// A new machine seeded with `seed`.
pub open spec fn initial_machine(
    seed: u64,
    n_classes: nat,
    per_class: nat,
    n: nat,
    half: u8,
) -> MachineModel {
    MachineModel {
        classes: Seq::new(
            n_classes,
            |c: int| initial_class(seed, c, per_class, (n_classes * per_class) as int, n, half),
        ),
        rng: rng_skip(rng_next(seed), n_classes * per_class * n),
        literal_rng: literal_seed(seed),
    }
}

impl TsetlinMachine {
    pub open spec fn wf(&self) -> bool {
        self.state.wf(&self.config)
    }

    /// A batch fits the machine.
    pub open spec fn fits(&self, batch: &EncodedBatch) -> bool {
        self.config.fits(batch)
    }

    /// A machine with 8-bit counters, boosted rewards and seed 42.
    pub fn new(
        n_classes: usize,
        n_features: usize,
        clauses_per_class: usize,
        threshold: i32,
        s: Dyadic,
    ) -> (r: Self)
        requires
            n_classes >= 2,
            n_features >= 1,
            clauses_per_class >= 2,
            threshold >= 1,
            s.wf(),
            s.above_one(),
            2 * n_features + 64 <= usize::MAX,
            n_classes * clauses_per_class * (2 * n_features) <= usize::MAX,
        ensures
            r.wf(),
            r.config.n_classes == n_classes,
            r.config.n_features == n_features,
            r.config.clauses_per_class == clauses_per_class,
            r.config.train.threshold == threshold,
            r.config.train.s == s,
            r.config.train.geom.half == 128,
            r.config.train.rules == (Rules {
                boost: true,
                max_included: usize::MAX,
                wmin: 1,
                wmax: threshold,
                type_iii: false,
                d_gate: 0,
                drop: Chance { floor: 0, exact: true },
            }),
            r.config.train.literal_drop == (Chance { floor: 0, exact: true }),
            r.config.train.dig_lit_active@ == certain_digits(),
            forall|c: int| 0 <= c < n_classes ==> is_one(#[trigger] r.config.class_weights@[c]),
            !r.config.data_parallel,
            !r.hint_shown,
            r@ == initial_machine(
                42,
                n_classes as nat,
                clauses_per_class as nat,
                (2 * n_features) as nat,
                128,
            ),
    {
        Self::with_config(n_classes, n_features, clauses_per_class, threshold, s, 8, true, 42)
    }

    /// A machine with all settings given.
    pub fn with_config(
        n_classes: usize,
        n_features: usize,
        clauses_per_class: usize,
        threshold: i32,
        s: Dyadic,
        state_bits: u8,
        boost_true_positive: bool,
        seed: u64,
    ) -> (r: Self)
        requires
            n_classes >= 2,
            n_features >= 1,
            clauses_per_class >= 2,
            threshold >= 1,
            s.wf(),
            s.above_one(),
            2 <= state_bits <= 8,
            2 * n_features + 64 <= usize::MAX,
            n_classes * clauses_per_class * (2 * n_features) <= usize::MAX,
        ensures
            r.wf(),
            r.config.n_classes == n_classes,
            r.config.n_features == n_features,
            r.config.clauses_per_class == clauses_per_class,
            r.config.train.threshold == threshold,
            r.config.train.s == s,
            r.config.train.geom.half == half_of(state_bits),
            r.config.train.rules == (Rules {
                boost: boost_true_positive,
                max_included: usize::MAX,
                wmin: 1,
                wmax: threshold,
                type_iii: false,
                d_gate: 0,
                drop: Chance { floor: 0, exact: true },
            }),
            r.config.train.literal_drop == (Chance { floor: 0, exact: true }),
            r.config.train.dig_lit_active@ == certain_digits(),
            forall|c: int| 0 <= c < n_classes ==> is_one(#[trigger] r.config.class_weights@[c]),
            !r.config.data_parallel,
            !r.hint_shown,
            r@ == initial_machine(
                seed,
                n_classes as nat,
                clauses_per_class as nat,
                (2 * n_features) as nat,
                half_of(state_bits),
            ),
    {
        let train: TrainConfig = TrainConfig::new(
            2 * n_features,
            threshold,
            s,
            state_bits,
            boost_true_positive,
            1,
        );
        let mut rng: Rng = Rng::new(seed);
        proof {
            lemma_clause_counts(n_classes as int, clauses_per_class as int, 2 * n_features);
        }
        let classes: Vec<ClassBank> = fresh_classes(
            &train.geom,
            &mut rng,
            seed,
            n_classes,
            clauses_per_class,
        );
        let class_weights: Vec<Dyadic> = vec![Dyadic::one(); n_classes];
        let r: TsetlinMachine = TsetlinMachine {
            config: MachineConfig {
                train,
                n_classes,
                n_features,
                clauses_per_class,
                class_weights,
                data_parallel: false,
            },
            state: MachineState { classes, rng, literal_rng: Rng::new(seed ^ LITERAL_XOR) },
            hint_shown: false,
        };
        proof {
            let want = initial_machine(
                seed,
                n_classes as nat,
                clauses_per_class as nat,
                (2 * n_features) as nat,
                half_of(state_bits),
            );
            assert(r@.classes =~= want.classes);
        }
        r
    }
}

impl MachineConfig {
    /// The bound on a drawn fraction for feedback to class `c`.
    pub fn feedback_gate(&self, c: usize, v: i32, target: bool) -> (r: u64)
        requires
            self.wf(),
            c < self.n_classes,
            -self.train.threshold <= v <= self.train.threshold,
        ensures
            r == self.gate_of(c as int, v as int, target),
    {
        let t: i64 = self.train.threshold as i64;
        let u: i64 = if target {
            t - v as i64
        } else {
            t + v as i64
        };
        weighted_gate(u as u64, (2 * t) as u64, self.class_weights[c])
    }
}

impl MachineState {
    pub open spec fn wf(&self, cfg: &MachineConfig) -> bool {
        &&& cfg.wf()
        &&& self.classes@.len() == cfg.n_classes
        &&& forall|c: int|
            0 <= c < self.classes@.len() ==> (#[trigger] self.classes@[c]).wf(
                &cfg.train.geom,
                1,
                cfg.train.threshold,
            )
        &&& forall|c: int|
            0 <= c < self.classes@.len() ==> (#[trigger] self.classes@[c]).clauses@.len()
                == cfg.clauses_per_class
    }

    /// Applies feedback on one sample to class `c`.
    fn update_class(&mut self, cfg: &MachineConfig, c: usize, target: bool, sum: i32, inp: &Inputs)
        requires
            old(self).wf(cfg),
            c < cfg.n_classes,
            inp.wf(&cfg.train.geom),
            -cfg.train.threshold <= sum <= cfg.train.threshold,
        ensures
            final(self).wf(cfg),
            final(self)@ == (MachineModel {
                classes: old(self)@.classes.update(
                    c as int,
                    class_update_of(
                        old(self)@.classes[c as int],
                        target,
                        cfg.gate_of(c as int, sum as int, target),
                        cfg.train.rules,
                        cfg.train.dig_inv@,
                        cfg.train.dig_keep@,
                        inp.x(&cfg.train.geom),
                        inp.act(&cfg.train.geom),
                        cfg.train.geom.half,
                        cfg.train.geom.max_state,
                    ),
                ),
                ..old(self)@
            }),
    {
        let gate: u64 = cfg.feedback_gate(c, sum, target);
        let ghost before = *self;
        let train: &TrainConfig = &cfg.train;
        let bank: &mut ClassBank = &mut self.classes[c];
        bank.update(&train.geom, &train.rules, &train.dig_inv, &train.dig_keep, target, gate, inp);
        proof {
            assert(self@.classes =~= before@.classes.update(c as int, self.classes@[c as int]@));
            assert(self.classes@[c as int]@.clauses.len() == before.classes@[c as int]@.clauses.len());
        }
    }

    /// Trains on the packed literals of one sample with label `y`.
    pub fn fit_one_lit(&mut self, cfg: &MachineConfig, lit: &[u64], y: usize)
        requires
            old(self).wf(cfg),
            lit@.len() == cfg.train.geom.words,
            y < cfg.n_classes,
        ensures
            final(self).wf(cfg),
            final(self)@ == cfg.fit_one_of(old(self)@, bits_of(lit@, cfg.train.n()), y as int),
    {
        let ghost before = *self;
        let neg: usize = sample_other(&mut self.rng, cfg.n_classes, y);
        let n_literals: usize = cfg.train.geom.n_literals;
        let lit_b: Vec<u8> = expand_bits_to_bytes(lit, n_literals);
        let active: Vec<u64> = cfg.train.draw_active(&mut self.literal_rng);
        let active_b: Vec<u8> = expand_bits_to_bytes(&active, n_literals);
        let inp: Inputs = Inputs {
            lit,
            lit_b: lit_b.as_slice(),
            active: active.as_slice(),
            active_b: active_b.as_slice(),
        };
        let t: i32 = cfg.train.threshold;
        let sum_y: i32 = self.classes[y].class_sum_train(&cfg.train.geom, &inp, t);
        let sum_neg: i32 = self.classes[neg].class_sum_train(&cfg.train.geom, &inp, t);
        proof {
            assert(self@.classes =~= before@.classes);
        }
        self.update_class(cfg, y, true, sum_y, &inp);
        self.update_class(cfg, neg, false, sum_neg, &inp);
        proof {
            let want = cfg.fit_one_of(before@, bits_of(lit@, cfg.train.n()), y as int);
            assert(self@.classes =~= want.classes);
        }
    }

    /// Trains on the samples that `order` lists, one after the other.
    pub fn fit_order(&mut self, cfg: &MachineConfig, batch: &EncodedBatch, ys: &[usize], order: &[usize])
        requires
            old(self).wf(cfg),
            cfg.fits(batch),
            ys@.len() == batch.n,
            forall|i: int| 0 <= i < ys@.len() ==> #[trigger] ys@[i] < cfg.n_classes,
            forall|i: int| 0 <= i < order@.len() ==> #[trigger] order@[i] < batch.n,
        ensures
            final(self).wf(cfg),
            final(self)@ == cfg.fit_order_of(
                old(self)@,
                cfg.batch_bits(batch),
                ys@,
                order@,
                order@.len(),
            ),
    {
        let ghost before = *self;
        let mut k: usize = 0;
        while k < order.len()
            invariant
                k <= order@.len(),
                self.wf(cfg),
                cfg.fits(batch),
                ys@.len() == batch.n,
                forall|i: int| 0 <= i < ys@.len() ==> #[trigger] ys@[i] < cfg.n_classes,
                forall|i: int| 0 <= i < order@.len() ==> #[trigger] order@[i] < batch.n,
                self@ == cfg.fit_order_of(before@, cfg.batch_bits(batch), ys@, order@, k as nat),
            decreases order@.len() - k,
        {
            let i: usize = order[k];
            self.fit_one_lit(cfg, batch.row(i), ys[i]);
            k = k + 1;
        }
    }
}

impl TsetlinMachine {
    /// Trains on one sample with label `y`.
    pub fn fit_one(&mut self, sample: &EncodedSample, y: usize)
        requires
            old(self).wf(),
            sample.0@.len() == old(self).config.train.geom.words,
            y < old(self).config.n_classes,
        ensures
            final(self).wf(),
            final(self).config == old(self).config,
            final(self).hint_shown == old(self).hint_shown,
            final(self)@ == old(self).config.fit_one_of(
                old(self)@,
                bits_of(sample.0@, old(self).config.train.n()),
                y as int,
            ),
    {
        self.state.fit_one_lit(&self.config, &sample.0, y)
    }

    /// Trains for one epoch: every sample once, in a random order.
    pub fn fit_epoch(&mut self, batch: &EncodedBatch, ys: &[usize])
        requires
            old(self).wf(),
            old(self).fits(batch),
            ys@.len() == batch.n,
            forall|i: int| 0 <= i < ys@.len() ==> #[trigger] ys@[i] < old(self).config.n_classes,
        ensures
            final(self).wf(),
            final(self).config == old(self).config,
            final(self).hint_shown == old(self).hint_shown,
            final(self)@ == old(self).config.fit_epoch_of(
                old(self)@,
                old(self).config.batch_bits(batch),
                ys@,
            ),
    {
        let ghost before = *self;
        let order: Vec<usize> = epoch_order(&mut self.state.rng, batch.n);
        proof {
            assert(self@ == (MachineModel {
                rng: rng_skip(before@.rng, shuffle_draws(batch.n as nat)),
                ..before@
            }));
        }
        self.state.fit_order(&self.config, batch, ys, &order);
    }

    /// The class predicted for the packed literals of a sample.
    pub fn predict_lit(&self, lit: &[u64]) -> (r: usize)
        requires
            self.wf(),
            lit@.len() == self.config.train.geom.words,
        ensures
            r == self.config.predict_of(self@, bits_of(lit@, self.config.train.n())),
            r < self.config.n_classes,
    {
        let ghost sc = self.config.scores_of(self@, bits_of(lit@, self.config.train.n()));
        let t: i32 = self.config.train.threshold;
        let mut best: usize = 0;
        let mut best_score: i32 = clamp_sum(self.state.classes[0].vote(&self.config.train.geom, lit), t);
        let mut c: usize = 1;
        while c < self.state.classes.len()
            invariant
                self.wf(),
                lit@.len() == self.config.train.geom.words,
                sc == self.config.scores_of(self@, bits_of(lit@, self.config.train.n())),
                t == self.config.train.threshold,
                1 <= c <= self.state.classes@.len(),
                best < c,
                best_score == sc[best as int],
                forall|j: int| 0 <= j < c ==> #[trigger] sc[j] <= best_score,
                forall|j: int| 0 <= j < best ==> #[trigger] sc[j] < best_score,
            decreases self.state.classes@.len() - c,
        {
            let v: i32 = clamp_sum(self.state.classes[c].vote(&self.config.train.geom, lit), t);
            proof {
                assert(v == sc[c as int]);
            }
            if v > best_score {
                best_score = v;
                best = c;
            }
            c = c + 1;
        }
        proof {
            lemma_first_max(sc, best as int);
        }
        best
    }

    /// The class predicted for a sample: the first with the largest score.
    pub fn predict(&self, sample: &EncodedSample) -> (r: usize)
        requires
            self.wf(),
            sample.0@.len() == self.config.train.geom.words,
        ensures
            r == self.config.predict_of(self@, bits_of(sample.0@, self.config.train.n())),
            r < self.config.n_classes,
    {
        self.predict_lit(&sample.0)
    }

    /// Writes the score of each class for a sample: its vote sum, clamped to the threshold.
    pub fn scores(&self, sample: &EncodedSample, out: &mut [i32])
        requires
            self.wf(),
            sample.0@.len() == self.config.train.geom.words,
            old(out)@.len() == self.config.n_classes,
        ensures
            final(out)@.len() == self.config.n_classes,
            forall|c: int|
                0 <= c < self.config.n_classes ==> #[trigger] final(out)@[c] == self.config.scores_of(
                    self@,
                    bits_of(sample.0@, self.config.train.n()),
                )[c],
    {
        let ghost sc = self.config.scores_of(self@, bits_of(sample.0@, self.config.train.n()));
        let t: i32 = self.config.train.threshold;
        let mut c: usize = 0;
        while c < self.state.classes.len()
            invariant
                self.wf(),
                sample.0@.len() == self.config.train.geom.words,
                sc == self.config.scores_of(self@, bits_of(sample.0@, self.config.train.n())),
                t == self.config.train.threshold,
                c <= self.state.classes@.len(),
                out@.len() == self.state.classes@.len(),
                forall|j: int| 0 <= j < c ==> #[trigger] out@[j] == sc[j],
            decreases self.state.classes@.len() - c,
        {
            out[c] = clamp_sum(self.state.classes[c].vote(&self.config.train.geom, &sample.0), t);
            c = c + 1;
        }
    }

    /// The clauses of `class` that fire for a sample, in increasing order.
    pub fn fired_clauses(&self, sample: &EncodedSample, class: usize) -> (r: Vec<usize>)
        requires
            self.wf(),
            sample.0@.len() == self.config.train.geom.words,
            class < self.config.n_classes,
        ensures
            r@ == fired_indices(
                fired_predict(
                    self@.classes[class as int].clauses,
                    self.config.train.geom.half,
                    bits_of(sample.0@, self.config.train.n()),
                ),
                self.config.clauses_per_class as nat,
            ),
    {
        self.state.classes[class].fired(&self.config.train.geom, &sample.0)
    }

    /// The classes predicted for all samples of a batch.
    pub fn predict_batch(&self, batch: &EncodedBatch) -> (r: Vec<usize>)
        requires
            self.wf(),
            self.fits(batch),
        ensures
            r@.len() == batch.n,
            forall|i: int|
                0 <= i < batch.n ==> #[trigger] r@[i] == self.config.predict_of(
                    self@,
                    self.config.row_bits(batch, i),
                ),
    {
        let mut r: Vec<usize> = Vec::with_capacity(batch.n);
        let mut i: usize = 0;
        while i < batch.n
            invariant
                self.wf(),
                self.fits(batch),
                i <= batch.n,
                r@.len() == i,
                forall|k: int|
                    0 <= k < i ==> #[trigger] r@[k] == self.config.predict_of(
                        self@,
                        self.config.row_bits(batch, k),
                    ),
            decreases batch.n - i,
        {
            r.push(self.predict_lit(batch.row(i)));
            i = i + 1;
        }
        r
    }

    /// The classes predicted for all samples of a batch, as values.
    pub open spec fn predictions(&self, batch: &EncodedBatch) -> Seq<int> {
        Seq::new(
            batch.n as nat,
            |i: int| self.config.predict_of(self@, self.config.row_bits(batch, i)),
        )
    }

    /// How many samples of a batch are predicted correctly, and how many there are.
    pub fn accuracy(&self, batch: &EncodedBatch, ys: &[usize]) -> (r: (usize, usize))
        requires
            self.wf(),
            self.fits(batch),
            ys@.len() == batch.n,
        ensures
            r.0 == count_correct(self.predictions(batch), ys@, batch.n as nat),
            r.1 == batch.n,
    {
        let ghost p = self.predictions(batch);
        let mut correct: usize = 0;
        let mut i: usize = 0;
        while i < batch.n
            invariant
                self.wf(),
                self.fits(batch),
                ys@.len() == batch.n,
                i <= batch.n,
                correct <= i,
                p == self.predictions(batch),
                correct == count_correct(p, ys@, i as nat),
            decreases batch.n - i,
        {
            if self.predict_lit(batch.row(i)) == ys[i] {
                correct = correct + 1;
            }
            i = i + 1;
        }
        (correct, batch.n)
    }
}

/// How many counters of the first `n` classes are `v`.
pub open spec fn machine_count_at(cs: Seq<ClassModel>, v: u8, n: nat) -> nat
    decreases n,
{
    if n == 0 {
        0
    } else {
        machine_count_at(cs, v, (n - 1) as nat) + class_count_at(
            cs[n - 1].clauses,
            v,
            cs[n - 1].clauses.len(),
        )
    }
}

/// Classes after the number of features grew.
pub open spec fn grown_classes(cs: Seq<ClassModel>, old_nf: int, new_nf: int, half: u8) -> Seq<ClassModel> {
    Seq::new(
        cs.len(),
        |c: int|
            ClassModel { clauses: grown_clauses(cs[c].clauses, old_nf, new_nf, half), rng: cs[c].rng },
    )
}

/// How many counters of all classes are `v`.
pub fn count_states(classes: &Vec<ClassBank>, g: &Geometry, per_class: usize, v: u8) -> (r: usize)
    requires
        forall|c: int|
            0 <= c < classes@.len() ==> (#[trigger] classes@[c]).autos_wf(g)
                && classes@[c].clauses@.len() == per_class,
        classes@.len() * per_class * g.n_literals <= usize::MAX,
    ensures
        r == machine_count_at(class_models(classes@), v, classes@.len()),
{
    let ghost m = class_models(classes@);
    let ghost size = (per_class * g.n_literals) as int;
    let mut r: usize = 0;
    let mut c: usize = 0;
    proof {
        assert(0 * size == 0) by (nonlinear_arith);
        assert(size >= 0) by (nonlinear_arith)
            requires
                size == per_class * g.n_literals,
        ;
        assert(classes@.len() * per_class * g.n_literals == classes@.len() * size) by (nonlinear_arith)
            requires
                size == per_class * g.n_literals,
        ;
    }
    while c < classes.len()
        invariant
            c <= classes@.len(),
            forall|k: int|
                0 <= k < classes@.len() ==> (#[trigger] classes@[k]).autos_wf(g)
                    && classes@[k].clauses@.len() == per_class,
            size == per_class * g.n_literals,
            size >= 0,
            classes@.len() * size <= usize::MAX,
            m == class_models(classes@),
            r == machine_count_at(m, v, c as nat),
            r <= c * size,
        decreases classes@.len() - c,
    {
        proof {
            let len = classes@.len() as int;
            assert((c + 1) * size == c * size + size) by (nonlinear_arith);
            assert((c + 1) * size <= len * size) by (nonlinear_arith)
                requires
                    c + 1 <= len,
                    size >= 0,
            ;
            assert(c * size >= 0) by (nonlinear_arith)
                requires
                    size >= 0,
                    c >= 0,
            ;
            assert(m[c as int].clauses.len() == per_class);
        }
        let k: usize = classes[c].count_state(g, v);
        r = r + k;
        c = c + 1;
    }
    r
}

impl TsetlinMachine {
    /// The same machine with everything but its training rules.
    pub open spec fn same_state(&self, other: &Self) -> bool {
        self.state == other.state && self.hint_shown == other.hint_shown
    }

    /// Lets large epochs be trained approximately on several threads.
    pub fn data_parallel(self, on: bool) -> (r: Self)
        requires
            self.wf(),
        ensures
            r.wf(),
            r.same_state(&self),
            r.config == (MachineConfig { data_parallel: on, ..self.config }),
    {
        let mut r: TsetlinMachine = self;
        r.config.data_parallel = on;
        r
    }

    /// Limits how many literals each clause may include.
    pub fn max_included_literals(self, max: usize) -> (r: Self)
        requires
            self.wf(),
        ensures
            r.wf(),
            r.same_state(&self),
            r.config == (MachineConfig {
                train: TrainConfig {
                    rules: Rules { max_included: max, ..self.config.train.rules },
                    ..self.config.train
                },
                ..self.config
            }),
    {
        let mut r: TsetlinMachine = self;
        r.config.train.set_max_included(max);
        r
    }

    /// Sets the probability, in [0, 1), with which a clause is dropped from an update.
    pub fn clause_drop_p(self, p: Dyadic) -> (r: Self)
        requires
            self.wf(),
            p.wf(),
            p.below_one(),
        ensures
            r.wf(),
            r.same_state(&self),
            r.config == (MachineConfig {
                train: TrainConfig {
                    rules: Rules {
                        drop: chance_of(p.mant as int, p.exp as int),
                        ..self.config.train.rules
                    },
                    ..self.config.train
                },
                ..self.config
            }),
    {
        let mut r: TsetlinMachine = self;
        r.config.train.set_clause_drop(p);
        r
    }

    /// Sets the probability, in [0, 1), with which a literal is left out of a training step.
    pub fn literal_drop_p(self, p: Dyadic) -> (r: Self)
        requires
            self.wf(),
            p.wf(),
            p.below_one(),
        ensures
            r.wf(),
            r.same_state(&self),
            r.config.train.dig_lit_active@ == active_digits(p),
            r.config == (MachineConfig {
                train: TrainConfig {
                    literal_drop: chance_of(p.mant as int, p.exp as int),
                    dig_lit_active: r.config.train.dig_lit_active,
                    ..self.config.train
                },
                ..self.config
            }),
    {
        let mut r: TsetlinMachine = self;
        r.config.train.set_literal_drop(p);
        r
    }

    /// Sets how strongly each class is fed back.
    pub fn class_weights(self, weights: Vec<Dyadic>) -> (r: Self)
        requires
            self.wf(),
            weights@.len() == self.config.n_classes,
            forall|c: int|
                0 <= c < weights@.len() ==> (#[trigger] weights@[c]).wf() && weights@[c].mant > 0,
        ensures
            r.wf(),
            r.same_state(&self),
            r.config == (MachineConfig { class_weights: weights, ..self.config }),
    {
        let mut r: TsetlinMachine = self;
        r.config.class_weights = weights;
        r
    }

    /// Turns Type III feedback on, with strength `d > 1`.
    pub fn type_iii_feedback(self, d: Dyadic) -> (r: Self)
        requires
            self.wf(),
            d.wf(),
            d.above_one(),
        ensures
            r.wf(),
            r.same_state(&self),
            r.config == (MachineConfig {
                train: TrainConfig {
                    rules: Rules {
                        type_iii: true,
                        d_gate: indicator_gate(d),
                        ..self.config.train.rules
                    },
                    ..self.config.train
                },
                ..self.config
            }),
    {
        let mut r: TsetlinMachine = self;
        r.config.train.set_type_iii(d);
        r
    }

    /// The number of classes.
    pub fn n_classes(&self) -> (r: usize)
        ensures
            r == self.config.n_classes,
    {
        self.config.n_classes
    }

    /// The number of features.
    pub fn n_features(&self) -> (r: usize)
        ensures
            r == self.config.n_features,
    {
        self.config.n_features
    }

    /// The number of clauses of each class.
    pub fn clauses_per_class(&self) -> (r: usize)
        ensures
            r == self.config.clauses_per_class,
    {
        self.config.clauses_per_class
    }

    /// The number of words of a packed sample.
    pub fn words_per_sample(&self) -> (r: usize)
        ensures
            r == self.config.train.geom.words,
    {
        self.config.train.geom.words
    }

    /// The specificity.
    pub fn s(&self) -> (r: Dyadic)
        ensures
            r == self.config.train.s,
    {
        self.config.train.s
    }

    /// The weight of a clause.
    pub fn clause_weight(&self, class: usize, clause: usize) -> (r: i32)
        requires
            self.wf(),
            class < self.config.n_classes,
            clause < self.config.clauses_per_class,
        ensures
            r == self@.classes[class as int].clauses[clause as int].weight,
            1 <= r <= self.config.train.threshold,
    {
        proof {
            let c = self.state.classes@[class as int];
            assert(c.clauses@[clause as int].wf(&self.config.train.geom, 1, self.config.train.threshold));
        }
        self.state.classes[class].clauses[clause].weight
    }

    /// How strongly a class is fed back.
    pub fn class_weight(&self, class: usize) -> (r: Dyadic)
        requires
            self.wf(),
            class < self.config.n_classes,
        ensures
            r == self.config.class_weights@[class as int],
    {
        self.config.class_weights[class]
    }

    /// The number of counters, over all clauses.
    pub fn n_counters(&self) -> (r: usize)
        requires
            self.wf(),
        ensures
            r == self.config.n_classes * self.config.clauses_per_class
                * self.config.train.geom.n_literals,
    {
        proof {
            let a = self.config.n_classes as int;
            let b = self.config.clauses_per_class as int;
            let n = self.config.train.geom.n_literals as int;
            lemma_clause_counts(a, b, n);
        }
        self.config.n_classes * self.config.clauses_per_class * self.config.train.geom.n_literals
    }

    /// How many counters are at the absorbing include state, and how many there are.
    pub fn absorbed_include_fraction(&self) -> (r: (usize, usize))
        requires
            self.wf(),
        ensures
            r.0 == machine_count_at(
                self@.classes,
                self.config.train.geom.max_state,
                self.config.n_classes as nat,
            ),
            r.1 == self.config.n_classes * self.config.clauses_per_class
                * self.config.train.geom.n_literals,
    {
        (
            count_states(
                &self.state.classes,
                &self.config.train.geom,
                self.config.clauses_per_class,
                self.config.train.geom.max_state,
            ),
            self.n_counters(),
        )
    }

    /// How many counters are at the absorbing exclude state, and how many there are.
    pub fn absorbed_exclude_fraction(&self) -> (r: (usize, usize))
        requires
            self.wf(),
        ensures
            r.0 == machine_count_at(self@.classes, 0, self.config.n_classes as nat),
            r.1 == self.config.n_classes * self.config.clauses_per_class
                * self.config.train.geom.n_literals,
    {
        (
            count_states(
                &self.state.classes,
                &self.config.train.geom,
                self.config.clauses_per_class,
                0,
            ),
            self.n_counters(),
        )
    }

    /// The included literals of a clause, as pairs of a feature and whether it is negated.
    pub fn clause_rule(&self, class: usize, clause: usize) -> (r: Vec<(usize, bool)>)
        requires
            self.wf(),
            class < self.config.n_classes,
            clause < self.config.clauses_per_class,
        ensures
            r@ == rule_of(
                self@.classes[class as int].clauses[clause as int].auto.ta,
                self.config.train.geom.half,
                self.config.n_features as int,
                self.config.train.n(),
            ),
    {
        proof {
            let c = self.state.classes@[class as int];
            assert(c.clauses@[clause as int].wf(&self.config.train.geom, 1, self.config.train.threshold));
        }
        self.state.classes[class].clauses[clause].auto.rule(
            &self.config.train.geom,
            self.config.n_features,
        )
    }

    /// Whether a clause speaks for its class.
    pub fn clause_is_positive(&self, clause: usize) -> (r: bool)
        ensures
            r == (clause % 2 == 0),
    {
        clause % 2 == 0
    }

    /// Grows the machine to `new_n_features` features, keeping everything learned. New
    /// features start excluded; weights, streams and settings stay as they are.
    pub fn grow_features(&mut self, new_n_features: usize)
        requires
            old(self).wf(),
            new_n_features >= old(self).config.n_features,
            2 * new_n_features + 64 <= usize::MAX,
            old(self).config.n_classes * old(self).config.clauses_per_class * (2 * new_n_features)
                <= usize::MAX,
        ensures
            final(self).wf(),
            final(self).config.train.geom.n_literals == 2 * new_n_features,
            final(self).config.train.geom.half == old(self).config.train.geom.half,
            final(self).config == (MachineConfig {
                train: TrainConfig {
                    geom: final(self).config.train.geom,
                    ..old(self).config.train
                },
                n_features: new_n_features,
                ..old(self).config
            }),
            new_n_features == old(self).config.n_features ==> *final(self) == *old(self),
            new_n_features > old(self).config.n_features ==> final(self)@ == (MachineModel {
                classes: grown_classes(
                    old(self)@.classes,
                    old(self).config.n_features as int,
                    new_n_features as int,
                    old(self).config.train.geom.half,
                ),
                ..old(self)@
            }),
    {
        if new_n_features == self.config.n_features {
            return ;
        }
        let ghost before = *self;
        let wide: Geometry = self.config.train.geom.resized(2 * new_n_features);
        let old_nf: usize = self.config.n_features;
        let n: usize = self.state.classes.len();
        let mut c: usize = 0;
        while c < n
            invariant
                c <= n,
                before.wf(),
                self.config == before.config,
                self.state.rng == before.state.rng,
                self.state.literal_rng == before.state.literal_rng,
                n == before.state.classes@.len(),
                self.state.classes@.len() == n,
                wide.wf(),
                wide.half == before.config.train.geom.half,
                wide.n_literals == 2 * new_n_features,
                old_nf == before.config.n_features,
                old_nf <= new_n_features,
                forall|k: int| c <= k < n ==> #[trigger] self.state.classes@[k] == before.state.classes@[k],
                forall|k: int|
                    0 <= k < c ==> (#[trigger] self.state.classes@[k]).wf(
                        &wide,
                        1,
                        before.config.train.threshold,
                    ) && self.state.classes@[k]@ == (ClassModel {
                        clauses: grown_clauses(
                            before.state.classes@[k]@.clauses,
                            old_nf as int,
                            new_n_features as int,
                            wide.half,
                        ),
                        rng: before.state.classes@[k]@.rng,
                    }),
            decreases n - c,
        {
            let ghost bc = before.state.classes@[c as int];
            let geom: &Geometry = &self.config.train.geom;
            let bank: &mut ClassBank = &mut self.state.classes[c];
            grow_dense_state(&mut bank.clauses, geom, &wide, old_nf, new_n_features);
            proof {
                let ac = self.state.classes@[c as int];
                let t = before.config.train.threshold;
                assert(ac@.clauses == clause_models(ac.clauses@));
                assert forall|j: int| 0 <= j < ac.clauses@.len() implies (#[trigger] ac.clauses@[j]).wf(
                    &wide,
                    1,
                    t,
                ) by {
                    assert(bc.clauses@[j].wf(&before.config.train.geom, 1, t));
                    assert(clause_models(ac.clauses@)[j].weight == clause_models(bc.clauses@)[j].weight);
                    assert(ac.clauses@[j]@.weight == bc.clauses@[j]@.weight);
                }
            }
            c = c + 1;
        }
        self.config.train.geom = wide;
        self.config.n_features = new_n_features;
        proof {
            assert(self@.classes =~= grown_classes(
                before@.classes,
                old_nf as int,
                new_n_features as int,
                before.config.train.geom.half,
            ));
            assert forall|k: int| 0 <= k < n implies (#[trigger] self.state.classes@[k]).clauses@.len()
                == before.config.clauses_per_class by {
                assert(self.state.classes@[k]@.clauses.len() == before.state.classes@[k]@.clauses.len());
            }
        }
    }
}

/// The number one, as the weight of a class.
pub open spec fn is_one(w: Dyadic) -> bool {
    w.mant == 0x10_0000_0000_0000 && w.exp == -52
}

/// With at least two classes and two literals, there is room to count clauses and classes.
pub proof fn lemma_clause_counts(a: int, b: int, n: int)
    requires
        a >= 1,
        b >= 2,
        n >= 2,
        a * b * n <= usize::MAX,
    ensures
        0 <= a * b,
        a * b + a < usize::MAX,
{
    assert(a * b * n >= 2 * (a * b)) by (nonlinear_arith)
        requires
            a * b >= 0,
            n >= 2,
    ;
    assert(a * b >= 2 * a) by (nonlinear_arith)
        requires
            a >= 1,
            b >= 2,
    ;
}

/// Growing keeps the scores and the prediction of a machine, whatever the new features are: what
/// was learned votes as before, and the new literals are not included yet.
pub proof fn lemma_grow_keeps_scores(
    cfg: &MachineConfig,
    wide_cfg: &MachineConfig,
    m: MachineModel,
    old_nf: nat,
    new_nf: nat,
    x: Seq<u8>,
    wide: Seq<u8>,
)
    requires
        wide_cfg.train.geom.half == cfg.train.geom.half,
        wide_cfg.train.threshold == cfg.train.threshold,
        cfg.train.geom.half >= 1,
        forall|c: int, j: int|
            0 <= c < m.classes.len() && 0 <= j < m.classes[c].clauses.len()
                ==> (#[trigger] m.classes[c].clauses[j]).auto.ta.len() == 2 * old_nf,
        old_nf <= new_nf,
        x.len() == old_nf,
        wide.len() == new_nf,
        forall|i: int| 0 <= i < old_nf ==> #[trigger] wide[i] == x[i],
    ensures
        ({
            let grown = MachineModel {
                classes: grown_classes(
                    m.classes,
                    old_nf as int,
                    new_nf as int,
                    cfg.train.geom.half,
                ),
                ..m
            };
            let a = literals_of(x, old_nf as int);
            let b = literals_of(wide, new_nf as int);
            &&& wide_cfg.scores_of(grown, b) == cfg.scores_of(m, a)
            &&& wide_cfg.predict_of(grown, b) == cfg.predict_of(m, a)
        }),
{
    let half = cfg.train.geom.half;
    let grown = MachineModel {
        classes: grown_classes(m.classes, old_nf as int, new_nf as int, half),
        ..m
    };
    let a = literals_of(x, old_nf as int);
    let b = literals_of(wide, new_nf as int);
    assert forall|c: int| 0 <= c < m.classes.len() implies wide_cfg.scores_of(grown, b)[c]
        == cfg.scores_of(m, a)[c] by {
        let cs = m.classes[c].clauses;
        assert forall|j: int| 0 <= j < cs.len() implies (#[trigger] cs[j]).auto.ta.len() == 2 * old_nf by {
            assert(m.classes[c].clauses[j].auto.ta.len() == 2 * old_nf);
        }
        lemma_grow_keeps_vote_sum(cs, old_nf, new_nf, half, x, wide);
    }
    assert(wide_cfg.scores_of(grown, b) =~= cfg.scores_of(m, a));
}

/// Scores lie between minus and plus the threshold, and the predicted class is the first of the
/// classes with the largest score.
pub proof fn lemma_prediction_ranks_scores(cfg: &MachineConfig, m: MachineModel, x: Seq<bool>)
    requires
        cfg.train.threshold >= 1,
        m.classes.len() >= 1,
    ensures
        forall|c: int|
            0 <= c < m.classes.len() ==> -cfg.train.threshold <= #[trigger] cfg.scores_of(m, x)[c]
                <= cfg.train.threshold,
        is_first_max(cfg.scores_of(m, x), cfg.predict_of(m, x)),
{
    lemma_max_exists(cfg.scores_of(m, x));
}

} // verus!
