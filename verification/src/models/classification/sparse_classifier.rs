//! A multiclass Tsetlin Machine over sparse clauses, whose candidates shrink as it learns.
use crate::bits::{
    all_bits, bit_at, bits_of, literals_of, no_bits, set_bit, words_for, words_needed,
};
use crate::clause_bank::automata::{count_at, half_from_bits, half_of};
use crate::clause_bank::feedback::{
    after_drops, clamp, clamp_sum, class_drops, fired_indices, lemma_polar_same, polar_sum,
};
use crate::clause_bank::sparse::{
    absorbed_count, fresh_sparse, grown_sparse, lemma_grow_keeps_sparse_votes, remapped_all, locked_count,
    sparse_holds, sparse_type_i, sparse_type_ii, sparse_votes, within, Scan, SparseClause,
    SparseClauseBank, SparseModel,
};
use crate::dyadic::{
    chance_of, is_positive, keep_of, one_minus_of, recip_of, weighted_bound, weighted_gate, Chance,
    Dyadic,
};
use crate::encoder::{EncodedBatch, EncodedSample};
use crate::models::classification::vanilla_classifier::{is_one, lemma_clause_counts};
use crate::models::config::{clause_seed, literal_seed, stream_rng, LITERAL_XOR};
use crate::models::ranking::{count_correct, first_max, lemma_first_max};
use crate::rng::{rng_frac, rng_next, rng_skip, Rng};
use crate::sampling::{
    after_other, draw_drops, drops_of, epoch_order, epoch_order_of, other_index, sample_other,
    shuffle_draws,
};
use vstd::prelude::*;

verus! {

/// The configuration of a sparse machine.
#[derive(Clone, Debug)]
pub struct SparseConfig {
    pub n_classes: usize,
    pub n_features: usize,
    pub n_literals: usize,
    pub words: usize,
    pub clauses_per_class: usize,
    pub threshold: i32,
    pub s: Dyadic,
    /// The largest drawn fraction for a penalty: the probability `1 / s`.
    pub inv: u64,
    /// The bound that drawn fractions for a reward stay below, beyond the probability
    /// `(s - 1) / s`.
    pub keep: u64,
    pub boost_true_positive: bool,
    pub max_included_literals: usize,
    /// The probability with which a clause is dropped from an update.
    pub clause_drop: Chance,
    /// The probability with which a literal is left out of a training step.
    pub literal_drop: Chance,
    /// One minus that probability.
    pub literal_keep: Chance,
    pub half: u8,
    pub max_state: u8,
    pub class_weights: Vec<Dyadic>,
}

/// The clauses of one class, their weights and their streams, as values.
#[verifier::ext_equal]
pub struct SparseClassModel {
    pub pools: Seq<SparseModel>,
    pub weights: Seq<i32>,
    pub rngs: Seq<u64>,
    pub rng: u64,
}

/// The clauses of one class, their weights and their streams.
#[derive(Clone, Debug)]
pub struct SparseClass {
    pub bank: SparseClauseBank,
    pub weights: Vec<i32>,
    pub rngs: Vec<Rng>,
    pub rng: Rng,
}

/// The stream positions of generators.
pub open spec fn positions(rngs: Seq<Rng>) -> Seq<u64> {
    Seq::new(rngs.len(), |j: int| rngs[j]@)
}

impl View for SparseClass {
    type V = SparseClassModel;

    open spec fn view(&self) -> SparseClassModel {
        SparseClassModel {
            pools: self.bank.models(),
            weights: self.weights@,
            rngs: positions(self.rngs@),
            rng: self.rng@,
        }
    }
}

/// The learned state of a sparse machine and its streams, as values.
#[verifier::ext_equal]
pub struct SparseMachineModel {
    pub classes: Seq<SparseClassModel>,
    pub rng: u64,
    pub literal_rng: u64,
}

/// A multiclass Tsetlin Machine over sparse clauses.
#[derive(Clone, Debug)]
pub struct TMSparseClassifier {
    pub config: SparseConfig,
    pub classes: Vec<SparseClass>,
    pub rng: Rng,
    pub literal_rng: Rng,
}

/// The values of the classes of a machine.
pub open spec fn sparse_class_models(cs: Seq<SparseClass>) -> Seq<SparseClassModel> {
    Seq::new(cs.len(), |c: int| cs[c]@)
}

impl View for TMSparseClassifier {
    type V = SparseMachineModel;

    open spec fn view(&self) -> SparseMachineModel {
        SparseMachineModel {
            classes: sparse_class_models(self.classes@),
            rng: self.rng@,
            literal_rng: self.literal_rng@,
        }
    }
}

/// One clause with its weight and its stream, as values.
pub struct SparseUnit {
    pub pools: SparseModel,
    pub weight: i32,
    pub rng: u64,
}

/// The bound that drawn fractions for a reward stay below: they are at most the probability
/// `(s - 1) / s`, of which an infinite `s` has none.
pub open spec fn reward_limit_of(s: Dyadic) -> u64 {
    if s.is_infinite() {
        0
    } else {
        (chance_of(keep_of(s).0, keep_of(s).1).floor + 1) as u64
    }
}

/// The bound that drawn fractions for a reward stay below.
pub fn reward_limit(s: &Dyadic) -> (r: u64)
    requires
        s.wf(),
        s.above_one(),
    ensures
        r == reward_limit_of(*s),
{
    if s.infinite() {
        0
    } else {
        s.keep().chance().floor + 1
    }
}

impl SparseConfig {
    pub open spec fn wf(&self) -> bool {
        &&& self.n_classes >= 2
        &&& self.n_features >= 1
        &&& self.n_literals == 2 * self.n_features
        &&& self.n_literals <= u32::MAX
        &&& self.n_literals + 64 <= usize::MAX
        &&& self.words == words_needed(self.n_literals as int)
        &&& self.clauses_per_class >= 2
        &&& self.n_classes * self.clauses_per_class * self.n_literals <= usize::MAX
        &&& self.threshold >= 1
        &&& self.s.wf() && self.s.above_one()
        &&& self.inv == chance_of(recip_of(self.s).0, recip_of(self.s).1).floor
        &&& self.keep == reward_limit_of(self.s)
        &&& 2 <= self.half <= 128
        &&& self.max_state == 2 * self.half - 1
        &&& self.class_weights@.len() == self.n_classes
        &&& forall|c: int|
            0 <= c < self.n_classes ==> (#[trigger] self.class_weights@[c]).wf()
                && self.class_weights@[c].mant > 0
    }

    /// The number of literals.
    pub open spec fn n(&self) -> nat {
        self.n_literals as nat
    }

    /// What a scan over the pools depends on.
    pub open spec fn scan(&self, fired: bool, x: Seq<bool>, act: Seq<bool>) -> Scan {
        Scan {
            x,
            act,
            fired,
            boost: self.boost_true_positive,
            inv: self.inv,
            keep: self.keep,
            max_included: self.max_included_literals,
            half: self.half,
            max: self.max_state,
        }
    }

    /// The bound on a drawn fraction for feedback to class `c` whose vote sum is `v`.
    pub open spec fn gate_of(&self, c: int, v: int, target: bool) -> u64 {
        let t = self.threshold as int;
        weighted_bound(
            if target {
                t - v
            } else {
                t + v
            },
            2 * t,
            self.class_weights@[c],
        ) as u64
    }

    /// A clause after feedback: Type I where it speaks for the target, else Type II.
    pub open spec fn unit_step(
        &self,
        u: SparseUnit,
        j: int,
        dropped: bool,
        target: bool,
        gate: u64,
        x: Seq<bool>,
        act: Seq<bool>,
    ) -> SparseUnit {
        let drawn = SparseUnit { rng: rng_next(u.rng), ..u };
        if dropped {
            u
        } else if rng_frac(u.rng) > gate {
            drawn
        } else if target == (j % 2 == 0) {
            let grows = sparse_holds(u.pools, x, act) && u.pools.included.len()
                < self.max_included_literals;
            let after = sparse_type_i(u.pools, drawn.rng, self.scan(grows, x, act));
            SparseUnit {
                pools: after.0,
                weight: if grows && u.weight < self.threshold {
                    (u.weight + 1) as i32
                } else {
                    u.weight
                },
                rng: after.1,
            }
        } else if sparse_holds(u.pools, x, act) {
            SparseUnit {
                pools: sparse_type_ii(u.pools, 0, x, act, self.half, self.max_state),
                weight: if u.weight > 1 {
                    (u.weight - 1) as i32
                } else {
                    u.weight
                },
                ..drawn
            }
        } else {
            drawn
        }
    }

    /// Clause `j` of a class after an update of the class.
    pub open spec fn class_unit(
        &self,
        m: SparseClassModel,
        j: int,
        target: bool,
        gate: u64,
        x: Seq<bool>,
        act: Seq<bool>,
    ) -> SparseUnit {
        self.unit_step(
            SparseUnit { pools: m.pools[j], weight: m.weights[j], rng: m.rngs[j] },
            j,
            class_drops(m.rng, self.clause_drop, m.pools.len())[j],
            target,
            gate,
            x,
            act,
        )
    }

    /// A class after one update.
    pub open spec fn class_step(
        &self,
        m: SparseClassModel,
        target: bool,
        gate: u64,
        x: Seq<bool>,
        act: Seq<bool>,
    ) -> SparseClassModel {
        let n = m.pools.len();
        SparseClassModel {
            pools: Seq::new(n, |j: int| self.class_unit(m, j, target, gate, x, act).pools),
            weights: Seq::new(n, |j: int| self.class_unit(m, j, target, gate, x, act).weight),
            rngs: Seq::new(n, |j: int| self.class_unit(m, j, target, gate, x, act).rng),
            rng: after_drops(m.rng, self.clause_drop, n),
        }
    }

    /// The clamped vote sum of a class in training.
    pub open spec fn sum_of(&self, m: SparseClassModel, x: Seq<bool>, act: Seq<bool>) -> int {
        let fired = Seq::new(m.pools.len(), |j: int| sparse_holds(m.pools[j], x, act));
        clamp(
            polar_sum(fired, m.weights, m.pools.len()),
            -self.threshold as int,
            self.threshold as int,
        )
    }

    /// The score of a class in inference.
    pub open spec fn score_of(&self, m: SparseClassModel, x: Seq<bool>) -> int {
        clamp(
            polar_sum(votes_of(m, x), m.weights, m.pools.len()),
            -self.threshold as int,
            self.threshold as int,
        )
    }

    /// The scores of all classes.
    pub open spec fn scores_of(&self, m: SparseMachineModel, x: Seq<bool>) -> Seq<int> {
        Seq::new(m.classes.len(), |c: int| self.score_of(m.classes[c], x))
    }

    /// The class predicted for a sample: the first with the largest score.
    pub open spec fn predict_of(&self, m: SparseMachineModel, x: Seq<bool>) -> int {
        first_max(self.scores_of(m, x))
    }

    /// The literals that are active in a step whose literal stream is at `s`.
    pub open spec fn active_of(&self, s: u64) -> Seq<bool> {
        if is_positive(self.literal_drop) {
            drops_of(s, self.literal_keep, self.n())
        } else {
            Seq::new(self.n(), |l: int| true)
        }
    }

    /// The position of the literal stream after a step.
    pub open spec fn after_active(&self, s: u64) -> u64 {
        if is_positive(self.literal_drop) {
            rng_skip(s, self.n())
        } else {
            s
        }
    }

    /// Class `c` after feedback on one sample.
    pub open spec fn updated(
        &self,
        m: SparseClassModel,
        c: int,
        target: bool,
        x: Seq<bool>,
        act: Seq<bool>,
    ) -> SparseClassModel {
        self.class_step(m, target, self.gate_of(c, self.sum_of(m, x, act), target), x, act)
    }

    /// The machine after training on one sample.
    pub open spec fn fit_one_of(&self, m: SparseMachineModel, x: Seq<bool>, y: int) -> SparseMachineModel {
        let neg = other_index(m.rng, self.n_classes as int, y);
        let act = self.active_of(m.literal_rng);
        SparseMachineModel {
            classes: m.classes.update(y, self.updated(m.classes[y], y, true, x, act)).update(
                neg,
                self.updated(m.classes[neg], neg, false, x, act),
            ),
            rng: after_other(m.rng, self.n_classes as int, y),
            literal_rng: self.after_active(m.literal_rng),
        }
    }

    /// The machine after training on the first `k` samples of `order`.
    pub open spec fn fit_order_of(
        &self,
        m: SparseMachineModel,
        xs: Seq<Seq<bool>>,
        ys: Seq<usize>,
        order: Seq<usize>,
        k: nat,
    ) -> SparseMachineModel
        decreases k,
    {
        if k == 0 {
            m
        } else {
            let i = order[k - 1] as int;
            self.fit_one_of(self.fit_order_of(m, xs, ys, order, (k - 1) as nat), xs[i], ys[i] as int)
        }
    }

    /// The machine after one epoch: every sample once, in a random order.
    pub open spec fn fit_epoch_of(&self, m: SparseMachineModel, xs: Seq<Seq<bool>>, ys: Seq<usize>) -> SparseMachineModel {
        let n = xs.len();
        self.fit_order_of(
            SparseMachineModel { rng: rng_skip(m.rng, shuffle_draws(n)), ..m },
            xs,
            ys,
            epoch_order_of(m.rng, n),
            n,
        )
    }

    /// A batch fits the machine.
    pub open spec fn fits(&self, batch: &EncodedBatch) -> bool {
        batch.wf() && batch.words == self.words
    }

    /// The literals of sample `i` of a batch.
    pub open spec fn row_bits(&self, batch: &EncodedBatch, i: int) -> Seq<bool> {
        bits_of(batch.sample(i), self.n())
    }

    /// The literals of all samples of a batch.
    pub open spec fn batch_bits(&self, batch: &EncodedBatch) -> Seq<Seq<bool>> {
        Seq::new(batch.n as nat, |i: int| self.row_bits(batch, i))
    }

    /// The bound on a drawn fraction for feedback to class `c`.
    fn feedback_gate(&self, c: usize, v: i32, target: bool) -> (r: u64)
        requires
            self.wf(),
            c < self.n_classes,
            -self.threshold <= v <= self.threshold,
        ensures
            r == self.gate_of(c as int, v as int, target),
    {
        let t: i64 = self.threshold as i64;
        let u: i64 = if target {
            t - v as i64
        } else {
            t + v as i64
        };
        weighted_gate(u as u64, (2 * t) as u64, self.class_weights[c])
    }

    /// Draws which literals are active in a training step.
    fn draw_active(&self, rng: &mut Rng) -> (r: Vec<u64>)
        requires
            self.wf(),
        ensures
            r@.len() == self.words,
            bits_of(r@, self.n()) == self.active_of(old(rng)@),
            final(rng)@ == self.after_active(old(rng)@),
    {
        if self.literal_drop.positive() {
            let kept: Vec<bool> = draw_drops(rng, self.literal_keep, self.n_literals);
            let mut mask: Vec<u64> = no_bits(self.words);
            let mut l: usize = 0;
            while l < self.n_literals
                invariant
                    self.wf(),
                    l <= self.n_literals,
                    kept@.len() == self.n_literals,
                    mask@.len() == self.words,
                    forall|i: int| 0 <= i < 64 * self.words ==> #[trigger] bit_at(mask@, i) == (i < l && kept@[i]),
                decreases self.n_literals - l,
            {
                if kept[l] {
                    set_bit(&mut mask, l);
                }
                l = l + 1;
            }
            proof {
                assert(bits_of(mask@, self.n()) =~= kept@);
            }
            mask
        } else {
            let r: Vec<u64> = all_bits(self.words);
            proof {
                assert forall|l: int| 0 <= l < self.n() implies #[trigger] bit_at(r@, l) by {}
                assert(bits_of(r@, self.n()) =~= self.active_of(rng@));
            }
            r
        }
    }
}

/// Which clauses of a class fire in inference.
pub open spec fn votes_of(m: SparseClassModel, x: Seq<bool>) -> Seq<bool> {
    Seq::new(m.pools.len(), |j: int| sparse_votes(m.pools[j], x))
}

impl SparseClass {
    pub open spec fn wf(&self, cfg: &SparseConfig) -> bool {
        &&& self.bank.wf()
        &&& self.bank.n_clauses == cfg.clauses_per_class
        &&& self.bank.n_literals == cfg.n_literals
        &&& self.bank.half == cfg.half
        &&& self.bank.max_state == cfg.max_state
        &&& self.weights@.len() == cfg.clauses_per_class
        &&& self.rngs@.len() == cfg.clauses_per_class
        &&& forall|j: int|
            0 <= j < self.weights@.len() ==> 1 <= #[trigger] self.weights@[j] <= cfg.threshold
    }

    /// The clamped vote sum in training.
    fn class_sum_train(&self, cfg: &SparseConfig, lit: &[u64], lit_active: &[u64]) -> (r: i32)
        requires
            cfg.wf(),
            self.wf(cfg),
            lit@.len() == cfg.words,
            lit_active@.len() == cfg.words,
        ensures
            r == cfg.sum_of(self@, bits_of(lit@, cfg.n()), bits_of(lit_active@, cfg.n())),
            -cfg.threshold <= r <= cfg.threshold,
    {
        let ghost m = self@;
        let ghost x = bits_of(lit@, cfg.n());
        let ghost act = bits_of(lit_active@, cfg.n());
        let ghost f = Seq::new(m.pools.len(), |j: int| sparse_holds(m.pools[j], x, act));
        let mut sum: i128 = 0;
        let mut j: usize = 0;
        while j < cfg.clauses_per_class
            invariant
                cfg.wf(),
                self.wf(cfg),
                lit@.len() == cfg.words,
                lit_active@.len() == cfg.words,
                m == self@,
                x == bits_of(lit@, cfg.n()),
                act == bits_of(lit_active@, cfg.n()),
                f == Seq::new(m.pools.len(), |k: int| sparse_holds(m.pools[k], x, act)),
                j <= cfg.clauses_per_class,
                sum == polar_sum(f, m.weights, j as nat),
                -0x8000_0000 * j <= sum <= 0x8000_0000 * j,
            decreases cfg.clauses_per_class - j,
        {
            if self.bank.fire_train(j, lit, lit_active) {
                if j % 2 == 0 {
                    sum = sum + self.weights[j] as i128;
                } else {
                    sum = sum - self.weights[j] as i128;
                }
            }
            j = j + 1;
        }
        clamp_sum(sum, cfg.threshold)
    }

    /// The score in inference.
    fn score(&self, cfg: &SparseConfig, lit: &[u64]) -> (r: i32)
        requires
            cfg.wf(),
            self.wf(cfg),
            lit@.len() == cfg.words,
        ensures
            r == cfg.score_of(self@, bits_of(lit@, cfg.n())),
    {
        let ghost m = self@;
        let ghost x = bits_of(lit@, cfg.n());
        let ghost f = votes_of(m, x);
        let mut sum: i128 = 0;
        let mut j: usize = 0;
        while j < cfg.clauses_per_class
            invariant
                cfg.wf(),
                self.wf(cfg),
                lit@.len() == cfg.words,
                m == self@,
                x == bits_of(lit@, cfg.n()),
                f == votes_of(m, x),
                j <= cfg.clauses_per_class,
                sum == polar_sum(f, m.weights, j as nat),
                -0x8000_0000 * j <= sum <= 0x8000_0000 * j,
            decreases cfg.clauses_per_class - j,
        {
            if self.bank.fire_predict(j, lit) {
                if j % 2 == 0 {
                    sum = sum + self.weights[j] as i128;
                } else {
                    sum = sum - self.weights[j] as i128;
                }
            }
            j = j + 1;
        }
        clamp_sum(sum, cfg.threshold)
    }

    /// Gives one update of feedback to all clauses of the class.
    fn update(
        &mut self,
        cfg: &SparseConfig,
        target: bool,
        gate: u64,
        lit: &[u64],
        lit_active: &[u64],
    )
        requires
            cfg.wf(),
            old(self).wf(cfg),
            lit@.len() == cfg.words,
            lit_active@.len() == cfg.words,
        ensures
            final(self).wf(cfg),
            final(self)@ == cfg.class_step(
                old(self)@,
                target,
                gate,
                bits_of(lit@, cfg.n()),
                bits_of(lit_active@, cfg.n()),
            ),
    {
        let ghost m = self@;
        let ghost x = bits_of(lit@, cfg.n());
        let ghost act = bits_of(lit_active@, cfg.n());
        let n: usize = cfg.clauses_per_class;
        let dropped: Vec<bool> = if cfg.clause_drop.positive() {
            draw_drops(&mut self.rng, cfg.clause_drop, n)
        } else {
            vec![false; n]
        };
        proof {
            assert(dropped@ =~= class_drops(m.rng, cfg.clause_drop, n as nat));
        }
        let ghost want = cfg.class_step(m, target, gate, x, act);
        let (half, max_state) = self.bank.dims();
        let mut j: usize = 0;
        while j < n
            invariant
                cfg.wf(),
                self.wf(cfg),
                n == cfg.clauses_per_class,
                m.pools.len() == n,
                half == cfg.half,
                max_state == cfg.max_state,
                lit@.len() == cfg.words,
                lit_active@.len() == cfg.words,
                x == bits_of(lit@, cfg.n()),
                act == bits_of(lit_active@, cfg.n()),
                j <= n,
                dropped@ == class_drops(m.rng, cfg.clause_drop, n as nat),
                want == cfg.class_step(m, target, gate, x, act),
                self.rng@ == want.rng,
                forall|i: int| 0 <= i < j ==> (#[trigger] self.bank.clauses@[i])@ == want.pools[i],
                forall|i: int| 0 <= i < j ==> #[trigger] self.weights@[i] == want.weights[i],
                forall|i: int| 0 <= i < j ==> (#[trigger] self.rngs@[i])@ == want.rngs[i],
                forall|i: int| j <= i < n ==> (#[trigger] self.bank.clauses@[i])@ == m.pools[i],
                forall|i: int| j <= i < n ==> #[trigger] self.weights@[i] == m.weights[i],
                forall|i: int| j <= i < n ==> (#[trigger] self.rngs@[i])@ == m.rngs[i],
            decreases n - j,
        {
            let ghost u = SparseUnit {
                pools: m.pools[j as int],
                weight: m.weights[j as int],
                rng: m.rngs[j as int],
            };
            let ghost step = cfg.class_unit(m, j as int, target, gate, x, act);
            if !dropped[j] {
                let mut rng: Rng = self.rngs[j];
                if rng.next_fraction() <= gate {
                    let fires: bool = self.bank.fire_train(j, lit, lit_active);
                    let w: i32 = self.weights[j];
                    if target == (j % 2 == 0) {
                        let grows: bool = fires && self.bank.n_included(j)
                            < cfg.max_included_literals;
                        if grows && w < cfg.threshold {
                            self.weights.set(j, w + 1);
                        }
                        let c: &mut SparseClause = &mut self.bank.clauses[j];
                        c.type_i(
                            lit,
                            lit_active,
                            grows,
                            cfg.boost_true_positive,
                            &mut rng,
                            cfg.inv,
                            cfg.keep,
                            cfg.max_included_literals,
                            half,
                            max_state,
                            cfg.n_literals,
                        );
                    } else if fires {
                        if w > 1 {
                            self.weights.set(j, w - 1);
                        }
                        let c: &mut SparseClause = &mut self.bank.clauses[j];
                        c.type_ii(lit, lit_active, half, max_state, cfg.n_literals);
                    }
                }
                self.rngs.set(j, rng);
            }
            proof {
                assert(self.bank.clauses@[j as int]@ == step.pools);
                assert(self.weights@[j as int] == step.weight);
                assert(self.rngs@[j as int]@ == step.rng);
            }
            j = j + 1;
        }
        proof {
            assert(self@.pools =~= want.pools);
            assert(self@.weights =~= want.weights);
            assert(self@.rngs =~= want.rngs);
        }
    }
}

/// Class `c` of a new machine.
pub open spec fn initial_sparse_class(
    seed: u64,
    c: int,
    per_class: nat,
    n_clauses: int,
    n: nat,
    half: u8,
) -> SparseClassModel {
    SparseClassModel {
        pools: Seq::new(per_class, |j: int| fresh_sparse(n, half)),
        weights: Seq::new(per_class, |j: int| 1i32),
        rngs: Seq::new(per_class, |j: int| clause_seed(seed, c * per_class + j)),
        rng: clause_seed(seed, c + n_clauses),
    }
}

/// A new machine seeded with `seed`.
pub open spec fn initial_sparse_machine(
    seed: u64,
    n_classes: nat,
    per_class: nat,
    n: nat,
    half: u8,
) -> SparseMachineModel {
    SparseMachineModel {
        classes: Seq::new(
            n_classes,
            |c: int| initial_sparse_class(seed, c, per_class, (n_classes * per_class) as int, n, half),
        ),
        rng: rng_next(seed),
        literal_rng: literal_seed(seed),
    }
}

/// Classes after the number of features grew.
pub open spec fn grown_sparse_class(m: SparseClassModel, old_nf: int, new_nf: int, half: u8) -> SparseClassModel {
    SparseClassModel {
        pools: Seq::new(m.pools.len(), |j: int| grown_sparse(m.pools[j], old_nf, new_nf, half)),
        ..m
    }
}

/// How many included literals of the first `n` classes are locked.
pub open spec fn machine_locked(cs: Seq<SparseClassModel>, max: u8, n: nat) -> nat
    decreases n,
{
    if n == 0 {
        0
    } else {
        machine_locked(cs, max, (n - 1) as nat) + locked_count(
            cs[n - 1].pools,
            max,
            cs[n - 1].pools.len(),
        )
    }
}

/// How many literals of the first `n` classes have been absorbed out.
pub open spec fn machine_absorbed(cs: Seq<SparseClassModel>, n: nat) -> nat
    decreases n,
{
    if n == 0 {
        0
    } else {
        machine_absorbed(cs, (n - 1) as nat) + absorbed_count(cs[n - 1].pools, cs[n - 1].pools.len())
    }
}

/// The included literals of the first `k` features, in increasing order, a feature before
/// its negation.
pub open spec fn sparse_rule_of(included: Seq<u32>, n_features: int, k: nat) -> Seq<(usize, bool)>
    decreases k,
{
    if k == 0 {
        seq![]
    } else {
        let f = k - 1;
        let rest = sparse_rule_of(included, n_features, (k - 1) as nat);
        let pos = if included.contains(f as u32) {
            rest.push((f as usize, false))
        } else {
            rest
        };
        if included.contains((f + n_features) as u32) {
            pos.push((f as usize, true))
        } else {
            pos
        }
    }
}

/// No more literals are locked than there are.
proof fn lemma_locked_bound(cs: Seq<SparseModel>, max: u8, n: nat, width: nat)
    requires
        n <= cs.len(),
        forall|j: int| 0 <= j < cs.len() ==> (#[trigger] cs[j]).included_state.len() <= width,
    ensures
        locked_count(cs, max, n) <= n * width,
    decreases n,
{
    if n > 0 {
        lemma_locked_bound(cs, max, (n - 1) as nat, width);
        let st = cs[n - 1].included_state;
        lemma_count_bound(st, max, st.len());
        assert((n - 1) * width + width == n * width) by (nonlinear_arith);
    } else {
        assert(0 * width == 0) by (nonlinear_arith);
    }
}

proof fn lemma_count_bound(s: Seq<u8>, v: u8, n: nat)
    ensures
        count_at(s, v, n) <= n,
    decreases n,
{
    if n > 0 {
        lemma_count_bound(s, v, (n - 1) as nat);
    }
}

proof fn lemma_absorbed_bound(cs: Seq<SparseModel>, n: nat, width: nat)
    requires
        n <= cs.len(),
        forall|j: int| 0 <= j < cs.len() ==> (#[trigger] cs[j]).unallocated.len() <= width,
    ensures
        absorbed_count(cs, n) <= n * width,
    decreases n,
{
    if n > 0 {
        lemma_absorbed_bound(cs, (n - 1) as nat, width);
        assert((n - 1) * width + width == n * width) by (nonlinear_arith);
    } else {
        assert(0 * width == 0) by (nonlinear_arith);
    }
}

impl TMSparseClassifier {
    pub open spec fn wf(&self) -> bool {
        &&& self.config.wf()
        &&& self.classes@.len() == self.config.n_classes
        &&& forall|c: int|
            0 <= c < self.classes@.len() ==> (#[trigger] self.classes@[c]).wf(&self.config)
    }

    /// A machine with 8-bit counters, boosted rewards and seed 42.
    pub fn new(
        n_classes: usize,
        n_features: usize,
        clauses_per_class: usize,
        threshold: i32,
        s: Dyadic,
    ) -> (r: Self)
        requires
            n_classes >= 2,
            n_features >= 1,
            clauses_per_class >= 2,
            threshold >= 1,
            s.wf(),
            s.above_one(),
            2 * n_features <= u32::MAX,
            2 * n_features + 64 <= usize::MAX,
            n_classes * clauses_per_class * (2 * n_features) <= usize::MAX,
        ensures
            r.wf(),
            r.config.n_classes == n_classes,
            r.config.n_features == n_features,
            r.config.clauses_per_class == clauses_per_class,
            r.config.threshold == threshold,
            r.config.s == s,
            r.config.half == 128,
            r.config.boost_true_positive,
            r.config.max_included_literals == usize::MAX,
            r.config.clause_drop == (Chance { floor: 0, exact: true }),
            r.config.literal_drop == (Chance { floor: 0, exact: true }),
            forall|c: int| 0 <= c < n_classes ==> is_one(#[trigger] r.config.class_weights@[c]),
            r@ == initial_sparse_machine(
                42,
                n_classes as nat,
                clauses_per_class as nat,
                (2 * n_features) as nat,
                128,
            ),
    {
        Self::with_config(n_classes, n_features, clauses_per_class, threshold, s, 8, true, 42)
    }

    /// A machine with all settings given.
    pub fn with_config(
        n_classes: usize,
        n_features: usize,
        clauses_per_class: usize,
        threshold: i32,
        s: Dyadic,
        state_bits: u8,
        boost_true_positive: bool,
        seed: u64,
    ) -> (r: Self)
        requires
            n_classes >= 2,
            n_features >= 1,
            clauses_per_class >= 2,
            threshold >= 1,
            s.wf(),
            s.above_one(),
            2 <= state_bits <= 8,
            2 * n_features <= u32::MAX,
            2 * n_features + 64 <= usize::MAX,
            n_classes * clauses_per_class * (2 * n_features) <= usize::MAX,
        ensures
            r.wf(),
            r.config.n_classes == n_classes,
            r.config.n_features == n_features,
            r.config.clauses_per_class == clauses_per_class,
            r.config.threshold == threshold,
            r.config.s == s,
            r.config.half == half_of(state_bits),
            r.config.boost_true_positive == boost_true_positive,
            r.config.max_included_literals == usize::MAX,
            r.config.clause_drop == (Chance { floor: 0, exact: true }),
            r.config.literal_drop == (Chance { floor: 0, exact: true }),
            forall|c: int| 0 <= c < n_classes ==> is_one(#[trigger] r.config.class_weights@[c]),
            r@ == initial_sparse_machine(
                seed,
                n_classes as nat,
                clauses_per_class as nat,
                (2 * n_features) as nat,
                half_of(state_bits),
            ),
    {
        let n_literals: usize = 2 * n_features;
        let per_class: usize = clauses_per_class;
        proof {
            let a = n_classes as int;
            let b = per_class as int;
            let n = n_literals as int;
            lemma_clause_counts(a, b, n);
            assert(b * n <= a * b * n) by (nonlinear_arith)
                requires
                    a >= 1,
                    b >= 0,
                    n >= 0,
            ;
        }
        let total: usize = n_classes * per_class;
        let mut classes: Vec<SparseClass> = Vec::with_capacity(n_classes);
        let half: u8 = half_from_bits(state_bits);
        let mut c: usize = 0;
        let mut i: usize = 0;
        let config: SparseConfig = SparseConfig {
            n_classes,
            n_features,
            n_literals,
            words: words_for(n_literals),
            clauses_per_class,
            threshold,
            s,
            inv: s.recip().chance().floor,
            keep: reward_limit(&s),
            boost_true_positive,
            max_included_literals: usize::MAX,
            clause_drop: Chance::never(),
            literal_drop: Chance::never(),
            literal_keep: Dyadic::one().chance(),
            half,
            max_state: half - 1 + half,
            class_weights: vec![Dyadic::one(); n_classes],
        };
        proof {
            assert(0 * per_class == 0) by (nonlinear_arith);
        }
        while c < n_classes
            invariant
                config.wf(),
                config.n_classes == n_classes,
                config.clauses_per_class == per_class,
                config.n_literals == n_literals,
                config.threshold >= 1,
                config.half == half_of(state_bits),
                2 <= state_bits <= 8,
                per_class * n_literals <= usize::MAX,
                total == n_classes * per_class,
                total + n_classes < usize::MAX,
                c <= n_classes,
                i == c * per_class,
                classes@.len() == c,
                forall|k: int| 0 <= k < c ==> (#[trigger] classes@[k]).wf(&config),
                forall|k: int|
                    0 <= k < c ==> (#[trigger] classes@[k])@ == initial_sparse_class(
                        seed,
                        k,
                        per_class as nat,
                        total as int,
                        n_literals as nat,
                        half_of(state_bits),
                    ),
            decreases n_classes - c,
        {
            let mut rngs: Vec<Rng> = Vec::with_capacity(per_class);
            let mut j: usize = 0;
            proof {
                assert((c + 1) * per_class <= n_classes * per_class && (c + 1) * per_class == c
                    * per_class + per_class) by (nonlinear_arith)
                    requires
                        c + 1 <= n_classes,
                ;
            }
            while j < per_class
                invariant
                    j <= per_class,
                    i == c * per_class + j,
                    c * per_class + per_class <= total,
                    total < usize::MAX,
                    rngs@.len() == j,
                    forall|k: int|
                        0 <= k < j ==> (#[trigger] rngs@[k])@ == clause_seed(seed, c * per_class + k),
                decreases per_class - j,
            {
                rngs.push(stream_rng(seed, i as u64));
                i = i + 1;
                j = j + 1;
            }
            let class: SparseClass = SparseClass {
                bank: SparseClauseBank::new(per_class, n_literals, state_bits),
                weights: vec![1i32; per_class],
                rngs,
                rng: stream_rng(seed, c as u64 + total as u64),
            };
            proof {
                let want = initial_sparse_class(
                    seed,
                    c as int,
                    per_class as nat,
                    total as int,
                    n_literals as nat,
                    half_of(state_bits),
                );
                assert(class@.pools =~= want.pools);
                assert(class@.weights =~= want.weights);
                assert(class@.rngs =~= want.rngs);
            }
            classes.push(class);
            c = c + 1;
        }
        let r: TMSparseClassifier = TMSparseClassifier {
            config,
            classes,
            rng: Rng::new(seed),
            literal_rng: Rng::new(seed ^ LITERAL_XOR),
        };
        proof {
            let want = initial_sparse_machine(
                seed,
                n_classes as nat,
                per_class as nat,
                n_literals as nat,
                half_of(state_bits),
            );
            assert(r@.classes =~= want.classes);
        }
        r
    }

    /// Everything but the configuration is the same.
    pub open spec fn same_state(&self, other: &Self) -> bool {
        self.classes == other.classes && self.rng == other.rng && self.literal_rng
            == other.literal_rng
    }

    /// Limits how many literals each clause may include.
    pub fn max_included_literals(self, max: usize) -> (r: Self)
        requires
            self.wf(),
        ensures
            r.wf(),
            r.same_state(&self),
            r.config == (SparseConfig { max_included_literals: max, ..self.config }),
    {
        let mut r: TMSparseClassifier = self;
        r.config.max_included_literals = max;
        r
    }

    /// Sets the probability, in [0, 1), with which a clause is dropped from an update.
    pub fn clause_drop_p(self, p: Dyadic) -> (r: Self)
        requires
            self.wf(),
            p.wf(),
            p.below_one(),
        ensures
            r.wf(),
            r.same_state(&self),
            r.config == (SparseConfig {
                clause_drop: chance_of(p.mant as int, p.exp as int),
                ..self.config
            }),
    {
        let mut r: TMSparseClassifier = self;
        r.config.clause_drop = p.chance();
        r
    }

    /// Sets the probability, in [0, 1), with which a literal is left out of a training step.
    pub fn literal_drop_p(self, p: Dyadic) -> (r: Self)
        requires
            self.wf(),
            p.wf(),
            p.below_one(),
        ensures
            r.wf(),
            r.same_state(&self),
            r.config == (SparseConfig {
                literal_drop: chance_of(p.mant as int, p.exp as int),
                literal_keep: chance_of(
                    one_minus_of(p.mant as int, p.exp as int).0,
                    one_minus_of(p.mant as int, p.exp as int).1,
                ),
                ..self.config
            }),
    {
        let mut r: TMSparseClassifier = self;
        r.config.literal_drop = p.chance();
        r.config.literal_keep = p.one_minus().chance();
        r
    }

    /// Sets how strongly each class is fed back.
    pub fn class_weights(self, weights: Vec<Dyadic>) -> (r: Self)
        requires
            self.wf(),
            weights@.len() == self.config.n_classes,
            forall|c: int|
                0 <= c < weights@.len() ==> (#[trigger] weights@[c]).wf() && weights@[c].mant > 0,
        ensures
            r.wf(),
            r.same_state(&self),
            r.config == (SparseConfig { class_weights: weights, ..self.config }),
    {
        let mut r: TMSparseClassifier = self;
        r.config.class_weights = weights;
        r
    }

    /// The number of classes.
    pub fn n_classes(&self) -> (r: usize)
        ensures
            r == self.config.n_classes,
    {
        self.config.n_classes
    }

    /// The number of features.
    pub fn n_features(&self) -> (r: usize)
        ensures
            r == self.config.n_features,
    {
        self.config.n_features
    }

    /// The number of clauses of each class.
    pub fn clauses_per_class(&self) -> (r: usize)
        ensures
            r == self.config.clauses_per_class,
    {
        self.config.clauses_per_class
    }

    /// The number of words of a packed sample.
    pub fn words_per_sample(&self) -> (r: usize)
        ensures
            r == self.config.words,
    {
        self.config.words
    }

    /// The specificity.
    pub fn s(&self) -> (r: Dyadic)
        ensures
            r == self.config.s,
    {
        self.config.s
    }

    /// The weight of a clause.
    pub fn clause_weight(&self, class: usize, clause: usize) -> (r: i32)
        requires
            self.wf(),
            class < self.config.n_classes,
            clause < self.config.clauses_per_class,
        ensures
            r == self@.classes[class as int].weights[clause as int],
            1 <= r <= self.config.threshold,
    {
        self.classes[class].weights[clause]
    }

    /// How strongly a class is fed back.
    pub fn class_weight(&self, class: usize) -> (r: Dyadic)
        requires
            self.wf(),
            class < self.config.n_classes,
        ensures
            r == self.config.class_weights@[class as int],
    {
        self.config.class_weights[class]
    }

    /// Whether a clause speaks for its class.
    pub fn clause_is_positive(&self, clause: usize) -> (r: bool)
        ensures
            r == (clause % 2 == 0),
    {
        clause % 2 == 0
    }

    /// Trains on the packed literals of one sample with label `y`.
    pub fn fit_one_lit(&mut self, lit: &[u64], y: usize)
        requires
            old(self).wf(),
            lit@.len() == old(self).config.words,
            y < old(self).config.n_classes,
        ensures
            final(self).wf(),
            final(self).config == old(self).config,
            final(self)@ == old(self).config.fit_one_of(
                old(self)@,
                bits_of(lit@, old(self).config.n()),
                y as int,
            ),
    {
        let ghost before = *self;
        let ghost x = bits_of(lit@, self.config.n());
        let neg: usize = sample_other(&mut self.rng, self.config.n_classes, y);
        let active: Vec<u64> = self.config.draw_active(&mut self.literal_rng);
        let ghost act = bits_of(active@, self.config.n());
        let sum_y: i32 = self.classes[y].class_sum_train(&self.config, lit, &active);
        let sum_neg: i32 = self.classes[neg].class_sum_train(&self.config, lit, &active);
        let gate_y: u64 = self.config.feedback_gate(y, sum_y, true);
        let gate_neg: u64 = self.config.feedback_gate(neg, sum_neg, false);
        let config: &SparseConfig = &self.config;
        let class_y: &mut SparseClass = &mut self.classes[y];
        class_y.update(config, true, gate_y, lit, &active);
        let class_neg: &mut SparseClass = &mut self.classes[neg];
        class_neg.update(config, false, gate_neg, lit, &active);
        proof {
            let want = before.config.fit_one_of(before@, x, y as int);
            assert(self@.classes =~= want.classes);
        }
    }

    /// Trains on one sample with label `y`.
    pub fn fit_one(&mut self, sample: &EncodedSample, y: usize)
        requires
            old(self).wf(),
            sample.0@.len() == old(self).config.words,
            y < old(self).config.n_classes,
        ensures
            final(self).wf(),
            final(self).config == old(self).config,
            final(self)@ == old(self).config.fit_one_of(
                old(self)@,
                bits_of(sample.0@, old(self).config.n()),
                y as int,
            ),
    {
        self.fit_one_lit(&sample.0, y)
    }

    /// Trains for one epoch: every sample once, in a random order.
    pub fn fit_epoch(&mut self, batch: &EncodedBatch, ys: &[usize])
        requires
            old(self).wf(),
            old(self).config.fits(batch),
            ys@.len() == batch.n,
            forall|i: int| 0 <= i < ys@.len() ==> #[trigger] ys@[i] < old(self).config.n_classes,
        ensures
            final(self).wf(),
            final(self).config == old(self).config,
            final(self)@ == old(self).config.fit_epoch_of(
                old(self)@,
                old(self).config.batch_bits(batch),
                ys@,
            ),
    {
        let ghost before = *self;
        let order: Vec<usize> = epoch_order(&mut self.rng, batch.n);
        let ghost start = self@;
        let ghost xs = before.config.batch_bits(batch);
        proof {
            assert(start == (SparseMachineModel {
                rng: rng_skip(before@.rng, shuffle_draws(batch.n as nat)),
                ..before@
            }));
        }
        let mut k: usize = 0;
        while k < order.len()
            invariant
                k <= order@.len(),
                order@.len() == batch.n,
                self.wf(),
                self.config == before.config,
                before.config.fits(batch),
                xs == before.config.batch_bits(batch),
                ys@.len() == batch.n,
                forall|i: int| 0 <= i < ys@.len() ==> #[trigger] ys@[i] < before.config.n_classes,
                forall|i: int| 0 <= i < order@.len() ==> #[trigger] order@[i] < batch.n,
                self@ == before.config.fit_order_of(start, xs, ys@, order@, k as nat),
            decreases order@.len() - k,
        {
            let i: usize = order[k];
            self.fit_one_lit(batch.row(i), ys[i]);
            k = k + 1;
        }
    }

    /// The class predicted for the packed literals of a sample.
    pub fn predict_lit(&self, lit: &[u64]) -> (r: usize)
        requires
            self.wf(),
            lit@.len() == self.config.words,
        ensures
            r == self.config.predict_of(self@, bits_of(lit@, self.config.n())),
            r < self.config.n_classes,
    {
        let ghost sc = self.config.scores_of(self@, bits_of(lit@, self.config.n()));
        let mut best: usize = 0;
        let mut best_score: i32 = self.classes[0].score(&self.config, lit);
        let mut c: usize = 1;
        while c < self.classes.len()
            invariant
                self.wf(),
                lit@.len() == self.config.words,
                sc == self.config.scores_of(self@, bits_of(lit@, self.config.n())),
                1 <= c <= self.classes@.len(),
                best < c,
                best_score == sc[best as int],
                forall|j: int| 0 <= j < c ==> #[trigger] sc[j] <= best_score,
                forall|j: int| 0 <= j < best ==> #[trigger] sc[j] < best_score,
            decreases self.classes@.len() - c,
        {
            let v: i32 = self.classes[c].score(&self.config, lit);
            proof {
                assert(v == sc[c as int]);
            }
            if v > best_score {
                best_score = v;
                best = c;
            }
            c = c + 1;
        }
        proof {
            lemma_first_max(sc, best as int);
        }
        best
    }

    /// The class predicted for a sample: the first with the largest score.
    pub fn predict(&self, sample: &EncodedSample) -> (r: usize)
        requires
            self.wf(),
            sample.0@.len() == self.config.words,
        ensures
            r == self.config.predict_of(self@, bits_of(sample.0@, self.config.n())),
            r < self.config.n_classes,
    {
        self.predict_lit(&sample.0)
    }

    /// Writes the score of each class for a sample: its vote sum, clamped to the threshold.
    pub fn scores(&self, sample: &EncodedSample, out: &mut [i32])
        requires
            self.wf(),
            sample.0@.len() == self.config.words,
            old(out)@.len() == self.config.n_classes,
        ensures
            final(out)@.len() == self.config.n_classes,
            forall|c: int|
                0 <= c < self.config.n_classes ==> #[trigger] final(out)@[c] == self.config.scores_of(
                    self@,
                    bits_of(sample.0@, self.config.n()),
                )[c],
    {
        let ghost sc = self.config.scores_of(self@, bits_of(sample.0@, self.config.n()));
        let mut c: usize = 0;
        while c < self.classes.len()
            invariant
                self.wf(),
                sample.0@.len() == self.config.words,
                sc == self.config.scores_of(self@, bits_of(sample.0@, self.config.n())),
                c <= self.classes@.len(),
                out@.len() == self.classes@.len(),
                forall|j: int| 0 <= j < c ==> #[trigger] out@[j] == sc[j],
            decreases self.classes@.len() - c,
        {
            out[c] = self.classes[c].score(&self.config, &sample.0);
            c = c + 1;
        }
    }

    /// The clauses of `class` that fire for a sample, in increasing order.
    pub fn fired_clauses(&self, sample: &EncodedSample, class: usize) -> (r: Vec<usize>)
        requires
            self.wf(),
            sample.0@.len() == self.config.words,
            class < self.config.n_classes,
        ensures
            r@ == fired_indices(
                votes_of(self@.classes[class as int], bits_of(sample.0@, self.config.n())),
                self.config.clauses_per_class as nat,
            ),
    {
        let ghost f = votes_of(self@.classes[class as int], bits_of(sample.0@, self.config.n()));
        let bank: &SparseClauseBank = &self.classes[class].bank;
        let mut r: Vec<usize> = Vec::new();
        let mut j: usize = 0;
        while j < self.config.clauses_per_class
            invariant
                self.wf(),
                class < self.config.n_classes,
                *bank == self.classes@[class as int].bank,
                sample.0@.len() == self.config.words,
                f == votes_of(self@.classes[class as int], bits_of(sample.0@, self.config.n())),
                j <= self.config.clauses_per_class,
                r@ == fired_indices(f, j as nat),
            decreases self.config.clauses_per_class - j,
        {
            if bank.fire_predict(j, &sample.0) {
                r.push(j);
            }
            j = j + 1;
        }
        r
    }

    /// The classes predicted for all samples of a batch.
    pub fn predict_batch(&self, batch: &EncodedBatch) -> (r: Vec<usize>)
        requires
            self.wf(),
            self.config.fits(batch),
        ensures
            r@.len() == batch.n,
            forall|i: int|
                0 <= i < batch.n ==> #[trigger] r@[i] == self.config.predict_of(
                    self@,
                    self.config.row_bits(batch, i),
                ),
    {
        let mut r: Vec<usize> = Vec::with_capacity(batch.n);
        let mut i: usize = 0;
        while i < batch.n
            invariant
                self.wf(),
                self.config.fits(batch),
                i <= batch.n,
                r@.len() == i,
                forall|k: int|
                    0 <= k < i ==> #[trigger] r@[k] == self.config.predict_of(
                        self@,
                        self.config.row_bits(batch, k),
                    ),
            decreases batch.n - i,
        {
            r.push(self.predict_lit(batch.row(i)));
            i = i + 1;
        }
        r
    }

    /// The classes predicted for all samples of a batch, as values.
    pub open spec fn predictions(&self, batch: &EncodedBatch) -> Seq<int> {
        Seq::new(
            batch.n as nat,
            |i: int| self.config.predict_of(self@, self.config.row_bits(batch, i)),
        )
    }

    /// How many samples of a batch are predicted correctly, and how many there are.
    pub fn accuracy(&self, batch: &EncodedBatch, ys: &[usize]) -> (r: (usize, usize))
        requires
            self.wf(),
            self.config.fits(batch),
            ys@.len() == batch.n,
        ensures
            r.0 == count_correct(self.predictions(batch), ys@, batch.n as nat),
            r.1 == batch.n,
    {
        let ghost p = self.predictions(batch);
        let mut correct: usize = 0;
        let mut i: usize = 0;
        while i < batch.n
            invariant
                self.wf(),
                self.config.fits(batch),
                ys@.len() == batch.n,
                i <= batch.n,
                correct <= i,
                p == self.predictions(batch),
                correct == count_correct(p, ys@, i as nat),
            decreases batch.n - i,
        {
            if self.predict_lit(batch.row(i)) == ys[i] {
                correct = correct + 1;
            }
            i = i + 1;
        }
        (correct, batch.n)
    }

    /// The number of counters, over all clauses.
    fn n_counters(&self) -> (r: usize)
        requires
            self.wf(),
        ensures
            r == self.config.n_classes * self.config.clauses_per_class * self.config.n_literals,
    {
        proof {
            lemma_clause_counts(
                self.config.n_classes as int,
                self.config.clauses_per_class as int,
                self.config.n_literals as int,
            );
        }
        self.config.n_classes * self.config.clauses_per_class * self.config.n_literals
    }

    /// How many literals are locked in a clause, and how many literals the clauses have.
    pub fn absorbed_include_fraction(&self) -> (r: (usize, usize))
        requires
            self.wf(),
        ensures
            r.0 == machine_locked(
                self@.classes,
                self.config.max_state,
                self.config.n_classes as nat,
            ),
            r.1 == self.config.n_classes * self.config.clauses_per_class * self.config.n_literals,
    {
        let ghost m = self@.classes;
        let ghost size = (self.config.clauses_per_class * self.config.n_literals) as int;
        let mut at: usize = 0;
        let mut c: usize = 0;
        proof {
            self.lemma_size();
            assert(0 * size == 0) by (nonlinear_arith);
        }
        while c < self.classes.len()
            invariant
                self.wf(),
                m == self@.classes,
                size == self.config.clauses_per_class * self.config.n_literals,
                size >= 0,
                self.classes@.len() * size <= usize::MAX,
                c <= self.classes@.len(),
                at == machine_locked(m, self.config.max_state, c as nat),
                at <= c * size,
            decreases self.classes@.len() - c,
        {
            proof {
                self.lemma_class_bounds(c as int);
                let len = self.classes@.len() as int;
                assert((c + 1) * size == c * size + size) by (nonlinear_arith);
                assert((c + 1) * size <= len * size) by (nonlinear_arith)
                    requires
                        c + 1 <= len,
                        size >= 0,
                ;
            }
            let (k, _) = self.classes[c].bank.count_absorbing_include();
            at = at + k;
            c = c + 1;
        }
        (at, self.n_counters())
    }

    /// How many literals have been absorbed out, and how many literals the clauses have.
    pub fn absorbed_exclude_fraction(&self) -> (r: (usize, usize))
        requires
            self.wf(),
        ensures
            r.0 == machine_absorbed(self@.classes, self.config.n_classes as nat),
            r.1 == self.config.n_classes * self.config.clauses_per_class * self.config.n_literals,
    {
        let ghost m = self@.classes;
        let ghost size = (self.config.clauses_per_class * self.config.n_literals) as int;
        let mut at: usize = 0;
        let mut c: usize = 0;
        proof {
            self.lemma_size();
            assert(0 * size == 0) by (nonlinear_arith);
        }
        while c < self.classes.len()
            invariant
                self.wf(),
                m == self@.classes,
                size == self.config.clauses_per_class * self.config.n_literals,
                size >= 0,
                self.classes@.len() * size <= usize::MAX,
                c <= self.classes@.len(),
                at == machine_absorbed(m, c as nat),
                at <= c * size,
            decreases self.classes@.len() - c,
        {
            proof {
                self.lemma_class_bounds(c as int);
                let len = self.classes@.len() as int;
                assert((c + 1) * size == c * size + size) by (nonlinear_arith);
                assert((c + 1) * size <= len * size) by (nonlinear_arith)
                    requires
                        c + 1 <= len,
                        size >= 0,
                ;
            }
            let k: usize = self.classes[c].bank.count_absorbed_exclude();
            at = at + k;
            c = c + 1;
        }
        (at, self.n_counters())
    }

    proof fn lemma_size(&self)
        requires
            self.wf(),
        ensures
            0 <= self.config.clauses_per_class * self.config.n_literals,
            self.classes@.len() * (self.config.clauses_per_class * self.config.n_literals) <= usize::MAX,
    {
        let a = self.config.n_classes as int;
        let b = self.config.clauses_per_class as int;
        let n = self.config.n_literals as int;
        assert(a * (b * n) == a * b * n) by (nonlinear_arith);
        assert(0 <= b * n) by (nonlinear_arith)
            requires
                b >= 0,
                n >= 0,
        ;
    }

    proof fn lemma_class_bounds(&self, c: int)
        requires
            self.wf(),
            0 <= c < self.classes@.len(),
        ensures
            self.classes@[c].bank.models() == self@.classes[c].pools,
            locked_count(
                self@.classes[c].pools,
                self.config.max_state,
                self.config.clauses_per_class as nat,
            ) <= self.config.clauses_per_class * self.config.n_literals,
            absorbed_count(self@.classes[c].pools, self.config.clauses_per_class as nat)
                <= self.config.clauses_per_class * self.config.n_literals,
    {
        let bank = self.classes@[c].bank;
        let cs = bank.models();
        assert forall|j: int| 0 <= j < cs.len() implies (#[trigger] cs[j]).included_state.len()
            <= self.config.n_literals && cs[j].unallocated.len() <= self.config.n_literals by {
            assert(bank.clauses@[j].wf(bank.n_literals as nat, bank.half, bank.max_state));
        }
        lemma_locked_bound(
            cs,
            self.config.max_state,
            self.config.clauses_per_class as nat,
            self.config.n_literals as nat,
        );
        lemma_absorbed_bound(
            cs,
            self.config.clauses_per_class as nat,
            self.config.n_literals as nat,
        );
    }

    /// The included literals of a clause, as pairs of a feature and whether it is negated,
    /// in increasing order.
    pub fn clause_rule(&self, class: usize, clause: usize) -> (r: Vec<(usize, bool)>)
        requires
            self.wf(),
            class < self.config.n_classes,
            clause < self.config.clauses_per_class,
        ensures
            r@ == sparse_rule_of(
                self@.classes[class as int].pools[clause as int].included,
                self.config.n_features as int,
                self.config.n_features as nat,
            ),
    {
        let n: usize = self.config.n_literals;
        let nf: usize = self.config.n_features;
        let bank: &SparseClauseBank = &self.classes[class].bank;
        let included: &Vec<u32> = bank.included_literals(clause);
        let ghost inc = included@;
        proof {
            assert(bank.clauses@[clause as int].wf(bank.n_literals as nat, bank.half, bank.max_state));
            assert(within(inc, n as nat));
        }
        let mut present: Vec<bool> = vec![false; n];
        let mut i: usize = 0;
        while i < included.len()
            invariant
                i <= included@.len(),
                inc == included@,
                within(inc, n as nat),
                present@.len() == n,
                forall|l: int|
                    0 <= l < n ==> #[trigger] present@[l] == inc.subrange(0, i as int).contains(l as u32),
                n <= u32::MAX,
            decreases included@.len() - i,
        {
            let l: u32 = included[i];
            let ghost before = present@;
            present.set(l as usize, true);
            proof {
                let a = inc.subrange(0, i as int);
                let b = inc.subrange(0, i + 1);
                assert(b =~= a.push(l));
                assert forall|k: int| 0 <= k < n implies #[trigger] present@[k] == b.contains(k as u32) by {
                    if k == l {
                        assert(b[i as int] == l);
                    } else if before[k] {
                        let q = choose|q: int| 0 <= q < a.len() && a[q] == k as u32;
                        assert(b[q] == k as u32);
                    } else if b.contains(k as u32) {
                        let q = choose|q: int| 0 <= q < b.len() && b[q] == k as u32;
                        if q < i {
                            assert(a[q] == k as u32);
                            assert(a.contains(k as u32));
                        }
                    }
                }
            }
            i = i + 1;
        }
        proof {
            assert(inc.subrange(0, inc.len() as int) =~= inc);
        }
        let mut r: Vec<(usize, bool)> = Vec::new();
        let mut f: usize = 0;
        while f < nf
            invariant
                f <= nf,
                n == 2 * nf,
                n <= u32::MAX,
                present@.len() == n,
                forall|l: int| 0 <= l < n ==> #[trigger] present@[l] == inc.contains(l as u32),
                r@ == sparse_rule_of(inc, nf as int, f as nat),
            decreases nf - f,
        {
            if present[f] {
                r.push((f, false));
            }
            if present[f + nf] {
                r.push((f, true));
            }
            f = f + 1;
        }
        r
    }

    /// Grows the machine to `new_n_features` features, keeping everything learned.
    pub fn grow_features(&mut self, new_n_features: usize)
        requires
            old(self).wf(),
            new_n_features >= old(self).config.n_features,
            2 * new_n_features <= u32::MAX,
            2 * new_n_features + 64 <= usize::MAX,
            old(self).config.n_classes * old(self).config.clauses_per_class * (2 * new_n_features)
                <= usize::MAX,
        ensures
            final(self).wf(),
            new_n_features == old(self).config.n_features ==> *final(self) == *old(self),
            final(self).config == (SparseConfig {
                n_features: new_n_features,
                n_literals: (2 * new_n_features) as usize,
                words: words_needed(2 * new_n_features) as usize,
                ..old(self).config
            }),
            new_n_features > old(self).config.n_features ==> final(self)@ == (SparseMachineModel {
                classes: Seq::new(
                    old(self)@.classes.len(),
                    |c: int|
                        grown_sparse_class(
                            old(self)@.classes[c],
                            old(self).config.n_features as int,
                            new_n_features as int,
                            old(self).config.half,
                        ),
                ),
                ..old(self)@
            }),
    {
        if new_n_features == self.config.n_features {
            return ;
        }
        let ghost before = *self;
        let n_literals: usize = 2 * new_n_features;
        proof {
            let a = self.config.n_classes as int;
            let b = self.config.clauses_per_class as int;
            let n = n_literals as int;
            assert(b * n <= a * b * n) by (nonlinear_arith)
                requires
                    a >= 1,
                    b >= 0,
                    n >= 0,
            ;
        }
        let words: usize = words_for(n_literals);
        self.config.n_features = new_n_features;
        self.config.n_literals = n_literals;
        self.config.words = words;
        let n: usize = self.classes.len();
        let mut c: usize = 0;
        while c < n
            invariant
                c <= n,
                before.wf(),
                self.config.wf(),
                self.config == (SparseConfig {
                    n_features: new_n_features,
                    n_literals,
                    words,
                    ..before.config
                }),
                n_literals == 2 * new_n_features,
                n_literals <= u32::MAX,
                before.config.n_features < new_n_features,
                self.config.clauses_per_class * n_literals <= usize::MAX,
                self.rng == before.rng,
                self.literal_rng == before.literal_rng,
                n == before.classes@.len(),
                self.classes@.len() == n,
                forall|k: int| c <= k < n ==> #[trigger] self.classes@[k] == before.classes@[k],
                forall|k: int|
                    0 <= k < c ==> (#[trigger] self.classes@[k]).wf(&self.config)
                        && self.classes@[k]@ == grown_sparse_class(
                        before.classes@[k]@,
                        before.config.n_features as int,
                        new_n_features as int,
                        before.config.half,
                    ),
            decreases n - c,
        {
            proof {
                assert(before.classes@[c as int].wf(&before.config));
            }
            let class: &mut SparseClass = &mut self.classes[c];
            class.bank.grow(n_literals);
            proof {
                let want = grown_sparse_class(
                    before.classes@[c as int]@,
                    before.config.n_features as int,
                    new_n_features as int,
                    before.config.half,
                );
                assert(self.classes@[c as int]@.pools =~= want.pools);
            }
            c = c + 1;
        }
        proof {
            assert(self@.classes =~= Seq::new(
                before@.classes.len(),
                |k: int|
                    grown_sparse_class(
                        before@.classes[k],
                        before.config.n_features as int,
                        new_n_features as int,
                        before.config.half,
                    ),
            ));
        }
    }
}

/// Growing keeps the scores and the prediction of a machine, whatever the new features are.
pub proof fn lemma_grow_keeps_sparse_scores(
    cfg: &SparseConfig,
    wide_cfg: &SparseConfig,
    m: SparseMachineModel,
    old_nf: nat,
    new_nf: nat,
    x: Seq<u8>,
    wide: Seq<u8>,
)
    requires
        wide_cfg.threshold == cfg.threshold,
        forall|c: int, j: int|
            0 <= c < m.classes.len() && 0 <= j < m.classes[c].pools.len() ==> within(
                (#[trigger] m.classes[c].pools[j]).included,
                2 * old_nf,
            ),
        forall|c: int|
            0 <= c < m.classes.len() ==> (#[trigger] m.classes[c]).weights.len()
                == m.classes[c].pools.len(),
        old_nf <= new_nf,
        2 * new_nf <= u32::MAX,
        x.len() == old_nf,
        wide.len() == new_nf,
        forall|i: int| 0 <= i < old_nf ==> #[trigger] wide[i] == x[i],
    ensures
        ({
            let grown = SparseMachineModel {
                classes: Seq::new(
                    m.classes.len(),
                    |c: int|
                        grown_sparse_class(m.classes[c], old_nf as int, new_nf as int, cfg.half),
                ),
                ..m
            };
            let a = literals_of(x, old_nf as int);
            let b = literals_of(wide, new_nf as int);
            &&& wide_cfg.scores_of(grown, b) == cfg.scores_of(m, a)
            &&& wide_cfg.predict_of(grown, b) == cfg.predict_of(m, a)
        }),
{
    let grown = SparseMachineModel {
        classes: Seq::new(
            m.classes.len(),
            |c: int| grown_sparse_class(m.classes[c], old_nf as int, new_nf as int, cfg.half),
        ),
        ..m
    };
    let a = literals_of(x, old_nf as int);
    let b = literals_of(wide, new_nf as int);
    assert forall|c: int| 0 <= c < m.classes.len() implies wide_cfg.scores_of(grown, b)[c]
        == cfg.scores_of(m, a)[c] by {
        let k = m.classes[c];
        let g = grown.classes[c];
        assert forall|j: int| 0 <= j < k.pools.len() implies #[trigger] votes_of(g, b)[j] == votes_of(
            k,
            a,
        )[j] by {
            assert(within(m.classes[c].pools[j].included, 2 * old_nf));
            lemma_grow_keeps_sparse_votes(k.pools[j], old_nf, new_nf, cfg.half, x, wide);
        }
        lemma_polar_same(votes_of(g, b), votes_of(k, a), g.weights, k.weights, k.pools.len());
    }
    assert(wide_cfg.scores_of(grown, b) =~= cfg.scores_of(m, a));
}

proof fn lemma_grown_sparse_rule(included: Seq<u32>, old_nf: nat, new_nf: nat, k: nat)
    requires
        within(included, 2 * old_nf),
        old_nf <= new_nf,
        2 * new_nf <= u32::MAX,
        k <= new_nf,
    ensures
        sparse_rule_of(remapped_all(included, old_nf as int, new_nf as int), new_nf as int, k)
            == sparse_rule_of(included, old_nf as int, if k <= old_nf {
            k
        } else {
            old_nf
        }),
    decreases k,
{
    if k > 0 {
        lemma_grown_sparse_rule(included, old_nf, new_nf, (k - 1) as nat);
        let moved = remapped_all(included, old_nf as int, new_nf as int);
        let f = k - 1;
        let (o, w) = (old_nf as int, new_nf as int);
        if f < o && included.contains(f as u32) {
            let i = choose|i: int| 0 <= i < included.len() && included[i] == f as u32;
            assert(moved[i] == f as u32);
        }
        if f < o && included.contains((f + o) as u32) {
            let i = choose|i: int| 0 <= i < included.len() && included[i] == (f + o) as u32;
            assert(moved[i] == (f + w) as u32);
        }
        if moved.contains(f as u32) {
            let i = choose|i: int| 0 <= i < moved.len() && moved[i] == f as u32;
            assert(included[i] < 2 * old_nf);
            assert(f < o && included[i] == f as u32);
        }
        if moved.contains((f + w) as u32) {
            let i = choose|i: int| 0 <= i < moved.len() && moved[i] == (f + w) as u32;
            assert(included[i] < 2 * old_nf);
            assert(f < o && included[i] == (f + o) as u32);
        }
    }
}

/// Growing keeps the rule of a clause.
pub proof fn lemma_grow_keeps_sparse_rule(m: SparseModel, old_nf: nat, new_nf: nat, half: u8)
    requires
        within(m.included, 2 * old_nf),
        old_nf <= new_nf,
        2 * new_nf <= u32::MAX,
    ensures
        sparse_rule_of(
            grown_sparse(m, old_nf as int, new_nf as int, half).included,
            new_nf as int,
            new_nf,
        ) == sparse_rule_of(m.included, old_nf as int, old_nf),
{
    lemma_grown_sparse_rule(m.included, old_nf, new_nf, new_nf);
}

} // verus!
