//! The coalesced machine as it is saved.
use crate::clause_bank::feedback::ClassModel;
use crate::clause_bank::shared::SharedClause;
use crate::clause_bank::feedback::after_drops;
use crate::clause_bank::shared::{active_clauses, shared_fired};
use crate::dyadic::{minus_of, portion_of};
use crate::models::classification::coalesced_classifier::{
    CoalescedConfig, CoalescedModel, CoalescedTsetlinMachine,
};
use crate::rng::rng_frac;
use crate::models::config::TrainConfig;
use crate::rng::{rng_skip, Rng};
use crate::sampling::{epoch_order_of, shuffle_draws};
use crate::saved::artifact::{Artifact, Image};
use crate::saved::dense::{
    bit_word, clauses_ok, copy_rngs, copy_rows, lemma_shared_ok, lemma_train_words,
    lemma_unweighted, restore_shared, rows_ok, store_shared, train_ok, unweighted, word_of,
    TRAIN_WORDS,
};
use crate::saved::save_load::SaveLoad;
use crate::saved::stored::{views, StoredClass};
use crate::serial::{raw_positions, TAG_COALESCED};
use vstd::prelude::*;

verus! {

impl CoalescedConfig {
    /// The settings are those of `other`.
    pub open spec fn same(&self, other: &CoalescedConfig) -> bool {
        &&& self.train.same(&other.train)
        &&& self.n_classes == other.n_classes
        &&& self.n_features == other.n_features
        &&& self.n_clauses == other.n_clauses
        &&& self.focused_negative_sampling == other.focused_negative_sampling
    }
}

impl SaveLoad for CoalescedTsetlinMachine {
    type Saved = Artifact<StoredClass>;

    open spec fn tag() -> u8 {
        TAG_COALESCED
    }

    open spec fn valid(&self) -> bool {
        self.wf()
    }

    open spec fn image(&self) -> Image<ClassModel> {
        Image {
            words: self.config.train.to_image() + seq![
                self.config.n_classes as u64,
                self.config.n_features as u64,
                self.config.n_clauses as u64,
                bit_word(self.config.focused_negative_sampling),
            ],
            digits: self.config.train.dig_lit_active@,
            scales: seq![],
            classes: seq![ClassModel { clauses: unweighted(self@.clauses), rng: 0 }],
            rows: self@.weights,
            rngs: self@.class_rngs + seq![self@.rng, self@.literal_rng],
        }
    }

    open spec fn admits(v: Image<ClassModel>) -> bool {
        let w = v.words;
        &&& w.len() == 17 && train_ok(w)
        &&& 2 <= w[13] <= usize::MAX
        &&& 1 <= w[14] && w[0] == 2 * w[14]
        &&& 2 <= w[15] <= usize::MAX
        &&& w[15] * w[0] <= usize::MAX
        &&& w[13] + w[15] < usize::MAX
        &&& w[16] <= 1
        &&& v.classes.len() == 1 && v.classes[0].rng == 0
        &&& clauses_ok(v.classes[0].clauses, w[15] as nat, w[0] as nat, (2 * w[1] - 1) as u8, 0, 0)
        &&& rows_ok(v.rows, w[13] as nat, w[15] as nat)
        &&& v.rngs.len() == w[13] + 2
        &&& v.scales.len() == 0
    }

    open spec fn is_reset(&self) -> bool {
        true
    }

    fn type_tag() -> (r: u8) {
        TAG_COALESCED
    }

    fn to_saved(&self) -> (r: Artifact<StoredClass>) {
        let mut words: Vec<u64> = self.config.train.to_words();
        words.push(self.config.n_classes as u64);
        words.push(self.config.n_features as u64);
        words.push(self.config.n_clauses as u64);
        words.push(word_of(self.config.focused_negative_sampling));
        let mut rngs: Vec<Rng> = copy_rngs(&self.class_rngs, self.class_rngs.len());
        let ghost kept = rngs@;
        proof {
            assert(raw_positions(self.class_rngs@).take(kept.len() as int) =~= self@.class_rngs);
        }
        rngs.push(Rng::from_raw(self.rng.raw()));
        rngs.push(Rng::from_raw(self.literal_rng.raw()));
        let class: StoredClass = StoredClass {
            clauses: store_shared(&self.clauses, &self.config.train.geom),
            rng: Rng::from_raw(0),
        };
        let rows: Vec<Vec<i32>> = match copy_rows(&self.weights, self.config.n_classes, self.config.n_clauses) {
            Some(v) => v,
            None => Vec::new(),
        };
        proof {
            assert(rows_ok(views(self.weights@), self.config.n_classes as nat, self.config.n_clauses as nat));
        }
        let r: Artifact<StoredClass> = Artifact {
            words,
            digits: self.config.train.dig_lit_active.clone(),
            scales: Vec::new(),
            classes: vec![class],
            rows,
            rngs,
        };
        proof {
            assert(r@.words =~= self.image().words);
            assert(r@.digits =~= self.image().digits);
            assert(r@.scales =~= self.image().scales);
            assert(r@.classes =~= self.image().classes);
            assert(r@.rows =~= self.image().rows);
            assert forall|i: int| 0 <= i < r@.rngs.len() implies r@.rngs[i] == self.image().rngs[i] by {
                if i < kept.len() {
                    assert(raw_positions(kept)[i] == self@.class_rngs[i]);
                }
            }
            assert(r@.rngs =~= self.image().rngs);
        }
        r
    }

    fn from_saved(s: &Artifact<StoredClass>) -> (r: Option<CoalescedTsetlinMachine>) {
        let w: &Vec<u64> = &s.words;
        if w.len() != 17 || s.scales.len() != 0 || s.classes.len() != 1 {
            return None;
        }
        let train: TrainConfig = match TrainConfig::from_words(w, &s.digits) {
            Some(t) => t,
            None => return None,
        };
        proof {
            assert(forall|i: int| 0 <= i < TRAIN_WORDS ==> w@.take(TRAIN_WORDS as int)[i] == #[trigger] w@[i]);
            assert(w@[0] == train.to_image()[0] && w@[1] == train.to_image()[1] && w@[2]
                == train.to_image()[2] && w@[6] == train.to_image()[6]);
        }
        if w[13] < 2 || w[13] > usize::MAX as u64 || w[14] < 1 || w[14] > usize::MAX as u64 / 2 || w[15] < 2
            || w[15] > usize::MAX as u64 || w[16] > 1 {
            return None;
        }
        let n_classes: usize = w[13] as usize;
        let n_features: usize = w[14] as usize;
        let n_clauses: usize = w[15] as usize;
        if train.geom.n_literals != 2 * n_features || n_classes >= usize::MAX - n_clauses {
            return None;
        }
        if n_clauses.checked_mul(train.geom.n_literals).is_none() {
            return None;
        }
        if s.classes[0].rng.raw() != 0 || s.rngs.len() < 2 || s.rngs.len() - 2 != n_classes {
            return None;
        }
        let clauses: Vec<SharedClause> = match restore_shared(&s.classes[0].clauses, &train.geom, n_clauses) {
            Some(v) => v,
            None => return None,
        };
        let weights: Vec<Vec<i32>> = match copy_rows(&s.rows, n_classes, n_clauses) {
            Some(v) => v,
            None => return None,
        };
        let r: CoalescedTsetlinMachine = CoalescedTsetlinMachine {
            config: CoalescedConfig {
                train,
                n_classes,
                n_features,
                n_clauses,
                focused_negative_sampling: w[16] == 1,
            },
            clauses,
            weights,
            class_rngs: copy_rngs(&s.rngs, n_classes),
            rng: Rng::from_raw(s.rngs[n_classes].raw()),
            literal_rng: Rng::from_raw(s.rngs[n_classes + 1].raw()),
        };
        proof {
            assert(r.image().words =~= s@.words);
            assert(r.image().scales =~= s@.scales);
            assert(r.image().classes =~= s@.classes);
            assert(r.image().rows =~= s@.rows);
            assert(r.image().rngs =~= s@.rngs);
            r.lemma_admits();
        }
        Some(r)
    }

    proof fn lemma_admits(&self) {
        let v = self.image();
        let t = self.config.train;
        assert(v.words.take(TRAIN_WORDS as int) =~= t.to_image());
        lemma_train_words(&t, &t, v.words, v.words);
        lemma_shared_ok(self.clauses@, &t.geom);
        assert forall|c: int| 0 <= c < v.rows.len() implies (#[trigger] v.rows[c]).len()
            == self.config.n_clauses by {
            assert(self.weights@[c]@.len() == self.config.n_clauses);
        }
    }
}

/// What is stored of a coalesced machine determines it.
pub proof fn lemma_coalesced_image(a: &CoalescedTsetlinMachine, b: &CoalescedTsetlinMachine)
    requires
        a.wf(),
        b.wf(),
        a.image() == b.image(),
    ensures
        a@ == b@,
        a.config.same(&b.config),
{
    let (u, v) = (a.image(), b.image());
    assert(u.words.take(TRAIN_WORDS as int) =~= a.config.train.to_image());
    assert(v.words.take(TRAIN_WORDS as int) =~= b.config.train.to_image());
    lemma_train_words(&a.config.train, &b.config.train, u.words, v.words);
    assert(u.words[13] == v.words[13] && u.words[14] == v.words[14] && u.words[15] == v.words[15] && u.words[16] == v.words[16]);
    let n = a.config.n_classes as int;
    assert(u.rngs[n] == v.rngs[n] && u.rngs[n + 1] == v.rngs[n + 1]);
    assert(u.rngs.take(n) == v.rngs.take(n));
    assert(u.rngs.take(n) =~= a@.class_rngs && v.rngs.take(n) =~= b@.class_rngs);
    assert(u.classes[0] == v.classes[0]);
    lemma_unweighted(a@.clauses, b@.clauses);
    assert(a@ =~= b@);
}

proof fn lemma_same_total(
    a: &CoalescedConfig,
    b: &CoalescedConfig,
    m: CoalescedModel,
    y: int,
    outs: Seq<bool>,
    active: Seq<bool>,
    n: nat,
)
    requires
        a.same(b),
    ensures
        a.urgency_total(m, y, outs, active, n) == b.urgency_total(m, y, outs, active, n),
    decreases n,
{
    if n > 0 {
        lemma_same_total(a, b, m, y, outs, active, (n - 1) as nat);
    }
}

proof fn lemma_same_pick(
    a: &CoalescedConfig,
    b: &CoalescedConfig,
    m: CoalescedModel,
    y: int,
    outs: Seq<bool>,
    active: Seq<bool>,
    r: (int, int),
    c: nat,
)
    requires
        a.same(b),
    ensures
        a.urgency_pick(m, y, outs, active, r, c) == b.urgency_pick(m, y, outs, active, r, c),
    decreases m.weights.len() - c,
{
    if c < m.weights.len() {
        if c == y {
            lemma_same_pick(a, b, m, y, outs, active, r, c + 1);
        } else {
            let p = a.urgency(m, c as int, outs, active);
            lemma_same_pick(a, b, m, y, outs, active, minus_of(r, p), c + 1);
        }
    }
}

proof fn lemma_same_order(
    a: &CoalescedConfig,
    b: &CoalescedConfig,
    m: CoalescedModel,
    xs: Seq<Seq<bool>>,
    ys: Seq<usize>,
    order: Seq<usize>,
    k: nat,
)
    requires
        a.same(b),
    ensures
        a.fit_order_of(m, xs, ys, order, k) == b.fit_order_of(m, xs, ys, order, k),
    decreases k,
{
    if k > 0 {
        lemma_same_order(a, b, m, xs, ys, order, (k - 1) as nat);
        let before = a.fit_order_of(m, xs, ys, order, (k - 1) as nat);
        lemma_same_step(a, b, before, xs[order[k - 1] as int], ys[order[k - 1] as int] as int);
    }
}

proof fn lemma_same_step(a: &CoalescedConfig, b: &CoalescedConfig, m: CoalescedModel, x: Seq<bool>, y: int)
    requires
        a.same(b),
    ensures
        a.fit_one_of(m, x, y) == b.fit_one_of(m, x, y),
{
    let n = m.clauses.autos.len();
    let act = a.train.active_of(m.literal_rng);
    let active = active_clauses(m.rng, a.train.rules.drop, n);
    let outs = shared_fired(m.clauses, a.train.geom.half, x, act);
    let s = after_drops(m.rng, a.train.rules.drop, n);
    lemma_same_total(a, b, m, y, outs, active, a.n_classes as nat);
    let total = a.urgency_total(m, y, outs, active, a.n_classes as nat);
    lemma_same_pick(a, b, m, y, outs, active, portion_of(rng_frac(s) as int, total), 0);
}

/// Coalesced machines with the same settings predict and train alike.
pub proof fn lemma_same_coalesced(
    a: &CoalescedConfig,
    b: &CoalescedConfig,
    m: CoalescedModel,
    x: Seq<bool>,
    xs: Seq<Seq<bool>>,
    ys: Seq<usize>,
)
    requires
        a.same(b),
    ensures
        a.scores_of(m, x) == b.scores_of(m, x),
        a.predict_of(m, x) == b.predict_of(m, x),
        a.fit_epoch_of(m, xs, ys) == b.fit_epoch_of(m, xs, ys),
{
    assert(a.sums_of(m, x) =~= b.sums_of(m, x));
    assert(a.scores_of(m, x) =~= b.scores_of(m, x));
    let n = xs.len();
    let drawn = CoalescedModel { rng: rng_skip(m.rng, shuffle_draws(n)), ..m };
    lemma_same_order(a, b, drawn, xs, ys, epoch_order_of(m.rng, n), n);
}

} // verus!
