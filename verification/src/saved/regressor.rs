//! The regressor as it is saved.
use crate::clause_bank::feedback::{ClassModel, Clause};
use crate::models::config::TrainConfig;
use crate::models::regression::target::Target;
use crate::models::regression::vanilla_regressor::{RegressorConfig, RegressorModel, TMRegressor};
use crate::rng::{rng_skip, Rng};
use crate::sampling::{epoch_order_of, shuffle_draws};
use crate::saved::artifact::{Artifact, Image};
use crate::saved::dense::{
    clauses_ok, lemma_clauses_ok, lemma_train_words, restore_clauses, signed_of, store_clauses,
    train_ok, TRAIN_WORDS,
};
use crate::saved::save_load::SaveLoad;
use crate::saved::stored::StoredClass;
use crate::serial::TAG_REGRESSOR;
use vstd::prelude::*;

verus! {

impl RegressorConfig {
    /// The settings are those of `other`.
    pub open spec fn same(&self, other: &RegressorConfig) -> bool {
        &&& self.train.same(&other.train)
        &&& self.n_features == other.n_features
        &&& self.n_clauses == other.n_clauses
    }
}

impl SaveLoad for TMRegressor {
    type Saved = Artifact<StoredClass>;

    open spec fn tag() -> u8 {
        TAG_REGRESSOR
    }

    open spec fn valid(&self) -> bool {
        self.wf()
    }

    open spec fn image(&self) -> Image<ClassModel> {
        Image {
            words: self.config.train.to_image() + seq![
                self.config.n_features as u64,
                self.config.n_clauses as u64,
            ],
            digits: self.config.train.dig_lit_active@,
            scales: seq![],
            classes: seq![ClassModel { clauses: self@.clauses, rng: 0 }],
            rows: seq![],
            rngs: seq![self@.rng, self@.literal_rng],
        }
    }

    open spec fn admits(v: Image<ClassModel>) -> bool {
        let w = v.words;
        &&& w.len() == 15 && train_ok(w)
        &&& signed_of(w[6]) == 0
        &&& 1 <= w[13] && w[0] == 2 * w[13]
        &&& 2 <= w[14] <= usize::MAX
        &&& v.classes.len() == 1 && v.classes[0].rng == 0
        &&& clauses_ok(
            v.classes[0].clauses,
            w[14] as nat,
            w[0] as nat,
            (2 * w[1] - 1) as u8,
            0,
            w[2] as i32,
        )
        &&& v.rows.len() == 0
        &&& v.rngs.len() == 2
        &&& v.scales.len() == 0
    }

    open spec fn is_reset(&self) -> bool {
        true
    }

    fn type_tag() -> (r: u8) {
        TAG_REGRESSOR
    }

    fn to_saved(&self) -> (r: Artifact<StoredClass>) {
        let mut words: Vec<u64> = self.config.train.to_words();
        words.push(self.config.n_features as u64);
        words.push(self.config.n_clauses as u64);
        let rngs: Vec<Rng> = vec![Rng::from_raw(self.rng.raw()), Rng::from_raw(self.literal_rng.raw())];
        let class: StoredClass = StoredClass {
            clauses: store_clauses(&self.clauses, &self.config.train.geom),
            rng: Rng::from_raw(0),
        };
        let r: Artifact<StoredClass> = Artifact {
            words,
            digits: self.config.train.dig_lit_active.clone(),
            scales: Vec::new(),
            classes: vec![class],
            rows: Vec::new(),
            rngs,
        };
        proof {
            assert(r@.words =~= self.image().words);
            assert(r@.digits =~= self.image().digits);
            assert(r@.scales =~= self.image().scales);
            assert(r@.classes =~= self.image().classes);
            assert(r@.rows =~= self.image().rows);
            assert(r@.rngs =~= self.image().rngs);
        }
        r
    }

    fn from_saved(s: &Artifact<StoredClass>) -> (r: Option<TMRegressor>) {
        let w: &Vec<u64> = &s.words;
        if w.len() != 15 || s.scales.len() != 0 || s.rows.len() != 0 || s.rngs.len() != 2 || s.classes.len() != 1 {
            return None;
        }
        let train: TrainConfig = match TrainConfig::from_words(w, &s.digits) {
            Some(t) => t,
            None => return None,
        };
        proof {
            assert(forall|i: int| 0 <= i < TRAIN_WORDS ==> w@.take(TRAIN_WORDS as int)[i] == #[trigger] w@[i]);
            assert(w@[0] == train.to_image()[0] && w@[1] == train.to_image()[1] && w@[2]
                == train.to_image()[2] && w@[6] == train.to_image()[6]);
        }
        if train.rules.wmin != 0 || w[13] < 1 || w[13] > usize::MAX as u64 / 2 || w[14] < 2 || w[14]
            > usize::MAX as u64 || s.classes[0].rng.raw() != 0 {
            return None;
        }
        let n_features: usize = w[13] as usize;
        let n_clauses: usize = w[14] as usize;
        if train.geom.n_literals != 2 * n_features {
            return None;
        }
        let clauses: Vec<Clause> = match restore_clauses(
            &s.classes[0].clauses,
            &train.geom,
            n_clauses,
            0,
            train.threshold,
        ) {
            Some(v) => v,
            None => return None,
        };
        let r: TMRegressor = TMRegressor {
            config: RegressorConfig { train, n_features, n_clauses },
            clauses,
            rng: Rng::from_raw(s.rngs[0].raw()),
            literal_rng: Rng::from_raw(s.rngs[1].raw()),
        };
        proof {
            assert(r.image().words =~= s@.words);
            assert(r.image().scales =~= s@.scales);
            assert(r.image().classes =~= s@.classes);
            assert(r.image().rows =~= s@.rows);
            assert(r.image().rngs =~= s@.rngs);
            r.lemma_admits();
        }
        Some(r)
    }

    proof fn lemma_admits(&self) {
        let v = self.image();
        let t = self.config.train;
        assert(v.words.take(TRAIN_WORDS as int) =~= t.to_image());
        lemma_train_words(&t, &t, v.words, v.words);
        lemma_clauses_ok(self.clauses@, &t.geom, 0, t.threshold);
    }
}

/// What is stored of a regressor determines it.
pub proof fn lemma_regressor_image(a: &TMRegressor, b: &TMRegressor)
    requires
        a.wf(),
        b.wf(),
        a.image() == b.image(),
    ensures
        a@ == b@,
        a.config.same(&b.config),
{
    let (u, v) = (a.image(), b.image());
    assert(u.words.take(TRAIN_WORDS as int) =~= a.config.train.to_image());
    assert(v.words.take(TRAIN_WORDS as int) =~= b.config.train.to_image());
    lemma_train_words(&a.config.train, &b.config.train, u.words, v.words);
    assert(u.words[13] == v.words[13] && u.words[14] == v.words[14]);
    assert(u.rngs[0] == v.rngs[0] && u.rngs[1] == v.rngs[1]);
    assert(u.classes[0] == v.classes[0]);
    assert(a@ =~= b@);
}

proof fn lemma_same_order(
    a: &RegressorConfig,
    b: &RegressorConfig,
    m: RegressorModel,
    xs: Seq<Seq<bool>>,
    ys: Seq<Target>,
    order: Seq<usize>,
    k: nat,
)
    requires
        a.same(b),
    ensures
        a.fit_order_of(m, xs, ys, order, k) == b.fit_order_of(m, xs, ys, order, k),
    decreases k,
{
    if k > 0 {
        lemma_same_order(a, b, m, xs, ys, order, (k - 1) as nat);
        let before = a.fit_order_of(m, xs, ys, order, (k - 1) as nat);
        lemma_same_step(a, b, before, xs[order[k - 1] as int], ys[order[k - 1] as int]);
    }
}

proof fn lemma_same_step(a: &RegressorConfig, b: &RegressorConfig, m: RegressorModel, x: Seq<bool>, y: Target)
    requires
        a.same(b),
    ensures
        a.fit_one_of(m, x, y) == b.fit_one_of(m, x, y),
{
    assert(a.fit_one_of(m, x, y).clauses =~= b.fit_one_of(m, x, y).clauses);
}

/// Regressors with the same settings predict and train alike.
pub proof fn lemma_same_regressors(
    a: &RegressorConfig,
    b: &RegressorConfig,
    m: RegressorModel,
    x: Seq<bool>,
    xs: Seq<Seq<bool>>,
    ys: Seq<Target>,
)
    requires
        a.same(b),
    ensures
        a.predict_of(m, x) == b.predict_of(m, x),
        a.fit_epoch_of(m, xs, ys) == b.fit_epoch_of(m, xs, ys),
{
    assert(a.predict_of(m, x) == b.predict_of(m, x));
    let n = xs.len();
    let drawn = RegressorModel { rng: rng_skip(m.rng, shuffle_draws(n)), ..m };
    lemma_same_order(a, b, drawn, xs, ys, epoch_order_of(m.rng, n), n);
}

} // verus!
