//! The coalesced autoencoder as it is saved.
use crate::clause_bank::feedback::ClassModel;
use crate::clause_bank::shared::SharedClause;
use crate::models::autoencoder::coalesced_autoencoder::{
    CoalescedAutoEncoderConfig, TMCoalescedAutoEncoder,
};
use crate::models::classification::coalesced_classifier::CoalescedModel;
use crate::models::config::TrainConfig;
use crate::rng::{rng_skip, Rng};
use crate::sampling::{epoch_order_of, shuffle_draws};
use crate::saved::artifact::{Artifact, Image};
use crate::saved::dense::{
    clauses_ok, copy_rngs, copy_rows, lemma_shared_ok, lemma_train_words, lemma_unweighted,
    restore_shared, rows_ok, store_shared, train_ok, unweighted, TRAIN_WORDS,
};
use crate::saved::save_load::SaveLoad;
use crate::saved::stored::{views, StoredClass};
use crate::serial::{raw_positions, TAG_COALESCED_AUTOENCODER};
use vstd::prelude::*;

verus! {

impl CoalescedAutoEncoderConfig {
    /// The settings are those of `other`.
    pub open spec fn same(&self, other: &CoalescedAutoEncoderConfig) -> bool {
        &&& self.train.same(&other.train)
        &&& self.n_features == other.n_features
        &&& self.n_clauses == other.n_clauses
    }
}

impl SaveLoad for TMCoalescedAutoEncoder {
    type Saved = Artifact<StoredClass>;

    open spec fn tag() -> u8 {
        TAG_COALESCED_AUTOENCODER
    }

    open spec fn valid(&self) -> bool {
        self.wf()
    }

    open spec fn image(&self) -> Image<ClassModel> {
        Image {
            words: self.config.train.to_image() + seq![
                self.config.n_features as u64,
                self.config.n_clauses as u64,
            ],
            digits: self.config.train.dig_lit_active@,
            scales: seq![],
            classes: seq![ClassModel { clauses: unweighted(self@.clauses), rng: 0 }],
            rows: self@.weights,
            rngs: self@.class_rngs + seq![self@.rng, self@.literal_rng],
        }
    }

    open spec fn admits(v: Image<ClassModel>) -> bool {
        let w = v.words;
        &&& w.len() == 15 && train_ok(w)
        &&& 1 <= w[13] && w[0] == 2 * w[13]
        &&& 1 <= w[14] <= usize::MAX
        &&& w[14] * w[0] <= usize::MAX
        &&& w[13] + w[14] < usize::MAX
        &&& v.classes.len() == 1 && v.classes[0].rng == 0
        &&& clauses_ok(v.classes[0].clauses, w[14] as nat, w[0] as nat, (2 * w[1] - 1) as u8, 0, 0)
        &&& rows_ok(v.rows, w[13] as nat, w[14] as nat)
        &&& v.rngs.len() == w[13] + 2
        &&& v.scales.len() == 0
    }

    open spec fn is_reset(&self) -> bool {
        true
    }

    fn type_tag() -> (r: u8) {
        TAG_COALESCED_AUTOENCODER
    }

    fn to_saved(&self) -> (r: Artifact<StoredClass>) {
        let mut words: Vec<u64> = self.config.train.to_words();
        words.push(self.config.n_features as u64);
        words.push(self.config.n_clauses as u64);
        let mut rngs: Vec<Rng> = copy_rngs(&self.output_rngs, self.output_rngs.len());
        let ghost kept = rngs@;
        proof {
            assert(raw_positions(self.output_rngs@).take(kept.len() as int) =~= self@.class_rngs);
        }
        rngs.push(Rng::from_raw(self.rng.raw()));
        rngs.push(Rng::from_raw(self.literal_rng.raw()));
        let class: StoredClass = StoredClass {
            clauses: store_shared(&self.clauses, &self.config.train.geom),
            rng: Rng::from_raw(0),
        };
        let rows: Vec<Vec<i32>> = match copy_rows(&self.weights, self.config.n_features, self.config.n_clauses) {
            Some(v) => v,
            None => Vec::new(),
        };
        proof {
            assert(rows_ok(views(self.weights@), self.config.n_features as nat, self.config.n_clauses as nat));
        }
        let r: Artifact<StoredClass> = Artifact {
            words,
            digits: self.config.train.dig_lit_active.clone(),
            scales: Vec::new(),
            classes: vec![class],
            rows,
            rngs,
        };
        proof {
            assert(r@.words =~= self.image().words);
            assert(r@.digits =~= self.image().digits);
            assert(r@.scales =~= self.image().scales);
            assert(r@.classes =~= self.image().classes);
            assert(r@.rows =~= self.image().rows);
            assert forall|i: int| 0 <= i < r@.rngs.len() implies r@.rngs[i] == self.image().rngs[i] by {
                if i < kept.len() {
                    assert(raw_positions(kept)[i] == self@.class_rngs[i]);
                }
            }
            assert(r@.rngs =~= self.image().rngs);
        }
        r
    }

    fn from_saved(s: &Artifact<StoredClass>) -> (r: Option<TMCoalescedAutoEncoder>) {
        let w: &Vec<u64> = &s.words;
        if w.len() != 15 || s.scales.len() != 0 || s.classes.len() != 1 {
            return None;
        }
        let train: TrainConfig = match TrainConfig::from_words(w, &s.digits) {
            Some(t) => t,
            None => return None,
        };
        proof {
            assert(forall|i: int| 0 <= i < TRAIN_WORDS ==> w@.take(TRAIN_WORDS as int)[i] == #[trigger] w@[i]);
            assert(w@[0] == train.to_image()[0] && w@[1] == train.to_image()[1] && w@[2]
                == train.to_image()[2] && w@[6] == train.to_image()[6]);
        }
        if w[13] < 1 || w[13] > usize::MAX as u64 / 2 || w[14] < 1 || w[14] > usize::MAX as u64 {
            return None;
        }
        let n_features: usize = w[13] as usize;
        let n_clauses: usize = w[14] as usize;
        if train.geom.n_literals != 2 * n_features || n_features >= usize::MAX - n_clauses {
            return None;
        }
        if n_clauses.checked_mul(train.geom.n_literals).is_none() {
            return None;
        }
        if s.classes[0].rng.raw() != 0 || s.rngs.len() < 2 || s.rngs.len() - 2 != n_features {
            return None;
        }
        let clauses: Vec<SharedClause> = match restore_shared(&s.classes[0].clauses, &train.geom, n_clauses) {
            Some(v) => v,
            None => return None,
        };
        let weights: Vec<Vec<i32>> = match copy_rows(&s.rows, n_features, n_clauses) {
            Some(v) => v,
            None => return None,
        };
        let r: TMCoalescedAutoEncoder = TMCoalescedAutoEncoder {
            config: CoalescedAutoEncoderConfig { train, n_features, n_clauses },
            clauses,
            weights,
            output_rngs: copy_rngs(&s.rngs, n_features),
            rng: Rng::from_raw(s.rngs[n_features].raw()),
            literal_rng: Rng::from_raw(s.rngs[n_features + 1].raw()),
        };
        proof {
            assert(r.image().words =~= s@.words);
            assert(r.image().scales =~= s@.scales);
            assert(r.image().classes =~= s@.classes);
            assert(r.image().rows =~= s@.rows);
            assert(r.image().rngs =~= s@.rngs);
            r.lemma_admits();
        }
        Some(r)
    }

    proof fn lemma_admits(&self) {
        let v = self.image();
        let t = self.config.train;
        assert(v.words.take(TRAIN_WORDS as int) =~= t.to_image());
        lemma_train_words(&t, &t, v.words, v.words);
        lemma_shared_ok(self.clauses@, &t.geom);
        assert forall|c: int| 0 <= c < v.rows.len() implies (#[trigger] v.rows[c]).len()
            == self.config.n_clauses by {
            assert(self.weights@[c]@.len() == self.config.n_clauses);
        }
    }
}

/// What is stored of a coalesced autoencoder determines it.
pub proof fn lemma_coalesced_autoencoder_image(a: &TMCoalescedAutoEncoder, b: &TMCoalescedAutoEncoder)
    requires
        a.wf(),
        b.wf(),
        a.image() == b.image(),
    ensures
        a@ == b@,
        a.config.same(&b.config),
{
    let (u, v) = (a.image(), b.image());
    assert(u.words.take(TRAIN_WORDS as int) =~= a.config.train.to_image());
    assert(v.words.take(TRAIN_WORDS as int) =~= b.config.train.to_image());
    lemma_train_words(&a.config.train, &b.config.train, u.words, v.words);
    assert(u.words[13] == v.words[13] && u.words[14] == v.words[14]);
    let n = a.config.n_features as int;
    assert(u.rngs[n] == v.rngs[n] && u.rngs[n + 1] == v.rngs[n + 1]);
    assert(u.rngs.take(n) == v.rngs.take(n));
    assert(u.rngs.take(n) =~= a@.class_rngs && v.rngs.take(n) =~= b@.class_rngs);
    assert(u.classes[0] == v.classes[0]);
    lemma_unweighted(a@.clauses, b@.clauses);
    assert(a@ =~= b@);
}

proof fn lemma_same_outputs(
    a: &CoalescedAutoEncoderConfig,
    b: &CoalescedAutoEncoderConfig,
    m: CoalescedModel,
    x: Seq<bool>,
    act: Seq<bool>,
    k: nat,
)
    requires
        a.same(b),
    ensures
        a.updated_outputs(m, x, act, k) == b.updated_outputs(m, x, act, k),
    decreases k,
{
    if k > 0 {
        lemma_same_outputs(a, b, m, x, act, (k - 1) as nat);
    }
}

proof fn lemma_same_order(
    a: &CoalescedAutoEncoderConfig,
    b: &CoalescedAutoEncoderConfig,
    m: CoalescedModel,
    xs: Seq<Seq<bool>>,
    order: Seq<usize>,
    k: nat,
)
    requires
        a.same(b),
    ensures
        a.fit_order_of(m, xs, order, k) == b.fit_order_of(m, xs, order, k),
    decreases k,
{
    if k > 0 {
        lemma_same_order(a, b, m, xs, order, (k - 1) as nat);
        let before = a.fit_order_of(m, xs, order, (k - 1) as nat);
        lemma_same_step(a, b, before, xs[order[k - 1] as int]);
    }
}

proof fn lemma_same_step(a: &CoalescedAutoEncoderConfig, b: &CoalescedAutoEncoderConfig, m: CoalescedModel, x: Seq<bool>)
    requires
        a.same(b),
    ensures
        a.fit_one_of(m, x) == b.fit_one_of(m, x),
{
    lemma_same_outputs(
        a,
        b,
        CoalescedModel { literal_rng: a.train.after_active(m.literal_rng), ..m },
        x,
        a.train.active_of(m.literal_rng),
        a.n_features as nat,
    );
}

/// Coalesced autoencoders with the same settings predict and train alike.
pub proof fn lemma_same_coalesced_autoencoders(
    a: &CoalescedAutoEncoderConfig,
    b: &CoalescedAutoEncoderConfig,
    m: CoalescedModel,
    x: Seq<bool>,
    xs: Seq<Seq<bool>>,
)
    requires
        a.same(b),
    ensures
        a.reconstruct_of(m, x) == b.reconstruct_of(m, x),
        a.scores_of(m, x) == b.scores_of(m, x),
        a.fit_epoch_of(m, xs) == b.fit_epoch_of(m, xs),
{
    assert(a.sums_of(m, x) =~= b.sums_of(m, x));
    assert(a.reconstruct_of(m, x) =~= b.reconstruct_of(m, x));
    assert(a.scores_of(m, x) =~= b.scores_of(m, x));
    let n = xs.len();
    let drawn = CoalescedModel { rng: rng_skip(m.rng, shuffle_draws(n)), ..m };
    lemma_same_order(a, b, drawn, xs, epoch_order_of(m.rng, n), n);
}

} // verus!
