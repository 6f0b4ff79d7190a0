//! The autoencoder as it is saved.
use crate::clause_bank::feedback::{ClassBank, ClassModel};
use crate::models::autoencoder::vanilla_autoencoder::{AutoEncoderConfig, TMAutoEncoder};
use crate::models::classification::vanilla_classifier::MachineModel;
use crate::models::config::TrainConfig;
use crate::rng::{rng_skip, Rng};
use crate::sampling::{epoch_order_of, shuffle_draws};
use crate::saved::artifact::{Artifact, Image};
use crate::saved::dense::{
    classes_ok, lemma_classes_ok, lemma_train_words, product_fits, restore_classes, signed_of,
    store_classes, train_ok, TRAIN_WORDS,
};
use crate::saved::save_load::SaveLoad;
use crate::saved::stored::StoredClass;
use crate::serial::TAG_AUTOENCODER;
use vstd::prelude::*;

verus! {

impl AutoEncoderConfig {
    /// The settings are those of `other`.
    pub open spec fn same(&self, other: &AutoEncoderConfig) -> bool {
        &&& self.train.same(&other.train)
        &&& self.n_features == other.n_features
        &&& self.clauses_per_output == other.clauses_per_output
    }
}

impl SaveLoad for TMAutoEncoder {
    type Saved = Artifact<StoredClass>;

    open spec fn tag() -> u8 {
        TAG_AUTOENCODER
    }

    open spec fn valid(&self) -> bool {
        self.wf()
    }

    open spec fn image(&self) -> Image<ClassModel> {
        Image {
            words: self.config.train.to_image() + seq![
                self.config.n_features as u64,
                self.config.clauses_per_output as u64,
            ],
            digits: self.config.train.dig_lit_active@,
            scales: seq![],
            classes: self@.classes,
            rows: seq![],
            rngs: seq![self@.rng, self@.literal_rng],
        }
    }

    open spec fn admits(v: Image<ClassModel>) -> bool {
        let w = v.words;
        &&& w.len() == 15 && train_ok(w)
        &&& signed_of(w[6]) == 1
        &&& 1 <= w[13] && w[0] == 2 * w[13]
        &&& 2 <= w[14] <= usize::MAX
        &&& w[13] * w[14] * w[0] <= usize::MAX
        &&& classes_ok(
            v.classes,
            w[13] as nat,
            w[14] as nat,
            w[0] as nat,
            (2 * w[1] - 1) as u8,
            1,
            w[2] as i32,
        )
        &&& v.rows.len() == 0
        &&& v.rngs.len() == 2
        &&& v.scales.len() == 0
    }

    open spec fn is_reset(&self) -> bool {
        true
    }

    fn type_tag() -> (r: u8) {
        TAG_AUTOENCODER
    }

    fn to_saved(&self) -> (r: Artifact<StoredClass>) {
        let mut words: Vec<u64> = self.config.train.to_words();
        words.push(self.config.n_features as u64);
        words.push(self.config.clauses_per_output as u64);
        let rngs: Vec<Rng> = vec![Rng::from_raw(self.rng.raw()), Rng::from_raw(self.literal_rng.raw())];
        let r: Artifact<StoredClass> = Artifact {
            words,
            digits: self.config.train.dig_lit_active.clone(),
            scales: Vec::new(),
            classes: store_classes(&self.outputs, &self.config.train.geom),
            rows: Vec::new(),
            rngs,
        };
        proof {
            assert(r@.words =~= self.image().words);
            assert(r@.digits =~= self.image().digits);
            assert(r@.scales =~= self.image().scales);
            assert(r@.classes =~= self.image().classes);
            assert(r@.rows =~= self.image().rows);
            assert(r@.rngs =~= self.image().rngs);
        }
        r
    }

    fn from_saved(s: &Artifact<StoredClass>) -> (r: Option<TMAutoEncoder>) {
        let w: &Vec<u64> = &s.words;
        if w.len() != 15 || s.scales.len() != 0 || s.rows.len() != 0 || s.rngs.len() != 2 {
            return None;
        }
        let train: TrainConfig = match TrainConfig::from_words(w, &s.digits) {
            Some(t) => t,
            None => return None,
        };
        proof {
            assert(forall|i: int| 0 <= i < TRAIN_WORDS ==> w@.take(TRAIN_WORDS as int)[i] == #[trigger] w@[i]);
            assert(w@[0] == train.to_image()[0] && w@[1] == train.to_image()[1] && w@[2]
                == train.to_image()[2] && w@[6] == train.to_image()[6]);
        }
        if train.rules.wmin != 1 || w[13] < 1 || w[13] > usize::MAX as u64 / 2 || w[14] < 2 || w[14]
            > usize::MAX as u64 {
            return None;
        }
        let n_features: usize = w[13] as usize;
        let clauses_per_output: usize = w[14] as usize;
        if train.geom.n_literals != 2 * n_features || !product_fits(
            n_features,
            clauses_per_output,
            train.geom.n_literals,
        ) {
            return None;
        }
        let outputs: Vec<ClassBank> = match restore_classes(
            &s.classes,
            &train.geom,
            n_features,
            clauses_per_output,
            1,
            train.threshold,
        ) {
            Some(v) => v,
            None => return None,
        };
        let r: TMAutoEncoder = TMAutoEncoder {
            config: AutoEncoderConfig { train, n_features, clauses_per_output },
            outputs,
            rng: Rng::from_raw(s.rngs[0].raw()),
            literal_rng: Rng::from_raw(s.rngs[1].raw()),
        };
        proof {
            assert(r.image().words =~= s@.words);
            assert(r.image().scales =~= s@.scales);
            assert(r.image().classes =~= s@.classes);
            assert(r.image().rows =~= s@.rows);
            assert(r.image().rngs =~= s@.rngs);
            r.lemma_admits();
        }
        Some(r)
    }

    proof fn lemma_admits(&self) {
        let v = self.image();
        let t = self.config.train;
        assert(v.words.take(TRAIN_WORDS as int) =~= t.to_image());
        lemma_train_words(&t, &t, v.words, v.words);
        lemma_classes_ok(
            self.outputs@,
            &t.geom,
            self.config.clauses_per_output as nat,
            1,
            t.threshold,
        );
    }
}

/// What is stored of an autoencoder determines it.
pub proof fn lemma_autoencoder_image(a: &TMAutoEncoder, b: &TMAutoEncoder)
    requires
        a.wf(),
        b.wf(),
        a.image() == b.image(),
    ensures
        a@ == b@,
        a.config.same(&b.config),
{
    let (u, v) = (a.image(), b.image());
    assert(u.words.take(TRAIN_WORDS as int) =~= a.config.train.to_image());
    assert(v.words.take(TRAIN_WORDS as int) =~= b.config.train.to_image());
    lemma_train_words(&a.config.train, &b.config.train, u.words, v.words);
    assert(u.words[13] == v.words[13] && u.words[14] == v.words[14]);
    assert(u.rngs[0] == v.rngs[0] && u.rngs[1] == v.rngs[1]);
    assert(a@ =~= b@);
}

proof fn lemma_same_order(
    a: &AutoEncoderConfig,
    b: &AutoEncoderConfig,
    m: MachineModel,
    xs: Seq<Seq<bool>>,
    order: Seq<usize>,
    k: nat,
)
    requires
        a.same(b),
    ensures
        a.fit_order_of(m, xs, order, k) == b.fit_order_of(m, xs, order, k),
    decreases k,
{
    if k > 0 {
        lemma_same_order(a, b, m, xs, order, (k - 1) as nat);
        let before = a.fit_order_of(m, xs, order, (k - 1) as nat);
        lemma_same_step(a, b, before, xs[order[k - 1] as int]);
    }
}

proof fn lemma_same_step(a: &AutoEncoderConfig, b: &AutoEncoderConfig, m: MachineModel, x: Seq<bool>)
    requires
        a.same(b),
    ensures
        a.fit_one_of(m, x) == b.fit_one_of(m, x),
{
    assert(a.fit_one_of(m, x).classes =~= b.fit_one_of(m, x).classes);
}

/// Autoencoders with the same settings predict and train alike.
pub proof fn lemma_same_autoencoders(
    a: &AutoEncoderConfig,
    b: &AutoEncoderConfig,
    m: MachineModel,
    x: Seq<bool>,
    xs: Seq<Seq<bool>>,
)
    requires
        a.same(b),
    ensures
        a.reconstruct_of(m, x) == b.reconstruct_of(m, x),
        a.scores_of(m, x) == b.scores_of(m, x),
        a.fit_epoch_of(m, xs) == b.fit_epoch_of(m, xs),
{
    assert(a.reconstruct_of(m, x) =~= b.reconstruct_of(m, x));
    assert(a.scores_of(m, x) =~= b.scores_of(m, x));
    let n = xs.len();
    let drawn = MachineModel { rng: rng_skip(m.rng, shuffle_draws(n)), ..m };
    lemma_same_order(a, b, drawn, xs, epoch_order_of(m.rng, n), n);
}

} // verus!
