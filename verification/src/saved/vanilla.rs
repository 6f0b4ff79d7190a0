//! The weighted multiclass machine as it is saved.
use crate::clause_bank::feedback::{ClassBank, ClassModel};
use crate::dyadic::Dyadic;
use crate::models::classification::vanilla_classifier::{
    MachineConfig, MachineModel, MachineState, TsetlinMachine,
};
use crate::models::classification::data_parallel::{
    dp_epoch_of, replica_of, seeds_of, share_of, trained_replica,
};
use crate::models::config::TrainConfig;
use crate::rng::{rng_skip, Rng};
use crate::sampling::{epoch_order_of, shuffle_draws};
use crate::saved::artifact::{loaded, saved, Artifact, Image};
use crate::saved::dense::{
    classes_ok, lemma_classes_ok, lemma_scale_bits, lemma_scales_ok, lemma_train_words,
    product_fits, restore_classes, restore_scales, scale_bits, scales_ok, signed_of, store_classes,
    store_scales, train_ok, TRAIN_WORDS,
};
use crate::saved::save_load::{lemma_saved_loads, SaveLoad};
use crate::saved::stored::{Stored, StoredClass};
use crate::serial::{SerialError, TAG_VANILLA};
use vstd::prelude::*;

verus! {

impl MachineConfig {
    /// The settings are those of `other`, but for the wish to train in parallel, which is not
    /// stored.
    pub open spec fn same(&self, other: &MachineConfig) -> bool {
        &&& self.train.same(&other.train)
        &&& self.n_classes == other.n_classes
        &&& self.n_features == other.n_features
        &&& self.clauses_per_class == other.clauses_per_class
        &&& self.class_weights@ == other.class_weights@
    }
}

impl SaveLoad for TsetlinMachine {
    type Saved = Artifact<StoredClass>;

    open spec fn tag() -> u8 {
        TAG_VANILLA
    }

    open spec fn valid(&self) -> bool {
        self.wf()
    }

    open spec fn image(&self) -> Image<ClassModel> {
        Image {
            words: self.config.train.to_image() + seq![
                self.config.n_classes as u64,
                self.config.n_features as u64,
                self.config.clauses_per_class as u64,
            ],
            digits: self.config.train.dig_lit_active@,
            scales: scale_bits(self.config.class_weights@),
            classes: self@.classes,
            rows: seq![],
            rngs: seq![self@.rng, self@.literal_rng],
        }
    }

    open spec fn admits(v: Image<ClassModel>) -> bool {
        let w = v.words;
        &&& w.len() == 16 && train_ok(w) && signed_of(w[6]) == 1
        &&& 2 <= w[13] <= usize::MAX
        &&& 1 <= w[14] && w[0] == 2 * w[14]
        &&& 2 <= w[15] <= usize::MAX
        &&& w[13] * w[15] * w[0] <= usize::MAX
        &&& scales_ok(v.scales, w[13] as nat)
        &&& classes_ok(
            v.classes,
            w[13] as nat,
            w[15] as nat,
            w[0] as nat,
            (2 * w[1] - 1) as u8,
            1,
            w[2] as i32,
        )
        &&& v.rows.len() == 0
        &&& v.rngs.len() == 2
    }

    open spec fn is_reset(&self) -> bool {
        !self.config.data_parallel && !self.hint_shown
    }

    fn type_tag() -> (r: u8) {
        TAG_VANILLA
    }

    fn to_saved(&self) -> (r: Artifact<StoredClass>) {
        let mut words: Vec<u64> = self.config.train.to_words();
        words.push(self.config.n_classes as u64);
        words.push(self.config.n_features as u64);
        words.push(self.config.clauses_per_class as u64);
        let rngs: Vec<Rng> = vec![
            Rng::from_raw(self.state.rng.raw()),
            Rng::from_raw(self.state.literal_rng.raw()),
        ];
        let r: Artifact<StoredClass> = Artifact {
            words,
            digits: self.config.train.dig_lit_active.clone(),
            scales: store_scales(&self.config.class_weights),
            classes: store_classes(&self.state.classes, &self.config.train.geom),
            rows: Vec::new(),
            rngs,
        };
        proof {
            assert(r@.words =~= self.image().words);
            assert(r@.digits =~= self.image().digits);
            assert(r@.rows =~= self.image().rows);
            assert(r@.rngs =~= self.image().rngs);
        }
        r
    }

    fn from_saved(s: &Artifact<StoredClass>) -> (r: Option<TsetlinMachine>) {
        let w: &Vec<u64> = &s.words;
        if w.len() != 16 || s.rows.len() != 0 || s.rngs.len() != 2 {
            return None;
        }
        let train: TrainConfig = match TrainConfig::from_words(w, &s.digits) {
            Some(t) => t,
            None => return None,
        };
        proof {
            assert(forall|i: int| 0 <= i < TRAIN_WORDS ==> w@.take(TRAIN_WORDS as int)[i] == #[trigger] w@[i]);
            assert(w@[0] == train.to_image()[0] && w@[1] == train.to_image()[1] && w@[2]
                == train.to_image()[2] && w@[6] == train.to_image()[6]);
        }
        if train.rules.wmin != 1 || w[13] < 2 || w[13] > usize::MAX as u64 || w[14] < 1 || w[14]
            > usize::MAX as u64 / 2 || w[15] < 2 || w[15] > usize::MAX as u64 {
            return None;
        }
        let n_classes: usize = w[13] as usize;
        let n_features: usize = w[14] as usize;
        let clauses_per_class: usize = w[15] as usize;
        if train.geom.n_literals != 2 * n_features || !product_fits(
            n_classes,
            clauses_per_class,
            train.geom.n_literals,
        ) {
            return None;
        }
        let class_weights: Vec<Dyadic> = match restore_scales(&s.scales, n_classes) {
            Some(v) => v,
            None => return None,
        };
        let classes: Vec<ClassBank> = match restore_classes(
            &s.classes,
            &train.geom,
            n_classes,
            clauses_per_class,
            1,
            train.threshold,
        ) {
            Some(v) => v,
            None => return None,
        };
        let r: TsetlinMachine = TsetlinMachine {
            config: MachineConfig {
                train,
                n_classes,
                n_features,
                clauses_per_class,
                class_weights,
                data_parallel: false,
            },
            state: MachineState {
                classes,
                rng: Rng::from_raw(s.rngs[0].raw()),
                literal_rng: Rng::from_raw(s.rngs[1].raw()),
            },
            hint_shown: false,
        };
        proof {
            assert(r.image().words =~= s@.words);
            assert(r.image().rows =~= s@.rows);
            assert(r.image().rngs =~= s@.rngs);
            r.lemma_admits();
        }
        Some(r)
    }

    proof fn lemma_admits(&self) {
        let v = self.image();
        let t = self.config.train;
        assert(v.words.take(TRAIN_WORDS as int) =~= t.to_image());
        lemma_train_words(&t, &t, v.words, v.words);
        lemma_classes_ok(
            self.state.classes@,
            &t.geom,
            self.config.clauses_per_class as nat,
            1,
            t.threshold,
        );
        lemma_scales_ok(self.config.class_weights@);
    }
}

/// What is stored of a machine determines it, but for what `is_reset` names.
pub proof fn lemma_image_determines(a: &TsetlinMachine, b: &TsetlinMachine)
    requires
        a.wf(),
        b.wf(),
        a.image() == b.image(),
    ensures
        a@ == b@,
        a.config.same(&b.config),
{
    let (u, v) = (a.image(), b.image());
    assert(u.words.take(TRAIN_WORDS as int) =~= a.config.train.to_image());
    assert(v.words.take(TRAIN_WORDS as int) =~= b.config.train.to_image());
    lemma_train_words(&a.config.train, &b.config.train, u.words, v.words);
    lemma_scale_bits(a.config.class_weights@, b.config.class_weights@);
    assert(u.words[13] == v.words[13] && u.words[14] == v.words[14] && u.words[15] == v.words[15]);
    assert(u.rngs[0] == v.rngs[0] && u.rngs[1] == v.rngs[1]);
    assert(a@ =~= b@);
}

proof fn lemma_same_order(
    a: &MachineConfig,
    b: &MachineConfig,
    m: MachineModel,
    xs: Seq<Seq<bool>>,
    ys: Seq<usize>,
    order: Seq<usize>,
    k: nat,
)
    requires
        a.same(b),
    ensures
        a.fit_order_of(m, xs, ys, order, k) == b.fit_order_of(m, xs, ys, order, k),
    decreases k,
{
    if k > 0 {
        lemma_same_order(a, b, m, xs, ys, order, (k - 1) as nat);
    }
}

/// Machines with the same settings predict and train alike.
pub proof fn lemma_same_settings(
    a: &MachineConfig,
    b: &MachineConfig,
    m: MachineModel,
    x: Seq<bool>,
    xs: Seq<Seq<bool>>,
    ys: Seq<usize>,
)
    requires
        a.same(b),
    ensures
        a.scores_of(m, x) == b.scores_of(m, x),
        a.predict_of(m, x) == b.predict_of(m, x),
        forall|y: int| a.fit_one_of(m, x, y) == b.fit_one_of(m, x, y),
        a.fit_epoch_of(m, xs, ys) == b.fit_epoch_of(m, xs, ys),
        forall|k: nat| dp_epoch_of(*a, m, xs, ys, k) == dp_epoch_of(*b, m, xs, ys, k),
{
    assert(a.scores_of(m, x) =~= b.scores_of(m, x));
    let n = xs.len();
    let drawn = MachineModel { rng: rng_skip(m.rng, shuffle_draws(n)), ..m };
    lemma_same_order(a, b, drawn, xs, ys, epoch_order_of(m.rng, n), n);
    assert forall|k: nat| dp_epoch_of(*a, m, xs, ys, k) == dp_epoch_of(*b, m, xs, ys, k) by {
        let s1 = rng_skip(m.rng, shuffle_draws(n));
        let order = epoch_order_of(m.rng, n);
        let split = MachineModel { rng: rng_skip(s1, k), ..m };
        let seeds = seeds_of(s1, k);
        let u = Seq::new(k, |i: int| trained_replica(*a, split, xs, ys, order, seeds, i));
        let v = Seq::new(k, |i: int| trained_replica(*b, split, xs, ys, order, seeds, i));
        assert forall|i: int| 0 <= i < k implies u[i] == v[i] by {
            let share = share_of(order, seeds.len() as int, i);
            let start = replica_of(split, seeds[i], a.clauses_per_class as int);
            lemma_same_order(a, b, start, xs, ys, share, share.len());
        }
        assert(u =~= v);
    }
}

/// A machine that was saved and loaded predicts as before, and an exact epoch makes of it what it
/// would have made of the machine.
pub proof fn lemma_reloaded_alike(
    a: &TsetlinMachine,
    b: &TsetlinMachine,
    x: Seq<bool>,
    xs: Seq<Seq<bool>>,
    ys: Seq<usize>,
)
    requires
        a.wf(),
        b.wf(),
        loaded::<Artifact<StoredClass>>(TAG_VANILLA, saved::<Artifact<StoredClass>>(TAG_VANILLA, a.image()))
            == Ok::<Image<ClassModel>, SerialError>(b.image()),
        Artifact::<StoredClass>::fits(a.image()),
    ensures
        b@ == a@,
        b.config.same(&a.config),
        b.config.predict_of(b@, x) == a.config.predict_of(a@, x),
        b.config.fit_epoch_of(b@, xs, ys) == a.config.fit_epoch_of(a@, xs, ys),
{
    lemma_saved_loads(a, seq![]);
    let s = saved::<Artifact<StoredClass>>(TAG_VANILLA, a.image());
    assert(s + seq![] =~= s);
    lemma_image_determines(a, b);
    lemma_same_settings(&a.config, &b.config, a@, x, xs, ys);
}

} // verus!
