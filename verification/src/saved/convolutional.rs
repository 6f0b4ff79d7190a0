//! The convolutional machine as it is saved.
use crate::clause_bank::feedback::{ClassBank, ClassModel};
use crate::models::classification::convolutional_classifier::{
    ConvolutionalConfig, ConvolutionalTsetlinMachine,
};
use crate::models::classification::patches::PatchGrid;
use crate::models::classification::vanilla_classifier::MachineModel;
use crate::models::config::TrainConfig;
use crate::rng::{rng_skip, Rng};
use crate::sampling::{epoch_order_of, shuffle_draws};
use crate::saved::artifact::{Artifact, Image};
use crate::saved::dense::{
    classes_ok, lemma_classes_ok, lemma_train_words, restore_classes, signed_of, store_classes,
    train_ok, TRAIN_WORDS,
};
use crate::saved::save_load::SaveLoad;
use crate::saved::stored::StoredClass;
use crate::serial::TAG_CONVOLUTIONAL;
use vstd::prelude::*;

verus! {

impl ConvolutionalConfig {
    /// The settings are those of `other`.
    pub open spec fn same(&self, other: &ConvolutionalConfig) -> bool {
        &&& self.train.same(&other.train)
        &&& self.grid == other.grid
        &&& self.n_classes == other.n_classes
        &&& self.clauses_per_class == other.clauses_per_class
    }
}

impl SaveLoad for ConvolutionalTsetlinMachine {
    type Saved = Artifact<StoredClass>;

    open spec fn tag() -> u8 {
        TAG_CONVOLUTIONAL
    }

    open spec fn valid(&self) -> bool {
        self.wf()
    }

    open spec fn image(&self) -> Image<ClassModel> {
        Image {
            words: self.config.train.to_image() + seq![
                self.config.n_classes as u64,
                self.config.clauses_per_class as u64,
                self.config.grid.input_rows as u64,
                self.config.grid.input_cols as u64,
                self.config.grid.patch_rows as u64,
                self.config.grid.patch_cols as u64,
                self.config.grid.stride as u64,
            ],
            digits: self.config.train.dig_lit_active@,
            scales: seq![],
            classes: self@.classes,
            rows: seq![],
            rngs: seq![self@.rng, self@.literal_rng],
        }
    }

    open spec fn admits(v: Image<ClassModel>) -> bool {
        let w = v.words;
        &&& w.len() == 20 && train_ok(w)
        &&& signed_of(w[6]) == 1
        &&& 2 <= w[13] <= usize::MAX
        &&& 2 <= w[14] <= usize::MAX && w[14] % 2 == 0
        &&& 1 <= w[17] <= w[15] <= usize::MAX
        &&& 1 <= w[18] <= w[16] <= usize::MAX
        &&& 1 <= w[19] <= usize::MAX
        &&& w[15] * w[16] <= usize::MAX
        &&& w[0] == 2 * (w[17] * w[18])
        &&& classes_ok(
            v.classes,
            w[13] as nat,
            w[14] as nat,
            w[0] as nat,
            (2 * w[1] - 1) as u8,
            1,
            w[2] as i32,
        )
        &&& v.rows.len() == 0
        &&& v.rngs.len() == 2
        &&& v.scales.len() == 0
    }

    open spec fn is_reset(&self) -> bool {
        true
    }

    fn type_tag() -> (r: u8) {
        TAG_CONVOLUTIONAL
    }

    fn to_saved(&self) -> (r: Artifact<StoredClass>) {
        let mut words: Vec<u64> = self.config.train.to_words();
        words.push(self.config.n_classes as u64);
        words.push(self.config.clauses_per_class as u64);
        words.push(self.config.grid.input_rows as u64);
        words.push(self.config.grid.input_cols as u64);
        words.push(self.config.grid.patch_rows as u64);
        words.push(self.config.grid.patch_cols as u64);
        words.push(self.config.grid.stride as u64);
        let rngs: Vec<Rng> = vec![Rng::from_raw(self.rng.raw()), Rng::from_raw(self.literal_rng.raw())];
        let r: Artifact<StoredClass> = Artifact {
            words,
            digits: self.config.train.dig_lit_active.clone(),
            scales: Vec::new(),
            classes: store_classes(&self.classes, &self.config.train.geom),
            rows: Vec::new(),
            rngs,
        };
        proof {
            assert(r@.words =~= self.image().words);
            assert(r@.digits =~= self.image().digits);
            assert(r@.scales =~= self.image().scales);
            assert(r@.classes =~= self.image().classes);
            assert(r@.rows =~= self.image().rows);
            assert(r@.rngs =~= self.image().rngs);
        }
        r
    }

    fn from_saved(s: &Artifact<StoredClass>) -> (r: Option<ConvolutionalTsetlinMachine>) {
        let w: &Vec<u64> = &s.words;
        if w.len() != 20 || s.scales.len() != 0 || s.rows.len() != 0 || s.rngs.len() != 2 {
            return None;
        }
        let train: TrainConfig = match TrainConfig::from_words(w, &s.digits) {
            Some(t) => t,
            None => return None,
        };
        proof {
            assert(forall|i: int| 0 <= i < TRAIN_WORDS ==> w@.take(TRAIN_WORDS as int)[i] == #[trigger] w@[i]);
            assert(w@[0] == train.to_image()[0] && w@[1] == train.to_image()[1] && w@[2]
                == train.to_image()[2] && w@[6] == train.to_image()[6]);
        }
        let most: u64 = usize::MAX as u64;
        if train.rules.wmin != 1 || w[13] < 2 || w[13] > most || w[14] < 2 || w[14] > most || w[14] % 2 != 0
            || w[17] < 1 || w[17] > w[15] || w[15] > most || w[18] < 1 || w[18] > w[16] || w[16] > most
            || w[19] < 1 || w[19] > most {
            return None;
        }
        let n_classes: usize = w[13] as usize;
        let clauses_per_class: usize = w[14] as usize;
        let input_rows: usize = w[15] as usize;
        let input_cols: usize = w[16] as usize;
        let patch_rows: usize = w[17] as usize;
        let patch_cols: usize = w[18] as usize;
        let area: usize = match input_rows.checked_mul(input_cols) {
            Some(v) => v,
            None => return None,
        };
        proof {
            assert(patch_rows * patch_cols <= input_rows * input_cols) by (nonlinear_arith)
                requires
                    patch_rows <= input_rows,
                    patch_cols <= input_cols,
            ;
        }
        if train.geom.n_literals % 2 != 0 || train.geom.n_literals / 2 != patch_rows * patch_cols {
            return None;
        }
        let classes: Vec<ClassBank> = match restore_classes(
            &s.classes,
            &train.geom,
            n_classes,
            clauses_per_class,
            1,
            train.threshold,
        ) {
            Some(v) => v,
            None => return None,
        };
        let r: ConvolutionalTsetlinMachine = ConvolutionalTsetlinMachine {
            config: ConvolutionalConfig {
                train,
                grid: PatchGrid::new(input_rows, input_cols, patch_rows, patch_cols, w[19] as usize),
                n_classes,
                clauses_per_class,
            },
            classes,
            rng: Rng::from_raw(s.rngs[0].raw()),
            literal_rng: Rng::from_raw(s.rngs[1].raw()),
        };
        proof {
            assert(r.image().words =~= s@.words);
            assert(r.image().scales =~= s@.scales);
            assert(r.image().classes =~= s@.classes);
            assert(r.image().rows =~= s@.rows);
            assert(r.image().rngs =~= s@.rngs);
            r.lemma_admits();
        }
        Some(r)
    }

    proof fn lemma_admits(&self) {
        let v = self.image();
        let t = self.config.train;
        assert(v.words.take(TRAIN_WORDS as int) =~= t.to_image());
        lemma_train_words(&t, &t, v.words, v.words);
        lemma_classes_ok(
            self.classes@,
            &t.geom,
            self.config.clauses_per_class as nat,
            1,
            t.threshold,
        );
    }
}

/// What is stored of a convolutional machine determines it.
pub proof fn lemma_convolutional_image(a: &ConvolutionalTsetlinMachine, b: &ConvolutionalTsetlinMachine)
    requires
        a.wf(),
        b.wf(),
        a.image() == b.image(),
    ensures
        a@ == b@,
        a.config.same(&b.config),
{
    let (u, v) = (a.image(), b.image());
    assert(u.words.take(TRAIN_WORDS as int) =~= a.config.train.to_image());
    assert(v.words.take(TRAIN_WORDS as int) =~= b.config.train.to_image());
    lemma_train_words(&a.config.train, &b.config.train, u.words, v.words);
    assert(u.words[13] == v.words[13] && u.words[14] == v.words[14] && u.words[15] == v.words[15]);
    assert(u.words[16] == v.words[16]);
    assert(u.words[17] == v.words[17] && u.words[18] == v.words[18] && u.words[19] == v.words[19]);
    assert(u.rngs[0] == v.rngs[0] && u.rngs[1] == v.rngs[1]);
    assert(a.config.grid == b.config.grid);
    assert(a@ =~= b@);
}

proof fn lemma_same_order(
    a: &ConvolutionalConfig,
    b: &ConvolutionalConfig,
    m: MachineModel,
    xs: Seq<Seq<u8>>,
    ys: Seq<usize>,
    order: Seq<usize>,
    k: nat,
)
    requires
        a.same(b),
    ensures
        a.fit_order_of(m, xs, ys, order, k) == b.fit_order_of(m, xs, ys, order, k),
    decreases k,
{
    if k > 0 {
        lemma_same_order(a, b, m, xs, ys, order, (k - 1) as nat);
        let before = a.fit_order_of(m, xs, ys, order, (k - 1) as nat);
        lemma_same_step(a, b, before, xs[order[k - 1] as int], ys[order[k - 1] as int] as int);
    }
}

proof fn lemma_same_step(a: &ConvolutionalConfig, b: &ConvolutionalConfig, m: MachineModel, x: Seq<u8>, y: int)
    requires
        a.same(b),
    ensures
        a.fit_one_of(m, x, y) == b.fit_one_of(m, x, y),
{
    assert(a.grid == b.grid);
}

/// Convolutional machines with the same settings predict and train alike.
pub proof fn lemma_same_convolutional(
    a: &ConvolutionalConfig,
    b: &ConvolutionalConfig,
    m: MachineModel,
    x: Seq<u8>,
    xs: Seq<Seq<u8>>,
    ys: Seq<usize>,
)
    requires
        a.same(b),
    ensures
        a.scores_of(m, x) == b.scores_of(m, x),
        a.predict_of(m, x) == b.predict_of(m, x),
        a.fit_epoch_of(m, xs, ys) == b.fit_epoch_of(m, xs, ys),
{
    assert(a.scores_of(m, x) =~= b.scores_of(m, x));
    let n = xs.len();
    let drawn = MachineModel { rng: rng_skip(m.rng, shuffle_draws(n)), ..m };
    lemma_same_order(a, b, drawn, xs, ys, epoch_order_of(m.rng, n), n);
}

} // verus!
