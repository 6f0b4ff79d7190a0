//! The configuration and the clauses of dense models as they are saved.
use crate::bits::{bit_at, bits_of, expand_bits_to_bytes, no_bits, set_bit, valid_mask, words_for};
use crate::clause_bank::automata::{flags, lemma_flags, state_wf, Automata, Geometry};
use crate::clause_bank::dense::{rebuild_include, MASK_BITS};
use crate::clause_bank::feedback::{
    clause_models, ClassBank, ClassModel, Clause, ClauseModel, Rules,
};
use crate::clause_bank::shared::{shared_model, shared_wf, SharedClause, SharedModel};
use crate::dyadic::{digits_of, f64_bits, f64_value, lemma_f64_bits, Chance, Dyadic, INFINITY_BITS};
use crate::models::classification::vanilla_classifier::class_models;
use crate::models::config::TrainConfig;
use crate::rng::Rng;
use crate::saved::stored::{views, StoredClass, StoredClause};
use crate::serial::{raw_positions, wrapped};
use vstd::prelude::*;

verus! {

/// A truth value as a word.
pub open spec fn bit_word(b: bool) -> u64 {
    if b {
        1
    } else {
        0
    }
}

/// A truth value as a word.
pub fn word_of(b: bool) -> (r: u64)
    ensures
        r == bit_word(b),
{
    if b {
        1
    } else {
        0
    }
}

/// A signed number as a word.
fn signed_word(v: i32) -> (r: u64)
    ensures
        r == wrapped(v),
{
    let u: i64 = if v >= 0 {
        v as i64
    } else {
        v as i64 + 0x1_0000_0000
    };
    u as u64
}

/// How many words the configuration of training takes.
pub const TRAIN_WORDS: usize = 13;

/// The signed number that a word stands for.
pub open spec fn signed_of(w: u64) -> i32 {
    (if w < 0x8000_0000 {
        w as int
    } else {
        w - 0x1_0000_0000
    }) as i32
}

impl TrainConfig {
    /// The numbers of the configuration.
    pub open spec fn to_image(&self) -> Seq<u64> {
        seq![
            self.geom.n_literals as u64,
            self.geom.half as u64,
            self.threshold as u64,
            f64_bits(self.s),
            bit_word(self.rules.boost),
            self.rules.max_included as u64,
            wrapped(self.rules.wmin) as u64,
            bit_word(self.rules.type_iii),
            self.rules.d_gate,
            self.rules.drop.floor,
            bit_word(self.rules.drop.exact),
            self.literal_drop.floor,
            bit_word(self.literal_drop.exact),
        ]
    }

    /// The settings are those of `other`.
    pub open spec fn same(&self, other: &TrainConfig) -> bool {
        &&& self.geom.n_literals == other.geom.n_literals
        &&& self.geom.words == other.geom.words
        &&& self.geom.half == other.geom.half
        &&& self.geom.max_state == other.geom.max_state
        &&& self.rules == other.rules
        &&& self.threshold == other.threshold
        &&& self.s == other.s
        &&& self.dig_inv@ == other.dig_inv@
        &&& self.dig_keep@ == other.dig_keep@
        &&& self.literal_drop == other.literal_drop
        &&& self.dig_lit_active@ == other.dig_lit_active@
    }

    /// The numbers of the configuration.
    pub fn to_words(&self) -> (r: Vec<u64>)
        requires
            self.wf(),
        ensures
            r@ == self.to_image(),
    {
        let r: Vec<u64> = vec![
            self.geom.n_literals as u64,
            self.geom.half as u64,
            self.threshold as u64,
            self.s.to_bits(),
            word_of(self.rules.boost),
            self.rules.max_included as u64,
            signed_word(self.rules.wmin),
            word_of(self.rules.type_iii),
            self.rules.d_gate,
            self.rules.drop.floor,
            word_of(self.rules.drop.exact),
            self.literal_drop.floor,
            word_of(self.literal_drop.exact),
        ];
        assert(r@ =~= self.to_image());
        r
    }

    /// The configuration with the given numbers, if there is one.
    pub fn from_words(w: &[u64], digits: &[u8]) -> (r: Option<Self>)
        requires
            w@.len() >= TRAIN_WORDS,
        ensures
            match r {
                Some(t) => t.wf() && train_ok(w@) && t.to_image() == w@.take(TRAIN_WORDS as int)
                    && t.dig_lit_active@ == digits@,
                None => !train_ok(w@),
            },
    {
        if w[0] > usize::MAX as u64 || w[5] > usize::MAX as u64 || w[1] < 2 || w[1] > 128 || w[2] < 1
            || w[2] > 0x7FFF_FFFF || w[3] > INFINITY_BITS || w[4] > 1 || w[6] > 0xFFFF_FFFF || w[7] > 1
            || w[10] > 1 || w[12] > 1 {
            return None;
        }
        let n_literals: usize = w[0] as usize;
        if n_literals > usize::MAX - 64 {
            return None;
        }
        let wmin: i32 = if w[6] < 0x8000_0000 {
            w[6] as i32
        } else {
            (w[6] as i64 - 0x1_0000_0000) as i32
        };
        if wmin > 1 {
            return None;
        }
        let s: Dyadic = match Dyadic::from_bits(w[3]) {
            Some(s) => s,
            None => return None,
        };
        if !s.is_above_one() {
            return None;
        }
        let half: u8 = w[1] as u8;
        let geom: Geometry = Geometry {
            n_literals,
            words: words_for(n_literals),
            half,
            max_state: half - 1 + half,
            valid: valid_mask(n_literals),
        };
        let threshold: i32 = w[2] as i32;
        let mut dig_lit_active: Vec<u8> = Vec::with_capacity(digits.len());
        let mut i: usize = 0;
        while i < digits.len()
            invariant
                i <= digits@.len(),
                dig_lit_active@ == digits@.take(i as int),
            decreases digits@.len() - i,
        {
            dig_lit_active.push(digits[i]);
            i = i + 1;
        }
        let r: TrainConfig = TrainConfig {
            geom,
            rules: Rules {
                boost: w[4] == 1,
                max_included: w[5] as usize,
                wmin,
                wmax: threshold,
                type_iii: w[7] == 1,
                d_gate: w[8],
                drop: Chance { floor: w[9], exact: w[10] == 1 },
            },
            threshold,
            s,
            dig_inv: digits_of(s.recip().chance(), MASK_BITS),
            dig_keep: digits_of(s.keep().chance(), MASK_BITS),
            literal_drop: Chance { floor: w[11], exact: w[12] == 1 },
            dig_lit_active,
        };
        proof {
            lemma_f64_bits(s, w@[3]);
            assert(r.dig_lit_active@ =~= digits@);
            assert(r.to_image() =~= w@.take(TRAIN_WORDS as int));
        }
        Some(r)
    }
}

/// Some configuration has the numbers `w`, followed by others.
pub open spec fn train_ok(w: Seq<u64>) -> bool {
    &&& w[0] + 64 <= usize::MAX
    &&& 2 <= w[1] <= 128
    &&& 1 <= w[2] <= 0x7FFF_FFFF
    &&& w[3] <= INFINITY_BITS && f64_value(w[3]).above_one()
    &&& w[4] <= 1
    &&& w[5] <= usize::MAX
    &&& w[6] <= 0xFFFF_FFFF && signed_of(w[6]) <= 1
    &&& w[7] <= 1
    &&& w[10] <= 1
    &&& w[12] <= 1
}

/// The numbers of a configuration are those of one, and determine the settings.
pub proof fn lemma_train_words(a: &TrainConfig, b: &TrainConfig, w: Seq<u64>, v: Seq<u64>)
    requires
        a.wf(),
        b.wf(),
        w.len() >= TRAIN_WORDS,
        w.take(TRAIN_WORDS as int) == a.to_image(),
        v.len() >= TRAIN_WORDS,
        v.take(TRAIN_WORDS as int) == b.to_image(),
    ensures
        train_ok(w),
        w == v && a.dig_lit_active@ == b.dig_lit_active@ ==> a.same(b),
{
    let x = a.to_image();
    let y = b.to_image();
    assert(forall|i: int| 0 <= i < TRAIN_WORDS ==> #[trigger] w[i] == x[i]) by {
        assert(forall|i: int| 0 <= i < TRAIN_WORDS ==> w.take(TRAIN_WORDS as int)[i] == #[trigger] w[i]);
    }
    assert(forall|i: int| 0 <= i < TRAIN_WORDS ==> #[trigger] v[i] == y[i]) by {
        assert(forall|i: int| 0 <= i < TRAIN_WORDS ==> v.take(TRAIN_WORDS as int)[i] == #[trigger] v[i]);
    }
    lemma_f64_bits(a.s, 0);
    lemma_f64_bits(b.s, 0);
    assert(w[0] == x[0] && w[1] == x[1] && w[2] == x[2] && w[3] == x[3] && w[4] == x[4] && w[5] == x[5] && w[6]
        == x[6] && w[7] == x[7] && w[8] == x[8] && w[9] == x[9] && w[10] == x[10] && w[11] == x[11] && w[12]
        == x[12]);
    assert(v[0] == y[0] && v[1] == y[1] && v[2] == y[2] && v[3] == y[3] && v[4] == y[4] && v[5] == y[5] && v[6]
        == y[6] && v[7] == y[7] && v[8] == y[8] && v[9] == y[9] && v[10] == y[10] && v[11] == y[11] && v[12]
        == y[12]);
}

/// A clause fits a configuration.
pub open spec fn clause_ok(m: ClauseModel, n: nat, max: u8, wmin: i32, wmax: i32) -> bool {
    state_wf(m.auto, n, max) && wmin <= m.weight <= wmax
}

/// The clauses of a class fit a configuration.
pub open spec fn clauses_ok(m: Seq<ClauseModel>, count: nat, n: nat, max: u8, wmin: i32, wmax: i32) -> bool {
    &&& m.len() == count
    &&& forall|j: int| 0 <= j < m.len() ==> clause_ok(#[trigger] m[j], n, max, wmin, wmax)
}

/// The classes fit a configuration.
pub open spec fn classes_ok(
    m: Seq<ClassModel>,
    n_classes: nat,
    per_class: nat,
    n: nat,
    max: u8,
    wmin: i32,
    wmax: i32,
) -> bool {
    &&& m.len() == n_classes
    &&& forall|c: int|
        0 <= c < m.len() ==> clauses_ok((#[trigger] m[c]).clauses, per_class, n, max, wmin, wmax)
}

/// The automata of a clause as they are stored.
fn store_automata(a: &Automata, g: &Geometry, weight: i32, rng: &Rng) -> (r: StoredClause)
    requires
        a.wf(g),
    ensures
        r@ == (ClauseModel { auto: a@, weight, rng: rng@ }),
{
    let cat: Vec<u8> = expand_bits_to_bytes(&a.cat, g.n_literals);
    let r: StoredClause = StoredClause {
        ta: a.ta.clone(),
        ind: a.ind.clone(),
        cat,
        weight,
        rng: Rng::from_raw(rng.raw()),
    };
    proof {
        lemma_flags(cat@, a.cat@, g.n_literals as nat);
        assert(r.ta@ =~= a.ta@);
        assert(r.ind@ =~= a.ind@);
    }
    r
}

/// Clauses as they are stored.
pub fn store_clauses(cs: &Vec<Clause>, g: &Geometry) -> (r: Vec<StoredClause>)
    requires
        forall|j: int| 0 <= j < cs@.len() ==> (#[trigger] cs@[j]).auto.wf(g),
    ensures
        views(r@) == clause_models(cs@),
{
    let mut r: Vec<StoredClause> = Vec::with_capacity(cs.len());
    let mut j: usize = 0;
    while j < cs.len()
        invariant
            j <= cs@.len(),
            r@.len() == j,
            forall|i: int| 0 <= i < cs@.len() ==> (#[trigger] cs@[i]).auto.wf(g),
            forall|i: int| 0 <= i < j ==> (#[trigger] r@[i])@ == cs@[i]@,
        decreases cs@.len() - j,
    {
        r.push(store_automata(&cs[j].auto, g, cs[j].weight, &cs[j].rng));
        j = j + 1;
    }
    assert(views(r@) =~= clause_models(cs@));
    r
}

/// Classes as they are stored.
pub fn store_classes(cs: &Vec<ClassBank>, g: &Geometry) -> (r: Vec<StoredClass>)
    requires
        forall|c: int| 0 <= c < cs@.len() ==> (#[trigger] cs@[c]).autos_wf(g),
    ensures
        views(r@) == class_models(cs@),
{
    let mut r: Vec<StoredClass> = Vec::with_capacity(cs.len());
    let mut c: usize = 0;
    while c < cs.len()
        invariant
            c <= cs@.len(),
            r@.len() == c,
            forall|i: int| 0 <= i < cs@.len() ==> (#[trigger] cs@[i]).autos_wf(g),
            forall|i: int| 0 <= i < c ==> (#[trigger] r@[i])@ == cs@[i]@,
        decreases cs@.len() - c,
    {
        r.push(StoredClass { clauses: store_clauses(&cs[c].clauses, g), rng: Rng::from_raw(cs[c].rng.raw()) });
        c = c + 1;
    }
    assert(views(r@) =~= class_models(cs@));
    r
}

/// The automata that were stored, if they fit the geometry.
fn restore_automata(s: &StoredClause, g: &Geometry) -> (r: Option<Automata>)
    requires
        g.wf(),
    ensures
        match r {
            Some(a) => a.wf(g) && a@ == s@.auto,
            None => !state_wf(s@.auto, g.n_literals as nat, g.max_state),
        },
{
    if s.ta.len() != g.n_literals || s.ind.len() != g.n_literals || s.cat.len() != g.n_literals {
        return None;
    }
    let mut cat: Vec<u64> = no_bits(g.words);
    let mut l: usize = 0;
    while l < g.n_literals
        invariant
            g.wf(),
            l <= g.n_literals,
            s.ta@.len() == g.n_literals,
            s.ind@.len() == g.n_literals,
            s.cat@.len() == g.n_literals,
            cat@.len() == g.words,
            forall|i: int| 0 <= i < l ==> #[trigger] s.ta@[i] <= g.max_state,
            forall|i: int| 0 <= i < l ==> #[trigger] s.ind@[i] <= g.max_state,
            forall|i: int|
                0 <= i < 64 * g.words ==> #[trigger] bit_at(cat@, i) == (i < l && s.cat@[i] == 1),
        decreases g.n_literals - l,
    {
        if s.ta[l] > g.max_state || s.ind[l] > g.max_state {
            proof {
                assert(s@.auto.ta[l as int] > g.max_state || s@.auto.ind[l as int] > g.max_state);
            }
            return None;
        }
        if s.cat[l] == 1 {
            set_bit(&mut cat, l);
        }
        l = l + 1;
    }
    let ta: Vec<u8> = s.ta.clone();
    let mut inc: Vec<u64> = no_bits(g.words);
    proof {
        assert(ta@ =~= s.ta@);
    }
    rebuild_include(&ta, &mut inc, &g.valid, g.words, g.n_literals, g.half);
    let r: Automata = Automata { ta, inc, ind: s.ind.clone(), cat };
    proof {
        assert(r.ind@ =~= s.ind@);
        assert(bits_of(r.cat@, g.n_literals as nat) =~= flags(s.cat@));
    }
    Some(r)
}

/// The clauses that were stored, if they fit the configuration.
pub fn restore_clauses(s: &Vec<StoredClause>, g: &Geometry, count: usize, wmin: i32, wmax: i32) -> (r: Option<
    Vec<Clause>,
>)
    requires
        g.wf(),
    ensures
        match r {
            Some(v) => {
                &&& clause_models(v@) == views(s@)
                &&& v@.len() == count
                &&& forall|j: int| 0 <= j < v@.len() ==> (#[trigger] v@[j]).wf(g, wmin, wmax)
            },
            None => !clauses_ok(views(s@), count as nat, g.n_literals as nat, g.max_state, wmin, wmax),
        },
{
    if s.len() != count {
        return None;
    }
    let mut v: Vec<Clause> = Vec::with_capacity(s.len());
    let mut j: usize = 0;
    while j < s.len()
        invariant
            g.wf(),
            s@.len() == count,
            j <= s@.len(),
            v@.len() == j,
            forall|i: int| 0 <= i < j ==> (#[trigger] v@[i])@ == s@[i]@,
            forall|i: int| 0 <= i < j ==> (#[trigger] v@[i]).wf(g, wmin, wmax),
        decreases s@.len() - j,
    {
        let ghost bad = views(s@)[j as int];
        if s[j].weight < wmin || s[j].weight > wmax {
            proof {
                assert(!clause_ok(bad, g.n_literals as nat, g.max_state, wmin, wmax));
            }
            return None;
        }
        let auto: Automata = match restore_automata(&s[j], g) {
            Some(a) => a,
            None => {
                proof {
                    assert(!clause_ok(bad, g.n_literals as nat, g.max_state, wmin, wmax));
                }
                return None;
            },
        };
        v.push(Clause { auto, weight: s[j].weight, rng: Rng::from_raw(s[j].rng.raw()) });
        j = j + 1;
    }
    assert(clause_models(v@) =~= views(s@));
    Some(v)
}

/// The classes that were stored, if they fit the configuration.
pub fn restore_classes(
    s: &Vec<StoredClass>,
    g: &Geometry,
    n_classes: usize,
    per_class: usize,
    wmin: i32,
    wmax: i32,
) -> (r: Option<Vec<ClassBank>>)
    requires
        g.wf(),
    ensures
        match r {
            Some(v) => {
                &&& class_models(v@) == views(s@)
                &&& v@.len() == n_classes
                &&& forall|c: int| 0 <= c < v@.len() ==> (#[trigger] v@[c]).wf(g, wmin, wmax)
                &&& forall|c: int| 0 <= c < v@.len() ==> (#[trigger] v@[c]).clauses@.len() == per_class
            },
            None => !classes_ok(
                views(s@),
                n_classes as nat,
                per_class as nat,
                g.n_literals as nat,
                g.max_state,
                wmin,
                wmax,
            ),
        },
{
    if s.len() != n_classes {
        return None;
    }
    let mut v: Vec<ClassBank> = Vec::with_capacity(s.len());
    let mut c: usize = 0;
    while c < s.len()
        invariant
            g.wf(),
            s@.len() == n_classes,
            c <= s@.len(),
            v@.len() == c,
            forall|i: int| 0 <= i < c ==> (#[trigger] v@[i])@ == s@[i]@,
            forall|i: int| 0 <= i < c ==> (#[trigger] v@[i]).wf(g, wmin, wmax),
            forall|i: int| 0 <= i < c ==> (#[trigger] v@[i]).clauses@.len() == per_class,
        decreases s@.len() - c,
    {
        let ghost bad = views(s@)[c as int];
        let clauses: Vec<Clause> = match restore_clauses(&s[c].clauses, g, per_class, wmin, wmax) {
            Some(v) => v,
            None => {
                proof {
                    assert(!clauses_ok(
                        bad.clauses,
                        per_class as nat,
                        g.n_literals as nat,
                        g.max_state,
                        wmin,
                        wmax,
                    ));
                }
                return None;
            },
        };
        v.push(ClassBank { clauses, rng: Rng::from_raw(s[c].rng.raw()) });
        c = c + 1;
    }
    assert(class_models(v@) =~= views(s@));
    Some(v)
}

/// Clauses that carry no weight of their own, as they are stored.
pub open spec fn unweighted(m: SharedModel) -> Seq<ClauseModel> {
    Seq::new(m.autos.len(), |j: int| ClauseModel { auto: m.autos[j], weight: 0, rng: m.rngs[j] })
}

/// Shared clauses as they are stored.
pub fn store_shared(cs: &Vec<SharedClause>, g: &Geometry) -> (r: Vec<StoredClause>)
    requires
        shared_wf(cs@, g),
    ensures
        views(r@) == unweighted(shared_model(cs@)),
{
    let mut r: Vec<StoredClause> = Vec::with_capacity(cs.len());
    let mut j: usize = 0;
    while j < cs.len()
        invariant
            j <= cs@.len(),
            r@.len() == j,
            shared_wf(cs@, g),
            forall|i: int|
                0 <= i < j ==> (#[trigger] r@[i])@ == (ClauseModel {
                    auto: cs@[i].auto@,
                    weight: 0,
                    rng: cs@[i].rng@,
                }),
        decreases cs@.len() - j,
    {
        r.push(store_automata(&cs[j].auto, g, 0, &cs[j].rng));
        j = j + 1;
    }
    assert(views(r@) =~= unweighted(shared_model(cs@)));
    r
}

/// The shared clauses that were stored, if they fit the configuration.
pub fn restore_shared(s: &Vec<StoredClause>, g: &Geometry, count: usize) -> (r: Option<Vec<SharedClause>>)
    requires
        g.wf(),
    ensures
        match r {
            Some(v) => {
                &&& unweighted(shared_model(v@)) == views(s@)
                &&& v@.len() == count
                &&& shared_wf(v@, g)
            },
            None => !clauses_ok(views(s@), count as nat, g.n_literals as nat, g.max_state, 0, 0),
        },
{
    if s.len() != count {
        return None;
    }
    let mut v: Vec<SharedClause> = Vec::with_capacity(s.len());
    let mut j: usize = 0;
    while j < s.len()
        invariant
            g.wf(),
            s@.len() == count,
            j <= s@.len(),
            v@.len() == j,
            forall|i: int|
                0 <= i < j ==> s@[i]@ == (ClauseModel {
                    auto: (#[trigger] v@[i]).auto@,
                    weight: 0,
                    rng: v@[i].rng@,
                }),
            forall|i: int| 0 <= i < j ==> (#[trigger] v@[i]).auto.wf(g),
        decreases s@.len() - j,
    {
        let ghost bad = views(s@)[j as int];
        if s[j].weight != 0 {
            proof {
                assert(!clause_ok(bad, g.n_literals as nat, g.max_state, 0, 0));
            }
            return None;
        }
        let auto: Automata = match restore_automata(&s[j], g) {
            Some(a) => a,
            None => {
                proof {
                    assert(!clause_ok(bad, g.n_literals as nat, g.max_state, 0, 0));
                }
                return None;
            },
        };
        v.push(SharedClause { auto, rng: Rng::from_raw(s[j].rng.raw()) });
        j = j + 1;
    }
    assert(unweighted(shared_model(v@)) =~= views(s@));
    Some(v)
}

/// The bit patterns of class weights.
pub open spec fn scale_bits(v: Seq<Dyadic>) -> Seq<u64> {
    Seq::new(v.len(), |c: int| f64_bits(v[c]))
}

/// Bit patterns of class weights: positive.
pub open spec fn scales_ok(b: Seq<u64>, n: nat) -> bool {
    b.len() == n && forall|c: int| 0 <= c < b.len() ==> 0 < #[trigger] b[c] <= INFINITY_BITS
}

/// The bit patterns of class weights.
pub fn store_scales(v: &Vec<Dyadic>) -> (r: Vec<u64>)
    requires
        forall|c: int| 0 <= c < v@.len() ==> (#[trigger] v@[c]).wf(),
    ensures
        r@ == scale_bits(v@),
{
    let mut r: Vec<u64> = Vec::with_capacity(v.len());
    let mut c: usize = 0;
    while c < v.len()
        invariant
            c <= v@.len(),
            forall|i: int| 0 <= i < v@.len() ==> (#[trigger] v@[i]).wf(),
            r@.len() == c,
            forall|i: int| 0 <= i < c ==> #[trigger] r@[i] == f64_bits(v@[i]),
        decreases v@.len() - c,
    {
        r.push(v[c].to_bits());
        c = c + 1;
    }
    assert(r@ =~= scale_bits(v@));
    r
}

/// The class weights with the given bit patterns.
pub fn restore_scales(b: &Vec<u64>, n: usize) -> (r: Option<Vec<Dyadic>>)
    ensures
        match r {
            Some(v) => {
                &&& v@.len() == n
                &&& scale_bits(v@) == b@
                &&& forall|c: int| 0 <= c < n ==> (#[trigger] v@[c]).wf() && v@[c].mant > 0
                &&& scales_ok(b@, n as nat)
            },
            None => !scales_ok(b@, n as nat),
        },
{
    if b.len() != n {
        return None;
    }
    let mut v: Vec<Dyadic> = Vec::with_capacity(b.len());
    let mut c: usize = 0;
    while c < b.len()
        invariant
            c <= b@.len(),
            v@.len() == c,
            forall|i: int| 0 <= i < c ==> 0 < #[trigger] b@[i] <= INFINITY_BITS,
            forall|i: int|
                0 <= i < c ==> (#[trigger] v@[i]).wf() && v@[i].mant > 0 && f64_bits(v@[i]) == b@[i],
        decreases b@.len() - c,
    {
        if b[c] == 0 || b[c] > INFINITY_BITS {
            return None;
        }
        match Dyadic::from_bits(b[c]) {
            Some(d) => {
                proof {
                    lemma_f64_bits(d, b@[c as int]);
                }
                v.push(d);
            },
            None => return None,
        }
        c = c + 1;
    }
    assert(scale_bits(v@) =~= b@);
    Some(v)
}

/// Equal bit patterns are those of equal class weights.
pub proof fn lemma_scale_bits(u: Seq<Dyadic>, v: Seq<Dyadic>)
    requires
        forall|c: int| 0 <= c < u.len() ==> (#[trigger] u[c]).wf(),
        forall|c: int| 0 <= c < v.len() ==> (#[trigger] v[c]).wf(),
        scale_bits(u) == scale_bits(v),
    ensures
        u == v,
{
    assert(scale_bits(u).len() == u.len() && scale_bits(v).len() == v.len());
    assert forall|c: int| 0 <= c < u.len() implies u[c] == v[c] by {
        assert(u[c].wf() && v[c].wf());
        assert(f64_bits(u[c]) == scale_bits(u)[c] && f64_bits(v[c]) == scale_bits(v)[c]);
        lemma_f64_bits(u[c], 0);
        lemma_f64_bits(v[c], 0);
    }
    assert(u =~= v);
}

/// Whether the product of three sizes is a size.
pub fn product_fits(a: usize, b: usize, c: usize) -> (r: bool)
    requires
        c >= 1,
    ensures
        r == (a * b * c <= usize::MAX),
{
    match a.checked_mul(b) {
        Some(ab) => match ab.checked_mul(c) {
            Some(_) => true,
            None => false,
        },
        None => {
            proof {
                assert(a * b * c >= a * b) by (nonlinear_arith)
                    requires
                        c >= 1,
                        a >= 0,
                        b >= 0,
                ;
            }
            false
        },
    }
}

/// The clauses of a valid class fit its configuration.
pub proof fn lemma_clauses_ok(cs: Seq<Clause>, g: &Geometry, wmin: i32, wmax: i32)
    requires
        forall|j: int| 0 <= j < cs.len() ==> (#[trigger] cs[j]).wf(g, wmin, wmax),
    ensures
        clauses_ok(clause_models(cs), cs.len(), g.n_literals as nat, g.max_state, wmin, wmax),
{
    let m = clause_models(cs);
    assert forall|j: int| 0 <= j < m.len() implies clause_ok(
        #[trigger] m[j],
        g.n_literals as nat,
        g.max_state,
        wmin,
        wmax,
    ) by {
        assert(cs[j].wf(g, wmin, wmax));
    }
}

/// Valid classes fit their configuration.
pub proof fn lemma_classes_ok(cs: Seq<ClassBank>, g: &Geometry, per_class: nat, wmin: i32, wmax: i32)
    requires
        forall|c: int| 0 <= c < cs.len() ==> (#[trigger] cs[c]).wf(g, wmin, wmax),
        forall|c: int| 0 <= c < cs.len() ==> (#[trigger] cs[c]).clauses@.len() == per_class,
    ensures
        classes_ok(class_models(cs), cs.len(), per_class, g.n_literals as nat, g.max_state, wmin, wmax),
{
    let m = class_models(cs);
    assert forall|c: int| 0 <= c < m.len() implies clauses_ok(
        (#[trigger] m[c]).clauses,
        per_class,
        g.n_literals as nat,
        g.max_state,
        wmin,
        wmax,
    ) by {
        assert(cs[c].wf(g, wmin, wmax));
        lemma_clauses_ok(cs[c].clauses@, g, wmin, wmax);
    }
}

/// Positive class weights have bit patterns of class weights.
pub proof fn lemma_scales_ok(v: Seq<Dyadic>)
    requires
        forall|c: int| 0 <= c < v.len() ==> (#[trigger] v[c]).wf() && v[c].mant > 0,
    ensures
        scales_ok(scale_bits(v), v.len()),
{
    assert forall|c: int| 0 <= c < v.len() implies 0 < #[trigger] scale_bits(v)[c] <= INFINITY_BITS by {
        assert(v[c].wf());
        lemma_f64_bits(v[c], 0);
    }
}

/// The first `n` generators.
pub fn copy_rngs(v: &Vec<Rng>, n: usize) -> (r: Vec<Rng>)
    requires
        n <= v@.len(),
    ensures
        r@.len() == n,
        raw_positions(r@) == raw_positions(v@).take(n as int),
{
    let mut r: Vec<Rng> = Vec::with_capacity(n);
    let mut i: usize = 0;
    while i < n
        invariant
            i <= n <= v@.len(),
            r@.len() == i,
            forall|k: int| 0 <= k < i ==> (#[trigger] r@[k])@ == v@[k]@,
        decreases n - i,
    {
        r.push(Rng::from_raw(v[i].raw()));
        i = i + 1;
    }
    assert(raw_positions(r@) =~= raw_positions(v@).take(n as int));
    r
}

/// There are `n` rows of `len` weights.
pub open spec fn rows_ok(rows: Seq<Seq<i32>>, n: nat, len: nat) -> bool {
    rows.len() == n && forall|c: int| 0 <= c < rows.len() ==> (#[trigger] rows[c]).len() == len
}

/// A copy of rows of weights, if there are `n` rows of `len` weights.
pub fn copy_rows(rows: &Vec<Vec<i32>>, n: usize, len: usize) -> (r: Option<Vec<Vec<i32>>>)
    ensures
        match r {
            Some(v) => {
                &&& views(v@) == views(rows@)
                &&& v@.len() == n
                &&& forall|c: int| 0 <= c < v@.len() ==> (#[trigger] v@[c])@.len() == len
                &&& rows_ok(views(rows@), n as nat, len as nat)
            },
            None => !rows_ok(views(rows@), n as nat, len as nat),
        },
{
    if rows.len() != n {
        return None;
    }
    let mut v: Vec<Vec<i32>> = Vec::with_capacity(rows.len());
    let mut c: usize = 0;
    while c < rows.len()
        invariant
            c <= rows@.len(),
            v@.len() == c,
            forall|k: int| 0 <= k < c ==> (#[trigger] v@[k])@ == rows@[k]@,
            forall|k: int| 0 <= k < c ==> (#[trigger] rows@[k])@.len() == len,
        decreases rows@.len() - c,
    {
        if rows[c].len() != len {
            proof {
                assert(views(rows@)[c as int].len() != len);
            }
            return None;
        }
        let row: Vec<i32> = rows[c].clone();
        proof {
            assert(row@ =~= rows@[c as int]@);
        }
        v.push(row);
        c = c + 1;
    }
    proof {
        assert(views(v@) =~= views(rows@));
        assert forall|k: int| 0 <= k < v@.len() implies (#[trigger] v@[k])@.len() == len by {
            assert(rows@[k]@.len() == len);
        }
    }
    Some(v)
}

/// Valid shared clauses fit their configuration.
pub proof fn lemma_shared_ok(cs: Seq<SharedClause>, g: &Geometry)
    requires
        shared_wf(cs, g),
    ensures
        clauses_ok(unweighted(shared_model(cs)), cs.len(), g.n_literals as nat, g.max_state, 0, 0),
{
    let m = unweighted(shared_model(cs));
    assert forall|j: int| 0 <= j < m.len() implies clause_ok(
        #[trigger] m[j],
        g.n_literals as nat,
        g.max_state,
        0,
        0,
    ) by {
        assert(cs[j].auto.wf(g));
    }
}

/// What is stored of shared clauses determines them.
pub proof fn lemma_unweighted(a: SharedModel, b: SharedModel)
    requires
        a.rngs.len() == a.autos.len(),
        b.rngs.len() == b.autos.len(),
        unweighted(a) == unweighted(b),
    ensures
        a == b,
{
    assert(unweighted(a).len() == a.autos.len() && unweighted(b).len() == b.autos.len());
    assert forall|j: int| 0 <= j < a.autos.len() implies a.autos[j] == b.autos[j] && a.rngs[j] == b.rngs[j] by {
        assert(unweighted(a)[j] == unweighted(b)[j]);
    }
    assert(a.autos =~= b.autos);
    assert(a.rngs =~= b.rngs);
}

} // verus!
