//! The sparse machine as it is saved.
use crate::bits::words_for;
use crate::clause_bank::sparse::{
    disjoint, distinct, splits, states_fit, within, SparseClause, SparseClauseBank, ABSORB_EXCLUDE,
};
use crate::dyadic::{f64_bits, f64_value, lemma_f64_bits, Chance, Dyadic, INFINITY_BITS};
use crate::models::classification::sparse_classifier::{
    positions, reward_limit, SparseClass, SparseClassModel, SparseConfig, SparseMachineModel,
    TMSparseClassifier,
};
use crate::rng::{rng_skip, Rng};
use crate::sampling::{epoch_order_of, other_index, shuffle_draws};
use crate::saved::artifact::{Artifact, Image};
use crate::saved::dense::{
    bit_word, copy_rngs, lemma_scale_bits, lemma_scales_ok, product_fits, restore_scales,
    scale_bits, scales_ok, store_scales, word_of,
};
use crate::saved::save_load::SaveLoad;
use crate::saved::stored::{
    get_list, lemma_list_roundtrip, list_bytes, list_fits, put_list, take_list, views, Stored,
};
use crate::serial::{
    failed, le_of, lemma_u64_roundtrip, lemma_vec_i32_roundtrip, lemma_vec_u64_roundtrip, parsed,
    raw_positions, take_num, take_vec_i32, take_vec_u64, vec_i32_bytes, vec_u64_bytes, w_rngs,
    w_u64, w_vec_i32, Parse, Reader, SerialError, TAG_SPARSE,
};
use vstd::prelude::*;

verus! {

/// A class of a sparse machine as it is stored.
pub struct StoredSparseClass {
    pub pools: Vec<SparseClause>,
    pub weights: Vec<i32>,
    pub rngs: Vec<Rng>,
    pub rng: Rng,
}

impl View for StoredSparseClass {
    type V = SparseClassModel;

    open spec fn view(&self) -> SparseClassModel {
        SparseClassModel {
            pools: views(self.pools@),
            weights: self.weights@,
            rngs: raw_positions(self.rngs@),
            rng: self.rng@,
        }
    }
}

impl Stored for StoredSparseClass {
    open spec fn fits(v: SparseClassModel) -> bool {
        &&& list_fits::<SparseClause>(v.pools)
        &&& v.weights.len() <= usize::MAX
        &&& v.rngs.len() <= usize::MAX
    }

    open spec fn bytes(v: SparseClassModel) -> Seq<u8> {
        list_bytes::<SparseClause>(v.pools) + (vec_i32_bytes(v.weights) + (vec_u64_bytes(v.rngs) + le_of(
            v.rng as int,
            8,
        )))
    }

    open spec fn take(b: Seq<u8>) -> Parse<SparseClassModel> {
        match take_list::<SparseClause>(b) {
            Err(e) => failed(e),
            Ok((pools, b1)) => match take_vec_i32(b1) {
                Err(e) => failed(e),
                Ok((weights, b2)) => match take_vec_u64(b2) {
                    Err(e) => failed(e),
                    Ok((rngs, b3)) => match take_num(b3, 8) {
                        Err(e) => failed(e),
                        Ok((rng, b4)) => parsed(
                            SparseClassModel { pools, weights, rngs, rng: rng as u64 },
                            b4,
                        ),
                    },
                },
            },
        }
    }

    fn put(&self, w: &mut Vec<u8>) {
        let ghost start = w@;
        put_list(&self.pools, w);
        w_vec_i32(w, &self.weights);
        w_rngs(w, &self.rngs);
        w_u64(w, self.rng.raw());
        assert(w@ =~= start + Self::bytes(self@));
        assert(self.weights.len() <= usize::MAX && self.rngs.len() <= usize::MAX);
    }

    fn get(r: &mut Reader) -> (v: Result<StoredSparseClass, SerialError>) {
        let pools: Vec<SparseClause> = match get_list(r) {
            Ok(v) => v,
            Err(e) => return Err(e),
        };
        let weights: Vec<i32> = match r.r_vec_i32() {
            Ok(v) => v,
            Err(e) => return Err(e),
        };
        let rngs: Vec<Rng> = match r.r_rngs() {
            Ok(v) => v,
            Err(e) => return Err(e),
        };
        let state: u64 = match r.r_u64() {
            Ok(v) => v,
            Err(e) => return Err(e),
        };
        Ok(StoredSparseClass { pools, weights, rngs, rng: Rng::from_raw(state) })
    }

    proof fn lemma_roundtrip(v: SparseClassModel, tail: Seq<u8>) {
        let t3 = le_of(v.rng as int, 8) + tail;
        let t2 = vec_u64_bytes(v.rngs) + t3;
        let t1 = vec_i32_bytes(v.weights) + t2;
        assert(Self::bytes(v) + tail =~= list_bytes::<SparseClause>(v.pools) + t1);
        lemma_list_roundtrip::<SparseClause>(v.pools, t1);
        lemma_vec_i32_roundtrip(v.weights, t2);
        lemma_vec_u64_roundtrip(v.rngs, t3);
        lemma_u64_roundtrip(v.rng, tail);
    }
}

/// Exactly the literals of `a` are marked.
spec fn marks(seen: Seq<bool>, a: Seq<u32>) -> bool {
    forall|l: int| 0 <= l < seen.len() ==> (#[trigger] seen[l] <==> a.contains(l as u32))
}

/// Marks the literals of a pool, unless one is out of range or already marked.
fn mark(a: &Vec<u32>, seen: &mut Vec<bool>, Ghost(before): Ghost<Seq<u32>>) -> (r: bool)
    requires
        marks(old(seen)@, before),
        old(seen)@.len() <= u32::MAX,
    ensures
        final(seen)@.len() == old(seen)@.len(),
        r == (within(a@, old(seen)@.len()) && distinct(a@) && disjoint(before, a@)),
        r ==> marks(final(seen)@, before + a@),
{
    let ghost n = seen@.len();
    let mut i: usize = 0;
    proof {
        assert(before + a@.take(0) =~= before);
    }
    while i < a.len()
        invariant
            i <= a@.len(),
            n == old(seen)@.len(),
            seen@.len() == n,
            n <= u32::MAX,
            marks(seen@, before + a@.take(i as int)),
            within(a@.take(i as int), n),
            distinct(a@.take(i as int)),
            disjoint(before, a@.take(i as int)),
        decreases a@.len() - i,
    {
        let l: usize = a[i] as usize;
        let ghost done = a@.take(i as int);
        if l >= seen.len() {
            return false;
        }
        if seen[l] {
            proof {
                assert((before + done).contains(a@[i as int]));
                let k = choose|k: int| 0 <= k < (before + done).len() && (before + done)[k] == a@[i as int];
                if k < before.len() {
                    assert(before[k] == a@[i as int]);
                } else {
                    assert(done[k - before.len()] == a@[k - before.len()]);
                }
            }
            return false;
        }
        let ghost marked = seen@;
        seen.set(l, true);
        proof {
            let next = a@.take(i + 1);
            assert(next =~= done.push(a@[i as int]));
            assert(before + next =~= (before + done).push(a@[i as int]));
            assert(!(before + done).contains(a@[i as int]));
            assert forall|m: int| 0 <= m < n implies (#[trigger] seen@[m] <==> (before + next).contains(m as u32)) by {
                let all = before + done;
                if m == l {
                    assert((before + next)[all.len() as int] == m as u32);
                } else {
                    assert(marked[m] <==> all.contains(m as u32));
                    if all.contains(m as u32) {
                        let k = choose|k: int| 0 <= k < all.len() && all[k] == m as u32;
                        assert((before + next)[k] == m as u32);
                    }
                    if (before + next).contains(m as u32) {
                        let k = choose|k: int|
                            0 <= k < (before + next).len() && (before + next)[k] == m as u32;
                        assert(k < all.len());
                        assert(all[k] == m as u32);
                    }
                }
            }
            assert forall|x: int, y: int| 0 <= x < y < next.len() implies #[trigger] next[x]
                != #[trigger] next[y] by {
                if y == i {
                    assert((before + done)[before.len() + x] == next[x]);
                } else {
                    assert(done[x] == next[x] && done[y] == next[y]);
                }
            }
            assert forall|x: int, y: int| 0 <= x < before.len() && 0 <= y < next.len() implies #[trigger] before[x]
                != #[trigger] next[y] by {
                if y == i {
                    assert((before + done)[x] == before[x]);
                } else {
                    assert(done[y] == next[y]);
                }
            }
        }
        i = i + 1;
    }
    assert(a@.take(a@.len() as int) =~= a@);
    true
}

/// Whether the pools split the `n` literals.
fn check_splits(c: &SparseClause, n: usize) -> (r: bool)
    requires
        n <= u32::MAX,
    ensures
        r == splits(c@, n as nat),
{
    let a: usize = c.included.len();
    let b: usize = c.excluded.len();
    let u: usize = c.unallocated.len();
    if a > n || b > n - a || u != n - a - b {
        return false;
    }
    let mut seen: Vec<bool> = vec![false; n];
    let ghost none: Seq<u32> = seq![];
    let ghost one = none + c.included@;
    let ghost two = one + c.excluded@;
    if !mark(&c.included, &mut seen, Ghost(none)) {
        return false;
    }
    proof {
        assert(one =~= c.included@);
    }
    if !mark(&c.excluded, &mut seen, Ghost(one)) {
        return false;
    }
    proof {
        assert(disjoint(two, c.unallocated@) == (disjoint(c.included@, c.unallocated@) && disjoint(
            c.excluded@,
            c.unallocated@,
        ))) by {
            lemma_disjoint_joined(c.included@, c.excluded@, c.unallocated@);
        }
    }
    mark(&c.unallocated, &mut seen, Ghost(two))
}

proof fn lemma_disjoint_joined(a: Seq<u32>, b: Seq<u32>, c: Seq<u32>)
    ensures
        disjoint(a + b, c) == (disjoint(a, c) && disjoint(b, c)),
{
    if disjoint(a + b, c) {
        assert forall|i: int, j: int| 0 <= i < a.len() && 0 <= j < c.len() implies #[trigger] a[i]
            != #[trigger] c[j] by {
            assert((a + b)[i] == a[i]);
        }
        assert forall|i: int, j: int| 0 <= i < b.len() && 0 <= j < c.len() implies #[trigger] b[i]
            != #[trigger] c[j] by {
            assert((a + b)[a.len() + i] == b[i]);
        }
    }
    if disjoint(a, c) && disjoint(b, c) {
        assert forall|i: int, j: int| 0 <= i < (a + b).len() && 0 <= j < c.len() implies #[trigger] (a + b)[i]
            != #[trigger] c[j] by {
            if i < a.len() {
                assert((a + b)[i] == a[i]);
            } else {
                assert((a + b)[i] == b[i - a.len()]);
            }
        }
    }
}

/// Whether the states fit the pools.
fn check_states(c: &SparseClause, half: u8, max: u8) -> (r: bool)
    ensures
        r == states_fit(c@, half, max),
{
    if c.included_state.len() != c.included.len() || c.excluded_state.len() != c.excluded.len() {
        return false;
    }
    let mut i: usize = 0;
    while i < c.included_state.len()
        invariant
            i <= c.included_state@.len(),
            forall|k: int| 0 <= k < i ==> half <= #[trigger] c.included_state@[k] <= max,
        decreases c.included_state@.len() - i,
    {
        if c.included_state[i] < half || c.included_state[i] > max {
            return false;
        }
        i = i + 1;
    }
    i = 0;
    while i < c.excluded_state.len()
        invariant
            i <= c.excluded_state@.len(),
            forall|k: int| 0 <= k < i ==> ABSORB_EXCLUDE < #[trigger] c.excluded_state@[k] < half,
        decreases c.excluded_state@.len() - i,
    {
        if c.excluded_state[i] <= ABSORB_EXCLUDE || c.excluded_state[i] >= half {
            return false;
        }
        i = i + 1;
    }
    true
}

/// A copy of a clause.
fn copy_clause(c: &SparseClause) -> (r: SparseClause)
    ensures
        r@ == c@,
{
    let r: SparseClause = SparseClause {
        included: c.included.clone(),
        included_state: c.included_state.clone(),
        excluded: c.excluded.clone(),
        excluded_state: c.excluded_state.clone(),
        unallocated: c.unallocated.clone(),
    };
    proof {
        assert(r.included@ =~= c.included@);
        assert(r.included_state@ =~= c.included_state@);
        assert(r.excluded@ =~= c.excluded@);
        assert(r.excluded_state@ =~= c.excluded_state@);
        assert(r.unallocated@ =~= c.unallocated@);
    }
    r
}

/// A class fits a configuration.
pub open spec fn sparse_class_ok(
    m: SparseClassModel,
    per_class: nat,
    n: nat,
    half: u8,
    max: u8,
    threshold: i32,
) -> bool {
    &&& m.pools.len() == per_class
    &&& forall|j: int|
        0 <= j < m.pools.len() ==> splits(#[trigger] m.pools[j], n) && states_fit(m.pools[j], half, max)
    &&& m.weights.len() == per_class
    &&& forall|j: int| 0 <= j < m.weights.len() ==> 1 <= #[trigger] m.weights[j] <= threshold
    &&& m.rngs.len() == per_class
}

/// The class that was stored, if it fits the configuration.
fn restore_class(s: &StoredSparseClass, cfg: &SparseConfig) -> (r: Option<SparseClass>)
    requires
        cfg.wf(),
    ensures
        match r {
            Some(k) => k.wf(cfg) && k@ == s@,
            None => !sparse_class_ok(
                s@,
                cfg.clauses_per_class as nat,
                cfg.n_literals as nat,
                cfg.half,
                cfg.max_state,
                cfg.threshold,
            ),
        },
{
    if s.pools.len() != cfg.clauses_per_class || s.weights.len() != cfg.clauses_per_class || s.rngs.len()
        != cfg.clauses_per_class {
        return None;
    }
    let mut clauses: Vec<SparseClause> = Vec::with_capacity(s.pools.len());
    let mut j: usize = 0;
    while j < s.pools.len()
        invariant
            cfg.wf(),
            s.pools@.len() == cfg.clauses_per_class,
            s.weights@.len() == cfg.clauses_per_class,
            j <= s.pools@.len(),
            clauses@.len() == j,
            forall|k: int| 0 <= k < j ==> (#[trigger] clauses@[k])@ == s.pools@[k]@,
            forall|k: int|
                0 <= k < j ==> (#[trigger] clauses@[k]).wf(cfg.n_literals as nat, cfg.half, cfg.max_state),
            forall|k: int| 0 <= k < j ==> 1 <= #[trigger] s.weights@[k] <= cfg.threshold,
        decreases s.pools@.len() - j,
    {
        let ghost bad = s@.pools[j as int];
        if !check_splits(&s.pools[j], cfg.n_literals) || !check_states(&s.pools[j], cfg.half, cfg.max_state) {
            proof {
                assert(bad == s.pools@[j as int]@);
            }
            return None;
        }
        if s.weights[j] < 1 || s.weights[j] > cfg.threshold {
            proof {
                assert(s@.weights[j as int] == s.weights@[j as int]);
            }
            return None;
        }
        clauses.push(copy_clause(&s.pools[j]));
        j = j + 1;
    }
    let weights: Vec<i32> = s.weights.clone();
    let rngs: Vec<Rng> = copy_rngs(&s.rngs, s.rngs.len());
    let r: SparseClass = SparseClass {
        bank: SparseClauseBank {
            n_clauses: cfg.clauses_per_class,
            n_literals: cfg.n_literals,
            half: cfg.half,
            max_state: cfg.max_state,
            clauses,
        },
        weights,
        rngs,
        rng: Rng::from_raw(s.rng.raw()),
    };
    proof {
        assert(weights@ =~= s.weights@);
        assert(raw_positions(s.rngs@).take(s.rngs@.len() as int) =~= raw_positions(s.rngs@));
        assert(positions(rngs@) =~= raw_positions(rngs@));
        assert(r.bank.models() =~= s@.pools);
        let (a, b, n) = (cfg.n_classes as int, cfg.clauses_per_class as int, cfg.n_literals as int);
        assert(b * n <= a * b * n) by (nonlinear_arith)
            requires
                a >= 1,
                b >= 0,
                n >= 0,
        ;
    }
    Some(r)
}

/// A class as it is stored.
fn store_class(k: &SparseClass) -> (r: StoredSparseClass)
    ensures
        r@ == k@,
{
    let mut pools: Vec<SparseClause> = Vec::with_capacity(k.bank.clauses.len());
    let mut j: usize = 0;
    while j < k.bank.clauses.len()
        invariant
            j <= k.bank.clauses@.len(),
            pools@.len() == j,
            forall|i: int| 0 <= i < j ==> (#[trigger] pools@[i])@ == k.bank.clauses@[i]@,
        decreases k.bank.clauses@.len() - j,
    {
        pools.push(copy_clause(&k.bank.clauses[j]));
        j = j + 1;
    }
    let weights: Vec<i32> = k.weights.clone();
    let rngs: Vec<Rng> = copy_rngs(&k.rngs, k.rngs.len());
    proof {
        assert(views(pools@) =~= k@.pools);
        assert(weights@ =~= k.weights@);
        assert(raw_positions(k.rngs@).take(k.rngs@.len() as int) =~= positions(k.rngs@));
    }
    StoredSparseClass { pools, weights, rngs, rng: Rng::from_raw(k.rng.raw()) }
}

impl SparseConfig {
    /// The settings are those of `other`.
    pub open spec fn same(&self, other: &SparseConfig) -> bool {
        &&& self.n_classes == other.n_classes
        &&& self.n_features == other.n_features
        &&& self.n_literals == other.n_literals
        &&& self.words == other.words
        &&& self.clauses_per_class == other.clauses_per_class
        &&& self.threshold == other.threshold
        &&& self.s == other.s
        &&& self.inv == other.inv
        &&& self.keep == other.keep
        &&& self.boost_true_positive == other.boost_true_positive
        &&& self.max_included_literals == other.max_included_literals
        &&& self.clause_drop == other.clause_drop
        &&& self.literal_drop == other.literal_drop
        &&& self.literal_keep == other.literal_keep
        &&& self.half == other.half
        &&& self.max_state == other.max_state
        &&& self.class_weights@ == other.class_weights@
    }

    /// The numbers of the configuration.
    pub open spec fn to_image(&self) -> Seq<u64> {
        seq![
            self.n_classes as u64,
            self.n_features as u64,
            self.clauses_per_class as u64,
            self.threshold as u64,
            f64_bits(self.s),
            bit_word(self.boost_true_positive),
            self.max_included_literals as u64,
            self.clause_drop.floor,
            bit_word(self.clause_drop.exact),
            self.literal_drop.floor,
            bit_word(self.literal_drop.exact),
            self.literal_keep.floor,
            bit_word(self.literal_keep.exact),
            self.half as u64,
        ]
    }

    /// The configuration with the given numbers, if there is one.
    fn from_words(w: &[u64], scales: &Vec<u64>) -> (r: Option<Self>)
        ensures
            match r {
                Some(t) => t.wf() && t.to_image() == w@ && scale_bits(t.class_weights@) == scales@,
                None => !sparse_words_ok(w@, scales@),
            },
    {
        if w.len() != 14 {
            return None;
        }
        let most: u64 = usize::MAX as u64;
        if w[0] < 2 || w[0] > most || w[1] < 1 || w[1] > most / 2 || w[1] > 0x7FFF_FFFF || w[2] < 2 || w[2]
            > most || w[3] < 1 || w[3] > 0x7FFF_FFFF || w[4] > INFINITY_BITS || w[5] > 1 || w[6] > most || w[8]
            > 1 || w[10] > 1 || w[12] > 1 || w[13] < 2 || w[13] > 128 {
            return None;
        }
        let n_classes: usize = w[0] as usize;
        let n_features: usize = w[1] as usize;
        let clauses_per_class: usize = w[2] as usize;
        let n_literals: usize = 2 * n_features;
        if n_literals > usize::MAX - 64 || !product_fits(n_classes, clauses_per_class, n_literals) {
            return None;
        }
        let s: Dyadic = match Dyadic::from_bits(w[4]) {
            Some(s) => s,
            None => return None,
        };
        if !s.is_above_one() {
            return None;
        }
        let class_weights: Vec<Dyadic> = match restore_scales(scales, n_classes) {
            Some(v) => v,
            None => return None,
        };
        let half: u8 = w[13] as u8;
        let r: SparseConfig = SparseConfig {
            n_classes,
            n_features,
            n_literals,
            words: words_for(n_literals),
            clauses_per_class,
            threshold: w[3] as i32,
            s,
            inv: s.recip().chance().floor,
            keep: reward_limit(&s),
            boost_true_positive: w[5] == 1,
            max_included_literals: w[6] as usize,
            clause_drop: Chance { floor: w[7], exact: w[8] == 1 },
            literal_drop: Chance { floor: w[9], exact: w[10] == 1 },
            literal_keep: Chance { floor: w[11], exact: w[12] == 1 },
            half,
            max_state: half - 1 + half,
            class_weights,
        };
        proof {
            lemma_f64_bits(s, w@[4]);
            assert(r.to_image() =~= w@);
        }
        Some(r)
    }
}

/// Some configuration has the numbers `w` and the class weights `scales`.
pub open spec fn sparse_words_ok(w: Seq<u64>, scales: Seq<u64>) -> bool {
    &&& w.len() == 14
    &&& 2 <= w[0] <= usize::MAX
    &&& 1 <= w[1] && 2 * w[1] <= u32::MAX && 2 * w[1] + 64 <= usize::MAX
    &&& 2 <= w[2] <= usize::MAX
    &&& w[0] * w[2] * (2 * w[1]) <= usize::MAX
    &&& 1 <= w[3] <= 0x7FFF_FFFF
    &&& w[4] <= INFINITY_BITS && f64_value(w[4]).above_one()
    &&& w[5] <= 1
    &&& w[6] <= usize::MAX
    &&& w[8] <= 1
    &&& w[10] <= 1
    &&& w[12] <= 1
    &&& 2 <= w[13] <= 128
    &&& scales_ok(scales, w[0] as nat)
}

impl SaveLoad for TMSparseClassifier {
    type Saved = Artifact<StoredSparseClass>;

    open spec fn tag() -> u8 {
        TAG_SPARSE
    }

    open spec fn valid(&self) -> bool {
        self.wf()
    }

    open spec fn image(&self) -> Image<SparseClassModel> {
        Image {
            words: self.config.to_image(),
            digits: seq![],
            scales: scale_bits(self.config.class_weights@),
            classes: self@.classes,
            rows: seq![],
            rngs: seq![self@.rng, self@.literal_rng],
        }
    }

    open spec fn admits(v: Image<SparseClassModel>) -> bool {
        let w = v.words;
        &&& sparse_words_ok(w, v.scales)
        &&& v.digits.len() == 0
        &&& v.classes.len() == w[0]
        &&& forall|c: int|
            0 <= c < v.classes.len() ==> sparse_class_ok(
                #[trigger] v.classes[c],
                w[2] as nat,
                (2 * w[1]) as nat,
                w[13] as u8,
                (2 * w[13] - 1) as u8,
                w[3] as i32,
            )
        &&& v.rows.len() == 0
        &&& v.rngs.len() == 2
    }

    open spec fn is_reset(&self) -> bool {
        true
    }

    fn type_tag() -> (r: u8) {
        TAG_SPARSE
    }

    fn to_saved(&self) -> (r: Artifact<StoredSparseClass>) {
        let cfg: &SparseConfig = &self.config;
        let words: Vec<u64> = vec![
            cfg.n_classes as u64,
            cfg.n_features as u64,
            cfg.clauses_per_class as u64,
            cfg.threshold as u64,
            cfg.s.to_bits(),
            word_of(cfg.boost_true_positive),
            cfg.max_included_literals as u64,
            cfg.clause_drop.floor,
            word_of(cfg.clause_drop.exact),
            cfg.literal_drop.floor,
            word_of(cfg.literal_drop.exact),
            cfg.literal_keep.floor,
            word_of(cfg.literal_keep.exact),
            cfg.half as u64,
        ];
        let mut classes: Vec<StoredSparseClass> = Vec::with_capacity(self.classes.len());
        let mut c: usize = 0;
        while c < self.classes.len()
            invariant
                c <= self.classes@.len(),
                classes@.len() == c,
                forall|i: int| 0 <= i < c ==> (#[trigger] classes@[i])@ == self.classes@[i]@,
            decreases self.classes@.len() - c,
        {
            classes.push(store_class(&self.classes[c]));
            c = c + 1;
        }
        let rngs: Vec<Rng> = vec![Rng::from_raw(self.rng.raw()), Rng::from_raw(self.literal_rng.raw())];
        let r: Artifact<StoredSparseClass> = Artifact {
            words,
            digits: Vec::new(),
            scales: store_scales(&cfg.class_weights),
            classes,
            rows: Vec::new(),
            rngs,
        };
        proof {
            assert(r@.words =~= self.image().words);
            assert(r@.digits =~= self.image().digits);
            assert(r@.classes =~= self.image().classes);
            assert(r@.rows =~= self.image().rows);
            assert(r@.rngs =~= self.image().rngs);
        }
        r
    }

    fn from_saved(s: &Artifact<StoredSparseClass>) -> (r: Option<TMSparseClassifier>) {
        if s.digits.len() != 0 || s.rows.len() != 0 || s.rngs.len() != 2 {
            return None;
        }
        let config: SparseConfig = match SparseConfig::from_words(&s.words, &s.scales) {
            Some(t) => t,
            None => return None,
        };
        let ghost w = s.words@;
        proof {
            assert(config.to_image() == w);
            assert(w[0] == config.n_classes && w[1] == config.n_features && w[2] == config.clauses_per_class
                && w[3] == config.threshold && w[13] == config.half);
        }
        if s.classes.len() != config.n_classes {
            return None;
        }
        let mut classes: Vec<SparseClass> = Vec::with_capacity(s.classes.len());
        let mut c: usize = 0;
        while c < s.classes.len()
            invariant
                config.wf(),
                w == s@.words,
                w[0] == config.n_classes,
                w[1] == config.n_features,
                w[2] == config.clauses_per_class,
                w[3] == config.threshold,
                w[13] == config.half,
                c <= s.classes@.len(),
                classes@.len() == c,
                forall|i: int| 0 <= i < c ==> (#[trigger] classes@[i]).wf(&config),
                forall|i: int| 0 <= i < c ==> (#[trigger] classes@[i])@ == s.classes@[i]@,
            decreases s.classes@.len() - c,
        {
            match restore_class(&s.classes[c], &config) {
                Some(k) => {
                    classes.push(k);
                },
                None => {
                    proof {
                        assert(s@.classes[c as int] == s.classes@[c as int]@);
                    }
                    return None;
                },
            }
            c = c + 1;
        }
        let r: TMSparseClassifier = TMSparseClassifier {
            config,
            classes,
            rng: Rng::from_raw(s.rngs[0].raw()),
            literal_rng: Rng::from_raw(s.rngs[1].raw()),
        };
        proof {
            assert(r.image().digits =~= s@.digits);
            assert(r.image().classes =~= s@.classes);
            assert(r.image().rows =~= s@.rows);
            assert(r.image().rngs =~= s@.rngs);
            r.lemma_admits();
        }
        Some(r)
    }

    proof fn lemma_admits(&self) {
        let v = self.image();
        let cfg = self.config;
        lemma_f64_bits(cfg.s, 0);
        lemma_scales_ok(cfg.class_weights@);
        assert forall|c: int| 0 <= c < v.classes.len() implies sparse_class_ok(
            #[trigger] v.classes[c],
            cfg.clauses_per_class as nat,
            cfg.n_literals as nat,
            cfg.half,
            cfg.max_state,
            cfg.threshold,
        ) by {
            let k = self.classes@[c];
            assert(k.wf(&cfg));
            assert forall|j: int| 0 <= j < k@.pools.len() implies splits(
                #[trigger] k@.pools[j],
                cfg.n_literals as nat,
            ) && states_fit(k@.pools[j], cfg.half, cfg.max_state) by {
                assert(k.bank.clauses@[j].wf(cfg.n_literals as nat, cfg.half, cfg.max_state));
            }
        }
    }
}

/// What is stored of a sparse machine determines it.
pub proof fn lemma_sparse_image(a: &TMSparseClassifier, b: &TMSparseClassifier)
    requires
        a.wf(),
        b.wf(),
        a.image() == b.image(),
    ensures
        a@ == b@,
        a.config.same(&b.config),
{
    let (u, v) = (a.image(), b.image());
    let (x, y) = (a.config.to_image(), b.config.to_image());
    assert(x[0] == y[0] && x[1] == y[1] && x[2] == y[2] && x[3] == y[3] && x[4] == y[4] && x[5] == y[5] && x[6]
        == y[6] && x[7] == y[7] && x[8] == y[8] && x[9] == y[9] && x[10] == y[10] && x[11] == y[11] && x[12]
        == y[12] && x[13] == y[13]);
    lemma_f64_bits(a.config.s, 0);
    lemma_f64_bits(b.config.s, 0);
    lemma_scale_bits(a.config.class_weights@, b.config.class_weights@);
    assert(u.rngs[0] == v.rngs[0] && u.rngs[1] == v.rngs[1]);
    assert(a@ =~= b@);
}

proof fn lemma_same_class(
    a: &SparseConfig,
    b: &SparseConfig,
    m: SparseClassModel,
    c: int,
    target: bool,
    x: Seq<bool>,
    act: Seq<bool>,
)
    requires
        a.same(b),
    ensures
        a.updated(m, c, target, x, act) == b.updated(m, c, target, x, act),
{
    let p = a.updated(m, c, target, x, act);
    let q = b.updated(m, c, target, x, act);
    assert(p.pools =~= q.pools);
    assert(p.weights =~= q.weights);
    assert(p.rngs =~= q.rngs);
}

proof fn lemma_same_order(
    a: &SparseConfig,
    b: &SparseConfig,
    m: SparseMachineModel,
    xs: Seq<Seq<bool>>,
    ys: Seq<usize>,
    order: Seq<usize>,
    k: nat,
)
    requires
        a.same(b),
    ensures
        a.fit_order_of(m, xs, ys, order, k) == b.fit_order_of(m, xs, ys, order, k),
    decreases k,
{
    if k > 0 {
        lemma_same_order(a, b, m, xs, ys, order, (k - 1) as nat);
        let before = a.fit_order_of(m, xs, ys, order, (k - 1) as nat);
        let i = order[k - 1] as int;
        lemma_same_step(a, b, before, xs[i], ys[i] as int);
    }
}

proof fn lemma_same_step(a: &SparseConfig, b: &SparseConfig, m: SparseMachineModel, x: Seq<bool>, y: int)
    requires
        a.same(b),
    ensures
        a.fit_one_of(m, x, y) == b.fit_one_of(m, x, y),
{
    let neg = other_index(m.rng, a.n_classes as int, y);
    let act = a.active_of(m.literal_rng);
    lemma_same_class(a, b, m.classes[y], y, true, x, act);
    lemma_same_class(a, b, m.classes[neg], neg, false, x, act);
}

/// Sparse machines with the same settings predict and train alike.
pub proof fn lemma_same_sparse(
    a: &SparseConfig,
    b: &SparseConfig,
    m: SparseMachineModel,
    x: Seq<bool>,
    xs: Seq<Seq<bool>>,
    ys: Seq<usize>,
)
    requires
        a.same(b),
    ensures
        a.scores_of(m, x) == b.scores_of(m, x),
        a.predict_of(m, x) == b.predict_of(m, x),
        a.fit_epoch_of(m, xs, ys) == b.fit_epoch_of(m, xs, ys),
{
    assert(a.scores_of(m, x) =~= b.scores_of(m, x));
    let n = xs.len();
    let drawn = SparseMachineModel { rng: rng_skip(m.rng, shuffle_draws(n)), ..m };
    lemma_same_order(a, b, drawn, xs, ys, epoch_order_of(m.rng, n), n);
}

} // verus!
