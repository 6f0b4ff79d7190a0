//! How clauses vote, how votes become scores, and how scores become predictions.
use crate::bits::bits_of;
use crate::clause_bank::automata::{holds, votes, ClauseState};
use crate::clause_bank::feedback::{
    fired_indices, fired_predict, fired_train, polar_sum, train_sum, vote_sum, weights_of,
    ClauseModel,
};
use crate::clause_bank::shared::{all_active, shared_votes, signed_sum, SharedModel};
use crate::clause_bank::sparse::{sparse_holds, SparseModel};
use crate::models::autoencoder::coalesced_autoencoder::CoalescedAutoEncoderConfig;
use crate::models::autoencoder::vanilla_autoencoder::AutoEncoderConfig;
use crate::models::classification::coalesced_classifier::{CoalescedConfig, CoalescedModel};
use crate::models::classification::composite_classifier::{
    combined_scores, machine_score, score_total, TMCompositeClassifier,
};
use crate::models::classification::convolutional_classifier::{
    chosen_patch, firing_patches, holds_somewhere, patch_score, patch_train_sum, votes_somewhere,
    ConvolutionalConfig,
};
use crate::models::classification::sparse_classifier::{
    votes_of, SparseClassModel, SparseConfig, SparseMachineModel,
};
use crate::models::classification::vanilla_classifier::{
    MachineConfig, MachineModel, TsetlinMachine,
};
use crate::models::ranking::{first_max, is_first_max, is_last_max, last_max, lemma_max_exists};
use crate::models::regression::vanilla_regressor::{RegressorConfig, RegressorModel};
use crate::rng::{rng_index, rng_word};
use vstd::prelude::*;

verus! {

proof fn lemma_polar_prefix(f: Seq<bool>, w: Seq<i32>, g: Seq<bool>, v: Seq<i32>, n: nat)
    requires
        forall|j: int| 0 <= j < n ==> #[trigger] f[j] == g[j],
        forall|j: int| 0 <= j < n ==> #[trigger] w[j] == v[j],
    ensures
        polar_sum(f, w, n) == polar_sum(g, v, n),
    decreases n,
{
    if n > 0 {
        lemma_polar_prefix(f, w, g, v, (n - 1) as nat);
        assert(f[n - 1] == g[n - 1]);
        assert(w[n - 1] == v[n - 1]);
    }
}

proof fn lemma_signed_prefix(
    f: Seq<bool>,
    a: Seq<bool>,
    w: Seq<i32>,
    g: Seq<bool>,
    b: Seq<bool>,
    v: Seq<i32>,
    n: nat,
)
    requires
        forall|j: int| 0 <= j < n ==> #[trigger] f[j] == g[j],
        forall|j: int| 0 <= j < n ==> #[trigger] a[j] == b[j],
        forall|j: int| 0 <= j < n ==> #[trigger] w[j] == v[j],
    ensures
        signed_sum(f, a, w, n) == signed_sum(g, b, v, n),
    decreases n,
{
    if n > 0 {
        lemma_signed_prefix(f, a, w, g, b, v, (n - 1) as nat);
        assert(f[n - 1] == g[n - 1]);
        assert(a[n - 1] == b[n - 1]);
        assert(w[n - 1] == v[n - 1]);
    }
}

/// One more clause changes the votes of a class by its weight if it includes a literal and the
/// sample has all literals that it includes, and by nothing otherwise. Clauses at even places
/// vote for the class, those at odd places against it. Without clauses there are no votes.
pub proof fn lemma_one_more_clause(cs: Seq<ClauseModel>, c: ClauseModel, half: u8, x: Seq<bool>)
    ensures
        vote_sum(Seq::empty(), half, x) == 0,
        vote_sum(cs.push(c), half, x) - vote_sum(cs, half, x) == if (exists|l: int|
            0 <= l < c.auto.ta.len() && #[trigger] c.auto.ta[l] >= half) && (forall|l: int|
            0 <= l < c.auto.ta.len() && #[trigger] c.auto.ta[l] >= half ==> x[l]) {
            if cs.len() % 2 == 0 {
                c.weight as int
            } else {
                -(c.weight as int)
            }
        } else {
            0
        },
{
    let more = cs.push(c);
    lemma_polar_prefix(
        fired_predict(more, half, x),
        weights_of(more),
        fired_predict(cs, half, x),
        weights_of(cs),
        cs.len(),
    );
    assert(more[cs.len() as int] == c);
    assert(polar_sum(fired_predict(more, half, x), weights_of(more), more.len()) == polar_sum(
        fired_predict(more, half, x),
        weights_of(more),
        cs.len(),
    ) + if !fired_predict(more, half, x)[cs.len() as int] {
        0
    } else if cs.len() % 2 == 0 {
        weights_of(more)[cs.len() as int] as int
    } else {
        -(weights_of(more)[cs.len() as int] as int)
    });
}

/// One more clause changes the votes of a sparse class by its weight if its pool of included
/// literals is not empty and the sample has all of them, and by nothing otherwise. Clauses at
/// even places vote for the class, those at odd places against it.
pub proof fn lemma_one_more_sparse_clause(
    m: SparseClassModel,
    pools: SparseModel,
    weight: i32,
    x: Seq<bool>,
)
    requires
        m.weights.len() == m.pools.len(),
    ensures
        polar_sum(
            votes_of(SparseClassModel { pools: m.pools.push(pools), ..m }, x),
            m.weights.push(weight),
            m.pools.len() + 1,
        ) - polar_sum(votes_of(m, x), m.weights, m.pools.len()) == if pools.included.len() > 0 && (
        forall|i: int| 0 <= i < pools.included.len() ==> x[#[trigger] pools.included[i] as int]) {
            if m.pools.len() % 2 == 0 {
                weight as int
            } else {
                -(weight as int)
            }
        } else {
            0
        },
        polar_sum(Seq::empty(), Seq::empty(), 0) == 0,
{
    let more = SparseClassModel { pools: m.pools.push(pools), ..m };
    let n = m.pools.len();
    lemma_polar_prefix(votes_of(more, x), m.weights.push(weight), votes_of(m, x), m.weights, n);
    assert(more.pools[n as int] == pools);
    assert(m.weights.push(weight)[n as int] == weight);
    assert(votes_of(more, x)[n as int] == (pools.included.len() > 0 && (forall|i: int|
        0 <= i < pools.included.len() ==> x[#[trigger] pools.included[i] as int])));
    assert(((n + 1) - 1) as nat == n);
}

/// One more shared clause changes the signed sum of an output by its weight there if it includes
/// a literal and the sample has all literals that it includes, and by nothing otherwise.
pub proof fn lemma_one_more_shared_clause(
    m: SharedModel,
    c: ClauseState,
    s: u64,
    weights: Seq<i32>,
    weight: i32,
    half: u8,
    x: Seq<bool>,
)
    requires
        weights.len() == m.autos.len(),
    ensures
        ({
            let more = SharedModel { autos: m.autos.push(c), rngs: m.rngs.push(s) };
            signed_sum(
                shared_votes(more, half, x),
                all_active(more.autos.len()),
                weights.push(weight),
                more.autos.len(),
            ) - signed_sum(
                shared_votes(m, half, x),
                all_active(m.autos.len()),
                weights,
                m.autos.len(),
            ) == if (exists|l: int| 0 <= l < c.ta.len() && #[trigger] c.ta[l] >= half) && (forall|l: int|
                0 <= l < c.ta.len() && #[trigger] c.ta[l] >= half ==> x[l]) {
                weight as int
            } else {
                0
            }
        }),
        signed_sum(Seq::empty(), Seq::empty(), Seq::empty(), 0) == 0,
{
    let more = SharedModel { autos: m.autos.push(c), rngs: m.rngs.push(s) };
    let n = m.autos.len();
    lemma_signed_prefix(
        shared_votes(more, half, x),
        all_active(n + 1),
        weights.push(weight),
        shared_votes(m, half, x),
        all_active(n),
        weights,
        n,
    );
    assert(more.autos[n as int] == c);
    assert(weights.push(weight)[n as int] == weight);
    assert(all_active(n + 1)[n as int]);
    assert(shared_votes(more, half, x)[n as int] == ((exists|l: int|
        0 <= l < c.ta.len() && #[trigger] c.ta[l] >= half) && (forall|l: int|
        0 <= l < c.ta.len() && #[trigger] c.ta[l] >= half ==> x[l])));
}

/// A classifier gives each class the votes of that class's own clauses, cut off at plus and
/// minus the threshold.
pub proof fn lemma_scores_are_votes(cfg: &MachineConfig, m: MachineModel, x: Seq<bool>, c: int)
    requires
        0 <= c < m.classes.len(),
        cfg.train.threshold >= 1,
    ensures
        cfg.scores_of(m, x).len() == m.classes.len(),
        ({
            let t = cfg.train.threshold as int;
            let v = vote_sum(m.classes[c].clauses, cfg.train.geom.half, x);
            let score = cfg.scores_of(m, x)[c];
            (-t <= v <= t ==> score == v) && (v > t ==> score == t) && (v < -t ==> score == -t)
        }),
{
}

/// A sparse classifier gives each class the votes of that class's own clauses, cut off at plus
/// and minus the threshold.
pub proof fn lemma_sparse_scores_are_votes(
    cfg: &SparseConfig,
    m: SparseMachineModel,
    x: Seq<bool>,
    c: int,
)
    requires
        0 <= c < m.classes.len(),
        cfg.threshold >= 1,
    ensures
        cfg.scores_of(m, x).len() == m.classes.len(),
        ({
            let t = cfg.threshold as int;
            let v = polar_sum(
                votes_of(m.classes[c], x),
                m.classes[c].weights,
                m.classes[c].pools.len(),
            );
            let score = cfg.scores_of(m, x)[c];
            (-t <= v <= t ==> score == v) && (v > t ==> score == t) && (v < -t ==> score == -t)
        }),
{
}

/// A coalesced classifier sums the shared clauses with each class's own weights, and cuts the
/// scores off at plus and minus the threshold.
pub proof fn lemma_coalesced_scores_are_votes(
    cfg: &CoalescedConfig,
    m: CoalescedModel,
    x: Seq<bool>,
    c: int,
)
    requires
        0 <= c < m.weights.len(),
        cfg.train.threshold >= 1,
        forall|k: int|
            0 <= k < m.weights.len() ==> (#[trigger] m.weights[k]).len() == m.clauses.autos.len(),
    ensures
        cfg.sums_of(m, x).len() == m.weights.len(),
        cfg.scores_of(m, x).len() == m.weights.len(),
        cfg.sums_of(m, x)[c] == signed_sum(
            shared_votes(m.clauses, cfg.train.geom.half, x),
            all_active(m.clauses.autos.len()),
            m.weights[c],
            m.clauses.autos.len(),
        ),
        ({
            let t = cfg.train.threshold as int;
            let v = cfg.sums_of(m, x)[c];
            let score = cfg.scores_of(m, x)[c];
            (-t <= v <= t ==> score == v) && (v > t ==> score == t) && (v < -t ==> score == -t)
        }),
{
    assert(m.weights[c].len() == m.clauses.autos.len());
}

/// An autoencoder scores each output by the votes of that output's own clauses, cut off at plus
/// and minus the threshold, and sets the output where they are positive.
pub proof fn lemma_outputs_are_votes(cfg: &AutoEncoderConfig, m: MachineModel, x: Seq<bool>, o: int)
    requires
        0 <= o < m.classes.len(),
        cfg.train.threshold >= 1,
    ensures
        cfg.scores_of(m, x).len() == m.classes.len(),
        cfg.reconstruct_of(m, x).len() == m.classes.len(),
        ({
            let t = cfg.train.threshold as int;
            let v = vote_sum(m.classes[o].clauses, cfg.train.geom.half, x);
            let score = cfg.scores_of(m, x)[o];
            &&& (-t <= v <= t ==> score == v) && (v > t ==> score == t) && (v < -t ==> score == -t)
            &&& v > 0 ==> cfg.reconstruct_of(m, x)[o] == 1
            &&& v <= 0 ==> cfg.reconstruct_of(m, x)[o] == 0
        }),
{
}

/// A coalesced autoencoder sums the shared clauses with each output's own weights, cuts the
/// scores off at plus and minus the threshold, and sets the outputs whose sum is positive.
pub proof fn lemma_coalesced_outputs_are_votes(
    cfg: &CoalescedAutoEncoderConfig,
    m: CoalescedModel,
    x: Seq<bool>,
    o: int,
)
    requires
        0 <= o < m.weights.len(),
        cfg.train.threshold >= 1,
        forall|k: int|
            0 <= k < m.weights.len() ==> (#[trigger] m.weights[k]).len() == m.clauses.autos.len(),
    ensures
        cfg.scores_of(m, x).len() == m.weights.len(),
        cfg.reconstruct_of(m, x).len() == m.weights.len(),
        ({
            let t = cfg.train.threshold as int;
            let v = signed_sum(
                shared_votes(m.clauses, cfg.train.geom.half, x),
                all_active(m.clauses.autos.len()),
                m.weights[o],
                m.clauses.autos.len(),
            );
            let score = cfg.scores_of(m, x)[o];
            &&& (-t <= v <= t ==> score == v) && (v > t ==> score == t) && (v < -t ==> score == -t)
            &&& v > 0 ==> cfg.reconstruct_of(m, x)[o] == 1
            &&& v <= 0 ==> cfg.reconstruct_of(m, x)[o] == 0
        }),
{
    assert(m.weights[o].len() == m.clauses.autos.len());
}

/// A regressor without clauses predicts 0. One more clause raises what it predicts by its weight
/// if the clause includes a literal and the sample has all literals that it includes; predictions
/// are cut off at the threshold.
pub proof fn lemma_regression_adds_weights(
    cfg: &RegressorConfig,
    m: RegressorModel,
    c: ClauseModel,
    x: Seq<bool>,
)
    requires
        cfg.train.threshold >= 1,
        c.weight >= 0,
        forall|j: int| 0 <= j < m.clauses.len() ==> (#[trigger] m.clauses[j]).weight >= 0,
    ensures
        cfg.predict_of(RegressorModel { clauses: Seq::empty(), ..m }, x) == 0,
        ({
            let t = cfg.train.threshold as int;
            let half = cfg.train.geom.half;
            let r = cfg.predict_of(m, x) + if (exists|l: int|
                0 <= l < c.auto.ta.len() && #[trigger] c.auto.ta[l] >= half) && (forall|l: int|
                0 <= l < c.auto.ta.len() && #[trigger] c.auto.ta[l] >= half ==> x[l]) {
                c.weight as int
            } else {
                0
            };
            cfg.predict_of(RegressorModel { clauses: m.clauses.push(c), ..m }, x) == if r > t {
                t
            } else {
                r
            }
        }),
        0 <= cfg.predict_of(m, x) <= cfg.train.threshold,
{
    let half = cfg.train.geom.half;
    let more = m.clauses.push(c);
    let n = m.clauses.len();
    lemma_signed_prefix(
        fired_predict(more, half, x),
        all_active(n + 1),
        weights_of(more),
        fired_predict(m.clauses, half, x),
        all_active(n),
        weights_of(m.clauses),
        n,
    );
    assert(more[n as int] == c);
    assert(weights_of(more)[n as int] == c.weight);
    assert(all_active(n + 1)[n as int]);
    assert(fired_predict(more, half, x)[n as int] == ((exists|l: int|
        0 <= l < c.auto.ta.len() && #[trigger] c.auto.ta[l] >= half) && (forall|l: int|
        0 <= l < c.auto.ta.len() && #[trigger] c.auto.ta[l] >= half ==> x[l])));
    lemma_signed_nonnegative(
        fired_predict(m.clauses, half, x),
        all_active(n),
        weights_of(m.clauses),
        n,
    );
}

proof fn lemma_signed_nonnegative(f: Seq<bool>, a: Seq<bool>, w: Seq<i32>, n: nat)
    requires
        n <= w.len(),
        forall|j: int| 0 <= j < w.len() ==> #[trigger] w[j] >= 0,
    ensures
        signed_sum(f, a, w, n) >= 0,
    decreases n,
{
    if n > 0 {
        lemma_signed_nonnegative(f, a, w, (n - 1) as nat);
        assert(w[n - 1] >= 0);
    }
}

/// A convolution over one patch scores as the clauses score that patch, and a further patch can
/// only add votes: a clause votes on the patches if it votes on one of them.
pub proof fn lemma_patches_vote(
    ta: Seq<u8>,
    cs: Seq<ClauseModel>,
    half: u8,
    patches: Seq<Seq<bool>>,
    x: Seq<bool>,
    t: int,
)
    ensures
        votes_somewhere(ta, half, patches.push(x)) == (votes_somewhere(ta, half, patches) || (
        (exists|l: int| 0 <= l < ta.len() && #[trigger] ta[l] >= half) && (forall|l: int|
            0 <= l < ta.len() && #[trigger] ta[l] >= half ==> x[l]))),
        !votes_somewhere(ta, half, Seq::empty()),
        ({
            let v = vote_sum(cs, half, x);
            let score = patch_score(cs, half, seq![x], t);
            t >= 0 ==> (-t <= v <= t ==> score == v) && (v > t ==> score == t) && (v < -t ==> score
                == -t)
        }),
{
    lemma_patch_votes(ta, half, patches, x);
    let one = seq![x];
    let fired = Seq::new(cs.len(), |k: int| votes_somewhere(cs[k].auto.ta, half, one));
    assert forall|j: int| 0 <= j < cs.len() implies #[trigger] fired[j] == fired_predict(
        cs,
        half,
        x,
    )[j] by {
        lemma_patch_votes(cs[j].auto.ta, half, Seq::empty(), x);
        assert(Seq::<Seq<bool>>::empty().push(x) =~= one);
    }
    assert(fired =~= fired_predict(cs, half, x));
}

proof fn lemma_patch_votes(ta: Seq<u8>, half: u8, patches: Seq<Seq<bool>>, x: Seq<bool>)
    ensures
        votes_somewhere(ta, half, patches.push(x)) == (votes_somewhere(ta, half, patches)
            || votes(ta, half, x)),
        !votes_somewhere(ta, half, Seq::empty()),
{
    let more = patches.push(x);
    let n = patches.len() as int;
    if votes_somewhere(ta, half, patches) {
        let p = choose|p: int|
            0 <= p < patches.len() && #[trigger] votes(
                ta,
                half,
                patches[p],
            );
        assert(more[p] == patches[p]);
        assert(votes(ta, half, more[p]));
    }
    if votes(ta, half, x) {
        assert(more[n] == x);
        assert(votes(ta, half, more[n]));
    }
    if votes_somewhere(ta, half, more) {
        let p = choose|p: int|
            0 <= p < more.len() && #[trigger] votes(
                ta,
                half,
                more[p],
            );
        if p < n {
            assert(more[p] == patches[p]);
            assert(votes(ta, half, patches[p]));
        }
    }
}

/// A convolutional classifier scores each class by that class's own clauses on the patches of the
/// image, and predicts the last of the classes with the largest score.
pub proof fn lemma_convolutional_scores(
    cfg: &ConvolutionalConfig,
    m: MachineModel,
    x: Seq<u8>,
    c: int,
)
    requires
        0 <= c < m.classes.len(),
    ensures
        cfg.scores_of(m, x).len() == m.classes.len(),
        cfg.scores_of(m, x)[c] == patch_score(
            m.classes[c].clauses,
            cfg.train.geom.half,
            cfg.grid.patch_bits(x),
            cfg.train.threshold as int,
        ),
        ({
            let r = cfg.predict_of(m, x);
            &&& 0 <= r < m.classes.len()
            &&& cfg.scores_of(m, x)[c] <= cfg.scores_of(m, x)[r]
            &&& r < c ==> cfg.scores_of(m, x)[c] < cfg.scores_of(m, x)[r]
        }),
{
    lemma_max_exists(cfg.scores_of(m, x));
    assert(is_last_max(cfg.scores_of(m, x), last_max(cfg.scores_of(m, x))));
}

/// A classifier predicts the first of the classes with the largest score.
pub proof fn lemma_first_best_class(cfg: &MachineConfig, m: MachineModel, x: Seq<bool>, c: int)
    requires
        0 <= c < m.classes.len(),
    ensures
        ({
            let r = cfg.predict_of(m, x);
            &&& 0 <= r < m.classes.len()
            &&& cfg.scores_of(m, x)[c] <= cfg.scores_of(m, x)[r]
            &&& c < r ==> cfg.scores_of(m, x)[c] < cfg.scores_of(m, x)[r]
        }),
{
    lemma_max_exists(cfg.scores_of(m, x));
    assert(is_first_max(cfg.scores_of(m, x), first_max(cfg.scores_of(m, x))));
}

/// A sparse classifier predicts the first of the classes with the largest score.
pub proof fn lemma_first_best_sparse_class(
    cfg: &SparseConfig,
    m: SparseMachineModel,
    x: Seq<bool>,
    c: int,
)
    requires
        0 <= c < m.classes.len(),
    ensures
        ({
            let r = cfg.predict_of(m, x);
            &&& 0 <= r < m.classes.len()
            &&& cfg.scores_of(m, x)[c] <= cfg.scores_of(m, x)[r]
            &&& c < r ==> cfg.scores_of(m, x)[c] < cfg.scores_of(m, x)[r]
        }),
{
    lemma_max_exists(cfg.scores_of(m, x));
    assert(is_first_max(cfg.scores_of(m, x), first_max(cfg.scores_of(m, x))));
}

/// A coalesced classifier predicts the first of the classes with the largest sum, before any sum
/// is cut off.
pub proof fn lemma_first_best_coalesced_class(
    cfg: &CoalescedConfig,
    m: CoalescedModel,
    x: Seq<bool>,
    c: int,
)
    requires
        0 <= c < m.weights.len(),
    ensures
        ({
            let r = cfg.predict_of(m, x);
            &&& 0 <= r < m.weights.len()
            &&& cfg.sums_of(m, x)[c] <= cfg.sums_of(m, x)[r]
            &&& c < r ==> cfg.sums_of(m, x)[c] < cfg.sums_of(m, x)[r]
        }),
{
    lemma_max_exists(cfg.sums_of(m, x));
    assert(is_first_max(cfg.sums_of(m, x), first_max(cfg.sums_of(m, x))));
}

proof fn lemma_total_folds(ms: Seq<TsetlinMachine>, lit: Seq<u64>, c: int, given: Seq<int>, k: nat)
    requires
        k <= ms.len(),
        given.len() == ms.len(),
        forall|i: int| 0 <= i < ms.len() ==> #[trigger] given[i] == machine_score(ms[i], lit, c),
    ensures
        score_total(ms, lit, c, k) == given.take(k as int).fold_left(0, |a: int, b: int| a + b),
    decreases k,
{
    if k > 0 {
        lemma_total_folds(ms, lit, c, given, (k - 1) as nat);
        let taken = given.take(k as int);
        assert(taken.drop_last() =~= given.take(k - 1));
        assert(taken.last() == given[k - 1]);
    }
}

/// A composite gives a class the sum of the scores that its members give that class, member by
/// member.
pub proof fn lemma_composite_sums_members(ms: Seq<TsetlinMachine>, lit: Seq<u64>, c: int)
    requires
        ms.len() > 0,
        0 <= c < ms[0].config.n_classes,
    ensures
        combined_scores(ms, lit).len() == ms[0].config.n_classes,
        combined_scores(ms, lit)[c] == ms.map_values(
            |m: TsetlinMachine|
                m.config.scores_of(m@, bits_of(lit, m.config.train.geom.n_literals as nat))[c],
        ).fold_left(0, |a: int, b: int| a + b),
{
    let given = ms.map_values(
        |m: TsetlinMachine|
            m.config.scores_of(m@, bits_of(lit, m.config.train.geom.n_literals as nat))[c],
    );
    lemma_total_folds(ms, lit, c, given, ms.len());
    assert(given.take(ms.len() as int) =~= given);
}

/// A composite of one member scores every class as the member does.
pub proof fn lemma_composite_of_one(m: TsetlinMachine, lit: Seq<u64>)
    requires
        m.wf(),
    ensures
        combined_scores(seq![m], lit) == m.config.scores_of(
            m@,
            bits_of(lit, m.config.train.geom.n_literals as nat),
        ),
{
    let own = m.config.scores_of(m@, bits_of(lit, m.config.train.geom.n_literals as nat));
    let one = seq![m];
    assert forall|c: int| 0 <= c < own.len() implies combined_scores(one, lit)[c] == own[c] by {
        reveal_with_fuel(score_total, 2);
        assert(one[0] == m);
    }
    assert(combined_scores(one, lit) =~= own);
}

/// The scores of two composites taken together are the sums of their scores, class by class.
pub proof fn lemma_composites_add(
    a: Seq<TsetlinMachine>,
    b: Seq<TsetlinMachine>,
    lit: Seq<u64>,
    c: int,
)
    requires
        a.len() > 0,
        b.len() > 0,
        a[0].config.n_classes == b[0].config.n_classes,
        0 <= c < a[0].config.n_classes,
    ensures
        combined_scores(a + b, lit)[c] == combined_scores(a, lit)[c] + combined_scores(b, lit)[c],
{
    lemma_totals_add(a, b, lit, c, b.len());
    assert((a + b)[0] == a[0]);
}

proof fn lemma_totals_add(
    a: Seq<TsetlinMachine>,
    b: Seq<TsetlinMachine>,
    lit: Seq<u64>,
    c: int,
    k: nat,
)
    requires
        k <= b.len(),
    ensures
        score_total(a + b, lit, c, a.len() + k) == score_total(a, lit, c, a.len()) + score_total(
            b,
            lit,
            c,
            k,
        ),
    decreases k,
{
    if k == 0 {
        lemma_total_prefix(a, b, lit, c, a.len());
    } else {
        lemma_totals_add(a, b, lit, c, (k - 1) as nat);
        assert((a + b)[a.len() + k - 1] == b[k - 1]);
    }
}

proof fn lemma_total_prefix(
    a: Seq<TsetlinMachine>,
    b: Seq<TsetlinMachine>,
    lit: Seq<u64>,
    c: int,
    k: nat,
)
    requires
        k <= a.len(),
    ensures
        score_total(a + b, lit, c, k) == score_total(a, lit, c, k),
    decreases k,
{
    if k > 0 {
        lemma_total_prefix(a, b, lit, c, (k - 1) as nat);
        assert((a + b)[k - 1] == a[k - 1]);
    }
}

/// A composite predicts the last of the classes with the largest combined score.
pub proof fn lemma_last_best_class(composite: &TMCompositeClassifier, lit: Seq<u64>, c: int)
    requires
        composite.classifiers@.len() > 0,
        0 <= c < composite.classifiers@[0].config.n_classes,
    ensures
        ({
            let scores = combined_scores(composite.classifiers@, lit);
            let r = composite.predict_of(lit);
            &&& 0 <= r < composite.classifiers@[0].config.n_classes
            &&& scores[c] <= scores[r]
            &&& r < c ==> scores[c] < scores[r]
        }),
{
    let scores = combined_scores(composite.classifiers@, lit);
    lemma_max_exists(scores);
    assert(is_last_max(scores, last_max(scores)));
}

/// The clauses that are listed as fired are all that fired, each once, from the first on.
pub proof fn lemma_fired_are_listed(f: Seq<bool>, n: nat)
    requires
        n <= f.len(),
        n <= usize::MAX,
    ensures
        forall|k: int|
            0 <= k < fired_indices(f, n).len() ==> 0 <= #[trigger] fired_indices(f, n)[k] < n
                && f[fired_indices(f, n)[k] as int],
        forall|i: int|
            0 <= i < n && #[trigger] f[i] ==> fired_indices(f, n).contains(i as usize),
        forall|k: int, l: int|
            0 <= k < l < fired_indices(f, n).len() ==> #[trigger] fired_indices(f, n)[k]
                < #[trigger] fired_indices(f, n)[l],
    decreases n,
{
    if n > 0 {
        let before = fired_indices(f, (n - 1) as nat);
        let list = fired_indices(f, n);
        lemma_fired_are_listed(f, (n - 1) as nat);
        if f[n - 1] {
            assert(list == before.push((n - 1) as usize));
            assert(list[before.len() as int] == n - 1);
            assert forall|i: int| 0 <= i < n && #[trigger] f[i] implies list.contains(i as usize) by {
                if i < n - 1 {
                    assert(before.contains(i as usize));
                    let k = choose|k: int| 0 <= k < before.len() && before[k] == i as usize;
                    assert(list[k] == i as usize);
                }
            }
        }
    }
}

/// In training one more clause changes the votes of a class by its weight if it fires, and by
/// nothing otherwise; clauses at even places vote for the class, those at odd places against it.
/// The sum that feedback goes by is cut off at plus and minus the threshold.
pub proof fn lemma_one_more_clause_in_training(
    cs: Seq<ClauseModel>,
    c: ClauseModel,
    half: u8,
    x: Seq<bool>,
    act: Seq<bool>,
    t: int,
)
    requires
        t >= 1,
    ensures
        ({
            let more = cs.push(c);
            polar_sum(fired_train(more, half, x, act), weights_of(more), more.len()) - polar_sum(
                fired_train(cs, half, x, act),
                weights_of(cs),
                cs.len(),
            ) == if !holds(c.auto.ta, half, x, act) {
                0
            } else if cs.len() % 2 == 0 {
                c.weight as int
            } else {
                -(c.weight as int)
            }
        }),
        ({
            let v = polar_sum(fired_train(cs, half, x, act), weights_of(cs), cs.len());
            let sum = train_sum(cs, half, x, act, t);
            (-t <= v <= t ==> sum == v) && (v > t ==> sum == t) && (v < -t ==> sum == -t)
        }),
{
    let more = cs.push(c);
    lemma_polar_prefix(
        fired_train(more, half, x, act),
        weights_of(more),
        fired_train(cs, half, x, act),
        weights_of(cs),
        cs.len(),
    );
    assert(more[cs.len() as int] == c);
    assert(fired_train(more, half, x, act)[cs.len() as int] == holds(c.auto.ta, half, x, act));
    assert(weights_of(more)[cs.len() as int] == c.weight);
}

/// In training one more clause changes the votes of a convolutional class by its weight if it
/// fires on a patch, and by nothing otherwise.
pub proof fn lemma_one_more_patch_clause_in_training(
    cs: Seq<ClauseModel>,
    c: ClauseModel,
    half: u8,
    patches: Seq<Seq<bool>>,
    act: Seq<bool>,
    t: int,
)
    requires
        t >= 1,
        -t < patch_train_sum(cs, half, patches, act, t) < t,
        -t < patch_train_sum(cs.push(c), half, patches, act, t) < t,
    ensures
        patch_train_sum(cs.push(c), half, patches, act, t) - patch_train_sum(
            cs,
            half,
            patches,
            act,
            t,
        ) == if !holds_somewhere(c.auto.ta, half, patches, act) {
            0
        } else if cs.len() % 2 == 0 {
            c.weight as int
        } else {
            -(c.weight as int)
        },
{
    let more = cs.push(c);
    let f = Seq::new(more.len(), |j: int| holds_somewhere(more[j].auto.ta, half, patches, act));
    let g = Seq::new(cs.len(), |j: int| holds_somewhere(cs[j].auto.ta, half, patches, act));
    assert forall|j: int| 0 <= j < cs.len() implies #[trigger] f[j] == g[j] by {
        assert(more[j] == cs[j]);
    }
    lemma_polar_prefix(f, weights_of(more), g, weights_of(cs), cs.len());
    assert(more[cs.len() as int] == c);
    assert(f[cs.len() as int] == holds_somewhere(c.auto.ta, half, patches, act));
    assert(weights_of(more)[cs.len() as int] == c.weight);
}

/// In training one more clause changes the votes of a sparse class by its weight if it fires, and
/// by nothing otherwise.
pub proof fn lemma_one_more_sparse_clause_in_training(
    cfg: &SparseConfig,
    m: SparseClassModel,
    pools: SparseModel,
    weight: i32,
    x: Seq<bool>,
    act: Seq<bool>,
)
    requires
        m.weights.len() == m.pools.len(),
        -cfg.threshold < cfg.sum_of(m, x, act) < cfg.threshold,
        -cfg.threshold < cfg.sum_of(
            SparseClassModel { pools: m.pools.push(pools), weights: m.weights.push(weight), ..m },
            x,
            act,
        ) < cfg.threshold,
    ensures
        cfg.sum_of(
            SparseClassModel { pools: m.pools.push(pools), weights: m.weights.push(weight), ..m },
            x,
            act,
        ) - cfg.sum_of(m, x, act) == if !sparse_holds(pools, x, act) {
            0
        } else if m.pools.len() % 2 == 0 {
            weight as int
        } else {
            -(weight as int)
        },
{
    let n = m.pools.len();
    let more = SparseClassModel {
        pools: m.pools.push(pools),
        weights: m.weights.push(weight),
        ..m
    };
    let f = Seq::new(more.pools.len(), |j: int| sparse_holds(more.pools[j], x, act));
    let g = Seq::new(n, |j: int| sparse_holds(m.pools[j], x, act));
    assert forall|j: int| 0 <= j < n implies #[trigger] f[j] == g[j] by {
        assert(more.pools[j] == m.pools[j]);
    }
    lemma_polar_prefix(f, more.weights, g, m.weights, n);
    assert(more.pools[n as int] == pools);
    assert(f[n as int] == sparse_holds(pools, x, act));
    assert(more.weights[n as int] == weight);
}

/// In training one more shared clause changes the sum of an output by its weight there if it takes
/// part and fires, and by nothing otherwise.
pub proof fn lemma_one_more_shared_clause_in_training(
    cfg: &CoalescedConfig,
    weights: Seq<i32>,
    outs: Seq<bool>,
    active: Seq<bool>,
    weight: i32,
    fires: bool,
    takes_part: bool,
)
    requires
        outs.len() == weights.len(),
        active.len() == weights.len(),
        -cfg.train.threshold < cfg.sum_of(weights, outs, active) < cfg.train.threshold,
        -cfg.train.threshold < cfg.sum_of(
            weights.push(weight),
            outs.push(fires),
            active.push(takes_part),
        ) < cfg.train.threshold,
    ensures
        cfg.sum_of(weights.push(weight), outs.push(fires), active.push(takes_part)) - cfg.sum_of(
            weights,
            outs,
            active,
        ) == if fires && takes_part {
            weight as int
        } else {
            0
        },
{
    let n = weights.len();
    lemma_signed_prefix(
        outs.push(fires),
        active.push(takes_part),
        weights.push(weight),
        outs,
        active,
        weights,
        n,
    );
    assert(outs.push(fires)[n as int] == fires);
    assert(active.push(takes_part)[n as int] == takes_part);
    assert(weights.push(weight)[n as int] == weight);
}

/// The patch that a clause learns from is one that it fires on, if it fires on any, and is else the
/// first.
pub proof fn lemma_chosen_patch_fires(
    ta: Seq<u8>,
    half: u8,
    patches: Seq<Seq<bool>>,
    act: Seq<bool>,
    s: u64,
)
    requires
        0 < patches.len() <= usize::MAX,
    ensures
        ({
            let firing = firing_patches(ta, half, patches, act);
            let p = chosen_patch(firing, s);
            &&& 0 <= p < patches.len()
            &&& holds_somewhere(ta, half, patches, act) <==> firing.len() > 0
            &&& holds_somewhere(ta, half, patches, act) ==> holds(ta, half, patches[p], act)
            &&& !holds_somewhere(ta, half, patches, act) ==> p == 0
        }),
{
    let f = Seq::new(patches.len(), |p: int| holds(ta, half, patches[p], act));
    let firing = firing_patches(ta, half, patches, act);
    lemma_fired_are_listed(f, patches.len());
    if firing.len() > 0 {
        let n = firing.len() as int;
        let w = rng_word(s) as int;
        assert(0 <= w % n < n) by (nonlinear_arith)
            requires
                n > 0,
        ;
        let k = rng_index(s, n);
        assert(f[firing[k] as int]);
        assert(holds(ta, half, patches[firing[k] as int], act));
    }
    if holds_somewhere(ta, half, patches, act) {
        let p = choose|p: int| 0 <= p < patches.len() && #[trigger] holds(ta, half, patches[p], act);
        assert(f[p]);
        assert(firing.contains(p as usize));
    }
}

} // verus!
