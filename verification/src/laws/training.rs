//! What a training step touches, and what becomes of replicas.
use crate::clause_bank::feedback::{after_drops, ClassModel, ClauseModel};
use crate::clause_bank::shared::{active_clauses, shared_fired};
use crate::dyadic::{minus_of, portion_of, FRACTIONS};
use crate::laws::arithmetic::{
    lemma_gate_is_proportional, lemma_unit_weight_changes_nothing,
};
use crate::models::autoencoder::coalesced_autoencoder::CoalescedAutoEncoderConfig;
use crate::models::autoencoder::vanilla_autoencoder::AutoEncoderConfig;
use crate::models::classification::coalesced_classifier::{CoalescedConfig, CoalescedModel};
use crate::models::classification::convolutional_classifier::ConvolutionalConfig;
use crate::models::classification::data_parallel::{
    counter_sum, merged_of, replica_of, rounded_mean, weight_sum,
};
use crate::models::classification::sparse_classifier::{
    SparseClassModel, SparseConfig, SparseMachineModel,
};
use crate::models::classification::vanilla_classifier::{
    initial_machine, is_one, MachineConfig, MachineModel,
};
use crate::rng::{
    lemma_other_index_exists, lemma_stream_reaches, rng_frac, rng_index, rng_next, rng_skip,
    rng_word,
};
use crate::sampling::{is_first_other, lemma_rejections, other_index};
use vstd::arithmetic::div_mod::lemma_fundamental_div_mod;
use vstd::prelude::*;

verus! {

proof fn lemma_first_other(s: u64, n: int, y: int, k: nat, limit: nat) -> (r: nat)
    requires
        k <= limit,
        rng_index(rng_skip(s, limit), n) != y,
        forall|j: nat| j < k ==> rng_index(#[trigger] rng_skip(s, j), n) == y,
    ensures
        is_first_other(s, n, y, r),
    decreases limit - k,
{
    if rng_index(rng_skip(s, k), n) != y {
        k
    } else {
        lemma_first_other(s, n, y, k + 1, limit)
    }
}

/// The class that a sample is held against is a class, and never the sample's own.
pub proof fn lemma_other_is_other(s: u64, n: int, y: int)
    requires
        n >= 2,
    ensures
        0 <= other_index(s, n, y) < n,
        other_index(s, n, y) != y,
{
    let t = lemma_other_index_exists(n, y);
    let distance = lemma_stream_reaches(s, t);
    let r = lemma_first_other(s, n, y, 0, distance);
    lemma_rejections(s, n, y, r);
    let at = rng_skip(s, r);
    let w = rng_word(at) as int;
    assert(0 <= w % n < n) by (nonlinear_arith)
        requires
            n >= 2,
    ;
}

/// A step of a classifier changes at most two classes: that of the sample learns that the sample is
/// its own, one other that it is not. What becomes of a class depends on no other class.
pub proof fn lemma_step_is_per_class(
    cfg: &MachineConfig,
    m: MachineModel,
    w: MachineModel,
    x: Seq<bool>,
    y: int,
    c: int,
) -> (other: int)
    requires
        cfg.n_classes >= 2,
        m.classes.len() == cfg.n_classes,
        w.classes.len() == cfg.n_classes,
        0 <= y < cfg.n_classes,
        0 <= c < cfg.n_classes,
        m.rng == w.rng,
        m.literal_rng == w.literal_rng,
        m.classes[c] == w.classes[c],
    ensures
        0 <= other < cfg.n_classes,
        other != y,
        cfg.fit_one_of(m, x, y).classes.len() == m.classes.len(),
        c != y && c != other ==> cfg.fit_one_of(m, x, y).classes[c] == m.classes[c],
        c == y ==> cfg.fit_one_of(m, x, y).classes[c] == cfg.updated(
            m.classes[c],
            c,
            true,
            x,
            cfg.train.active_of(m.literal_rng),
        ),
        c == other ==> cfg.fit_one_of(m, x, y).classes[c] == cfg.updated(
            m.classes[c],
            c,
            false,
            x,
            cfg.train.active_of(m.literal_rng),
        ),
        cfg.fit_one_of(m, x, y).classes[c] == cfg.fit_one_of(w, x, y).classes[c],
        cfg.fit_one_of(m, x, y).rng == cfg.fit_one_of(w, x, y).rng,
        cfg.fit_one_of(m, x, y).literal_rng == cfg.fit_one_of(w, x, y).literal_rng,
{
    lemma_other_is_other(m.rng, cfg.n_classes as int, y);
    other_index(m.rng, cfg.n_classes as int, y)
}

/// A step of a sparse classifier changes at most two classes: that of the sample learns that the
/// sample is its own, one other that it is not. What becomes of a class depends on no other class.
pub proof fn lemma_sparse_step_is_per_class(
    cfg: &SparseConfig,
    m: SparseMachineModel,
    w: SparseMachineModel,
    x: Seq<bool>,
    y: int,
    c: int,
) -> (other: int)
    requires
        cfg.n_classes >= 2,
        m.classes.len() == cfg.n_classes,
        w.classes.len() == cfg.n_classes,
        0 <= y < cfg.n_classes,
        0 <= c < cfg.n_classes,
        m.rng == w.rng,
        m.literal_rng == w.literal_rng,
        m.classes[c] == w.classes[c],
    ensures
        0 <= other < cfg.n_classes,
        other != y,
        cfg.fit_one_of(m, x, y).classes.len() == m.classes.len(),
        c != y && c != other ==> cfg.fit_one_of(m, x, y).classes[c] == m.classes[c],
        c == y ==> cfg.fit_one_of(m, x, y).classes[c] == cfg.updated(
            m.classes[c],
            c,
            true,
            x,
            cfg.active_of(m.literal_rng),
        ),
        c == other ==> cfg.fit_one_of(m, x, y).classes[c] == cfg.updated(
            m.classes[c],
            c,
            false,
            x,
            cfg.active_of(m.literal_rng),
        ),
        cfg.fit_one_of(m, x, y).classes[c] == cfg.fit_one_of(w, x, y).classes[c],
        cfg.fit_one_of(m, x, y).rng == cfg.fit_one_of(w, x, y).rng,
        cfg.fit_one_of(m, x, y).literal_rng == cfg.fit_one_of(w, x, y).literal_rng,
{
    lemma_other_is_other(m.rng, cfg.n_classes as int, y);
    other_index(m.rng, cfg.n_classes as int, y)
}

/// A step of a convolutional classifier changes at most two classes: that of the image learns that
/// the image is its own, one other that it is not. What becomes of a class depends on no other
/// class.
pub proof fn lemma_convolutional_step_is_per_class(
    cfg: &ConvolutionalConfig,
    m: MachineModel,
    w: MachineModel,
    x: Seq<u8>,
    y: int,
    c: int,
) -> (other: int)
    requires
        cfg.n_classes >= 2,
        m.classes.len() == cfg.n_classes,
        w.classes.len() == cfg.n_classes,
        0 <= y < cfg.n_classes,
        0 <= c < cfg.n_classes,
        m.rng == w.rng,
        m.literal_rng == w.literal_rng,
        m.classes[c] == w.classes[c],
    ensures
        0 <= other < cfg.n_classes,
        other != y,
        cfg.fit_one_of(m, x, y).classes.len() == m.classes.len(),
        c != y && c != other ==> cfg.fit_one_of(m, x, y).classes[c] == m.classes[c],
        c == y ==> cfg.fit_one_of(m, x, y).classes[c] == cfg.updated(
            m.classes[c],
            true,
            cfg.grid.patch_bits(x),
            cfg.train.active_of(m.literal_rng),
        ),
        c == other ==> cfg.fit_one_of(m, x, y).classes[c] == cfg.updated(
            m.classes[c],
            false,
            cfg.grid.patch_bits(x),
            cfg.train.active_of(m.literal_rng),
        ),
        cfg.fit_one_of(m, x, y).classes[c] == cfg.fit_one_of(w, x, y).classes[c],
        cfg.fit_one_of(m, x, y).rng == cfg.fit_one_of(w, x, y).rng,
        cfg.fit_one_of(m, x, y).literal_rng == cfg.fit_one_of(w, x, y).literal_rng,
{
    lemma_other_is_other(m.rng, cfg.n_classes as int, y);
    other_index(m.rng, cfg.n_classes as int, y)
}

/// A step of an autoencoder leaves the shuffling stream alone, and what becomes of an output
/// depends on no other output.
pub proof fn lemma_autoencoder_step_is_per_output(
    cfg: &AutoEncoderConfig,
    m: MachineModel,
    w: MachineModel,
    x: Seq<bool>,
    o: int,
)
    requires
        0 <= o < m.classes.len(),
        m.classes.len() == w.classes.len(),
        m.literal_rng == w.literal_rng,
        m.classes[o] == w.classes[o],
    ensures
        cfg.fit_one_of(m, x).classes.len() == m.classes.len(),
        cfg.fit_one_of(m, x).classes[o] == cfg.fit_one_of(w, x).classes[o],
        cfg.fit_one_of(m, x).classes[o] == cfg.updated(
            m.classes[o],
            o,
            x,
            cfg.train.active_of(m.literal_rng),
        ),
        cfg.fit_one_of(m, x).rng == m.rng,
{
}

proof fn lemma_pick_is_other(
    cfg: &CoalescedConfig,
    m: CoalescedModel,
    y: int,
    outs: Seq<bool>,
    active: Seq<bool>,
    r: (int, int),
    c: nat,
)
    ensures
        match cfg.urgency_pick(m, y, outs, active, r, c) {
            Some(k) => c <= k < m.weights.len() && k != y,
            None => true,
        },
    decreases m.weights.len() - c,
{
    if c < m.weights.len() {
        lemma_pick_is_other(cfg, m, y, outs, active, r, c + 1);
        if c != y {
            let p = cfg.urgency(m, c as int, outs, active);
            lemma_pick_is_other(
                cfg,
                m,
                y,
                outs,
                active,
                minus_of(r, p),
                c + 1,
            );
        }
    }
}

/// A step of a coalesced classifier changes the weights of at most two classes, that of the sample
/// and one other.
pub proof fn lemma_coalesced_step_touches_two(
    cfg: &CoalescedConfig,
    m: CoalescedModel,
    x: Seq<bool>,
    y: int,
) -> (other: int)
    requires
        cfg.n_classes >= 2,
        m.weights.len() == cfg.n_classes,
        m.class_rngs.len() == cfg.n_classes,
        0 <= y < cfg.n_classes,
    ensures
        0 <= other < cfg.n_classes,
        other != y,
        cfg.fit_one_of(m, x, y).weights.len() == m.weights.len(),
        cfg.fit_one_of(m, x, y).class_rngs.len() == m.class_rngs.len(),
        forall|c: int|
            0 <= c < cfg.n_classes && c != y && c != other ==> #[trigger] cfg.fit_one_of(
                m,
                x,
                y,
            ).weights[c] == m.weights[c],
        forall|c: int|
            0 <= c < cfg.n_classes && c != y && c != other ==> #[trigger] cfg.fit_one_of(
                m,
                x,
                y,
            ).class_rngs[c] == m.class_rngs[c],
{
    let n = m.clauses.autos.len();
    let act = cfg.train.active_of(m.literal_rng);
    let drop = cfg.train.rules.drop;
    let active = active_clauses(m.rng, drop, n);
    let outs = shared_fired(m.clauses, cfg.train.geom.half, x, act);
    let s = after_drops(m.rng, drop, n);
    let neg = cfg.negative_of(m, y, outs, active, s);
    let total = cfg.urgency_total(m, y, outs, active, cfg.n_classes as nat);
    lemma_other_is_other(s, cfg.n_classes as int, y);
    lemma_other_is_other(rng_next(s), cfg.n_classes as int, y);
    lemma_pick_is_other(
        cfg,
        m,
        y,
        outs,
        active,
        portion_of(rng_frac(s) as int, total),
        0,
    );
    neg.class
}

proof fn lemma_outputs_kept(
    cfg: &CoalescedAutoEncoderConfig,
    m: CoalescedModel,
    x: Seq<bool>,
    act: Seq<bool>,
    k: nat,
)
    requires
        k <= m.weights.len(),
        m.class_rngs.len() == m.weights.len(),
    ensures
        cfg.updated_outputs(m, x, act, k).weights.len() == m.weights.len(),
        cfg.updated_outputs(m, x, act, k).class_rngs.len() == m.class_rngs.len(),
        forall|o: int|
            k <= o < m.weights.len() ==> #[trigger] cfg.updated_outputs(m, x, act, k).weights[o]
                == m.weights[o],
        cfg.updated_outputs(m, x, act, k).rng == m.rng,
    decreases k,
{
    if k > 0 {
        lemma_outputs_kept(cfg, m, x, act, (k - 1) as nat);
    }
}

/// A step of a coalesced autoencoder updates its outputs one after the other, each once, from the
/// first to the last: what output `o` starts from is what the outputs before it have made of the
/// shared clauses, and its own weights.
pub proof fn lemma_outputs_take_turns(
    cfg: &CoalescedAutoEncoderConfig,
    m: CoalescedModel,
    x: Seq<bool>,
) -> (stages: Seq<CoalescedModel>)
    requires
        m.weights.len() == cfg.n_features,
        m.class_rngs.len() == cfg.n_features,
    ensures
        stages.len() == cfg.n_features + 1,
        stages[0].clauses == m.clauses && stages[0].weights == m.weights && stages[0].class_rngs
            == m.class_rngs && stages[0].rng == m.rng,
        forall|o: int|
            0 <= o < cfg.n_features ==> cfg.updated(
                #[trigger] stages[o],
                o,
                x,
                cfg.train.active_of(m.literal_rng),
            ) == stages[o + 1] && stages[o].weights[o] == m.weights[o],
        stages[cfg.n_features as int] == cfg.fit_one_of(m, x),
        cfg.fit_one_of(m, x).rng == m.rng,
{
    let act = cfg.train.active_of(m.literal_rng);
    let start = CoalescedModel { literal_rng: cfg.train.after_active(m.literal_rng), ..m };
    let stages = Seq::new(
        (cfg.n_features + 1) as nat,
        |k: int| cfg.updated_outputs(start, x, act, k as nat),
    );
    assert forall|o: int| 0 <= o < cfg.n_features implies cfg.updated(
        #[trigger] stages[o],
        o,
        x,
        act,
    ) == stages[o + 1] && stages[o].weights[o] == m.weights[o] by {
        lemma_outputs_kept(cfg, start, x, act, o as nat);
        assert(((o + 1) as nat - 1) as nat == o as nat);
    }
    lemma_outputs_kept(cfg, start, x, act, cfg.n_features as nat);
    stages
}

proof fn lemma_counters_add(
    reps: Seq<MachineModel>,
    c: int,
    j: int,
    l: int,
    given: Seq<int>,
    n: nat,
)
    requires
        n <= reps.len(),
        given.len() == reps.len(),
        forall|i: int|
            0 <= i < reps.len() ==> #[trigger] given[i] == reps[i].classes[c].clauses[j].auto.ta[l],
    ensures
        counter_sum(reps, c, j, l, n) == given.take(n as int).fold_left(0, |a: int, b: int| a + b),
    decreases n,
{
    if n > 0 {
        lemma_counters_add(reps, c, j, l, given, (n - 1) as nat);
        let taken = given.take(n as int);
        assert(taken.drop_last() =~= given.take(n - 1));
        assert(taken.last() == given[n - 1]);
    }
}

proof fn lemma_weights_add(reps: Seq<MachineModel>, c: int, j: int, given: Seq<int>, n: nat)
    requires
        n <= reps.len(),
        given.len() == reps.len(),
        forall|i: int|
            0 <= i < reps.len() ==> #[trigger] given[i] == reps[i].classes[c].clauses[j].weight,
    ensures
        weight_sum(reps, c, j, n) == given.take(n as int).fold_left(0, |a: int, b: int| a + b),
    decreases n,
{
    if n > 0 {
        lemma_weights_add(reps, c, j, given, (n - 1) as nat);
        let taken = given.take(n as int);
        assert(taken.drop_last() =~= given.take(n - 1));
        assert(taken.last() == given[n - 1]);
    }
}

proof fn lemma_mean_is_nearest(sum: int, k: int)
    requires
        k >= 1,
    ensures
        2 * k * rounded_mean(sum, k) - k <= 2 * sum < 2 * k * rounded_mean(sum, k) + k,
{
    let a = sum + k / 2;
    let r = a / k;
    lemma_fundamental_div_mod(a, k);
    assert(0 <= a % k < k) by (nonlinear_arith)
        requires
            k >= 1,
    ;
    assert(2 * (k * r) == 2 * k * r) by (nonlinear_arith);
    let h = k / 2;
    let q = k * r;
    assert(sum + h < q + k);
    assert(k == 2 * h || k == 2 * h + 1);
}

proof fn lemma_sum_in_range(given: Seq<int>, lo: int, hi: int)
    requires
        forall|i: int| 0 <= i < given.len() ==> lo <= #[trigger] given[i] <= hi,
    ensures
        given.len() * lo <= given.fold_left(0, |a: int, b: int| a + b) <= given.len() * hi,
    decreases given.len(),
{
    if given.len() > 0 {
        let before = given.drop_last();
        assert forall|i: int| 0 <= i < before.len() implies lo <= #[trigger] before[i] <= hi by {
            assert(before[i] == given[i]);
        }
        lemma_sum_in_range(before, lo, hi);
        let n = before.len() as int;
        assert(lo <= given[given.len() - 1] <= hi);
        assert((n + 1) * lo == n * lo + lo) by (nonlinear_arith);
        assert((n + 1) * hi == n * hi + hi) by (nonlinear_arith);
    } else {
        assert(0 * lo == 0 && 0 * hi == 0) by (nonlinear_arith);
    }
}

/// Merging replicas sets each counter to the mean of the counters that the replicas have at the
/// same place, rounded to the nearest integer with halves upwards. Nothing else of the machine is
/// taken from the replicas but the weights.
pub proof fn lemma_merged_counter_is_mean(
    m: MachineModel,
    reps: Seq<MachineModel>,
    wmax: int,
    c: int,
    j: int,
    l: int,
)
    requires
        reps.len() >= 1,
        0 <= c < m.classes.len(),
        0 <= j < m.classes[c].clauses.len(),
        0 <= l < m.classes[c].clauses[j].auto.ta.len(),
    ensures
        ({
            let k = reps.len() as int;
            let w = merged_of(m, reps, wmax);
            let sum = reps.map_values(
                |r: MachineModel| r.classes[c].clauses[j].auto.ta[l] as int,
            ).fold_left(0, |a: int, b: int| a + b);
            let t = w.classes[c].clauses[j].auto.ta[l] as int;
            &&& w.classes.len() == m.classes.len()
            &&& w.classes[c].clauses.len() == m.classes[c].clauses.len()
            &&& w.classes[c].clauses[j].auto.ta.len() == m.classes[c].clauses[j].auto.ta.len()
            &&& 2 * k * t - k <= 2 * sum < 2 * k * t + k
            &&& w.rng == m.rng && w.literal_rng == m.literal_rng
            &&& w.classes[c].rng == m.classes[c].rng
            &&& w.classes[c].clauses[j].rng == m.classes[c].clauses[j].rng
            &&& w.classes[c].clauses[j].auto.ind == m.classes[c].clauses[j].auto.ind
            &&& w.classes[c].clauses[j].auto.cat == m.classes[c].clauses[j].auto.cat
        }),
{
    let k = reps.len() as int;
    let given = reps.map_values(|r: MachineModel| r.classes[c].clauses[j].auto.ta[l] as int);
    lemma_counters_add(reps, c, j, l, given, reps.len());
    assert(given.take(k) =~= given);
    let sum = counter_sum(reps, c, j, l, reps.len());
    lemma_mean_is_nearest(sum, k);
    lemma_sum_in_range(given, 0, 255);
    let t = rounded_mean(sum, k);
    assert(0 <= t <= 255) by (nonlinear_arith)
        requires
            2 * k * t - k <= 2 * sum < 2 * k * t + k,
            k * 0 <= sum <= k * 255,
            k >= 1,
    ;
}

/// Merging replicas sets each weight to the mean of the weights that the replicas have at the same
/// place, rounded to the nearest integer with halves upwards, and keeps it between 1 and the
/// threshold.
pub proof fn lemma_merged_weight_is_mean(
    m: MachineModel,
    reps: Seq<MachineModel>,
    wmax: int,
    c: int,
    j: int,
)
    requires
        reps.len() >= 1,
        1 <= wmax <= i32::MAX,
        0 <= c < m.classes.len(),
        0 <= j < m.classes[c].clauses.len(),
    ensures
        ({
            let k = reps.len() as int;
            let sum = reps.map_values(
                |r: MachineModel| r.classes[c].clauses[j].weight as int,
            ).fold_left(0, |a: int, b: int| a + b);
            let t = merged_of(m, reps, wmax).classes[c].clauses[j].weight as int;
            &&& 1 <= t <= wmax
            &&& 2 * k <= 2 * sum && 2 * sum <= 2 * k * wmax ==> 2 * k * t - k <= 2 * sum < 2 * k * t + k
            &&& sum < k ==> t == 1
            &&& sum > k * wmax ==> t == wmax
        }),
{
    let k = reps.len() as int;
    let given = reps.map_values(|r: MachineModel| r.classes[c].clauses[j].weight as int);
    lemma_weights_add(reps, c, j, given, reps.len());
    assert(given.take(k) =~= given);
    let sum = weight_sum(reps, c, j, reps.len());
    lemma_mean_is_nearest(sum, k);
    let t = rounded_mean(sum, k);
    if 2 * k <= 2 * sum && 2 * sum <= 2 * k * wmax {
        assert(1 <= t <= wmax) by (nonlinear_arith)
            requires
                2 * k * t - k <= 2 * sum < 2 * k * t + k,
                2 * k <= 2 * sum,
                2 * sum <= 2 * k * wmax,
                k >= 1,
        ;
    }
    if sum < k {
        assert(t <= 1) by (nonlinear_arith)
            requires
                2 * k * t - k <= 2 * sum,
                sum < k,
                k >= 1,
        ;
    }
    if sum > k * wmax {
        assert(t >= wmax) by (nonlinear_arith)
            requires
                2 * sum < 2 * k * t + k,
                sum > k * wmax,
                k >= 1,
        ;
    }
}

/// A replica has the counters and weights of the machine, and draws from the streams that a new
/// machine with the replica's seed draws from.
pub proof fn lemma_replica_draws_as_new(
    m: MachineModel,
    seed: u64,
    per_class: nat,
    n: nat,
    half: u8,
    c: int,
    j: int,
)
    requires
        0 <= c < m.classes.len(),
        0 <= j < per_class,
        m.classes[c].clauses.len() == per_class,
    ensures
        ({
            let rep = replica_of(m, seed, per_class as int);
            let new = initial_machine(seed, m.classes.len(), per_class, n, half);
            let a: ClauseModel = rep.classes[c].clauses[j];
            &&& rep.classes.len() == m.classes.len()
            &&& rep.classes[c].clauses.len() == per_class
            &&& a.auto == m.classes[c].clauses[j].auto
            &&& a.weight == m.classes[c].clauses[j].weight
            &&& a.rng == new.classes[c].clauses[j].rng
            &&& rep.classes[c].rng == new.classes[c].rng
            &&& rep.literal_rng == new.literal_rng
            &&& new.rng == rng_skip(rep.rng, m.classes.len() * per_class * n)
        }),
{
}

/// The feedback of a class grows with its distance from where it should be: of all drawn fractions
/// the part that passes is the distance of the votes from the threshold, for the class of the
/// sample, or from minus the threshold, for another class, over twice the threshold, up to rounding.
pub proof fn lemma_feedback_is_proportional(
    coalesced: &CoalescedConfig,
    convolutional: &ConvolutionalConfig,
    plain: &AutoEncoderConfig,
    shared: &CoalescedAutoEncoderConfig,
    t: int,
    v: int,
    target: bool,
)
    requires
        t >= 1,
        -t <= v <= t,
        coalesced.train.threshold == t,
        convolutional.train.threshold == t,
        plain.train.threshold == t,
        shared.train.threshold == t,
    ensures
        ({
            let gate = coalesced.gate_of(v, target) as int;
            let distance = if target {
                t - v
            } else {
                v + t
            };
            &&& 4 * t * gate <= 2 * distance * FRACTIONS + 2 * t
            &&& 4 * t * (gate + 1) > 2 * distance * FRACTIONS - 2 * t
            &&& distance == 0 ==> gate == 0
            &&& distance == 2 * t ==> gate == FRACTIONS
            &&& convolutional.gate_of(v, target) == gate
            &&& plain.gate_of(v, target) == gate
            &&& shared.gate_of(v, target) == gate
        }),
{
    let distance = if target {
        t - v
    } else {
        v + t
    };
    lemma_gate_is_proportional(distance, 2 * t);
    let gate = coalesced.gate_of(v, target) as int;
    assert(2 * (2 * t) * gate == 4 * t * gate) by (nonlinear_arith);
    assert(2 * (2 * t) * (gate + 1) == 4 * t * (gate + 1)) by (nonlinear_arith);
}

/// Classes of equal weight learn alike: which class it is matters to an update only by the weight of
/// the class.
pub proof fn lemma_classes_alike(
    cfg: &MachineConfig,
    m: ClassModel,
    sparse: &SparseConfig,
    w: SparseClassModel,
    target: bool,
    x: Seq<bool>,
    act: Seq<bool>,
    c: int,
    d: int,
)
    requires
        cfg.class_weights@[c] == cfg.class_weights@[d],
        sparse.class_weights@[c] == sparse.class_weights@[d],
    ensures
        cfg.updated(m, c, target, x, act) == cfg.updated(m, d, target, x, act),
        sparse.updated(w, c, target, x, act) == sparse.updated(w, d, target, x, act),
{
}

/// The feedback of a class of weight 1 is proportional to its distance from where it should be, as it
/// is without class weights.
pub proof fn lemma_unweighted_feedback_is_proportional(
    cfg: &MachineConfig,
    sparse: &SparseConfig,
    coalesced: &CoalescedConfig,
    t: int,
    c: int,
    v: int,
    target: bool,
)
    requires
        t >= 1,
        -t <= v <= t,
        cfg.train.threshold == t,
        sparse.threshold == t,
        coalesced.train.threshold == t,
        is_one(cfg.class_weights@[c]),
        is_one(sparse.class_weights@[c]),
    ensures
        cfg.gate_of(c, v, target) == coalesced.gate_of(v, target),
        sparse.gate_of(c, v, target) == coalesced.gate_of(v, target),
{
    let distance = if target {
        t - v
    } else {
        t + v
    };
    lemma_unit_weight_changes_nothing(distance, 2 * t, cfg.class_weights@[c]);
    lemma_unit_weight_changes_nothing(distance, 2 * t, sparse.class_weights@[c]);
}

} // verus!
