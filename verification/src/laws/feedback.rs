//! Feedback treats literals alike and clauses alike.
use crate::clause_bank::automata::{
    first_blocking, grown_state, holds, is_first_blocking, type_i_of, type_ii_of, type_iii_of,
    ClauseState,
};
use crate::clause_bank::dense::{
    type_i_counter, type_ii_counter, type_iii_counter, type_iii_indicator,
};
use crate::clause_bank::feedback::{
    class_drops, class_update_of, feedback_of, ClassModel, ClauseModel, Rules,
};
use crate::clause_bank::shared::{coalesced_of, shared_update_of, unit_of, SharedUpdate};
use crate::clause_bank::sparse::{sparse_holds, SparseModel};
use crate::dyadic::{is_positive, plus_of};
use crate::models::autoencoder::vanilla_autoencoder::masked;
use crate::models::classification::coalesced_classifier::{CoalescedConfig, CoalescedModel};
use crate::models::classification::convolutional_classifier::{holds_somewhere, patch_update_of};
use crate::models::classification::sparse_classifier::{SparseClassModel, SparseConfig};
use crate::models::regression::target::Target;
use crate::models::regression::vanilla_regressor::{RegressorConfig, RegressorModel};
use vstd::prelude::*;

verus! {

/// A clause fires in training unless an included and active literal is absent: one more literal
/// can only stop it, and a clause without literals always fires.
pub proof fn lemma_one_more_literal(
    ta: Seq<u8>,
    x: Seq<bool>,
    act: Seq<bool>,
    half: u8,
    t: u8,
    present: bool,
    active: bool,
)
    requires
        x.len() == ta.len(),
        act.len() == ta.len(),
    ensures
        holds(ta.push(t), half, x.push(present), act.push(active)) == (holds(ta, half, x, act) && !(t
            >= half && active && !present)),
        holds(Seq::empty(), half, Seq::empty(), Seq::empty()),
{
    let n = ta.len() as int;
    let a = ta.push(t);
    let b = x.push(present);
    let c = act.push(active);
    assert(a[n] == t && b[n] == present && c[n] == active);
    assert forall|l: int| 0 <= l < n implies #[trigger] a[l] == ta[l] && b[l] == x[l] && c[l]
        == act[l] by {}
    if holds(a, half, b, c) {
        assert forall|l: int| 0 <= l < ta.len() && #[trigger] ta[l] >= half && act[l] implies x[l] by {
            assert(a[l] == ta[l]);
        }
    }
}

/// One more included literal can only stop a sparse clause, and one without included literals
/// always fires in training.
pub proof fn lemma_one_more_included(m: SparseModel, l: u32, x: Seq<bool>, act: Seq<bool>)
    ensures
        sparse_holds(SparseModel { included: m.included.push(l), ..m }, x, act) == (sparse_holds(
            m,
            x,
            act,
        ) && (act[l as int] ==> x[l as int])),
        m.included.len() == 0 ==> sparse_holds(m, x, act),
{
    let w = SparseModel { included: m.included.push(l), ..m };
    let n = m.included.len() as int;
    assert(w.included[n] == l);
    assert forall|i: int| 0 <= i < n implies #[trigger] w.included[i] == m.included[i] by {}
    if sparse_holds(w, x, act) {
        assert forall|i: int|
            0 <= i < m.included.len() && act[#[trigger] m.included[i] as int] implies
            x[m.included[i] as int] by {
            assert(w.included[i] == m.included[i]);
        }
    }
}

/// A clause fires on patches in training if it fires on one of them.
pub proof fn lemma_one_more_patch(
    ta: Seq<u8>,
    half: u8,
    patches: Seq<Seq<bool>>,
    x: Seq<bool>,
    act: Seq<bool>,
)
    ensures
        holds_somewhere(ta, half, patches.push(x), act) == (holds_somewhere(ta, half, patches, act)
            || holds(ta, half, x, act)),
        !holds_somewhere(ta, half, Seq::empty(), act),
{
    let more = patches.push(x);
    let n = patches.len() as int;
    if holds_somewhere(ta, half, patches, act) {
        let p = choose|p: int| 0 <= p < patches.len() && #[trigger] holds(ta, half, patches[p], act);
        assert(more[p] == patches[p]);
        assert(holds(ta, half, more[p], act));
    }
    if holds(ta, half, x, act) {
        assert(more[n] == x);
        assert(holds(ta, half, more[n], act));
    }
    if holds_somewhere(ta, half, more, act) {
        let p = choose|p: int| 0 <= p < more.len() && #[trigger] holds(ta, half, more[p], act);
        if p < n {
            assert(more[p] == patches[p]);
            assert(holds(ta, half, patches[p], act));
        }
    }
}

/// Type I and Type II feedback change a counter by at most one step, and treat all literals alike:
/// what becomes of a counter is settled by the counter and what is known of its literal, wherever
/// in whichever clause it stands.
pub proof fn lemma_literals_alike(
    ta: Seq<u8>,
    x: Seq<bool>,
    inv: Seq<bool>,
    keep: Seq<bool>,
    act: Seq<bool>,
    l: int,
    wa: Seq<u8>,
    wx: Seq<bool>,
    winv: Seq<bool>,
    wkeep: Seq<bool>,
    wact: Seq<bool>,
    k: int,
    fired: bool,
    boost: bool,
    half: u8,
    max: u8,
)
    requires
        0 <= l < ta.len(),
        0 <= k < wa.len(),
        ta[l] == wa[k],
        ta[l] <= max,
        x[l] == wx[k],
        inv[l] == winv[k],
        keep[l] == wkeep[k],
        act[l] == wact[k],
    ensures
        type_i_of(ta, fired, boost, x, inv, keep, act, max).len() == ta.len(),
        type_ii_of(ta, x, act, half, max).len() == ta.len(),
        type_i_of(ta, fired, boost, x, inv, keep, act, max)[l] == type_i_of(
            wa,
            fired,
            boost,
            wx,
            winv,
            wkeep,
            wact,
            max,
        )[k],
        type_ii_of(ta, x, act, half, max)[l] == type_ii_of(wa, wx, wact, half, max)[k],
        -1 <= type_i_of(ta, fired, boost, x, inv, keep, act, max)[l] - ta[l] <= 1,
        0 <= type_ii_of(ta, x, act, half, max)[l] - ta[l] <= 1,
{
}

/// Type III feedback treats all literals alike that are not the first that blocks the clause.
pub proof fn lemma_literals_alike_in_type_iii(
    m: ClauseState,
    s: u64,
    target: bool,
    d_gate: u64,
    gate: u64,
    x: Seq<bool>,
    act: Seq<bool>,
    half: u8,
    max: u8,
    l: int,
    k: int,
)
    requires
        m.ind.len() == m.ta.len(),
        m.cat.len() == m.ta.len(),
        0 <= l < m.ta.len(),
        0 <= k < m.ta.len(),
        m.ta[l] == m.ta[k],
        m.ind[l] == m.ind[k],
        m.cat[l] == m.cat[k],
        x[l] == x[k],
        act[l] == act[k],
    ensures
        ({
            let w = type_iii_of(m, s, target, d_gate, gate, x, act, half, max);
            &&& w.ta.len() == m.ta.len() && w.ind.len() == m.ind.len() && w.cat.len() == m.cat.len()
            &&& w.ta[l] == w.ta[k]
            &&& w.ind[l] == w.ind[k]
            &&& holds(m.ta, half, x, act) || x[l] || !act[l] || m.ta[l] < half || l == k
                ==> w.cat[l] == w.cat[k]
            &&& w.ta[l] <= m.ta[l] <= w.ta[l] + 1
        }),
{
    let b = first_blocking(m.ta, half, x, act);
    if !holds(m.ta, half, x, act) {
        let l0 = choose|i: int| 0 <= i < m.ta.len() && #[trigger] m.ta[i] >= half && act[i] && !x[i];
        lemma_blocking_found(m.ta, half, x, act, l0, 0);
    }
}

proof fn lemma_blocking_found(ta: Seq<u8>, half: u8, x: Seq<bool>, act: Seq<bool>, at: int, from: int)
    requires
        0 <= from <= at < ta.len(),
        ta[at] >= half && act[at] && !x[at],
        forall|l: int| 0 <= l < from && #[trigger] ta[l] >= half && act[l] ==> x[l],
    ensures
        is_first_blocking(
            ta,
            half,
            x,
            act,
            first_blocking(ta, half, x, act),
        ),
    decreases at - from,
{
    if ta[from] >= half && act[from] && !x[from] {
        assert(is_first_blocking(ta, half, x, act, from));
    } else {
        lemma_blocking_found(ta, half, x, act, at, from + 1);
    }
}

/// Weights change by at most one per update and stay in their range: a rewarded clause that fires
/// and may grow gains, a punished one that fires loses, and no other weight changes.
pub proof fn lemma_weight_feedback(
    c: ClauseModel,
    reward: bool,
    fires: bool,
    gate: u64,
    r: Rules,
    x: Seq<bool>,
    act: Seq<bool>,
    inv: Seq<bool>,
    keep: Seq<bool>,
    half: u8,
    max: u8,
)
    requires
        r.wmin <= c.weight <= r.wmax,
    ensures
        ({
            let w = feedback_of(c, reward, fires, gate, r, x, act, inv, keep, half, max);
            &&& r.wmin <= w.weight <= r.wmax
            &&& -1 <= w.weight - c.weight <= 1
            &&& w.weight > c.weight ==> reward && fires
            &&& w.weight < c.weight ==> !reward && fires
            &&& w.auto.ind == c.auto.ind && w.auto.cat == c.auto.cat
            &&& !reward && !fires ==> w.auto == c.auto
        }),
{
}

/// The weight of a shared clause for an output moves towards the output where the clause fires on
/// a sample of it, away from it where it fires on a sample of another, and not at all where it does
/// not fire.
pub proof fn lemma_shared_weight_feedback(
    c: ClauseModel,
    target: bool,
    gate: u64,
    out: bool,
    r: Rules,
    x: Seq<bool>,
    act: Seq<bool>,
    inv: Seq<bool>,
    keep: Seq<bool>,
    half: u8,
    max: u8,
)
    ensures
        ({
            let w = coalesced_of(c, target, gate, out, r, x, act, inv, keep, half, max);
            &&& -1 <= w.weight - c.weight <= 1
            &&& w.weight > c.weight ==> target && out
            &&& w.weight < c.weight ==> !target && out
            &&& w.auto.ind == c.auto.ind && w.auto.cat == c.auto.cat
        }),
{
}

/// An update treats the clauses of a class alike: two clauses that are equal, of the same polarity
/// and both dropped or both not, stay equal.
pub proof fn lemma_clauses_alike(
    m: ClassModel,
    target: bool,
    gate: u64,
    r: Rules,
    dig_inv: Seq<u8>,
    dig_keep: Seq<u8>,
    x: Seq<bool>,
    act: Seq<bool>,
    patches: Seq<Seq<bool>>,
    half: u8,
    max: u8,
    i: int,
    j: int,
)
    requires
        0 <= i < m.clauses.len(),
        0 <= j < m.clauses.len(),
        i % 2 == j % 2,
        m.clauses[i] == m.clauses[j],
        class_drops(m.rng, r.drop, m.clauses.len())[i] == class_drops(
            m.rng,
            r.drop,
            m.clauses.len(),
        )[j],
    ensures
        ({
            let w = class_update_of(m, target, gate, r, dig_inv, dig_keep, x, act, half, max);
            w.clauses.len() == m.clauses.len() && w.clauses[i] == w.clauses[j]
        }),
        ({
            let w = patch_update_of(
                m,
                target,
                gate,
                r,
                dig_inv,
                dig_keep,
                patches,
                act,
                half,
                max,
            );
            w.clauses.len() == m.clauses.len() && w.clauses[i] == w.clauses[j]
        }),
{
}

/// An update treats shared clauses alike: two that are equal, weigh the same and both take part or
/// both do not, stay equal and go on weighing the same.
pub proof fn lemma_shared_clauses_alike(
    u: SharedUpdate,
    active: Seq<bool>,
    target: bool,
    gate: u64,
    outs: Seq<bool>,
    r: Rules,
    dig_inv: Seq<u8>,
    dig_keep: Seq<u8>,
    x: Seq<bool>,
    act: Seq<bool>,
    half: u8,
    max: u8,
    i: int,
    j: int,
)
    requires
        0 <= i < u.clauses.autos.len(),
        0 <= j < u.clauses.autos.len(),
        unit_of(u.clauses, u.weights, i) == unit_of(u.clauses, u.weights, j),
        active[i] == active[j],
        outs[i] == outs[j],
    ensures
        ({
            let w = shared_update_of(
                u,
                active,
                target,
                gate,
                outs,
                r,
                dig_inv,
                dig_keep,
                x,
                act,
                half,
                max,
            );
            &&& w.clauses.autos.len() == u.clauses.autos.len()
            &&& w.weights.len() == u.clauses.autos.len()
            &&& w.clauses.autos[i] == w.clauses.autos[j]
            &&& w.clauses.rngs[i] == w.clauses.rngs[j]
            &&& w.weights[i] == w.weights[j]
            &&& !active[i] ==> w.clauses.autos[i] == u.clauses.autos[i] && w.clauses.rngs[i]
                == u.clauses.rngs[i] && w.weights[i] == u.weights[i]
        }),
{
}

/// An update treats the clauses of a sparse class alike: two clauses that are equal, weigh the same,
/// have the same polarity and are both dropped or both not, stay equal.
pub proof fn lemma_sparse_clauses_alike(
    cfg: &SparseConfig,
    m: SparseClassModel,
    target: bool,
    gate: u64,
    x: Seq<bool>,
    act: Seq<bool>,
    i: int,
    j: int,
)
    requires
        0 <= i < m.pools.len(),
        0 <= j < m.pools.len(),
        i % 2 == j % 2,
        m.pools[i] == m.pools[j],
        m.weights[i] == m.weights[j],
        m.rngs[i] == m.rngs[j],
        class_drops(m.rng, cfg.clause_drop, m.pools.len())[i] == class_drops(
            m.rng,
            cfg.clause_drop,
            m.pools.len(),
        )[j],
    ensures
        ({
            let w = cfg.class_step(m, target, gate, x, act);
            &&& w.pools.len() == m.pools.len()
            &&& w.pools[i] == w.pools[j]
            &&& w.weights[i] == w.weights[j]
            &&& w.rngs[i] == w.rngs[j]
            &&& class_drops(m.rng, cfg.clause_drop, m.pools.len())[i] ==> w.pools[i] == m.pools[i]
                && w.weights[i] == m.weights[i] && w.rngs[i] == m.rngs[i]
        }),
{
}

/// A step of a regressor treats its clauses alike: two equal clauses that are both dropped or both
/// not stay equal.
pub proof fn lemma_regressor_clauses_alike(
    cfg: &RegressorConfig,
    m: RegressorModel,
    x: Seq<bool>,
    y: Target,
    i: int,
    j: int,
)
    requires
        !is_positive(cfg.train.rules.drop),
        0 <= i < m.clauses.len(),
        0 <= j < m.clauses.len(),
        m.clauses[i] == m.clauses[j],
    ensures
        cfg.fit_one_of(m, x, y).clauses.len() == m.clauses.len(),
        cfg.fit_one_of(m, x, y).clauses[i] == cfg.fit_one_of(m, x, y).clauses[j],
{
}

/// The literals that an output sees are the active ones but for its own feature and the negation of
/// that.
pub proof fn lemma_own_feature_is_masked(act: Seq<bool>, o: int, n_features: int, l: int)
    requires
        0 <= o < n_features,
        act.len() == 2 * n_features,
        0 <= l < act.len(),
    ensures
        masked(act, o, n_features).len() == act.len(),
        masked(act, o, n_features)[l] == (act[l] && l != o && l != n_features + o),
{
}

/// A clause that is grown keeps what it has learned of each feature and of its negation, and knows
/// nothing of the new features: their literals are excluded, one step below the middle.
pub proof fn lemma_grown_literals(m: ClauseState, old_nf: int, new_nf: int, half: u8, f: int)
    requires
        0 <= old_nf <= new_nf,
        0 <= f < new_nf,
        half >= 1,
    ensures
        ({
            let w = grown_state(m, old_nf, new_nf, half);
            &&& w.ta.len() == 2 * new_nf && w.ind.len() == 2 * new_nf && w.cat.len() == 2 * new_nf
            &&& f < old_nf ==> {
                &&& w.ta[f] == m.ta[f] && w.ta[new_nf + f] == m.ta[old_nf + f]
                &&& w.ind[f] == m.ind[f] && w.ind[new_nf + f] == m.ind[old_nf + f]
                &&& w.cat[f] == m.cat[f] && w.cat[new_nf + f] == m.cat[old_nf + f]
            }
            &&& f >= old_nf ==> {
                &&& w.ta[f] == half - 1 && w.ta[new_nf + f] == half - 1
                &&& w.ind[f] == half && w.ind[new_nf + f] == half
                &&& !w.cat[f] && !w.cat[new_nf + f]
            }
        }),
{
}

proof fn lemma_total_folds(
    cfg: &CoalescedConfig,
    m: CoalescedModel,
    y: int,
    outs: Seq<bool>,
    active: Seq<bool>,
    classes: Seq<int>,
    n: nat,
)
    requires
        n <= classes.len(),
        forall|c: int| 0 <= c < classes.len() ==> #[trigger] classes[c] == c,
    ensures
        cfg.urgency_total(m, y, outs, active, n) == classes.take(n as int).filter(
            |c: int| c != y,
        ).fold_left(
            (0int, 0int),
            |a: (int, int), c: int| plus_of(a, cfg.urgency(m, c, outs, active)),
        ),
    decreases n,
{
    reveal(Seq::filter);
    let others = |c: int| c != y;
    let step = |a: (int, int), c: int| plus_of(a, cfg.urgency(m, c, outs, active));
    if n > 0 {
        lemma_total_folds(cfg, m, y, outs, active, classes, (n - 1) as nat);
        let taken = classes.take(n as int);
        let before = classes.take(n - 1).filter(others);
        assert(taken.drop_last() =~= classes.take(n - 1));
        assert(taken.last() == classes[n - 1]);
        assert(classes[n - 1] == n - 1);
        if n - 1 != y {
            let now = before.push(n - 1);
            assert(taken.filter(others) == now);
            assert(now.drop_last() =~= before);
            assert(now.last() == n - 1);
            assert(now.fold_left((0int, 0int), step) == step(
                before.fold_left((0int, 0int), step),
                n - 1,
            ));
        } else {
            assert(taken.filter(others) == before);
        }
    } else {
        assert(classes.take(0).filter(others) =~= Seq::empty());
    }
}

/// The urgencies of all classes but that of the sample are added up, from the first class on.
pub proof fn lemma_urgencies_add_up(
    cfg: &CoalescedConfig,
    m: CoalescedModel,
    y: int,
    outs: Seq<bool>,
    active: Seq<bool>,
    n: nat,
)
    ensures
        cfg.urgency_total(m, y, outs, active, n) == Seq::new(n, |c: int| c).filter(
            |c: int| c != y,
        ).fold_left(
            (0int, 0int),
            |a: (int, int), c: int| plus_of(a, cfg.urgency(m, c, outs, active)),
        ),
{
    let classes = Seq::new(n, |c: int| c);
    lemma_total_folds(cfg, m, y, outs, active, classes, n);
    assert(classes.take(n as int) =~= classes);
}

/// What becomes of a single counter or indicator, step by step: each moves by one under exactly
/// the stated conditions, and else not at all.
pub proof fn lemma_counter_steps(
    t: u8,
    ind: u8,
    fired: bool,
    boost: bool,
    lit: bool,
    inv: bool,
    keep: bool,
    active: bool,
    cat: bool,
    valid: bool,
    gains: bool,
    half: u8,
    max: u8,
)
    requires
        t <= max,
        ind <= max,
        1 <= half <= max,
    ensures
        type_i_counter(t, fired, boost, lit, inv, keep, active, max) - t == if fired && lit && active
            && (boost || keep) && t < max {
            1int
        } else if !lit && active && inv && 0 < t < max {
            -1int
        } else {
            0
        },
        type_ii_counter(t, lit, active, half, max) - t == if !lit && active && 0 < t < half {
            1int
        } else {
            0
        },
        type_iii_counter(t, ind, active, half) - t == if active && ind < half && t > 0 {
            -1int
        } else {
            0
        },
        type_iii_indicator(ind, cat, lit, active, valid, gains, max) - ind == if lit && active && cat
            && gains && ind < max {
            1int
        } else if lit && active && !cat && valid && ind > 0 {
            -1int
        } else {
            0
        },
{
}

} // verus!
