//! Approximate training on several threads: every thread trains a replica on its share of
//! an epoch, and the replicas are averaged.
use crate::clause_bank::automata::{Automata, ClauseState, Geometry};
use crate::clause_bank::dense::{use_parallel, PARALLEL_MIN, PARALLEL_WORK_MIN};
use crate::clause_bank::feedback::{clamp, Clause, ClassBank, ClassModel, ClauseModel};
use crate::encoder::EncodedBatch;
use crate::models::classification::dp_seed::{class_rng, clause_rng, literal_rng, replica_rng};
use crate::models::classification::vanilla_classifier::{
    lemma_clause_counts, MachineConfig, MachineModel, MachineState, TsetlinMachine,
};
use crate::models::config::{clause_seed, literal_seed};
use crate::rng::{rng_next, rng_skip, rng_word, Rng};
use crate::sampling::{epoch_order, epoch_order_of, shuffle_draws};
use vstd::prelude::*;
use vstd::slice::slice_subrange;

verus! {

/// A class of a replica: what was learned, with the streams that follow from `sd`.
pub open spec fn replica_class(m: ClassModel, sd: u64, c: int, per_class: int, n_clauses: int) -> ClassModel {
    ClassModel {
        clauses: Seq::new(
            m.clauses.len(),
            |j: int| ClauseModel { rng: clause_seed(sd, c * per_class + j), ..m.clauses[j] },
        ),
        rng: clause_seed(sd, c + n_clauses),
    }
}

/// A replica of a machine, seeded with `sd`.
pub open spec fn replica_of(m: MachineModel, sd: u64, per_class: int) -> MachineModel {
    MachineModel {
        classes: Seq::new(
            m.classes.len(),
            |c: int| replica_class(m.classes[c], sd, c, per_class, m.classes.len() * per_class),
        ),
        rng: rng_next(sd),
        literal_rng: literal_seed(sd),
    }
}

/// The sum of counter `l` of a clause over the first `n` replicas.
pub open spec fn counter_sum(reps: Seq<MachineModel>, c: int, j: int, l: int, n: nat) -> int
    decreases n,
{
    if n == 0 {
        0
    } else {
        counter_sum(reps, c, j, l, (n - 1) as nat) + reps[n - 1].classes[c].clauses[j].auto.ta[l]
    }
}

/// The sum of the weight of a clause over the first `n` replicas.
pub open spec fn weight_sum(reps: Seq<MachineModel>, c: int, j: int, n: nat) -> int
    decreases n,
{
    if n == 0 {
        0
    } else {
        weight_sum(reps, c, j, (n - 1) as nat) + reps[n - 1].classes[c].clauses[j].weight
    }
}

/// `sum / k` rounded to the nearest integer, half up.
pub open spec fn rounded_mean(sum: int, k: int) -> int {
    (sum + k / 2) / k
}

/// A clause after the replicas were merged into it.
pub open spec fn merged_clause(
    m: ClauseModel,
    reps: Seq<MachineModel>,
    c: int,
    j: int,
    wmax: int,
) -> ClauseModel {
    let k = reps.len();
    ClauseModel {
        auto: ClauseState {
            ta: Seq::new(
                m.auto.ta.len(),
                |l: int| rounded_mean(counter_sum(reps, c, j, l, k), k as int) as u8,
            ),
            ..m.auto
        },
        weight: clamp(rounded_mean(weight_sum(reps, c, j, k), k as int), 1, wmax) as i32,
        ..m
    }
}

/// A machine after the replicas were merged into it: counters and weights are the rounded
/// means over the replicas, and the machine keeps its own streams.
pub open spec fn merged_of(m: MachineModel, reps: Seq<MachineModel>, wmax: int) -> MachineModel {
    MachineModel {
        classes: Seq::new(
            m.classes.len(),
            |c: int|
                ClassModel {
                    clauses: Seq::new(
                        m.classes[c].clauses.len(),
                        |j: int| merged_clause(m.classes[c].clauses[j], reps, c, j, wmax),
                    ),
                    rng: m.classes[c].rng,
                },
        ),
        ..m
    }
}

/// The values of the replicas.
pub open spec fn state_models(reps: Seq<MachineState>) -> Seq<MachineModel> {
    Seq::new(reps.len(), |i: int| reps[i]@)
}

/// How many samples each of `k` shares of `n` samples has (the last may have fewer).
pub open spec fn share_len(n: int, k: int) -> int {
    (n + k - 1) / k
}

/// Where share `i` begins.
pub open spec fn share_start(n: int, k: int, i: int) -> int {
    if i * share_len(n, k) <= n {
        i * share_len(n, k)
    } else {
        n
    }
}

impl MachineState {
    /// A replica of the machine, seeded with `sd`.
    pub fn replica(&self, cfg: &MachineConfig, sd: u64) -> (r: Self)
        requires
            self.wf(cfg),
        ensures
            r.wf(cfg),
            r@ == replica_of(self@, sd, cfg.clauses_per_class as int),
    {
        proof {
            lemma_clause_counts(
                cfg.n_classes as int,
                cfg.clauses_per_class as int,
                cfg.train.geom.n_literals as int,
            );
        }
        let per_class: usize = cfg.clauses_per_class;
        let total: usize = cfg.n_classes * per_class;
        let mut classes: Vec<ClassBank> = Vec::with_capacity(cfg.n_classes);
        let mut c: usize = 0;
        let mut i: usize = 0;
        proof {
            assert(0 * per_class == 0) by (nonlinear_arith);
        }
        while c < cfg.n_classes
            invariant
                self.wf(cfg),
                per_class == cfg.clauses_per_class,
                total == cfg.n_classes * per_class,
                total + cfg.n_classes < usize::MAX,
                c <= cfg.n_classes,
                i == c * per_class,
                classes@.len() == c,
                forall|k: int|
                    0 <= k < c ==> (#[trigger] classes@[k])@ == replica_class(
                        self@.classes[k],
                        sd,
                        k,
                        per_class as int,
                        total as int,
                    ),
                forall|k: int|
                    0 <= k < c ==> (#[trigger] classes@[k]).wf(&cfg.train.geom, 1, cfg.train.threshold)
                        && classes@[k].clauses@.len() == per_class,
            decreases cfg.n_classes - c,
        {
            let bank: &ClassBank = &self.classes[c];
            let mut clauses: Vec<Clause> = Vec::with_capacity(per_class);
            let mut j: usize = 0;
            proof {
                let n_classes = cfg.n_classes as int;
                assert((c + 1) * per_class <= n_classes * per_class && (c + 1) * per_class == c
                    * per_class + per_class) by (nonlinear_arith)
                    requires
                        c + 1 <= n_classes,
                ;
            }
            while j < per_class
                invariant
                    self.wf(cfg),
                    c < cfg.n_classes,
                    *bank == self.classes@[c as int],
                    per_class == cfg.clauses_per_class,
                    total < usize::MAX,
                    c * per_class + per_class <= total,
                    j <= per_class,
                    i == c * per_class + j,
                    clauses@.len() == j,
                    forall|k: int|
                        0 <= k < j ==> (#[trigger] clauses@[k])@ == (ClauseModel {
                            rng: clause_seed(sd, c * per_class + k),
                            ..bank.clauses@[k]@
                        }),
                    forall|k: int|
                        0 <= k < j ==> (#[trigger] clauses@[k]).wf(
                            &cfg.train.geom,
                            1,
                            cfg.train.threshold,
                        ),
                decreases per_class - j,
            {
                let cl: &Clause = &bank.clauses[j];
                proof {
                    assert(bank.clauses@[j as int].wf(&cfg.train.geom, 1, cfg.train.threshold));
                }
                let auto: Automata = cl.auto.duplicate(&cfg.train.geom);
                clauses.push(Clause { auto, weight: cl.weight, rng: clause_rng(sd, i) });
                i = i + 1;
                j = j + 1;
            }
            let copy: ClassBank = ClassBank { clauses, rng: class_rng(sd, c, total) };
            proof {
                let want = replica_class(
                    self@.classes[c as int],
                    sd,
                    c as int,
                    per_class as int,
                    total as int,
                );
                assert(copy@.clauses =~= want.clauses);
            }
            classes.push(copy);
            c = c + 1;
        }
        let r: MachineState = MachineState {
            classes,
            rng: replica_rng(sd),
            literal_rng: literal_rng(sd),
        };
        proof {
            assert(r@.classes =~= replica_of(self@, sd, per_class as int).classes);
        }
        r
    }

    /// Merges replicas: counters and weights become their means.
    pub fn merge(&mut self, cfg: &MachineConfig, reps: &Vec<MachineState>)
        requires
            old(self).wf(cfg),
            reps@.len() >= 1,
            forall|i: int| 0 <= i < reps@.len() ==> (#[trigger] reps@[i]).wf(cfg),
        ensures
            final(self).wf(cfg),
            final(self)@ == merged_of(
                old(self)@,
                state_models(reps@),
                cfg.train.threshold as int,
            ),
    {
        let ghost before = *self;
        let ghost ms = state_models(reps@);
        let ghost wmax = cfg.train.threshold as int;
        let n: usize = self.classes.len();
        let mut c: usize = 0;
        while c < n
            invariant
                before.wf(cfg),
                reps@.len() >= 1,
                forall|i: int| 0 <= i < reps@.len() ==> (#[trigger] reps@[i]).wf(cfg),
                ms == state_models(reps@),
                wmax == cfg.train.threshold,
                n == cfg.n_classes,
                c <= n,
                self.classes@.len() == n,
                self.rng == before.rng,
                self.literal_rng == before.literal_rng,
                forall|k: int| c <= k < n ==> #[trigger] self.classes@[k] == before.classes@[k],
                forall|k: int|
                    0 <= k < c ==> (#[trigger] self.classes@[k]).wf(
                        &cfg.train.geom,
                        1,
                        cfg.train.threshold,
                    ) && self.classes@[k].clauses@.len() == cfg.clauses_per_class
                        && self.classes@[k]@ == merged_of(before@, ms, wmax).classes[k],
            decreases n - c,
        {
            let ghost bc = before.classes@[c as int];
            let per_class: usize = cfg.clauses_per_class;
            let mut clauses: Vec<Clause> = Vec::with_capacity(per_class);
            let mut j: usize = 0;
            while j < per_class
                invariant
                    before.wf(cfg),
                    reps@.len() >= 1,
                    forall|i: int| 0 <= i < reps@.len() ==> (#[trigger] reps@[i]).wf(cfg),
                    ms == state_models(reps@),
                    wmax == cfg.train.threshold,
                    c < cfg.n_classes,
                    self.classes@.len() == cfg.n_classes,
                    self.classes@[c as int] == bc,
                    bc == before.classes@[c as int],
                    per_class == cfg.clauses_per_class,
                    j <= per_class,
                    clauses@.len() == j,
                    forall|k: int|
                        0 <= k < j ==> (#[trigger] clauses@[k]).wf(
                            &cfg.train.geom,
                            1,
                            cfg.train.threshold,
                        ) && clauses@[k]@ == merged_clause(bc.clauses@[k]@, ms, c as int, k, wmax),
                decreases per_class - j,
            {
                let cl: &Clause = &self.classes[c].clauses[j];
                proof {
                    assert(bc.clauses@[j as int].wf(&cfg.train.geom, 1, cfg.train.threshold));
                }
                let copy: Clause = merge_clause(cfg, cl, reps, c, j);
                clauses.push(copy);
                j = j + 1;
            }
            let rng: Rng = self.classes[c].rng;
            let bank: ClassBank = ClassBank { clauses, rng };
            proof {
                assert(bank@.clauses =~= merged_of(before@, ms, wmax).classes[c as int].clauses);
            }
            self.classes.set(c, bank);
            c = c + 1;
        }
        proof {
            assert(self@.classes =~= merged_of(before@, ms, wmax).classes);
        }
    }
}

/// A clause with the mean counters and the mean weight of its replicas.
fn merge_clause(
    cfg: &MachineConfig,
    cl: &Clause,
    reps: &Vec<MachineState>,
    c: usize,
    j: usize,
) -> (r: Clause)
    requires
        cfg.wf(),
        cl.wf(&cfg.train.geom, 1, cfg.train.threshold),
        c < cfg.n_classes,
        j < cfg.clauses_per_class,
        reps@.len() >= 1,
        forall|i: int| 0 <= i < reps@.len() ==> (#[trigger] reps@[i]).wf(cfg),
    ensures
        r.wf(&cfg.train.geom, 1, cfg.train.threshold),
        r@ == merged_clause(
            cl@,
            state_models(reps@),
            c as int,
            j as int,
            cfg.train.threshold as int,
        ),
{
    let ghost ms = state_models(reps@);
    let k: u128 = reps.len() as u128;
    let g: &Geometry = &cfg.train.geom;
    let mut ta: Vec<u8> = Vec::with_capacity(g.n_literals);
    let mut l: usize = 0;
    while l < g.n_literals
        invariant
            cfg.wf(),
            *g == cfg.train.geom,
            c < cfg.n_classes,
            j < cfg.clauses_per_class,
            reps@.len() >= 1,
            forall|i: int| 0 <= i < reps@.len() ==> (#[trigger] reps@[i]).wf(cfg),
            ms == state_models(reps@),
            k == reps@.len(),
            l <= g.n_literals,
            ta@.len() == l,
            forall|i: int|
                0 <= i < l ==> #[trigger] ta@[i] <= g.max_state && ta@[i] == rounded_mean(
                    counter_sum(ms, c as int, j as int, i, ms.len()),
                    k as int,
                ),
        decreases g.n_literals - l,
    {
        let mut sum: u128 = 0;
        let mut i: usize = 0;
        while i < reps.len()
            invariant
                cfg.wf(),
                *g == cfg.train.geom,
                c < cfg.n_classes,
                j < cfg.clauses_per_class,
                l < g.n_literals,
                forall|q: int| 0 <= q < reps@.len() ==> (#[trigger] reps@[q]).wf(cfg),
                ms == state_models(reps@),
                i <= reps@.len(),
                sum == counter_sum(ms, c as int, j as int, l as int, i as nat),
                sum <= g.max_state * i,
            decreases reps@.len() - i,
        {
            proof {
                let rep = reps@[i as int];
                assert(rep.wf(cfg));
                assert(rep.classes@[c as int].wf(g, 1, cfg.train.threshold));
                assert(rep.classes@[c as int].clauses@[j as int].wf(g, 1, cfg.train.threshold));
                assert(ms[i as int].classes[c as int].clauses[j as int].auto.ta
                    == rep.classes@[c as int].clauses@[j as int].auto.ta@);
                let max = g.max_state as int;
                assert(max * (i + 1) == max * i + max) by (nonlinear_arith);
                assert(max * i <= 255 * i) by (nonlinear_arith)
                    requires
                        max <= 255,
                        i >= 0,
                ;
            }
            sum = sum + reps[i].classes[c].clauses[j].auto.ta[l] as u128;
            i = i + 1;
        }
        proof {
            let max = g.max_state as int;
            assert(max * k <= 255 * k) by (nonlinear_arith)
                requires
                    max <= 255,
                    k >= 0,
            ;
            assert((sum + k / 2) / (k as int) <= max) by (nonlinear_arith)
                requires
                    sum <= max * k,
                    k >= 1,
                    sum >= 0,
            ;
        }
        ta.push(((sum + k / 2) / k) as u8);
        l = l + 1;
    }
    let mut wsum: i128 = 0;
    let mut i: usize = 0;
    while i < reps.len()
        invariant
            cfg.wf(),
            c < cfg.n_classes,
            j < cfg.clauses_per_class,
            forall|q: int| 0 <= q < reps@.len() ==> (#[trigger] reps@[q]).wf(cfg),
            ms == state_models(reps@),
            i <= reps@.len(),
            wsum == weight_sum(ms, c as int, j as int, i as nat),
            i <= wsum <= 0x8000_0000 * i,
        decreases reps@.len() - i,
    {
        proof {
            let rep = reps@[i as int];
            assert(rep.wf(cfg));
            assert(rep.classes@[c as int].wf(&cfg.train.geom, 1, cfg.train.threshold));
            assert(rep.classes@[c as int].clauses@[j as int].wf(
                &cfg.train.geom,
                1,
                cfg.train.threshold,
            ));
            assert(ms[i as int].classes[c as int].clauses[j as int].weight
                == rep.classes@[c as int].clauses@[j as int].weight);
        }
        wsum = wsum + reps[i].classes[c].clauses[j].weight as i128;
        i = i + 1;
    }
    let ki: i128 = reps.len() as i128;
    let mean: i128 = (wsum + ki / 2) / ki;
    proof {
        assert(mean == rounded_mean(wsum as int, ki as int));
    }
    let weight: i32 = if mean < 1 {
        1
    } else if mean > cfg.train.threshold as i128 {
        cfg.train.threshold
    } else {
        mean as i32
    };
    let auto: Automata = cl.auto.with_counters(g, ta);
    let r: Clause = Clause { auto, weight, rng: cl.rng };
    proof {
        let want = merged_clause(
            cl@,
            ms,
            c as int,
            j as int,
            cfg.train.threshold as int,
        );
        assert(r@.auto.ta =~= want.auto.ta);
        assert(r@.auto.cat =~= want.auto.cat);
    }
    r
}

/// The seeds of `k` replicas, drawn from stream position `s`.
pub open spec fn seeds_of(s: u64, k: nat) -> Seq<u64> {
    Seq::new(k, |i: int| rng_word(rng_skip(s, i as nat)))
}

/// The samples of share `i` of `k`.
pub open spec fn share_of(order: Seq<usize>, k: int, i: int) -> Seq<usize> {
    let n = order.len() as int;
    order.subrange(share_start(n, k, i), share_start(n, k, i + 1))
}

/// Replica `i` after training on its share.
pub open spec fn trained_replica(
    cfg: MachineConfig,
    m: MachineModel,
    xs: Seq<Seq<bool>>,
    ys: Seq<usize>,
    order: Seq<usize>,
    seeds: Seq<u64>,
    i: int,
) -> MachineModel {
    let share = share_of(order, seeds.len() as int, i);
    cfg.fit_order_of(
        replica_of(m, seeds[i], cfg.clauses_per_class as int),
        xs,
        ys,
        share,
        share.len(),
    )
}

/// The machine after an epoch that `k` replicas trained.
pub open spec fn dp_epoch_of(
    cfg: MachineConfig,
    m: MachineModel,
    xs: Seq<Seq<bool>>,
    ys: Seq<usize>,
    k: nat,
) -> MachineModel {
    let n = xs.len();
    let order = epoch_order_of(m.rng, n);
    let s1 = rng_skip(m.rng, shuffle_draws(n));
    if k <= 1 {
        cfg.fit_order_of(MachineModel { rng: s1, ..m }, xs, ys, order, n)
    } else {
        let drawn = MachineModel { rng: rng_skip(s1, k), ..m };
        let seeds = seeds_of(s1, k);
        merged_of(
            drawn,
            Seq::new(k, |i: int| trained_replica(cfg, drawn, xs, ys, order, seeds, i)),
            cfg.train.threshold as int,
        )
    }
}

/// Where share `i` of `k` begins.
pub fn share_bound(n: usize, k: usize, i: usize) -> (r: usize)
    requires
        1 <= k,
    ensures
        r == share_start(n as int, k as int, i as int),
        r <= n,
{
    proof {
        let (nn, kk) = (n as int, k as int);
        vstd::arithmetic::div_mod::lemma_fundamental_div_mod(nn, kk);
        let q = nn / kk;
        assert(q <= kk * q) by (nonlinear_arith)
            requires
                kk >= 1,
                q >= 0,
        ;
    }
    let len: usize = n / k + if n % k != 0 {
        1
    } else {
        0
    };
    proof {
        let (nn, kk) = (n as int, k as int);
        vstd::arithmetic::div_mod::lemma_fundamental_div_mod(nn, kk);
        let q = nn / kk;
        let rem = nn % kk;
        if rem == 0 {
            vstd::arithmetic::div_mod::lemma_fundamental_div_mod_converse(nn + kk - 1, kk, q, kk - 1);
        } else {
            assert(kk * (q + 1) == kk * q + kk) by (nonlinear_arith);
            assert((q + 1) * kk == kk * (q + 1)) by (nonlinear_arith);
            assert(q * kk == kk * q) by (nonlinear_arith);
            vstd::arithmetic::div_mod::lemma_fundamental_div_mod_converse(
                nn + kk - 1,
                kk,
                q + 1,
                rem - 1,
            );
        }
        assert(len == share_len(nn, kk));
        assert(0 <= i * len < 0x1_0000_0000_0000_0000_0000_0000_0000_0000) by (nonlinear_arith)
            requires
                0 <= i < 0x1_0000_0000_0000_0000,
                0 <= len < 0x1_0000_0000_0000_0000,
        ;
    }
    let at: u128 = i as u128 * len as u128;
    if at <= n as u128 {
        at as usize
    } else {
        n
    }
}

/// Shares follow one another.
pub proof fn lemma_share_grows(n: int, k: int, i: int)
    requires
        n >= 0,
        k >= 1,
        i >= 0,
    ensures
        0 <= share_start(n, k, i) <= share_start(n, k, i + 1) <= n,
{
    let len = share_len(n, k);
    assert(len >= 0) by (nonlinear_arith)
        requires
            len == (n + k - 1) / k,
            n >= 0,
            k >= 1,
    ;
    assert(0 <= i * len <= (i + 1) * len) by (nonlinear_arith)
        requires
            len >= 0,
            i >= 0,
    ;
}

impl TsetlinMachine {
    /// Draws the order of an epoch of `n` samples and the seeds of `k` replicas.
    pub fn begin_data_parallel(&mut self, n: usize, k: usize) -> (r: (Vec<usize>, Vec<u64>))
        requires
            old(self).wf(),
        ensures
            final(self).wf(),
            final(self).config == old(self).config,
            final(self).hint_shown == old(self).hint_shown,
            r.0@ == epoch_order_of(old(self)@.rng, n as nat),
            r.0@.len() == n,
            forall|i: int| 0 <= i < n ==> #[trigger] r.0@[i] < n,
            r.1@ == seeds_of(rng_skip(old(self)@.rng, shuffle_draws(n as nat)), k as nat),
            final(self)@ == (MachineModel {
                rng: rng_skip(rng_skip(old(self)@.rng, shuffle_draws(n as nat)), k as nat),
                ..old(self)@
            }),
    {
        let ghost before = *self;
        let order: Vec<usize> = epoch_order(&mut self.state.rng, n);
        let ghost s1 = self.state.rng@;
        let mut seeds: Vec<u64> = Vec::with_capacity(k);
        let mut i: usize = 0;
        while i < k
            invariant
                i <= k,
                self.config == before.config,
                self.hint_shown == before.hint_shown,
                self.state.classes == before.state.classes,
                self.state.literal_rng == before.state.literal_rng,
                self.state.rng@ == rng_skip(s1, i as nat),
                seeds@ == seeds_of(s1, i as nat),
            decreases k - i,
        {
            seeds.push(self.state.rng.next_u64());
            i = i + 1;
        }
        (order, seeds)
    }

    /// Trains for one epoch with as many replicas as there are threads, at most one per
    /// sample. Which thread trains a replica makes no difference to it.
    pub fn fit_epoch_data_parallel(&mut self, batch: &EncodedBatch, ys: &[usize], threads: usize)
        requires
            old(self).wf(),
            old(self).fits(batch),
            ys@.len() == batch.n,
            forall|i: int| 0 <= i < ys@.len() ==> #[trigger] ys@[i] < old(self).config.n_classes,
            !old(self).config.train.rules.type_iii,
        ensures
            final(self).wf(),
            final(self).config == old(self).config,
            final(self).hint_shown == old(self).hint_shown,
            batch.n == 0 ==> final(self)@ == old(self)@,
            batch.n > 0 ==> final(self)@ == dp_epoch_of(
                old(self).config,
                old(self)@,
                old(self).config.batch_bits(batch),
                ys@,
                clamp(threads as int, 1, batch.n as int) as nat,
            ),
    {
        let n: usize = batch.n;
        if n == 0 {
            return ;
        }
        let ghost before = *self;
        let ghost xs = self.config.batch_bits(batch);
        let k: usize = if threads < 1 {
            1
        } else if threads > n {
            n
        } else {
            threads
        };
        if k == 1 {
            self.fit_epoch(batch, ys);
            return ;
        }
        let (order, seeds) = self.begin_data_parallel(n, k);
        let ghost drawn = self@;
        let mut reps: Vec<MachineState> = Vec::with_capacity(k);
        let mut i: usize = 0;
        while i < k
            invariant
                i <= k,
                2 <= k <= n,
                n == batch.n,
                self.wf(),
                self.config == before.config,
                self.hint_shown == before.hint_shown,
                self@ == drawn,
                before.fits(batch),
                ys@.len() == batch.n,
                forall|q: int| 0 <= q < ys@.len() ==> #[trigger] ys@[q] < before.config.n_classes,
                xs == before.config.batch_bits(batch),
                order@.len() == n,
                forall|q: int| 0 <= q < n ==> #[trigger] order@[q] < n,
                seeds@.len() == k,
                reps@.len() == i,
                forall|q: int| 0 <= q < i ==> (#[trigger] reps@[q]).wf(&before.config),
                forall|q: int|
                    0 <= q < i ==> (#[trigger] reps@[q])@ == trained_replica(
                        before.config,
                        drawn,
                        xs,
                        ys@,
                        order@,
                        seeds@,
                        q,
                    ),
            decreases k - i,
        {
            let lo: usize = share_bound(n, k, i);
            let hi: usize = share_bound(n, k, i + 1);
            proof {
                lemma_share_grows(n as int, k as int, i as int);
            }
            let share: &[usize] = slice_subrange(order.as_slice(), lo, hi);
            let mut rep: MachineState = self.state.replica(&self.config, seeds[i]);
            rep.fit_order(&self.config, batch, ys, share);
            reps.push(rep);
            i = i + 1;
        }
        self.state.merge(&self.config, &reps);
        proof {
            let want = Seq::new(
                k as nat,
                |q: int| trained_replica(before.config, drawn, xs, ys@, order@, seeds@, q),
            );
            assert(state_models(reps@) =~= want);
        }
    }

    /// Whether an epoch of `n` samples is trained by replicas: that was asked for, there
    /// are threads to run them, and the work is large enough.
    pub open spec fn is_data_parallel(&self, n: int, threads: int) -> bool {
        &&& self.config.data_parallel
        &&& threads > 1
        &&& n >= PARALLEL_MIN
        &&& (self.config.n_classes * self.config.clauses_per_class >= PARALLEL_MIN
            || self.config.n_classes * self.config.clauses_per_class * self.config.train.geom.words
            >= PARALLEL_WORK_MIN)
    }

    /// The machine after an epoch for which `threads` threads are available.
    pub open spec fn threads_epoch_of(&self, xs: Seq<Seq<bool>>, ys: Seq<usize>, threads: int) -> MachineModel {
        if self.is_data_parallel(xs.len() as int, threads) {
            dp_epoch_of(
                self.config,
                self@,
                xs,
                ys,
                clamp(threads, 1, xs.len() as int) as nat,
            )
        } else {
            self.config.fit_epoch_of(self@, xs, ys)
        }
    }

    /// Whether an epoch of `n` samples is trained by replicas.
    pub fn takes_data_parallel(&self, n: usize, threads: usize) -> (r: bool)
        requires
            self.wf(),
        ensures
            r == self.is_data_parallel(n as int, threads as int),
    {
        proof {
            lemma_clause_counts(
                self.config.n_classes as int,
                self.config.clauses_per_class as int,
                self.config.train.geom.n_literals as int,
            );
        }
        self.config.data_parallel && threads > 1 && n >= PARALLEL_MIN && use_parallel(
            self.config.n_classes * self.config.clauses_per_class,
            self.config.train.geom.words,
        )
    }

    /// Trains for one epoch when `threads` threads are available: exactly, unless
    /// approximate training was asked for and pays off.
    pub fn fit_epoch_threads(&mut self, batch: &EncodedBatch, ys: &[usize], threads: usize)
        requires
            old(self).wf(),
            old(self).fits(batch),
            ys@.len() == batch.n,
            forall|i: int| 0 <= i < ys@.len() ==> #[trigger] ys@[i] < old(self).config.n_classes,
            old(self).is_data_parallel(batch.n as int, threads as int)
                ==> !old(self).config.train.rules.type_iii,
        ensures
            final(self).wf(),
            final(self).config == old(self).config,
            final(self).hint_shown == old(self).hint_shown,
            final(self)@ == old(self).threads_epoch_of(
                old(self).config.batch_bits(batch),
                ys@,
                threads as int,
            ),
    {
        if self.takes_data_parallel(batch.n, threads) {
            self.fit_epoch_data_parallel(batch, ys, threads);
        } else {
            self.fit_epoch(batch, ys);
        }
    }

    /// Decides whether to hint that an epoch of `n` samples would be trained faster by
    /// replicas, and notes that the hint was given. It is given once, for large work only.
    pub fn maybe_hint_data_parallel(&mut self, n: usize, threads: usize) -> (r: bool)
        requires
            old(self).wf(),
        ensures
            r == (!old(self).hint_shown && !old(self).config.data_parallel && threads > 1 && n >= 512
                && old(self).config.n_classes * old(self).config.clauses_per_class
                * old(self).config.train.geom.words >= 8192),
            final(self).wf(),
            final(self).config == old(self).config,
            final(self)@ == old(self)@,
            final(self).hint_shown == (old(self).hint_shown || r),
    {
        if self.hint_shown || self.config.data_parallel || threads <= 1 {
            return false;
        }
        proof {
            lemma_clause_counts(
                self.config.n_classes as int,
                self.config.clauses_per_class as int,
                self.config.train.geom.n_literals as int,
            );
        }
        let n_clauses: usize = self.config.n_classes * self.config.clauses_per_class;
        let large: bool = match n_clauses.checked_mul(self.config.train.geom.words) {
            Some(work) => work >= 8192,
            None => true,
        };
        if n >= 512 && large {
            self.hint_shown = true;
            true
        } else {
            false
        }
    }
}

/// The mean of equal numbers is that number.
proof fn lemma_mean_of_equal(v: int, k: int)
    requires
        k >= 1,
    ensures
        rounded_mean(k * v, k) == v,
{
    assert((k * v + k / 2) / k == v) by (nonlinear_arith)
        requires
            k >= 1,
    ;
}

proof fn lemma_equal_sums(reps: Seq<MachineModel>, m: MachineModel, c: int, j: int, l: int, n: nat)
    requires
        n <= reps.len(),
        forall|i: int|
            0 <= i < reps.len() ==> (#[trigger] reps[i]).classes[c].clauses[j].auto.ta[l]
                == m.classes[c].clauses[j].auto.ta[l],
    ensures
        counter_sum(reps, c, j, l, n) == n * m.classes[c].clauses[j].auto.ta[l],
    decreases n,
{
    let v = m.classes[c].clauses[j].auto.ta[l] as int;
    if n > 0 {
        lemma_equal_sums(reps, m, c, j, l, (n - 1) as nat);
        assert(reps[n - 1].classes[c].clauses[j].auto.ta[l] == v);
        assert(n * v == (n - 1) * v + v) by (nonlinear_arith);
    } else {
        assert(0 * v == 0) by (nonlinear_arith);
    }
}

proof fn lemma_equal_weights(reps: Seq<MachineModel>, m: MachineModel, c: int, j: int, n: nat)
    requires
        n <= reps.len(),
        forall|i: int|
            0 <= i < reps.len() ==> (#[trigger] reps[i]).classes[c].clauses[j].weight
                == m.classes[c].clauses[j].weight,
    ensures
        weight_sum(reps, c, j, n) == n * m.classes[c].clauses[j].weight,
    decreases n,
{
    let v = m.classes[c].clauses[j].weight as int;
    if n > 0 {
        lemma_equal_weights(reps, m, c, j, (n - 1) as nat);
        assert(reps[n - 1].classes[c].clauses[j].weight == v);
        assert(n * v == (n - 1) * v + v) by (nonlinear_arith);
    } else {
        assert(0 * v == 0) by (nonlinear_arith);
    }
}

/// Merging replicas that learned nothing new changes nothing.
pub proof fn lemma_merge_of_equal(m: MachineModel, reps: Seq<MachineModel>, wmax: int)
    requires
        reps.len() >= 1,
        forall|c: int, j: int|
            0 <= c < m.classes.len() && 0 <= j < m.classes[c].clauses.len() ==> 1
                <= (#[trigger] m.classes[c].clauses[j]).weight <= wmax,
        forall|i: int, c: int, j: int|
            0 <= i < reps.len() && 0 <= c < m.classes.len() && 0 <= j < m.classes[c].clauses.len() ==> {
                let a = #[trigger] reps[i].classes[c].clauses[j];
                let b = m.classes[c].clauses[j];
                a.auto.ta == b.auto.ta && a.weight == b.weight
            },
    ensures
        merged_of(m, reps, wmax) == m,
{
    let w = merged_of(m, reps, wmax);
    let k = reps.len() as int;
    assert forall|c: int| 0 <= c < m.classes.len() implies w.classes[c] == m.classes[c] by {
        assert forall|j: int| 0 <= j < m.classes[c].clauses.len() implies w.classes[c].clauses[j]
            == m.classes[c].clauses[j] by {
            let b = m.classes[c].clauses[j];
            assert forall|i: int| 0 <= i < reps.len() implies (#[trigger] reps[i]).classes[c].clauses[j].weight
                == b.weight && reps[i].classes[c].clauses[j].auto.ta == b.auto.ta by {
                let a = reps[i].classes[c].clauses[j];
            }
            lemma_equal_weights(reps, m, c, j, reps.len());
            lemma_mean_of_equal(b.weight as int, k);
            assert(1 <= m.classes[c].clauses[j].weight <= wmax);
            assert forall|l: int| 0 <= l < b.auto.ta.len() implies w.classes[c].clauses[j].auto.ta[l]
                == b.auto.ta[l] by {
                lemma_equal_sums(reps, m, c, j, l, reps.len());
                lemma_mean_of_equal(b.auto.ta[l] as int, k);
            }
            assert(w.classes[c].clauses[j].auto.ta =~= b.auto.ta);
            assert(w.classes[c].clauses[j] =~= b);
        }
        assert(w.classes[c].clauses =~= m.classes[c].clauses);
    }
    assert(w.classes =~= m.classes);
}

/// One replica trains as the machine itself would.
pub proof fn lemma_one_replica_is_exact(cfg: MachineConfig, m: MachineModel, xs: Seq<Seq<bool>>, ys: Seq<usize>)
    ensures
        dp_epoch_of(cfg, m, xs, ys, 1) == cfg.fit_epoch_of(m, xs, ys),
{
}

} // verus!
