//! Replicas of a machine on a device: each trains its share of an epoch, and the machine becomes
//! their mean.
use crate::clause_bank::feedback::ClassModel;
use crate::dyadic::is_positive;
use crate::gpu::buffers::{
    class_streams, halves_of, lemma_same_image, lies_in_memory, literal_bytes, longs_as_ints,
    machine_counters, machine_streams, machine_weights, same_image, same_marks, shaped,
    signed_as_ints, widened, words_as_ints, DeviceBytes,
};
use crate::gpu::dispatch::{blocks, blocks_from, is_slot, sample_params, slot, step_params, CHUNK, PARAM_STRIDE};
use crate::gpu::plan::{shard_negs, shard_order, step_negs, step_rng, DpPlan};
use crate::gpu::session::{lemma_replay_frames, same_frame, same_frames};
use crate::models::classification::data_parallel::{
    counter_sum, dp_epoch_of, lemma_share_grows, merged_of, replica_of, seeds_of, share_bound,
    share_len, share_of, share_start, trained_replica, weight_sum,
};
use crate::models::classification::vanilla_classifier::{
    MachineConfig, MachineModel, MachineState, TsetlinMachine,
};
use crate::models::config::{literal_seed, TrainConfig};
use crate::rng::{rng_next, rng_skip, rng_word};
use crate::sampling::{epoch_order_of, lemma_epoch_order_permutes, rejections, shuffle_draws};
use vstd::prelude::*;
use vstd::slice::slice_subrange;

verus! {

/// What a device needs to train one replica.
pub struct ReplicaWork {
    /// The contents of the buffers that hold the replica.
    pub image: DeviceBytes,
    /// The packed active literals of its steps, where literals are left out.
    pub masks: Option<Vec<u8>>,
    /// The parameters of its steps.
    pub params: Vec<u8>,
    /// The steps of every submission, as the first and their number.
    pub blocks: Vec<(usize, usize)>,
}

/// What was read back of a replica.
pub struct Reading {
    pub ta: Vec<u32>,
    pub weights: Vec<u32>,
    pub rngs: Vec<u32>,
    pub class_rngs: Vec<u32>,
}

impl Reading {
    /// The reading has the size of a machine.
    pub open spec fn sized(&self, cfg: &MachineConfig) -> bool {
        &&& self.ta@.len() == cfg.n_classes * cfg.clauses_per_class * cfg.train.geom.n_literals
        &&& self.weights@.len() == cfg.n_classes * cfg.clauses_per_class
        &&& self.rngs@.len() == 2 * (cfg.n_classes * cfg.clauses_per_class)
        &&& self.class_rngs@.len() == 2 * cfg.n_classes
    }

    /// The reading holds what a device holds of a replica.
    pub open spec fn holds(&self, m: MachineModel) -> bool {
        let ms = m.classes;
        &&& widened(machine_counters(ms, ms.len())) == self.ta@
        &&& signed_as_ints(machine_weights(ms, ms.len())) == words_as_ints(self.weights@)
        &&& halves_of(machine_streams(ms, ms.len()), self.weights@.len()) == self.rngs@
        &&& halves_of(class_streams(ms), ms.len()) == self.class_rngs@
    }
}

/// What is handed to the device for replica `i` of a machine, whose samples are cut into shares in
/// the given order.
pub open spec fn hands_replica(
    cfg: MachineConfig,
    m: MachineModel,
    ys: Seq<usize>,
    order: Seq<usize>,
    seeds: Seq<u64>,
    i: int,
    w: ReplicaWork,
) -> bool {
    let share = share_of(order, seeds.len() as int, i);
    let negs = step_negs(rng_next(seeds[i]), cfg.n_classes as int, ys, share);
    let leaves_out = is_positive(cfg.train.literal_drop);
    &&& exists|tm: TsetlinMachine|
        tm.wf() && tm.config == cfg && tm@ == replica_of(m, seeds[i], cfg.clauses_per_class as int)
            && #[trigger] w.image.mirror(&tm, leaves_out)
    &&& match w.masks {
        Some(b) => leaves_out && lies_in_memory(
            b@,
            longs_as_ints(cfg.train.step_masks(literal_seed(seeds[i]), share.len())),
            8,
        ),
        None => !leaves_out,
    }
    &&& w.params@.len() == share.len() * PARAM_STRIDE
    &&& forall|k: int|
        0 <= k < share.len() ==> is_slot(#[trigger] slot(w.params@, k), step_params(share, ys, negs, k))
    &&& w.blocks@ == blocks_from(share.len() as int, CHUNK as int, 0)
}

/// A share has at most as many samples as the first.
pub proof fn lemma_share_short(n: int, k: int, i: int)
    requires
        n >= 0,
        k >= 1,
        i >= 0,
    ensures
        0 <= share_start(n, k, i) <= share_start(n, k, i + 1) <= n,
        share_start(n, k, i + 1) - share_start(n, k, i) <= share_len(n, k),
{
    lemma_share_grows(n, k, i);
    let len = share_len(n, k);
    assert((i + 1) * len == i * len + len) by (nonlinear_arith);
}

/// The negative classes of a shard lie at its place among those of all shards.
proof fn lemma_negs_part(seeds: Seq<u64>, n_classes: int, ys: Seq<usize>, order: Seq<usize>, r: nat, i: int)
    requires
        0 <= i < r <= seeds.len(),
    ensures
        ({
            let shards = seeds.len() as int;
            let len = share_len(order.len() as int, shards);
            let all = shard_negs(seeds, n_classes, ys, order, r);
            let part = step_negs(rng_next(seeds[i]), n_classes, ys, shard_order(order, shards, i));
            &&& all.len() == r * len
            &&& part.len() <= len
            &&& 0 <= i * len
            &&& i * len + part.len() <= all.len()
            &&& all.subrange(i * len, i * len + part.len()) == part
        }),
    decreases r,
{
    let shards = seeds.len() as int;
    let n = order.len() as int;
    let len = share_len(n, shards);
    lemma_share_short(n, shards, i);
    lemma_share_short(n, shards, r - 1);
    let all = shard_negs(seeds, n_classes, ys, order, r);
    let before = shard_negs(seeds, n_classes, ys, order, (r - 1) as nat);
    let part = step_negs(rng_next(seeds[i]), n_classes, ys, shard_order(order, shards, i));
    assert(part.len() <= len);
    assert(r * len == (r - 1) * len + len) by (nonlinear_arith);
    if r == 1 {
        assert(0 * len == 0) by (nonlinear_arith);
        assert(before.len() == 0);
    } else {
        lemma_negs_part(seeds, n_classes, ys, order, (r - 1) as nat, if i < r - 1 {
            i
        } else {
            0
        });
    }
    assert(before.len() == (r - 1) * len);
    assert(0 <= i * len) by (nonlinear_arith)
        requires
            i >= 0,
            len >= 0,
    ;
    if i == r - 1 {
        assert(all.subrange(i * len, i * len + part.len()) =~= part);
    } else {
        assert(all.subrange(i * len, i * len + part.len()) =~= before.subrange(
            i * len,
            i * len + part.len(),
        ));
    }
}

impl TrainConfig {
    /// The active literals of a shard lie at its place among those of all shards.
    proof fn lemma_masks_part(&self, seeds: Seq<u64>, order: Seq<usize>, r: nat, i: int)
        requires
            0 <= i < r <= seeds.len(),
            is_positive(self.literal_drop),
        ensures
            ({
                let shards = seeds.len() as int;
                let full = share_len(order.len() as int, shards) * self.geom.words;
                let all = self.shard_masks(seeds, order, r);
                let steps = shard_order(order, shards, i).len();
                let part = self.step_masks(literal_seed(seeds[i]), steps);
                &&& part.len() == steps * self.geom.words
                &&& part.len() <= full
                &&& all.len() == r * full
                &&& 0 <= i * full
                &&& i * full + part.len() <= all.len()
                &&& all.subrange(i * full, i * full + part.len()) == part
            }),
        decreases r,
    {
        let shards = seeds.len() as int;
        let n = order.len() as int;
        let w = self.geom.words as int;
        let len = share_len(n, shards);
        let full = len * w;
        lemma_share_short(n, shards, i);
        lemma_share_short(n, shards, r - 1);
        let all = self.shard_masks(seeds, order, r);
        let before = self.shard_masks(seeds, order, (r - 1) as nat);
        let steps = shard_order(order, shards, i).len();
        let part = self.step_masks(literal_seed(seeds[i]), steps);
        let last = shard_order(order, shards, r - 1).len();
        self.lemma_masks_len(literal_seed(seeds[i]), steps);
        self.lemma_masks_len(literal_seed(seeds[r - 1]), last);
        assert(steps * w <= len * w && last * w <= len * w && 0 <= len * w) by (nonlinear_arith)
            requires
                0 <= steps <= len,
                0 <= last <= len,
                w >= 0,
        ;
        assert(r * full == (r - 1) * full + full) by (nonlinear_arith);
        if r == 1 {
            assert(0 * full == 0) by (nonlinear_arith);
            assert(before.len() == 0);
        } else {
            self.lemma_masks_part(seeds, order, (r - 1) as nat, if i < r - 1 {
                i
            } else {
                0
            });
        }
        assert(before.len() == (r - 1) * full);
        assert(0 <= i * full) by (nonlinear_arith)
            requires
                i >= 0,
                full >= 0,
        ;
        if i == r - 1 {
            assert(all.subrange(i * full, i * full + part.len()) =~= part);
        } else {
            assert(all.subrange(i * full, i * full + part.len()) =~= before.subrange(
                i * full,
                i * full + part.len(),
            ));
        }
    }
}

impl TsetlinMachine {
    /// What a device needs to train replica `i`, by the decisions that were drawn.
    pub fn replica_work(&mut self, plan: &DpPlan, ys: &[usize], i: usize) -> (w: ReplicaWork)
        requires
            old(self).wf(),
            2 * old(self).config.train.threshold + 1 <= i32::MAX,
            i < plan.seeds@.len(),
            plan.shard_len == share_len(plan.order@.len() as int, plan.seeds@.len() as int),
            plan.negs@ == shard_negs(
                plan.seeds@,
                old(self).config.n_classes as int,
                ys@,
                plan.order@,
                plan.seeds@.len(),
            ),
            plan.lit_active@ == old(self).config.train.shard_masks(
                plan.seeds@,
                plan.order@,
                plan.seeds@.len(),
            ),
            forall|k: int| 0 <= k < plan.order@.len() ==> #[trigger] plan.order@[k] < ys@.len(),
            plan.order@.len() * PARAM_STRIDE <= usize::MAX,
        ensures
            *final(self) == *old(self),
            hands_replica(old(self).config, old(self)@, ys@, plan.order@, plan.seeds@, i as int, w),
    {
        let ghost before = *self;
        let n: usize = plan.order.len();
        let k: usize = plan.seeds.len();
        let leaves_out: bool = self.config.train.literal_drop.positive();
        let words: usize = self.config.train.geom.words;
        proof {
            lemma_share_short(n as int, k as int, i as int);
            lemma_negs_part(plan.seeds@, self.config.n_classes as int, ys@, plan.order@, k as nat, i as int);
            assert(plan.negs@.len() == plan.negs.len());
            assert(i * plan.shard_len == i * share_len(n as int, k as int));
        }
        let lo: usize = share_bound(n, k, i);
        let hi: usize = share_bound(n, k, i + 1);
        let share: &[usize] = slice_subrange(plan.order.as_slice(), lo, hi);
        let at: usize = i * plan.shard_len;
        let negs: &[usize] = slice_subrange(plan.negs.as_slice(), at, at + (hi - lo));
        let masks: Option<Vec<u8>> = if leaves_out {
            proof {
                self.config.train.lemma_masks_part(plan.seeds@, plan.order@, k as nat, i as int);
                let full = share_len(n as int, k as int) * words;
                assert(i * full == at * words) by (nonlinear_arith)
                    requires
                        full == plan.shard_len * words,
                        at == i * plan.shard_len,
                ;
                assert(plan.lit_active@.len() == plan.lit_active.len());
                assert((at + (hi - lo)) * words == at * words + (hi - lo) * words) by (nonlinear_arith);
            }
            let part: &[u64] = slice_subrange(
                plan.lit_active.as_slice(),
                at * words,
                (at + (hi - lo)) * words,
            );
            Some(literal_bytes(part))
        } else {
            None
        };
        proof {
            assert(share@ == share_of(plan.order@, k as int, i as int));
            assert forall|j: int| 0 <= j < share@.len() implies #[trigger] share@[j] < ys@.len() by {
                assert(share@[j] == plan.order@[lo + j]);
            }
            assert(share@.len() * PARAM_STRIDE <= n * PARAM_STRIDE) by (nonlinear_arith)
                requires
                    share@.len() <= n,
            ;
        }
        let params: Vec<u8> = sample_params(share, ys, negs);
        let mut other: MachineState = self.state.replica(&self.config, plan.seeds[i]);
        let ghost rep = other;
        std::mem::swap(&mut self.state, &mut other);
        let ghost tm = *self;
        let image: DeviceBytes = self.device_bytes(leaves_out);
        std::mem::swap(&mut self.state, &mut other);
        let w: ReplicaWork = ReplicaWork { image, masks, params, blocks: blocks(share.len(), CHUNK) };
        proof {
            assert(tm.config == before.config);
            assert(tm@ == rep@);
            assert(w.image.mirror(&tm, leaves_out));
        }
        w
    }
}

/// The machine after the order of an epoch and the seeds of `k` replicas were drawn.
pub open spec fn split_of(m: MachineModel, n: nat, k: nat) -> MachineModel {
    MachineModel { rng: rng_skip(rng_skip(m.rng, shuffle_draws(n)), k), ..m }
}

/// The clauses of replica `i` of `k` after a device has replayed its share of an epoch.
pub open spec fn replayed_share(
    cfg: &MachineConfig,
    m: MachineModel,
    xs: Seq<Seq<bool>>,
    ys: Seq<usize>,
    k: nat,
    i: int,
) -> Seq<ClassModel> {
    let n = ys.len();
    let order = epoch_order_of(m.rng, n);
    let seed = seeds_of(rng_skip(m.rng, shuffle_draws(n)), k)[i];
    let share = share_of(order, k as int, i);
    cfg.replayed(
        replica_of(split_of(m, n, k), seed, cfg.clauses_per_class as int).classes,
        xs,
        ys,
        share,
        step_negs(rng_next(seed), cfg.n_classes as int, ys, share),
        Seq::new(
            share.len(),
            |j: int| cfg.train.active_of(cfg.train.step_lit(literal_seed(seed), j as nat)),
        ),
        share.len(),
    )
}

/// A replica on a device is a replica on the host: where the device ends up with what the decisions
/// that it was handed make of it, it is the replica that a thread would have trained.
pub proof fn lemma_share_replays(
    cfg: &MachineConfig,
    m: MachineModel,
    xs: Seq<Seq<bool>>,
    ys: Seq<usize>,
    k: nat,
    i: int,
)
    requires
        cfg.n_classes >= 2,
        0 <= i < k,
    ensures
        replayed_share(cfg, m, xs, ys, k, i) == trained_replica(
            *cfg,
            split_of(m, ys.len(), k),
            xs,
            ys,
            epoch_order_of(m.rng, ys.len()),
            seeds_of(rng_skip(m.rng, shuffle_draws(ys.len())), k),
            i,
        ).classes,
{
    let n = ys.len();
    let order = epoch_order_of(m.rng, n);
    let seeds = seeds_of(rng_skip(m.rng, shuffle_draws(n)), k);
    let share = share_of(order, k as int, i);
    let start = replica_of(split_of(m, n, k), seeds[i], cfg.clauses_per_class as int);
    cfg.lemma_replay(start, xs, ys, share, share.len());
}

proof fn lemma_sums_by_classes(a: Seq<MachineModel>, b: Seq<MachineModel>, c: int, j: int, l: int, n: nat)
    requires
        n <= a.len(),
        a.len() == b.len(),
        forall|i: int| 0 <= i < a.len() ==> (#[trigger] a[i]).classes == b[i].classes,
    ensures
        counter_sum(a, c, j, l, n) == counter_sum(b, c, j, l, n),
        weight_sum(a, c, j, n) == weight_sum(b, c, j, n),
    decreases n,
{
    if n > 0 {
        lemma_sums_by_classes(a, b, c, j, l, (n - 1) as nat);
        assert(a[n - 1].classes == b[n - 1].classes);
    }
}

/// Merging looks at the clauses of replicas only.
proof fn lemma_merge_by_classes(m: MachineModel, a: Seq<MachineModel>, b: Seq<MachineModel>, wmax: int)
    requires
        a.len() == b.len(),
        forall|i: int| 0 <= i < a.len() ==> (#[trigger] a[i]).classes == b[i].classes,
    ensures
        merged_of(m, a, wmax) == merged_of(m, b, wmax),
{
    let (u, v) = (merged_of(m, a, wmax), merged_of(m, b, wmax));
    assert forall|c: int| 0 <= c < m.classes.len() implies u.classes[c] == v.classes[c] by {
        assert forall|j: int| 0 <= j < m.classes[c].clauses.len() implies u.classes[c].clauses[j]
            == v.classes[c].clauses[j] by {
            let (x, y) = (u.classes[c].clauses[j], v.classes[c].clauses[j]);
            assert forall|l: int| 0 <= l < x.auto.ta.len() implies x.auto.ta[l] == y.auto.ta[l] by {
                lemma_sums_by_classes(a, b, c, j, l, a.len());
            }
            lemma_sums_by_classes(a, b, c, j, 0, a.len());
            assert(x.auto.ta =~= y.auto.ta);
        }
        assert(u.classes[c].clauses =~= v.classes[c].clauses);
    }
    assert(u.classes =~= v.classes);
}

proof fn lemma_share_frames(cfg: &MachineConfig, m: MachineModel, xs: Seq<Seq<bool>>, ys: Seq<usize>, k: nat, i: int)
    requires
        cfg.n_classes >= 2,
        !cfg.train.rules.type_iii,
        ys.len() <= usize::MAX,
        m.classes.len() == cfg.n_classes,
        forall|i: int| 0 <= i < ys.len() ==> #[trigger] ys[i] < cfg.n_classes,
        0 <= i < k,
    ensures
        same_frames(replayed_share(cfg, m, xs, ys, k, i), m.classes),
{
    let n = ys.len();
    let order = epoch_order_of(m.rng, n);
    let seed = seeds_of(rng_skip(m.rng, shuffle_draws(n)), k)[i];
    let share = share_of(order, k as int, i);
    let count = cfg.n_classes as int;
    let negs = step_negs(rng_next(seed), count, ys, share);
    let start = replica_of(split_of(m, n, k), seed, cfg.clauses_per_class as int);
    let acts = Seq::new(
        share.len(),
        |j: int| cfg.train.active_of(cfg.train.step_lit(literal_seed(seed), j as nat)),
    );
    lemma_epoch_order_permutes(m.rng, n);
    lemma_share_short(n as int, k as int, i);
    assert forall|j: int| 0 <= j < share.len() implies #[trigger] share[j] < ys.len() by {
        assert(share[j] == order[share_start(n as int, k as int, i) + j]);
    }
    assert forall|j: int| 0 <= j < share.len() implies #[trigger] negs[j] < m.classes.len() by {
        let t = step_rng(rng_next(seed), count, ys, share, j as nat);
        let y = ys[share[j] as int] as int;
        vstd::arithmetic::div_mod::lemma_mod_bound(rng_word(rng_skip(t, rejections(t, count, y))) as int, count);
    }
    lemma_replay_frames(cfg, start.classes, xs, ys, share, negs, acts, share.len());
    let want = replayed_share(cfg, m, xs, ys, k, i);
    assert forall|c: int| 0 <= c < want.len() implies same_frame(#[trigger] want[c], m.classes[c]) by {
        assert(same_frame(want[c], start.classes[c]));
        assert(start.classes[c].clauses.len() == m.classes[c].clauses.len());
        assert forall|j: int| 0 <= j < want[c].clauses.len() implies ({
            let x = (#[trigger] want[c].clauses[j]).auto;
            let y = m.classes[c].clauses[j].auto;
            x.ta.len() == y.ta.len() && x.ind == y.ind && x.cat == y.cat
        }) by {
            assert(start.classes[c].clauses[j].auto == m.classes[c].clauses[j].auto);
        }
    }
}

/// An epoch that `k` replicas train on a device is one that `k` threads train on the host: where
/// the device ends up with what the decisions that it was handed make of every replica, merging
/// what is read back gives the machine that the threads would have given.
pub proof fn lemma_replicas_train_alike(
    cfg: &MachineConfig,
    m: MachineModel,
    reps: Seq<MachineModel>,
    xs: Seq<Seq<bool>>,
    ys: Seq<usize>,
    per: nat,
    n: nat,
)
    requires
        cfg.n_classes >= 2,
        !cfg.train.rules.type_iii,
        xs.len() == ys.len(),
        ys.len() <= usize::MAX,
        reps.len() >= 2,
        forall|i: int| 0 <= i < ys.len() ==> #[trigger] ys[i] < cfg.n_classes,
        shaped(m.classes, cfg.n_classes as nat, per, n),
        forall|i: int|
            0 <= i < reps.len() ==> {
                &&& shaped((#[trigger] reps[i]).classes, cfg.n_classes as nat, per, n)
                &&& same_marks(reps[i].classes, m.classes, cfg.n_classes as nat, per)
                &&& same_image(reps[i].classes, replayed_share(cfg, m, xs, ys, reps.len(), i))
            },
    ensures
        merged_of(split_of(m, ys.len(), reps.len()), reps, cfg.train.threshold as int) == dp_epoch_of(
            *cfg,
            m,
            xs,
            ys,
            reps.len(),
        ),
{
    let k = reps.len();
    let order = epoch_order_of(m.rng, ys.len());
    let seeds = seeds_of(rng_skip(m.rng, shuffle_draws(ys.len())), k);
    let split = split_of(m, ys.len(), k);
    let trained = Seq::new(k, |i: int| trained_replica(*cfg, split, xs, ys, order, seeds, i));
    assert forall|i: int| 0 <= i < k implies (#[trigger] reps[i]).classes == trained[i].classes by {
        let want = replayed_share(cfg, m, xs, ys, k, i);
        let count = cfg.n_classes as nat;
        let got = reps[i].classes;
        lemma_share_frames(cfg, m, xs, ys, k, i);
        lemma_share_replays(cfg, m, xs, ys, k, i);
        assert forall|c: int| 0 <= c < count implies (#[trigger] want[c]).clauses.len() == per by {
            assert(same_frame(want[c], m.classes[c]) && m.classes[c].clauses.len() == per);
        }
        assert forall|c: int, j: int| 0 <= c < count && 0 <= j < per implies (
        #[trigger] want[c].clauses[j]).auto.ta.len() == n by {
            assert(same_frame(want[c], m.classes[c]) && m.classes[c].clauses[j].auto.ta.len() == n);
            assert(want[c].clauses.len() == per);
        }
        assert forall|c: int, j: int| 0 <= c < count && 0 <= j < per implies ({
            let x = (#[trigger] got[c].clauses[j]).auto;
            let y = want[c].clauses[j].auto;
            x.ind == y.ind && x.cat == y.cat
        }) by {
            assert(want[c].clauses.len() == per);
            assert(same_frame(want[c], m.classes[c]));
            let z = want[c].clauses[j].auto;
            assert(z.ind == m.classes[c].clauses[j].auto.ind && z.cat == m.classes[c].clauses[j].auto.cat);
        }
        lemma_same_image(got, want, count, per, n);
    }
    lemma_merge_by_classes(split, reps, trained, cfg.train.threshold as int);
}

} // verus!
