//! The random decisions of an epoch, drawn ahead so that a device can replay them.
use crate::bits::bits_of;
use crate::clause_bank::feedback::ClassModel;
use crate::dyadic::is_positive;
use crate::models::classification::data_parallel::{seeds_of, share_len, share_start};
use crate::models::classification::dp_seed::{literal_rng, replica_rng};
use crate::models::classification::vanilla_classifier::{
    MachineConfig, MachineModel, TsetlinMachine,
};
use crate::models::config::{literal_seed, TrainConfig};
use crate::rng::{rng_next, rng_skip, rng_word, Rng};
use crate::sampling::{
    after_other, bernoulli_mask, epoch_order, epoch_order_of, mask_words, other_index, rejections,
    sample_other, shuffle_draws,
};
use vstd::prelude::*;
use vstd::slice::slice_subrange;

verus! {

/// The decisions of one epoch.
#[derive(Clone, Debug)]
pub struct GpuEpochPlan {
    /// The sample of every step.
    pub order: Vec<usize>,
    /// The negative class of every step.
    pub negs: Vec<usize>,
    /// The packed active literals of every step, one after the other; none where literals are
    /// never left out.
    pub lit_active: Vec<u64>,
}

/// The decisions of one epoch that replicas train in parts.
#[derive(Clone, Debug)]
pub struct DpPlan {
    /// The samples in the order in which they are cut into shards.
    pub order: Vec<usize>,
    /// The seed of every replica.
    pub seeds: Vec<u64>,
    /// The number of steps of a shard; the last shards may have fewer.
    pub shard_len: usize,
    /// The negative class of every step of every shard, 0 where a shard has no such step.
    pub negs: Vec<usize>,
    /// The packed active literals of every step of every shard.
    pub lit_active: Vec<u64>,
}

/// The sample stream after `k` steps.
pub open spec fn step_rng(s: u64, n_classes: int, ys: Seq<usize>, order: Seq<usize>, k: nat) -> u64
    decreases k,
{
    if k == 0 {
        s
    } else {
        after_other(
            step_rng(s, n_classes, ys, order, (k - 1) as nat),
            n_classes,
            ys[order[k - 1] as int] as int,
        )
    }
}

/// The negative class of step `k`.
pub open spec fn step_neg(s: u64, n_classes: int, ys: Seq<usize>, order: Seq<usize>, k: int) -> usize {
    other_index(
        step_rng(s, n_classes, ys, order, k as nat),
        n_classes,
        ys[order[k] as int] as int,
    ) as usize
}

/// The negative classes of all steps.
pub open spec fn step_negs(s: u64, n_classes: int, ys: Seq<usize>, order: Seq<usize>) -> Seq<usize> {
    Seq::new(order.len(), |k: int| step_neg(s, n_classes, ys, order, k))
}

impl TrainConfig {
    /// The literal stream after `k` steps.
    pub open spec fn step_lit(&self, l: u64, k: nat) -> u64
        decreases k,
    {
        if k == 0 {
            l
        } else {
            self.after_active(self.step_lit(l, (k - 1) as nat))
        }
    }

    /// The packed active literals of the first `k` steps.
    pub open spec fn step_masks(&self, l: u64, k: nat) -> Seq<u64>
        decreases k,
    {
        if k == 0 || !is_positive(self.literal_drop) {
            seq![]
        } else {
            self.step_masks(l, (k - 1) as nat) + mask_words(
                self.step_lit(l, (k - 1) as nat),
                self.dig_lit_active@,
                self.geom.words as nat,
            )
        }
    }
}

impl MachineConfig {
    /// The classes of a machine after the first `k` steps of an epoch are replayed with the given
    /// negative classes and active literals.
    pub open spec fn replayed(
        &self,
        classes: Seq<ClassModel>,
        xs: Seq<Seq<bool>>,
        ys: Seq<usize>,
        order: Seq<usize>,
        negs: Seq<usize>,
        acts: Seq<Seq<bool>>,
        k: nat,
    ) -> Seq<ClassModel>
        decreases k,
    {
        if k == 0 {
            classes
        } else {
            let m = self.replayed(classes, xs, ys, order, negs, acts, (k - 1) as nat);
            let i = order[k - 1] as int;
            let y = ys[i] as int;
            let neg = negs[k - 1] as int;
            let act = acts[k - 1];
            m.update(y, self.updated(m[y], y, true, xs[i], act)).update(
                neg,
                self.updated(m[neg], neg, false, xs[i], act),
            )
        }
    }

    /// Training on samples in order is replaying the decisions that were drawn ahead: the machine
    /// and both of its streams end up the same.
    pub proof fn lemma_replay(
        &self,
        m: MachineModel,
        xs: Seq<Seq<bool>>,
        ys: Seq<usize>,
        order: Seq<usize>,
        k: nat,
    )
        requires
            self.n_classes >= 2,
            k <= order.len(),
        ensures
            self.fit_order_of(m, xs, ys, order, k) == (MachineModel {
                classes: self.replayed(
                    m.classes,
                    xs,
                    ys,
                    order,
                    step_negs(m.rng, self.n_classes as int, ys, order),
                    Seq::new(
                        order.len(),
                        |j: int| self.train.active_of(self.train.step_lit(m.literal_rng, j as nat)),
                    ),
                    k,
                ),
                rng: step_rng(m.rng, self.n_classes as int, ys, order, k),
                literal_rng: self.train.step_lit(m.literal_rng, k),
            }),
        decreases k,
    {
        if k > 0 {
            self.lemma_replay(m, xs, ys, order, (k - 1) as nat);
            let n = self.n_classes as int;
            let s = step_rng(m.rng, n, ys, order, (k - 1) as nat);
            let y = ys[order[k - 1] as int] as int;
            vstd::arithmetic::div_mod::lemma_mod_bound(
                rng_word(rng_skip(s, rejections(s, n, y))) as int,
                n,
            );
        }
    }
}

/// Draws the decisions of the steps that `order` lists, and appends them.
fn plan_steps(
    cfg: &MachineConfig,
    rng: &mut Rng,
    lit_rng: &mut Rng,
    ys: &[usize],
    order: &[usize],
    negs: &mut Vec<usize>,
    masks: &mut Vec<u64>,
)
    requires
        cfg.wf(),
        forall|k: int| 0 <= k < order@.len() ==> #[trigger] order@[k] < ys@.len(),
    ensures
        final(rng)@ == step_rng(old(rng)@, cfg.n_classes as int, ys@, order@, order@.len()),
        final(lit_rng)@ == cfg.train.step_lit(old(lit_rng)@, order@.len()),
        final(negs)@ == old(negs)@ + step_negs(old(rng)@, cfg.n_classes as int, ys@, order@),
        final(masks)@ == old(masks)@ + cfg.train.step_masks(old(lit_rng)@, order@.len()),
{
    let ghost s = rng@;
    let ghost l = lit_rng@;
    let ghost negs0 = negs@;
    let ghost masks0 = masks@;
    let ghost want = step_negs(s, cfg.n_classes as int, ys@, order@);
    let dropout: bool = cfg.train.literal_drop.positive();
    let words: usize = cfg.train.geom.words;
    let mut k: usize = 0;
    proof {
        assert(negs@ =~= negs0 + want.take(0));
        assert(masks@ =~= masks0 + cfg.train.step_masks(l, 0));
    }
    while k < order.len()
        invariant
            cfg.wf(),
            forall|k: int| 0 <= k < order@.len() ==> #[trigger] order@[k] < ys@.len(),
            k <= order@.len(),
            words == cfg.train.geom.words,
            dropout == is_positive(cfg.train.literal_drop),
            want == step_negs(s, cfg.n_classes as int, ys@, order@),
            rng@ == step_rng(s, cfg.n_classes as int, ys@, order@, k as nat),
            lit_rng@ == cfg.train.step_lit(l, k as nat),
            negs@ == negs0 + want.take(k as int),
            masks@ == masks0 + cfg.train.step_masks(l, k as nat),
        decreases order@.len() - k,
    {
        let ghost negs1 = negs@;
        let ghost masks1 = masks@;
        let y: usize = ys[order[k]];
        let neg: usize = sample_other(rng, cfg.n_classes, y);
        negs.push(neg);
        proof {
            assert(want.take(k + 1) =~= want.take(k as int).push(neg));
            assert(negs@ =~= negs0 + want.take(k + 1));
        }
        if dropout {
            let mut mask: Vec<u64> = bernoulli_mask(lit_rng, &cfg.train.dig_lit_active, words);
            let ghost drawn = mask@;
            masks.append(&mut mask);
            proof {
                assert(masks@ =~= masks1 + drawn);
                assert(masks@ =~= masks0 + cfg.train.step_masks(l, (k + 1) as nat));
            }
        } else {
            proof {
                assert(cfg.train.step_masks(l, (k + 1) as nat) =~= seq![]);
                assert(cfg.train.step_masks(l, k as nat) =~= seq![]);
            }
        }
        k = k + 1;
    }
    proof {
        assert(want.take(order@.len() as int) =~= want);
    }
}

/// `seq` filled up with `fill` to the length `n`.
pub open spec fn padded<T>(s: Seq<T>, n: int, fill: T) -> Seq<T> {
    s + Seq::new((n - s.len()) as nat, |i: int| fill)
}

/// The samples of shard `r` of `shards`.
pub open spec fn shard_order(order: Seq<usize>, shards: int, r: int) -> Seq<usize> {
    let n = order.len() as int;
    order.subrange(share_start(n, shards, r), share_start(n, shards, r + 1))
}

/// The negative classes of the first `r` shards.
pub open spec fn shard_negs(seeds: Seq<u64>, n_classes: int, ys: Seq<usize>, order: Seq<usize>, r: nat) -> Seq<
    usize,
>
    decreases r,
{
    if r == 0 {
        seq![]
    } else {
        let shards = seeds.len() as int;
        shard_negs(seeds, n_classes, ys, order, (r - 1) as nat) + padded(
            step_negs(rng_next(seeds[r - 1]), n_classes, ys, shard_order(order, shards, r - 1)),
            share_len(order.len() as int, shards),
            0,
        )
    }
}

impl TrainConfig {
    /// The packed active literals of the first `r` shards.
    pub open spec fn shard_masks(&self, seeds: Seq<u64>, order: Seq<usize>, r: nat) -> Seq<u64>
        decreases r,
    {
        if r == 0 || !is_positive(self.literal_drop) {
            seq![]
        } else {
            let shards = seeds.len() as int;
            self.shard_masks(seeds, order, (r - 1) as nat) + padded(
                self.step_masks(
                    literal_seed(seeds[r - 1]),
                    shard_order(order, shards, r - 1).len(),
                ),
                share_len(order.len() as int, shards) * self.geom.words,
                0,
            )
        }
    }

    /// Steps have `words` packed words of active literals each, or none.
    pub proof fn lemma_masks_len(&self, l: u64, k: nat)
        ensures
            self.step_masks(l, k).len() == if is_positive(self.literal_drop) {
                k * self.geom.words
            } else {
                0
            },
        decreases k,
    {
        if k > 0 && is_positive(self.literal_drop) {
            self.lemma_masks_len(l, (k - 1) as nat);
            let w = self.geom.words as int;
            assert(k * w == (k - 1) * w + w) by (nonlinear_arith);
        } else {
            assert(0 * self.geom.words == 0) by (nonlinear_arith);
        }
    }
}

impl TsetlinMachine {
    /// Draws the decisions of one epoch over `n` samples ahead. The streams of the machine advance
    /// as they do in training.
    pub fn gpu_epoch_plan(&mut self, n: usize, ys: &[usize]) -> (r: GpuEpochPlan)
        requires
            old(self).wf(),
            ys@.len() == n,
        ensures
            final(self).wf(),
            final(self).config == old(self).config,
            final(self).hint_shown == old(self).hint_shown,
            ({
                let cfg = old(self).config;
                let order = epoch_order_of(old(self)@.rng, n as nat);
                let s = rng_skip(old(self)@.rng, shuffle_draws(n as nat));
                let l = old(self)@.literal_rng;
                &&& r.order@ == order
                &&& r.negs@ == step_negs(s, cfg.n_classes as int, ys@, order)
                &&& r.lit_active@ == cfg.train.step_masks(l, n as nat)
                &&& final(self)@ == (MachineModel {
                    rng: step_rng(s, cfg.n_classes as int, ys@, order, n as nat),
                    literal_rng: cfg.train.step_lit(l, n as nat),
                    ..old(self)@
                })
            }),
    {
        let order: Vec<usize> = epoch_order(&mut self.state.rng, n);
        let mut negs: Vec<usize> = Vec::with_capacity(n);
        let mut lit_active: Vec<u64> = Vec::new();
        plan_steps(
            &self.config,
            &mut self.state.rng,
            &mut self.state.literal_rng,
            ys,
            &order,
            &mut negs,
            &mut lit_active,
        );
        proof {
            let want = step_negs(
                rng_skip(old(self)@.rng, shuffle_draws(n as nat)),
                self.config.n_classes as int,
                ys@,
                order@,
            );
            assert(negs@ =~= want);
            assert(lit_active@ =~= self.config.train.step_masks(old(self)@.literal_rng, n as nat));
        }
        GpuEpochPlan { order, negs, lit_active }
    }

    /// Draws the decisions of one epoch over `n` samples that `r` replicas train in parts.
    pub fn dp_epoch_plan(&mut self, n: usize, ys: &[usize], r: usize) -> (p: DpPlan)
        requires
            old(self).wf(),
            ys@.len() == n,
            r >= 1,
            n + r <= usize::MAX,
            (n + r) * old(self).config.train.geom.words <= usize::MAX,
        ensures
            final(self).wf(),
            final(self).config == old(self).config,
            final(self).hint_shown == old(self).hint_shown,
            ({
                let cfg = old(self).config;
                let order = epoch_order_of(old(self)@.rng, n as nat);
                let s = rng_skip(old(self)@.rng, shuffle_draws(n as nat));
                let seeds = seeds_of(s, r as nat);
                &&& p.order@ == order
                &&& p.seeds@ == seeds
                &&& p.shard_len == share_len(n as int, r as int)
                &&& p.negs@ == shard_negs(seeds, cfg.n_classes as int, ys@, order, r as nat)
                &&& p.lit_active@ == cfg.train.shard_masks(seeds, order, r as nat)
                &&& final(self)@ == (MachineModel { rng: rng_skip(s, r as nat), ..old(self)@ })
            }),
    {
        let ghost m = self@;
        let order: Vec<usize> = epoch_order(&mut self.state.rng, n);
        let ghost s = self.state.rng@;
        let mut seeds: Vec<u64> = Vec::with_capacity(r);
        let mut i: usize = 0;
        while i < r
            invariant
                i <= r,
                self.config == old(self).config,
                self.hint_shown == old(self).hint_shown,
                self.state.classes == old(self).state.classes,
                self.state.literal_rng == old(self).state.literal_rng,
                self.state.rng@ == rng_skip(s, i as nat),
                seeds@.len() == i,
                forall|k: int| 0 <= k < i ==> #[trigger] seeds@[k] == rng_word(rng_skip(s, k as nat)),
            decreases r - i,
        {
            seeds.push(self.state.rng.next_u64());
            i = i + 1;
        }
        proof {
            assert(seeds@ =~= seeds_of(s, r as nat));
        }
        let shard_len: usize = (n + (r - 1)) / r;
        let words: usize = self.config.train.geom.words;
        let dropout: bool = self.config.train.literal_drop.positive();
        let ghost shards = r as int;
        let ghost len = share_len(n as int, shards);
        proof {
            let total = n + shards - 1;
            assert(0 <= len && len * shards <= total && len <= total) by (nonlinear_arith)
                requires
                    len == total / shards,
                    total >= 0,
                    shards >= 1,
            ;
            assert(len * shards >= n) by (nonlinear_arith)
                requires
                    len == total / shards,
                    total == n + shards - 1,
                    shards >= 1,
            ;
            assert(len * words <= (n + r) * words) by (nonlinear_arith)
                requires
                    0 <= len <= n + r,
                    words >= 0,
            ;
        }
        let mut negs: Vec<usize> = Vec::new();
        let mut lit_active: Vec<u64> = Vec::new();
        let mut start: usize = 0;
        let mut ri: usize = 0;
        proof {
            assert(0 * len == 0) by (nonlinear_arith);
            assert(negs@ =~= shard_negs(seeds@, self.config.n_classes as int, ys@, order@, 0));
            assert(lit_active@ =~= self.config.train.shard_masks(seeds@, order@, 0));
        }
        while ri < r
            invariant
                ri <= r,
                shards == r,
                len == share_len(n as int, shards),
                len == shard_len,
                len * shards <= n + shards - 1,
                n + r <= usize::MAX,
                self.config.wf(),
                words == self.config.train.geom.words,
                len * words <= usize::MAX,
                dropout == is_positive(self.config.train.literal_drop),
                order@.len() == n,
                ys@.len() == n,
                forall|k: int| 0 <= k < order@.len() ==> #[trigger] order@[k] < ys@.len(),
                seeds@.len() == r,
                start == share_start(n as int, shards, ri as int),
                start <= n,
                negs@ == shard_negs(
                    seeds@,
                    self.config.n_classes as int,
                    ys@,
                    order@,
                    ri as nat,
                ),
                lit_active@ == self.config.train.shard_masks(seeds@, order@, ri as nat),
            decreases r - ri,
        {
            let end: usize = if n - start <= shard_len {
                n
            } else {
                start + shard_len
            };
            proof {
                let q = ri as int;
                assert((q + 1) * len == q * len + len) by (nonlinear_arith);
                assert(end == share_start(n as int, shards, q + 1));
            }
            let mut rrng: Rng = replica_rng(seeds[ri]);
            let mut lrng: Rng = literal_rng(seeds[ri]);
            let shard: &[usize] = slice_subrange(order.as_slice(), start, end);
            let ghost negs1 = negs@;
            let ghost masks1 = lit_active@;
            proof {
                assert(shard@ == shard_order(order@, shards, ri as int));
                assert forall|k: int| 0 <= k < shard@.len() implies #[trigger] shard@[k] < ys@.len() by {
                    assert(shard@[k] == order@[start + k]);
                }
            }
            plan_steps(
                &self.config,
                &mut rrng,
                &mut lrng,
                ys,
                shard,
                &mut negs,
                &mut lit_active,
            );
            let ghost drawn = step_negs(
                rng_next(seeds@[ri as int]),
                self.config.n_classes as int,
                ys@,
                shard@,
            );
            let ghost masks = self.config.train.step_masks(
                literal_seed(seeds@[ri as int]),
                shard@.len(),
            );
            let steps: usize = end - start;
            let mut k: usize = steps;
            while k < shard_len
                invariant
                    steps <= k,
                    steps <= shard_len,
                    k <= shard_len,
                    drawn.len() == steps,
                    negs@ == negs1 + (drawn + Seq::new((k - steps) as nat, |i: int| 0usize)),
                decreases shard_len - k,
            {
                negs.push(0);
                k = k + 1;
                proof {
                    assert(negs@ =~= negs1 + (drawn + Seq::new((k - steps) as nat, |i: int| 0usize)));
                }
            }
            proof {
                assert(negs@ =~= negs1 + padded(drawn, len, 0));
                self.config.train.lemma_masks_len(
                    literal_seed(seeds@[ri as int]),
                    shard@.len(),
                );
                assert(steps * words <= len * words) by (nonlinear_arith)
                    requires
                        steps <= len,
                        words >= 0,
                ;
            }
            if dropout {
                let mut k: usize = steps * words;
                let full: usize = shard_len * words;
                while k < full
                    invariant
                        masks.len() <= k <= full,
                        lit_active@ == masks1 + (masks + Seq::new(
                            (k - masks.len()) as nat,
                            |i: int| 0u64,
                        )),
                    decreases full - k,
                {
                    lit_active.push(0);
                    k = k + 1;
                    proof {
                        assert(lit_active@ =~= masks1 + (masks + Seq::new(
                            (k - masks.len()) as nat,
                            |i: int| 0u64,
                        )));
                    }
                }
                proof {
                    assert(lit_active@ =~= masks1 + padded(masks, len * words, 0));
                }
            } else {
                proof {
                    assert(lit_active@ =~= masks1);
                }
            }
            start = end;
            ri = ri + 1;
        }
        DpPlan { order, seeds, shard_len, negs, lit_active }
    }
}

impl TrainConfig {
    /// The masks that are drawn ahead hold, one step after the other, the literals that are active
    /// in the steps.
    pub proof fn lemma_masks_are_active(&self, l: u64, n: nat, k: nat)
        requires
            self.geom.wf(),
            is_positive(self.literal_drop),
            k < n,
        ensures
            ({
                let w = self.geom.words as int;
                let part = self.step_masks(l, n).subrange(k * w, (k + 1) * w);
                bits_of(part, self.n()) == self.active_of(self.step_lit(l, k))
            }),
        decreases n,
    {
        let w = self.geom.words as int;
        let before = self.step_masks(l, (n - 1) as nat);
        let last = mask_words(self.step_lit(l, (n - 1) as nat), self.dig_lit_active@, w as nat);
        self.lemma_masks_len(l, (n - 1) as nat);
        self.lemma_masks_len(l, n);
        assert((k + 1) * w == k * w + w && 0 <= k * w) by (nonlinear_arith)
            requires
                k >= 0,
                w >= 0,
        ;
        let part = self.step_masks(l, n).subrange(k * w, (k + 1) * w);
        if k == n - 1 {
            assert(part =~= last);
        } else {
            self.lemma_masks_are_active(l, (n - 1) as nat, k);
            assert((k + 1) * w <= (n - 1) * w) by (nonlinear_arith)
                requires
                    k + 1 <= n - 1,
                    w >= 0,
            ;
            assert(part =~= before.subrange(k * w, (k + 1) * w));
        }
    }
}

} // verus!
