//! The convolutional multiclass Tsetlin Machine: every clause looks at patches of the input, and
//! fires where it fires for any of them.
use crate::bits::{bits_of, expand_bits_to_bytes};
use crate::clause_bank::automata::{flags, half_of, holds, lemma_flags, rule_of, votes, Geometry};
use crate::clause_bank::feedback::{
    after_drops, after_mask, clamp, clamp_sum, class_drops, feedback_of, fired_indices,
    literal_mask, polar_sum, third_of, weights_of, ClassBank, ClassModel, Clause, ClauseModel,
    Inputs, Rules,
};
use crate::dyadic::{chance_of, plain_bound, plain_gate, Chance, Dyadic};
use crate::models::classification::patches::{packs, placements, PatchGrid};
use crate::models::classification::vanilla_classifier::{
    class_models, initial_machine, lemma_clause_counts, MachineModel,
};
use crate::models::config::{
    active_digits, certain_digits, fresh_classes, indicator_gate, LITERAL_XOR, TrainConfig,
};
use crate::models::ranking::{count_correct, is_last_max, last_max, lemma_last_max};
use crate::rng::{rng_index, rng_next, rng_skip, Rng};
use crate::sampling::{
    after_other, bernoulli_mask, draw_drops, epoch_order, epoch_order_of, other_index, sample_other,
    shuffle_draws,
};
use crate::encoder::encodes;
use vstd::prelude::*;

verus! {

/// A clause fires for some patch in training.
pub open spec fn holds_somewhere(ta: Seq<u8>, half: u8, patches: Seq<Seq<bool>>, act: Seq<bool>) -> bool {
    exists|p: int| 0 <= p < patches.len() && #[trigger] holds(ta, half, patches[p], act)
}

/// A clause fires for some patch in inference.
pub open spec fn votes_somewhere(ta: Seq<u8>, half: u8, patches: Seq<Seq<bool>>) -> bool {
    exists|p: int| 0 <= p < patches.len() && #[trigger] votes(ta, half, patches[p])
}

/// The patches for which a clause fires in training, in increasing order.
pub open spec fn firing_patches(
    ta: Seq<u8>,
    half: u8,
    patches: Seq<Seq<bool>>,
    act: Seq<bool>,
) -> Seq<usize> {
    fired_indices(
        Seq::new(patches.len(), |p: int| holds(ta, half, patches[p], act)),
        patches.len(),
    )
}

/// The patch from which a clause learns: a random one of those for which it fires, or the
/// first if there is none.
pub open spec fn chosen_patch(firing: Seq<usize>, s: u64) -> int {
    if firing.len() > 0 {
        firing[rng_index(s, firing.len() as int)] as int
    } else {
        0
    }
}

/// The stream position after the choice of a patch.
pub open spec fn after_choice(firing: Seq<usize>, s: u64) -> u64 {
    if firing.len() > 0 {
        rng_next(s)
    } else {
        s
    }
}

/// Clause `j` of a class after one update. The patch is chosen for dropped clauses too.
pub open spec fn patch_step(
    c: ClauseModel,
    j: int,
    dropped: bool,
    target: bool,
    gate: u64,
    r: Rules,
    patches: Seq<Seq<bool>>,
    act: Seq<bool>,
    inv: Seq<bool>,
    keep: Seq<bool>,
    half: u8,
    max: u8,
) -> ClauseModel {
    let firing = firing_patches(c.auto.ta, half, patches, act);
    let x = patches[chosen_patch(firing, c.rng)];
    let c0 = ClauseModel { rng: after_choice(firing, c.rng), ..c };
    if dropped {
        c0
    } else {
        let c1 = feedback_of(
            c0,
            target == (j % 2 == 0),
            firing.len() > 0,
            gate,
            r,
            x,
            act,
            inv,
            keep,
            half,
            max,
        );
        if r.type_iii {
            third_of(c1, target, gate, r.d_gate, x, act, half, max)
        } else {
            c1
        }
    }
}

/// A class after one update on the patches of a sample.
pub open spec fn patch_update_of(
    m: ClassModel,
    target: bool,
    gate: u64,
    r: Rules,
    dig_inv: Seq<u8>,
    dig_keep: Seq<u8>,
    patches: Seq<Seq<bool>>,
    act: Seq<bool>,
    half: u8,
    max: u8,
) -> ClassModel {
    let n = m.clauses.len();
    let dropped = class_drops(m.rng, r.drop, n);
    let s1 = after_drops(m.rng, r.drop, n);
    let inv = literal_mask(s1, dig_inv, act.len());
    let s2 = after_mask(s1, dig_inv, act.len());
    let keep = literal_mask(s2, dig_keep, act.len());
    let s3 = after_mask(s2, dig_keep, act.len());
    ClassModel {
        clauses: Seq::new(
            n,
            |j: int|
                patch_step(
                    m.clauses[j],
                    j,
                    dropped[j],
                    target,
                    gate,
                    r,
                    patches,
                    act,
                    inv,
                    keep,
                    half,
                    max,
                ),
        ),
        rng: s3,
    }
}

/// The clamped vote sum of a class in training. A clause that fires for several patches
/// votes once.
pub open spec fn patch_train_sum(
    cs: Seq<ClauseModel>,
    half: u8,
    patches: Seq<Seq<bool>>,
    act: Seq<bool>,
    t: int,
) -> int {
    clamp(
        polar_sum(
            Seq::new(cs.len(), |j: int| holds_somewhere(cs[j].auto.ta, half, patches, act)),
            weights_of(cs),
            cs.len(),
        ),
        -t,
        t,
    )
}

/// The score of a class: its clamped vote sum in inference. A clause that fires for several
/// patches votes once.
pub open spec fn patch_score(cs: Seq<ClauseModel>, half: u8, patches: Seq<Seq<bool>>, t: int) -> int {
    clamp(
        polar_sum(
            Seq::new(cs.len(), |j: int| votes_somewhere(cs[j].auto.ta, half, patches)),
            weights_of(cs),
            cs.len(),
        ),
        -t,
        t,
    )
}

/// The listed indices are those at which `f` is true.
pub proof fn lemma_fired_indices(f: Seq<bool>, n: nat)
    requires
        n <= f.len(),
        n <= usize::MAX,
    ensures
        forall|k: int|
            0 <= k < fired_indices(f, n).len() ==> (#[trigger] fired_indices(f, n)[k]) < n
                && f[fired_indices(f, n)[k] as int],
        fired_indices(f, n).len() > 0 <==> exists|i: int| 0 <= i < n && #[trigger] f[i],
    decreases n,
{
    if n > 0 {
        lemma_fired_indices(f, (n - 1) as nat);
        let before = fired_indices(f, (n - 1) as nat);
        if f[n - 1] {
            assert(fired_indices(f, n)[before.len() as int] == n - 1);
        }
        if exists|i: int| 0 <= i < n && #[trigger] f[i] {
            let i = choose|i: int| 0 <= i < n && #[trigger] f[i];
            if i < n - 1 {
                assert(exists|k: int| 0 <= k < n - 1 && #[trigger] f[k]);
            }
        }
    }
}

impl Clause {
    /// The patches for which the clause fires in training, in increasing order.
    fn firing(&self, g: &Geometry, patches: &Vec<Vec<u64>>, active: &[u64], Ghost(bits): Ghost<Seq<Seq<bool>>>) -> (r:
        Vec<usize>)
        requires
            g.wf(),
            self.auto.wf(g),
            packs(patches@, bits, g.n_literals as nat),
            active@.len() == g.words,
        ensures
            r@ == firing_patches(
                self@.auto.ta,
                g.half,
                bits,
                bits_of(active@, g.n_literals as nat),
            ),
    {
        let ghost act = bits_of(active@, g.n_literals as nat);
        let ghost f = Seq::new(bits.len(), |p: int| holds(self@.auto.ta, g.half, bits[p], act));
        let mut r: Vec<usize> = Vec::new();
        let mut p: usize = 0;
        while p < patches.len()
            invariant
                g.wf(),
                self.auto.wf(g),
                packs(patches@, bits, g.n_literals as nat),
                active@.len() == g.words,
                act == bits_of(active@, g.n_literals as nat),
                f == Seq::new(bits.len(), |p: int| holds(self@.auto.ta, g.half, bits[p], act)),
                p <= patches@.len(),
                r@ == fired_indices(f, p as nat),
            decreases patches@.len() - p,
        {
            if self.auto.fires(g, &patches[p], active) {
                r.push(p);
            }
            p = p + 1;
        }
        r
    }

    /// Whether the clause fires for some patch in inference.
    fn matches_any(&self, g: &Geometry, patches: &Vec<Vec<u64>>, Ghost(bits): Ghost<Seq<Seq<bool>>>) -> (r:
        bool)
        requires
            g.wf(),
            self.auto.wf(g),
            packs(patches@, bits, g.n_literals as nat),
        ensures
            r == votes_somewhere(self@.auto.ta, g.half, bits),
    {
        let mut p: usize = 0;
        while p < patches.len()
            invariant
                g.wf(),
                self.auto.wf(g),
                packs(patches@, bits, g.n_literals as nat),
                p <= patches@.len(),
                forall|k: int| 0 <= k < p ==> !#[trigger] votes(self@.auto.ta, g.half, bits[k]),
            decreases patches@.len() - p,
        {
            if self.auto.matches(g, &patches[p]) {
                proof {
                    assert(votes(self@.auto.ta, g.half, bits[p as int]));
                }
                return true;
            }
            p = p + 1;
        }
        false
    }

    /// Gives Type I or Type II feedback on a patch to the clause, and then Type III feedback
    /// where it is on.
    fn apply_one_clause_conv(
        &mut self,
        g: &Geometry,
        r: &Rules,
        reward: bool,
        fires: bool,
        gate: u64,
        target: bool,
        inp: &Inputs,
        inv_b: &[u8],
        keep_b: &[u8],
    )
        requires
            old(self).wf(g, r.wmin, r.wmax),
            inp.wf(g),
            g.wf(),
            inv_b@.len() == g.n_literals,
            keep_b@.len() == g.n_literals,
        ensures
            final(self).wf(g, r.wmin, r.wmax),
            ({
                let c1 = feedback_of(
                    old(self)@,
                    reward,
                    fires,
                    gate,
                    *r,
                    inp.x(g),
                    inp.act(g),
                    flags(inv_b@),
                    flags(keep_b@),
                    g.half,
                    g.max_state,
                );
                final(self)@ == if r.type_iii {
                    third_of(c1, target, gate, r.d_gate, inp.x(g), inp.act(g), g.half, g.max_state)
                } else {
                    c1
                }
            }),
    {
        proof {
            lemma_flags(inp.lit_b@, inp.lit@, g.n_literals as nat);
            lemma_flags(inp.active_b@, inp.active@, g.n_literals as nat);
        }
        self.apply_one_clause(g, r, reward, fires, gate, inp.lit_b, inv_b, keep_b, inp.active_b);
        if r.type_iii {
            self.third(g, inp, target, gate, r.d_gate);
        }
    }
}

impl ClassBank {
    /// The clamped vote sum over the patches of a sample in training.
    fn patch_sum_train(
        &self,
        g: &Geometry,
        patches: &Vec<Vec<u64>>,
        active: &[u64],
        t: i32,
        Ghost(bits): Ghost<Seq<Seq<bool>>>,
    ) -> (r: i32)
        requires
            g.wf(),
            self.autos_wf(g),
            packs(patches@, bits, g.n_literals as nat),
            active@.len() == g.words,
            t >= 1,
        ensures
            r == patch_train_sum(
                self@.clauses,
                g.half,
                bits,
                bits_of(active@, g.n_literals as nat),
                t as int,
            ),
            -t <= r <= t,
    {
        let ghost m = self@.clauses;
        let ghost act = bits_of(active@, g.n_literals as nat);
        let ghost f = Seq::new(
            m.len(),
            |j: int| holds_somewhere(m[j].auto.ta, g.half, bits, act),
        );
        let mut sum: i128 = 0;
        let mut j: usize = 0;
        while j < self.clauses.len()
            invariant
                g.wf(),
                j <= self.clauses@.len(),
                self.autos_wf(g),
                packs(patches@, bits, g.n_literals as nat),
                active@.len() == g.words,
                act == bits_of(active@, g.n_literals as nat),
                m == self@.clauses,
                f == Seq::new(m.len(), |j: int| holds_somewhere(m[j].auto.ta, g.half, bits, act)),
                sum == polar_sum(f, weights_of(m), j as nat),
                -0x8000_0000 * j <= sum <= 0x8000_0000 * j,
            decreases self.clauses@.len() - j,
        {
            let c: &Clause = &self.clauses[j];
            let firing: Vec<usize> = c.firing(g, patches, active, Ghost(bits));
            proof {
                assert(patches.len() <= usize::MAX);
                lemma_somewhere(c@.auto.ta, g.half, bits, act);
            }
            if firing.len() > 0 {
                if j % 2 == 0 {
                    sum = sum + c.weight as i128;
                } else {
                    sum = sum - c.weight as i128;
                }
            }
            j = j + 1;
        }
        clamp_sum(sum, t)
    }

    /// The clamped vote sum over the patches of a sample in inference.
    fn patch_vote(&self, g: &Geometry, patches: &Vec<Vec<u64>>, t: i32, Ghost(bits): Ghost<Seq<Seq<bool>>>) -> (r:
        i32)
        requires
            g.wf(),
            self.autos_wf(g),
            packs(patches@, bits, g.n_literals as nat),
            t >= 1,
        ensures
            r == patch_score(self@.clauses, g.half, bits, t as int),
    {
        let ghost m = self@.clauses;
        let ghost f = Seq::new(m.len(), |j: int| votes_somewhere(m[j].auto.ta, g.half, bits));
        let mut sum: i128 = 0;
        let mut j: usize = 0;
        while j < self.clauses.len()
            invariant
                g.wf(),
                j <= self.clauses@.len(),
                self.autos_wf(g),
                packs(patches@, bits, g.n_literals as nat),
                m == self@.clauses,
                f == Seq::new(m.len(), |j: int| votes_somewhere(m[j].auto.ta, g.half, bits)),
                sum == polar_sum(f, weights_of(m), j as nat),
                -0x8000_0000 * j <= sum <= 0x8000_0000 * j,
            decreases self.clauses@.len() - j,
        {
            let c: &Clause = &self.clauses[j];
            if c.matches_any(g, patches, Ghost(bits)) {
                if j % 2 == 0 {
                    sum = sum + c.weight as i128;
                } else {
                    sum = sum - c.weight as i128;
                }
            }
            j = j + 1;
        }
        clamp_sum(sum, t)
    }

    /// Gives one update of feedback on the patches of a sample to all clauses of the class.
    fn update_patches(
        &mut self,
        g: &Geometry,
        r: &Rules,
        dig_inv: &[u8],
        dig_keep: &[u8],
        target: bool,
        gate: u64,
        patches: &Vec<Vec<u64>>,
        active: &[u64],
        Ghost(bits): Ghost<Seq<Seq<bool>>>,
    )
        requires
            g.wf(),
            old(self).wf(g, r.wmin, r.wmax),
            packs(patches@, bits, g.n_literals as nat),
            patches@.len() >= 1,
            active@.len() == g.words,
        ensures
            final(self).wf(g, r.wmin, r.wmax),
            final(self)@ == patch_update_of(
                old(self)@,
                target,
                gate,
                *r,
                dig_inv@,
                dig_keep@,
                bits,
                bits_of(active@, g.n_literals as nat),
                g.half,
                g.max_state,
            ),
    {
        let ghost m = self@;
        let ghost act = bits_of(active@, g.n_literals as nat);
        let n: usize = self.clauses.len();
        let dropped: Vec<bool> = if r.drop.positive() {
            draw_drops(&mut self.rng, r.drop, n)
        } else {
            vec![false; n]
        };
        proof {
            assert(dropped@ =~= class_drops(m.rng, r.drop, n as nat));
        }
        let inv_mask: Vec<u64> = bernoulli_mask(&mut self.rng, dig_inv, g.words);
        let keep_mask: Vec<u64> = bernoulli_mask(&mut self.rng, dig_keep, g.words);
        let inv_b: Vec<u8> = expand_bits_to_bytes(&inv_mask, g.n_literals);
        let keep_b: Vec<u8> = expand_bits_to_bytes(&keep_mask, g.n_literals);
        let active_b: Vec<u8> = expand_bits_to_bytes(active, g.n_literals);
        let ghost inv = bits_of(inv_mask@, g.n_literals as nat);
        let ghost keep = bits_of(keep_mask@, g.n_literals as nat);
        proof {
            lemma_flags(inv_b@, inv_mask@, g.n_literals as nat);
            lemma_flags(keep_b@, keep_mask@, g.n_literals as nat);
        }
        let ghost want = patch_update_of(
            m,
            target,
            gate,
            *r,
            dig_inv@,
            dig_keep@,
            bits,
            act,
            g.half,
            g.max_state,
        );
        let mut j: usize = 0;
        while j < n
            invariant
                j <= n,
                n == self.clauses@.len(),
                n == m.clauses.len(),
                g.wf(),
                packs(patches@, bits, g.n_literals as nat),
                patches@.len() >= 1,
                active@.len() == g.words,
                act == bits_of(active@, g.n_literals as nat),
                crate::bits::expands(active_b@, active@, g.n_literals as int),
                self.wf(g, r.wmin, r.wmax),
                self.rng@ == want.rng,
                dropped@ == class_drops(m.rng, r.drop, n as nat),
                want.clauses.len() == n,
                forall|i: int| 0 <= i < j ==> (#[trigger] self.clauses@[i])@ == want.clauses[i],
                forall|i: int| j <= i < n ==> (#[trigger] self.clauses@[i])@ == m.clauses[i],
                forall|i: int|
                    0 <= i < n ==> #[trigger] want.clauses[i] == patch_step(
                        m.clauses[i],
                        i,
                        dropped@[i],
                        target,
                        gate,
                        *r,
                        bits,
                        act,
                        inv,
                        keep,
                        g.half,
                        g.max_state,
                    ),
                flags(inv_b@) == inv,
                flags(keep_b@) == keep,
                inv_b@.len() == g.n_literals,
                keep_b@.len() == g.n_literals,
            decreases n - j,
        {
            let reward: bool = target == (j % 2 == 0);
            let c: &mut Clause = &mut self.clauses[j];
            let firing: Vec<usize> = c.firing(g, patches, active, Ghost(bits));
            proof {
                assert(patches.len() <= usize::MAX);
                lemma_fired_indices(
                    Seq::new(bits.len(), |p: int| holds(c@.auto.ta, g.half, bits[p], act)),
                    bits.len(),
                );
            }
            let fires: bool = firing.len() > 0;
            let p: usize = if fires {
                firing[c.rng.below(firing.len())]
            } else {
                0
            };
            if !dropped[j] {
                let lit_b: Vec<u8> = expand_bits_to_bytes(&patches[p], g.n_literals);
                let inp: Inputs = Inputs {
                    lit: patches[p].as_slice(),
                    lit_b: lit_b.as_slice(),
                    active,
                    active_b: active_b.as_slice(),
                };
                c.apply_one_clause_conv(g, r, reward, fires, gate, target, &inp, &inv_b, &keep_b);
            }
            proof {
                assert(self.clauses@[j as int]@ == want.clauses[j as int]);
            }
            j = j + 1;
        }
        proof {
            assert(self@.clauses =~= want.clauses);
        }
    }
}

/// A clause has firing patches exactly where it fires for some patch.
pub proof fn lemma_somewhere(ta: Seq<u8>, half: u8, patches: Seq<Seq<bool>>, act: Seq<bool>)
    requires
        patches.len() <= usize::MAX,
    ensures
        firing_patches(ta, half, patches, act).len() > 0 <==> holds_somewhere(ta, half, patches, act),
{
    let f = Seq::new(patches.len(), |p: int| holds(ta, half, patches[p], act));
    lemma_fired_indices(f, patches.len());
    if holds_somewhere(ta, half, patches, act) {
        let p = choose|p: int| 0 <= p < patches.len() && #[trigger] holds(ta, half, patches[p], act);
        assert(f[p]);
    }
    if exists|i: int| 0 <= i < patches.len() && #[trigger] f[i] {
        let i = choose|i: int| 0 <= i < patches.len() && #[trigger] f[i];
        assert(holds(ta, half, patches[i], act));
    }
}

/// The configuration of a convolutional machine.
#[derive(Clone, Debug)]
pub struct ConvolutionalConfig {
    pub train: TrainConfig,
    pub grid: PatchGrid,
    pub n_classes: usize,
    pub clauses_per_class: usize,
}

/// A convolutional multiclass Tsetlin Machine.
#[derive(Clone, Debug)]
pub struct ConvolutionalTsetlinMachine {
    pub config: ConvolutionalConfig,
    /// The clauses of each class.
    pub classes: Vec<ClassBank>,
    pub rng: Rng,
    pub literal_rng: Rng,
}

impl View for ConvolutionalTsetlinMachine {
    type V = MachineModel;

    open spec fn view(&self) -> MachineModel {
        MachineModel {
            classes: class_models(self.classes@),
            rng: self.rng@,
            literal_rng: self.literal_rng@,
        }
    }
}

impl ConvolutionalConfig {
    pub open spec fn wf(&self) -> bool {
        &&& self.train.wf()
        &&& self.train.rules.wmin == 1
        &&& self.grid.wf()
        &&& self.n_classes >= 2
        &&& self.clauses_per_class >= 2
        &&& self.clauses_per_class % 2 == 0
        &&& self.train.geom.n_literals == 2 * self.grid.size()
    }

    /// The bound on a drawn fraction for feedback to a class whose vote sum is `v`.
    pub open spec fn gate_of(&self, v: int, target: bool) -> u64 {
        let t = self.train.threshold as int;
        plain_bound(
            if target {
                t - v
            } else {
                t + v
            },
            2 * t,
        ) as u64
    }

    /// Class `m` after training on the patches of one sample.
    pub open spec fn updated(
        &self,
        m: ClassModel,
        target: bool,
        patches: Seq<Seq<bool>>,
        act: Seq<bool>,
    ) -> ClassModel {
        let v = patch_train_sum(
            m.clauses,
            self.train.geom.half,
            patches,
            act,
            self.train.threshold as int,
        );
        patch_update_of(
            m,
            target,
            self.gate_of(v, target),
            self.train.rules,
            self.train.dig_inv@,
            self.train.dig_keep@,
            patches,
            act,
            self.train.geom.half,
            self.train.geom.max_state,
        )
    }

    /// The machine after training on one sample `x` with label `y`: class `y` learns to accept
    /// it and another class, drawn at random, to reject it.
    pub open spec fn fit_one_of(&self, m: MachineModel, x: Seq<u8>, y: int) -> MachineModel {
        let patches = self.grid.patch_bits(x);
        let act = self.train.active_of(m.literal_rng);
        let neg = other_index(m.rng, self.n_classes as int, y);
        MachineModel {
            classes: m.classes.update(y, self.updated(m.classes[y], true, patches, act)).update(
                neg,
                self.updated(m.classes[neg], false, patches, act),
            ),
            rng: after_other(m.rng, self.n_classes as int, y),
            literal_rng: self.train.after_active(m.literal_rng),
        }
    }

    /// The machine after training on the first `k` samples of `order`.
    pub open spec fn fit_order_of(
        &self,
        m: MachineModel,
        xs: Seq<Seq<u8>>,
        ys: Seq<usize>,
        order: Seq<usize>,
        k: nat,
    ) -> MachineModel
        decreases k,
    {
        if k == 0 {
            m
        } else {
            let i = order[k - 1] as int;
            self.fit_one_of(self.fit_order_of(m, xs, ys, order, (k - 1) as nat), xs[i], ys[i] as int)
        }
    }

    /// The machine after one epoch: every sample once, in a random order.
    pub open spec fn fit_epoch_of(&self, m: MachineModel, xs: Seq<Seq<u8>>, ys: Seq<usize>) -> MachineModel {
        let n = xs.len();
        self.fit_order_of(
            MachineModel { rng: rng_skip(m.rng, shuffle_draws(n)), ..m },
            xs,
            ys,
            epoch_order_of(m.rng, n),
            n,
        )
    }

    /// The scores of all classes.
    pub open spec fn scores_of(&self, m: MachineModel, x: Seq<u8>) -> Seq<int> {
        Seq::new(
            m.classes.len(),
            |c: int|
                patch_score(
                    m.classes[c].clauses,
                    self.train.geom.half,
                    self.grid.patch_bits(x),
                    self.train.threshold as int,
                ),
        )
    }

    /// The class predicted for a sample: the last with the largest score.
    pub open spec fn predict_of(&self, m: MachineModel, x: Seq<u8>) -> int {
        last_max(self.scores_of(m, x))
    }

    /// The classes predicted for samples.
    pub open spec fn predictions_of(&self, m: MachineModel, xs: Seq<Seq<u8>>) -> Seq<int> {
        Seq::new(xs.len(), |i: int| self.predict_of(m, xs[i]))
    }
}

/// Raw samples as values.
pub open spec fn raw_rows(xs: Seq<&[u8]>) -> Seq<Seq<u8>> {
    Seq::new(xs.len(), |i: int| xs[i]@)
}

impl ConvolutionalTsetlinMachine {
    pub open spec fn wf(&self) -> bool {
        &&& self.config.wf()
        &&& self.classes@.len() == self.config.n_classes
        &&& forall|c: int|
            0 <= c < self.classes@.len() ==> (#[trigger] self.classes@[c]).wf(
                &self.config.train.geom,
                1,
                self.config.train.threshold,
            )
        &&& forall|c: int|
            0 <= c < self.classes@.len() ==> (#[trigger] self.classes@[c]).clauses@.len()
                == self.config.clauses_per_class
    }

    /// A machine over sequences of `n_input_features` features, with patches of `kernel_size`
    /// consecutive ones, 8-bit counters, boosted rewards and seed 42.
    pub fn new(
        n_classes: usize,
        n_input_features: usize,
        kernel_size: usize,
        stride: usize,
        clauses_per_class: usize,
        threshold: i32,
        s: Dyadic,
    ) -> (r: Self)
        requires
            n_classes >= 2,
            1 <= kernel_size <= n_input_features,
            stride >= 1,
            clauses_per_class >= 2,
            clauses_per_class % 2 == 0,
            threshold >= 1,
            s.wf(),
            s.above_one(),
            2 * kernel_size + 64 <= usize::MAX,
            n_classes * clauses_per_class * (2 * kernel_size) <= usize::MAX,
        ensures
            r.wf(),
            r.config.n_classes == n_classes,
            r.config.clauses_per_class == clauses_per_class,
            r.config.grid.input_rows == 1,
            r.config.grid.input_cols == n_input_features,
            r.config.grid.patch_rows == 1,
            r.config.grid.patch_cols == kernel_size,
            r.config.grid.stride == stride,
            r.config.train.threshold == threshold,
            r.config.train.s == s,
            r.config.train.geom.half == 128,
            r.config.train.rules == (Rules {
                boost: true,
                max_included: usize::MAX,
                wmin: 1,
                wmax: threshold,
                type_iii: false,
                d_gate: 0,
                drop: Chance { floor: 0, exact: true },
            }),
            r.config.train.literal_drop == (Chance { floor: 0, exact: true }),
            r.config.train.dig_lit_active@ == certain_digits(),
            r@ == initial_machine(
                42,
                n_classes as nat,
                clauses_per_class as nat,
                (2 * kernel_size) as nat,
                128,
            ),
    {
        Self::with_config(
            n_classes,
            n_input_features,
            kernel_size,
            stride,
            clauses_per_class,
            threshold,
            s,
            8,
            true,
            42,
        )
    }

    /// A machine over images, with 8-bit counters, boosted rewards and seed 42.
    pub fn new_2d(
        n_classes: usize,
        input_rows: usize,
        input_cols: usize,
        patch_rows: usize,
        patch_cols: usize,
        stride: usize,
        clauses_per_class: usize,
        threshold: i32,
        s: Dyadic,
    ) -> (r: Self)
        requires
            n_classes >= 2,
            1 <= patch_rows <= input_rows,
            1 <= patch_cols <= input_cols,
            stride >= 1,
            clauses_per_class >= 2,
            clauses_per_class % 2 == 0,
            threshold >= 1,
            s.wf(),
            s.above_one(),
            input_rows * input_cols <= usize::MAX,
            2 * (patch_rows * patch_cols) + 64 <= usize::MAX,
            n_classes * clauses_per_class * (2 * (patch_rows * patch_cols)) <= usize::MAX,
        ensures
            r.wf(),
            r.config.n_classes == n_classes,
            r.config.clauses_per_class == clauses_per_class,
            r.config.grid.input_rows == input_rows,
            r.config.grid.input_cols == input_cols,
            r.config.grid.patch_rows == patch_rows,
            r.config.grid.patch_cols == patch_cols,
            r.config.grid.stride == stride,
            r.config.train.threshold == threshold,
            r.config.train.s == s,
            r.config.train.geom.half == 128,
            r.config.train.rules == (Rules {
                boost: true,
                max_included: usize::MAX,
                wmin: 1,
                wmax: threshold,
                type_iii: false,
                d_gate: 0,
                drop: Chance { floor: 0, exact: true },
            }),
            r.config.train.literal_drop == (Chance { floor: 0, exact: true }),
            r.config.train.dig_lit_active@ == certain_digits(),
            r@ == initial_machine(
                42,
                n_classes as nat,
                clauses_per_class as nat,
                (2 * (patch_rows * patch_cols)) as nat,
                128,
            ),
    {
        Self::with_config_2d(
            n_classes,
            input_rows,
            input_cols,
            patch_rows,
            patch_cols,
            stride,
            clauses_per_class,
            threshold,
            s,
            8,
            true,
            42,
        )
    }

    /// A machine over sequences, with all settings given.
    pub fn with_config(
        n_classes: usize,
        n_input_features: usize,
        kernel_size: usize,
        stride: usize,
        clauses_per_class: usize,
        threshold: i32,
        s: Dyadic,
        state_bits: u8,
        boost_true_positive: bool,
        seed: u64,
    ) -> (r: Self)
        requires
            n_classes >= 2,
            1 <= kernel_size <= n_input_features,
            stride >= 1,
            clauses_per_class >= 2,
            clauses_per_class % 2 == 0,
            threshold >= 1,
            s.wf(),
            s.above_one(),
            2 <= state_bits <= 8,
            2 * kernel_size + 64 <= usize::MAX,
            n_classes * clauses_per_class * (2 * kernel_size) <= usize::MAX,
        ensures
            r.wf(),
            r.config.n_classes == n_classes,
            r.config.clauses_per_class == clauses_per_class,
            r.config.grid.input_rows == 1,
            r.config.grid.input_cols == n_input_features,
            r.config.grid.patch_rows == 1,
            r.config.grid.patch_cols == kernel_size,
            r.config.grid.stride == stride,
            r.config.train.threshold == threshold,
            r.config.train.s == s,
            r.config.train.geom.half == half_of(state_bits),
            r.config.train.rules == (Rules {
                boost: boost_true_positive,
                max_included: usize::MAX,
                wmin: 1,
                wmax: threshold,
                type_iii: false,
                d_gate: 0,
                drop: Chance { floor: 0, exact: true },
            }),
            r.config.train.literal_drop == (Chance { floor: 0, exact: true }),
            r.config.train.dig_lit_active@ == certain_digits(),
            r@ == initial_machine(
                seed,
                n_classes as nat,
                clauses_per_class as nat,
                (2 * kernel_size) as nat,
                half_of(state_bits),
            ),
    {
        Self::with_config_2d(
            n_classes,
            1,
            n_input_features,
            1,
            kernel_size,
            stride,
            clauses_per_class,
            threshold,
            s,
            state_bits,
            boost_true_positive,
            seed,
        )
    }

    /// A machine over images, with all settings given. An image is given row by row.
    pub fn with_config_2d(
        n_classes: usize,
        input_rows: usize,
        input_cols: usize,
        patch_rows: usize,
        patch_cols: usize,
        stride: usize,
        clauses_per_class: usize,
        threshold: i32,
        s: Dyadic,
        state_bits: u8,
        boost_true_positive: bool,
        seed: u64,
    ) -> (r: Self)
        requires
            n_classes >= 2,
            1 <= patch_rows <= input_rows,
            1 <= patch_cols <= input_cols,
            stride >= 1,
            clauses_per_class >= 2,
            clauses_per_class % 2 == 0,
            threshold >= 1,
            s.wf(),
            s.above_one(),
            2 <= state_bits <= 8,
            input_rows * input_cols <= usize::MAX,
            2 * (patch_rows * patch_cols) + 64 <= usize::MAX,
            n_classes * clauses_per_class * (2 * (patch_rows * patch_cols)) <= usize::MAX,
        ensures
            r.wf(),
            r.config.n_classes == n_classes,
            r.config.clauses_per_class == clauses_per_class,
            r.config.grid.input_rows == input_rows,
            r.config.grid.input_cols == input_cols,
            r.config.grid.patch_rows == patch_rows,
            r.config.grid.patch_cols == patch_cols,
            r.config.grid.stride == stride,
            r.config.train.threshold == threshold,
            r.config.train.s == s,
            r.config.train.geom.half == half_of(state_bits),
            r.config.train.rules == (Rules {
                boost: boost_true_positive,
                max_included: usize::MAX,
                wmin: 1,
                wmax: threshold,
                type_iii: false,
                d_gate: 0,
                drop: Chance { floor: 0, exact: true },
            }),
            r.config.train.literal_drop == (Chance { floor: 0, exact: true }),
            r.config.train.dig_lit_active@ == certain_digits(),
            r@ == initial_machine(
                seed,
                n_classes as nat,
                clauses_per_class as nat,
                (2 * (patch_rows * patch_cols)) as nat,
                half_of(state_bits),
            ),
    {
        let grid: PatchGrid = PatchGrid::new(input_rows, input_cols, patch_rows, patch_cols, stride);
        proof {
            grid.lemma_size();
        }
        let n_literals: usize = 2 * (patch_rows * patch_cols);
        let train: TrainConfig = TrainConfig::new(
            n_literals,
            threshold,
            s,
            state_bits,
            boost_true_positive,
            1,
        );
        let mut rng: Rng = Rng::new(seed);
        proof {
            lemma_clause_counts(n_classes as int, clauses_per_class as int, n_literals as int);
        }
        let classes: Vec<ClassBank> = fresh_classes(
            &train.geom,
            &mut rng,
            seed,
            n_classes,
            clauses_per_class,
        );
        let r: ConvolutionalTsetlinMachine = ConvolutionalTsetlinMachine {
            config: ConvolutionalConfig { train, grid, n_classes, clauses_per_class },
            classes,
            rng,
            literal_rng: Rng::new(seed ^ LITERAL_XOR),
        };
        proof {
            let want = initial_machine(
                seed,
                n_classes as nat,
                clauses_per_class as nat,
                n_literals as nat,
                half_of(state_bits),
            );
            assert(r@.classes =~= want.classes);
        }
        r
    }

    /// Everything but the configuration is the same.
    pub open spec fn same_state(&self, other: &Self) -> bool {
        self.classes == other.classes && self.rng == other.rng && self.literal_rng
            == other.literal_rng
    }

    /// Limits how many literals each clause may include.
    pub fn max_included_literals(self, max: usize) -> (r: Self)
        requires
            self.wf(),
        ensures
            r.wf(),
            r.same_state(&self),
            r.config == (ConvolutionalConfig {
                train: TrainConfig {
                    rules: Rules { max_included: max, ..self.config.train.rules },
                    ..self.config.train
                },
                ..self.config
            }),
    {
        let mut r: ConvolutionalTsetlinMachine = self;
        r.config.train.set_max_included(max);
        r
    }

    /// Sets the probability, in [0, 1), with which a clause is dropped from an update.
    pub fn clause_drop_p(self, p: Dyadic) -> (r: Self)
        requires
            self.wf(),
            p.wf(),
            p.below_one(),
        ensures
            r.wf(),
            r.same_state(&self),
            r.config == (ConvolutionalConfig {
                train: TrainConfig {
                    rules: Rules {
                        drop: chance_of(p.mant as int, p.exp as int),
                        ..self.config.train.rules
                    },
                    ..self.config.train
                },
                ..self.config
            }),
    {
        let mut r: ConvolutionalTsetlinMachine = self;
        r.config.train.set_clause_drop(p);
        r
    }

    /// Sets the probability, in [0, 1), with which a literal is left out of a training step.
    pub fn literal_drop_p(self, p: Dyadic) -> (r: Self)
        requires
            self.wf(),
            p.wf(),
            p.below_one(),
        ensures
            r.wf(),
            r.same_state(&self),
            r.config.train.dig_lit_active@ == active_digits(p),
            r.config == (ConvolutionalConfig {
                train: TrainConfig {
                    literal_drop: chance_of(p.mant as int, p.exp as int),
                    dig_lit_active: r.config.train.dig_lit_active,
                    ..self.config.train
                },
                ..self.config
            }),
    {
        let mut r: ConvolutionalTsetlinMachine = self;
        r.config.train.set_literal_drop(p);
        r
    }

    /// Turns Type III feedback on, with strength `d > 1`.
    pub fn type_iii_feedback(self, d: Dyadic) -> (r: Self)
        requires
            self.wf(),
            d.wf(),
            d.above_one(),
        ensures
            r.wf(),
            r.same_state(&self),
            r.config == (ConvolutionalConfig {
                train: TrainConfig {
                    rules: Rules {
                        type_iii: true,
                        d_gate: indicator_gate(d),
                        ..self.config.train.rules
                    },
                    ..self.config.train
                },
                ..self.config
            }),
    {
        let mut r: ConvolutionalTsetlinMachine = self;
        r.config.train.set_type_iii(d);
        r
    }

    /// The number of classes.
    pub fn n_classes(&self) -> (r: usize)
        ensures
            r == self.config.n_classes,
    {
        self.config.n_classes
    }

    /// The number of features of the input.
    pub fn n_input_features(&self) -> (r: usize)
        requires
            self.wf(),
        ensures
            r == self.config.grid.input_rows * self.config.grid.input_cols,
    {
        self.config.grid.input_rows * self.config.grid.input_cols
    }

    /// The width of a patch.
    pub fn kernel_size(&self) -> (r: usize)
        ensures
            r == self.config.grid.patch_cols,
    {
        self.config.grid.patch_cols
    }

    /// The step between patches.
    pub fn stride(&self) -> (r: usize)
        ensures
            r == self.config.grid.stride,
    {
        self.config.grid.stride
    }

    /// The number of patches of an input.
    pub fn n_patches(&self) -> (r: usize)
        requires
            self.wf(),
        ensures
            r == placements(
                self.config.grid.input_rows as int,
                self.config.grid.patch_rows as int,
                self.config.grid.stride as int,
            ) * placements(
                self.config.grid.input_cols as int,
                self.config.grid.patch_cols as int,
                self.config.grid.stride as int,
            ),
    {
        self.config.grid.n_patches
    }

    /// The number of clauses of each class.
    pub fn clauses_per_class(&self) -> (r: usize)
        ensures
            r == self.config.clauses_per_class,
    {
        self.config.clauses_per_class
    }

    /// The height of a patch.
    pub fn patch_rows(&self) -> (r: usize)
        ensures
            r == self.config.grid.patch_rows,
    {
        self.config.grid.patch_rows
    }

    /// The width of a patch.
    pub fn patch_cols(&self) -> (r: usize)
        ensures
            r == self.config.grid.patch_cols,
    {
        self.config.grid.patch_cols
    }

    /// The height of the input.
    pub fn input_rows(&self) -> (r: usize)
        ensures
            r == self.config.grid.input_rows,
    {
        self.config.grid.input_rows
    }

    /// The width of the input.
    pub fn input_cols(&self) -> (r: usize)
        ensures
            r == self.config.grid.input_cols,
    {
        self.config.grid.input_cols
    }

    /// Packs the literals of patch `p_idx` of a sample.
    pub fn pack_patch(&self, x: &[u8], p_idx: usize) -> (r: Vec<u64>)
        requires
            self.wf(),
            x@.len() == self.config.grid.area(),
            p_idx < self.config.grid.n_patches,
        ensures
            encodes(r@, self.config.grid.patch(x@, p_idx as int), self.config.grid.size()),
    {
        self.config.grid.pack_patch(x, p_idx)
    }

    /// Packs the literals of all patches of a sample.
    pub fn pack_all_patches(&self, x: &[u8]) -> (r: Vec<Vec<u64>>)
        requires
            self.wf(),
            x@.len() == self.config.grid.area(),
        ensures
            forall|p: int|
                0 <= p < r@.len() ==> encodes(
                    (#[trigger] r@[p])@,
                    self.config.grid.patch(x@, p),
                    self.config.grid.size(),
                ),
            packs(r@, self.config.grid.patch_bits(x@), self.config.train.n()),
            r@.len() == self.config.grid.n_patches,
            r@.len() >= 1,
    {
        proof {
            let g = self.config.grid;
            let s = g.stride as int;
            let dn = g.input_rows - g.patch_rows;
            let ac = g.input_cols - g.patch_cols;
            let k = dn / s;
            let m = ac / s;
            assert(k >= 0) by (nonlinear_arith)
                requires
                    k == dn / s,
                    dn >= 0,
                    s >= 1,
            ;
            assert(m >= 0) by (nonlinear_arith)
                requires
                    m == ac / s,
                    ac >= 0,
                    s >= 1,
            ;
            assert((k + 1) * (m + 1) >= 1) by (nonlinear_arith)
                requires
                    k >= 0,
                    m >= 0,
            ;
        }
        self.config.grid.pack_all_patches(x)
    }

    /// Writes the scores of all classes for packed patches.
    fn class_scores_from_patches(&self, patches: &Vec<Vec<u64>>, out: &mut [i32], Ghost(x): Ghost<Seq<u8>>)
        requires
            self.wf(),
            packs(patches@, self.config.grid.patch_bits(x), self.config.train.n()),
            old(out)@.len() == self.config.n_classes,
        ensures
            final(out)@.len() == self.config.n_classes,
            forall|c: int|
                0 <= c < self.config.n_classes ==> #[trigger] final(out)@[c] == self.config.scores_of(
                    self@,
                    x,
                )[c],
    {
        let ghost sc = self.config.scores_of(self@, x);
        let mut c: usize = 0;
        while c < self.config.n_classes
            invariant
                self.wf(),
                packs(patches@, self.config.grid.patch_bits(x), self.config.train.n()),
                sc == self.config.scores_of(self@, x),
                c <= self.config.n_classes,
                out@.len() == self.config.n_classes,
                forall|k: int| 0 <= k < c ==> #[trigger] out@[k] == sc[k],
            decreases self.config.n_classes - c,
        {
            out[c] = self.classes[c].patch_vote(
                &self.config.train.geom,
                patches,
                self.config.train.threshold,
                Ghost(self.config.grid.patch_bits(x)),
            );
            c = c + 1;
        }
    }

    /// The class predicted for a sample: the last with the largest score.
    pub fn predict(&self, x: &[u8]) -> (r: usize)
        requires
            self.wf(),
            x@.len() == self.config.grid.area(),
        ensures
            r == self.config.predict_of(self@, x@),
            r < self.config.n_classes,
    {
        let ghost sc = self.config.scores_of(self@, x@);
        let patches: Vec<Vec<u64>> = self.pack_all_patches(x);
        let mut scores: Vec<i32> = vec![0i32; self.config.n_classes];
        self.class_scores_from_patches(&patches, &mut scores, Ghost(x@));
        let mut best: usize = 0;
        let mut c: usize = 1;
        while c < self.config.n_classes
            invariant
                self.wf(),
                sc.len() == self.config.n_classes,
                scores@.len() == self.config.n_classes,
                forall|k: int| 0 <= k < self.config.n_classes ==> #[trigger] scores@[k] == sc[k],
                1 <= c <= self.config.n_classes,
                best < c,
                forall|k: int| 0 <= k < c ==> #[trigger] sc[k] <= sc[best as int],
                forall|k: int| best < k < c ==> #[trigger] sc[k] < sc[best as int],
            decreases self.config.n_classes - c,
        {
            proof {
                assert(scores@[c as int] == sc[c as int]);
                assert(scores@[best as int] == sc[best as int]);
            }
            if scores[c] >= scores[best] {
                best = c;
            }
            c = c + 1;
        }
        proof {
            assert(is_last_max(sc, best as int));
            lemma_last_max(sc, best as int);
        }
        best
    }

    /// Writes the score of each class for a sample: its vote sum, clamped to the threshold.
    pub fn scores(&self, x: &[u8], out: &mut [i32])
        requires
            self.wf(),
            x@.len() == self.config.grid.area(),
            old(out)@.len() == self.config.n_classes,
        ensures
            final(out)@.len() == self.config.n_classes,
            forall|c: int|
                0 <= c < self.config.n_classes ==> #[trigger] final(out)@[c] == self.config.scores_of(
                    self@,
                    x@,
                )[c],
    {
        let patches: Vec<Vec<u64>> = self.pack_all_patches(x);
        self.class_scores_from_patches(&patches, out, Ghost(x@));
    }

    /// The classes predicted for samples.
    pub fn predict_batch(&self, xs: &[&[u8]]) -> (r: Vec<usize>)
        requires
            self.wf(),
            forall|i: int| 0 <= i < xs@.len() ==> (#[trigger] xs@[i])@.len() == self.config.grid.area(),
        ensures
            r@.len() == xs@.len(),
            forall|i: int|
                0 <= i < xs@.len() ==> #[trigger] r@[i] == self.config.predict_of(self@, xs@[i]@),
    {
        let mut r: Vec<usize> = Vec::with_capacity(xs.len());
        let mut i: usize = 0;
        while i < xs.len()
            invariant
                self.wf(),
                forall|i: int|
                    0 <= i < xs@.len() ==> (#[trigger] xs@[i])@.len() == self.config.grid.area(),
                i <= xs@.len(),
                r@.len() == i,
                forall|k: int|
                    0 <= k < i ==> #[trigger] r@[k] == self.config.predict_of(self@, xs@[k]@),
            decreases xs@.len() - i,
        {
            r.push(self.predict(xs[i]));
            i = i + 1;
        }
        r
    }

    /// Applies feedback on the patches of one sample to class `c`.
    fn update_class(
        &mut self,
        c: usize,
        target: bool,
        patches: &Vec<Vec<u64>>,
        active: &[u64],
        Ghost(bits): Ghost<Seq<Seq<bool>>>,
    )
        requires
            old(self).wf(),
            c < old(self).config.n_classes,
            packs(patches@, bits, old(self).config.train.n()),
            patches@.len() >= 1,
            active@.len() == old(self).config.train.geom.words,
        ensures
            final(self).wf(),
            final(self).config == old(self).config,
            final(self).rng == old(self).rng,
            final(self).literal_rng == old(self).literal_rng,
            final(self)@.classes == old(self)@.classes.update(
                c as int,
                old(self).config.updated(
                    old(self)@.classes[c as int],
                    target,
                    bits,
                    bits_of(active@, old(self).config.train.n()),
                ),
            ),
    {
        let ghost before = *self;
        let v: i32 = self.classes[c].patch_sum_train(
            &self.config.train.geom,
            patches,
            active,
            self.config.train.threshold,
            Ghost(bits),
        );
        let t: i64 = self.config.train.threshold as i64;
        let u: i64 = if target {
            t - v as i64
        } else {
            t + v as i64
        };
        let gate: u64 = plain_gate(u as u64, (2 * t) as u64);
        let train: &TrainConfig = &self.config.train;
        let bank: &mut ClassBank = &mut self.classes[c];
        bank.update_patches(
            &train.geom,
            &train.rules,
            &train.dig_inv,
            &train.dig_keep,
            target,
            gate,
            patches,
            active,
            Ghost(bits),
        );
        proof {
            assert(self@.classes =~= before@.classes.update(c as int, self.classes@[c as int]@));
            assert(self.classes@[c as int]@.clauses.len() == before.classes@[c as int]@.clauses.len());
        }
    }

    /// Trains on one sample with label `y`.
    pub fn fit_one(&mut self, x: &[u8], y: usize)
        requires
            old(self).wf(),
            x@.len() == old(self).config.grid.area(),
            y < old(self).config.n_classes,
        ensures
            final(self).wf(),
            final(self).config == old(self).config,
            final(self)@ == old(self).config.fit_one_of(old(self)@, x@, y as int),
    {
        let ghost before = *self;
        let patches: Vec<Vec<u64>> = self.pack_all_patches(x);
        let ghost bits = self.config.grid.patch_bits(x@);
        let neg: usize = sample_other(&mut self.rng, self.config.n_classes, y);
        let active: Vec<u64> = self.config.train.draw_active(&mut self.literal_rng);
        proof {
            assert(self@.classes == before@.classes);
        }
        self.update_class(y, true, &patches, &active, Ghost(bits));
        self.update_class(neg, false, &patches, &active, Ghost(bits));
        proof {
            let want = before.config.fit_one_of(before@, x@, y as int);
            assert(self@.classes =~= want.classes);
        }
    }

    /// Trains for one epoch: every sample once, in a random order.
    pub fn fit_epoch(&mut self, xs: &[&[u8]], ys: &[usize])
        requires
            old(self).wf(),
            forall|i: int|
                0 <= i < xs@.len() ==> (#[trigger] xs@[i])@.len() == old(self).config.grid.area(),
            ys@.len() == xs@.len(),
            forall|i: int| 0 <= i < ys@.len() ==> #[trigger] ys@[i] < old(self).config.n_classes,
        ensures
            final(self).wf(),
            final(self).config == old(self).config,
            final(self)@ == old(self).config.fit_epoch_of(old(self)@, raw_rows(xs@), ys@),
    {
        let ghost before = *self;
        let order: Vec<usize> = epoch_order(&mut self.rng, xs.len());
        let ghost start = self@;
        let ghost rows = raw_rows(xs@);
        proof {
            assert(start == (MachineModel {
                rng: rng_skip(before@.rng, shuffle_draws(xs@.len())),
                ..before@
            }));
        }
        let mut k: usize = 0;
        while k < order.len()
            invariant
                k <= order@.len(),
                order@.len() == xs@.len(),
                self.wf(),
                self.config == before.config,
                forall|i: int|
                    0 <= i < xs@.len() ==> (#[trigger] xs@[i])@.len() == before.config.grid.area(),
                rows == raw_rows(xs@),
                ys@.len() == xs@.len(),
                forall|i: int| 0 <= i < ys@.len() ==> #[trigger] ys@[i] < before.config.n_classes,
                forall|i: int| 0 <= i < order@.len() ==> #[trigger] order@[i] < xs@.len(),
                self@ == before.config.fit_order_of(start, rows, ys@, order@, k as nat),
            decreases order@.len() - k,
        {
            let i: usize = order[k];
            self.fit_one(xs[i], ys[i]);
            k = k + 1;
        }
    }

    /// How many samples are predicted correctly, and how many there are.
    pub fn accuracy(&self, xs: &[&[u8]], ys: &[usize]) -> (r: (usize, usize))
        requires
            self.wf(),
            forall|i: int| 0 <= i < xs@.len() ==> (#[trigger] xs@[i])@.len() == self.config.grid.area(),
            ys@.len() == xs@.len(),
        ensures
            r.0 == count_correct(
                self.config.predictions_of(self@, raw_rows(xs@)),
                ys@,
                xs@.len(),
            ),
            r.1 == xs@.len(),
    {
        let ghost ps = self.config.predictions_of(self@, raw_rows(xs@));
        let mut correct: usize = 0;
        let mut i: usize = 0;
        while i < xs.len()
            invariant
                self.wf(),
                forall|i: int|
                    0 <= i < xs@.len() ==> (#[trigger] xs@[i])@.len() == self.config.grid.area(),
                ys@.len() == xs@.len(),
                ps == self.config.predictions_of(self@, raw_rows(xs@)),
                i <= xs@.len(),
                correct <= i,
                correct == count_correct(ps, ys@, i as nat),
            decreases xs@.len() - i,
        {
            if self.predict(xs[i]) == ys[i] {
                correct = correct + 1;
            }
            i = i + 1;
        }
        (correct, xs.len())
    }

    /// The included literals of a clause, as pairs of a feature of the patch and whether it is
    /// negated.
    pub fn clause_rule(&self, class: usize, clause: usize) -> (r: Vec<(usize, bool)>)
        requires
            self.wf(),
            class < self.config.n_classes,
            clause < self.config.clauses_per_class,
        ensures
            r@ == rule_of(
                self@.classes[class as int].clauses[clause as int].auto.ta,
                self.config.train.geom.half,
                self.config.grid.size(),
                self.config.train.n(),
            ),
    {
        proof {
            self.config.grid.lemma_size();
            let c = self.classes@[class as int];
            assert(c.clauses@[clause as int].wf(&self.config.train.geom, 1, self.config.train.threshold));
        }
        self.classes[class].clauses[clause].auto.rule(
            &self.config.train.geom,
            self.config.grid.patch_rows * self.config.grid.patch_cols,
        )
    }

    /// Whether a clause speaks for its class.
    pub fn clause_is_positive(&self, clause: usize) -> (r: bool)
        ensures
            r == (clause % 2 == 0),
    {
        clause % 2 == 0
    }
}

} // verus!
