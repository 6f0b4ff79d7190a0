//! A machine in the care of a device: what is handed over for an epoch or a batch, and what the
//! machine is when the device's state is read back.
use crate::clause_bank::feedback::ClassModel;
use crate::dyadic::is_positive;
use crate::encoder::EncodedBatch;
use crate::gpu::buffers::{
    class_streams, halves_of, lemma_same_image, lies_in_memory, literal_bytes, longs_as_ints,
    machine_counters, machine_streams, machine_weights, same_image, same_marks, shaped,
    signed_as_ints, widened, words_as_ints, DeviceBytes, DeviceImage, Dims, GpuConfig, GpuObstacle,
};
use crate::gpu::dispatch::{
    blocks, blocks_from, groups, infer_params, is_slot, sample_params, slot, step_params, CHUNK,
    MAX_DISPATCH, PARAM_STRIDE, RANK_GROUP,
};
use crate::gpu::plan::{shard_negs, step_negs, step_rng, DpPlan, GpuEpochPlan};
use crate::gpu::replicas::{hands_replica, split_of, Reading, ReplicaWork};
use crate::models::classification::data_parallel::{
    merged_of, seeds_of, share_len, state_models,
};
use crate::models::classification::vanilla_classifier::{
    MachineConfig, MachineModel, MachineState, TsetlinMachine,
};
use crate::rng::{rng_skip, rng_word};
use crate::sampling::{epoch_order_of, lemma_epoch_order_permutes, rejections, shuffle_draws};
use vstd::prelude::*;

verus! {

/// A machine, and whether a device trains it.
#[derive(Clone, Debug)]
pub struct Session {
    pub host: TsetlinMachine,
    /// The device holds the machine; else it is too large and stays on the host.
    pub resident: bool,
    /// The device holds updates that the host does not have yet.
    pub dirty: bool,
    /// The device was told that literals are left out.
    pub has_lit_active: bool,
    /// How many replicas train an epoch of a machine that asks for parallel training; chosen by
    /// what fits where it is not set.
    pub replicas: Option<usize>,
    /// How many bytes a binding of the device holds.
    pub room: u64,
}

/// The largest number of replicas that is chosen where none is set.
pub const AUTO_REPLICAS: usize = 16;

/// What a device needs for one epoch.
pub struct DeviceEpoch {
    /// The configuration, where it has to be written again.
    pub config: Option<Vec<u8>>,
    /// The packed literals of all samples.
    pub literals: Vec<u8>,
    /// The packed active literals of all steps, where literals are left out.
    pub masks: Option<Vec<u8>>,
    /// The parameters of all steps.
    pub params: Vec<u8>,
    /// The steps of every submission, as the first and their number.
    pub blocks: Vec<(usize, usize)>,
}

/// What is left to do for one epoch.
pub enum EpochWork {
    /// There are no samples.
    Nothing,
    /// The host has trained the epoch.
    OnHost,
    /// The device has to train it.
    OnDevice { epoch: DeviceEpoch },
    /// The device has to train replicas, each on its share; the literals are those of all samples.
    OnReplicas { literals: Vec<u8>, replicas: Vec<ReplicaWork> },
}

/// One dispatch of inference: its samples, and how many groups rank them.
pub struct PredictBlock {
    pub start: usize,
    pub len: usize,
    pub groups: usize,
    pub params: Vec<u8>,
}

/// What is left to do for the predictions of a batch.
pub enum PredictWork {
    /// The predictions.
    Done { classes: Vec<usize> },
    /// The device has to score and rank the samples.
    OnDevice { literals: Vec<u8>, blocks: Vec<PredictBlock> },
}

impl Session {
    pub open spec fn wf(&self) -> bool {
        &&& self.host.wf()
        &&& !self.host.config.train.rules.type_iii
        &&& !is_positive(self.host.config.train.rules.drop)
        &&& 2 * self.host.config.train.threshold + 1 <= i32::MAX
        &&& self.counter_bytes() <= usize::MAX
        &&& self.included_bytes() <= usize::MAX
    }

    /// The bytes that the counters of the machine take on a device.
    pub open spec fn counter_bytes(&self) -> int {
        self.host.config.n_classes * self.host.config.clauses_per_class
            * self.host.config.train.geom.n_literals * 4
    }

    /// The bytes that the included literals of the machine take on a device.
    pub open spec fn included_bytes(&self) -> int {
        self.host.config.n_classes * self.host.config.clauses_per_class * (2
            * self.host.config.train.geom.words) * 4
    }

    /// How many replicas train an epoch of `n` samples: one, which is the machine itself, unless the
    /// machine asks for parallel training; else as many as are set, or chosen, at most one per
    /// sample, and no more than fit.
    pub open spec fn replica_count(&self, n: int) -> int {
        let wanted = match self.replicas {
            Some(r) => r as int,
            None => AUTO_REPLICAS as int,
        };
        let few = if wanted <= n {
            wanted
        } else {
            n
        };
        let counters = self.room as int / self.counter_bytes();
        let included = self.room as int / self.included_bytes();
        let fit = if counters <= included {
            counters
        } else {
            included
        };
        let most = if few <= fit {
            few
        } else {
            fit
        };
        if self.host.config.data_parallel && most > 1 {
            most
        } else {
            1
        }
    }

    /// How many replicas train an epoch of `n` samples.
    pub fn count_replicas(&self, n: usize) -> (r: usize)
        requires
            self.wf(),
        ensures
            r == self.replica_count(n as int),
            r >= 1,
            r > 1 ==> r <= n,
    {
        if !self.host.config.data_parallel {
            return 1;
        }
        let wanted: usize = match self.replicas {
            Some(r) => r,
            None => AUTO_REPLICAS,
        };
        let few: usize = if wanted <= n {
            wanted
        } else {
            n
        };
        let dims: Dims = Dims::from(&self.host);
        proof {
            let c = dims.n_clauses as int;
            assert(c >= 4) by (nonlinear_arith)
                requires
                    c == self.host.config.n_classes * self.host.config.clauses_per_class,
                    self.host.config.n_classes >= 2,
                    self.host.config.clauses_per_class >= 2,
            ;
            assert(c * dims.n_literals >= 1) by (nonlinear_arith)
                requires
                    c >= 4,
                    dims.n_literals >= 1,
            ;
            assert(c * dims.w32 >= 1) by (nonlinear_arith)
                requires
                    c >= 4,
                    dims.w32 >= 1,
            ;
        }
        let counters: u64 = self.room / (dims.n_clauses * dims.n_literals * 4) as u64;
        let included: u64 = self.room / (dims.n_clauses * dims.w32 * 4) as u64;
        let fit: u64 = if counters <= included {
            counters
        } else {
            included
        };
        let most: usize = if few as u64 <= fit {
            few
        } else {
            fit as usize
        };
        if most > 1 {
            most
        } else {
            1
        }
    }

    /// Sets how many replicas train the epochs that follow, or leaves it to what fits.
    pub fn set_replicas(&mut self, replicas: Option<usize>)
        requires
            old(self).wf(),
        ensures
            final(self).wf(),
            *final(self) == (Session { replicas, ..*old(self) }),
    {
        self.replicas = replicas;
    }

    /// Literals are left out in training.
    pub open spec fn leaves_out(&self) -> bool {
        is_positive(self.host.config.train.literal_drop)
    }

    /// Takes a machine to a device whose bindings hold at most `max_binding` bytes.
    pub fn open(host: TsetlinMachine, max_binding: u64) -> (r: Result<Self, GpuObstacle>)
        requires
            host.wf(),
            2 * host.config.train.threshold + 1 <= i32::MAX,
            host.config.n_classes * host.config.clauses_per_class * host.config.train.geom.n_literals
                * 4 <= usize::MAX,
            host.config.n_classes * host.config.clauses_per_class * (2
                * host.config.train.geom.words) * 4 <= usize::MAX,
        ensures
            match host.placement(max_binding) {
                Err(e) => r == Err::<Self, GpuObstacle>(e),
                Ok(fits) => r matches Ok(s) && s.wf() && s.host == host && s.resident == fits && !s.dirty
                    && s.has_lit_active == s.leaves_out() && s.replicas is None && s.room == max_binding,
            },
    {
        match host.goes_to_device(max_binding) {
            Ok(resident) => {
                let has_lit_active: bool = host.config.train.literal_drop.positive();
                Ok(Session { host, resident, dirty: false, has_lit_active, replicas: None, room: max_binding })
            },
            Err(e) => Err(e),
        }
    }

    /// The machine after the decisions of an epoch were drawn: its streams have advanced, and its
    /// clauses are as before.
    pub open spec fn planned(&self, ys: Seq<usize>) -> MachineModel {
        planned_of(&self.host.config, self.host@, ys)
    }

    /// The contents of a buffer tell the device the configuration of the machine.
    pub open spec fn tells(&self, b: Seq<u8>) -> bool {
        exists|c: GpuConfig|
            lies_in_memory(b, words_as_ints(#[trigger] c.words_of()), 4) && self.host.configures(
                c,
                self.leaves_out(),
                1,
            )
    }

    /// The configuration, where the device was told another one.
    fn new_config(&self) -> (r: Option<Vec<u8>>)
        requires
            self.wf(),
        ensures
            match r {
                Some(b) => self.has_lit_active != self.leaves_out() && self.tells(b@),
                None => self.has_lit_active == self.leaves_out(),
            },
    {
        let leaves_out: bool = self.host.config.train.literal_drop.positive();
        if leaves_out == self.has_lit_active {
            return None;
        }
        let image: DeviceImage = self.host.device_image(leaves_out, 1);
        let bytes: DeviceBytes = image.to_bytes();
        Some(bytes.config)
    }

    /// What is handed to the device for an epoch over the samples `lits`, of which there are `n`.
    pub open spec fn hands_over(&self, lits: Seq<u64>, ys: Seq<usize>, n: nat, e: DeviceEpoch) -> bool {
        let cfg = self.host.config;
        let order = epoch_order_of(self.host@.rng, n);
        let negs = step_negs(rng_skip(self.host@.rng, shuffle_draws(n)), cfg.n_classes as int, ys, order);
        &&& match e.config {
            Some(b) => self.has_lit_active != self.leaves_out() && self.tells(b@),
            None => self.has_lit_active == self.leaves_out(),
        }
        &&& lies_in_memory(e.literals@, longs_as_ints(lits), 8)
        &&& match e.masks {
            Some(b) => self.leaves_out() && lies_in_memory(
                b@,
                longs_as_ints(cfg.train.step_masks(self.host@.literal_rng, n)),
                8,
            ),
            None => !self.leaves_out(),
        }
        &&& e.params@.len() == n * PARAM_STRIDE
        &&& forall|k: int|
            0 <= k < n ==> is_slot(#[trigger] slot(e.params@, k), step_params(order, ys, negs, k))
        &&& e.blocks@ == blocks_from(n as int, CHUNK as int, 0)
    }

    /// Begins an epoch. Where the device holds the machine, the decisions of the epoch are drawn, and
    /// what the device needs is returned, for the machine or for its replicas; else the host trains,
    /// with `threads` threads. Replicas begin with what the host has learned.
    pub fn begin_epoch(&mut self, batch: &EncodedBatch, ys: &[usize], threads: usize) -> (r: EpochWork)
        requires
            old(self).wf(),
            old(self).host.fits(batch),
            ys@.len() == batch.n,
            forall|i: int| 0 <= i < ys@.len() ==> #[trigger] ys@[i] < old(self).host.config.n_classes,
            batch.n * PARAM_STRIDE <= usize::MAX,
            2 * (batch.n * batch.words) <= usize::MAX,
            old(self).resident && old(self).replica_count(batch.n as int) > 1 ==> !old(self).dirty,
        ensures
            final(self).wf(),
            final(self).host.config == old(self).host.config,
            final(self).host.hint_shown == old(self).host.hint_shown,
            final(self).resident == old(self).resident,
            final(self).replicas == old(self).replicas,
            final(self).room == old(self).room,
            match r {
                EpochWork::Nothing => batch.n == 0 && *final(self) == *old(self),
                EpochWork::OnHost => {
                    &&& batch.n > 0 && !old(self).resident
                    &&& final(self).host@ == old(self).host.threads_epoch_of(
                        old(self).host.config.batch_bits(batch),
                        ys@,
                        threads as int,
                    )
                    &&& final(self).dirty == old(self).dirty
                    &&& final(self).has_lit_active == old(self).has_lit_active
                },
                EpochWork::OnDevice { epoch } => {
                    &&& batch.n > 0 && old(self).resident && old(self).replica_count(batch.n as int) == 1
                    &&& old(self).hands_over(batch.data@, ys@, batch.n as nat, epoch)
                    &&& final(self).host@ == old(self).planned(ys@)
                    &&& final(self).dirty
                    &&& final(self).has_lit_active == old(self).leaves_out()
                },
                EpochWork::OnReplicas { literals, replicas } => {
                    let m = old(self).host@;
                    let n = batch.n as nat;
                    let k = old(self).replica_count(n as int) as nat;
                    &&& n > 0 && old(self).resident && k > 1
                    &&& lies_in_memory(literals@, longs_as_ints(batch.data@), 8)
                    &&& replicas@.len() == k
                    &&& forall|i: int|
                        0 <= i < k ==> hands_replica(
                            old(self).host.config,
                            split_of(m, n, k),
                            ys@,
                            epoch_order_of(m.rng, n),
                            seeds_of(rng_skip(m.rng, shuffle_draws(n)), k),
                            i,
                            #[trigger] replicas@[i],
                        )
                    &&& final(self).host@ == split_of(m, n, k)
                    &&& !final(self).dirty
                    &&& final(self).has_lit_active == old(self).has_lit_active
                },
            },
    {
        let n: usize = batch.n;
        if n == 0 {
            return EpochWork::Nothing;
        }
        if !self.resident {
            self.host.fit_epoch_threads(batch, ys, threads);
            return EpochWork::OnHost;
        }
        let k: usize = self.count_replicas(n);
        if k > 1 {
            let replicas: Vec<ReplicaWork> = self.begin_replicas(n, ys, k);
            return EpochWork::OnReplicas { literals: literal_bytes(&batch.data), replicas };
        }
        let ghost before = *self;
        let leaves_out: bool = self.host.config.train.literal_drop.positive();
        let config: Option<Vec<u8>> = self.new_config();
        let plan: GpuEpochPlan = self.host.gpu_epoch_plan(n, ys);
        proof {
            lemma_epoch_order_permutes(before.host@.rng, n as nat);
        }
        let masks: Option<Vec<u8>> = if leaves_out {
            Some(literal_bytes(&plan.lit_active))
        } else {
            None
        };
        let epoch: DeviceEpoch = DeviceEpoch {
            config,
            literals: literal_bytes(&batch.data),
            masks,
            params: sample_params(&plan.order, ys, &plan.negs),
            blocks: blocks(n, CHUNK),
        };
        self.dirty = true;
        self.has_lit_active = leaves_out;
        proof {
            assert(before.hands_over(batch.data@, ys@, n as nat, epoch));
            assert(self.host@ == before.planned(ys@));
        }
        EpochWork::OnDevice { epoch }
    }

    /// Draws the decisions of an epoch that `k` replicas train, and returns what the device needs for
    /// each of them.
    fn begin_replicas(&mut self, n: usize, ys: &[usize], k: usize) -> (r: Vec<ReplicaWork>)
        requires
            old(self).wf(),
            ys@.len() == n,
            1 <= k <= n,
            n * PARAM_STRIDE <= usize::MAX,
            2 * (n * old(self).host.config.train.geom.words) <= usize::MAX,
        ensures
            final(self).wf(),
            final(self).host.config == old(self).host.config,
            final(self).host.hint_shown == old(self).host.hint_shown,
            *final(self) == (Session { host: final(self).host, ..*old(self) }),
            final(self).host@ == split_of(old(self).host@, n as nat, k as nat),
            r@.len() == k,
            forall|i: int|
                0 <= i < k ==> hands_replica(
                    old(self).host.config,
                    split_of(old(self).host@, n as nat, k as nat),
                    ys@,
                    epoch_order_of(old(self).host@.rng, n as nat),
                    seeds_of(rng_skip(old(self).host@.rng, shuffle_draws(n as nat)), k as nat),
                    i,
                    #[trigger] r@[i],
                ),
    {
        let ghost before = *self;
        let words: usize = self.host.config.train.geom.words;
        proof {
            assert((n + k) * words <= 2 * (n * words)) by (nonlinear_arith)
                requires
                    k <= n,
                    words >= 0,
            ;
        }
        let plan: DpPlan = self.host.dp_epoch_plan(n, ys, k);
        let ghost split = self.host;
        proof {
            lemma_epoch_order_permutes(before.host@.rng, n as nat);
        }
        let mut r: Vec<ReplicaWork> = Vec::with_capacity(k);
        let mut i: usize = 0;
        while i < k
            invariant
                i <= k,
                k == plan.seeds@.len(),
                self.host == split,
                *self == (Session { host: split, ..before }),
                split.wf(),
                2 * split.config.train.threshold + 1 <= i32::MAX,
                plan.shard_len == share_len(plan.order@.len() as int, k as int),
                plan.negs@ == shard_negs(
                    plan.seeds@,
                    split.config.n_classes as int,
                    ys@,
                    plan.order@,
                    k as nat,
                ),
                plan.lit_active@ == split.config.train.shard_masks(plan.seeds@, plan.order@, k as nat),
                forall|q: int| 0 <= q < plan.order@.len() ==> #[trigger] plan.order@[q] < ys@.len(),
                plan.order@.len() * PARAM_STRIDE <= usize::MAX,
                r@.len() == i,
                forall|q: int|
                    0 <= q < i ==> hands_replica(
                        split.config,
                        split@,
                        ys@,
                        plan.order@,
                        plan.seeds@,
                        q,
                        #[trigger] r@[q],
                    ),
            decreases k - i,
        {
            let w: ReplicaWork = self.host.replica_work(&plan, ys, i);
            r.push(w);
            i = i + 1;
        }
        r
    }

    /// Merges what was read back of the replicas of an epoch, unless it is out of range: counters and
    /// weights of the machine become their means.
    pub fn merge_replicas(&mut self, readings: &Vec<Reading>) -> (r: bool)
        requires
            old(self).wf(),
            readings@.len() >= 1,
            forall|i: int| 0 <= i < readings@.len() ==> (#[trigger] readings@[i]).sized(&old(self).host.config),
        ensures
            final(self).wf(),
            final(self).host.config == old(self).host.config,
            final(self).host.hint_shown == old(self).host.hint_shown,
            r == (forall|i: int|
                0 <= i < readings@.len() ==> MachineState::device_fits(
                    &old(self).host.config,
                    (#[trigger] readings@[i]).ta@,
                    readings@[i].weights@,
                )),
            !r ==> *final(self) == *old(self),
            r ==> {
                &&& *final(self) == (Session { host: final(self).host, dirty: false, ..*old(self) })
                &&& exists|reps: Seq<MachineModel>|
                    read_back(&old(self).host.config, old(self).host@, readings@, reps)
                        && final(self).host@ == #[trigger] merged_of(
                        old(self).host@,
                        reps,
                        old(self).host.config.train.threshold as int,
                    )
            },
    {
        let ghost before = *self;
        let mut reps: Vec<MachineState> = Vec::with_capacity(readings.len());
        let mut i: usize = 0;
        while i < readings.len()
            invariant
                i <= readings@.len(),
                *self == before,
                before.wf(),
                forall|q: int| 0 <= q < readings@.len() ==> (#[trigger] readings@[q]).sized(&before.host.config),
                reps@.len() == i,
                forall|q: int| 0 <= q < i ==> (#[trigger] reps@[q]).wf(&before.host.config),
                forall|q: int| 0 <= q < i ==> readings@[q].holds((#[trigger] reps@[q])@),
                forall|q: int|
                    0 <= q < i ==> same_marks(
                        (#[trigger] reps@[q])@.classes,
                        before.host@.classes,
                        before.host.config.n_classes as nat,
                        before.host.config.clauses_per_class as nat,
                    ),
                forall|q: int|
                    0 <= q < i ==> MachineState::device_fits(
                        &before.host.config,
                        (#[trigger] readings@[q]).ta@,
                        readings@[q].weights@,
                    ),
            decreases readings@.len() - i,
        {
            let rd: &Reading = &readings[i];
            proof {
                assert(readings@[i as int].sized(&before.host.config));
            }
            match self.host.state.downloaded(&self.host.config, &rd.ta, &rd.weights, &rd.rngs, &rd.class_rngs) {
                Some(state) => {
                    proof {
                        assert(state.device_keeps(&before.host.state));
                        assert(same_marks(
                            state@.classes,
                            before.host@.classes,
                            before.host.config.n_classes as nat,
                            before.host.config.clauses_per_class as nat,
                        ));
                    }
                    reps.push(state);
                },
                None => return false,
            }
            i = i + 1;
        }
        self.host.state.merge(&self.host.config, &reps);
        self.dirty = false;
        proof {
            let ms = state_models(reps@);
            assert forall|q: int| 0 <= q < ms.len() implies shaped(
                (#[trigger] ms[q]).classes,
                before.host.config.n_classes as nat,
                before.host.config.clauses_per_class as nat,
                before.host.config.train.geom.n_literals as nat,
            ) && same_marks(
                ms[q].classes,
                before.host@.classes,
                before.host.config.n_classes as nat,
                before.host.config.clauses_per_class as nat,
            ) && readings@[q].holds(ms[q]) by {
                assert(reps@[q].wf(&before.host.config));
                reps@[q].lemma_shaped(&before.host.config);
            }
            assert(read_back(&before.host.config, before.host@, readings@, ms));
            assert(self.host@ == merged_of(before.host@, ms, before.host.config.train.threshold as int));
        }
        true
    }

    /// Takes over what the device holds, unless it is out of range.
    pub fn sync(&mut self, ta: &[u32], weights: &[u32], rngs: &[u32], class_rngs: &[u32]) -> (r: bool)
        requires
            old(self).wf(),
            ta@.len() == old(self).host.config.n_classes * old(self).host.config.clauses_per_class
                * old(self).host.config.train.geom.n_literals,
            weights@.len() == old(self).host.config.n_classes * old(self).host.config.clauses_per_class,
            rngs@.len() == 2 * (old(self).host.config.n_classes
                * old(self).host.config.clauses_per_class),
            class_rngs@.len() == 2 * old(self).host.config.n_classes,
        ensures
            final(self).wf(),
            final(self).host.config == old(self).host.config,
            final(self).host.hint_shown == old(self).host.hint_shown,
            final(self).resident == old(self).resident,
            final(self).has_lit_active == old(self).has_lit_active,
            final(self).replicas == old(self).replicas,
            final(self).room == old(self).room,
            r == MachineState::device_fits(&old(self).host.config, ta@, weights@),
            !r ==> *final(self) == *old(self),
            r ==> {
                let ms = final(self).host@.classes;
                &&& !final(self).dirty
                &&& final(self).host.state.device_keeps(&old(self).host.state)
                &&& widened(machine_counters(ms, ms.len())) == ta@
                &&& signed_as_ints(machine_weights(ms, ms.len())) == words_as_ints(weights@)
                &&& halves_of(machine_streams(ms, ms.len()), weights@.len()) == rngs@
                &&& halves_of(class_streams(ms), ms.len()) == class_rngs@
            },
    {
        match self.host.state.downloaded(&self.host.config, ta, weights, rngs, class_rngs) {
            Some(state) => {
                self.host.state = state;
                self.dirty = false;
                true
            },
            None => false,
        }
    }

    /// Begins the predictions of a batch.
    pub fn begin_predict(&self, batch: &EncodedBatch) -> (r: PredictWork)
        requires
            self.wf(),
            self.host.fits(batch),
        ensures
            match r {
                PredictWork::Done { classes } => {
                    &&& batch.n == 0 || !self.resident
                    &&& classes@.len() == batch.n
                    &&& forall|i: int|
                        0 <= i < batch.n ==> #[trigger] classes@[i] == self.host.config.predict_of(
                            self.host@,
                            self.host.config.row_bits(batch, i),
                        )
                },
                PredictWork::OnDevice { literals, blocks } => {
                    let cut = blocks_from(batch.n as int, MAX_DISPATCH as int, 0);
                    &&& batch.n > 0 && self.resident
                    &&& lies_in_memory(literals@, longs_as_ints(batch.data@), 8)
                    &&& blocks@.len() == cut.len()
                    &&& forall|i: int|
                        0 <= i < cut.len() ==> is_predict_block(#[trigger] blocks@[i], cut[i], batch.n)
                },
            },
    {
        let n: usize = batch.n;
        if n == 0 {
            return PredictWork::Done { classes: Vec::new() };
        }
        if !self.resident {
            return PredictWork::Done { classes: self.host.predict_batch(batch) };
        }
        let cut: Vec<(usize, usize)> = blocks(n, MAX_DISPATCH);
        let mut out: Vec<PredictBlock> = Vec::with_capacity(cut.len());
        let mut i: usize = 0;
        while i < cut.len()
            invariant
                i <= cut@.len(),
                cut@ == blocks_from(n as int, MAX_DISPATCH as int, 0),
                out@.len() == i,
                forall|k: int| 0 <= k < i ==> is_predict_block(#[trigger] out@[k], cut@[k], n),
            decreases cut@.len() - i,
        {
            let (start, len) = cut[i];
            proof {
                lemma_block_len(n as int, MAX_DISPATCH as int, 0, i as int);
            }
            out.push(
                PredictBlock { start, len, groups: groups(len, RANK_GROUP), params: infer_params(n, start) },
            );
            i = i + 1;
        }
        PredictWork::OnDevice { literals: literal_bytes(&batch.data), blocks: out }
    }
}

/// Replicas of a machine are what was read back, and have the marks of the machine.
pub open spec fn read_back(cfg: &MachineConfig, m: MachineModel, readings: Seq<Reading>, reps: Seq<MachineModel>) -> bool {
    &&& reps.len() == readings.len()
    &&& forall|i: int|
        0 <= i < reps.len() ==> {
            &&& shaped(
                (#[trigger] reps[i]).classes,
                cfg.n_classes as nat,
                cfg.clauses_per_class as nat,
                cfg.train.geom.n_literals as nat,
            )
            &&& same_marks(
                reps[i].classes,
                m.classes,
                cfg.n_classes as nat,
                cfg.clauses_per_class as nat,
            )
            &&& readings[i].holds(reps[i])
        }
}

/// A dispatch of inference covers the samples of a block.
pub open spec fn is_predict_block(b: PredictBlock, cut: (usize, usize), n: usize) -> bool {
    &&& b.start == cut.0
    &&& b.len == cut.1
    &&& b.groups == (cut.1 + RANK_GROUP - 1) / (RANK_GROUP as int)
    &&& lies_in_memory(b.params@, words_as_ints(seq![n as u32, cut.0 as u32]), 4)
}

proof fn lemma_block_len(n: int, size: int, from: int, i: int)
    requires
        0 <= from,
        1 <= size <= usize::MAX,
        0 <= n <= usize::MAX,
        0 <= i < blocks_from(n, size, from).len(),
    ensures
        blocks_from(n, size, from)[i].1 <= size,
    decreases i,
{
    if i > 0 {
        let len = if n - from < size {
            n - from
        } else {
            size
        };
        lemma_block_len(n, size, from + len, i - 1);
    }
}

/// A machine after the decisions of an epoch were drawn.
pub open spec fn planned_of(cfg: &MachineConfig, m: MachineModel, ys: Seq<usize>) -> MachineModel {
    let n = ys.len();
    let s = rng_skip(m.rng, shuffle_draws(n));
    MachineModel {
        rng: step_rng(s, cfg.n_classes as int, ys, epoch_order_of(m.rng, n), n),
        literal_rng: cfg.train.step_lit(m.literal_rng, n),
        ..m
    }
}

/// The clauses of a machine after a device has replayed an epoch.
pub open spec fn replayed_epoch(cfg: &MachineConfig, m: MachineModel, xs: Seq<Seq<bool>>, ys: Seq<usize>) -> Seq<
    ClassModel,
> {
    let n = ys.len();
    let order = epoch_order_of(m.rng, n);
    cfg.replayed(
        m.classes,
        xs,
        ys,
        order,
        step_negs(rng_skip(m.rng, shuffle_draws(n)), cfg.n_classes as int, ys, order),
        Seq::new(n, |k: int| cfg.train.active_of(cfg.train.step_lit(m.literal_rng, k as nat))),
        n,
    )
}

/// A class has the clauses of another, except for what a device holds of them.
pub open spec fn same_frame(a: ClassModel, b: ClassModel) -> bool {
    &&& a.clauses.len() == b.clauses.len()
    &&& forall|j: int|
        0 <= j < a.clauses.len() ==> {
            let x = (#[trigger] a.clauses[j]).auto;
            let y = b.clauses[j].auto;
            x.ta.len() == y.ta.len() && x.ind == y.ind && x.cat == y.cat
        }
}

proof fn lemma_update_frame(cfg: &MachineConfig, m: ClassModel, c: int, target: bool, x: Seq<bool>, act: Seq<bool>)
    requires
        !cfg.train.rules.type_iii,
    ensures
        same_frame(cfg.updated(m, c, target, x, act), m),
{
    let u = cfg.updated(m, c, target, x, act);
    assert forall|j: int| 0 <= j < u.clauses.len() implies ({
        let p = (#[trigger] u.clauses[j]).auto;
        let q = m.clauses[j].auto;
        p.ta.len() == q.ta.len() && p.ind == q.ind && p.cat == q.cat
    }) by {}
}

/// All classes have the clauses of others, except for what a device holds of them.
pub open spec fn same_frames(a: Seq<ClassModel>, b: Seq<ClassModel>) -> bool {
    a.len() == b.len() && forall|c: int| 0 <= c < a.len() ==> same_frame(#[trigger] a[c], b[c])
}

/// Replaying an epoch leaves alone what a device does not hold.
pub proof fn lemma_replay_frames(
    cfg: &MachineConfig,
    m: Seq<ClassModel>,
    xs: Seq<Seq<bool>>,
    ys: Seq<usize>,
    order: Seq<usize>,
    negs: Seq<usize>,
    acts: Seq<Seq<bool>>,
    k: nat,
)
    requires
        !cfg.train.rules.type_iii,
        forall|i: int| 0 <= i < k ==> #[trigger] order[i] < ys.len(),
        forall|i: int| 0 <= i < ys.len() ==> #[trigger] ys[i] < m.len(),
        forall|i: int| 0 <= i < k ==> #[trigger] negs[i] < m.len(),
    ensures
        same_frames(cfg.replayed(m, xs, ys, order, negs, acts, k), m),
    decreases k,
{
    if k > 0 {
        lemma_replay_frames(cfg, m, xs, ys, order, negs, acts, (k - 1) as nat);
        let before = cfg.replayed(m, xs, ys, order, negs, acts, (k - 1) as nat);
        let after = cfg.replayed(m, xs, ys, order, negs, acts, k);
        let i = order[k - 1] as int;
        let y = ys[i] as int;
        let neg = negs[k - 1] as int;
        lemma_update_frame(cfg, before[y], y, true, xs[i], acts[k - 1]);
        lemma_update_frame(cfg, before[neg], neg, false, xs[i], acts[k - 1]);
        assert forall|c: int| 0 <= c < after.len() implies same_frame(#[trigger] after[c], m[c]) by {
            assert(same_frame(before[c], m[c]));
        }
    } else {
        assert forall|c: int| 0 <= c < m.len() implies same_frame(#[trigger] m[c], m[c]) by {}
    }
}

/// An epoch is what the decisions that are drawn ahead make of the machine.
pub proof fn lemma_epoch_replays(cfg: &MachineConfig, m: MachineModel, xs: Seq<Seq<bool>>, ys: Seq<usize>)
    requires
        cfg.n_classes >= 2,
        xs.len() == ys.len(),
        ys.len() <= usize::MAX,
    ensures
        cfg.fit_epoch_of(m, xs, ys) == (MachineModel {
            classes: replayed_epoch(cfg, m, xs, ys),
            ..planned_of(cfg, m, ys)
        }),
{
    let k = ys.len();
    let order = epoch_order_of(m.rng, k);
    let drawn = MachineModel { rng: rng_skip(m.rng, shuffle_draws(k)), ..m };
    lemma_epoch_order_permutes(m.rng, k);
    cfg.lemma_replay(drawn, xs, ys, order, k);
    assert(Seq::new(
        order.len(),
        |j: int| cfg.train.active_of(cfg.train.step_lit(drawn.literal_rng, j as nat)),
    ) =~= Seq::new(k, |j: int| cfg.train.active_of(cfg.train.step_lit(m.literal_rng, j as nat))));
}

/// An epoch on a device is an epoch on the host: where the device ends up with what the decisions
/// that it was handed make of the machine, the machine that is read back is the one that the host
/// would have trained.
pub proof fn lemma_device_trains_alike(
    cfg: &MachineConfig,
    m: MachineModel,
    back: MachineModel,
    xs: Seq<Seq<bool>>,
    ys: Seq<usize>,
    per: nat,
    n: nat,
)
    requires
        cfg.n_classes >= 2,
        !cfg.train.rules.type_iii,
        xs.len() == ys.len(),
        ys.len() <= usize::MAX,
        forall|i: int| 0 <= i < ys.len() ==> #[trigger] ys[i] < cfg.n_classes,
        shaped(m.classes, cfg.n_classes as nat, per, n),
        shaped(back.classes, cfg.n_classes as nat, per, n),
        back.rng == planned_of(cfg, m, ys).rng,
        back.literal_rng == planned_of(cfg, m, ys).literal_rng,
        same_marks(back.classes, m.classes, cfg.n_classes as nat, per),
        same_image(back.classes, replayed_epoch(cfg, m, xs, ys)),
    ensures
        back == cfg.fit_epoch_of(m, xs, ys),
{
    let want = replayed_epoch(cfg, m, xs, ys);
    lemma_want_frames(cfg, m, xs, ys);
    let count = cfg.n_classes as nat;
    assert forall|c: int| 0 <= c < count implies (#[trigger] want[c]).clauses.len() == per by {
        assert(same_frame(want[c], m.classes[c]) && m.classes[c].clauses.len() == per);
    }
    assert forall|c: int, j: int| 0 <= c < count && 0 <= j < per implies (
    #[trigger] want[c].clauses[j]).auto.ta.len() == n by {
        assert(same_frame(want[c], m.classes[c]) && m.classes[c].clauses[j].auto.ta.len() == n);
        assert(want[c].clauses.len() == per);
    }
    assert forall|c: int, j: int| 0 <= c < count && 0 <= j < per implies ({
        let x = (#[trigger] back.classes[c].clauses[j]).auto;
        let y = want[c].clauses[j].auto;
        x.ind == y.ind && x.cat == y.cat
    }) by {
        assert(want[c].clauses.len() == per);
        assert(same_frame(want[c], m.classes[c]));
        let z = want[c].clauses[j].auto;
        assert(z.ind == m.classes[c].clauses[j].auto.ind && z.cat == m.classes[c].clauses[j].auto.cat);
    }
    lemma_same_image(back.classes, want, count, per, n);
    lemma_epoch_replays(cfg, m, xs, ys);
}

proof fn lemma_want_frames(cfg: &MachineConfig, m: MachineModel, xs: Seq<Seq<bool>>, ys: Seq<usize>)
    requires
        cfg.n_classes >= 2,
        !cfg.train.rules.type_iii,
        ys.len() <= usize::MAX,
        m.classes.len() == cfg.n_classes,
        forall|i: int| 0 <= i < ys.len() ==> #[trigger] ys[i] < cfg.n_classes,
    ensures
        same_frames(replayed_epoch(cfg, m, xs, ys), m.classes),
{
    let k = ys.len();
    let order = epoch_order_of(m.rng, k);
    let s = rng_skip(m.rng, shuffle_draws(k));
    let count = cfg.n_classes as int;
    let negs = step_negs(s, count, ys, order);
    let acts = Seq::new(k, |j: int| cfg.train.active_of(cfg.train.step_lit(m.literal_rng, j as nat)));
    lemma_epoch_order_permutes(m.rng, k);
    assert forall|i: int| 0 <= i < k implies #[trigger] negs[i] < m.classes.len() by {
        let t = step_rng(s, count, ys, order, i as nat);
        let y = ys[order[i] as int] as int;
        vstd::arithmetic::div_mod::lemma_mod_bound(rng_word(rng_skip(t, rejections(t, count, y))) as int, count);
    }
    lemma_replay_frames(cfg, m.classes, xs, ys, order, negs, acts, k);
}

} // verus!
