//! What an epoch of training is: one step on each sample of the batch, with that sample's own
//! target, in an order that the model draws.
use crate::bits::bits_of;
use crate::encoder::EncodedBatch;
use crate::models::autoencoder::coalesced_autoencoder::CoalescedAutoEncoderConfig;
use crate::models::autoencoder::vanilla_autoencoder::AutoEncoderConfig;
use crate::models::classification::coalesced_classifier::{CoalescedConfig, CoalescedModel};
use crate::models::classification::convolutional_classifier::{raw_rows, ConvolutionalConfig};
use crate::models::classification::data_parallel::{
    dp_epoch_of, lemma_share_grows, merged_of, replica_of, share_len, share_of, share_start,
    trained_replica,
};
use crate::models::classification::sparse_classifier::{SparseConfig, SparseMachineModel};
use crate::models::classification::vanilla_classifier::{MachineConfig, MachineModel};
use crate::models::regression::target::Target;
use crate::models::regression::vanilla_regressor::{RegressorConfig, RegressorModel};
use crate::rng::{rng_skip, rng_word};
use crate::sampling::{epoch_order_of, lemma_epoch_order_permutes};
use vstd::prelude::*;

verus! {

/// Two orders of the same positions pick the same items, each as often.
pub proof fn lemma_orders_pick_alike<A>(items: Seq<A>, a: Seq<usize>, b: Seq<usize>)
    requires
        a.to_multiset() == b.to_multiset(),
    ensures
        Seq::new(a.len(), |k: int| items[a[k] as int]).to_multiset() == Seq::new(
            b.len(),
            |k: int| items[b[k] as int],
        ).to_multiset(),
    decreases a.len(),
{
    broadcast use vstd::seq_lib::group_to_multiset_ensures;
    let pa = Seq::new(a.len(), |k: int| items[a[k] as int]);
    let pb = Seq::new(b.len(), |k: int| items[b[k] as int]);
    assert(a.len() == a.to_multiset().len());
    assert(b.len() == b.to_multiset().len());
    if a.len() == 0 {
        assert(pa =~= pb);
    } else {
        let last = a.len() - 1;
        let v = a[last];
        assert(a.contains(v));
        assert(a.to_multiset().count(v) > 0);
        assert(b.to_multiset().count(v) > 0);
        assert(b.contains(v));
        let j = choose|j: int| 0 <= j < b.len() && b[j] == v;
        let a1 = a.remove(last);
        let b1 = b.remove(j);
        assert(a1.to_multiset() =~= a.to_multiset().remove(v));
        assert(b1.to_multiset() =~= b.to_multiset().remove(v));
        lemma_orders_pick_alike(items, a1, b1);
        assert(pa.remove(last) =~= Seq::new(a1.len(), |k: int| items[a1[k] as int]));
        assert(pb.remove(j) =~= Seq::new(b1.len(), |k: int| items[b1[k] as int]));
        assert(pa.remove(last).to_multiset() =~= pa.to_multiset().remove(items[v as int]));
        assert(pb.remove(j).to_multiset() =~= pb.to_multiset().remove(items[v as int]));
        assert(pa.contains(pa[last]));
        assert(pb.contains(pb[j]));
        assert(pa.to_multiset().remove(items[v as int]).insert(items[v as int])
            =~= pa.to_multiset());
        assert(pb.to_multiset().remove(items[v as int]).insert(items[v as int])
            =~= pb.to_multiset());
    }
}

/// The order of an epoch visits the entries of a list each as often as the list holds it.
pub proof fn lemma_epoch_visits_all<A>(items: Seq<A>, s: u64)
    requires
        items.len() <= usize::MAX + 1,
    ensures
        Seq::new(items.len(), |k: int| items[epoch_order_of(s, items.len())[k] as int]).to_multiset()
            == items.to_multiset(),
{
    let n = items.len();
    let order = epoch_order_of(s, n);
    let identity = Seq::new(n, |i: int| i as usize);
    lemma_epoch_order_permutes(s, n);
    lemma_orders_pick_alike(items, order, identity);
    assert(Seq::new(identity.len(), |k: int| items[identity[k] as int]) =~= items);
}

proof fn lemma_regressor_order(
    cfg: &RegressorConfig,
    m: RegressorModel,
    xs: Seq<Seq<bool>>,
    ys: Seq<Target>,
    order: Seq<usize>,
    pairs: Seq<(Seq<bool>, Target)>,
    step: spec_fn(RegressorModel, (Seq<bool>, Target)) -> RegressorModel,
    k: nat,
)
    requires
        k <= order.len(),
        pairs.len() == order.len(),
        forall|j: int|
            0 <= j < order.len() ==> #[trigger] pairs[j] == (
                xs[order[j] as int],
                ys[order[j] as int],
            ),
        forall|a: RegressorModel, p: (Seq<bool>, Target)| #[trigger]
            step(a, p) == cfg.fit_one_of(a, p.0, p.1),
    ensures
        cfg.fit_order_of(m, xs, ys, order, k) == pairs.take(k as int).fold_left(m, step),
    decreases k,
{
    let taken = pairs.take(k as int);
    if k > 0 {
        lemma_regressor_order(cfg, m, xs, ys, order, pairs, step, (k - 1) as nat);
        assert(taken.drop_last() =~= pairs.take(k - 1));
        assert(taken.last() == pairs[k - 1]);
    }
}

/// An epoch of a regressor is one step on each sample of the batch with that sample's own
/// target: `pairs` lists what the steps are taken on, and holds exactly the batch's pairs of sample
/// and target.
pub proof fn lemma_regressor_epoch(
    cfg: &RegressorConfig,
    m: RegressorModel,
    batch: &EncodedBatch,
    ys: Seq<Target>,
) -> (pairs: Seq<(Seq<bool>, Target)>)
    requires
        ys.len() == batch.n,
    ensures
        pairs.len() == batch.n,
        pairs.to_multiset() == Seq::new(
            batch.n as nat,
            |i: int| (bits_of(batch.sample(i), cfg.train.geom.n_literals as nat), ys[i]),
        ).to_multiset(),
        cfg.fit_epoch_of(m, cfg.batch_bits(batch), ys) == pairs.fold_left(
            RegressorModel {
                rng: if batch.n == 0 {
                    m.rng
                } else {
                    rng_skip(m.rng, (batch.n - 1) as nat)
                },
                ..m
            },
            |a: RegressorModel, p: (Seq<bool>, Target)| cfg.fit_one_of(a, p.0, p.1),
        ),
{
    let xs = cfg.batch_bits(batch);
    let n = xs.len();
    let order = epoch_order_of(m.rng, n);
    let items = Seq::new(n, |i: int| (bits_of(batch.sample(i), cfg.train.geom.n_literals as nat), ys[i]));
    let pairs = Seq::new(n, |k: int| items[order[k] as int]);
    let step = |a: RegressorModel, p: (Seq<bool>, Target)| cfg.fit_one_of(a, p.0, p.1);
    let start = RegressorModel {
        rng: if n == 0 {
            m.rng
        } else {
            rng_skip(m.rng, (n - 1) as nat)
        },
        ..m
    };
    lemma_epoch_order_permutes(m.rng, n);
    lemma_epoch_visits_all(items, m.rng);
    lemma_regressor_order(cfg, start, xs, ys, order, pairs, step, n);
    assert(pairs.take(n as int) =~= pairs);
    assert(rng_skip(m.rng, 0) == m.rng);
    pairs
}

proof fn lemma_machine_order(
    cfg: &MachineConfig,
    m: MachineModel,
    xs: Seq<Seq<bool>>,
    ys: Seq<usize>,
    order: Seq<usize>,
    pairs: Seq<(Seq<bool>, usize)>,
    step: spec_fn(MachineModel, (Seq<bool>, usize)) -> MachineModel,
    k: nat,
)
    requires
        k <= order.len(),
        pairs.len() == order.len(),
        forall|j: int|
            0 <= j < order.len() ==> #[trigger] pairs[j] == (
                xs[order[j] as int],
                ys[order[j] as int],
            ),
        forall|a: MachineModel, p: (Seq<bool>, usize)| #[trigger]
            step(a, p) == cfg.fit_one_of(a, p.0, p.1 as int),
    ensures
        cfg.fit_order_of(m, xs, ys, order, k) == pairs.take(k as int).fold_left(m, step),
    decreases k,
{
    let taken = pairs.take(k as int);
    if k > 0 {
        lemma_machine_order(cfg, m, xs, ys, order, pairs, step, (k - 1) as nat);
        assert(taken.drop_last() =~= pairs.take(k - 1));
        assert(taken.last() == pairs[k - 1]);
    }
}

/// An epoch of a classifier is one step on each sample of the batch with that sample's own
/// class: `pairs` lists what the steps are taken on, and holds exactly the batch's pairs of sample
/// and class.
pub proof fn lemma_machine_epoch(
    cfg: &MachineConfig,
    m: MachineModel,
    batch: &EncodedBatch,
    ys: Seq<usize>,
) -> (pairs: Seq<(Seq<bool>, usize)>)
    requires
        ys.len() == batch.n,
    ensures
        pairs.len() == batch.n,
        pairs.to_multiset() == Seq::new(
            batch.n as nat,
            |i: int| (bits_of(batch.sample(i), cfg.train.geom.n_literals as nat), ys[i]),
        ).to_multiset(),
        cfg.fit_epoch_of(m, cfg.batch_bits(batch), ys) == pairs.fold_left(
            MachineModel {
                rng: if batch.n == 0 {
                    m.rng
                } else {
                    rng_skip(m.rng, (batch.n - 1) as nat)
                },
                ..m
            },
            |a: MachineModel, p: (Seq<bool>, usize)| cfg.fit_one_of(a, p.0, p.1 as int),
        ),
{
    let xs = cfg.batch_bits(batch);
    let n = xs.len();
    let order = epoch_order_of(m.rng, n);
    let items = Seq::new(n, |i: int| (bits_of(batch.sample(i), cfg.train.geom.n_literals as nat), ys[i]));
    let pairs = Seq::new(n, |k: int| items[order[k] as int]);
    let step = |a: MachineModel, p: (Seq<bool>, usize)| cfg.fit_one_of(a, p.0, p.1 as int);
    let start = MachineModel {
        rng: if n == 0 {
            m.rng
        } else {
            rng_skip(m.rng, (n - 1) as nat)
        },
        ..m
    };
    lemma_epoch_order_permutes(m.rng, n);
    lemma_epoch_visits_all(items, m.rng);
    lemma_machine_order(cfg, start, xs, ys, order, pairs, step, n);
    assert(pairs.take(n as int) =~= pairs);
    assert(rng_skip(m.rng, 0) == m.rng);
    pairs
}

proof fn lemma_sparse_order(
    cfg: &SparseConfig,
    m: SparseMachineModel,
    xs: Seq<Seq<bool>>,
    ys: Seq<usize>,
    order: Seq<usize>,
    pairs: Seq<(Seq<bool>, usize)>,
    step: spec_fn(SparseMachineModel, (Seq<bool>, usize)) -> SparseMachineModel,
    k: nat,
)
    requires
        k <= order.len(),
        pairs.len() == order.len(),
        forall|j: int|
            0 <= j < order.len() ==> #[trigger] pairs[j] == (
                xs[order[j] as int],
                ys[order[j] as int],
            ),
        forall|a: SparseMachineModel, p: (Seq<bool>, usize)| #[trigger]
            step(a, p) == cfg.fit_one_of(a, p.0, p.1 as int),
    ensures
        cfg.fit_order_of(m, xs, ys, order, k) == pairs.take(k as int).fold_left(m, step),
    decreases k,
{
    let taken = pairs.take(k as int);
    if k > 0 {
        lemma_sparse_order(cfg, m, xs, ys, order, pairs, step, (k - 1) as nat);
        assert(taken.drop_last() =~= pairs.take(k - 1));
        assert(taken.last() == pairs[k - 1]);
    }
}

/// An epoch of a sparse classifier is one step on each sample of the batch with that sample's own
/// class: `pairs` lists what the steps are taken on, and holds exactly the batch's pairs of sample
/// and class.
pub proof fn lemma_sparse_epoch(
    cfg: &SparseConfig,
    m: SparseMachineModel,
    batch: &EncodedBatch,
    ys: Seq<usize>,
) -> (pairs: Seq<(Seq<bool>, usize)>)
    requires
        ys.len() == batch.n,
    ensures
        pairs.len() == batch.n,
        pairs.to_multiset() == Seq::new(
            batch.n as nat,
            |i: int| (bits_of(batch.sample(i), cfg.n_literals as nat), ys[i]),
        ).to_multiset(),
        cfg.fit_epoch_of(m, cfg.batch_bits(batch), ys) == pairs.fold_left(
            SparseMachineModel {
                rng: if batch.n == 0 {
                    m.rng
                } else {
                    rng_skip(m.rng, (batch.n - 1) as nat)
                },
                ..m
            },
            |a: SparseMachineModel, p: (Seq<bool>, usize)| cfg.fit_one_of(a, p.0, p.1 as int),
        ),
{
    let xs = cfg.batch_bits(batch);
    let n = xs.len();
    let order = epoch_order_of(m.rng, n);
    let items = Seq::new(n, |i: int| (bits_of(batch.sample(i), cfg.n_literals as nat), ys[i]));
    let pairs = Seq::new(n, |k: int| items[order[k] as int]);
    let step = |a: SparseMachineModel, p: (Seq<bool>, usize)| cfg.fit_one_of(a, p.0, p.1 as int);
    let start = SparseMachineModel {
        rng: if n == 0 {
            m.rng
        } else {
            rng_skip(m.rng, (n - 1) as nat)
        },
        ..m
    };
    lemma_epoch_order_permutes(m.rng, n);
    lemma_epoch_visits_all(items, m.rng);
    lemma_sparse_order(cfg, start, xs, ys, order, pairs, step, n);
    assert(pairs.take(n as int) =~= pairs);
    assert(rng_skip(m.rng, 0) == m.rng);
    pairs
}

proof fn lemma_coalesced_order(
    cfg: &CoalescedConfig,
    m: CoalescedModel,
    xs: Seq<Seq<bool>>,
    ys: Seq<usize>,
    order: Seq<usize>,
    pairs: Seq<(Seq<bool>, usize)>,
    step: spec_fn(CoalescedModel, (Seq<bool>, usize)) -> CoalescedModel,
    k: nat,
)
    requires
        k <= order.len(),
        pairs.len() == order.len(),
        forall|j: int|
            0 <= j < order.len() ==> #[trigger] pairs[j] == (
                xs[order[j] as int],
                ys[order[j] as int],
            ),
        forall|a: CoalescedModel, p: (Seq<bool>, usize)| #[trigger]
            step(a, p) == cfg.fit_one_of(a, p.0, p.1 as int),
    ensures
        cfg.fit_order_of(m, xs, ys, order, k) == pairs.take(k as int).fold_left(m, step),
    decreases k,
{
    let taken = pairs.take(k as int);
    if k > 0 {
        lemma_coalesced_order(cfg, m, xs, ys, order, pairs, step, (k - 1) as nat);
        assert(taken.drop_last() =~= pairs.take(k - 1));
        assert(taken.last() == pairs[k - 1]);
    }
}

/// An epoch of a coalesced classifier is one step on each sample of the batch with that sample's own
/// class: `pairs` lists what the steps are taken on, and holds exactly the batch's pairs of sample
/// and class.
pub proof fn lemma_coalesced_epoch(
    cfg: &CoalescedConfig,
    m: CoalescedModel,
    batch: &EncodedBatch,
    ys: Seq<usize>,
) -> (pairs: Seq<(Seq<bool>, usize)>)
    requires
        ys.len() == batch.n,
    ensures
        pairs.len() == batch.n,
        pairs.to_multiset() == Seq::new(
            batch.n as nat,
            |i: int| (bits_of(batch.sample(i), cfg.train.geom.n_literals as nat), ys[i]),
        ).to_multiset(),
        cfg.fit_epoch_of(m, cfg.batch_bits(batch), ys) == pairs.fold_left(
            CoalescedModel {
                rng: if batch.n == 0 {
                    m.rng
                } else {
                    rng_skip(m.rng, (batch.n - 1) as nat)
                },
                ..m
            },
            |a: CoalescedModel, p: (Seq<bool>, usize)| cfg.fit_one_of(a, p.0, p.1 as int),
        ),
{
    let xs = cfg.batch_bits(batch);
    let n = xs.len();
    let order = epoch_order_of(m.rng, n);
    let items = Seq::new(n, |i: int| (bits_of(batch.sample(i), cfg.train.geom.n_literals as nat), ys[i]));
    let pairs = Seq::new(n, |k: int| items[order[k] as int]);
    let step = |a: CoalescedModel, p: (Seq<bool>, usize)| cfg.fit_one_of(a, p.0, p.1 as int);
    let start = CoalescedModel {
        rng: if n == 0 {
            m.rng
        } else {
            rng_skip(m.rng, (n - 1) as nat)
        },
        ..m
    };
    lemma_epoch_order_permutes(m.rng, n);
    lemma_epoch_visits_all(items, m.rng);
    lemma_coalesced_order(cfg, start, xs, ys, order, pairs, step, n);
    assert(pairs.take(n as int) =~= pairs);
    assert(rng_skip(m.rng, 0) == m.rng);
    pairs
}

proof fn lemma_convolutional_order(
    cfg: &ConvolutionalConfig,
    m: MachineModel,
    xs: Seq<Seq<u8>>,
    ys: Seq<usize>,
    order: Seq<usize>,
    pairs: Seq<(Seq<u8>, usize)>,
    step: spec_fn(MachineModel, (Seq<u8>, usize)) -> MachineModel,
    k: nat,
)
    requires
        k <= order.len(),
        pairs.len() == order.len(),
        forall|j: int|
            0 <= j < order.len() ==> #[trigger] pairs[j] == (
                xs[order[j] as int],
                ys[order[j] as int],
            ),
        forall|a: MachineModel, p: (Seq<u8>, usize)| #[trigger]
            step(a, p) == cfg.fit_one_of(a, p.0, p.1 as int),
    ensures
        cfg.fit_order_of(m, xs, ys, order, k) == pairs.take(k as int).fold_left(m, step),
    decreases k,
{
    let taken = pairs.take(k as int);
    if k > 0 {
        lemma_convolutional_order(cfg, m, xs, ys, order, pairs, step, (k - 1) as nat);
        assert(taken.drop_last() =~= pairs.take(k - 1));
        assert(taken.last() == pairs[k - 1]);
    }
}

/// An epoch of a convolutional classifier is one step on each image of the batch with that image's own
/// class: `pairs` lists what the steps are taken on, and holds exactly the batch's pairs of image
/// and class.
pub proof fn lemma_convolutional_epoch(
    cfg: &ConvolutionalConfig,
    m: MachineModel,
    images: Seq<&[u8]>,
    ys: Seq<usize>,
) -> (pairs: Seq<(Seq<u8>, usize)>)
    requires
        ys.len() == images.len(),
        images.len() <= usize::MAX + 1,
    ensures
        pairs.len() == images.len(),
        pairs.to_multiset() == Seq::new(
            images.len() as nat,
            |i: int| (images[i]@, ys[i]),
        ).to_multiset(),
        cfg.fit_epoch_of(m, raw_rows(images), ys) == pairs.fold_left(
            MachineModel {
                rng: if images.len() == 0 {
                    m.rng
                } else {
                    rng_skip(m.rng, (images.len() - 1) as nat)
                },
                ..m
            },
            |a: MachineModel, p: (Seq<u8>, usize)| cfg.fit_one_of(a, p.0, p.1 as int),
        ),
{
    let xs = raw_rows(images);
    let n = xs.len();
    let order = epoch_order_of(m.rng, n);
    let items = Seq::new(n, |i: int| (images[i]@, ys[i]));
    let pairs = Seq::new(n, |k: int| items[order[k] as int]);
    let step = |a: MachineModel, p: (Seq<u8>, usize)| cfg.fit_one_of(a, p.0, p.1 as int);
    let start = MachineModel {
        rng: if n == 0 {
            m.rng
        } else {
            rng_skip(m.rng, (n - 1) as nat)
        },
        ..m
    };
    lemma_epoch_order_permutes(m.rng, n);
    lemma_epoch_visits_all(items, m.rng);
    lemma_convolutional_order(cfg, start, xs, ys, order, pairs, step, n);
    assert(pairs.take(n as int) =~= pairs);
    assert(rng_skip(m.rng, 0) == m.rng);
    pairs
}

proof fn lemma_autoencoder_order(
    cfg: &AutoEncoderConfig,
    m: MachineModel,
    xs: Seq<Seq<bool>>,
    order: Seq<usize>,
    trained: Seq<Seq<bool>>,
    step: spec_fn(MachineModel, Seq<bool>) -> MachineModel,
    k: nat,
)
    requires
        k <= order.len(),
        trained.len() == order.len(),
        forall|j: int| 0 <= j < order.len() ==> #[trigger] trained[j] == xs[order[j] as int],
        forall|a: MachineModel, x: Seq<bool>| #[trigger] step(a, x) == cfg.fit_one_of(a, x),
    ensures
        cfg.fit_order_of(m, xs, order, k) == trained.take(k as int).fold_left(m, step),
    decreases k,
{
    let taken = trained.take(k as int);
    if k > 0 {
        lemma_autoencoder_order(cfg, m, xs, order, trained, step, (k - 1) as nat);
        assert(taken.drop_last() =~= trained.take(k - 1));
        assert(taken.last() == trained[k - 1]);
    }
}

/// An epoch of an autoencoder is one step on each sample of the batch: `trained` lists what the
/// steps are taken on, and holds exactly the batch's samples.
pub proof fn lemma_autoencoder_epoch(
    cfg: &AutoEncoderConfig,
    m: MachineModel,
    batch: &EncodedBatch,
) -> (trained: Seq<Seq<bool>>)
    ensures
        trained.len() == batch.n,
        trained.to_multiset() == Seq::new(
            batch.n as nat,
            |i: int| bits_of(batch.sample(i), cfg.train.geom.n_literals as nat),
        ).to_multiset(),
        cfg.fit_epoch_of(m, cfg.batch_bits(batch)) == trained.fold_left(
            MachineModel {
                rng: if batch.n == 0 {
                    m.rng
                } else {
                    rng_skip(m.rng, (batch.n - 1) as nat)
                },
                ..m
            },
            |a: MachineModel, x: Seq<bool>| cfg.fit_one_of(a, x),
        ),
{
    let xs = cfg.batch_bits(batch);
    let n = xs.len();
    let order = epoch_order_of(m.rng, n);
    let items = Seq::new(n, |i: int| bits_of(batch.sample(i), cfg.train.geom.n_literals as nat));
    let trained = Seq::new(n, |k: int| items[order[k] as int]);
    let step = |a: MachineModel, x: Seq<bool>| cfg.fit_one_of(a, x);
    let start = MachineModel {
        rng: if n == 0 {
            m.rng
        } else {
            rng_skip(m.rng, (n - 1) as nat)
        },
        ..m
    };
    lemma_epoch_order_permutes(m.rng, n);
    lemma_epoch_visits_all(items, m.rng);
    lemma_autoencoder_order(cfg, start, xs, order, trained, step, n);
    assert(trained.take(n as int) =~= trained);
    assert(rng_skip(m.rng, 0) == m.rng);
    trained
}

proof fn lemma_coalesced_autoencoder_order(
    cfg: &CoalescedAutoEncoderConfig,
    m: CoalescedModel,
    xs: Seq<Seq<bool>>,
    order: Seq<usize>,
    trained: Seq<Seq<bool>>,
    step: spec_fn(CoalescedModel, Seq<bool>) -> CoalescedModel,
    k: nat,
)
    requires
        k <= order.len(),
        trained.len() == order.len(),
        forall|j: int| 0 <= j < order.len() ==> #[trigger] trained[j] == xs[order[j] as int],
        forall|a: CoalescedModel, x: Seq<bool>| #[trigger] step(a, x) == cfg.fit_one_of(a, x),
    ensures
        cfg.fit_order_of(m, xs, order, k) == trained.take(k as int).fold_left(m, step),
    decreases k,
{
    let taken = trained.take(k as int);
    if k > 0 {
        lemma_coalesced_autoencoder_order(cfg, m, xs, order, trained, step, (k - 1) as nat);
        assert(taken.drop_last() =~= trained.take(k - 1));
        assert(taken.last() == trained[k - 1]);
    }
}

/// An epoch of a coalesced autoencoder is one step on each sample of the batch: `trained` lists what the
/// steps are taken on, and holds exactly the batch's samples.
pub proof fn lemma_coalesced_autoencoder_epoch(
    cfg: &CoalescedAutoEncoderConfig,
    m: CoalescedModel,
    batch: &EncodedBatch,
) -> (trained: Seq<Seq<bool>>)
    ensures
        trained.len() == batch.n,
        trained.to_multiset() == Seq::new(
            batch.n as nat,
            |i: int| bits_of(batch.sample(i), cfg.train.geom.n_literals as nat),
        ).to_multiset(),
        cfg.fit_epoch_of(m, cfg.batch_bits(batch)) == trained.fold_left(
            CoalescedModel {
                rng: if batch.n == 0 {
                    m.rng
                } else {
                    rng_skip(m.rng, (batch.n - 1) as nat)
                },
                ..m
            },
            |a: CoalescedModel, x: Seq<bool>| cfg.fit_one_of(a, x),
        ),
{
    let xs = cfg.batch_bits(batch);
    let n = xs.len();
    let order = epoch_order_of(m.rng, n);
    let items = Seq::new(n, |i: int| bits_of(batch.sample(i), cfg.train.geom.n_literals as nat));
    let trained = Seq::new(n, |k: int| items[order[k] as int]);
    let step = |a: CoalescedModel, x: Seq<bool>| cfg.fit_one_of(a, x);
    let start = CoalescedModel {
        rng: if n == 0 {
            m.rng
        } else {
            rng_skip(m.rng, (n - 1) as nat)
        },
        ..m
    };
    lemma_epoch_order_permutes(m.rng, n);
    lemma_epoch_visits_all(items, m.rng);
    lemma_coalesced_autoencoder_order(cfg, start, xs, order, trained, step, n);
    assert(trained.take(n as int) =~= trained);
    assert(rng_skip(m.rng, 0) == m.rng);
    trained
}

proof fn lemma_shares_follow<A>(list: Seq<A>, shares: Seq<Seq<A>>, k: int, i: nat)
    requires
        k >= 1,
        i <= shares.len(),
        forall|j: int|
            0 <= j < shares.len() ==> #[trigger] shares[j] == list.subrange(
                share_start(list.len() as int, k, j),
                share_start(list.len() as int, k, j + 1),
            ),
    ensures
        0 <= share_start(list.len() as int, k, i as int) <= list.len(),
        shares.take(i as int).flatten_alt() == list.take(share_start(list.len() as int, k, i as int)),
    decreases i,
{
    let n = list.len() as int;
    let taken = shares.take(i as int);
    lemma_share_grows(n, k, i as int);
    if i == 0 {
        assert(0 * share_len(n, k) == 0);
        assert(taken.flatten_alt() =~= list.take(0));
    } else {
        lemma_shares_follow(list, shares, k, (i - 1) as nat);
        lemma_share_grows(n, k, i - 1);
        assert(taken.drop_last() =~= shares.take(i - 1));
        assert(taken.last() == shares[i - 1]);
        assert(taken.flatten_alt() =~= list.take(share_start(n, k, i as int)));
    }
}

/// An epoch on several replicas trains each sample on one of them, with the sample's own class:
/// `shares[i]` lists what replica `i` is trained on. Together the shares hold exactly the
/// batch's pairs of sample and class, and none holds more than its part, rounded up. Every
/// replica starts from the machine with a seed of its own, and the trained replicas are merged.
pub proof fn lemma_parallel_epoch(
    cfg: MachineConfig,
    m: MachineModel,
    batch: &EncodedBatch,
    ys: Seq<usize>,
    k: nat,
) -> (shares: Seq<Seq<(Seq<bool>, usize)>>)
    requires
        ys.len() == batch.n,
        k >= 2,
    ensures
        shares.len() == k,
        shares.flatten().to_multiset() == Seq::new(
            batch.n as nat,
            |i: int| (bits_of(batch.sample(i), cfg.train.geom.n_literals as nat), ys[i]),
        ).to_multiset(),
        forall|i: int| 0 <= i < k ==> k * (#[trigger] shares[i]).len() < batch.n + k,
        ({
            let shuffled = if batch.n == 0 {
                m.rng
            } else {
                rng_skip(m.rng, (batch.n - 1) as nat)
            };
            let drawn = MachineModel { rng: rng_skip(shuffled, k), ..m };
            dp_epoch_of(cfg, m, cfg.batch_bits(batch), ys, k) == merged_of(
                drawn,
                Seq::new(
                    k,
                    |i: int|
                        shares[i].fold_left(
                            replica_of(
                                drawn,
                                rng_word(rng_skip(shuffled, i as nat)),
                                cfg.clauses_per_class as int,
                            ),
                            |a: MachineModel, p: (Seq<bool>, usize)|
                                cfg.fit_one_of(a, p.0, p.1 as int),
                        ),
                ),
                cfg.train.threshold as int,
            )
        }),
{
    let xs = cfg.batch_bits(batch);
    let n = xs.len();
    let order = epoch_order_of(m.rng, n);
    let items = Seq::new(
        n,
        |i: int| (bits_of(batch.sample(i), cfg.train.geom.n_literals as nat), ys[i]),
    );
    let list = Seq::new(n, |j: int| items[order[j] as int]);
    let shares = Seq::new(
        k,
        |i: int|
            list.subrange(
                share_start(n as int, k as int, i),
                share_start(n as int, k as int, i + 1),
            ),
    );
    let step = |a: MachineModel, p: (Seq<bool>, usize)| cfg.fit_one_of(a, p.0, p.1 as int);
    let shuffled = if n == 0 {
        m.rng
    } else {
        rng_skip(m.rng, (n - 1) as nat)
    };
    let drawn = MachineModel { rng: rng_skip(shuffled, k), ..m };
    assert(rng_skip(m.rng, 0) == m.rng);
    lemma_epoch_order_permutes(m.rng, n);
    lemma_epoch_visits_all(items, m.rng);
    let len = share_len(n as int, k as int);
    assert(k * len >= n && k * len < n + k) by (nonlinear_arith)
        requires
            len == (n + k - 1) / (k as int),
            k >= 2,
            n >= 0,
    ;
    lemma_shares_follow(list, shares, k as int, k);
    assert(share_start(n as int, k as int, k as int) == n);
    assert(shares.take(k as int) =~= shares);
    assert(list.take(n as int) =~= list);
    shares.lemma_flatten_and_flatten_alt_are_equivalent();
    assert forall|i: int| 0 <= i < k implies k * (#[trigger] shares[i]).len() < n + k by {
        lemma_share_grows(n as int, k as int, i);
        assert((i + 1) * len == i * len + len) by (nonlinear_arith);
        assert(shares[i].len() <= len);
        assert(k * shares[i].len() <= k * len) by (nonlinear_arith)
            requires
                shares[i].len() <= len,
                k >= 0,
        ;
    }
    let seeds = Seq::new(k, |i: int| rng_word(rng_skip(shuffled, i as nat)));
    let reps = Seq::new(k, |i: int| trained_replica(cfg, drawn, xs, ys, order, seeds, i));
    let folded = Seq::new(
        k,
        |i: int|
            shares[i].fold_left(
                replica_of(
                    drawn,
                    rng_word(rng_skip(shuffled, i as nat)),
                    cfg.clauses_per_class as int,
                ),
                step,
            ),
    );
    assert forall|i: int| 0 <= i < k implies reps[i] == folded[i] by {
        lemma_share_grows(n as int, k as int, i);
        let share = share_of(order, k as int, i);
        let start = replica_of(drawn, seeds[i], cfg.clauses_per_class as int);
        lemma_machine_order(&cfg, start, xs, ys, share, shares[i], step, share.len());
        assert(shares[i].take(share.len() as int) =~= shares[i]);
    }
    assert(reps =~= folded);
    shares
}

} // verus!
