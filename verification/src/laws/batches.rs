//! Batches are handled sample by sample.
use crate::bits::bits_of;
use crate::clause_bank::dense::{PARALLEL_MIN, PARALLEL_WORK_MIN};
use crate::encoder::EncodedBatch;
use crate::models::autoencoder::coalesced_autoencoder::TMCoalescedAutoEncoder;
use crate::models::autoencoder::vanilla_autoencoder::TMAutoEncoder;
use crate::models::classification::coalesced_classifier::CoalescedTsetlinMachine;
use crate::models::classification::composite_classifier::TMCompositeClassifier;
use crate::models::classification::convolutional_classifier::{
    raw_rows, ConvolutionalTsetlinMachine,
};
use crate::models::classification::data_parallel::dp_epoch_of;
use crate::models::classification::sparse_classifier::TMSparseClassifier;
use crate::models::classification::vanilla_classifier::TsetlinMachine;
use crate::models::regression::vanilla_regressor::RegressorConfig;
use vstd::prelude::*;

verus! {

/// The predictions for a batch are those for its samples, each at its own place.
pub proof fn lemma_batch_predictions(
    tm: &TsetlinMachine,
    sparse: &TMSparseClassifier,
    coalesced: &CoalescedTsetlinMachine,
    composite: &TMCompositeClassifier,
    batch: &EncodedBatch,
    i: int,
)
    requires
        0 <= i < batch.n,
    ensures
        tm.predictions(batch).len() == batch.n,
        tm.predictions(batch)[i] == tm.config.predict_of(
            tm@,
            bits_of(batch.sample(i), tm.config.train.geom.n_literals as nat),
        ),
        tm.config.row_bits(batch, i) == bits_of(
            batch.sample(i),
            tm.config.train.geom.n_literals as nat,
        ),
        sparse.predictions(batch).len() == batch.n,
        sparse.predictions(batch)[i] == sparse.config.predict_of(
            sparse@,
            bits_of(batch.sample(i), sparse.config.n_literals as nat),
        ),
        sparse.config.row_bits(batch, i) == bits_of(
            batch.sample(i),
            sparse.config.n_literals as nat,
        ),
        coalesced.predictions(batch).len() == batch.n,
        coalesced.predictions(batch)[i] == coalesced.config.predict_of(
            coalesced@,
            bits_of(batch.sample(i), coalesced.config.train.geom.n_literals as nat),
        ),
        coalesced.config.row_bits(batch, i) == bits_of(
            batch.sample(i),
            coalesced.config.train.geom.n_literals as nat,
        ),
        composite.predictions_of(batch).len() == batch.n,
        composite.predictions_of(batch)[i] == composite.predict_of(batch.sample(i)),
{
}

/// The predictions for images are those for each of them, at its own place.
pub proof fn lemma_image_predictions(
    tm: &ConvolutionalTsetlinMachine,
    images: Seq<&[u8]>,
    i: int,
)
    requires
        0 <= i < images.len(),
    ensures
        tm.config.predictions_of(tm@, raw_rows(images)).len() == images.len(),
        tm.config.predictions_of(tm@, raw_rows(images))[i] == tm.config.predict_of(
            tm@,
            images[i]@,
        ),
{
}

/// The reconstructions of a batch are those of its samples, each at its own place.
pub proof fn lemma_batch_reconstructions(
    plain: &TMAutoEncoder,
    coalesced: &TMCoalescedAutoEncoder,
    regressor: &RegressorConfig,
    batch: &EncodedBatch,
    i: int,
)
    requires
        0 <= i < batch.n,
    ensures
        plain.reconstructions(batch).len() == batch.n,
        plain.reconstructions(batch)[i] == plain.config.reconstruct_of(
            plain@,
            bits_of(batch.sample(i), plain.config.train.geom.n_literals as nat),
        ),
        plain.config.row_bits(batch, i) == bits_of(
            batch.sample(i),
            plain.config.train.geom.n_literals as nat,
        ),
        coalesced.reconstructions(batch).len() == batch.n,
        coalesced.reconstructions(batch)[i] == coalesced.config.reconstruct_of(
            coalesced@,
            bits_of(batch.sample(i), coalesced.config.train.geom.n_literals as nat),
        ),
        coalesced.config.row_bits(batch, i) == bits_of(
            batch.sample(i),
            coalesced.config.train.geom.n_literals as nat,
        ),
        regressor.row_bits(batch, i) == bits_of(
            batch.sample(i),
            regressor.train.geom.n_literals as nat,
        ),
{
}

/// Threads change how an epoch is trained only if the machine asks for it and the work is large:
/// many samples, and many clauses or much work on them. There are then as many replicas as threads,
/// but no more than samples. Otherwise the epoch is the exact one.
pub proof fn lemma_threads_are_asked_for(
    tm: &TsetlinMachine,
    xs: Seq<Seq<bool>>,
    ys: Seq<usize>,
    threads: int,
)
    ensures
        ({
            let clauses = tm.config.n_classes * tm.config.clauses_per_class;
            let large = xs.len() >= PARALLEL_MIN && (clauses >= PARALLEL_MIN || clauses
                * tm.config.train.geom.words >= PARALLEL_WORK_MIN);
            &&& !tm.config.data_parallel || threads <= 1 || !large ==> tm.threads_epoch_of(
                xs,
                ys,
                threads,
            ) == tm.config.fit_epoch_of(tm@, xs, ys)
            &&& tm.config.data_parallel && threads > 1 && large && threads <= xs.len()
                ==> tm.threads_epoch_of(xs, ys, threads) == dp_epoch_of(
                tm.config,
                tm@,
                xs,
                ys,
                threads as nat,
            )
            &&& tm.config.data_parallel && threads > 1 && large && threads > xs.len()
                ==> tm.threads_epoch_of(xs, ys, threads) == dp_epoch_of(
                tm.config,
                tm@,
                xs,
                ys,
                xs.len(),
            )
        }),
{
}

} // verus!
