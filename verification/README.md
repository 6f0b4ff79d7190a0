# tmu-rs

Weighted, bit-packed Tsetlin Machines whose behaviour is stated in contracts and proved with
[Verus](https://github.com/verus-lang/verus).

The library trains and runs classifiers, autoencoders and a regressor over binary features. Every
operation has an exact contract: what a prediction, a training step or a whole epoch makes of a
model is a function of the model and the data, down to the draws from its random streams. There is no
floating point in it. Specificities, probabilities and class weights are exact numbers that round
where double-precision numbers would, so that a model trains the same on every machine.

## Models

| Type | What it is |
|---|---|
| `TsetlinMachine` | weighted multiclass classifier |
| `CoalescedTsetlinMachine` | classes share one bank of clauses with signed weights |
| `TMSparseClassifier` | clauses forget literals that were absorbed |
| `ConvolutionalTsetlinMachine` | clauses look at the patches of a sequence or a grid |
| `TMCompositeClassifier` | an ensemble whose scores are summed |
| `TMRegressor` | an integer from 0 to the threshold |
| `TMAutoEncoder`, `TMCoalescedAutoEncoder` | every feature reconstructed from the others |

`Encoder` turns binary, numeric and categorical samples into packed literals. `SaveLoad` writes models
and encoders to bytes and reads them back.

```rust
use tmu_rs::dyadic::Dyadic;
use tmu_rs::{Encoder, TsetlinMachine};

let s = Dyadic::from_bits(3.9f64.to_bits()).unwrap();
let encoder = Encoder::for_binary(12);
let mut tm = TsetlinMachine::with_config(2, 12, 8, 15, s, 8, true, 42);
let train = encoder.encode_batch(&rows);
for _ in 0..15 {
    tm.fit_epoch(&train, &labels);
}
let (right, all) = tm.accuracy(&train, &labels);
```

## Layout

- `src/` is the library. All of it is verified, down to six wrappers around outside calls whose
  contracts are trusted: `serial::text_from_bytes` around `String::from_utf8`, and in `gpu::buffers`
  `signed_words`, `word_bytes`, `long_bytes`, `signed_bytes` and `collect_words` around the casts of
  `bytemuck`.
  - `rng`, `sampling`, `dyadic`, `bits`: streams, random decisions, exact numbers, packed bits.
  - `clause_bank`: dense, shared and sparse clauses and their feedback.
  - `models`: the models, one module each, and what they share.
  - `encoder`, `booleanizer`, `vocabulary`, `text`, `data`: from samples and tables to literals.
  - `serial`, `saved`: the bytes of saved artifacts, and what is loaded from them.
  - `gpu`: what a device is handed to train or predict, and what is made of its answer.
  - `clause_inspect`: clauses and weights of any model.
- `tests/` runs the library.
- `app/` is the program around it: files, threads, floating point and the device itself.

## What is proved beyond the contracts

Public proof functions state what holds of several operations together. Some of them:

- What was saved can be loaded, and the loaded model predicts and trains on as the saved one; only
  the wish to train in parallel is not saved
  (`saved::save_load::lemma_saved_loads`, `saved::vanilla::lemma_reloaded_alike` and their kin).
- Growing the feature space changes no score (`lemma_grow_keeps_scores`,
  `lemma_grow_keeps_sparse_scores`).
- Absorbed literals stay absorbed (`lemma_include_absorbs`, `lemma_exclude_absorbs`,
  `lemma_absorbed_stay`).
- An output of an autoencoder never learns from its own feature (`lemma_feature_hidden`).
- A device that follows the decisions it was handed trains the machine that the host would have trained
  (`gpu::session::lemma_device_trains_alike`), and replicas on it make of the machine what threads
  would have made (`gpu::replicas::lemma_replicas_train_alike`).
- An epoch visits every sample once (`lemma_epoch_order_permutes`).
