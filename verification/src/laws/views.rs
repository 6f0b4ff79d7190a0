//! Lists are seen entry by entry.
use crate::booleanizer::Number;
use crate::clause_bank::automata::flags;
use crate::clause_bank::feedback::{
    clause_models, weights_of, ClassBank, ClassModel, Clause, ClauseModel,
};
use crate::clause_bank::shared::{shared_model, weight_rows, SharedClause};
use crate::clause_bank::sparse::{sparse_models, SparseClause};
use crate::data::{
    char_rows, dataset_view, number_rows, numeric_lines, row_bytes, DataError, NumericLine,
};
use crate::gpu::buffers::{
    class_streams, longs_as_ints, positions_of, signed_as_ints, streams_of, widened, words_as_ints,
};
use crate::models::classification::convolutional_classifier::raw_rows;
use crate::models::classification::data_parallel::state_models;
use crate::models::classification::sparse_classifier::{
    positions, sparse_class_models, SparseClass,
};
use crate::models::classification::vanilla_classifier::{class_models, MachineState};
use crate::rng::Rng;
use crate::serial::{patterns, raw_positions};
use crate::text::texts;
use crate::vocabulary::{sample_texts, token_texts};
use vstd::prelude::*;

verus! {

/// The rows of a dataset are those that were read, each in its place.
pub proof fn lemma_rows_are_seen(
    xs: Seq<Vec<u8>>,
    ys: Vec<usize>,
    table: Vec<Vec<u8>>,
    numbers: Seq<Vec<Number>>,
    chars: Seq<Vec<char>>,
    lines: Seq<NumericLine>,
    images: Seq<&[u8]>,
)
    ensures
        row_bytes(xs) == xs.map_values(|x: Vec<u8>| x@),
        number_rows(numbers) == numbers.map_values(|x: Vec<Number>| x@),
        char_rows(chars) == chars.map_values(|x: Vec<char>| x@),
        numeric_lines(lines) == lines.map_values(
            |l: NumericLine| (l.line, l.columns@.map_values(|c: Vec<char>| c@)),
        ),
        raw_rows(images) == images.map_values(|x: &[u8]| x@),
        dataset_view(Ok((table, ys))) == Ok::<(Seq<Seq<u8>>, Seq<usize>), DataError>(
            (table@.map_values(|x: Vec<u8>| x@), ys@),
        ),
        forall|e: DataError|
            #[trigger] dataset_view(Err(e)) == Err::<(Seq<Seq<u8>>, Seq<usize>), DataError>(e),
{
    assert(row_bytes(xs) =~= xs.map_values(|x: Vec<u8>| x@));
    assert(row_bytes(table@) =~= table@.map_values(|x: Vec<u8>| x@));
    assert(number_rows(numbers) =~= numbers.map_values(|x: Vec<Number>| x@));
    assert(char_rows(chars) =~= chars.map_values(|x: Vec<char>| x@));
    assert forall|i: int| 0 <= i < lines.len() implies char_rows(#[trigger] lines[i].columns@)
        == lines[i].columns@.map_values(|c: Vec<char>| c@) by {
        assert(char_rows(lines[i].columns@) =~= lines[i].columns@.map_values(|c: Vec<char>| c@));
    }
    assert(numeric_lines(lines) =~= lines.map_values(
        |l: NumericLine| (l.line, l.columns@.map_values(|c: Vec<char>| c@)),
    ));
    assert(raw_rows(images) =~= images.map_values(|x: &[u8]| x@));
}

/// The tokens of samples are seen as texts, each in its place.
pub proof fn lemma_tokens_are_seen(tokens: Seq<&str>, samples: Seq<&[&str]>, owned: Seq<String>)
    ensures
        token_texts(tokens) == tokens.map_values(|t: &str| t@),
        sample_texts(samples) == samples.map_values(|s: &[&str]| s@.map_values(|t: &str| t@)),
        texts(owned) == owned.map_values(|t: String| t@),
{
    assert(token_texts(tokens) =~= tokens.map_values(|t: &str| t@));
    assert forall|i: int| 0 <= i < samples.len() implies token_texts(#[trigger] samples[i]@)
        == samples[i]@.map_values(|t: &str| t@) by {
        assert(token_texts(samples[i]@) =~= samples[i]@.map_values(|t: &str| t@));
    }
    assert(sample_texts(samples) =~= samples.map_values(
        |s: &[&str]| s@.map_values(|t: &str| t@),
    ));
    assert(texts(owned) =~= owned.map_values(|t: String| t@));
}

/// The clauses and classes of a model are seen as values, each in its place.
pub proof fn lemma_banks_are_seen(
    clauses: Seq<Clause>,
    models: Seq<ClauseModel>,
    classes: Seq<ClassBank>,
    shared: Seq<SharedClause>,
    weights: Seq<Vec<i32>>,
    pools: Seq<SparseClause>,
    sparse: Seq<SparseClass>,
    states: Seq<MachineState>,
)
    ensures
        clause_models(clauses) == clauses.map_values(|c: Clause| c@),
        weights_of(models) == models.map_values(|c: ClauseModel| c.weight),
        class_models(classes) == classes.map_values(|c: ClassBank| c@),
        shared_model(shared).autos == shared.map_values(|c: SharedClause| c.auto@),
        shared_model(shared).rngs == shared.map_values(|c: SharedClause| c.rng@),
        weight_rows(weights) == weights.map_values(|w: Vec<i32>| w@),
        sparse_models(pools) == pools.map_values(|c: SparseClause| c@),
        sparse_class_models(sparse) == sparse.map_values(|c: SparseClass| c@),
        state_models(states) == states.map_values(|s: MachineState| s@),
{
    assert(clause_models(clauses) =~= clauses.map_values(|c: Clause| c@));
    assert(weights_of(models) =~= models.map_values(|c: ClauseModel| c.weight));
    assert(class_models(classes) =~= classes.map_values(|c: ClassBank| c@));
    assert(shared_model(shared).autos =~= shared.map_values(|c: SharedClause| c.auto@));
    assert(shared_model(shared).rngs =~= shared.map_values(|c: SharedClause| c.rng@));
    assert(weight_rows(weights) =~= weights.map_values(|w: Vec<i32>| w@));
    assert(sparse_models(pools) =~= pools.map_values(|c: SparseClause| c@));
    assert(sparse_class_models(sparse) =~= sparse.map_values(|c: SparseClass| c@));
    assert(state_models(states) =~= states.map_values(|s: MachineState| s@));
}

/// Streams and numbers are seen as values, each in its place.
pub proof fn lemma_numbers_are_seen(
    rngs: Seq<Rng>,
    numbers: Seq<Number>,
    models: Seq<ClauseModel>,
    classes: Seq<ClassModel>,
    bytes: Seq<u8>,
    words: Seq<u32>,
    longs: Seq<u64>,
    signed: Seq<i32>,
)
    ensures
        positions(rngs) == rngs.map_values(|r: Rng| r@),
        raw_positions(rngs) == rngs.map_values(|r: Rng| r@),
        positions_of(rngs) == rngs.map_values(|r: Rng| r@),
        patterns(numbers) == numbers.map_values(|v: Number| v.0),
        streams_of(models) == models.map_values(|c: ClauseModel| c.rng),
        class_streams(classes) == classes.map_values(|c: ClassModel| c.rng),
        flags(bytes) == bytes.map_values(|b: u8| b == 1),
        widened(bytes) == bytes.map_values(|b: u8| b as u32),
        words_as_ints(words) == words.map_values(|w: u32| w as int),
        longs_as_ints(longs) == longs.map_values(|w: u64| w as int),
        signed_as_ints(signed) == signed.map_values(
            |v: i32|
                if v < 0 {
                    0x1_0000_0000 + v
                } else {
                    v as int
                },
        ),
{
    assert(positions(rngs) =~= rngs.map_values(|r: Rng| r@));
    assert(raw_positions(rngs) =~= rngs.map_values(|r: Rng| r@));
    assert(positions_of(rngs) =~= rngs.map_values(|r: Rng| r@));
    assert(patterns(numbers) =~= numbers.map_values(|v: Number| v.0));
    assert(streams_of(models) =~= models.map_values(|c: ClauseModel| c.rng));
    assert(class_streams(classes) =~= classes.map_values(|c: ClassModel| c.rng));
    assert(flags(bytes) =~= bytes.map_values(|b: u8| b == 1));
    assert(widened(bytes) =~= bytes.map_values(|b: u8| b as u32));
    assert(words_as_ints(words) =~= words.map_values(|w: u32| w as int));
    assert(longs_as_ints(longs) =~= longs.map_values(|w: u64| w as int));
    assert(signed_as_ints(signed) =~= signed.map_values(
        |v: i32|
            if v < 0 {
                0x1_0000_0000 + v
            } else {
                v as int
            },
    ));
}

} // verus!
