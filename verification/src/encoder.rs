//! Encoded samples and batches, and the encoders that produce them.
use crate::bits::{bit_at, lemma_same_bits, literal, no_bits, pack, words_for, words_needed};
use crate::booleanizer::{lemma_origins_len, Booleanizer, Number};
use crate::vocabulary::{
    first_columns, first_vocabulary, sample_texts, token_count, token_texts, Vocabulary,
    VocabularyModel,
};
use vstd::prelude::*;
use vstd::slice::slice_subrange;

verus! {

/// One sample as packed literals.
#[derive(Clone, Debug)]
pub struct EncodedSample(pub Vec<u64>);

/// A batch of samples as packed literals, one row of `words` words after the other.
#[derive(Clone, Debug)]
pub struct EncodedBatch {
    pub data: Vec<u64>,
    pub n: usize,
    pub words: usize,
}

/// `ws` holds the literals of the features `x`, and nothing else.
pub open spec fn encodes(ws: Seq<u64>, x: Seq<u8>, n_features: int) -> bool {
    &&& ws.len() == words_needed(2 * n_features)
    &&& forall|l: int|
        0 <= l < 64 * ws.len() ==> #[trigger] bit_at(ws, l) == (l < 2 * n_features && literal(
            x,
            n_features,
            l,
        ))
}

/// Features have one encoding only: however they were packed, the words are the same.
pub proof fn lemma_encoding_unique(a: Seq<u64>, b: Seq<u64>, x: Seq<u8>, n_features: int)
    requires
        encodes(a, x, n_features),
        encodes(b, x, n_features),
    ensures
        a == b,
{
    lemma_same_bits(a, b);
}

impl EncodedSample {
    /// Packs the features `bits`, each 0 or not, into a sample.
    pub fn from_bits(bits: &[u8], n_features: usize) -> (r: Self)
        requires
            bits@.len() == n_features,
            2 * n_features <= usize::MAX,
        ensures
            encodes(r.0@, bits@, n_features as int),
    {
        let mut out: Vec<u64> = no_bits(words_for(2 * n_features));
        pack(bits, n_features, &mut out);
        EncodedSample(out)
    }
}

impl EncodedBatch {
    pub open spec fn wf(&self) -> bool {
        self.data@.len() == self.n * self.words
    }

    /// The packed literals of sample `i`.
    pub open spec fn sample(&self, i: int) -> Seq<u64> {
        self.data@.subrange(i * self.words, (i + 1) * self.words)
    }

    /// The number of samples.
    pub fn len(&self) -> (r: usize)
        ensures
            r == self.n,
    {
        self.n
    }

    /// Whether the batch holds no sample.
    pub fn is_empty(&self) -> (r: bool)
        ensures
            r == (self.n == 0),
    {
        self.n == 0
    }

    /// The packed literals of sample `i`.
    pub fn row(&self, i: usize) -> (r: &[u64])
        requires
            self.wf(),
            i < self.n,
        ensures
            r@ == self.sample(i as int),
            r@.len() == self.words,
    {
        proof {
            self.lemma_row(i as int);
            assert(self.data@.len() == self.data.len());
        }
        slice_subrange(self.data.as_slice(), i * self.words, (i + 1) * self.words)
    }

    /// A row lies within the batch.
    pub proof fn lemma_row(&self, i: int)
        requires
            self.wf(),
            0 <= i < self.n,
        ensures
            0 <= i * self.words <= (i + 1) * self.words <= self.data@.len(),
            (i + 1) * self.words == i * self.words + self.words,
    {
        let w = self.words as int;
        let n = self.n as int;
        assert((i + 1) * w == i * w + w) by (nonlinear_arith);
        assert(0 <= i * w && (i + 1) * w <= n * w) by (nonlinear_arith)
            requires
                0 <= i < n,
                w >= 0,
        ;
    }

    /// A batch of `n` rows of `words` packed words.
    pub fn from_words(data: Vec<u64>, n: usize, words: usize) -> (r: Self)
        requires
            data@.len() == n * words,
        ensures
            r.wf(),
            r.data@ == data@,
            r.n == n,
            r.words == words,
    {
        EncodedBatch { data, n, words }
    }

    /// Packs rows of features, each 0 or not, into a batch.
    pub fn from_bit_rows(rows: &[&[u8]], n_features: usize) -> (r: Self)
        requires
            2 * n_features <= usize::MAX,
            rows@.len() * words_needed(2 * n_features) <= usize::MAX,
            forall|i: int| 0 <= i < rows@.len() ==> (#[trigger] rows@[i])@.len() == n_features,
        ensures
            r.wf(),
            r.n == rows@.len(),
            r.words == words_needed(2 * n_features),
            forall|i: int|
                0 <= i < r.n ==> encodes(#[trigger] r.sample(i), rows@[i]@, n_features as int),
    {
        let words: usize = words_for(2 * n_features);
        let n: usize = rows.len();
        let mut batch: EncodedBatch = EncodedBatch { data: Vec::new(), n: 0, words };
        let mut i: usize = 0;
        proof {
            assert(0 * words == 0) by (nonlinear_arith);
        }
        while i < n
            invariant
                i <= n,
                n == rows@.len(),
                2 * n_features <= usize::MAX,
                words == words_needed(2 * n_features),
                n * words <= usize::MAX,
                batch.wf(),
                batch.n == i,
                batch.words == words,
                forall|j: int| 0 <= j < n ==> (#[trigger] rows@[j])@.len() == n_features,
                forall|j: int|
                    0 <= j < i ==> encodes(#[trigger] batch.sample(j), rows@[j]@, n_features as int),
            decreases n - i,
        {
            let s: EncodedSample = EncodedSample::from_bits(rows[i], n_features);
            batch.push(&s);
            i = i + 1;
        }
        batch
    }

    /// Appends one sample.
    pub fn push(&mut self, s: &EncodedSample)
        requires
            old(self).wf(),
            s.0@.len() == old(self).words,
            old(self).n < usize::MAX,
        ensures
            final(self).wf(),
            final(self).n == old(self).n + 1,
            final(self).words == old(self).words,
            final(self).sample(old(self).n as int) == s.0@,
            forall|i: int|
                0 <= i < old(self).n ==> #[trigger] final(self).sample(i) == old(self).sample(i),
    {
        let ghost before = *self;
        let w: usize = self.words;
        let mut k: usize = 0;
        while k < w
            invariant
                k <= w,
                s.0@.len() == w,
                self.n == before.n,
                self.words == w,
                self.data@ == before.data@ + s.0@.subrange(0, k as int),
            decreases w - k,
        {
            self.data.push(s.0[k]);
            k = k + 1;
            proof {
                assert(s.0@.subrange(0, k as int) =~= s.0@.subrange(0, k - 1).push(s.0@[k - 1]));
            }
        }
        self.n = self.n + 1;
        proof {
            let n = before.n as int;
            let ww = w as int;
            assert((n + 1) * ww == n * ww + ww) by (nonlinear_arith);
            assert(s.0@.subrange(0, ww) =~= s.0@);
            assert(self.sample(n) =~= s.0@);
            assert forall|i: int| 0 <= i < n implies #[trigger] self.sample(i) == before.sample(i) by {
                before.lemma_row(i);
                assert(self.sample(i) =~= before.sample(i));
            }
        }
    }
}

/// What an encoder takes.
pub enum EncoderKind {
    /// Features that are 0 or not.
    Binary,
    /// Numbers, compared with thresholds.
    Numeric { booleanizer: Booleanizer },
    /// Tokens of the form `column::value`.
    Categorical { vocabulary: Vocabulary },
}

/// Encodes raw samples into packed literals.
pub struct Encoder {
    pub kind: EncoderKind,
    pub n_features: usize,
    pub words: usize,
}

/// The batch holds the literals of `n` samples with the features `x(i)`.
pub open spec fn batch_encodes(batch: &EncodedBatch, rows: Seq<Seq<u8>>, n_features: int) -> bool {
    &&& batch.wf()
    &&& batch.n == rows.len()
    &&& batch.words == words_needed(2 * n_features)
    &&& forall|i: int| 0 <= i < batch.n ==> encodes(#[trigger] batch.sample(i), rows[i], n_features)
}

impl Encoder {
    pub open spec fn wf(&self) -> bool {
        &&& 2 * self.n_features <= usize::MAX
        &&& self.words == words_needed(2 * self.n_features)
        &&& match self.kind {
            EncoderKind::Binary => true,
            EncoderKind::Numeric { booleanizer } => booleanizer.bits().len() == self.n_features,
            EncoderKind::Categorical { vocabulary } => vocabulary.wf()
                && vocabulary@.index.len() == self.n_features,
        }
    }

    /// The booleanizer of a numeric encoder.
    pub open spec fn numeric(&self) -> Booleanizer {
        self.kind->booleanizer
    }

    /// The vocabulary of a categorical encoder.
    pub open spec fn vocabulary(&self) -> VocabularyModel {
        self.kind->vocabulary@
    }

    /// An encoder for features that are 0 or not.
    pub fn for_binary(n_features: usize) -> (r: Self)
        requires
            n_features >= 1,
            2 * n_features <= usize::MAX,
        ensures
            r.wf(),
            r.kind is Binary,
            r.n_features == n_features,
    {
        Encoder { kind: EncoderKind::Binary, n_features, words: words_for(2 * n_features) }
    }

    /// An encoder for rows of numbers, with `n_thresholds` thresholds per number that are
    /// fitted to `xs`.
    pub fn fit_numeric(xs: &[&[Number]], n_thresholds: usize) -> (r: Self)
        requires
            xs@.len() >= 1,
            n_thresholds < usize::MAX,
            (xs@.len() - 1) * n_thresholds <= usize::MAX,
            2 * (xs@[0]@.len() * n_thresholds) <= usize::MAX,
            forall|i: int| 0 <= i < xs@.len() ==> xs@[0]@.len() <= (#[trigger] xs@[i])@.len(),
            forall|i: int, f: int|
                0 <= i < xs@.len() && 0 <= f < xs@[0]@.len() ==> !(#[trigger] xs@[i]@[f]).is_nan(),
        ensures
            r.wf(),
            r.kind is Numeric,
            r.n_features == xs@[0]@.len() * n_thresholds,
            r.numeric().rises(),
            r.numeric().fitted(xs@, xs@[0]@.len(), n_thresholds as nat),
    {
        let n_raw: usize = xs[0].len();
        let booleanizer: Booleanizer = Booleanizer::fit(xs, n_raw, n_thresholds);
        proof {
            assert forall|f: int| 0 <= f < n_raw implies (#[trigger] booleanizer.thresholds@[f])@.len()
                == n_thresholds by {}
            lemma_origins_len(booleanizer.thresholds@, n_raw as nat, n_thresholds as nat);
        }
        let n_features: usize = booleanizer.n_output_features();
        Encoder {
            kind: EncoderKind::Numeric { booleanizer },
            n_features,
            words: words_for(2 * n_features),
        }
    }

    /// An encoder for samples given as tokens, with the vocabulary of `samples`.
    pub fn fit_categorical(samples: &[&[&str]]) -> (r: Self)
        requires
            samples@.len() >= 1,
            2 * (2 * token_count(sample_texts(samples@), samples@.len()) + 1) <= usize::MAX,
        ensures
            r.wf(),
            r.kind is Categorical,
            r.vocabulary().index == first_vocabulary(sample_texts(samples@)),
            first_columns(sample_texts(samples@), r.vocabulary().columns),
    {
        let vocabulary: Vocabulary = Vocabulary::fit(samples);
        let n_features: usize = vocabulary.index.len();
        Encoder {
            kind: EncoderKind::Categorical { vocabulary },
            n_features,
            words: words_for(2 * n_features),
        }
    }

    /// Adds the unseen tokens and columns of samples to the vocabulary, and returns how many
    /// features were added.
    pub fn extend_categorical(&mut self, samples: &[&[&str]]) -> (r: usize)
        requires
            old(self).wf(),
            old(self).kind is Categorical,
            2 * (old(self).n_features + 2 * token_count(sample_texts(samples@), samples@.len()))
                <= usize::MAX,
        ensures
            final(self).wf(),
            final(self).kind is Categorical,
            final(self).vocabulary() == old(self).vocabulary().extended(sample_texts(samples@)),
            final(self).n_features == old(self).n_features + r,
    {
        let added: usize = match &mut self.kind {
            EncoderKind::Categorical { vocabulary } => vocabulary.extend(samples),
            _ => 0,
        };
        self.n_features = self.n_features + added;
        self.words = words_for(2 * self.n_features);
        added
    }

    /// Makes a binary encoder take more features, which come after those it had.
    pub fn grow_binary(&mut self, new_n_features: usize)
        requires
            old(self).wf(),
            old(self).kind is Binary,
            new_n_features >= old(self).n_features,
            2 * new_n_features <= usize::MAX,
        ensures
            final(self).wf(),
            final(self).kind is Binary,
            final(self).n_features == new_n_features,
    {
        self.n_features = new_n_features;
        self.words = words_for(2 * new_n_features);
    }

    /// The number of features that models get.
    pub fn n_features(&self) -> (r: usize)
        ensures
            r == self.n_features,
    {
        self.n_features
    }

    /// The raw feature and the threshold of a feature of a numeric encoder.
    pub fn bit_origin(&self, bit: usize) -> (r: (usize, Number))
        requires
            self.wf(),
            self.kind is Numeric,
            bit < self.n_features,
        ensures
            r == self.numeric().bits()[bit as int],
    {
        match &self.kind {
            EncoderKind::Numeric { booleanizer } => booleanizer.bit_origin(bit),
            _ => (0, Number(0)),
        }
    }

    /// The token of a feature of a categorical encoder.
    pub fn vocab_token(&self, bit: usize) -> (r: &str)
        requires
            self.wf(),
            self.kind is Categorical,
            bit < self.n_features,
        ensures
            r@ == self.vocabulary().index[bit as int],
    {
        match &self.kind {
            EncoderKind::Categorical { vocabulary } => vocabulary.index[bit].as_str(),
            _ => "",
        }
    }

    /// Encodes a row of features that are 0 or not.
    pub fn encode_one(&self, x: &[u8]) -> (r: EncodedSample)
        requires
            self.wf(),
            self.kind is Binary,
            self.n_features <= x@.len(),
        ensures
            encodes(r.0@, x@, self.n_features as int),
    {
        let mut out: Vec<u64> = no_bits(self.words);
        pack(x, self.n_features, &mut out);
        EncodedSample(out)
    }

    /// Encodes a row of numbers.
    pub fn encode_one_numeric(&self, x: &[Number]) -> (r: EncodedSample)
        requires
            self.wf(),
            self.kind is Numeric,
            self.numeric().takes(x@),
        ensures
            encodes(r.0@, self.numeric().bits_of_row(x@), self.n_features as int),
    {
        let mut bin: Vec<u8> = vec![0u8; self.n_features];
        match &self.kind {
            EncoderKind::Numeric { booleanizer } => booleanizer.transform_row(x, &mut bin),
            _ => {},
        }
        proof {
            assert(bin@ =~= self.numeric().bits_of_row(x@));
        }
        EncodedSample::from_bits(&bin, self.n_features)
    }

    /// Encodes a sample given as tokens.
    pub fn encode_one_categorical(&self, tokens: &[&str]) -> (r: EncodedSample)
        requires
            self.wf(),
            self.kind is Categorical,
        ensures
            encodes(
                r.0@,
                self.vocabulary().features_of(token_texts(tokens@)),
                self.n_features as int,
            ),
    {
        let bin: Vec<u8> = match &self.kind {
            EncoderKind::Categorical { vocabulary } => vocabulary.features(tokens),
            _ => Vec::new(),
        };
        EncodedSample::from_bits(&bin, self.n_features)
    }

    /// Encodes rows of features that are 0 or not.
    pub fn encode_batch(&self, xs: &[&[u8]]) -> (r: EncodedBatch)
        requires
            self.wf(),
            self.kind is Binary,
            xs@.len() * self.words <= usize::MAX,
            forall|i: int| 0 <= i < xs@.len() ==> self.n_features <= (#[trigger] xs@[i])@.len(),
        ensures
            batch_encodes(
                &r,
                Seq::new(xs@.len(), |i: int| xs@[i]@),
                self.n_features as int,
            ),
    {
        let ghost rows = Seq::new(xs@.len(), |i: int| xs@[i]@);
        let mut batch: EncodedBatch = EncodedBatch { data: Vec::new(), n: 0, words: self.words };
        proof {
            assert(0 * self.words == 0) by (nonlinear_arith);
        }
        let mut i: usize = 0;
        while i < xs.len()
            invariant
                self.wf(),
                self.kind is Binary,
                forall|i: int| 0 <= i < xs@.len() ==> self.n_features <= (#[trigger] xs@[i])@.len(),
                rows == Seq::new(xs@.len(), |i: int| xs@[i]@),
                i <= xs@.len(),
                batch_encodes(&batch, rows.take(i as int), self.n_features as int),
            decreases xs@.len() - i,
        {
            let s: EncodedSample = self.encode_one(xs[i]);
            let ghost before = batch;
            batch.push(&s);
            proof {
                lemma_batch_grows(&before, &batch, rows, i as int, s.0@, self.n_features as int);
            }
            i = i + 1;
        }
        proof {
            assert(rows.take(rows.len() as int) =~= rows);
        }
        batch
    }

    /// Encodes rows of numbers.
    pub fn encode_batch_numeric(&self, xs: &[&[Number]]) -> (r: EncodedBatch)
        requires
            self.wf(),
            self.kind is Numeric,
            xs@.len() * self.words <= usize::MAX,
            forall|i: int| 0 <= i < xs@.len() ==> self.numeric().takes((#[trigger] xs@[i])@),
        ensures
            batch_encodes(
                &r,
                Seq::new(xs@.len(), |i: int| self.numeric().bits_of_row(xs@[i]@)),
                self.n_features as int,
            ),
    {
        let ghost rows = Seq::new(xs@.len(), |i: int| self.numeric().bits_of_row(xs@[i]@));
        let mut batch: EncodedBatch = EncodedBatch { data: Vec::new(), n: 0, words: self.words };
        proof {
            assert(0 * self.words == 0) by (nonlinear_arith);
        }
        let mut i: usize = 0;
        while i < xs.len()
            invariant
                self.wf(),
                self.kind is Numeric,
                forall|i: int| 0 <= i < xs@.len() ==> self.numeric().takes((#[trigger] xs@[i])@),
                rows == Seq::new(xs@.len(), |i: int| self.numeric().bits_of_row(xs@[i]@)),
                i <= xs@.len(),
                batch_encodes(&batch, rows.take(i as int), self.n_features as int),
            decreases xs@.len() - i,
        {
            let s: EncodedSample = self.encode_one_numeric(xs[i]);
            let ghost before = batch;
            batch.push(&s);
            proof {
                lemma_batch_grows(&before, &batch, rows, i as int, s.0@, self.n_features as int);
            }
            i = i + 1;
        }
        proof {
            assert(rows.take(rows.len() as int) =~= rows);
        }
        batch
    }

    /// Encodes samples given as tokens.
    pub fn encode_batch_categorical(&self, samples: &[&[&str]]) -> (r: EncodedBatch)
        requires
            self.wf(),
            self.kind is Categorical,
            samples@.len() * self.words <= usize::MAX,
        ensures
            batch_encodes(
                &r,
                Seq::new(
                    samples@.len(),
                    |i: int| self.vocabulary().features_of(token_texts(samples@[i]@)),
                ),
                self.n_features as int,
            ),
    {
        let ghost rows = Seq::new(
            samples@.len(),
            |i: int| self.vocabulary().features_of(token_texts(samples@[i]@)),
        );
        let mut batch: EncodedBatch = EncodedBatch { data: Vec::new(), n: 0, words: self.words };
        proof {
            assert(0 * self.words == 0) by (nonlinear_arith);
        }
        let mut i: usize = 0;
        while i < samples.len()
            invariant
                self.wf(),
                self.kind is Categorical,
                rows == Seq::new(
                    samples@.len(),
                    |i: int| self.vocabulary().features_of(token_texts(samples@[i]@)),
                ),
                i <= samples@.len(),
                batch_encodes(&batch, rows.take(i as int), self.n_features as int),
            decreases samples@.len() - i,
        {
            let s: EncodedSample = self.encode_one_categorical(samples[i]);
            let ghost before = batch;
            batch.push(&s);
            proof {
                lemma_batch_grows(&before, &batch, rows, i as int, s.0@, self.n_features as int);
            }
            i = i + 1;
        }
        proof {
            assert(rows.take(rows.len() as int) =~= rows);
        }
        batch
    }
}

/// A batch with one more encoded sample.
proof fn lemma_batch_grows(
    before: &EncodedBatch,
    after: &EncodedBatch,
    rows: Seq<Seq<u8>>,
    i: int,
    s: Seq<u64>,
    n_features: int,
)
    requires
        0 <= i < rows.len(),
        batch_encodes(before, rows.take(i), n_features),
        encodes(s, rows[i], n_features),
        after.wf(),
        after.n == before.n + 1,
        after.words == before.words,
        after.sample(before.n as int) == s,
        forall|k: int| 0 <= k < before.n ==> #[trigger] after.sample(k) == before.sample(k),
    ensures
        batch_encodes(after, rows.take(i + 1), n_features),
{
    assert forall|k: int| 0 <= k < after.n implies encodes(
        #[trigger] after.sample(k),
        rows.take(i + 1)[k],
        n_features,
    ) by {
        if k < before.n {
            assert(encodes(before.sample(k), rows.take(i)[k], n_features));
        }
    }
}

/// A row that is encoded with more features keeps the literals of the features that it had.
pub proof fn lemma_wider_encoding(a: Seq<u64>, x: Seq<u8>, n: int, b: Seq<u64>, wide: Seq<u8>, m: int)
    requires
        0 <= n <= m,
        encodes(a, x, n),
        encodes(b, wide, m),
        forall|i: int| 0 <= i < n ==> #[trigger] wide[i] == x[i],
    ensures
        forall|i: int| 0 <= i < n ==> #[trigger] bit_at(b, i) == bit_at(a, i),
        forall|i: int| 0 <= i < n ==> bit_at(b, m + i) == #[trigger] bit_at(a, n + i),
        forall|i: int| n <= i < m ==> #[trigger] bit_at(b, i) == (wide[i] != 0),
{
    assert forall|i: int| 0 <= i < n implies bit_at(b, m + i) == #[trigger] bit_at(a, n + i) by {
        assert(wide[i] == x[i]);
    }
    assert forall|i: int| 0 <= i < n implies #[trigger] bit_at(b, i) == bit_at(a, i) by {
        assert(wide[i] == x[i]);
    }
}

} // verus!
