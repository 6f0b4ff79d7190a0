//! Vocabularies of categorical tokens, and the features that tokens switch on.
use crate::bits::byte_of;
use crate::text::{
    column, column_of, insert_text, lemma_before_strict, lemma_before_total,
    lemma_before_transitive, lemma_sorted_list_unique, lists, sorted_list, text_before, text_sorted,
    texts,
};
use vstd::hash_map::StringHashMap;
use vstd::prelude::*;
use vstd::string::StringExecFns;

verus! {

/// The texts of all tokens of samples.
pub open spec fn sample_texts(samples: Seq<&[&str]>) -> Seq<Seq<Seq<char>>> {
    Seq::new(samples.len(), |i: int| token_texts(samples[i]@))
}

/// The texts of tokens.
pub open spec fn token_texts(tokens: Seq<&str>) -> Seq<Seq<char>> {
    Seq::new(tokens.len(), |k: int| tokens[k]@)
}

/// `t` is a token of one of the samples.
pub open spec fn has_token(samples: Seq<Seq<Seq<char>>>, t: Seq<char>) -> bool {
    exists|i: int, k: int|
        0 <= i < samples.len() && 0 <= k < samples[i].len() && #[trigger] samples[i][k] == t
}

/// `c` is the column of a token of one of the samples.
pub open spec fn has_column(samples: Seq<Seq<Seq<char>>>, c: Seq<char>) -> bool {
    exists|t: Seq<char>| #[trigger] has_token(samples, t) && column_of(t) == c
}

/// The number of tokens in the first `n` samples.
pub open spec fn token_count(samples: Seq<Seq<Seq<char>>>, n: nat) -> nat
    decreases n,
{
    if n == 0 {
        0
    } else {
        token_count(samples, (n - 1) as nat) + samples[n - 1].len()
    }
}

/// The token that stands for the unseen values of a column.
pub open spec fn unknown_of(c: Seq<char>) -> Seq<char> {
    c + "::<UNK>"@
}

/// The token that stands for the tokens of unseen columns.
pub open spec fn outside() -> Seq<char> {
    "<OOV>"@
}

/// The place of the last occurrence of a token.
pub open spec fn is_last_place(index: Seq<Seq<char>>, t: Seq<char>, i: int) -> bool {
    0 <= i < index.len() && index[i] == t && forall|j: int| i < j < index.len() ==> #[trigger] index[j] != t
}

/// A vocabulary, as values.
#[verifier::ext_equal]
pub struct VocabularyModel {
    /// The token of every feature.
    pub index: Seq<Seq<char>>,
    /// The feature of every token; of a token that occurs twice, the last.
    pub places: Map<Seq<char>, usize>,
    /// The feature of the unseen values of every column.
    pub columns: Map<Seq<char>, usize>,
}

/// Tokens with a feature each, and columns with a feature for unseen values.
pub struct Vocabulary {
    pub vocab: StringHashMap<usize>,
    pub index: Vec<String>,
    pub known_columns: StringHashMap<usize>,
}

impl View for Vocabulary {
    type V = VocabularyModel;

    open spec fn view(&self) -> VocabularyModel {
        VocabularyModel {
            index: texts(self.index@),
            places: self.vocab@,
            columns: self.known_columns@,
        }
    }
}

/// The vocabulary of samples: their tokens in increasing order, then a token for the unseen
/// values of each column, in increasing order of columns, and then one for unseen columns.
pub open spec fn first_index(tokens: Seq<Seq<char>>, columns: Seq<Seq<char>>) -> Seq<Seq<char>> {
    tokens + Seq::new(columns.len(), |i: int| unknown_of(columns[i])) + seq![outside()]
}

impl VocabularyModel {
    pub open spec fn wf(self) -> bool {
        &&& forall|t: Seq<char>|
            #[trigger] self.places.contains_key(t) <==> self.index.contains(t)
        &&& forall|t: Seq<char>|
            #[trigger] self.places.contains_key(t) ==> is_last_place(
                self.index,
                t,
                self.places[t] as int,
            )
        &&& self.index.contains(outside())
        &&& forall|c: Seq<char>|
            #[trigger] self.columns.contains_key(c) ==> self.columns[c] < self.index.len()
                && self.index[self.columns[c] as int] == unknown_of(c)
    }

    /// The feature that a token switches on: its own, or that of the unseen values of its
    /// column, or that of unseen columns.
    pub open spec fn slot_of(self, t: Seq<char>) -> usize {
        if self.places.contains_key(t) {
            self.places[t]
        } else if self.columns.contains_key(column_of(t)) {
            self.columns[column_of(t)]
        } else {
            self.places[outside()]
        }
    }

    /// Feature `i` is switched on by one of the tokens.
    pub open spec fn is_on(self, tokens: Seq<Seq<char>>, i: int) -> bool {
        exists|k: int| 0 <= k < tokens.len() && #[trigger] self.slot_of(tokens[k]) == i
    }

    /// The features of a sample with the given tokens.
    pub open spec fn features_of(self, tokens: Seq<Seq<char>>) -> Seq<u8> {
        Seq::new(self.index.len(), |i: int| byte_of(self.is_on(tokens, i)))
    }

    /// With one more token at the end.
    pub open spec fn with_token(self, t: Seq<char>) -> VocabularyModel {
        VocabularyModel {
            index: self.index.push(t),
            places: self.places.insert(t, self.index.len() as usize),
            ..self
        }
    }

    /// With the first `n` tokens at the end.
    pub open spec fn with_tokens(self, tokens: Seq<Seq<char>>, n: nat) -> VocabularyModel
        decreases n,
    {
        if n == 0 {
            self
        } else {
            self.with_tokens(tokens, (n - 1) as nat).with_token(tokens[n - 1])
        }
    }

    /// With one more column, whose unseen values get a feature of their own unless their token
    /// has one.
    pub open spec fn with_column(self, c: Seq<char>) -> VocabularyModel {
        let base = if self.places.contains_key(unknown_of(c)) {
            self
        } else {
            self.with_token(unknown_of(c))
        };
        VocabularyModel { columns: base.columns.insert(c, base.places[unknown_of(c)]), ..base }
    }

    /// With the first `n` columns.
    pub open spec fn with_columns(self, columns: Seq<Seq<char>>, n: nat) -> VocabularyModel
        decreases n,
    {
        if n == 0 {
            self
        } else {
            self.with_columns(columns, (n - 1) as nat).with_column(columns[n - 1])
        }
    }

    /// The unseen tokens of samples.
    pub open spec fn new_tokens(self, samples: Seq<Seq<Seq<char>>>) -> Set<Seq<char>> {
        Set::new(|t: Seq<char>| has_token(samples, t) && !self.places.contains_key(t))
    }

    /// The unseen columns of samples.
    pub open spec fn new_columns(self, samples: Seq<Seq<Seq<char>>>) -> Set<Seq<char>> {
        Set::new(|c: Seq<char>| has_column(samples, c) && !self.columns.contains_key(c))
    }

    /// The vocabulary after it met more samples: their unseen tokens in increasing order, and
    /// then their unseen columns in increasing order, come after everything that was there.
    pub open spec fn extended(self, samples: Seq<Seq<Seq<char>>>) -> VocabularyModel {
        let tokens = sorted_list(self.new_tokens(samples));
        let columns = sorted_list(self.new_columns(samples));
        self.with_tokens(tokens, tokens.len()).with_columns(columns, columns.len())
    }
}

/// All tokens of samples.
pub open spec fn all_tokens(samples: Seq<Seq<Seq<char>>>) -> Set<Seq<char>> {
    Set::new(|t: Seq<char>| has_token(samples, t))
}

/// All columns of samples.
pub open spec fn all_columns(samples: Seq<Seq<Seq<char>>>) -> Set<Seq<char>> {
    Set::new(|c: Seq<char>| has_column(samples, c))
}

/// The vocabulary of samples that is built first.
pub open spec fn first_vocabulary(samples: Seq<Seq<Seq<char>>>) -> Seq<Seq<char>> {
    first_index(sorted_list(all_tokens(samples)), sorted_list(all_columns(samples)))
}

/// The feature of the unseen values of each column in a vocabulary that is built first.
pub open spec fn first_columns(samples: Seq<Seq<Seq<char>>>, columns: Map<Seq<char>, usize>) -> bool {
    let n = sorted_list(all_tokens(samples)).len();
    let cols = sorted_list(all_columns(samples));
    &&& forall|c: Seq<char>| #[trigger] columns.contains_key(c) <==> has_column(samples, c)
    &&& forall|i: int| 0 <= i < cols.len() ==> columns[#[trigger] cols[i]] == n + i
}

/// `t` is among the first `k` tokens of sample `i`, or in an earlier sample.
pub open spec fn met(samples: Seq<Seq<Seq<char>>>, i: int, k: int, t: Seq<char>) -> bool {
    exists|a: int, b: int|
        0 <= a < samples.len() && 0 <= b < samples[a].len() && (a < i || (a == i && b < k))
            && #[trigger] samples[a][b] == t
}

/// `c` is the column of such a token.
pub open spec fn met_column(samples: Seq<Seq<Seq<char>>>, i: int, k: int, c: Seq<char>) -> bool {
    exists|t: Seq<char>| #[trigger] met(samples, i, k, t) && column_of(t) == c
}

/// One more token has been met.
proof fn lemma_met_step(samples: Seq<Seq<Seq<char>>>, i: int, k: int)
    requires
        0 <= i < samples.len(),
        0 <= k < samples[i].len(),
    ensures
        forall|t: Seq<char>|
            #[trigger] met(samples, i, k + 1, t) <==> (met(samples, i, k, t) || t == samples[i][k]),
        forall|c: Seq<char>|
            #[trigger] met_column(samples, i, k + 1, c) <==> (met_column(samples, i, k, c) || c
                == column_of(samples[i][k])),
{
    assert forall|t: Seq<char>|
        #[trigger] met(samples, i, k + 1, t) <==> (met(samples, i, k, t) || t == samples[i][k]) by {
        if t == samples[i][k] {
            assert(samples[i][k] == t);
        }
        if met(samples, i, k, t) {
            let (a, b) = choose|a: int, b: int|
                0 <= a < samples.len() && 0 <= b < samples[a].len() && (a < i || (a == i && b < k))
                    && #[trigger] samples[a][b] == t;
            assert(samples[a][b] == t);
        }
        if met(samples, i, k + 1, t) && t != samples[i][k] {
            let (a, b) = choose|a: int, b: int|
                0 <= a < samples.len() && 0 <= b < samples[a].len() && (a < i || (a == i && b < k + 1))
                    && #[trigger] samples[a][b] == t;
            assert(samples[a][b] == t);
        }
    }
    assert forall|c: Seq<char>|
        #[trigger] met_column(samples, i, k + 1, c) <==> (met_column(samples, i, k, c) || c
            == column_of(samples[i][k])) by {
        if c == column_of(samples[i][k]) {
            assert(met(samples, i, k + 1, samples[i][k]));
        }
        if met_column(samples, i, k, c) {
            let t = choose|t: Seq<char>| #[trigger] met(samples, i, k, t) && column_of(t) == c;
            assert(met(samples, i, k + 1, t));
        }
        if met_column(samples, i, k + 1, c) && c != column_of(samples[i][k]) {
            let t = choose|t: Seq<char>| #[trigger] met(samples, i, k + 1, t) && column_of(t) == c;
            assert(met(samples, i, k, t));
        }
    }
}

/// A sample has been met wholly.
proof fn lemma_met_row(samples: Seq<Seq<Seq<char>>>, i: int)
    requires
        0 <= i < samples.len(),
    ensures
        forall|t: Seq<char>|
            #[trigger] met(samples, i + 1, 0, t) <==> met(samples, i, samples[i].len() as int, t),
        forall|c: Seq<char>|
            #[trigger] met_column(samples, i + 1, 0, c) <==> met_column(
                samples,
                i,
                samples[i].len() as int,
                c,
            ),
{
    assert forall|t: Seq<char>|
        #[trigger] met(samples, i + 1, 0, t) <==> met(samples, i, samples[i].len() as int, t) by {
        if met(samples, i + 1, 0, t) {
            let (a, b) = choose|a: int, b: int|
                0 <= a < samples.len() && 0 <= b < samples[a].len() && (a < i + 1 || (a == i + 1 && b
                    < 0)) && #[trigger] samples[a][b] == t;
            assert(samples[a][b] == t);
        }
        if met(samples, i, samples[i].len() as int, t) {
            let (a, b) = choose|a: int, b: int|
                0 <= a < samples.len() && 0 <= b < samples[a].len() && (a < i || (a == i && b
                    < samples[i].len())) && #[trigger] samples[a][b] == t;
            assert(samples[a][b] == t);
        }
    }
    assert forall|c: Seq<char>|
        #[trigger] met_column(samples, i + 1, 0, c) <==> met_column(
            samples,
            i,
            samples[i].len() as int,
            c,
        ) by {
        if met_column(samples, i + 1, 0, c) {
            let t = choose|t: Seq<char>| #[trigger] met(samples, i + 1, 0, t) && column_of(t) == c;
            assert(met(samples, i, samples[i].len() as int, t));
        }
        if met_column(samples, i, samples[i].len() as int, c) {
            let t = choose|t: Seq<char>|
                #[trigger] met(samples, i, samples[i].len() as int, t) && column_of(t) == c;
            assert(met(samples, i + 1, 0, t));
        }
    }
}

/// All samples have been met.
proof fn lemma_met_all(samples: Seq<Seq<Seq<char>>>)
    ensures
        forall|t: Seq<char>|
            #[trigger] met(samples, samples.len() as int, 0, t) <==> has_token(samples, t),
        forall|c: Seq<char>|
            #[trigger] met_column(samples, samples.len() as int, 0, c) <==> has_column(samples, c),
{
    let n = samples.len() as int;
    assert forall|t: Seq<char>| #[trigger] met(samples, n, 0, t) <==> has_token(samples, t) by {
        if has_token(samples, t) {
            let (a, b) = choose|a: int, b: int|
                0 <= a < samples.len() && 0 <= b < samples[a].len() && #[trigger] samples[a][b] == t;
            assert(samples[a][b] == t);
        }
    }
    assert forall|c: Seq<char>| #[trigger] met_column(samples, n, 0, c) <==> has_column(samples, c) by {
        if met_column(samples, n, 0, c) {
            let t = choose|t: Seq<char>| #[trigger] met(samples, n, 0, t) && column_of(t) == c;
            assert(has_token(samples, t));
        }
        if has_column(samples, c) {
            let t = choose|t: Seq<char>| #[trigger] has_token(samples, t) && column_of(t) == c;
            assert(met(samples, n, 0, t));
        }
    }
}

/// The tokens and the columns of samples that are not known, both in increasing order.
fn collect_new(
    samples: &[&[&str]],
    vocab: &StringHashMap<usize>,
    known: &StringHashMap<usize>,
) -> (r: (Vec<String>, Vec<String>))
    ensures
        lists(
            texts(r.0@),
            Set::new(
                |t: Seq<char>| has_token(sample_texts(samples@), t) && !vocab@.contains_key(t),
            ),
        ),
        lists(
            texts(r.1@),
            Set::new(
                |c: Seq<char>| has_column(sample_texts(samples@), c) && !known@.contains_key(c),
            ),
        ),
        r.0@.len() <= token_count(sample_texts(samples@), samples@.len()),
        r.1@.len() <= token_count(sample_texts(samples@), samples@.len()),
{
    let ghost all = sample_texts(samples@);
    let mut tokens: Vec<String> = Vec::new();
    let mut columns: Vec<String> = Vec::new();
    let mut i: usize = 0;
    while i < samples.len()
        invariant
            i <= samples@.len(),
            all == sample_texts(samples@),
            text_sorted(texts(tokens@)),
            text_sorted(texts(columns@)),
            forall|t: Seq<char>|
                #[trigger] texts(tokens@).contains(t) <==> (met(all, i as int, 0, t)
                    && !vocab@.contains_key(t)),
            forall|c: Seq<char>|
                #[trigger] texts(columns@).contains(c) <==> (met_column(all, i as int, 0, c)
                    && !known@.contains_key(c)),
            tokens@.len() <= token_count(all, i as nat),
            columns@.len() <= token_count(all, i as nat),
        decreases samples@.len() - i,
    {
        let sample: &[&str] = samples[i];
        let mut k: usize = 0;
        while k < sample.len()
            invariant
                i < samples@.len(),
                sample == samples@[i as int],
                k <= sample@.len(),
                all == sample_texts(samples@),
                text_sorted(texts(tokens@)),
                text_sorted(texts(columns@)),
                forall|t: Seq<char>|
                    #[trigger] texts(tokens@).contains(t) <==> (met(all, i as int, k as int, t)
                        && !vocab@.contains_key(t)),
                forall|c: Seq<char>|
                    #[trigger] texts(columns@).contains(c) <==> (met_column(all, i as int, k as int, c)
                        && !known@.contains_key(c)),
                tokens@.len() <= token_count(all, i as nat) + k,
                columns@.len() <= token_count(all, i as nat) + k,
            decreases sample@.len() - k,
        {
            let token: &str = sample[k];
            proof {
                lemma_met_step(all, i as int, k as int);
                assert(all[i as int][k as int] == token@);
            }
            if !vocab.contains_key(token) {
                insert_text(&mut tokens, token);
            }
            let col: String = column(token);
            if !known.contains_key(col.as_str()) {
                insert_text(&mut columns, col.as_str());
            }
            k = k + 1;
        }
        proof {
            lemma_met_row(all, i as int);
            assert(all[i as int].len() == sample@.len());
        }
        i = i + 1;
    }
    proof {
        lemma_met_all(all);
    }
    (tokens, columns)
}

impl VocabularyModel {
    /// A token that is not there can be added.
    pub proof fn lemma_with_token(self, t: Seq<char>)
        requires
            self.wf(),
            !self.places.contains_key(t),
            self.index.len() <= usize::MAX,
        ensures
            self.with_token(t).wf(),
            self.with_token(t).places[t] == self.index.len(),
    {
        let w = self.with_token(t);
        assert forall|u: Seq<char>| #[trigger] w.places.contains_key(u) <==> w.index.contains(u) by {
            if self.index.contains(u) {
                let i = choose|i: int| 0 <= i < self.index.len() && self.index[i] == u;
                assert(w.index[i] == u);
                assert(self.places.contains_key(u));
            }
            if u == t {
                assert(w.index[self.index.len() as int] == t);
            }
            if w.index.contains(u) && u != t {
                let i = choose|i: int| 0 <= i < w.index.len() && w.index[i] == u;
                assert(self.index[i] == u);
                assert(self.index.contains(u));
                assert(self.places.contains_key(u));
            }
            if w.places.contains_key(u) && u != t {
                assert(self.places.contains_key(u));
                assert(self.index.contains(u));
            }
        }
        assert forall|u: Seq<char>| #[trigger] w.places.contains_key(u) implies is_last_place(
            w.index,
            u,
            w.places[u] as int,
        ) by {
            if u != t {
                assert(self.places.contains_key(u));
                assert(is_last_place(self.index, u, self.places[u] as int));
            }
        }
        assert(w.index.contains(outside())) by {
            let i = choose|i: int| 0 <= i < self.index.len() && self.index[i] == outside();
            assert(w.index[i] == outside());
        }
        assert forall|c: Seq<char>| #[trigger] w.columns.contains_key(c) implies w.columns[c]
            < w.index.len() && w.index[w.columns[c] as int] == unknown_of(c) by {
            assert(self.columns.contains_key(c));
        }
    }

    /// A column can be added.
    pub proof fn lemma_with_column(self, c: Seq<char>)
        requires
            self.wf(),
            self.index.len() <= usize::MAX,
        ensures
            self.with_column(c).wf(),
    {
        let unk = unknown_of(c);
        let base = if self.places.contains_key(unk) {
            self
        } else {
            self.with_token(unk)
        };
        if !self.places.contains_key(unk) {
            self.lemma_with_token(unk);
        }
        assert(base.places.contains_key(unk));
        assert(is_last_place(base.index, unk, base.places[unk] as int));
        let w = self.with_column(c);
        assert forall|d: Seq<char>| #[trigger] w.columns.contains_key(d) implies w.columns[d]
            < w.index.len() && w.index[w.columns[d] as int] == unknown_of(d) by {
            if d != c {
                assert(base.columns.contains_key(d));
            }
        }
        assert forall|u: Seq<char>| #[trigger] w.places.contains_key(u) <==> w.index.contains(u) by {
            assert(base.places.contains_key(u) <==> base.index.contains(u));
        }
        assert forall|u: Seq<char>| #[trigger] w.places.contains_key(u) implies is_last_place(
            w.index,
            u,
            w.places[u] as int,
        ) by {
            assert(base.places.contains_key(u));
        }
    }

    /// Every token switches on a feature of the vocabulary.
    pub proof fn lemma_slot(self, t: Seq<char>)
        requires
            self.wf(),
        ensures
            self.slot_of(t) < self.index.len(),
    {
        if self.places.contains_key(t) {
            assert(is_last_place(self.index, t, self.places[t] as int));
        } else if self.columns.contains_key(column_of(t)) {
        } else {
            assert(self.places.contains_key(outside()));
            assert(is_last_place(self.index, outside(), self.places[outside()] as int));
        }
    }
}

/// The place of every token; of a token that occurs twice, the last.
pub fn places_of(index: &Vec<String>) -> (r: StringHashMap<usize>)
    ensures
        forall|t: Seq<char>| #[trigger] r@.contains_key(t) <==> texts(index@).contains(t),
        forall|t: Seq<char>|
            #[trigger] r@.contains_key(t) ==> is_last_place(texts(index@), t, r@[t] as int),
{
    let ghost ix = texts(index@);
    let mut vocab: StringHashMap<usize> = StringHashMap::new();
    let mut i: usize = 0;
    while i < index.len()
        invariant
            i <= index@.len(),
            ix == texts(index@),
            forall|t: Seq<char>|
                #[trigger] vocab@.contains_key(t) <==> ix.take(i as int).contains(t),
            forall|t: Seq<char>|
                #[trigger] vocab@.contains_key(t) ==> is_last_place(
                    ix.take(i as int),
                    t,
                    vocab@[t] as int,
                ),
        decreases index@.len() - i,
    {
        let ghost before = vocab@;
        let ghost seen = ix.take(i as int);
        vocab.insert(index[i].clone(), i);
        proof {
            let now = ix.take(i + 1);
            assert(now =~= seen.push(ix[i as int]));
            assert forall|t: Seq<char>| #[trigger] vocab@.contains_key(t) <==> now.contains(t) by {
                if seen.contains(t) {
                    let k = choose|k: int| 0 <= k < seen.len() && seen[k] == t;
                    assert(now[k] == t);
                    assert(before.contains_key(t));
                }
                if t == ix[i as int] {
                    assert(now[i as int] == t);
                }
                if now.contains(t) && t != ix[i as int] {
                    let k = choose|k: int| 0 <= k < now.len() && now[k] == t;
                    assert(seen[k] == t);
                    assert(seen.contains(t));
                    assert(before.contains_key(t));
                }
                if vocab@.contains_key(t) && t != ix[i as int] {
                    assert(before.contains_key(t));
                }
            }
            assert forall|t: Seq<char>| #[trigger] vocab@.contains_key(t) implies is_last_place(
                now,
                t,
                vocab@[t] as int,
            ) by {
                if t != ix[i as int] {
                    assert(before.contains_key(t));
                    assert(is_last_place(seen, t, before[t] as int));
                }
            }
        }
        i = i + 1;
    }
    assert(ix.take(ix.len() as int) =~= ix);
    vocab
}

impl Vocabulary {
    pub open spec fn wf(&self) -> bool {
        self@.wf()
    }

    /// Builds the vocabulary of samples.
    pub fn fit(samples: &[&[&str]]) -> (r: Self)
        ensures
            r.wf(),
            r@.index == first_vocabulary(sample_texts(samples@)),
            first_columns(sample_texts(samples@), r@.columns),
            r@.index.len() <= 2 * token_count(sample_texts(samples@), samples@.len()) + 1,
    {
        let ghost all = sample_texts(samples@);
        let none: StringHashMap<usize> = StringHashMap::new();
        let (tokens, columns): (Vec<String>, Vec<String>) = collect_new(samples, &none, &none);
        proof {
            let ts = texts(tokens@);
            let cs = texts(columns@);
            assert(lists(ts, all_tokens(all)));
            assert(lists(cs, all_columns(all)));
            lemma_sorted_list_unique(ts, sorted_list(all_tokens(all)), all_tokens(all));
            lemma_sorted_list_unique(cs, sorted_list(all_columns(all)), all_columns(all));
        }
        let ghost ts = texts(tokens@);
        let ghost cs = texts(columns@);
        let mut index: Vec<String> = tokens;
        let mut known: StringHashMap<usize> = StringHashMap::new();
        let mut i: usize = 0;
        while i < columns.len()
            invariant
                i <= columns@.len(),
                cs == texts(columns@),
                text_sorted(cs),
                texts(index@) == ts + Seq::new(i as nat, |k: int| unknown_of(cs[k])),
                forall|c: Seq<char>|
                    #[trigger] known@.contains_key(c) <==> exists|k: int| 0 <= k < i && cs[k] == c,
                forall|k: int| 0 <= k < i ==> known@[#[trigger] cs[k]] == ts.len() + k,
            decreases columns@.len() - i,
        {
            let ghost before = known@;
            let ghost index0 = texts(index@);
            let mut unk: String = columns[i].clone();
            unk.append("::<UNK>");
            known.insert(columns[i].clone(), index.len());
            index.push(unk);
            proof {
                assert(texts(index@) =~= index0.push(unknown_of(cs[i as int])));
                assert(texts(index@) =~= ts + Seq::new((i + 1) as nat, |k: int| unknown_of(cs[k])));
                assert forall|k: int| 0 <= k < i + 1 implies known@[#[trigger] cs[k]] == ts.len() + k by {
                    if k < i {
                        assert(text_before(cs[k], cs[i as int]));
                        lemma_before_strict(cs[k], cs[i as int]);
                    }
                }
                assert forall|c: Seq<char>|
                    #[trigger] known@.contains_key(c) <==> exists|k: int| 0 <= k < i + 1 && cs[k] == c by {
                    if known@.contains_key(c) {
                        if c == cs[i as int] {
                        } else {
                            assert(before.contains_key(c));
                            let k = choose|k: int| 0 <= k < i && cs[k] == c;
                            assert(cs[k] == c);
                        }
                    }
                    if exists|k: int| 0 <= k < i + 1 && cs[k] == c {
                        let k = choose|k: int| 0 <= k < i + 1 && cs[k] == c;
                        if k < i {
                            assert(before.contains_key(c));
                        }
                    }
                }
            }
            i = i + 1;
        }
        let ghost index1 = texts(index@);
        index.push("<OOV>".to_owned());
        let ghost ix = texts(index@);
        proof {
            assert(ix =~= index1.push(outside()));
            assert(ix =~= first_vocabulary(all));
        }
        let vocab: StringHashMap<usize> = places_of(&index);
        let r: Vocabulary = Vocabulary { vocab, index, known_columns: known };
        proof {
            assert(ix[ix.len() - 1] == outside());
            assert forall|c: Seq<char>| #[trigger] r@.columns.contains_key(c) implies r@.columns[c]
                < ix.len() && ix[r@.columns[c] as int] == unknown_of(c) by {
                let k = choose|k: int| 0 <= k < columns@.len() && cs[k] == c;
                assert(known@[cs[k]] == ts.len() + k);
            }
            assert forall|c: Seq<char>| #[trigger] r@.columns.contains_key(c) <==> has_column(all, c) by {
                assert(cs.contains(c) <==> all_columns(all).contains(c));
                if r@.columns.contains_key(c) {
                    let k = choose|k: int| 0 <= k < columns@.len() && cs[k] == c;
                    assert(cs[k] == c);
                    assert(cs.contains(c));
                }
                if cs.contains(c) {
                    let k = choose|k: int| 0 <= k < cs.len() && cs[k] == c;
                    assert(cs[k] == c);
                }
            }
        }
        r
    }

    /// Adds the unseen tokens and columns of samples, and returns how many features were added.
    pub fn extend(&mut self, samples: &[&[&str]]) -> (r: usize)
        requires
            old(self).wf(),
        ensures
            final(self).wf(),
            final(self)@ == old(self)@.extended(sample_texts(samples@)),
            r == final(self)@.index.len() - old(self)@.index.len(),
            r <= 2 * token_count(sample_texts(samples@), samples@.len()),
    {
        let ghost all = sample_texts(samples@);
        let ghost m = self@;
        let before: usize = self.index.len();
        let (tokens, columns): (Vec<String>, Vec<String>) = collect_new(
            samples,
            &self.vocab,
            &self.known_columns,
        );
        let ghost ts = texts(tokens@);
        let ghost cs = texts(columns@);
        proof {
            assert(lists(ts, m.new_tokens(all)));
            assert(lists(cs, m.new_columns(all)));
            lemma_sorted_list_unique(ts, sorted_list(m.new_tokens(all)), m.new_tokens(all));
            lemma_sorted_list_unique(cs, sorted_list(m.new_columns(all)), m.new_columns(all));
            assert forall|k: int| 0 <= k < ts.len() implies !m.places.contains_key(#[trigger] ts[k]) by {
                assert(ts.contains(ts[k]));
            }
        }
        let mut i: usize = 0;
        while i < tokens.len()
            invariant
                i <= tokens@.len(),
                ts == texts(tokens@),
                lists(ts, m.new_tokens(all)),
                self.wf(),
                self@ == m.with_tokens(ts, i as nat),
                self@.index.len() == m.index.len() + i,
                forall|k: int| i <= k < ts.len() ==> !self@.places.contains_key(#[trigger] ts[k]),
            decreases tokens@.len() - i,
        {
            let ghost was = self@;
            let place: usize = self.index.len();
            proof {
                was.lemma_with_token(ts[i as int]);
                assert forall|k: int| i < k < ts.len() implies !was.with_token(
                    ts[i as int],
                ).places.contains_key(#[trigger] ts[k]) by {
                    assert(text_before(ts[i as int], ts[k]));
                    lemma_before_strict(ts[i as int], ts[k]);
                }
            }
            self.vocab.insert(tokens[i].clone(), place);
            self.index.push(tokens[i].clone());
            proof {
                assert(self@.index =~= was.with_token(ts[i as int]).index);
                assert(self@ =~= was.with_token(ts[i as int]));
            }
            i = i + 1;
            proof {
                assert(m.with_tokens(ts, i as nat) == m.with_tokens(ts, (i - 1) as nat).with_token(
                    ts[i - 1],
                ));
            }
        }
        let ghost mid = self@;
        let mut i: usize = 0;
        while i < columns.len()
            invariant
                i <= columns@.len(),
                cs == texts(columns@),
                self.wf(),
                self@ == mid.with_columns(cs, i as nat),
                mid.index.len() <= self@.index.len() <= mid.index.len() + i,
            decreases columns@.len() - i,
        {
            let ghost was = self@;
            let mut unk: String = columns[i].clone();
            unk.append("::<UNK>");
            let place: usize = self.index.len();
            proof {
                was.lemma_with_column(cs[i as int]);
                assert(unk@ == unknown_of(cs[i as int]));
            }
            let found: Option<usize> = match self.vocab.get(unk.as_str()) {
                Some(p) => Some(*p),
                None => None,
            };
            match found {
                Some(p) => {
                    self.known_columns.insert(columns[i].clone(), p);
                },
                None => {
                    proof {
                        was.lemma_with_token(unk@);
                    }
                    self.vocab.insert(unk.clone(), place);
                    self.index.push(unk);
                    self.known_columns.insert(columns[i].clone(), place);
                    proof {
                        assert(self@.index =~= was.with_token(unknown_of(cs[i as int])).index);
                    }
                },
            }
            proof {
                assert(self@ =~= was.with_column(cs[i as int]));
            }
            i = i + 1;
            proof {
                assert(mid.with_columns(cs, i as nat) == mid.with_columns(
                    cs,
                    (i - 1) as nat,
                ).with_column(cs[i - 1]));
            }
        }
        self.index.len() - before
    }

    /// The feature that a token switches on.
    pub fn slot(&self, token: &str) -> (r: usize)
        requires
            self.wf(),
        ensures
            r == self@.slot_of(token@),
            r < self@.index.len(),
    {
        proof {
            self@.lemma_slot(token@);
            assert(self@.places.contains_key(outside()));
        }
        match self.vocab.get(token) {
            Some(i) => *i,
            None => {
                let col: String = column(token);
                match self.known_columns.get(col.as_str()) {
                    Some(i) => *i,
                    None => match self.vocab.get("<OOV>") {
                        Some(i) => *i,
                        None => 0,
                    },
                }
            },
        }
    }

    /// The features of a sample with the given tokens.
    pub fn features(&self, tokens: &[&str]) -> (r: Vec<u8>)
        requires
            self.wf(),
        ensures
            r@ == self@.features_of(token_texts(tokens@)),
    {
        let ghost ts = token_texts(tokens@);
        let mut r: Vec<u8> = vec![0u8; self.index.len()];
        let mut k: usize = 0;
        while k < tokens.len()
            invariant
                self.wf(),
                ts == token_texts(tokens@),
                k <= tokens@.len(),
                r@.len() == self@.index.len(),
                forall|i: int|
                    0 <= i < r@.len() ==> #[trigger] r@[i] == byte_of(
                        self@.is_on(ts.take(k as int), i),
                    ),
            decreases tokens@.len() - k,
        {
            let slot: usize = self.slot(tokens[k]);
            let ghost before = r@;
            r.set(slot, 1);
            proof {
                let seen = ts.take(k as int);
                let now = ts.take(k + 1);
                assert forall|i: int| 0 <= i < r@.len() implies #[trigger] r@[i] == byte_of(
                    self@.is_on(now, i),
                ) by {
                    assert(before[i] == byte_of(self@.is_on(seen, i)));
                    if self@.is_on(seen, i) {
                        let j = choose|j: int|
                            0 <= j < seen.len() && #[trigger] self@.slot_of(seen[j]) == i;
                        assert(self@.slot_of(now[j]) == i);
                    }
                    if i == slot {
                        assert(self@.slot_of(now[k as int]) == i);
                    }
                    if self@.is_on(now, i) && i != slot {
                        let j = choose|j: int|
                            0 <= j < now.len() && #[trigger] self@.slot_of(now[j]) == i;
                        assert(self@.slot_of(seen[j]) == i);
                    }
                }
            }
            k = k + 1;
        }
        proof {
            assert(ts.take(ts.len() as int) =~= ts);
            assert(r@ =~= self@.features_of(ts));
        }
        r
    }
}

/// A vocabulary and one that came from it by additions: what was there kept its place.
pub open spec fn keeps(m: VocabularyModel, w: VocabularyModel) -> bool {
    &&& m.index.len() <= w.index.len()
    &&& forall|i: int| 0 <= i < m.index.len() ==> #[trigger] w.index[i] == m.index[i]
    &&& forall|t: Seq<char>|
        #[trigger] m.places.contains_key(t) ==> w.places.contains_key(t) && w.places[t] == m.places[t]
    &&& forall|c: Seq<char>|
        #[trigger] m.columns.contains_key(c) ==> w.columns.contains_key(c) && w.columns[c]
            == m.columns[c]
}

proof fn lemma_tokens_keep(m: VocabularyModel, tokens: Seq<Seq<char>>, n: nat)
    requires
        n <= tokens.len(),
        text_sorted(tokens),
        forall|k: int| 0 <= k < tokens.len() ==> !m.places.contains_key(#[trigger] tokens[k]),
    ensures
        keeps(m, m.with_tokens(tokens, n)),
        m.with_tokens(tokens, n).columns == m.columns,
        forall|t: Seq<char>|
            #[trigger] m.with_tokens(tokens, n).places.contains_key(t) ==> m.places.contains_key(t)
                || exists|k: int| 0 <= k < n && tokens[k] == t,
    decreases n,
{
    if n > 0 {
        lemma_tokens_keep(m, tokens, (n - 1) as nat);
        let w = m.with_tokens(tokens, (n - 1) as nat);
        let v = m.with_tokens(tokens, n);
        assert(v == w.with_token(tokens[n - 1]));
        assert forall|t: Seq<char>| #[trigger] v.places.contains_key(t) implies m.places.contains_key(t)
            || exists|k: int| 0 <= k < n && tokens[k] == t by {
            if t == tokens[n - 1] {
                assert(tokens[n - 1] == t);
            } else {
                assert(w.places.contains_key(t));
                if !m.places.contains_key(t) {
                    let k = choose|k: int| 0 <= k < n - 1 && tokens[k] == t;
                    assert(tokens[k] == t);
                }
            }
        }
    }
}

proof fn lemma_columns_keep(m: VocabularyModel, columns: Seq<Seq<char>>, n: nat)
    requires
        n <= columns.len(),
        text_sorted(columns),
        forall|k: int| 0 <= k < columns.len() ==> !m.columns.contains_key(#[trigger] columns[k]),
    ensures
        keeps(m, m.with_columns(columns, n)),
        forall|c: Seq<char>|
            #[trigger] m.with_columns(columns, n).columns.contains_key(c) ==> m.columns.contains_key(c)
                || exists|k: int| 0 <= k < n && columns[k] == c,
    decreases n,
{
    if n > 0 {
        lemma_columns_keep(m, columns, (n - 1) as nat);
        let w = m.with_columns(columns, (n - 1) as nat);
        let v = m.with_columns(columns, n);
        let c = columns[n - 1];
        assert(v == w.with_column(c));
        if w.columns.contains_key(c) {
            let k = choose|k: int| 0 <= k < n - 1 && columns[k] == c;
            assert(text_before(columns[k], columns[n - 1]));
            lemma_before_strict(columns[k], columns[n - 1]);
        }
        assert forall|d: Seq<char>| #[trigger] v.columns.contains_key(d) implies m.columns.contains_key(d)
            || exists|k: int| 0 <= k < n && columns[k] == d by {
            if d == c {
                assert(columns[n - 1] == d);
            } else {
                assert(w.columns.contains_key(d));
                if !m.columns.contains_key(d) {
                    let k = choose|k: int| 0 <= k < n - 1 && columns[k] == d;
                    assert(columns[k] == d);
                }
            }
        }
    }
}

/// Added tokens have places, and the vocabulary stays well-formed.
proof fn lemma_tokens_added(m: VocabularyModel, tokens: Seq<Seq<char>>, n: nat)
    requires
        m.wf(),
        n <= tokens.len(),
        text_sorted(tokens),
        forall|k: int| 0 <= k < tokens.len() ==> !m.places.contains_key(#[trigger] tokens[k]),
        m.with_tokens(tokens, n).index.len() <= usize::MAX,
    ensures
        m.with_tokens(tokens, n).wf(),
        forall|k: int| 0 <= k < n ==> m.with_tokens(tokens, n).places.contains_key(#[trigger] tokens[k]),
    decreases n,
{
    if n > 0 {
        let w = m.with_tokens(tokens, (n - 1) as nat);
        let t = tokens[n - 1];
        assert(m.with_tokens(tokens, n) == w.with_token(t));
        lemma_tokens_added(m, tokens, (n - 1) as nat);
        lemma_tokens_keep(m, tokens, (n - 1) as nat);
        if w.places.contains_key(t) {
            let k = choose|k: int| 0 <= k < n - 1 && tokens[k] == t;
            assert(text_before(tokens[k], tokens[n - 1]));
            lemma_before_strict(tokens[k], tokens[n - 1]);
        }
        w.lemma_with_token(t);
    }
}

/// Added columns are known, and the vocabulary stays well-formed.
proof fn lemma_columns_added(m: VocabularyModel, columns: Seq<Seq<char>>, n: nat)
    requires
        m.wf(),
        n <= columns.len(),
        m.with_columns(columns, n).index.len() <= usize::MAX,
    ensures
        m.index.len() <= m.with_columns(columns, n).index.len(),
        m.with_columns(columns, n).wf(),
        forall|k: int|
            0 <= k < n ==> m.with_columns(columns, n).columns.contains_key(#[trigger] columns[k]),
    decreases n,
{
    if n > 0 {
        let w = m.with_columns(columns, (n - 1) as nat);
        assert(m.with_columns(columns, n) == w.with_column(columns[n - 1]));
        lemma_columns_added(m, columns, (n - 1) as nat);
        w.lemma_with_column(columns[n - 1]);
    }
}

/// Unseen tokens and columns of samples have a sorted list.
proof fn lemma_new_listed(m: VocabularyModel, samples: Seq<Seq<Seq<char>>>, ts: Seq<Seq<char>>, cs: Seq<Seq<char>>)
    requires
        lists(ts, m.new_tokens(samples)),
        lists(cs, m.new_columns(samples)),
    ensures
        sorted_list(m.new_tokens(samples)) == ts,
        sorted_list(m.new_columns(samples)) == cs,
{
    lemma_sorted_list_unique(ts, sorted_list(m.new_tokens(samples)), m.new_tokens(samples));
    lemma_sorted_list_unique(cs, sorted_list(m.new_columns(samples)), m.new_columns(samples));
}

impl VocabularyModel {
    /// What was in a vocabulary keeps its feature when the vocabulary is extended, the features
    /// for unseen values and unseen columns as well as those of tokens.
    pub proof fn lemma_extension_keeps(self, samples: Seq<Seq<Seq<char>>>)
        requires
            self.wf(),
        ensures
            keeps(self, self.extended(samples)),
            self.extended(samples).slot_of(outside()) == self.slot_of(outside()),
    {
        let ts = sorted_list(self.new_tokens(samples));
        let cs = sorted_list(self.new_columns(samples));
        lemma_listable(self.new_tokens(samples), samples);
        lemma_columns_listable(self.new_columns(samples), samples);
        assert(lists(ts, self.new_tokens(samples)));
        assert(lists(cs, self.new_columns(samples)));
        assert forall|k: int| 0 <= k < ts.len() implies !self.places.contains_key(#[trigger] ts[k]) by {
            assert(ts.contains(ts[k]));
        }
        lemma_tokens_keep(self, ts, ts.len());
        let mid = self.with_tokens(ts, ts.len());
        assert forall|k: int| 0 <= k < cs.len() implies !mid.columns.contains_key(#[trigger] cs[k]) by {
            assert(cs.contains(cs[k]));
        }
        lemma_columns_keep(mid, cs, cs.len());
        assert(self.places.contains_key(outside()));
        let w = self.extended(samples);
        assert forall|i: int| 0 <= i < self.index.len() implies #[trigger] w.index[i] == self.index[i] by {
            assert(mid.index[i] == self.index[i]);
        }
        assert forall|t: Seq<char>| #[trigger] self.places.contains_key(t) implies w.places.contains_key(t)
            && w.places[t] == self.places[t] by {
            assert(mid.places.contains_key(t));
        }
        assert forall|c: Seq<char>| #[trigger] self.columns.contains_key(c) implies w.columns.contains_key(c)
            && w.columns[c] == self.columns[c] by {
            assert(mid.columns.contains_key(c));
        }
    }

    /// A sample whose tokens are all in the vocabulary has the same features after an extension,
    /// and none of the new ones.
    pub proof fn lemma_extension_keeps_features(self, samples: Seq<Seq<Seq<char>>>, tokens: Seq<Seq<char>>)
        requires
            self.wf(),
            forall|k: int| 0 <= k < tokens.len() ==> self.places.contains_key(#[trigger] tokens[k]),
        ensures
            forall|i: int|
                0 <= i < self.index.len() ==> #[trigger] self.extended(samples).features_of(tokens)[i]
                    == self.features_of(tokens)[i],
            forall|i: int|
                self.index.len() <= i < self.extended(samples).index.len()
                    ==> #[trigger] self.extended(samples).features_of(tokens)[i] == 0,
    {
        self.lemma_extension_keeps(samples);
        let w = self.extended(samples);
        assert forall|k: int| 0 <= k < tokens.len() implies w.slot_of(#[trigger] tokens[k])
            == self.slot_of(tokens[k]) && self.slot_of(tokens[k]) < self.index.len() by {
            self.lemma_slot(tokens[k]);
        }
        assert forall|i: int| 0 <= i < w.index.len() implies #[trigger] w.is_on(tokens, i) == self.is_on(
            tokens,
            i,
        ) by {
            if w.is_on(tokens, i) {
                let k = choose|k: int| 0 <= k < tokens.len() && #[trigger] w.slot_of(tokens[k]) == i;
                assert(self.slot_of(tokens[k]) == i);
            }
            if self.is_on(tokens, i) {
                let k = choose|k: int| 0 <= k < tokens.len() && #[trigger] self.slot_of(tokens[k]) == i;
                assert(w.slot_of(tokens[k]) == i);
            }
        }
        assert forall|i: int| self.index.len() <= i < w.index.len() implies #[trigger] w.features_of(
            tokens,
        )[i] == 0 by {
            if self.is_on(tokens, i) {
                let k = choose|k: int| 0 <= k < tokens.len() && #[trigger] self.slot_of(tokens[k]) == i;
                assert(self.slot_of(tokens[k]) < self.index.len());
            }
            assert(w.is_on(tokens, i) == self.is_on(tokens, i));
        }
        assert forall|i: int| 0 <= i < self.index.len() implies #[trigger] w.features_of(tokens)[i]
            == self.features_of(tokens)[i] by {
            assert(w.is_on(tokens, i) == self.is_on(tokens, i));
        }
    }

    /// After an extension every token of the samples has a feature that bears its name, every
    /// column of theirs is known, and the same samples add nothing more.
    pub proof fn lemma_extension_covers(self, samples: Seq<Seq<Seq<char>>>)
        requires
            self.wf(),
            self.extended(samples).index.len() <= usize::MAX,
        ensures
            self.extended(samples).wf(),
            forall|t: Seq<char>|
                #[trigger] has_token(samples, t) ==> self.extended(samples).places.contains_key(t)
                    && self.extended(samples).places[t] < self.extended(samples).index.len()
                    && self.extended(samples).index[self.extended(samples).places[t] as int] == t,
            forall|c: Seq<char>|
                #[trigger] has_column(samples, c) ==> self.extended(samples).columns.contains_key(c),
            self.extended(samples).extended(samples) == self.extended(samples),
    {
        let ts = sorted_list(self.new_tokens(samples));
        let cs = sorted_list(self.new_columns(samples));
        lemma_listable(self.new_tokens(samples), samples);
        lemma_columns_listable(self.new_columns(samples), samples);
        assert(lists(ts, self.new_tokens(samples)));
        assert(lists(cs, self.new_columns(samples)));
        assert forall|k: int| 0 <= k < ts.len() implies !self.places.contains_key(#[trigger] ts[k]) by {
            assert(ts.contains(ts[k]));
        }
        let mid = self.with_tokens(ts, ts.len());
        let w = self.extended(samples);
        lemma_tokens_keep(self, ts, ts.len());
        assert forall|k: int| 0 <= k < cs.len() implies !mid.columns.contains_key(#[trigger] cs[k]) by {
            assert(cs.contains(cs[k]));
        }
        lemma_columns_keep(mid, cs, cs.len());
        lemma_tokens_added(self, ts, ts.len());
        lemma_columns_added(mid, cs, cs.len());
        assert forall|t: Seq<char>| #[trigger] has_token(samples, t) implies w.places.contains_key(t) by {
            if !self.places.contains_key(t) {
                assert(self.new_tokens(samples).contains(t));
                assert(ts.contains(t));
                let k = choose|k: int| 0 <= k < ts.len() && ts[k] == t;
                assert(mid.places.contains_key(ts[k]));
            } else {
                assert(mid.places.contains_key(t));
            }
        }
        assert forall|c: Seq<char>| #[trigger] has_column(samples, c) implies w.columns.contains_key(c) by {
            if !self.columns.contains_key(c) {
                assert(self.new_columns(samples).contains(c));
                assert(cs.contains(c));
                let k = choose|k: int| 0 <= k < cs.len() && cs[k] == c;
                assert(w.columns.contains_key(cs[k]));
            } else {
                assert(mid.columns.contains_key(c));
            }
        }
        w.lemma_extension_noop(samples);
    }

    /// A token of the vocabulary switches on the feature that bears its name.
    pub proof fn lemma_token_feature(self, tokens: Seq<Seq<char>>, k: int)
        requires
            self.wf(),
            0 <= k < tokens.len(),
            self.places.contains_key(tokens[k]),
        ensures
            self.places[tokens[k]] < self.index.len(),
            self.index[self.places[tokens[k]] as int] == tokens[k],
            self.features_of(tokens)[self.places[tokens[k]] as int] == 1,
    {
        assert(is_last_place(self.index, tokens[k], self.places[tokens[k]] as int));
        assert(self.slot_of(tokens[k]) == self.places[tokens[k]]);
        assert(self.is_on(tokens, self.places[tokens[k]] as int));
    }

    /// Samples without unseen tokens and columns change nothing.
    pub proof fn lemma_extension_noop(self, samples: Seq<Seq<Seq<char>>>)
        requires
            forall|t: Seq<char>| #[trigger] has_token(samples, t) ==> self.places.contains_key(t),
            forall|c: Seq<char>| #[trigger] has_column(samples, c) ==> self.columns.contains_key(c),
        ensures
            self.extended(samples) == self,
    {
        let none: Seq<Seq<char>> = seq![];
        assert(lists(none, self.new_tokens(samples)));
        assert(lists(none, self.new_columns(samples)));
        lemma_new_listed(self, samples, none, none);
    }
}

/// Some of the tokens of samples can be listed in increasing order.
pub proof fn lemma_listable(members: Set<Seq<char>>, samples: Seq<Seq<Seq<char>>>)
    requires
        forall|t: Seq<char>| #[trigger] members.contains(t) ==> has_token(samples, t),
    ensures
        lists(sorted_list(members), members),
{
    let all = samples.flatten();
    assert forall|t: Seq<char>| #[trigger] members.contains(t) implies all.contains(t) by {
        let (a, b) = choose|a: int, b: int|
            0 <= a < samples.len() && 0 <= b < samples[a].len() && #[trigger] samples[a][b] == t;
        lemma_flatten_contains(samples, a, b);
    }
    lemma_list_exists(members, all, all.len());
}

/// Some of the columns of samples can be listed in increasing order.
pub proof fn lemma_columns_listable(members: Set<Seq<char>>, samples: Seq<Seq<Seq<char>>>)
    requires
        forall|c: Seq<char>| #[trigger] members.contains(c) ==> has_column(samples, c),
    ensures
        lists(sorted_list(members), members),
{
    let flat = samples.flatten();
    let all = Seq::new(flat.len(), |i: int| column_of(flat[i]));
    assert forall|c: Seq<char>| #[trigger] members.contains(c) implies all.contains(c) by {
        let t = choose|t: Seq<char>| #[trigger] has_token(samples, t) && column_of(t) == c;
        let (a, b) = choose|a: int, b: int|
            0 <= a < samples.len() && 0 <= b < samples[a].len() && #[trigger] samples[a][b] == t;
        lemma_flatten_contains(samples, a, b);
        let i = choose|i: int| 0 <= i < flat.len() && flat[i] == t;
        assert(all[i] == c);
    }
    lemma_list_exists(members, all, all.len());
}

proof fn lemma_flatten_contains(samples: Seq<Seq<Seq<char>>>, a: int, b: int)
    requires
        0 <= a < samples.len(),
        0 <= b < samples[a].len(),
    ensures
        samples.flatten().contains(samples[a][b]),
    decreases samples.len(),
{
    let flat = samples.flatten();
    assert(flat == samples.first() + samples.drop_first().flatten());
    if a == 0 {
        assert(flat[b] == samples[0][b]);
    } else {
        lemma_flatten_contains(samples.drop_first(), a - 1, b);
        let rest = samples.drop_first().flatten();
        let i = choose|i: int| 0 <= i < rest.len() && rest[i] == samples[a][b];
        assert(flat[samples.first().len() + i] == samples[a][b]);
    }
}

/// The members of a set among the first `n` texts of a sequence can be listed.
proof fn lemma_list_exists(members: Set<Seq<char>>, all: Seq<Seq<char>>, n: nat)
    requires
        n <= all.len(),
        forall|t: Seq<char>|
            #[trigger] members.contains(t) ==> exists|i: int| 0 <= i < n && all[i] == t,
    ensures
        lists(sorted_list(members), members),
    decreases n,
{
    if n == 0 {
        let none: Seq<Seq<char>> = seq![];
        assert(lists(none, members));
    } else {
        let t = all[n - 1];
        let fewer = members.remove(t);
        assert forall|u: Seq<char>| #[trigger] fewer.contains(u) implies exists|i: int|
            0 <= i < n - 1 && all[i] == u by {
            assert(members.contains(u));
            let i = choose|i: int| 0 <= i < n && all[i] == u;
            assert(all[i] == u);
        }
        lemma_list_exists(fewer, all, (n - 1) as nat);
        let s = sorted_list(fewer);
        if members.contains(t) {
            let w = lemma_list_insert(s, t);
            assert forall|u: Seq<char>| #[trigger] w.contains(u) <==> members.contains(u) by {
                assert(s.contains(u) <==> fewer.contains(u));
            }
            assert(lists(w, members));
        } else {
            assert(members =~= fewer);
        }
    }
}

/// A text can be put into a sorted list.
proof fn lemma_list_insert(s: Seq<Seq<char>>, t: Seq<char>) -> (w: Seq<Seq<char>>)
    requires
        text_sorted(s),
        !s.contains(t),
    ensures
        text_sorted(w),
        forall|u: Seq<char>| #[trigger] w.contains(u) <==> (s.contains(u) || u == t),
    decreases s.len(),
{
    if s.len() == 0 {
        let w = seq![t];
        assert forall|u: Seq<char>| #[trigger] w.contains(u) <==> (s.contains(u) || u == t) by {
            if u == t {
                assert(w[0] == t);
            }
        }
        w
    } else {
        let last = s.last();
        assert(s.contains(last)) by {
            assert(s[s.len() - 1] == last);
        }
        lemma_before_total(last, t);
        if text_before(last, t) {
            let w = s.push(t);
            assert forall|i: int, j: int| 0 <= i < j < w.len() implies #[trigger] text_before(w[i], w[j]) by {
                if j == s.len() && i < s.len() - 1 {
                    assert(text_before(s[i], s[s.len() - 1]));
                    lemma_before_transitive(s[i], last, t);
                } else if j < s.len() {
                    assert(text_before(s[i], s[j]));
                }
            }
            assert forall|u: Seq<char>| #[trigger] w.contains(u) <==> (s.contains(u) || u == t) by {
                if s.contains(u) {
                    let i = choose|i: int| 0 <= i < s.len() && s[i] == u;
                    assert(w[i] == u);
                }
                if u == t {
                    assert(w[s.len() as int] == t);
                }
                if w.contains(u) && u != t {
                    let i = choose|i: int| 0 <= i < w.len() && w[i] == u;
                    assert(s[i] == u);
                }
            }
            w
        } else {
            let init = s.drop_last();
            assert forall|i: int, j: int| 0 <= i < j < init.len() implies #[trigger] text_before(
                init[i],
                init[j],
            ) by {
                assert(text_before(s[i], s[j]));
            }
            assert(!init.contains(t)) by {
                if init.contains(t) {
                    let i = choose|i: int| 0 <= i < init.len() && init[i] == t;
                    assert(s[i] == t);
                }
            }
            let v = lemma_list_insert(init, t);
            let w = v.push(last);
            assert forall|i: int, j: int| 0 <= i < j < w.len() implies #[trigger] text_before(w[i], w[j]) by {
                if j == v.len() {
                    assert(v.contains(v[i]));
                    if v[i] != t {
                        assert(init.contains(v[i]));
                        let k = choose|k: int| 0 <= k < init.len() && init[k] == v[i];
                        assert(text_before(s[k], s[s.len() - 1]));
                    }
                } else {
                    assert(text_before(v[i], v[j]));
                }
            }
            assert forall|u: Seq<char>| #[trigger] w.contains(u) <==> (s.contains(u) || u == t) by {
                if w.contains(u) {
                    let i = choose|i: int| 0 <= i < w.len() && w[i] == u;
                    if i < v.len() {
                        assert(v.contains(v[i]));
                        if u != t {
                            assert(init.contains(u));
                            let k = choose|k: int| 0 <= k < init.len() && init[k] == u;
                            assert(s[k] == u);
                        }
                    }
                }
                if s.contains(u) {
                    let k = choose|k: int| 0 <= k < s.len() && s[k] == u;
                    if k < init.len() {
                        assert(init[k] == u);
                        assert(init.contains(u));
                        assert(v.contains(u));
                        let i = choose|i: int| 0 <= i < v.len() && v[i] == u;
                        assert(w[i] == u);
                    } else {
                        assert(w[v.len() as int] == u);
                    }
                }
                if u == t {
                    assert(v.contains(t));
                    let i = choose|i: int| 0 <= i < v.len() && v[i] == t;
                    assert(w[i] == t);
                }
            }
            w
        }
    }
}

} // verus!
