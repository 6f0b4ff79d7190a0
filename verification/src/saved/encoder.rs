//! Encoders as they are saved.
use crate::bits::{byte_of, words_for};
use crate::booleanizer::{origins, Booleanizer, Number};
use crate::encoder::{Encoder, EncoderKind};
use crate::saved::save_load::SaveLoad;
use crate::saved::stored::{
    get_list, lemma_list_roundtrip, list_bytes, list_fits, put_list, take_list, views, Stored,
};
use crate::serial::{
    failed, lemma_str_roundtrip, lemma_vec_u64_roundtrip, lemma_vec_u8_roundtrip, parsed, patterns,
    str_bytes, take_str, take_vec_u64, take_vec_u8, vec_u64_bytes, vec_u8_bytes, w_str, w_vec_f64,
    w_vec_u8, Parse, Reader, SerialError, TAG_ENCODER,
};
use crate::text::texts;
use crate::vocabulary::{is_last_place, outside, places_of, unknown_of, Vocabulary, VocabularyModel};
use vstd::hash_map::StringHashMap;
use vstd::prelude::*;
use vstd::string::StringExecFns;
use vstd::utf8::encode_utf8;

verus! {

impl Stored for String {
    open spec fn fits(v: Seq<char>) -> bool {
        encode_utf8(v).len() <= usize::MAX
    }

    open spec fn bytes(v: Seq<char>) -> Seq<u8> {
        str_bytes(v)
    }

    open spec fn take(b: Seq<u8>) -> Parse<Seq<char>> {
        take_str(b)
    }

    fn put(&self, w: &mut Vec<u8>) {
        w_str(w, self.as_str());
    }

    fn get(r: &mut Reader) -> (v: Result<String, SerialError>) {
        r.r_str()
    }

    proof fn lemma_roundtrip(v: Seq<char>, tail: Seq<u8>) {
        lemma_str_roundtrip(v, tail);
    }
}

/// The numbers with the given bit patterns.
pub open spec fn numbers(w: Seq<u64>) -> Seq<Number> {
    Seq::new(w.len(), |i: int| Number(w[i]))
}

impl Stored for Vec<Number> {
    open spec fn fits(v: Seq<Number>) -> bool {
        v.len() <= usize::MAX
    }

    open spec fn bytes(v: Seq<Number>) -> Seq<u8> {
        vec_u64_bytes(patterns(v))
    }

    open spec fn take(b: Seq<u8>) -> Parse<Seq<Number>> {
        match take_vec_u64(b) {
            Err(e) => failed(e),
            Ok((w, rest)) => parsed(numbers(w), rest),
        }
    }

    fn put(&self, w: &mut Vec<u8>) {
        w_vec_f64(w, self);
        assert(self.len() <= usize::MAX);
    }

    fn get(r: &mut Reader) -> (v: Result<Vec<Number>, SerialError>) {
        match r.r_vec_f64() {
            Ok(v) => {
                assert(numbers(patterns(v@)) =~= v@);
                Ok(v)
            },
            Err(e) => Err(e),
        }
    }

    proof fn lemma_roundtrip(v: Seq<Number>, tail: Seq<u8>) {
        lemma_vec_u64_roundtrip(patterns(v), tail);
        assert(numbers(patterns(v)) =~= v);
    }
}

/// A saved encoder as values.
#[verifier::ext_equal]
pub struct EncoderImage {
    /// The kind (0 for binary, 1 for numeric, 2 for categorical) and the number of features.
    pub words: Seq<u64>,
    /// The thresholds of a numeric encoder.
    pub thresholds: Seq<Seq<Number>>,
    /// The tokens of a categorical encoder.
    pub tokens: Seq<Seq<char>>,
    /// Which tokens stand for the unseen values of a column.
    pub slots: Seq<u8>,
}

/// A saved encoder.
pub struct StoredEncoder {
    pub words: Vec<u64>,
    pub thresholds: Vec<Vec<Number>>,
    pub tokens: Vec<String>,
    pub slots: Vec<u8>,
}

impl View for StoredEncoder {
    type V = EncoderImage;

    open spec fn view(&self) -> EncoderImage {
        EncoderImage {
            words: self.words@,
            thresholds: views(self.thresholds@),
            tokens: views(self.tokens@),
            slots: self.slots@,
        }
    }
}

impl Stored for StoredEncoder {
    open spec fn fits(v: EncoderImage) -> bool {
        &&& list_fits::<u64>(v.words)
        &&& list_fits::<Vec<Number>>(v.thresholds)
        &&& list_fits::<String>(v.tokens)
        &&& v.slots.len() <= usize::MAX
    }

    open spec fn bytes(v: EncoderImage) -> Seq<u8> {
        list_bytes::<u64>(v.words) + (list_bytes::<Vec<Number>>(v.thresholds) + (list_bytes::<String>(v.tokens)
            + vec_u8_bytes(v.slots)))
    }

    open spec fn take(b: Seq<u8>) -> Parse<EncoderImage> {
        match take_list::<u64>(b) {
            Err(e) => failed(e),
            Ok((words, b1)) => match take_list::<Vec<Number>>(b1) {
                Err(e) => failed(e),
                Ok((thresholds, b2)) => match take_list::<String>(b2) {
                    Err(e) => failed(e),
                    Ok((tokens, b3)) => match take_vec_u8(b3) {
                        Err(e) => failed(e),
                        Ok((slots, b4)) => parsed(EncoderImage { words, thresholds, tokens, slots }, b4),
                    },
                },
            },
        }
    }

    fn put(&self, w: &mut Vec<u8>) {
        let ghost start = w@;
        put_list(&self.words, w);
        put_list(&self.thresholds, w);
        put_list(&self.tokens, w);
        w_vec_u8(w, &self.slots);
        assert(views(self.words@) =~= self.words@);
        assert(w@ =~= start + Self::bytes(self@));
        assert(self.slots.len() <= usize::MAX);
    }

    fn get(r: &mut Reader) -> (v: Result<StoredEncoder, SerialError>) {
        let words: Vec<u64> = match get_list(r) {
            Ok(v) => v,
            Err(e) => return Err(e),
        };
        assert(views(words@) =~= words@);
        let thresholds: Vec<Vec<Number>> = match get_list(r) {
            Ok(v) => v,
            Err(e) => return Err(e),
        };
        let tokens: Vec<String> = match get_list(r) {
            Ok(v) => v,
            Err(e) => return Err(e),
        };
        let slots: Vec<u8> = match r.r_vec_u8() {
            Ok(v) => v,
            Err(e) => return Err(e),
        };
        Ok(StoredEncoder { words, thresholds, tokens, slots })
    }

    proof fn lemma_roundtrip(v: EncoderImage, tail: Seq<u8>) {
        let t3 = vec_u8_bytes(v.slots) + tail;
        let t2 = list_bytes::<String>(v.tokens) + t3;
        let t1 = list_bytes::<Vec<Number>>(v.thresholds) + t2;
        assert(Self::bytes(v) + tail =~= list_bytes::<u64>(v.words) + t1);
        lemma_list_roundtrip::<u64>(v.words, t1);
        lemma_list_roundtrip::<Vec<Number>>(v.thresholds, t2);
        lemma_list_roundtrip::<String>(v.tokens, t3);
        lemma_vec_u8_roundtrip(v.slots, tail);
    }
}

/// The column whose unseen values a token stands for, if its text says so.
pub open spec fn stem_of(t: Seq<char>) -> Option<Seq<char>> {
    let n = t.len() - 7;
    if n >= 0 && t == unknown_of(t.take(n)) {
        Some(t.take(n))
    } else {
        None
    }
}

proof fn lemma_stem(c: Seq<char>)
    ensures
        stem_of(unknown_of(c)) == Some(c),
        forall|t: Seq<char>| (#[trigger] stem_of(t)) matches Some(s) ==> t == unknown_of(s),
{
    reveal_strlit("::<UNK>");
    let t = unknown_of(c);
    assert(t.take(t.len() - 7) =~= c);
}

/// The column whose unseen values a token stands for.
fn stem(t: &String) -> (r: Option<String>)
    ensures
        match r {
            Some(s) => stem_of(t@) == Some(s@),
            None => stem_of(t@) is None,
        },
{
    proof {
        reveal_strlit("::<UNK>");
    }
    let n: usize = t.as_str().unicode_len();
    if n < 7 {
        return None;
    }
    let m: usize = n - 7;
    let s: &str = t.as_str();
    let head: String = s.substring_char(0, m).to_owned();
    assert(head@ =~= t@.take(m as int));
    if s.get_char(m) == ':' && s.get_char(m + 1) == ':' && s.get_char(m + 2) == '<' && s.get_char(m + 3) == 'U'
        && s.get_char(m + 4) == 'N' && s.get_char(m + 5) == 'K' && s.get_char(m + 6) == '>' {
        assert(t@ =~= unknown_of(head@));
        Some(head)
    } else {
        assert(t@ != unknown_of(head@)) by {
            let u = unknown_of(head@);
            assert(u[m as int] == ':' && u[m + 1] == ':' && u[m + 2] == '<' && u[m + 3] == 'U' && u[m + 4]
                == 'N' && u[m + 5] == 'K' && u[m + 6] == '>');
        }
        None
    }
}

/// Feature `i` is the feature of the unseen values of a column.
pub open spec fn is_slot(m: VocabularyModel, i: int) -> bool {
    stem_of(m.index[i]) matches Some(c) && m.columns.contains_key(c) && m.columns[c] == i
}

/// Which features stand for the unseen values of a column.
pub open spec fn slot_flags(m: VocabularyModel) -> Seq<u8> {
    Seq::new(m.index.len(), |i: int| byte_of(is_slot(m, i)))
}

/// Tokens and flags are those of a vocabulary.
pub open spec fn vocabulary_ok(tokens: Seq<Seq<char>>, slots: Seq<u8>) -> bool {
    &&& tokens.contains(outside())
    &&& slots.len() == tokens.len()
    &&& forall|i: int| 0 <= i < slots.len() ==> #[trigger] slots[i] <= 1
    &&& forall|i: int| 0 <= i < slots.len() && #[trigger] slots[i] == 1 ==> stem_of(tokens[i]) is Some
    &&& forall|i: int, j: int|
        0 <= i < j < slots.len() && #[trigger] slots[i] == 1 && #[trigger] slots[j] == 1 ==> tokens[i]
            != tokens[j]
}

/// Valid vocabularies have tokens and flags of a vocabulary.
proof fn lemma_vocabulary_ok(m: VocabularyModel)
    requires
        m.wf(),
    ensures
        vocabulary_ok(m.index, slot_flags(m)),
{
    let f = slot_flags(m);
    assert forall|i: int, j: int| 0 <= i < j < f.len() && #[trigger] f[i] == 1 && #[trigger] f[j] == 1 implies m.index[i]
        != m.index[j] by {
        assert(is_slot(m, i) && is_slot(m, j));
    }
    assert forall|i: int| 0 <= i < f.len() && #[trigger] f[i] == 1 implies stem_of(m.index[i]) is Some by {
        assert(is_slot(m, i));
    }
}

/// Tokens and flags determine a vocabulary.
pub proof fn lemma_vocabulary_determined(a: VocabularyModel, b: VocabularyModel)
    requires
        a.wf(),
        b.wf(),
        a.index == b.index,
        slot_flags(a) == slot_flags(b),
    ensures
        a == b,
{
    assert(a.places =~= b.places) by {
        assert forall|t: Seq<char>| #[trigger] a.places.contains_key(t) <==> b.places.contains_key(t) by {
            assert(a.places.contains_key(t) <==> a.index.contains(t));
            assert(b.places.contains_key(t) <==> b.index.contains(t));
        }
        assert forall|t: Seq<char>| a.places.contains_key(t) implies #[trigger] a.places[t] == b.places[t] by {
            assert(b.places.contains_key(t));
            let (i, j) = (a.places[t] as int, b.places[t] as int);
            assert(is_last_place(a.index, t, i) && is_last_place(b.index, t, j));
            if i < j {
                assert(a.index[j] != t);
            } else if j < i {
                assert(b.index[i] != t);
            }
        }
    }
    assert(a.columns =~= b.columns) by {
        assert forall|c: Seq<char>| #[trigger] a.columns.contains_key(c) implies b.columns.contains_key(c)
            && b.columns[c] == a.columns[c] by {
            lemma_slot_transfers(a, b, c);
        }
        assert forall|c: Seq<char>| #[trigger] b.columns.contains_key(c) implies a.columns.contains_key(c) by {
            lemma_slot_transfers(b, a, c);
        }
    }
}

proof fn lemma_slot_transfers(a: VocabularyModel, b: VocabularyModel, c: Seq<char>)
    requires
        a.wf(),
        a.index == b.index,
        slot_flags(a) == slot_flags(b),
        a.columns.contains_key(c),
    ensures
        b.columns.contains_key(c),
        b.columns[c] == a.columns[c],
{
    let i = a.columns[c] as int;
    lemma_stem(c);
    assert(a.index[i] == unknown_of(c));
    assert(is_slot(a, i));
    assert(slot_flags(a)[i] == 1);
    assert(slot_flags(b)[i] == byte_of(is_slot(b, i)));
}

/// The flags of a vocabulary.
fn store_slots(v: &Vocabulary) -> (r: Vec<u8>)
    requires
        v.wf(),
    ensures
        r@ == slot_flags(v@),
{
    let mut r: Vec<u8> = Vec::with_capacity(v.index.len());
    let mut i: usize = 0;
    while i < v.index.len()
        invariant
            i <= v.index@.len(),
            r@.len() == i,
            forall|k: int| 0 <= k < i ==> #[trigger] r@[k] == byte_of(is_slot(v@, k)),
        decreases v.index@.len() - i,
    {
        let ghost t = v@.index[i as int];
        assert(t == v.index@[i as int]@);
        let flag: u8 = match stem(&v.index[i]) {
            Some(c) => match v.known_columns.get(c.as_str()) {
                Some(k) => if *k == i {
                    1
                } else {
                    0
                },
                None => 0,
            },
            None => 0,
        };
        r.push(flag);
        i = i + 1;
    }
    assert(r@ =~= slot_flags(v@));
    r
}

/// A copy of tokens.
fn copy_tokens(v: &Vec<String>) -> (r: Vec<String>)
    ensures
        texts(r@) == texts(v@),
{
    let mut r: Vec<String> = Vec::with_capacity(v.len());
    let mut i: usize = 0;
    while i < v.len()
        invariant
            i <= v@.len(),
            r@.len() == i,
            forall|k: int| 0 <= k < i ==> (#[trigger] r@[k])@ == v@[k]@,
        decreases v@.len() - i,
    {
        r.push(v[i].clone());
        i = i + 1;
    }
    assert(texts(r@) =~= texts(v@));
    r
}

/// The vocabulary with the given tokens and flags, if there is one.
fn restore_vocabulary(tokens: &Vec<String>, slots: &Vec<u8>) -> (r: Option<Vocabulary>)
    ensures
        match r {
            Some(v) => v.wf() && v@.index == texts(tokens@) && slot_flags(v@) == slots@,
            None => !vocabulary_ok(texts(tokens@), slots@),
        },
{
    let ghost ix = texts(tokens@);
    if slots.len() != tokens.len() {
        return None;
    }
    let index: Vec<String> = copy_tokens(tokens);
    let vocab: StringHashMap<usize> = places_of(&index);
    if vocab.get("<OOV>").is_none() {
        return None;
    }
    let mut known: StringHashMap<usize> = StringHashMap::new();
    let mut i: usize = 0;
    while i < tokens.len()
        invariant
            i <= tokens@.len(),
            slots@.len() == tokens@.len(),
            ix == texts(tokens@),
            forall|k: int| 0 <= k < i ==> #[trigger] slots@[k] <= 1,
            forall|c: Seq<char>|
                #[trigger] known@.contains_key(c) ==> known@[c] < i && ix[known@[c] as int] == unknown_of(c)
                    && slots@[known@[c] as int] == 1,
            forall|k: int|
                0 <= k < i && #[trigger] slots@[k] == 1 ==> stem_of(ix[k]) is Some && known@.contains_key(
                    stem_of(ix[k])->Some_0,
                ) && known@[stem_of(ix[k])->Some_0] == k,
        decreases tokens@.len() - i,
    {
        let ghost before = known@;
        assert(ix[i as int] == tokens@[i as int]@);
        if slots[i] > 1 {
            return None;
        }
        if slots[i] == 1 {
            match stem(&tokens[i]) {
                Some(c) => {
                    proof {
                        lemma_stem(c@);
                    }
                    if known.get(c.as_str()).is_some() {
                        proof {
                            let j = known@[c@] as int;
                            assert(slots@[j] == 1 && slots@[i as int] == 1);
                            assert(ix[j] == ix[i as int]);
                        }
                        return None;
                    }
                    known.insert(c, i);
                },
                None => {
                    return None;
                },
            }
        }
        i = i + 1;
    }
    let r: Vocabulary = Vocabulary { vocab, index, known_columns: known };
    proof {
        assert(r@.places.contains_key(outside()));
        assert(slot_flags(r@) =~= slots@) by {
            assert forall|k: int| 0 <= k < ix.len() implies slot_flags(r@)[k] == slots@[k] by {
                assert(slots@[k] <= 1);
                if slots@[k] == 1 {
                    assert(is_slot(r@, k));
                } else if is_slot(r@, k) {
                    assert(slots@[r@.columns[stem_of(ix[k])->Some_0] as int] == 1);
                }
            }
        }
    }
    Some(r)
}

/// How many thresholds the first `n` features have.
pub open spec fn threshold_count(t: Seq<Seq<Number>>, n: nat) -> int
    decreases n,
{
    if n == 0 {
        0
    } else {
        threshold_count(t, (n - 1) as nat) + t[n - 1].len()
    }
}

proof fn lemma_threshold_count(t: Seq<Vec<Number>>, n: nat)
    requires
        n <= t.len(),
    ensures
        threshold_count(views(t), n) == origins(t, n).len(),
    decreases n,
{
    if n > 0 {
        lemma_threshold_count(t, (n - 1) as nat);
    }
}

proof fn lemma_threshold_grow(t: Seq<Seq<Number>>, k: nat, n: nat)
    requires
        k <= n,
    ensures
        threshold_count(t, k) <= threshold_count(t, n),
    decreases n,
{
    if k < n {
        lemma_threshold_grow(t, k, (n - 1) as nat);
    }
}

/// The thresholds as a booleanizer, if there are `n` of them.
fn restore_thresholds(t: &Vec<Vec<Number>>, n: usize) -> (r: Option<Booleanizer>)
    ensures
        match r {
            Some(b) => views(b.thresholds@) == views(t@) && b.bits().len() == n && threshold_count(
                views(t@),
                t@.len(),
            ) == n,
            None => threshold_count(views(t@), t@.len()) != n,
        },
{
    let mut thresholds: Vec<Vec<Number>> = Vec::with_capacity(t.len());
    let mut left: usize = n;
    let mut f: usize = 0;
    while f < t.len()
        invariant
            f <= t@.len(),
            thresholds@.len() == f,
            forall|k: int| 0 <= k < f ==> (#[trigger] thresholds@[k])@ == t@[k]@,
            left == n - threshold_count(views(t@), f as nat),
        decreases t@.len() - f,
    {
        assert(views(t@)[f as int] == t@[f as int]@);
        if t[f].len() > left {
            proof {
                lemma_threshold_grow(views(t@), (f + 1) as nat, t@.len());
            }
            return None;
        }
        left = left - t[f].len();
        let mut row: Vec<Number> = Vec::with_capacity(t[f].len());
        let mut i: usize = 0;
        while i < t[f].len()
            invariant
                f < t@.len(),
                i <= t@[f as int]@.len(),
                row@ == t@[f as int]@.take(i as int),
            decreases t@[f as int]@.len() - i,
        {
            row.push(t[f][i]);
            i = i + 1;
        }
        assert(row@ =~= t@[f as int]@);
        thresholds.push(row);
        f = f + 1;
    }
    if left != 0 {
        return None;
    }
    let b: Booleanizer = Booleanizer { thresholds };
    proof {
        assert(views(b.thresholds@) =~= views(t@));
        lemma_threshold_count(b.thresholds@, b.thresholds@.len());
    }
    Some(b)
}

impl SaveLoad for Encoder {
    type Saved = StoredEncoder;

    open spec fn tag() -> u8 {
        TAG_ENCODER
    }

    open spec fn valid(&self) -> bool {
        self.wf()
    }

    open spec fn image(&self) -> EncoderImage {
        match self.kind {
            EncoderKind::Binary => EncoderImage {
                words: seq![0u64, self.n_features as u64],
                thresholds: seq![],
                tokens: seq![],
                slots: seq![],
            },
            EncoderKind::Numeric { booleanizer } => EncoderImage {
                words: seq![1u64, self.n_features as u64],
                thresholds: views(booleanizer.thresholds@),
                tokens: seq![],
                slots: seq![],
            },
            EncoderKind::Categorical { vocabulary } => EncoderImage {
                words: seq![2u64, self.n_features as u64],
                thresholds: seq![],
                tokens: vocabulary@.index,
                slots: slot_flags(vocabulary@),
            },
        }
    }

    open spec fn admits(v: EncoderImage) -> bool {
        &&& v.words.len() == 2 && v.words[0] <= 2 && 2 * v.words[1] <= usize::MAX
        &&& if v.words[0] == 1 {
            threshold_count(v.thresholds, v.thresholds.len()) == v.words[1]
        } else {
            v.thresholds.len() == 0
        }
        &&& if v.words[0] == 2 {
            vocabulary_ok(v.tokens, v.slots) && v.tokens.len() == v.words[1]
        } else {
            v.tokens.len() == 0 && v.slots.len() == 0
        }
    }

    open spec fn is_reset(&self) -> bool {
        true
    }

    fn type_tag() -> (r: u8) {
        TAG_ENCODER
    }

    fn to_saved(&self) -> (r: StoredEncoder) {
        let n: u64 = self.n_features as u64;
        let r: StoredEncoder = match &self.kind {
            EncoderKind::Binary => StoredEncoder {
                words: vec![0, n],
                thresholds: Vec::new(),
                tokens: Vec::new(),
                slots: Vec::new(),
            },
            EncoderKind::Numeric { booleanizer } => {
                proof {
                    lemma_threshold_count(booleanizer.thresholds@, booleanizer.thresholds@.len());
                }
                let thresholds: Vec<Vec<Number>> = match restore_thresholds(
                    &booleanizer.thresholds,
                    self.n_features,
                ) {
                    Some(b) => b.thresholds,
                    None => Vec::new(),
                };
                StoredEncoder { words: vec![1, n], thresholds, tokens: Vec::new(), slots: Vec::new() }
            },
            EncoderKind::Categorical { vocabulary } => StoredEncoder {
                words: vec![2, n],
                thresholds: Vec::new(),
                tokens: copy_tokens(&vocabulary.index),
                slots: store_slots(vocabulary),
            },
        };
        proof {
            assert(r@.words =~= self.image().words);
            assert(r@.thresholds =~= self.image().thresholds);
            assert(views(r.tokens@) =~= texts(r.tokens@));
            assert(r@.tokens =~= self.image().tokens);
            assert(r@.slots =~= self.image().slots);
        }
        r
    }

    fn from_saved(s: &StoredEncoder) -> (r: Option<Encoder>) {
        if s.words.len() != 2 || s.words[0] > 2 || s.words[1] > usize::MAX as u64 / 2 {
            return None;
        }
        let n_features: usize = s.words[1] as usize;
        let words: usize = words_for(2 * n_features);
        proof {
            assert(views(s.tokens@) =~= texts(s.tokens@));
        }
        if s.words[0] != 1 && s.thresholds.len() != 0 {
            return None;
        }
        if s.words[0] != 2 && (s.tokens.len() != 0 || s.slots.len() != 0) {
            return None;
        }
        let kind: EncoderKind = if s.words[0] == 0 {
            EncoderKind::Binary
        } else if s.words[0] == 1 {
            match restore_thresholds(&s.thresholds, n_features) {
                Some(booleanizer) => EncoderKind::Numeric { booleanizer },
                None => return None,
            }
        } else {
            if s.tokens.len() != n_features {
                return None;
            }
            match restore_vocabulary(&s.tokens, &s.slots) {
                Some(vocabulary) => EncoderKind::Categorical { vocabulary },
                None => return None,
            }
        };
        let r: Encoder = Encoder { kind, n_features, words };
        proof {
            assert(r.image().words =~= s@.words);
            assert(r.image().thresholds =~= s@.thresholds);
            assert(r.image().tokens =~= s@.tokens);
            assert(r.image().slots =~= s@.slots);
            r.lemma_admits();
        }
        Some(r)
    }

    proof fn lemma_admits(&self) {
        match self.kind {
            EncoderKind::Binary => {},
            EncoderKind::Numeric { booleanizer } => {
                lemma_threshold_count(booleanizer.thresholds@, booleanizer.thresholds@.len());
            },
            EncoderKind::Categorical { vocabulary } => {
                lemma_vocabulary_ok(vocabulary@);
            },
        }
    }
}

proof fn lemma_same_origins(a: Seq<Vec<Number>>, b: Seq<Vec<Number>>, n: nat)
    requires
        views(a) == views(b),
        n <= a.len(),
    ensures
        origins(a, n) == origins(b, n),
    decreases n,
{
    if n > 0 {
        lemma_same_origins(a, b, (n - 1) as nat);
        assert(views(a).len() == a.len() && views(b).len() == b.len());
        assert(views(a)[n - 1] == a[n - 1]@ && views(b)[n - 1] == b[n - 1]@);
        assert(origins(a, n) =~= origins(b, n));
    }
}

/// What is stored of an encoder determines how it encodes.
pub proof fn lemma_encoder_image(a: &Encoder, b: &Encoder)
    requires
        a.wf(),
        b.wf(),
        a.image() == b.image(),
    ensures
        a.n_features == b.n_features,
        a.words == b.words,
        match a.kind {
            EncoderKind::Binary => b.kind is Binary,
            EncoderKind::Numeric { booleanizer } => b.kind is Numeric && b.numeric().bits()
                == booleanizer.bits(),
            EncoderKind::Categorical { vocabulary } => b.kind is Categorical && b.vocabulary()
                == vocabulary@,
        },
{
    assert(a.image().words[0] == b.image().words[0] && a.image().words[1] == b.image().words[1]);
    match a.kind {
        EncoderKind::Binary => {},
        EncoderKind::Numeric { booleanizer } => {
            let (u, v) = (booleanizer.thresholds@, b.numeric().thresholds@);
            assert(views(u).len() == u.len() && views(v).len() == v.len());
            lemma_same_origins(u, v, u.len());
        },
        EncoderKind::Categorical { vocabulary } => {
            lemma_vocabulary_determined(vocabulary@, b.vocabulary());
        },
    }
}

} // verus!
