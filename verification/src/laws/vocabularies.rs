//! Which token switches on which bit.
use crate::laws::encoding::units;
use crate::booleanizer::{Booleanizer, Number};
use crate::dyadic::{INFINITY_BITS, SIGN_BIT};
use crate::laws::encoding::lemma_numbers_are_ordered;
use crate::text::{column_of, lists, sorted_list, text_before};
use crate::vocabulary::{
    all_columns, all_tokens, first_vocabulary, has_column, has_token, lemma_columns_listable,
    lemma_listable, VocabularyModel,
};
use vstd::prelude::*;

verus! {

/// The name of the bit that a token switches on: its own if the vocabulary has the token, else that
/// for unseen values of its column if it has the column, else that for everything else.
pub open spec fn bit_name(m: VocabularyModel, t: Seq<char>) -> Seq<char> {
    if m.index.contains(t) {
        t
    } else if m.columns.contains_key(column_of(t)) {
        column_of(t) + "::<UNK>"@
    } else {
        "<OOV>"@
    }
}

/// A token switches on a bit that bears the right name, and no bit is on but for a token.
pub proof fn lemma_tokens_switch_bits(m: VocabularyModel, tokens: Seq<Seq<char>>, k: int, i: int)
    requires
        m.wf(),
        0 <= k < tokens.len(),
        0 <= i < m.index.len(),
    ensures
        m.features_of(tokens).len() == m.index.len(),
        0 <= m.slot_of(tokens[k]) < m.index.len(),
        m.index[m.slot_of(tokens[k]) as int] == bit_name(m, tokens[k]),
        m.features_of(tokens)[m.slot_of(tokens[k]) as int] == 1,
        m.features_of(tokens)[i] == 0 || m.features_of(tokens)[i] == 1,
        m.features_of(tokens)[i] == 1 ==> exists|j: int|
            0 <= j < tokens.len() && m.index[i] == bit_name(m, #[trigger] tokens[j]),
        m.features_of(Seq::empty())[i] == 0,
{
    m.lemma_slot(tokens[k]);
    assert(m.places.contains_key(tokens[k]) <==> m.index.contains(tokens[k]));
    assert(m.places.contains_key("<OOV>"@));
    assert(m.is_on(tokens, m.slot_of(tokens[k]) as int));
    if m.features_of(tokens)[i] == 1 {
        assert(m.is_on(tokens, i));
        let j = choose|j: int| 0 <= j < tokens.len() && #[trigger] m.slot_of(tokens[j]) == i;
        m.lemma_slot(tokens[j]);
        assert(m.places.contains_key(tokens[j]) <==> m.index.contains(tokens[j]));
        assert(m.index[i] == bit_name(m, tokens[j]));
    }
    assert(!m.is_on(Seq::empty(), i));
}

/// A new vocabulary has the tokens of its samples, in order and each once, then a bit for unseen
/// values of each column, in the order of the columns, and last the bit for everything else.
pub proof fn lemma_first_bits(samples: Seq<Seq<Seq<char>>>) -> (parts: (
    Seq<Seq<char>>,
    Seq<Seq<char>>,
))
    ensures
        first_vocabulary(samples) == parts.0 + parts.1.map_values(|c: Seq<char>| c + "::<UNK>"@)
            + seq!["<OOV>"@],
        forall|t: Seq<char>| #[trigger] parts.0.contains(t) <==> has_token(samples, t),
        forall|c: Seq<char>| #[trigger] parts.1.contains(c) <==> has_column(samples, c),
        forall|i: int, j: int|
            0 <= i < j < parts.0.len() ==> #[trigger] text_before(parts.0[i], parts.0[j]),
        forall|i: int, j: int|
            0 <= i < j < parts.1.len() ==> #[trigger] text_before(parts.1[i], parts.1[j]),
{
    let tokens = sorted_list(all_tokens(samples));
    let columns = sorted_list(all_columns(samples));
    lemma_listable(all_tokens(samples), samples);
    lemma_columns_listable(all_columns(samples), samples);
    assert(first_vocabulary(samples) =~= tokens + columns.map_values(
        |c: Seq<char>| c + "::<UNK>"@,
    ) + seq!["<OOV>"@]);
    assert forall|t: Seq<char>| #[trigger] tokens.contains(t) <==> has_token(samples, t) by {
        assert(all_tokens(samples).contains(t) <==> has_token(samples, t));
    }
    assert forall|c: Seq<char>| #[trigger] columns.contains(c) <==> has_column(samples, c) by {
        assert(all_columns(samples).contains(c) <==> has_column(samples, c));
    }
    (tokens, columns)
}

proof fn lemma_tokens_follow(m: VocabularyModel, ts: Seq<Seq<char>>, n: nat)
    requires
        n <= ts.len(),
    ensures
        m.with_tokens(ts, n).index == m.index + ts.take(n as int),
    decreases n,
{
    if n > 0 {
        lemma_tokens_follow(m, ts, (n - 1) as nat);
        assert(m.with_tokens(ts, n).index =~= m.index + ts.take(n as int));
    } else {
        assert(m.index + ts.take(0) =~= m.index);
    }
}

proof fn lemma_columns_follow(m: VocabularyModel, cs: Seq<Seq<char>>, n: nat)
    requires
        n <= cs.len(),
    ensures
        m.index.len() <= m.with_columns(cs, n).index.len(),
        m.with_columns(cs, n).index.take(m.index.len() as int) == m.index,
    decreases n,
{
    if n > 0 {
        lemma_columns_follow(m, cs, (n - 1) as nat);
        let before = m.with_columns(cs, (n - 1) as nat);
        assert(m.with_columns(cs, n).index.take(m.index.len() as int) =~= before.index.take(
            m.index.len() as int,
        ));
    } else {
        assert(m.index.take(m.index.len() as int) =~= m.index);
    }
}

/// An extended vocabulary has its old bits in place and behind them the new tokens of the samples,
/// in order and each once.
pub proof fn lemma_new_bits_follow(m: VocabularyModel, samples: Seq<Seq<Seq<char>>>) -> (added: Seq<
    Seq<char>,
>)
    ensures
        m.extended(samples).index.len() >= m.index.len() + added.len(),
        m.extended(samples).index.take((m.index.len() + added.len()) as int) == m.index + added,
        forall|t: Seq<char>| #[trigger]
            added.contains(t) <==> has_token(samples, t) && !m.places.contains_key(t),
        forall|i: int, j: int|
            0 <= i < j < added.len() ==> #[trigger] text_before(added[i], added[j]),
{
    let added = sorted_list(m.new_tokens(samples));
    let cs = sorted_list(m.new_columns(samples));
    lemma_listable(m.new_tokens(samples), samples);
    assert(lists(added, m.new_tokens(samples)));
    lemma_tokens_follow(m, added, added.len());
    let mid = m.with_tokens(added, added.len());
    assert(added.take(added.len() as int) =~= added);
    lemma_columns_follow(mid, cs, cs.len());
    assert forall|t: Seq<char>| #[trigger] added.contains(t) <==> has_token(samples, t)
        && !m.places.contains_key(t) by {
        assert(m.new_tokens(samples).contains(t) <==> has_token(samples, t)
            && !m.places.contains_key(t));
    }
    added
}

/// A bit of a number is on exactly if the number is larger than the threshold of the bit.
pub proof fn lemma_bits_say_larger(b: &Booleanizer, row: Seq<Number>, k: int)
    requires
        0 <= k < b.bits().len(),
        ({
            let x = row[b.bits()[k].0 as int];
            x.0 < INFINITY_BITS || SIGN_BIT <= x.0 < SIGN_BIT + INFINITY_BITS
        }),
        ({
            let t = b.bits()[k].1;
            t.0 < INFINITY_BITS || SIGN_BIT <= t.0 < SIGN_BIT + INFINITY_BITS
        }),
    ensures
        b.bits_of_row(row).len() == b.bits().len(),
        b.bits_of_row(row)[k] == if units(row[b.bits()[k].0 as int]) > units(b.bits()[k].1) {
            1u8
        } else {
            0u8
        },
{
    lemma_numbers_are_ordered(row[b.bits()[k].0 as int], b.bits()[k].1);
}

} // verus!
