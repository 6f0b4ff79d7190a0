//! Where bytes, bits and words lie.
use crate::bits::{bit_at, literals_of, words_needed};
use crate::serial::{
    header_bytes, le_of, signed_bytes, str_bytes, vec_i32_bytes, vec_u64_bytes, vec_u8_bytes,
    words_bytes, wrapped, VERSION,
};
use vstd::arithmetic::div_mod::lemma_div_denominator;
use vstd::arithmetic::power::{lemma_pow_positive, pow};
use vstd::arithmetic::power2::pow2;
use vstd::prelude::*;
use vstd::utf8::encode_utf8;

verus! {

/// Byte `i` of a number is its digit of weight 256 to the power of `i`: the lowest comes first.
pub proof fn lemma_lowest_byte_first(v: int, n: nat, i: int)
    requires
        v >= 0,
        0 <= i < n,
    ensures
        le_of(v, n).len() == n,
        le_of(v, n)[i] == (v / pow(256, i as nat)) % 256,
    decreases n,
{
    lemma_le_len(v, n);
    reveal(pow);
    if i == 0 {
        assert(pow(256, 0) == 1);
    } else {
        lemma_lowest_byte_first(v / 256, (n - 1) as nat, i - 1);
        lemma_pow_positive(256, (i - 1) as nat);
        lemma_div_denominator(v, 256, pow(256, (i - 1) as nat));
        assert(pow(256, i as nat) == 256 * pow(256, (i - 1) as nat));
        assert(le_of(v, n)[i] == le_of(v / 256, (n - 1) as nat)[i - 1]);
    }
}

proof fn lemma_le_len(v: int, n: nat)
    ensures
        le_of(v, n).len() == n,
    decreases n,
{
    if n > 0 {
        lemma_le_len(v / 256, (n - 1) as nat);
    }
}

/// Words lie one after the other, in 8 bytes each.
pub proof fn lemma_words_follow(v: Seq<u64>, n: nat, i: int)
    requires
        n <= v.len(),
        0 <= i < n,
    ensures
        words_bytes(v, n).len() == 8 * n,
        words_bytes(v, n).subrange(8 * i, 8 * i + 8) == le_of(v[i] as int, 8),
    decreases n,
{
    lemma_words_len(v, n);
    lemma_words_len(v, (n - 1) as nat);
    lemma_le_len(v[n - 1] as int, 8);
    let before = words_bytes(v, (n - 1) as nat);
    if i < n - 1 {
        lemma_words_follow(v, (n - 1) as nat, i);
        assert(words_bytes(v, n).subrange(8 * i, 8 * i + 8) =~= before.subrange(8 * i, 8 * i + 8));
    } else {
        assert(words_bytes(v, n).subrange(8 * i, 8 * i + 8) =~= le_of(v[i] as int, 8));
    }
}

proof fn lemma_words_len(v: Seq<u64>, n: nat)
    ensures
        words_bytes(v, n).len() == 8 * n,
    decreases n,
{
    if n > 0 {
        lemma_words_len(v, (n - 1) as nat);
        lemma_le_len(v[n - 1] as int, 8);
    }
}

/// Signed numbers lie one after the other, in 4 bytes each; a negative one is written as what it
/// lacks to 2 to the power of 32.
pub proof fn lemma_signed_follow(v: Seq<i32>, n: nat, i: int)
    requires
        n <= v.len(),
        0 <= i < n,
    ensures
        signed_bytes(v, n).len() == 4 * n,
        signed_bytes(v, n).subrange(4 * i, 4 * i + 4) == le_of(
            if v[i] < 0 {
                0x1_0000_0000 + v[i]
            } else {
                v[i] as int
            },
            4,
        ),
    decreases n,
{
    lemma_signed_len(v, n);
    lemma_signed_len(v, (n - 1) as nat);
    let before = signed_bytes(v, (n - 1) as nat);
    if i < n - 1 {
        lemma_signed_follow(v, (n - 1) as nat, i);
        assert(signed_bytes(v, n).subrange(4 * i, 4 * i + 4) =~= before.subrange(4 * i, 4 * i + 4));
    } else {
        lemma_le_len(
            if v[i] < 0 {
                0x1_0000_0000 + v[i]
            } else {
                v[i] as int
            },
            4,
        );
        assert(signed_bytes(v, n).subrange(4 * i, 4 * i + 4) =~= le_of(
            if v[i] < 0 {
                0x1_0000_0000 + v[i]
            } else {
                v[i] as int
            },
            4,
        ));
    }
}

proof fn lemma_signed_len(v: Seq<i32>, n: nat)
    ensures
        signed_bytes(v, n).len() == 4 * n,
    decreases n,
{
    if n > 0 {
        lemma_signed_len(v, (n - 1) as nat);
        lemma_le_len(wrapped(v[n - 1]), 4);
    }
}

/// A list is its length, in 8 bytes, and what it holds.
pub proof fn lemma_lists_are_counted(
    text: Seq<char>,
    bytes: Seq<u8>,
    words: Seq<u64>,
    signed: Seq<i32>,
)
    ensures
        str_bytes(text).take(8) == le_of(encode_utf8(text).len() as int, 8),
        str_bytes(text).skip(8) == encode_utf8(text),
        vec_u8_bytes(bytes).take(8) == le_of(bytes.len() as int, 8),
        vec_u8_bytes(bytes).skip(8) == bytes,
        vec_u64_bytes(words).take(8) == le_of(words.len() as int, 8),
        vec_u64_bytes(words).skip(8) == words_bytes(words, words.len()),
        vec_i32_bytes(signed).take(8) == le_of(signed.len() as int, 8),
        vec_i32_bytes(signed).skip(8) == signed_bytes(signed, signed.len()),
{
    lemma_le_len(encode_utf8(text).len() as int, 8);
    lemma_le_len(bytes.len() as int, 8);
    lemma_le_len(words.len() as int, 8);
    lemma_le_len(signed.len() as int, 8);
    assert(str_bytes(text).take(8) =~= le_of(encode_utf8(text).len() as int, 8));
    assert(str_bytes(text).skip(8) =~= encode_utf8(text));
    assert(vec_u8_bytes(bytes).take(8) =~= le_of(bytes.len() as int, 8));
    assert(vec_u8_bytes(bytes).skip(8) =~= bytes);
    assert(vec_u64_bytes(words).take(8) =~= le_of(words.len() as int, 8));
    assert(vec_u64_bytes(words).skip(8) =~= words_bytes(words, words.len()));
    assert(vec_i32_bytes(signed).take(8) =~= le_of(signed.len() as int, 8));
    assert(vec_i32_bytes(signed).skip(8) =~= signed_bytes(signed, signed.len()));
}

/// An artifact begins with four letters, the version in 4 bytes, and what kind it is.
pub proof fn lemma_headers_name_the_kind(tag: u8)
    ensures
        header_bytes(tag).len() == 9,
        header_bytes(tag)[0] as int == 'T' as int,
        header_bytes(tag)[1] as int == 'M' as int,
        header_bytes(tag)[2] as int == 'R' as int,
        header_bytes(tag)[3] as int == 'S' as int,
        header_bytes(tag).subrange(4, 8) == le_of(VERSION as int, 4),
        header_bytes(tag)[8] == tag,
{
    lemma_le_len(VERSION as int, 4);
    assert(header_bytes(tag).subrange(4, 8) =~= le_of(VERSION as int, 4));
}

/// Bit `b` of a word is its binary digit of weight 2 to the power of `b`, and bit `l` of a list of
/// words is bit `l` modulo 64 of word `l` divided by 64.
pub proof fn lemma_lowest_bit_first(ws: Seq<u64>, l: int)
    requires
        0 <= l < 64 * ws.len(),
    ensures
        bit_at(ws, l) == ((ws[l / 64] as nat / pow2((l % 64) as nat)) % 2 == 1),
{
    let w = ws[l / 64];
    let b = (l % 64) as u64;
    vstd::bits::lemma_u64_shr_is_div(w, b);
    let q = w >> b;
    assert((q & 1u64 == 1u64) == (q % 2 == 1)) by (bit_vector);
}

/// As many words are needed as hold the bits: one less would not do.
pub proof fn lemma_words_hold_bits(bits: int)
    requires
        bits >= 1,
    ensures
        64 * (words_needed(bits) - 1) < bits <= 64 * words_needed(bits),
{
}

/// The literals of a sample are its features and then their negations.
pub proof fn lemma_literals_are_features(x: Seq<u8>, n: int, f: int)
    requires
        0 <= f < n,
    ensures
        literals_of(x, n).len() == 2 * n,
        literals_of(x, n)[f] == (x[f] != 0),
        literals_of(x, n)[n + f] == (x[f] == 0),
{
}

} // verus!
