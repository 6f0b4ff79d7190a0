//! What is read is what was written: bytes that are accepted are the bytes of the value, followed by
//! what is left over.
use crate::serial::{
    header_bytes, le_of, le_value, lemma_le_bytes, magic, radix, signed_bytes, str_bytes,
    take_bool, take_bytes, take_header, take_i32, take_ints, take_num, take_str, take_u8,
    take_usize, take_vec_i32, take_vec_u64, take_vec_u8, take_words, vec_i32_bytes, vec_u64_bytes,
    vec_u8_bytes, words_bytes, wrapped, SerialError, VERSION,
};
use vstd::prelude::*;
use vstd::utf8::{decode_utf8_encode_utf8, valid_utf8};

verus! {

/// A number is read from as many bytes as it has, the lowest first, and only from too few bytes is
/// none read.
pub proof fn lemma_number_read(b: Seq<u8>, n: nat)
    ensures
        match take_num(b, n) {
            Ok((v, rest)) => b == le_of(v, n) + rest,
            Err(e) => e == SerialError::Truncated && b.len() < n,
        },
{
    if b.len() >= n {
        lemma_le_bytes(b.take(n as int));
        assert(b =~= b.take(n as int) + b.skip(n as int));
    }
}

/// A byte, a truth value and a signed number are read from 1, 1 and 4 bytes; any byte but 0 is true.
pub proof fn lemma_small_values_read(b: Seq<u8>)
    ensures
        match take_u8(b) {
            Ok((v, rest)) => b == seq![v] + rest,
            Err(e) => e == SerialError::Truncated && b.len() == 0,
        },
        match take_bool(b) {
            Ok((v, rest)) => b.len() > 0 && b == seq![b[0]] + rest && v == (b[0] != 0),
            Err(e) => e == SerialError::Truncated && b.len() == 0,
        },
        match take_i32(b) {
            Ok((v, rest)) => b == le_of(
                if v < 0 {
                    0x1_0000_0000 + v
                } else {
                    v as int
                },
                4,
            ) + rest,
            Err(e) => e == SerialError::Truncated && b.len() < 4,
        },
{
    if b.len() > 0 {
        assert(b =~= seq![b[0]] + b.skip(1));
    }
    lemma_number_read(b, 4);
    if b.len() >= 4 {
        lemma_value_bound(b.take(4));
    }
}

proof fn lemma_value_bound(s: Seq<u8>)
    requires
        s.len() == 4,
    ensures
        0 <= le_value(s) < 0x1_0000_0000,
{
    lemma_le_bytes(s);
    reveal_with_fuel(radix, 5);
}

/// A size is read from 8 bytes; one that does not fit is refused as too long.
pub proof fn lemma_size_read(b: Seq<u8>)
    ensures
        match take_usize(b) {
            Ok((v, rest)) => b == le_of(v as int, 8) + rest,
            Err(e) => if b.len() < 8 {
                e == SerialError::Truncated
            } else {
                e == SerialError::TooLong && le_value(b.take(8)) > usize::MAX
            },
        },
{
    lemma_number_read(b, 8);
    if b.len() >= 8 {
        lemma_le_bytes(b.take(8));
    }
}

/// A list of bytes is read from its length and as many bytes.
pub proof fn lemma_bytes_read(b: Seq<u8>, n: nat)
    ensures
        match take_bytes(b, n) {
            Ok((v, rest)) => v.len() == n && b == v + rest,
            Err(e) => e == SerialError::Truncated && b.len() < n,
        },
        match take_vec_u8(b) {
            Ok((v, rest)) => b == vec_u8_bytes(v) + rest,
            Err(e) => e == SerialError::Truncated || e == SerialError::TooLong,
        },
{
    if b.len() >= n {
        assert(b =~= b.take(n as int) + b.skip(n as int));
    }
    lemma_size_read(b);
    if let Ok((k, rest)) = take_usize(b) {
        if rest.len() >= k {
            let v = rest.take(k as int);
            assert(rest =~= v + rest.skip(k as int));
            assert(b =~= (le_of(k as int, 8) + v) + rest.skip(k as int));
        }
    }
}

/// A text is read from its length in bytes and the bytes; bytes that are no text are refused.
pub proof fn lemma_text_read(b: Seq<u8>)
    ensures
        match take_str(b) {
            Ok((s, rest)) => b == str_bytes(s) + rest,
            Err(e) => e == SerialError::BadText || e == SerialError::Truncated || e
                == SerialError::TooLong,
        },
        take_str(b) == Err::<(Seq<char>, Seq<u8>), SerialError>(SerialError::BadText) ==> match take_vec_u8(
            b,
        ) {
            Ok((v, rest)) => !valid_utf8(v),
            Err(e) => false,
        },
{
    lemma_bytes_read(b, 0);
    if let Ok((v, rest)) = take_vec_u8(b) {
        if valid_utf8(v) {
            decode_utf8_encode_utf8(v);
        }
    }
}

proof fn lemma_words_read(b: Seq<u8>, n: nat)
    ensures
        match take_words(b, n) {
            Ok((v, rest)) => v.len() == n && b == words_bytes(v, n) + rest,
            Err(e) => e == SerialError::Truncated && b.len() < 8 * n,
        },
    decreases n,
{
    if n == 0 {
        assert(b =~= words_bytes(seq![], 0) + b);
    } else {
        lemma_words_read(b, (n - 1) as nat);
        if let Ok((v, rest)) = take_words(b, (n - 1) as nat) {
            lemma_words_alike(v, v, (n - 1) as nat);
            lemma_number_read(rest, 8);
            if let Ok((x, last)) = take_num(rest, 8) {
                lemma_le_bytes(rest.take(8));
                reveal_with_fuel(radix, 9);
                let w = v.push(x as u64);
                lemma_words_alike(w, v, (n - 1) as nat);
                assert(b =~= (words_bytes(v, (n - 1) as nat) + le_of(x, 8)) + last);
            }
        }
    }
}

proof fn lemma_words_alike(a: Seq<u64>, b: Seq<u64>, n: nat)
    requires
        n <= a.len(),
        n <= b.len(),
        forall|i: int| 0 <= i < n ==> #[trigger] a[i] == b[i],
    ensures
        words_bytes(a, n) == words_bytes(b, n),
        words_bytes(a, n).len() == 8 * n,
    decreases n,
{
    if n > 0 {
        lemma_words_alike(a, b, (n - 1) as nat);
        assert(a[n - 1] == b[n - 1]);
        reveal_with_fuel(le_of, 9);
    }
}

proof fn lemma_ints_read(b: Seq<u8>, n: nat)
    ensures
        match take_ints(b, n) {
            Ok((v, rest)) => v.len() == n && b == signed_bytes(v, n) + rest,
            Err(e) => e == SerialError::Truncated && b.len() < 4 * n,
        },
    decreases n,
{
    if n == 0 {
        assert(b =~= signed_bytes(seq![], 0) + b);
    } else {
        lemma_ints_read(b, (n - 1) as nat);
        if let Ok((v, rest)) = take_ints(b, (n - 1) as nat) {
            lemma_ints_alike(v, v, (n - 1) as nat);
            lemma_small_values_read(rest);
            if let Ok((x, last)) = take_i32(rest) {
                let w = v.push(x);
                lemma_ints_alike(w, v, (n - 1) as nat);
                assert(b =~= (signed_bytes(v, (n - 1) as nat) + le_of(
                    wrapped(x),
                    4,
                )) + last);
            }
        }
    }
}

proof fn lemma_ints_alike(a: Seq<i32>, b: Seq<i32>, n: nat)
    requires
        n <= a.len(),
        n <= b.len(),
        forall|i: int| 0 <= i < n ==> #[trigger] a[i] == b[i],
    ensures
        signed_bytes(a, n) == signed_bytes(b, n),
        signed_bytes(a, n).len() == 4 * n,
    decreases n,
{
    if n > 0 {
        lemma_ints_alike(a, b, (n - 1) as nat);
        assert(a[n - 1] == b[n - 1]);
        reveal_with_fuel(le_of, 5);
    }
}

/// Lists of numbers are read from their length and the numbers, one after the other.
pub proof fn lemma_lists_read(b: Seq<u8>)
    ensures
        match take_vec_u64(b) {
            Ok((v, rest)) => b == vec_u64_bytes(v) + rest,
            Err(e) => e == SerialError::Truncated || e == SerialError::TooLong,
        },
        match take_vec_i32(b) {
            Ok((v, rest)) => b == vec_i32_bytes(v) + rest,
            Err(e) => e == SerialError::Truncated || e == SerialError::TooLong,
        },
{
    lemma_size_read(b);
    if let Ok((n, rest)) = take_usize(b) {
        lemma_words_read(rest, n as nat);
        lemma_ints_read(rest, n as nat);
        if let Ok((v, last)) = take_words(rest, n as nat) {
            assert(b =~= (le_of(n as int, 8) + words_bytes(v, n as nat)) + last);
        }
        if let Ok((v, last)) = take_ints(rest, n as nat) {
            assert(b =~= (le_of(n as int, 8) + signed_bytes(v, n as nat)) + last);
        }
    }
}

/// A header is accepted only if it is the one that is expected. What is wrong is told in the order
/// in which it is met: too few bytes, other letters, another version, another kind.
pub proof fn lemma_header_read(b: Seq<u8>, tag: u8)
    ensures
        match take_header(b, tag) {
            Ok((_, rest)) => b == header_bytes(tag) + rest,
            Err(SerialError::BadMagic) => b.len() >= 4 && b.take(4) != header_bytes(tag).take(4),
            Err(SerialError::BadVersion { found }) => b.len() >= 8 && b.take(4) == header_bytes(
                tag,
            ).take(4) && b.subrange(4, 8) == le_of(found as int, 4) && found != VERSION,
            Err(SerialError::WrongTag { found, expected }) => b.len() >= 9 && b.take(8)
                == header_bytes(tag).take(8) && found == b[8] && expected == tag && found != tag,
            Err(e) => e == SerialError::Truncated && b.len() < 9,
        },
{
    let h = header_bytes(tag);
    reveal_with_fuel(le_of, 5);
    assert(h.len() == 9);
    assert(h.take(4) =~= magic());
    lemma_bytes_read(b, 4);
    if b.len() >= 4 {
        let b1 = b.skip(4);
        lemma_number_read(b1, 4);
        if b.take(4) == magic() && b1.len() >= 4 {
            lemma_value_bound(b1.take(4));
            lemma_le_bytes(b1.take(4));
            assert(b1.take(4) =~= b.subrange(4, 8));
            let b2 = b1.skip(4);
            lemma_small_values_read(b2);
            if le_value(b1.take(4)) == VERSION {
                assert(b.take(8) =~= magic() + le_of(VERSION as int, 4));
                assert(h.take(8) =~= magic() + le_of(VERSION as int, 4));
                if b2.len() > 0 {
                    assert(b2[0] == b[8]);
                    if b2[0] == tag {
                        assert(b =~= h + b2.skip(1));
                    }
                }
            }
        }
    }
}

} // verus!
