//! Bytes of saved artifacts: little-endian numbers, length-prefixed lists, and the header that
//! says what an artifact is.
use crate::booleanizer::Number;
use crate::rng::Rng;
use vstd::prelude::*;
use vstd::slice::{slice_subrange, slice_to_vec};
use vstd::string::StringSliceAdditionalSpecFns;
use vstd::utf8::{
    decode_utf8, encode_utf8, encode_utf8_decode_utf8, encode_utf8_valid_utf8, valid_utf8,
};

verus! {

/// The first bytes of every artifact.
pub open spec fn magic() -> Seq<u8> {
    seq![0x54u8, 0x4D, 0x52, 0x53]
}

/// The version of the layout.
pub const VERSION: u32 = 1;

/// Tags of the kinds of artifacts.
pub const TAG_VANILLA: u8 = 1;

pub const TAG_COALESCED: u8 = 2;

pub const TAG_AUTOENCODER: u8 = 3;

pub const TAG_ENCODER: u8 = 4;

pub const TAG_SPARSE: u8 = 5;

pub const TAG_CONVOLUTIONAL: u8 = 6;

pub const TAG_REGRESSOR: u8 = 7;

pub const TAG_COMPOSITE: u8 = 8;

pub const TAG_COALESCED_AUTOENCODER: u8 = 9;

/// Why bytes are not an artifact.
#[derive(Clone, Copy, Debug, PartialEq, Eq, Structural)]
pub enum SerialError {
    /// The bytes end too early.
    Truncated,
    /// The first bytes are not those of an artifact.
    BadMagic,
    /// The version of the layout is another.
    BadVersion { found: u32 },
    /// The artifact is of another kind.
    WrongTag { found: u8, expected: u8 },
    /// A length does not fit in this machine's address range.
    TooLong,
    /// A text is not UTF-8.
    BadText,
    /// Values contradict each other.
    Inconsistent,
}

/// 256 to the power of `n`.
pub open spec fn radix(n: nat) -> int
    decreases n,
{
    if n == 0 {
        1
    } else {
        256 * radix((n - 1) as nat)
    }
}

/// The `n` lowest bytes of a number, lowest first.
pub open spec fn le_of(v: int, n: nat) -> Seq<u8>
    decreases n,
{
    if n == 0 {
        seq![]
    } else {
        seq![(v % 256) as u8] + le_of(v / 256, (n - 1) as nat)
    }
}

/// The number with the given bytes, lowest first.
pub open spec fn le_value(s: Seq<u8>) -> int
    decreases s.len(),
{
    if s.len() == 0 {
        0
    } else {
        s[0] + 256 * le_value(s.drop_first())
    }
}

/// A number of `n` bytes is what its bytes say.
pub proof fn lemma_le_value(v: int, n: nat)
    requires
        0 <= v < radix(n),
    ensures
        le_of(v, n).len() == n,
        le_value(le_of(v, n)) == v,
    decreases n,
{
    if n > 0 {
        let m = (n - 1) as nat;
        assert(v / 256 < radix(m)) by (nonlinear_arith)
            requires
                0 <= v < 256 * radix(m),
        ;
        lemma_le_value(v / 256, m);
        let s = le_of(v, n);
        assert(s.drop_first() =~= le_of(v / 256, m));
    }
}

/// `n` bytes hold a number below `256^n`, of which they are the bytes.
pub proof fn lemma_le_bytes(s: Seq<u8>)
    ensures
        0 <= le_value(s) < radix(s.len()),
        le_of(le_value(s), s.len()) == s,
    decreases s.len(),
{
    if s.len() > 0 {
        lemma_le_bytes(s.drop_first());
        let rest = le_value(s.drop_first());
        assert((s[0] + 256 * rest) % 256 == s[0]);
        assert((s[0] + 256 * rest) / 256 == rest);
        assert(le_of(le_value(s), s.len()) =~= s);
    }
}

proof fn lemma_radix()
    ensures
        radix(1) == 0x100,
        radix(4) == 0x1_0000_0000,
        radix(8) == 0x1_0000_0000_0000_0000,
{
    reveal_with_fuel(radix, 9);
}

/// Writes the `n` lowest bytes of a number, lowest first.
fn w_le(w: &mut Vec<u8>, v: u64, n: usize)
    ensures
        final(w)@ == old(w)@ + le_of(v as int, n as nat),
{
    let ghost start = w@;
    let mut x: u64 = v;
    let mut i: usize = 0;
    proof {
        assert(w@ + le_of(v as int, n as nat) =~= start + le_of(v as int, n as nat));
    }
    while i < n
        invariant
            i <= n,
            w@ + le_of(x as int, (n - i) as nat) == start + le_of(v as int, n as nat),
        decreases n - i,
    {
        let ghost before = w@;
        w.push((x % 256) as u8);
        proof {
            let rest = le_of(x as int / 256, (n - i - 1) as nat);
            assert(before + (seq![(x as int % 256) as u8] + rest) =~= w@ + rest);
        }
        x = x / 256;
        i = i + 1;
    }
    proof {
        assert(w@ + le_of(x as int, 0) =~= w@);
    }
}

/// Writes one byte.
pub fn w_u8(w: &mut Vec<u8>, v: u8)
    ensures
        final(w)@ == old(w)@.push(v),
{
    w.push(v);
}

/// Writes a number of four bytes.
pub fn w_u32(w: &mut Vec<u8>, v: u32)
    ensures
        final(w)@ == old(w)@ + le_of(v as int, 4),
{
    w_le(w, v as u64, 4);
}

/// Writes a number of eight bytes.
pub fn w_u64(w: &mut Vec<u8>, v: u64)
    ensures
        final(w)@ == old(w)@ + le_of(v as int, 8),
{
    w_le(w, v, 8);
}

/// A signed number as an unsigned one with the same bits.
pub open spec fn wrapped(v: i32) -> int {
    if v >= 0 {
        v as int
    } else {
        v + 0x1_0000_0000
    }
}

/// Writes a signed number of four bytes.
pub fn w_i32(w: &mut Vec<u8>, v: i32)
    ensures
        final(w)@ == old(w)@ + le_of(wrapped(v), 4),
{
    let u: i64 = if v >= 0 {
        v as i64
    } else {
        v as i64 + 0x1_0000_0000
    };
    w_le(w, u as u64, 4);
}

/// Writes the bit pattern of a double.
pub fn w_f64(w: &mut Vec<u8>, v: Number)
    ensures
        final(w)@ == old(w)@ + le_of(v.0 as int, 8),
{
    w_u64(w, v.0);
}

/// Writes a truth value as one byte.
pub fn w_bool(w: &mut Vec<u8>, v: bool)
    ensures
        final(w)@ == old(w)@.push(
            if v {
                1u8
            } else {
                0u8
            },
        ),
{
    w_u8(
        w,
        if v {
            1
        } else {
            0
        },
    );
}

/// Writes a size as eight bytes.
pub fn w_usize(w: &mut Vec<u8>, v: usize)
    ensures
        final(w)@ == old(w)@ + le_of(v as int, 8),
{
    w_u64(w, v as u64);
}

/// Writes bytes as they are.
fn w_all(w: &mut Vec<u8>, v: &[u8])
    ensures
        final(w)@ == old(w)@ + v@,
{
    let ghost start = w@;
    let mut i: usize = 0;
    while i < v.len()
        invariant
            i <= v@.len(),
            w@ == start + v@.take(i as int),
        decreases v@.len() - i,
    {
        w.push(v[i]);
        proof {
            assert(v@.take(i + 1) =~= v@.take(i as int).push(v@[i as int]));
            assert(w@ =~= start + v@.take(i + 1));
        }
        i = i + 1;
    }
    proof {
        assert(v@.take(v@.len() as int) =~= v@);
    }
}

/// A text as its length in bytes and its UTF-8 bytes.
pub open spec fn str_bytes(s: Seq<char>) -> Seq<u8> {
    le_of(encode_utf8(s).len() as int, 8) + encode_utf8(s)
}

/// Writes a text with its length.
pub fn w_str(w: &mut Vec<u8>, s: &str)
    ensures
        final(w)@ == old(w)@ + str_bytes(s@),
        encode_utf8(s@).len() <= usize::MAX,
{
    let b: &[u8] = s.as_bytes();
    assert(b.len() <= usize::MAX);
    let ghost start = w@;
    w_usize(w, b.len());
    w_all(w, b);
    proof {
        assert(w@ =~= start + str_bytes(s@));
    }
}

/// Bytes with their number before them.
pub open spec fn vec_u8_bytes(v: Seq<u8>) -> Seq<u8> {
    le_of(v.len() as int, 8) + v
}

/// Writes bytes with their number.
pub fn w_vec_u8(w: &mut Vec<u8>, v: &[u8])
    ensures
        final(w)@ == old(w)@ + vec_u8_bytes(v@),
{
    let ghost start = w@;
    w_usize(w, v.len());
    w_all(w, v);
    proof {
        assert(w@ =~= start + vec_u8_bytes(v@));
    }
}

/// The first `n` numbers as eight bytes each.
pub open spec fn words_bytes(v: Seq<u64>, n: nat) -> Seq<u8>
    decreases n,
{
    if n == 0 {
        seq![]
    } else {
        words_bytes(v, (n - 1) as nat) + le_of(v[n - 1] as int, 8)
    }
}

/// Numbers of eight bytes with their number before them.
pub open spec fn vec_u64_bytes(v: Seq<u64>) -> Seq<u8> {
    le_of(v.len() as int, 8) + words_bytes(v, v.len())
}

/// The first `n` signed numbers as four bytes each.
pub open spec fn signed_bytes(v: Seq<i32>, n: nat) -> Seq<u8>
    decreases n,
{
    if n == 0 {
        seq![]
    } else {
        signed_bytes(v, (n - 1) as nat) + le_of(wrapped(v[n - 1]), 4)
    }
}

/// Signed numbers of four bytes with their number before them.
pub open spec fn vec_i32_bytes(v: Seq<i32>) -> Seq<u8> {
    le_of(v.len() as int, 8) + signed_bytes(v, v.len())
}

/// Writes signed numbers with their number.
pub fn w_vec_i32(w: &mut Vec<u8>, v: &[i32])
    ensures
        final(w)@ == old(w)@ + vec_i32_bytes(v@),
{
    let ghost start = w@;
    w_usize(w, v.len());
    let ghost head = w@;
    let mut i: usize = 0;
    while i < v.len()
        invariant
            i <= v@.len(),
            w@ == head + signed_bytes(v@, i as nat),
        decreases v@.len() - i,
    {
        w_i32(w, v[i]);
        proof {
            assert(w@ =~= head + signed_bytes(v@, (i + 1) as nat));
        }
        i = i + 1;
    }
    proof {
        assert(w@ =~= start + vec_i32_bytes(v@));
    }
}

/// The bit patterns of doubles.
pub open spec fn patterns(v: Seq<Number>) -> Seq<u64> {
    Seq::new(v.len(), |i: int| v[i].0)
}

/// Writes doubles with their number.
pub fn w_vec_f64(w: &mut Vec<u8>, v: &[Number])
    ensures
        final(w)@ == old(w)@ + vec_u64_bytes(patterns(v@)),
{
    let ghost start = w@;
    w_usize(w, v.len());
    let ghost head = w@;
    let mut i: usize = 0;
    while i < v.len()
        invariant
            i <= v@.len(),
            w@ == head + words_bytes(patterns(v@), i as nat),
        decreases v@.len() - i,
    {
        w_f64(w, v[i]);
        proof {
            assert(w@ =~= head + words_bytes(patterns(v@), (i + 1) as nat));
        }
        i = i + 1;
    }
    proof {
        assert(w@ =~= start + vec_u64_bytes(patterns(v@)));
    }
}

/// The positions of generators.
pub open spec fn raw_positions(v: Seq<Rng>) -> Seq<u64> {
    Seq::new(v.len(), |i: int| v[i]@)
}

/// Writes the positions of generators with their number.
pub fn w_rngs(w: &mut Vec<u8>, v: &[Rng])
    ensures
        final(w)@ == old(w)@ + vec_u64_bytes(raw_positions(v@)),
{
    let ghost start = w@;
    w_usize(w, v.len());
    let ghost head = w@;
    let mut i: usize = 0;
    while i < v.len()
        invariant
            i <= v@.len(),
            w@ == head + words_bytes(raw_positions(v@), i as nat),
        decreases v@.len() - i,
    {
        w_u64(w, v[i].raw());
        proof {
            assert(w@ =~= head + words_bytes(raw_positions(v@), (i + 1) as nat));
        }
        i = i + 1;
    }
    proof {
        assert(w@ =~= start + vec_u64_bytes(raw_positions(v@)));
    }
}

/// The header of an artifact.
pub open spec fn header_bytes(tag: u8) -> Seq<u8> {
    (magic() + le_of(VERSION as int, 4)).push(tag)
}

/// Writes the header of an artifact.
pub fn write_header(w: &mut Vec<u8>, tag: u8)
    ensures
        final(w)@ == old(w)@ + header_bytes(tag),
{
    let ghost start = w@;
    w_u8(w, 0x54);
    w_u8(w, 0x4D);
    w_u8(w, 0x52);
    w_u8(w, 0x53);
    w_u32(w, VERSION);
    w_u8(w, tag);
    proof {
        assert(w@ =~= start + header_bytes(tag));
    }
}

/// Bytes that are read from the front.
pub struct Reader<'a> {
    pub bytes: &'a [u8],
    pub pos: usize,
}

impl<'a> Reader<'a> {
    pub open spec fn wf(&self) -> bool {
        self.pos <= self.bytes@.len()
    }

    /// What is still to be read.
    pub open spec fn rest(&self) -> Seq<u8> {
        self.bytes@.skip(self.pos as int)
    }

    /// Starts to read bytes.
    pub fn new(bytes: &'a [u8]) -> (r: Self)
        ensures
            r.wf(),
            r.rest() == bytes@,
            r.bytes == bytes,
    {
        let r: Reader = Reader { bytes, pos: 0 };
        proof {
            assert(r.rest() =~= bytes@);
        }
        r
    }

    /// How many bytes are still to be read.
    pub fn left(&self) -> (r: usize)
        requires
            self.wf(),
        ensures
            r == self.rest().len(),
    {
        self.bytes.len() - self.pos
    }

    /// Reads a number of `n` bytes.
    fn r_le(&mut self, n: usize) -> (r: Result<u64, SerialError>)
        requires
            old(self).wf(),
            n <= 8,
        ensures
            final(self).wf(),
            match r {
                Ok(v) => take_num(old(self).rest(), n as nat) == parsed(v as int, final(self).rest()),
                Err(e) => take_num(old(self).rest(), n as nat) == failed::<int>(e),
            },
    {
        let ghost rest = self.rest();
        if self.bytes.len() - self.pos < n {
            return Err(SerialError::Truncated);
        }
        let mut v: u64 = 0;
        let mut i: usize = n;
        proof {
            assert(rest.take(n as int).skip(n as int) =~= Seq::<u8>::empty());
        }
        while i > 0
            invariant
                i <= n <= 8,
                self.wf(),
                self.pos + n <= self.bytes.len(),
                rest == self.rest(),
                v == le_value(rest.take(n as int).skip(i as int)),
            decreases i,
        {
            i = i - 1;
            proof {
                let s = rest.take(n as int).skip(i as int);
                assert(s.drop_first() =~= rest.take(n as int).skip(i + 1));
                assert(s[0] == self.bytes@[self.pos + i]);
                lemma_le_bytes(s.drop_first());
                lemma_radix();
                lemma_radix_grows((n - i - 1) as nat, 7);
                assert(radix(8) == 256 * radix(7));
            }
            v = v * 256 + self.bytes[self.pos + i] as u64;
        }
        proof {
            assert(rest.take(n as int).skip(0) =~= rest.take(n as int));
        }
        self.pos = self.pos + n;
        proof {
            assert(self.rest() =~= rest.skip(n as int));
        }
        Ok(v)
    }

    /// Reads one byte.
    pub fn r_u8(&mut self) -> (r: Result<u8, SerialError>)
        requires
            old(self).wf(),
        ensures
            final(self).wf(),
            match r {
                Ok(v) => take_u8(old(self).rest()) == parsed(v, final(self).rest()),
                Err(e) => take_u8(old(self).rest()) == failed::<u8>(e),
            },
    {
        let ghost rest = self.rest();
        if self.pos >= self.bytes.len() {
            return Err(SerialError::Truncated);
        }
        let v: u8 = self.bytes[self.pos];
        self.pos = self.pos + 1;
        proof {
            assert(self.rest() =~= rest.skip(1));
        }
        Ok(v)
    }

    /// Reads a number of four bytes.
    pub fn r_u32(&mut self) -> (r: Result<u32, SerialError>)
        requires
            old(self).wf(),
        ensures
            final(self).wf(),
            match r {
                Ok(v) => take_num(old(self).rest(), 4) == parsed(v as int, final(self).rest()),
                Err(e) => take_num(old(self).rest(), 4) == failed::<int>(e),
            },
    {
        let ghost rest = self.rest();
        match self.r_le(4) {
            Ok(v) => {
                proof {
                    lemma_le_bytes(rest.take(4));
                    lemma_radix();
                }
                Ok(v as u32)
            },
            Err(e) => Err(e),
        }
    }

    /// Reads a number of eight bytes.
    pub fn r_u64(&mut self) -> (r: Result<u64, SerialError>)
        requires
            old(self).wf(),
        ensures
            final(self).wf(),
            match r {
                Ok(v) => take_num(old(self).rest(), 8) == parsed(v as int, final(self).rest()),
                Err(e) => take_num(old(self).rest(), 8) == failed::<int>(e),
            },
    {
        self.r_le(8)
    }

    /// Reads a signed number of four bytes.
    pub fn r_i32(&mut self) -> (r: Result<i32, SerialError>)
        requires
            old(self).wf(),
        ensures
            final(self).wf(),
            match r {
                Ok(v) => take_i32(old(self).rest()) == parsed(v, final(self).rest()),
                Err(e) => take_i32(old(self).rest()) == failed::<i32>(e),
            },
    {
        let ghost rest = self.rest();
        match self.r_u32() {
            Ok(v) => if v < 0x8000_0000 {
                Ok(v as i32)
            } else {
                Ok((v as i64 - 0x1_0000_0000) as i32)
            },
            Err(e) => Err(e),
        }
    }

    /// Reads the bit pattern of a double.
    pub fn r_f64(&mut self) -> (r: Result<Number, SerialError>)
        requires
            old(self).wf(),
        ensures
            final(self).wf(),
            match r {
                Ok(v) => take_num(old(self).rest(), 8) == parsed(v.0 as int, final(self).rest()),
                Err(e) => take_num(old(self).rest(), 8) == failed::<int>(e),
            },
    {
        match self.r_u64() {
            Ok(v) => Ok(Number(v)),
            Err(e) => Err(e),
        }
    }

    /// Reads a truth value: every byte but 0 is true.
    pub fn r_bool(&mut self) -> (r: Result<bool, SerialError>)
        requires
            old(self).wf(),
        ensures
            final(self).wf(),
            match r {
                Ok(v) => take_bool(old(self).rest()) == parsed(v, final(self).rest()),
                Err(e) => take_bool(old(self).rest()) == failed::<bool>(e),
            },
    {
        match self.r_u8() {
            Ok(v) => Ok(v != 0),
            Err(e) => Err(e),
        }
    }

    /// Reads a size.
    pub fn r_usize(&mut self) -> (r: Result<usize, SerialError>)
        requires
            old(self).wf(),
        ensures
            final(self).wf(),
            match r {
                Ok(v) => take_usize(old(self).rest()) == parsed(v, final(self).rest()),
                Err(e) => take_usize(old(self).rest()) == failed::<usize>(e),
            },
    {
        match self.r_u64() {
            Ok(v) => if v <= usize::MAX as u64 {
                Ok(v as usize)
            } else {
                Err(SerialError::TooLong)
            },
            Err(e) => Err(e),
        }
    }

    /// Reads `n` bytes.
    pub fn r_bytes(&mut self, n: usize) -> (r: Result<Vec<u8>, SerialError>)
        requires
            old(self).wf(),
        ensures
            final(self).wf(),
            match r {
                Ok(v) => take_bytes(old(self).rest(), n as nat) == parsed(v@, final(self).rest()),
                Err(e) => take_bytes(old(self).rest(), n as nat) == failed::<Seq<u8>>(e),
            },
    {
        let ghost rest = self.rest();
        if self.bytes.len() - self.pos < n {
            return Err(SerialError::Truncated);
        }
        let v: Vec<u8> = slice_to_vec(slice_subrange(self.bytes, self.pos, self.pos + n));
        self.pos = self.pos + n;
        proof {
            assert(self.rest() =~= rest.skip(n as int));
            assert(v@ =~= rest.take(n as int));
        }
        Ok(v)
    }

    /// Reads bytes with their number.
    pub fn r_vec_u8(&mut self) -> (r: Result<Vec<u8>, SerialError>)
        requires
            old(self).wf(),
        ensures
            final(self).wf(),
            match r {
                Ok(v) => take_vec_u8(old(self).rest()) == parsed(v@, final(self).rest()),
                Err(e) => take_vec_u8(old(self).rest()) == failed::<Seq<u8>>(e),
            },
    {
        match self.r_usize() {
            Ok(n) => self.r_bytes(n),
            Err(e) => Err(e),
        }
    }

    /// Reads a text with its length.
    pub fn r_str(&mut self) -> (r: Result<String, SerialError>)
        requires
            old(self).wf(),
        ensures
            final(self).wf(),
            match r {
                Ok(v) => take_str(old(self).rest()) == parsed(v@, final(self).rest()),
                Err(e) => take_str(old(self).rest()) == failed::<Seq<char>>(e),
            },
    {
        match self.r_vec_u8() {
            Ok(b) => match text_from_bytes(b) {
                Some(s) => Ok(s),
                None => Err(SerialError::BadText),
            },
            Err(e) => Err(e),
        }
    }

    /// Reads `n` numbers of eight bytes.
    fn r_words(&mut self, n: usize) -> (r: Result<Vec<u64>, SerialError>)
        requires
            old(self).wf(),
        ensures
            final(self).wf(),
            match r {
                Ok(v) => take_words(old(self).rest(), n as nat) == parsed(v@, final(self).rest()),
                Err(e) => take_words(old(self).rest(), n as nat) == failed::<Seq<u64>>(e),
            },
    {
        let ghost rest = self.rest();
        let mut v: Vec<u64> = Vec::new();
        let mut i: usize = 0;
        while i < n
            invariant
                i <= n,
                self.wf(),
                take_words(rest, i as nat) == parsed(v@, self.rest()),
                rest == old(self).rest(),
            decreases n - i,
        {
            let ghost here = self.rest();
            match self.r_u64() {
                Ok(x) => {
                    v.push(x);
                },
                Err(e) => {
                    proof {
                        lemma_words_fail(rest, (i + 1) as nat, n as nat);
                    }
                    return Err(e);
                },
            }
            i = i + 1;
        }
        Ok(v)
    }

    /// Reads signed numbers with their number.
    pub fn r_vec_i32(&mut self) -> (r: Result<Vec<i32>, SerialError>)
        requires
            old(self).wf(),
        ensures
            final(self).wf(),
            match r {
                Ok(v) => take_vec_i32(old(self).rest()) == parsed(v@, final(self).rest()),
                Err(e) => take_vec_i32(old(self).rest()) == failed::<Seq<i32>>(e),
            },
    {
        match self.r_usize() {
            Ok(n) => self.r_ints(n),
            Err(e) => Err(e),
        }
    }

    /// Reads `n` signed numbers.
    pub fn r_ints(&mut self, n: usize) -> (r: Result<Vec<i32>, SerialError>)
        requires
            old(self).wf(),
        ensures
            final(self).wf(),
            match r {
                Ok(v) => take_ints(old(self).rest(), n as nat) == parsed(v@, final(self).rest()),
                Err(e) => take_ints(old(self).rest(), n as nat) == failed::<Seq<i32>>(e),
            },
    {
        let ghost rest = self.rest();
        let mut v: Vec<i32> = Vec::new();
        let mut i: usize = 0;
        while i < n
            invariant
                i <= n,
                self.wf(),
                take_ints(rest, i as nat) == parsed(v@, self.rest()),
                rest == old(self).rest(),
            decreases n - i,
        {
            match self.r_i32() {
                Ok(x) => {
                    v.push(x);
                },
                Err(e) => {
                    proof {
                        lemma_ints_fail(rest, (i + 1) as nat, n as nat);
                    }
                    return Err(e);
                },
            }
            i = i + 1;
        }
        Ok(v)
    }

    /// Reads doubles with their number.
    pub fn r_vec_f64(&mut self) -> (r: Result<Vec<Number>, SerialError>)
        requires
            old(self).wf(),
        ensures
            final(self).wf(),
            match r {
                Ok(v) => take_vec_u64(old(self).rest()) == parsed(patterns(v@), final(self).rest()),
                Err(e) => take_vec_u64(old(self).rest()) == failed::<Seq<u64>>(e),
            },
    {
        let words: Vec<u64> = match self.r_usize() {
            Ok(n) => match self.r_words(n) {
                Ok(w) => w,
                Err(e) => return Err(e),
            },
            Err(e) => return Err(e),
        };
        let mut v: Vec<Number> = Vec::with_capacity(words.len());
        let mut i: usize = 0;
        while i < words.len()
            invariant
                i <= words@.len(),
                v@.len() == i,
                forall|k: int| 0 <= k < i ==> (#[trigger] v@[k]).0 == words@[k],
            decreases words@.len() - i,
        {
            v.push(Number(words[i]));
            i = i + 1;
        }
        proof {
            assert(patterns(v@) =~= words@);
        }
        Ok(v)
    }

    /// Reads the positions of generators with their number.
    pub fn r_rngs(&mut self) -> (r: Result<Vec<Rng>, SerialError>)
        requires
            old(self).wf(),
        ensures
            final(self).wf(),
            match r {
                Ok(v) => take_vec_u64(old(self).rest()) == parsed(
                    raw_positions(v@),
                    final(self).rest(),
                ),
                Err(e) => take_vec_u64(old(self).rest()) == failed::<Seq<u64>>(e),
            },
    {
        let words: Vec<u64> = match self.r_usize() {
            Ok(n) => match self.r_words(n) {
                Ok(w) => w,
                Err(e) => return Err(e),
            },
            Err(e) => return Err(e),
        };
        let mut v: Vec<Rng> = Vec::with_capacity(words.len());
        let mut i: usize = 0;
        while i < words.len()
            invariant
                i <= words@.len(),
                v@.len() == i,
                forall|k: int| 0 <= k < i ==> (#[trigger] v@[k])@ == words@[k],
            decreases words@.len() - i,
        {
            v.push(Rng::from_raw(words[i]));
            i = i + 1;
        }
        proof {
            assert(raw_positions(v@) =~= words@);
        }
        Ok(v)
    }

    /// Reads the header of an artifact and checks that it is of the expected kind.
    pub fn read_header(&mut self, expected_tag: u8) -> (r: Result<(), SerialError>)
        requires
            old(self).wf(),
        ensures
            final(self).wf(),
            match r {
                Ok(v) => take_header(old(self).rest(), expected_tag) == parsed((), final(self).rest()),
                Err(e) => take_header(old(self).rest(), expected_tag) == failed::<()>(e),
            },
    {
        let m: Vec<u8> = match self.r_bytes(4) {
            Ok(m) => m,
            Err(e) => return Err(e),
        };
        if !(m[0] == 0x54 && m[1] == 0x4D && m[2] == 0x52 && m[3] == 0x53) {
            proof {
                assert(m@ != magic());
            }
            return Err(SerialError::BadMagic);
        }
        proof {
            assert(m@ =~= magic());
        }
        let version: u32 = match self.r_u32() {
            Ok(v) => v,
            Err(e) => return Err(e),
        };
        if version != VERSION {
            return Err(SerialError::BadVersion { found: version });
        }
        let tag: u8 = match self.r_u8() {
            Ok(t) => t,
            Err(e) => return Err(e),
        };
        if tag != expected_tag {
            return Err(SerialError::WrongTag { found: tag, expected: expected_tag });
        }
        Ok(())
    }
}

/// The text with the given bytes, if they are UTF-8.
///
/// Calls `String::from_utf8`, and takes from its documentation that it accepts exactly the
/// bytes that are valid UTF-8 and returns the text that they encode.
#[verifier::external_body]
fn text_from_bytes(b: Vec<u8>) -> (r: Option<String>)
    ensures
        match r {
            Some(s) => valid_utf8(b@) && s@ == decode_utf8(b@),
            None => !valid_utf8(b@),
        },
{
    String::from_utf8(b).ok()
}

/// What comes of reading a value from the front of bytes: the value and the bytes behind it, or
/// an error.
pub type Parse<T> = Result<(T, Seq<u8>), SerialError>;

/// A value was read.
pub open spec fn parsed<T>(v: T, rest: Seq<u8>) -> Parse<T> {
    Ok((v, rest))
}

/// No value was read.
pub open spec fn failed<T>(e: SerialError) -> Parse<T> {
    Err(e)
}

/// A number of `n` bytes.
pub open spec fn take_num(b: Seq<u8>, n: nat) -> Parse<int> {
    if b.len() < n {
        Err(SerialError::Truncated)
    } else {
        Ok((le_value(b.take(n as int)), b.skip(n as int)))
    }
}

/// A byte.
pub open spec fn take_u8(b: Seq<u8>) -> Parse<u8> {
    if b.len() < 1 {
        Err(SerialError::Truncated)
    } else {
        Ok((b[0], b.skip(1)))
    }
}

/// A signed number.
pub open spec fn take_i32(b: Seq<u8>) -> Parse<i32> {
    match take_num(b, 4) {
        Ok((v, rest)) => Ok(
            (
                (if v < 0x8000_0000 {
                    v
                } else {
                    v - 0x1_0000_0000
                }) as i32,
                rest,
            ),
        ),
        Err(e) => Err(e),
    }
}

/// A truth value.
pub open spec fn take_bool(b: Seq<u8>) -> Parse<bool> {
    match take_u8(b) {
        Ok((v, rest)) => Ok((v != 0, rest)),
        Err(e) => Err(e),
    }
}

/// A size.
pub open spec fn take_usize(b: Seq<u8>) -> Parse<usize> {
    match take_num(b, 8) {
        Ok((v, rest)) => if v <= usize::MAX {
            Ok((v as usize, rest))
        } else {
            Err(SerialError::TooLong)
        },
        Err(e) => Err(e),
    }
}

/// `n` bytes.
pub open spec fn take_bytes(b: Seq<u8>, n: nat) -> Parse<Seq<u8>> {
    if b.len() < n {
        Err(SerialError::Truncated)
    } else {
        Ok((b.take(n as int), b.skip(n as int)))
    }
}

/// Bytes with their number.
pub open spec fn take_vec_u8(b: Seq<u8>) -> Parse<Seq<u8>> {
    match take_usize(b) {
        Ok((n, rest)) => take_bytes(rest, n as nat),
        Err(e) => Err(e),
    }
}

/// A text with its length.
pub open spec fn take_str(b: Seq<u8>) -> Parse<Seq<char>> {
    match take_vec_u8(b) {
        Ok((v, rest)) => if valid_utf8(v) {
            Ok((decode_utf8(v), rest))
        } else {
            Err(SerialError::BadText)
        },
        Err(e) => Err(e),
    }
}

/// `n` numbers of eight bytes.
pub open spec fn take_words(b: Seq<u8>, n: nat) -> Parse<Seq<u64>>
    decreases n,
{
    if n == 0 {
        Ok((seq![], b))
    } else {
        match take_words(b, (n - 1) as nat) {
            Ok((v, rest)) => match take_num(rest, 8) {
                Ok((x, rest)) => Ok((v.push(x as u64), rest)),
                Err(e) => Err(e),
            },
            Err(e) => Err(e),
        }
    }
}

/// Numbers of eight bytes with their number.
pub open spec fn take_vec_u64(b: Seq<u8>) -> Parse<Seq<u64>> {
    match take_usize(b) {
        Ok((n, rest)) => take_words(rest, n as nat),
        Err(e) => Err(e),
    }
}

/// `n` signed numbers.
pub open spec fn take_ints(b: Seq<u8>, n: nat) -> Parse<Seq<i32>>
    decreases n,
{
    if n == 0 {
        Ok((seq![], b))
    } else {
        match take_ints(b, (n - 1) as nat) {
            Ok((v, rest)) => match take_i32(rest) {
                Ok((x, rest)) => Ok((v.push(x), rest)),
                Err(e) => Err(e),
            },
            Err(e) => Err(e),
        }
    }
}

/// Signed numbers with their number.
pub open spec fn take_vec_i32(b: Seq<u8>) -> Parse<Seq<i32>> {
    match take_usize(b) {
        Ok((n, rest)) => take_ints(rest, n as nat),
        Err(e) => Err(e),
    }
}

/// The header of an artifact of kind `tag`.
pub open spec fn take_header(b: Seq<u8>, tag: u8) -> Parse<()> {
    match take_bytes(b, 4) {
        Ok((m, b1)) => if m != magic() {
            Err(SerialError::BadMagic)
        } else {
            match take_num(b1, 4) {
                Ok((v, b2)) => if v != VERSION {
                    Err(SerialError::BadVersion { found: v as u32 })
                } else {
                    match take_u8(b2) {
                        Ok((t, b3)) => if t != tag {
                            Err(SerialError::WrongTag { found: t, expected: tag })
                        } else {
                            Ok(((), b3))
                        },
                        Err(e) => Err(e),
                    }
                },
                Err(e) => Err(e),
            }
        },
        Err(e) => Err(e),
    }
}

/// Where reading `n` numbers fails, reading more fails the same way.
proof fn lemma_words_fail(b: Seq<u8>, k: nat, n: nat)
    requires
        k <= n,
        take_words(b, k) is Err,
    ensures
        take_words(b, n) == take_words(b, k),
    decreases n,
{
    if k < n {
        lemma_words_fail(b, k, (n - 1) as nat);
    }
}

/// Where reading `n` signed numbers fails, reading more fails the same way.
proof fn lemma_ints_fail(b: Seq<u8>, k: nat, n: nat)
    requires
        k <= n,
        take_ints(b, k) is Err,
    ensures
        take_ints(b, n) == take_ints(b, k),
    decreases n,
{
    if k < n {
        lemma_ints_fail(b, k, (n - 1) as nat);
    }
}

/// A number that was written is read back.
pub proof fn lemma_num_roundtrip(v: int, n: nat, tail: Seq<u8>)
    requires
        0 <= v < radix(n),
    ensures
        take_num(le_of(v, n) + tail, n) == parsed(v, tail),
{
    lemma_le_value(v, n);
    let b = le_of(v, n) + tail;
    assert(b.take(n as int) =~= le_of(v, n));
    assert(b.skip(n as int) =~= tail);
}

/// A byte that was written is read back.
pub proof fn lemma_u8_roundtrip(v: u8, tail: Seq<u8>)
    ensures
        take_u8(seq![v] + tail) == parsed(v, tail),
{
    assert((seq![v] + tail).skip(1) =~= tail);
}

/// A number of eight bytes that was written is read back.
pub proof fn lemma_u64_roundtrip(v: u64, tail: Seq<u8>)
    ensures
        take_num(le_of(v as int, 8) + tail, 8) == parsed(v as int, tail),
{
    lemma_radix();
    lemma_num_roundtrip(v as int, 8, tail);
}

/// A number of four bytes that was written is read back.
pub proof fn lemma_u32_roundtrip(v: u32, tail: Seq<u8>)
    ensures
        take_num(le_of(v as int, 4) + tail, 4) == parsed(v as int, tail),
{
    lemma_radix();
    lemma_num_roundtrip(v as int, 4, tail);
}

/// A size that was written is read back.
pub proof fn lemma_usize_roundtrip(v: usize, tail: Seq<u8>)
    ensures
        take_usize(le_of(v as int, 8) + tail) == parsed(v, tail),
{
    lemma_radix();
    lemma_num_roundtrip(v as int, 8, tail);
}

/// A signed number that was written is read back.
pub proof fn lemma_i32_roundtrip(v: i32, tail: Seq<u8>)
    ensures
        take_i32(le_of(wrapped(v), 4) + tail) == parsed(v, tail),
{
    lemma_radix();
    lemma_num_roundtrip(wrapped(v), 4, tail);
}

/// Bytes that were written are read back.
pub proof fn lemma_bytes_roundtrip(v: Seq<u8>, tail: Seq<u8>)
    ensures
        take_bytes(v + tail, v.len()) == parsed(v, tail),
{
    assert((v + tail).take(v.len() as int) =~= v);
    assert((v + tail).skip(v.len() as int) =~= tail);
}

/// Bytes that were written with their number are read back.
pub proof fn lemma_vec_u8_roundtrip(v: Seq<u8>, tail: Seq<u8>)
    requires
        v.len() <= usize::MAX,
    ensures
        take_vec_u8(vec_u8_bytes(v) + tail) == parsed(v, tail),
{
    assert(vec_u8_bytes(v) + tail =~= le_of(v.len() as int, 8) + (v + tail));
    lemma_usize_roundtrip(v.len() as usize, v + tail);
    lemma_bytes_roundtrip(v, tail);
}

/// A text that was written is read back.
pub proof fn lemma_str_roundtrip(s: Seq<char>, tail: Seq<u8>)
    requires
        encode_utf8(s).len() <= usize::MAX,
    ensures
        take_str(str_bytes(s) + tail) == parsed(s, tail),
{
    lemma_vec_u8_roundtrip(encode_utf8(s), tail);
    encode_utf8_valid_utf8(s);
    encode_utf8_decode_utf8(s);
}

/// Numbers that were written are read back.
pub proof fn lemma_words_roundtrip(v: Seq<u64>, n: nat, tail: Seq<u8>)
    requires
        n <= v.len(),
    ensures
        take_words(words_bytes(v, n) + tail, n) == parsed(v.take(n as int), tail),
    decreases n,
{
    if n == 0 {
        assert(words_bytes(v, 0) + tail =~= tail);
        assert(v.take(0) =~= seq![]);
    } else {
        let m = (n - 1) as nat;
        let x = le_of(v[n - 1] as int, 8);
        assert(words_bytes(v, n) + tail =~= words_bytes(v, m) + (x + tail));
        lemma_words_roundtrip(v, m, x + tail);
        lemma_u64_roundtrip(v[n - 1], tail);
        assert(v.take(n as int) =~= v.take(m as int).push(v[n - 1]));
    }
}

/// Numbers that were written with their number are read back.
pub proof fn lemma_vec_u64_roundtrip(v: Seq<u64>, tail: Seq<u8>)
    requires
        v.len() <= usize::MAX,
    ensures
        take_vec_u64(vec_u64_bytes(v) + tail) == parsed(v, tail),
{
    let body = words_bytes(v, v.len());
    assert(vec_u64_bytes(v) + tail =~= le_of(v.len() as int, 8) + (body + tail));
    lemma_usize_roundtrip(v.len() as usize, body + tail);
    lemma_words_roundtrip(v, v.len(), tail);
    assert(v.take(v.len() as int) =~= v);
}

/// Signed numbers that were written are read back.
pub proof fn lemma_ints_roundtrip(v: Seq<i32>, n: nat, tail: Seq<u8>)
    requires
        n <= v.len(),
    ensures
        take_ints(signed_bytes(v, n) + tail, n) == parsed(v.take(n as int), tail),
    decreases n,
{
    if n == 0 {
        assert(signed_bytes(v, 0) + tail =~= tail);
        assert(v.take(0) =~= seq![]);
    } else {
        let m = (n - 1) as nat;
        let x = le_of(wrapped(v[n - 1]), 4);
        assert(signed_bytes(v, n) + tail =~= signed_bytes(v, m) + (x + tail));
        lemma_ints_roundtrip(v, m, x + tail);
        lemma_i32_roundtrip(v[n - 1], tail);
        assert(v.take(n as int) =~= v.take(m as int).push(v[n - 1]));
    }
}

/// Signed numbers that were written with their number are read back.
pub proof fn lemma_vec_i32_roundtrip(v: Seq<i32>, tail: Seq<u8>)
    requires
        v.len() <= usize::MAX,
    ensures
        take_vec_i32(vec_i32_bytes(v) + tail) == parsed(v, tail),
{
    let body = signed_bytes(v, v.len());
    assert(vec_i32_bytes(v) + tail =~= le_of(v.len() as int, 8) + (body + tail));
    lemma_usize_roundtrip(v.len() as usize, body + tail);
    lemma_ints_roundtrip(v, v.len(), tail);
    assert(v.take(v.len() as int) =~= v);
}

/// A header is accepted exactly where its own tag is expected, and is refused with the tag that
/// was found otherwise.
pub proof fn lemma_header_roundtrip(tag: u8, expected: u8, tail: Seq<u8>)
    ensures
        take_header(header_bytes(tag) + tail, expected) == if tag == expected {
            parsed((), tail)
        } else {
            failed(SerialError::WrongTag { found: tag, expected })
        },
{
    let v = le_of(VERSION as int, 4);
    assert(header_bytes(tag) + tail =~= magic() + (v + (seq![tag] + tail)));
    lemma_bytes_roundtrip(magic(), v + (seq![tag] + tail));
    lemma_radix();
    lemma_num_roundtrip(VERSION as int, 4, seq![tag] + tail);
    lemma_u8_roundtrip(tag, tail);
}

proof fn lemma_radix_grows(a: nat, b: nat)
    requires
        a <= b,
    ensures
        0 < radix(a) <= radix(b),
    decreases b,
{
    if a < b {
        lemma_radix_grows(a, (b - 1) as nat);
    } else if a > 0 {
        lemma_radix_grows((a - 1) as nat, (a - 1) as nat);
    }
}

} // verus!
