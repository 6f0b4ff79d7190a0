//! The layout that all saved models share.
use crate::rng::Rng;
use crate::saved::stored::{
    get_list, lemma_list_roundtrip, list_bytes, list_fits, put_list, take_list, views, Stored,
};
use crate::serial::{
    failed, header_bytes, lemma_header_roundtrip, lemma_vec_u64_roundtrip, lemma_vec_u8_roundtrip,
    parsed, raw_positions, take_header, take_vec_u64, take_vec_u8, vec_u64_bytes, vec_u8_bytes,
    w_rngs, w_vec_u8, Parse, Reader, SerialError,
};
use vstd::prelude::*;

verus! {

/// A saved model as values; `C` is what a class is.
#[verifier::ext_equal]
pub struct Image<C> {
    /// The numbers of the configuration.
    pub words: Seq<u64>,
    /// The digits of the probability that a literal is active.
    pub digits: Seq<u8>,
    /// The bit patterns of the class weights.
    pub scales: Seq<u64>,
    /// The learned clauses.
    pub classes: Seq<C>,
    /// The weights of shared clauses.
    pub rows: Seq<Seq<i32>>,
    /// The positions of the random streams that belong to no clause.
    pub rngs: Seq<u64>,
}

/// A saved model.
pub struct Artifact<C> {
    pub words: Vec<u64>,
    pub digits: Vec<u8>,
    pub scales: Vec<u64>,
    pub classes: Vec<C>,
    pub rows: Vec<Vec<i32>>,
    pub rngs: Vec<Rng>,
}

impl<C: View> View for Artifact<C> {
    type V = Image<C::V>;

    open spec fn view(&self) -> Image<C::V> {
        Image {
            words: self.words@,
            digits: self.digits@,
            scales: self.scales@,
            classes: views(self.classes@),
            rows: views(self.rows@),
            rngs: raw_positions(self.rngs@),
        }
    }
}

impl<C: Stored> Stored for Artifact<C> {
    open spec fn fits(v: Image<C::V>) -> bool {
        &&& list_fits::<u64>(v.words)
        &&& v.digits.len() <= usize::MAX
        &&& list_fits::<u64>(v.scales)
        &&& list_fits::<C>(v.classes)
        &&& list_fits::<Vec<i32>>(v.rows)
        &&& v.rngs.len() <= usize::MAX
    }

    open spec fn bytes(v: Image<C::V>) -> Seq<u8> {
        list_bytes::<u64>(v.words) + (vec_u8_bytes(v.digits) + (list_bytes::<u64>(v.scales) + (
        list_bytes::<C>(v.classes) + (list_bytes::<Vec<i32>>(v.rows) + vec_u64_bytes(v.rngs)))))
    }

    open spec fn take(b: Seq<u8>) -> Parse<Image<C::V>> {
        match take_list::<u64>(b) {
            Err(e) => failed(e),
            Ok((words, b1)) => match take_vec_u8(b1) {
                Err(e) => failed(e),
                Ok((digits, b2)) => match take_list::<u64>(b2) {
                    Err(e) => failed(e),
                    Ok((scales, b3)) => match take_list::<C>(b3) {
                        Err(e) => failed(e),
                        Ok((classes, b4)) => match take_list::<Vec<i32>>(b4) {
                            Err(e) => failed(e),
                            Ok((rows, b5)) => match take_vec_u64(b5) {
                                Err(e) => failed(e),
                                Ok((rngs, b6)) => parsed(
                                    Image { words, digits, scales, classes, rows, rngs },
                                    b6,
                                ),
                            },
                        },
                    },
                },
            },
        }
    }

    fn put(&self, w: &mut Vec<u8>) {
        let ghost start = w@;
        put_list(&self.words, w);
        w_vec_u8(w, &self.digits);
        put_list(&self.scales, w);
        put_list(&self.classes, w);
        put_list(&self.rows, w);
        w_rngs(w, &self.rngs);
        assert(views(self.words@) =~= self.words@);
        assert(views(self.scales@) =~= self.scales@);
        assert(w@ =~= start + Self::bytes(self@));
        assert(self.digits.len() <= usize::MAX && self.rngs.len() <= usize::MAX);
    }

    fn get(r: &mut Reader) -> (v: Result<Artifact<C>, SerialError>) {
        let words: Vec<u64> = match get_list(r) {
            Ok(v) => v,
            Err(e) => return Err(e),
        };
        assert(views(words@) =~= words@);
        let digits: Vec<u8> = match r.r_vec_u8() {
            Ok(v) => v,
            Err(e) => return Err(e),
        };
        let scales: Vec<u64> = match get_list(r) {
            Ok(v) => v,
            Err(e) => return Err(e),
        };
        assert(views(scales@) =~= scales@);
        let classes: Vec<C> = match get_list(r) {
            Ok(v) => v,
            Err(e) => return Err(e),
        };
        let rows: Vec<Vec<i32>> = match get_list(r) {
            Ok(v) => v,
            Err(e) => return Err(e),
        };
        let rngs: Vec<Rng> = match r.r_rngs() {
            Ok(v) => v,
            Err(e) => return Err(e),
        };
        Ok(Artifact { words, digits, scales, classes, rows, rngs })
    }

    proof fn lemma_roundtrip(v: Image<C::V>, tail: Seq<u8>) {
        let t5 = vec_u64_bytes(v.rngs) + tail;
        let t4 = list_bytes::<Vec<i32>>(v.rows) + t5;
        let t3 = list_bytes::<C>(v.classes) + t4;
        let t2 = list_bytes::<u64>(v.scales) + t3;
        let t1 = vec_u8_bytes(v.digits) + t2;
        assert(Self::bytes(v) + tail =~= list_bytes::<u64>(v.words) + t1);
        lemma_list_roundtrip::<u64>(v.words, t1);
        lemma_vec_u8_roundtrip(v.digits, t2);
        lemma_list_roundtrip::<u64>(v.scales, t3);
        lemma_list_roundtrip::<C>(v.classes, t4);
        lemma_list_roundtrip::<Vec<i32>>(v.rows, t5);
        lemma_vec_u64_roundtrip(v.rngs, tail);
    }
}

/// The bytes of an artifact: the header and the value.
pub open spec fn saved<T: Stored>(tag: u8, v: T::V) -> Seq<u8> {
    header_bytes(tag) + T::bytes(v)
}

/// The value that the bytes of an artifact hold. What follows it is left alone.
pub open spec fn loaded<T: Stored>(tag: u8, b: Seq<u8>) -> Result<T::V, SerialError> {
    match take_header(b, tag) {
        Err(e) => Err(e),
        Ok((_, rest)) => match T::take(rest) {
            Err(e) => Err(e),
            Ok((v, _)) => Ok(v),
        },
    }
}

/// What was saved is loaded, whatever follows it.
pub proof fn lemma_loaded_saved<T: Stored>(tag: u8, v: T::V, tail: Seq<u8>)
    requires
        T::fits(v),
    ensures
        loaded::<T>(tag, saved::<T>(tag, v) + tail) == Ok::<T::V, SerialError>(v),
{
    assert(saved::<T>(tag, v) + tail =~= header_bytes(tag) + (T::bytes(v) + tail));
    lemma_header_roundtrip(tag, tag, T::bytes(v) + tail);
    T::lemma_roundtrip(v, tail);
}

/// An artifact of another kind is refused.
pub proof fn lemma_other_kind_refused<T: Stored, U: Stored>(tag: u8, other: u8, v: T::V)
    requires
        tag != other,
    ensures
        loaded::<U>(other, saved::<T>(tag, v)) == Err::<U::V, SerialError>(
            SerialError::WrongTag { found: tag, expected: other },
        ),
{
    lemma_header_roundtrip(tag, other, T::bytes(v));
}

/// Reads an artifact.
pub fn from_bytes<T: Stored>(tag: u8, bytes: &[u8]) -> (r: Result<T, SerialError>)
    ensures
        match r {
            Ok(v) => loaded::<T>(tag, bytes@) == Ok::<T::V, SerialError>(v@),
            Err(e) => loaded::<T>(tag, bytes@) == Err::<T::V, SerialError>(e),
        },
{
    let mut reader: Reader = Reader::new(bytes);
    match reader.read_header(tag) {
        Ok(_) => T::get(&mut reader),
        Err(e) => Err(e),
    }
}

} // verus!
