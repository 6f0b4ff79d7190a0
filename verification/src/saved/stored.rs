//! Values that are written as bytes and read back, and lists of them.
use crate::bits::byte_of;
use crate::clause_bank::automata::{flags, ClauseState};
use crate::clause_bank::feedback::{ClassModel, ClauseModel};
use crate::clause_bank::sparse::{SparseClause, SparseModel};
use crate::rng::Rng;
use crate::serial::{
    failed, le_of, lemma_i32_roundtrip, lemma_u32_roundtrip, lemma_u64_roundtrip,
    lemma_usize_roundtrip, lemma_vec_i32_roundtrip, lemma_vec_u8_roundtrip, parsed, take_i32,
    take_num, take_usize, take_vec_i32, take_vec_u8, vec_i32_bytes, vec_u8_bytes, w_i32, w_u32,
    w_u64, w_usize, w_vec_i32, w_vec_u8, wrapped, Parse, Reader, SerialError,
};
use vstd::prelude::*;

verus! {

/// A value that is written as bytes and read back.
pub trait Stored: View + Sized {
    /// The lengths of the value can be written.
    spec fn fits(v: Self::V) -> bool;

    /// The bytes of the value.
    spec fn bytes(v: Self::V) -> Seq<u8>;

    /// The value that bytes begin with.
    spec fn take(b: Seq<u8>) -> Parse<Self::V>;

    /// Writes the value.
    fn put(&self, w: &mut Vec<u8>)
        ensures
            final(w)@ == old(w)@ + Self::bytes(self@),
            Self::fits(self@),
    ;

    /// Reads a value.
    fn get(r: &mut Reader) -> (v: Result<Self, SerialError>)
        requires
            old(r).wf(),
        ensures
            final(r).wf(),
            match v {
                Ok(x) => Self::take(old(r).rest()) == parsed(x@, final(r).rest()),
                Err(e) => Self::take(old(r).rest()) == failed::<Self::V>(e),
            },
    ;

    /// A value that was written is read back.
    proof fn lemma_roundtrip(v: Self::V, tail: Seq<u8>)
        requires
            Self::fits(v),
        ensures
            Self::take(Self::bytes(v) + tail) == parsed(v, tail),
    ;
}

/// What values stand for.
pub open spec fn views<T: View>(s: Seq<T>) -> Seq<T::V> {
    Seq::new(s.len(), |i: int| s[i]@)
}

/// The bytes of the first `n` values.
pub open spec fn items_bytes<T: Stored>(v: Seq<T::V>, n: nat) -> Seq<u8>
    decreases n,
{
    if n == 0 {
        seq![]
    } else {
        items_bytes::<T>(v, (n - 1) as nat) + T::bytes(v[n - 1])
    }
}

/// The bytes of a list: its length and its values.
pub open spec fn list_bytes<T: Stored>(v: Seq<T::V>) -> Seq<u8> {
    le_of(v.len() as int, 8) + items_bytes::<T>(v, v.len())
}

/// The `n` values that bytes begin with.
pub open spec fn take_items<T: Stored>(b: Seq<u8>, n: nat) -> Parse<Seq<T::V>>
    decreases n,
{
    if n == 0 {
        parsed(seq![], b)
    } else {
        match take_items::<T>(b, (n - 1) as nat) {
            Err(e) => failed(e),
            Ok((v, rest)) => match T::take(rest) {
                Err(e) => failed(e),
                Ok((x, left)) => parsed(v.push(x), left),
            },
        }
    }
}

/// The list that bytes begin with.
pub open spec fn take_list<T: Stored>(b: Seq<u8>) -> Parse<Seq<T::V>> {
    match take_usize(b) {
        Err(e) => failed(e),
        Ok((n, rest)) => take_items::<T>(rest, n as nat),
    }
}

/// The list can be written.
pub open spec fn list_fits<T: Stored>(v: Seq<T::V>) -> bool {
    &&& v.len() <= usize::MAX
    &&& forall|i: int| 0 <= i < v.len() ==> T::fits(#[trigger] v[i])
}

proof fn lemma_items_fail<T: Stored>(b: Seq<u8>, k: nat, n: nat)
    requires
        k <= n,
        take_items::<T>(b, k) is Err,
    ensures
        take_items::<T>(b, n) == take_items::<T>(b, k),
    decreases n,
{
    if k < n {
        lemma_items_fail::<T>(b, k, (n - 1) as nat);
    }
}

proof fn lemma_items_roundtrip<T: Stored>(v: Seq<T::V>, n: nat, tail: Seq<u8>)
    requires
        n <= v.len(),
        list_fits::<T>(v),
    ensures
        take_items::<T>(items_bytes::<T>(v, n) + tail, n) == parsed(v.take(n as int), tail),
    decreases n,
{
    if n == 0 {
        assert(items_bytes::<T>(v, 0) + tail =~= tail);
        assert(v.take(0) =~= seq![]);
    } else {
        let m = (n - 1) as nat;
        let x = T::bytes(v[n - 1]);
        assert(items_bytes::<T>(v, n) + tail =~= items_bytes::<T>(v, m) + (x + tail));
        lemma_items_roundtrip::<T>(v, m, x + tail);
        T::lemma_roundtrip(v[n - 1], tail);
        assert(v.take(n as int) =~= v.take(m as int).push(v[n - 1]));
    }
}

/// A list that was written is read back.
pub proof fn lemma_list_roundtrip<T: Stored>(v: Seq<T::V>, tail: Seq<u8>)
    requires
        list_fits::<T>(v),
    ensures
        take_list::<T>(list_bytes::<T>(v) + tail) == parsed(v, tail),
{
    let body = items_bytes::<T>(v, v.len());
    assert(list_bytes::<T>(v) + tail =~= le_of(v.len() as int, 8) + (body + tail));
    lemma_usize_roundtrip(v.len() as usize, body + tail);
    lemma_items_roundtrip::<T>(v, v.len(), tail);
    assert(v.take(v.len() as int) =~= v);
}

/// Writes a list.
pub fn put_list<T: Stored>(v: &Vec<T>, w: &mut Vec<u8>)
    ensures
        final(w)@ == old(w)@ + list_bytes::<T>(views(v@)),
        list_fits::<T>(views(v@)),
{
    let ghost start = w@;
    let ghost all = views(v@);
    w_usize(w, v.len());
    let mut i: usize = 0;
    proof {
        assert(items_bytes::<T>(all, 0) =~= seq![]);
        assert(w@ =~= start + le_of(all.len() as int, 8) + items_bytes::<T>(all, 0));
    }
    while i < v.len()
        invariant
            i <= v@.len(),
            all == views(v@),
            w@ == start + le_of(all.len() as int, 8) + items_bytes::<T>(all, i as nat),
            forall|k: int| 0 <= k < i ==> T::fits(#[trigger] all[k]),
        decreases v@.len() - i,
    {
        v[i].put(w);
        proof {
            assert(all[i as int] == v@[i as int]@);
            assert(w@ =~= start + le_of(all.len() as int, 8) + items_bytes::<T>(all, (i + 1) as nat));
        }
        i = i + 1;
    }
    proof {
        assert(w@ =~= start + list_bytes::<T>(all));
        assert(v.len() <= usize::MAX);
    }
}

/// Reads a list.
pub fn get_list<T: Stored>(r: &mut Reader) -> (v: Result<Vec<T>, SerialError>)
    requires
        old(r).wf(),
    ensures
        final(r).wf(),
        match v {
            Ok(x) => take_list::<T>(old(r).rest()) == parsed(views(x@), final(r).rest()),
            Err(e) => take_list::<T>(old(r).rest()) == failed::<Seq<T::V>>(e),
        },
{
    let n: usize = match r.r_usize() {
        Ok(n) => n,
        Err(e) => return Err(e),
    };
    let ghost rest = r.rest();
    let mut v: Vec<T> = Vec::new();
    let mut i: usize = 0;
    proof {
        assert(views(v@) =~= seq![]);
    }
    while i < n
        invariant
            i <= n,
            r.wf(),
            take_usize(old(r).rest()) == parsed(n, rest),
            take_items::<T>(rest, i as nat) == parsed(views(v@), r.rest()),
        decreases n - i,
    {
        let ghost before = views(v@);
        match T::get(r) {
            Ok(x) => {
                v.push(x);
                proof {
                    assert(views(v@) =~= before.push(x@));
                }
            },
            Err(e) => {
                proof {
                    lemma_items_fail::<T>(rest, (i + 1) as nat, n as nat);
                }
                return Err(e);
            },
        }
        i = i + 1;
    }
    Ok(v)
}

impl Stored for u64 {
    open spec fn fits(v: u64) -> bool {
        true
    }

    open spec fn bytes(v: u64) -> Seq<u8> {
        le_of(v as int, 8)
    }

    open spec fn take(b: Seq<u8>) -> Parse<u64> {
        match take_num(b, 8) {
            Err(e) => failed(e),
            Ok((v, rest)) => parsed(v as u64, rest),
        }
    }

    fn put(&self, w: &mut Vec<u8>) {
        w_u64(w, *self);
    }

    fn get(r: &mut Reader) -> (v: Result<u64, SerialError>) {
        r.r_u64()
    }

    proof fn lemma_roundtrip(v: u64, tail: Seq<u8>) {
        lemma_u64_roundtrip(v, tail);
    }
}

impl Stored for u32 {
    open spec fn fits(v: u32) -> bool {
        true
    }

    open spec fn bytes(v: u32) -> Seq<u8> {
        le_of(v as int, 4)
    }

    open spec fn take(b: Seq<u8>) -> Parse<u32> {
        match take_num(b, 4) {
            Err(e) => failed(e),
            Ok((v, rest)) => parsed(v as u32, rest),
        }
    }

    fn put(&self, w: &mut Vec<u8>) {
        w_u32(w, *self);
    }

    fn get(r: &mut Reader) -> (v: Result<u32, SerialError>) {
        r.r_u32()
    }

    proof fn lemma_roundtrip(v: u32, tail: Seq<u8>) {
        lemma_u32_roundtrip(v, tail);
    }
}

impl Stored for Vec<i32> {
    open spec fn fits(v: Seq<i32>) -> bool {
        v.len() <= usize::MAX
    }

    open spec fn bytes(v: Seq<i32>) -> Seq<u8> {
        vec_i32_bytes(v)
    }

    open spec fn take(b: Seq<u8>) -> Parse<Seq<i32>> {
        take_vec_i32(b)
    }

    fn put(&self, w: &mut Vec<u8>) {
        w_vec_i32(w, self);
        assert(self.len() <= usize::MAX);
    }

    fn get(r: &mut Reader) -> (v: Result<Vec<i32>, SerialError>) {
        r.r_vec_i32()
    }

    proof fn lemma_roundtrip(v: Seq<i32>, tail: Seq<u8>) {
        lemma_vec_i32_roundtrip(v, tail);
    }
}

impl Stored for Vec<u8> {
    open spec fn fits(v: Seq<u8>) -> bool {
        v.len() <= usize::MAX
    }

    open spec fn bytes(v: Seq<u8>) -> Seq<u8> {
        vec_u8_bytes(v)
    }

    open spec fn take(b: Seq<u8>) -> Parse<Seq<u8>> {
        take_vec_u8(b)
    }

    fn put(&self, w: &mut Vec<u8>) {
        w_vec_u8(w, self);
        assert(self.len() <= usize::MAX);
    }

    fn get(r: &mut Reader) -> (v: Result<Vec<u8>, SerialError>) {
        r.r_vec_u8()
    }

    proof fn lemma_roundtrip(v: Seq<u8>, tail: Seq<u8>) {
        lemma_vec_u8_roundtrip(v, tail);
    }
}

/// A clause as it is stored: the values of its automata without their packed forms.
pub struct StoredClause {
    pub ta: Vec<u8>,
    pub ind: Vec<u8>,
    pub cat: Vec<u8>,
    pub weight: i32,
    pub rng: Rng,
}

impl View for StoredClause {
    type V = ClauseModel;

    open spec fn view(&self) -> ClauseModel {
        ClauseModel {
            auto: ClauseState { ta: self.ta@, ind: self.ind@, cat: flags(self.cat@) },
            weight: self.weight,
            rng: self.rng@,
        }
    }
}

/// Truth values as bytes.
pub open spec fn flag_bytes(s: Seq<bool>) -> Seq<u8> {
    Seq::new(s.len(), |i: int| byte_of(s[i]))
}

impl Stored for StoredClause {
    open spec fn fits(v: ClauseModel) -> bool {
        &&& v.auto.ta.len() <= usize::MAX
        &&& v.auto.ind.len() <= usize::MAX
        &&& v.auto.cat.len() <= usize::MAX
    }

    open spec fn bytes(v: ClauseModel) -> Seq<u8> {
        vec_u8_bytes(v.auto.ta) + (vec_u8_bytes(v.auto.ind) + (vec_u8_bytes(flag_bytes(v.auto.cat)) + (
        le_of(wrapped(v.weight), 4) + le_of(v.rng as int, 8))))
    }

    open spec fn take(b: Seq<u8>) -> Parse<ClauseModel> {
        match take_vec_u8(b) {
            Err(e) => failed(e),
            Ok((ta, b1)) => match take_vec_u8(b1) {
                Err(e) => failed(e),
                Ok((ind, b2)) => match take_vec_u8(b2) {
                    Err(e) => failed(e),
                    Ok((cat, b3)) => match take_i32(b3) {
                        Err(e) => failed(e),
                        Ok((weight, b4)) => match take_num(b4, 8) {
                            Err(e) => failed(e),
                            Ok((rng, b5)) => parsed(
                                ClauseModel {
                                    auto: ClauseState { ta, ind, cat: flags(cat) },
                                    weight,
                                    rng: rng as u64,
                                },
                                b5,
                            ),
                        },
                    },
                },
            },
        }
    }

    fn put(&self, w: &mut Vec<u8>) {
        let ghost start = w@;
        let mut cat: Vec<u8> = Vec::with_capacity(self.cat.len());
        let mut i: usize = 0;
        while i < self.cat.len()
            invariant
                i <= self.cat@.len(),
                cat@.len() == i,
                forall|k: int| 0 <= k < i ==> #[trigger] cat@[k] == byte_of(self.cat@[k] == 1),
            decreases self.cat@.len() - i,
        {
            cat.push(if self.cat[i] == 1 { 1 } else { 0 });
            i = i + 1;
        }
        assert(cat@ =~= flag_bytes(flags(self.cat@)));
        w_vec_u8(w, &self.ta);
        w_vec_u8(w, &self.ind);
        w_vec_u8(w, &cat);
        w_i32(w, self.weight);
        w_u64(w, self.rng.raw());
        assert(w@ =~= start + Self::bytes(self@));
        assert(self.ta.len() <= usize::MAX && self.ind.len() <= usize::MAX && self.cat.len()
            <= usize::MAX);
    }

    fn get(r: &mut Reader) -> (v: Result<StoredClause, SerialError>) {
        let ta: Vec<u8> = match r.r_vec_u8() {
            Ok(v) => v,
            Err(e) => return Err(e),
        };
        let ind: Vec<u8> = match r.r_vec_u8() {
            Ok(v) => v,
            Err(e) => return Err(e),
        };
        let cat: Vec<u8> = match r.r_vec_u8() {
            Ok(v) => v,
            Err(e) => return Err(e),
        };
        let weight: i32 = match r.r_i32() {
            Ok(v) => v,
            Err(e) => return Err(e),
        };
        let state: u64 = match r.r_u64() {
            Ok(v) => v,
            Err(e) => return Err(e),
        };
        Ok(StoredClause { ta, ind, cat, weight, rng: Rng::from_raw(state) })
    }

    proof fn lemma_roundtrip(v: ClauseModel, tail: Seq<u8>) {
        let cat = flag_bytes(v.auto.cat);
        let t4 = le_of(v.rng as int, 8) + tail;
        let t3 = le_of(wrapped(v.weight), 4) + t4;
        let t2 = vec_u8_bytes(cat) + t3;
        let t1 = vec_u8_bytes(v.auto.ind) + t2;
        assert(Self::bytes(v) + tail =~= vec_u8_bytes(v.auto.ta) + t1);
        lemma_vec_u8_roundtrip(v.auto.ta, t1);
        lemma_vec_u8_roundtrip(v.auto.ind, t2);
        lemma_vec_u8_roundtrip(cat, t3);
        lemma_i32_roundtrip(v.weight, t4);
        lemma_u64_roundtrip(v.rng, tail);
        assert(flags(cat) =~= v.auto.cat);
    }
}

/// The clauses of a class as they are stored.
pub struct StoredClass {
    pub clauses: Vec<StoredClause>,
    pub rng: Rng,
}

impl View for StoredClass {
    type V = ClassModel;

    open spec fn view(&self) -> ClassModel {
        ClassModel { clauses: views(self.clauses@), rng: self.rng@ }
    }
}

impl Stored for StoredClass {
    open spec fn fits(v: ClassModel) -> bool {
        list_fits::<StoredClause>(v.clauses)
    }

    open spec fn bytes(v: ClassModel) -> Seq<u8> {
        list_bytes::<StoredClause>(v.clauses) + le_of(v.rng as int, 8)
    }

    open spec fn take(b: Seq<u8>) -> Parse<ClassModel> {
        match take_list::<StoredClause>(b) {
            Err(e) => failed(e),
            Ok((clauses, b1)) => match take_num(b1, 8) {
                Err(e) => failed(e),
                Ok((rng, b2)) => parsed(ClassModel { clauses, rng: rng as u64 }, b2),
            },
        }
    }

    fn put(&self, w: &mut Vec<u8>) {
        let ghost start = w@;
        put_list(&self.clauses, w);
        w_u64(w, self.rng.raw());
        assert(w@ =~= start + Self::bytes(self@));
    }

    fn get(r: &mut Reader) -> (v: Result<StoredClass, SerialError>) {
        let clauses: Vec<StoredClause> = match get_list(r) {
            Ok(v) => v,
            Err(e) => return Err(e),
        };
        let state: u64 = match r.r_u64() {
            Ok(v) => v,
            Err(e) => return Err(e),
        };
        Ok(StoredClass { clauses, rng: Rng::from_raw(state) })
    }

    proof fn lemma_roundtrip(v: ClassModel, tail: Seq<u8>) {
        let t1 = le_of(v.rng as int, 8) + tail;
        assert(Self::bytes(v) + tail =~= list_bytes::<StoredClause>(v.clauses) + t1);
        lemma_list_roundtrip::<StoredClause>(v.clauses, t1);
        lemma_u64_roundtrip(v.rng, tail);
    }
}

impl Stored for SparseClause {
    open spec fn fits(v: SparseModel) -> bool {
        &&& list_fits::<u32>(v.included)
        &&& v.included_state.len() <= usize::MAX
        &&& list_fits::<u32>(v.excluded)
        &&& v.excluded_state.len() <= usize::MAX
        &&& list_fits::<u32>(v.unallocated)
    }

    open spec fn bytes(v: SparseModel) -> Seq<u8> {
        list_bytes::<u32>(v.included) + (vec_u8_bytes(v.included_state) + (list_bytes::<u32>(v.excluded)
            + (vec_u8_bytes(v.excluded_state) + list_bytes::<u32>(v.unallocated))))
    }

    open spec fn take(b: Seq<u8>) -> Parse<SparseModel> {
        match take_list::<u32>(b) {
            Err(e) => failed(e),
            Ok((included, b1)) => match take_vec_u8(b1) {
                Err(e) => failed(e),
                Ok((included_state, b2)) => match take_list::<u32>(b2) {
                    Err(e) => failed(e),
                    Ok((excluded, b3)) => match take_vec_u8(b3) {
                        Err(e) => failed(e),
                        Ok((excluded_state, b4)) => match take_list::<u32>(b4) {
                            Err(e) => failed(e),
                            Ok((unallocated, b5)) => parsed(
                                SparseModel {
                                    included,
                                    included_state,
                                    excluded,
                                    excluded_state,
                                    unallocated,
                                },
                                b5,
                            ),
                        },
                    },
                },
            },
        }
    }

    fn put(&self, w: &mut Vec<u8>) {
        let ghost start = w@;
        put_list(&self.included, w);
        w_vec_u8(w, &self.included_state);
        put_list(&self.excluded, w);
        w_vec_u8(w, &self.excluded_state);
        put_list(&self.unallocated, w);
        assert(views(self.included@) =~= self.included@);
        assert(views(self.excluded@) =~= self.excluded@);
        assert(views(self.unallocated@) =~= self.unallocated@);
        assert(w@ =~= start + Self::bytes(self@));
        assert(self.included_state.len() <= usize::MAX && self.excluded_state.len() <= usize::MAX);
    }

    fn get(r: &mut Reader) -> (v: Result<SparseClause, SerialError>) {
        let included: Vec<u32> = match get_list(r) {
            Ok(v) => v,
            Err(e) => return Err(e),
        };
        assert(views(included@) =~= included@);
        let included_state: Vec<u8> = match r.r_vec_u8() {
            Ok(v) => v,
            Err(e) => return Err(e),
        };
        let excluded: Vec<u32> = match get_list(r) {
            Ok(v) => v,
            Err(e) => return Err(e),
        };
        assert(views(excluded@) =~= excluded@);
        let excluded_state: Vec<u8> = match r.r_vec_u8() {
            Ok(v) => v,
            Err(e) => return Err(e),
        };
        let unallocated: Vec<u32> = match get_list(r) {
            Ok(v) => v,
            Err(e) => return Err(e),
        };
        assert(views(unallocated@) =~= unallocated@);
        Ok(SparseClause { included, included_state, excluded, excluded_state, unallocated })
    }

    proof fn lemma_roundtrip(v: SparseModel, tail: Seq<u8>) {
        let t4 = list_bytes::<u32>(v.unallocated) + tail;
        let t3 = vec_u8_bytes(v.excluded_state) + t4;
        let t2 = list_bytes::<u32>(v.excluded) + t3;
        let t1 = vec_u8_bytes(v.included_state) + t2;
        assert(Self::bytes(v) + tail =~= list_bytes::<u32>(v.included) + t1);
        lemma_list_roundtrip::<u32>(v.included, t1);
        lemma_vec_u8_roundtrip(v.included_state, t2);
        lemma_list_roundtrip::<u32>(v.excluded, t3);
        lemma_vec_u8_roundtrip(v.excluded_state, t4);
        lemma_list_roundtrip::<u32>(v.unallocated, tail);
    }
}

} // verus!
