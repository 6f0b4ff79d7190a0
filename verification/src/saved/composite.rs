//! The composite of machines as it is saved.
use crate::bits::bits_of;
use crate::clause_bank::feedback::ClassModel;
use crate::models::classification::composite_classifier::{
    combined_scores, score_total, TMCompositeClassifier,
};
use crate::models::classification::vanilla_classifier::TsetlinMachine;
use crate::saved::artifact::{Artifact, Image};
use crate::saved::save_load::SaveLoad;
use crate::saved::stored::{
    get_list, lemma_list_roundtrip, list_bytes, list_fits, put_list, take_list, views, Stored,
    StoredClass,
};
use crate::saved::vanilla::{lemma_image_determines, lemma_same_settings};
use crate::serial::{Parse, Reader, SerialError, TAG_COMPOSITE};
use vstd::prelude::*;

verus! {

/// The members of a composite as they are stored.
pub struct StoredMembers {
    pub members: Vec<Artifact<StoredClass>>,
}

impl View for StoredMembers {
    type V = Seq<Image<ClassModel>>;

    open spec fn view(&self) -> Seq<Image<ClassModel>> {
        views(self.members@)
    }
}

impl Stored for StoredMembers {
    open spec fn fits(v: Seq<Image<ClassModel>>) -> bool {
        list_fits::<Artifact<StoredClass>>(v)
    }

    open spec fn bytes(v: Seq<Image<ClassModel>>) -> Seq<u8> {
        list_bytes::<Artifact<StoredClass>>(v)
    }

    open spec fn take(b: Seq<u8>) -> Parse<Seq<Image<ClassModel>>> {
        take_list::<Artifact<StoredClass>>(b)
    }

    fn put(&self, w: &mut Vec<u8>) {
        put_list(&self.members, w);
    }

    fn get(r: &mut Reader) -> (v: Result<StoredMembers, SerialError>) {
        match get_list(r) {
            Ok(members) => Ok(StoredMembers { members }),
            Err(e) => Err(e),
        }
    }

    proof fn lemma_roundtrip(v: Seq<Image<ClassModel>>, tail: Seq<u8>) {
        lemma_list_roundtrip::<Artifact<StoredClass>>(v, tail);
    }
}

impl SaveLoad for TMCompositeClassifier {
    type Saved = StoredMembers;

    open spec fn tag() -> u8 {
        TAG_COMPOSITE
    }

    open spec fn valid(&self) -> bool {
        self.wf()
    }

    open spec fn image(&self) -> Seq<Image<ClassModel>> {
        Seq::new(self.classifiers@.len(), |k: int| self.classifiers@[k].image())
    }

    open spec fn admits(v: Seq<Image<ClassModel>>) -> bool {
        &&& forall|k: int| 0 <= k < v.len() ==> TsetlinMachine::admits(#[trigger] v[k])
        &&& forall|k: int| 0 <= k < v.len() ==> (#[trigger] v[k]).words[13] == v[0].words[13]
    }

    open spec fn is_reset(&self) -> bool {
        forall|k: int| 0 <= k < self.classifiers@.len() ==> (#[trigger] self.classifiers@[k]).is_reset()
    }

    fn type_tag() -> (r: u8) {
        TAG_COMPOSITE
    }

    fn to_saved(&self) -> (r: StoredMembers) {
        let mut members: Vec<Artifact<StoredClass>> = Vec::with_capacity(self.classifiers.len());
        let mut k: usize = 0;
        while k < self.classifiers.len()
            invariant
                self.wf(),
                k <= self.classifiers@.len(),
                members@.len() == k,
                forall|i: int| 0 <= i < k ==> (#[trigger] members@[i])@ == self.classifiers@[i].image(),
            decreases self.classifiers@.len() - k,
        {
            members.push(self.classifiers[k].to_saved());
            k = k + 1;
        }
        let r: StoredMembers = StoredMembers { members };
        assert(r@ =~= self.image());
        r
    }

    fn from_saved(s: &StoredMembers) -> (r: Option<TMCompositeClassifier>) {
        let mut classifiers: Vec<TsetlinMachine> = Vec::with_capacity(s.members.len());
        let mut k: usize = 0;
        while k < s.members.len()
            invariant
                k <= s.members@.len(),
                classifiers@.len() == k,
                forall|i: int| 0 <= i < k ==> (#[trigger] classifiers@[i]).wf(),
                forall|i: int| 0 <= i < k ==> (#[trigger] classifiers@[i]).is_reset(),
                forall|i: int| 0 <= i < k ==> (#[trigger] classifiers@[i]).image() == s.members@[i]@,
                forall|i: int|
                    0 <= i < k ==> (#[trigger] classifiers@[i]).config.n_classes
                        == classifiers@[0].config.n_classes,
            decreases s.members@.len() - k,
        {
            let ghost member = s@[k as int];
            match TsetlinMachine::from_saved(&s.members[k]) {
                Some(m) => {
                    proof {
                        assert(m.image() == member);
                        assert(m.image().words[13] == m.config.n_classes);
                    }
                    if k > 0 && m.config.n_classes != classifiers[0].config.n_classes {
                        proof {
                            assert(classifiers@[0].image().words[13] == classifiers@[0].config.n_classes);
                            assert(s@[0] == s.members@[0]@);
                            assert(s@[k as int].words[13] != s@[0].words[13]);
                        }
                        return None;
                    }
                    classifiers.push(m);
                },
                None => {
                    proof {
                        assert(!TsetlinMachine::admits(member));
                    }
                    return None;
                },
            }
            k = k + 1;
        }
        let r: TMCompositeClassifier = TMCompositeClassifier { classifiers };
        proof {
            assert(r.image() =~= s@);
            r.lemma_admits();
        }
        Some(r)
    }

    proof fn lemma_admits(&self) {
        let v = self.image();
        assert forall|k: int| 0 <= k < v.len() implies TsetlinMachine::admits(#[trigger] v[k]) by {
            self.classifiers@[k].lemma_admits();
        }
        assert forall|k: int| 0 <= k < v.len() implies (#[trigger] v[k]).words[13] == v[0].words[13] by {
            assert(self.classifiers@[k].config.n_classes == self.classifiers@[0].config.n_classes);
            assert(self.classifiers@[k].image().words[13] == self.classifiers@[k].config.n_classes);
            assert(self.classifiers@[0].image().words[13] == self.classifiers@[0].config.n_classes);
        }
    }
}

/// What is stored of a composite determines its members.
pub proof fn lemma_composite_image(a: &TMCompositeClassifier, b: &TMCompositeClassifier)
    requires
        a.wf(),
        b.wf(),
        a.image() == b.image(),
    ensures
        a.classifiers@.len() == b.classifiers@.len(),
        forall|k: int|
            0 <= k < a.classifiers@.len() ==> {
                &&& (#[trigger] a.classifiers@[k])@ == b.classifiers@[k]@
                &&& a.classifiers@[k].config.same(&b.classifiers@[k].config)
            },
{
    assert(a.image().len() == a.classifiers@.len() && b.image().len() == b.classifiers@.len());
    assert forall|k: int| 0 <= k < a.classifiers@.len() implies {
        &&& (#[trigger] a.classifiers@[k])@ == b.classifiers@[k]@
        &&& a.classifiers@[k].config.same(&b.classifiers@[k].config)
    } by {
        assert(a.image()[k] == b.image()[k]);
        lemma_image_determines(&a.classifiers@[k], &b.classifiers@[k]);
    }
}

proof fn lemma_same_scores(a: &TMCompositeClassifier, b: &TMCompositeClassifier, lit: Seq<u64>, c: int, k: nat)
    requires
        a.wf(),
        b.wf(),
        a.image() == b.image(),
        k <= a.classifiers@.len(),
    ensures
        score_total(a.classifiers@, lit, c, k) == score_total(b.classifiers@, lit, c, k),
    decreases k,
{
    if k > 0 {
        lemma_same_scores(a, b, lit, c, (k - 1) as nat);
        lemma_composite_image(a, b);
        let (m, n) = (a.classifiers@[k - 1], b.classifiers@[k - 1]);
        assert(m@ == n@ && m.config.same(&n.config));
        lemma_same_settings(&m.config, &n.config, m@, bits_of(lit, m.config.train.n()), seq![], seq![]);
    }
}

/// A composite that was saved and loaded predicts as before.
pub proof fn lemma_composite_predicts(a: &TMCompositeClassifier, b: &TMCompositeClassifier, lit: Seq<u64>)
    requires
        a.wf(),
        b.wf(),
        a.image() == b.image(),
        a.classifiers@.len() > 0,
    ensures
        combined_scores(a.classifiers@, lit) == combined_scores(b.classifiers@, lit),
        a.predict_of(lit) == b.predict_of(lit),
{
    lemma_composite_image(a, b);
    let (u, v) = (combined_scores(a.classifiers@, lit), combined_scores(b.classifiers@, lit));
    assert(a.classifiers@[0].config.same(&b.classifiers@[0].config));
    assert forall|c: int| 0 <= c < u.len() implies u[c] == v[c] by {
        lemma_same_scores(a, b, lit, c, a.classifiers@.len());
    }
    assert(u =~= v);
}

} // verus!
