//! Saving and loading models and encoders.
use crate::saved::artifact::{from_bytes, lemma_loaded_saved, loaded, saved};
use crate::saved::stored::Stored;
use crate::serial::{write_header, SerialError};
use vstd::prelude::*;

verus! {

/// What can be saved and loaded again.
pub trait SaveLoad: Sized {
    /// The form in which it is stored.
    type Saved: Stored;

    /// The tag of the artifact.
    spec fn tag() -> u8;

    /// The invariant.
    spec fn valid(&self) -> bool;

    /// What is stored.
    spec fn image(&self) -> <Self::Saved as View>::V;

    /// The values that some valid value is stored as.
    spec fn admits(v: <Self::Saved as View>::V) -> bool;

    /// What is not stored is as it is in a value that was just made.
    spec fn is_reset(&self) -> bool;

    /// The tag of the artifact.
    fn type_tag() -> (r: u8)
        ensures
            r == Self::tag(),
    ;

    /// The value in the form in which it is stored.
    fn to_saved(&self) -> (r: Self::Saved)
        requires
            self.valid(),
        ensures
            r@ == self.image(),
    ;

    /// The value that was stored, if there is one.
    fn from_saved(s: &Self::Saved) -> (r: Option<Self>)
        ensures
            match r {
                Some(m) => m.valid() && m.image() == s@ && m.is_reset() && Self::admits(s@),
                None => !Self::admits(s@),
            },
    ;

    /// What a valid value is stored as is accepted.
    proof fn lemma_admits(&self)
        requires
            self.valid(),
        ensures
            Self::admits(self.image()),
    ;

    /// Appends the artifact to `w`. Whatever follows it, `read_from` gives back what was written.
    fn write_to(&self, w: &mut Vec<u8>)
        requires
            self.valid(),
        ensures
            final(w)@ == old(w)@ + saved::<Self::Saved>(Self::tag(), self.image()),
            Self::Saved::fits(self.image()),
            Self::admits(self.image()),
            forall|tail: Seq<u8>|
                loaded::<Self::Saved>(
                    Self::tag(),
                    #[trigger] (saved::<Self::Saved>(Self::tag(), self.image()) + tail),
                ) == Ok::<<Self::Saved as View>::V, SerialError>(self.image()),
    {
        let ghost start = w@;
        let s: Self::Saved = self.to_saved();
        write_header(w, Self::type_tag());
        s.put(w);
        proof {
            assert(w@ =~= start + saved::<Self::Saved>(Self::tag(), self.image()));
            self.lemma_admits();
            assert forall|tail: Seq<u8>|
                loaded::<Self::Saved>(
                    Self::tag(),
                    #[trigger] (saved::<Self::Saved>(Self::tag(), self.image()) + tail),
                ) == Ok::<<Self::Saved as View>::V, SerialError>(self.image()) by {
                lemma_loaded_saved::<Self::Saved>(Self::tag(), self.image(), tail);
            }
        }
    }

    /// Reads an artifact: refuses bytes that are none of its kind, that end too early, or whose
    /// values contradict each other. What is not stored is reset.
    fn read_from(bytes: &[u8]) -> (r: Result<Self, SerialError>)
        ensures
            match loaded::<Self::Saved>(Self::tag(), bytes@) {
                Err(e) => r == Err::<Self, SerialError>(e),
                Ok(v) => if Self::admits(v) {
                    r is Ok && r->Ok_0.valid() && r->Ok_0.image() == v && r->Ok_0.is_reset()
                } else {
                    r == Err::<Self, SerialError>(SerialError::Inconsistent)
                },
            },
    {
        let s: Self::Saved = match from_bytes(Self::type_tag(), bytes) {
            Ok(s) => s,
            Err(e) => return Err(e),
        };
        match Self::from_saved(&s) {
            Some(m) => Ok(m),
            None => Err(SerialError::Inconsistent),
        }
    }
}

/// What was saved can be loaded, whatever follows it, and is what was saved.
pub proof fn lemma_saved_loads<M: SaveLoad>(m: &M, tail: Seq<u8>)
    requires
        m.valid(),
        M::Saved::fits(m.image()),
    ensures
        loaded::<M::Saved>(M::tag(), saved::<M::Saved>(M::tag(), m.image()) + tail) == Ok::<
            <M::Saved as View>::V,
            SerialError,
        >(m.image()),
        M::admits(m.image()),
{
    lemma_loaded_saved::<M::Saved>(M::tag(), m.image(), tail);
    m.lemma_admits();
}

} // verus!
