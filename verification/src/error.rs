use vstd::prelude::*;

verus! {

/// Why a perception pass gave up.
#[derive(Clone, Copy, Debug, PartialEq, Eq, Hash, Structural)]
pub enum Error {
    /// The bond orders at some atom add up to more than the largest valence
    /// its element can have at its charge.
    ValenceExceeded,
    /// Kekulization found an atom that still needs a double bond and has no
    /// neighbour in its ring to share one with.
    IsolatedAromaticAtom,
    /// Kekulization went once round all conjugated rings and every stretch of
    /// atoms that still needs double bonds has an odd number of atoms.
    KekulizationStuck,
}

impl Error {
    /// A short description of the failure, for messages.
    pub fn message(&self) -> (s: String)
        ensures
            s@ == (match *self {
                Error::ValenceExceeded => "bond order is too high"@,
                Error::IsolatedAromaticAtom => "kekulization failed - isolated aromatic atom"@,
                Error::KekulizationStuck => "kekulization failed - all paths have odd length"@,
            }),
    {
        match self {
            Error::ValenceExceeded => "bond order is too high".to_string(),
            Error::IsolatedAromaticAtom => "kekulization failed - isolated aromatic atom".to_string(),
            Error::KekulizationStuck => "kekulization failed - all paths have odd length".to_string(),
        }
    }
}

} // verus!
