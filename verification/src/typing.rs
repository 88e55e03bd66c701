//! Default bond typing: the type that a bond without one is given.

use vstd::prelude::*;
use crate::atom::Atom;
use crate::bond::BondType;

verus! {

/// The type of a bond of type `kind` after default typing: a bond that has a
/// type keeps it, and one that has none becomes aromatic between two
/// aromatic atoms and single otherwise.
pub open spec fn default_type(kind: BondType, source: Atom, target: Atom) -> BondType {
    if kind != BondType::Default {
        kind
    } else if source.aromatic && target.aromatic {
        BondType::Aromatic
    } else {
        BondType::Single
    }
}

/// The types of the bonds after default typing, by bond index, where `ends`
/// gives the two atoms of each bond and `kinds` its type before.
pub open spec fn default_typed(atoms: Seq<Atom>, ends: Seq<(usize, usize)>, kinds: Seq<BondType>) -> Seq<
    BondType,
> {
    Seq::new(
        kinds.len(),
        |e: int| default_type(kinds[e], atoms[ends[e].0 as int], atoms[ends[e].1 as int]),
    )
}

/// The type that default typing gives a bond, from the flags of its atoms.
pub fn resolve_default(kind: BondType, source_aromatic: bool, target_aromatic: bool) -> (r:
    BondType)
    ensures
        forall|source: Atom, target: Atom|
            source.aromatic == source_aromatic && target.aromatic == target_aromatic ==> r
                == #[trigger] default_type(kind, source, target),
        r != BondType::Default,
{
    match kind {
        BondType::Default => {
            if source_aromatic && target_aromatic {
                BondType::Aromatic
            } else {
                BondType::Single
            }
        },
        _ => kind,
    }
}

/// Default typing leaves no bond without a type.
pub proof fn lemma_default_typed_complete(
    atoms: Seq<Atom>,
    ends: Seq<(usize, usize)>,
    kinds: Seq<BondType>,
)
    ensures
        default_typed(atoms, ends, kinds).len() == kinds.len(),
        forall|e: int|
            0 <= e < kinds.len() ==> #[trigger] default_typed(atoms, ends, kinds)[e]
                != BondType::Default,
{
}

/// Default typing twice gives what default typing once gives: a bond that
/// has its type is not looked at again.
pub proof fn lemma_default_typing_idempotent(
    atoms: Seq<Atom>,
    ends: Seq<(usize, usize)>,
    kinds: Seq<BondType>,
)
    ensures
        default_typed(atoms, ends, default_typed(atoms, ends, kinds)) == default_typed(
            atoms,
            ends,
            kinds,
        ),
{
    assert(default_typed(atoms, ends, default_typed(atoms, ends, kinds)) =~= default_typed(
        atoms,
        ends,
        kinds,
    ));
}

/// A bond that has a type keeps it under default typing.
pub proof fn lemma_default_typing_keeps(
    atoms: Seq<Atom>,
    ends: Seq<(usize, usize)>,
    kinds: Seq<BondType>,
    e: int,
)
    requires
        0 <= e < kinds.len(),
        kinds[e] != BondType::Default,
    ensures
        default_typed(atoms, ends, kinds)[e] == kinds[e],
{
}

} // verus!
