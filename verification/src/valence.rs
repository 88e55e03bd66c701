//! Valence arithmetic: bond orders at an atom, and the implicit hydrogens
//! and unpaired electrons that follow from them.

use vstd::prelude::*;
use crate::atom::{lemma_valence_states, Atom};
use crate::bond::BondType;

verus! {

/// Twice the sum of the orders of the bonds.
pub open spec fn half_order_sum(kinds: Seq<BondType>) -> nat
    decreases kinds.len(),
{
    if kinds.len() == 0 {
        0
    } else {
        half_order_sum(kinds.drop_last()) + kinds.last().half_orders()
    }
}

/// The bond order at an atom with bonds of these types: the sum of their
/// orders, rounded down to a whole number, and 255 where it is more.
pub open spec fn bond_order(kinds: Seq<BondType>) -> nat {
    let whole = half_order_sum(kinds) / 2;
    if whole > 255 {
        255
    } else {
        whole
    }
}

/// Whether the bond order is more than the atom can have in any of its
/// valence states.
pub open spec fn valence_exceeded(atom: Atom, order: nat) -> bool {
    order > atom.atomic_symbol.valence(atom.charge, true)
}

/// The number of hydrogens that fill the valence of an atom at a bond order:
/// what the largest valence leaves free, and where that is more than the
/// normal valence, the largest number not above the normal valence that
/// differs from it by a multiple of two.
pub open spec fn hydrogen_count(atom: Atom, order: nat) -> nat
    recommends
        !valence_exceeded(atom, order),
{
    let normal = atom.atomic_symbol.valence(atom.charge, false);
    let free = (atom.atomic_symbol.valence(atom.charge, true) - order) as nat;
    if free <= normal {
        free
    } else {
        (normal - (free - normal) % 2) as nat
    }
}

/// The atom after valence perception at a bond order. An atom whose
/// hydrogens are to be counted gets `hydrogen_count` of them and is marked as
/// counted. Another atom keeps its hydrogens, and gets as unpaired electrons
/// what `hydrogen_count` has beyond them, none if it has nothing beyond them.
pub open spec fn with_valence(atom: Atom, order: nat) -> Atom
    recommends
        !valence_exceeded(atom, order),
{
    let h = hydrogen_count(atom, order);
    if atom.needs_update {
        Atom { needs_update: false, num_imp_h: h as u8, ..atom }
    } else {
        Atom {
            num_rad_electron: if h >= atom.num_imp_h {
                (h - atom.num_imp_h) as u8
            } else {
                0
            },
            ..atom
        }
    }
}

/// The hydrogen count is never above the normal valence of the atom, it
/// never brings the atom above its largest valence, and it leaves an even
/// number of that valence unused.
pub proof fn lemma_hydrogen_count_bounds(atom: Atom, order: nat)
    requires
        !valence_exceeded(atom, order),
    ensures
        hydrogen_count(atom, order) <= atom.atomic_symbol.valence(atom.charge, false),
        hydrogen_count(atom, order) + order <= atom.atomic_symbol.valence(atom.charge, true),
        (atom.atomic_symbol.valence(atom.charge, true) - order - hydrogen_count(atom, order)) % 2
            == 0,
{
    lemma_valence_states(atom.atomic_symbol, atom.charge);
}

/// Valence perception consumes the mark of an atom: after it the hydrogens
/// of the atom count as given, and at the same bond order a second
/// perception keeps them.
pub proof fn lemma_with_valence_settles(atom: Atom, order: nat)
    requires
        !valence_exceeded(atom, order),
    ensures
        !with_valence(atom, order).needs_update,
        !valence_exceeded(with_valence(atom, order), order),
        with_valence(with_valence(atom, order), order).num_imp_h == with_valence(
            atom,
            order,
        ).num_imp_h,
{
    lemma_valence_states(atom.atomic_symbol, atom.charge);
}

/// The bond order at an atom with bonds of these types.
pub fn total_bond_order(kinds: &Vec<BondType>) -> (order: u8)
    ensures
        order == bond_order(kinds@),
{
    let mut acc: u16 = 0;
    let mut i: usize = 0;
    while i < kinds.len()
        invariant
            i <= kinds@.len(),
            acc <= 520,
            half_order_sum(kinds@.take(i as int)) < 512 ==> acc == half_order_sum(
                kinds@.take(i as int),
            ),
            half_order_sum(kinds@.take(i as int)) >= 512 ==> acc >= 512,
        decreases kinds@.len() - i,
    {
        proof {
            assert(kinds@.take(i + 1).drop_last() =~= kinds@.take(i as int));
        }
        if acc < 512 {
            acc = acc + (kinds[i].twice_order() as u16);
        }
        i += 1;
    }
    proof {
        assert(kinds@.take(i as int) =~= kinds@);
    }
    let whole: u16 = acc / 2;
    if whole > 255 {
        255
    } else {
        whole as u8
    }
}

/// The hydrogen count of an atom at a bond order, or `None` where the bond
/// order is more than the atom can have.
pub fn implicit_hydrogens(atom: &Atom, order: u8) -> (count: Option<u8>)
    ensures
        count == (if valence_exceeded(*atom, order as nat) {
            None
        } else {
            Some(hydrogen_count(*atom, order as nat) as u8)
        }),
        count matches Some(h) ==> h == hydrogen_count(*atom, order as nat) && h <= 7,
{
    let relaxed: u8 = atom.atomic_symbol.maximum_valence(atom.charge, true);
    let normal: u8 = atom.atomic_symbol.maximum_valence(atom.charge, false);
    proof {
        lemma_valence_states(atom.atomic_symbol, atom.charge);
    }
    if order > relaxed {
        return None;
    }
    let ghost free: u8 = (relaxed - order) as u8;
    let mut h: u8 = relaxed - order;
    while h > normal
        invariant
            normal <= relaxed,
            normal == 0 ==> relaxed == 0,
            h <= free <= relaxed,
            (free - h) % 2 == 0,
            free > normal ==> h + 1 >= normal,
            free <= normal ==> h == free,
        decreases h,
    {
        h = h - 2;
    }
    proof {
        if free > normal {
            assert(h == normal - (free - normal) % 2);
        }
    }
    Some(h)
}

/// The atom after valence perception with the hydrogen count `h`.
pub fn settle_atom(atom: &Atom, h: u8) -> (settled: Atom)
    ensures
        forall|order: nat|
            hydrogen_count(*atom, order) == h ==> settled == #[trigger] with_valence(*atom, order),
{
    if atom.needs_update {
        Atom {
            atomic_symbol: atom.atomic_symbol,
            charge: atom.charge,
            aromatic: atom.aromatic,
            needs_update: false,
            num_imp_h: h,
            num_rad_electron: atom.num_rad_electron,
        }
    } else {
        Atom {
            atomic_symbol: atom.atomic_symbol,
            charge: atom.charge,
            aromatic: atom.aromatic,
            needs_update: atom.needs_update,
            num_imp_h: atom.num_imp_h,
            num_rad_electron: if h >= atom.num_imp_h {
                h - atom.num_imp_h
            } else {
                0
            },
        }
    }
}

} // verus!
