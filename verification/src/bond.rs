use vstd::prelude::*;

verus! {

/// The type of a bond between two atoms.
///
/// `Default` marks a bond whose type has not been decided yet; default bond
/// typing turns it into `Single` or `Aromatic`.
#[derive(Clone, Copy, Debug, PartialEq, Eq, Hash, Structural)]
pub enum BondType {
    Default,
    Single,
    Double,
    Triple,
    Aromatic,
}

impl BondType {
    /// Twice the bond order: an aromatic bond has order one and a half, and a
    /// bond that has no type yet has no order.
    pub open spec fn half_orders(self) -> nat {
        match self {
            BondType::Default => 0,
            BondType::Single => 2,
            BondType::Double => 4,
            BondType::Triple => 6,
            BondType::Aromatic => 3,
        }
    }

    /// Twice the bond order, as a machine integer.
    pub fn twice_order(&self) -> (r: u8)
        ensures
            r == self.half_orders(),
    {
        match self {
            BondType::Default => 0,
            BondType::Single => 2,
            BondType::Double => 4,
            BondType::Triple => 6,
            BondType::Aromatic => 3,
        }
    }
}

} // verus!
