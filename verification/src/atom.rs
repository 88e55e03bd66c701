use vstd::prelude::*;

verus! {

/// The elements that a molecular graph can hold.
#[derive(Clone, Copy, Debug, PartialEq, Eq, Hash, Structural)]
pub enum AtomicSymbol {
    H,
    B,
    C,
    N,
    O,
    F,
    Si,
    P,
    S,
    Cl,
    Br,
    I,
}

impl AtomicSymbol {
    /// The number of electrons in the outer shell of the neutral atom.
    pub open spec fn outer_electrons(self) -> int {
        match self {
            AtomicSymbol::H => 1,
            AtomicSymbol::B => 3,
            AtomicSymbol::C | AtomicSymbol::Si => 4,
            AtomicSymbol::N | AtomicSymbol::P => 5,
            AtomicSymbol::O | AtomicSymbol::S => 6,
            AtomicSymbol::F | AtomicSymbol::Cl | AtomicSymbol::Br | AtomicSymbol::I => 7,
        }
    }

    /// Whether the element can hold more than eight electrons in its outer
    /// shell, as the elements from the third row on can.
    pub open spec fn expands_octet(self) -> bool {
        match self {
            AtomicSymbol::Si
            | AtomicSymbol::P
            | AtomicSymbol::S
            | AtomicSymbol::Cl
            | AtomicSymbol::Br
            | AtomicSymbol::I => true,
            _ => false,
        }
    }

    /// The valence of the element at a formal charge.
    ///
    /// A charged atom bonds like the neutral atom with as many outer
    /// electrons: with `e` of them, at most four, it forms `e` bonds, and with
    /// more it forms `8 - e`. That is the normal valence. With `relaxed`, an
    /// element that expands its octet may use all of its five to seven outer
    /// electrons. Hydrogen forms one bond when neutral and none otherwise, and
    /// an atom left with no outer electrons, or with more than eight, forms
    /// none.
    pub open spec fn valence(self, charge: i8, relaxed: bool) -> nat {
        let e = self.outer_electrons() - charge;
        if self == AtomicSymbol::H {
            if e == 1 {
                1
            } else {
                0
            }
        } else if e < 0 || e > 8 {
            0
        } else if e <= 4 {
            e as nat
        } else if relaxed && self.expands_octet() && e <= 7 {
            e as nat
        } else {
            (8 - e) as nat
        }
    }

    fn outer_shell(&self) -> (r: i16)
        ensures
            r == self.outer_electrons(),
    {
        match self {
            AtomicSymbol::H => 1,
            AtomicSymbol::B => 3,
            AtomicSymbol::C | AtomicSymbol::Si => 4,
            AtomicSymbol::N | AtomicSymbol::P => 5,
            AtomicSymbol::O | AtomicSymbol::S => 6,
            AtomicSymbol::F | AtomicSymbol::Cl | AtomicSymbol::Br | AtomicSymbol::I => 7,
        }
    }

    fn is_octet_expanding(&self) -> (r: bool)
        ensures
            r == self.expands_octet(),
    {
        match self {
            AtomicSymbol::Si
            | AtomicSymbol::P
            | AtomicSymbol::S
            | AtomicSymbol::Cl
            | AtomicSymbol::Br
            | AtomicSymbol::I => true,
            _ => false,
        }
    }

    /// The largest valence of the element at `charge`: the normal valence, or
    /// with `relaxed` the largest of all its valence states.
    pub fn maximum_valence(&self, charge: i8, relaxed: bool) -> (v: u8)
        ensures
            v == self.valence(charge, relaxed),
            v <= 7,
    {
        let shell: i16 = self.outer_shell();
        let e: i16 = shell - (charge as i16);
        if let AtomicSymbol::H = self {
            if e == 1 {
                1
            } else {
                0
            }
        } else if e < 0 || e > 8 {
            0
        } else if e <= 4 {
            e as u8
        } else if relaxed && self.is_octet_expanding() && e <= 7 {
            e as u8
        } else {
            (8 - e) as u8
        }
    }
}

/// The normal valence is never above the relaxed one, the two differ by an
/// even number, and an element with no normal valence has no relaxed one.
pub proof fn lemma_valence_states(symbol: AtomicSymbol, charge: i8)
    ensures
        symbol.valence(charge, false) <= symbol.valence(charge, true) <= 7,
        (symbol.valence(charge, true) - symbol.valence(charge, false)) % 2 == 0,
        symbol.valence(charge, false) == 0 ==> symbol.valence(charge, true) == 0,
{
}

/// One atom of a molecular graph.
#[derive(Clone, Copy, Debug, PartialEq, Eq, Hash, Structural)]
pub struct Atom {
    /// The element.
    pub atomic_symbol: AtomicSymbol,
    /// The formal charge.
    pub charge: i8,
    /// Whether the atom is part of an aromatic system.
    pub aromatic: bool,
    /// Whether the implicit hydrogens of the atom are still to be counted.
    /// Where this is not set, the count is taken as given and the valence
    /// left over goes to `num_rad_electron`.
    pub needs_update: bool,
    /// The number of implicit hydrogens.
    pub num_imp_h: u8,
    /// The number of unpaired electrons.
    pub num_rad_electron: u8,
}

impl Atom {
    /// A neutral atom of the element, not aromatic, with no hydrogens and
    /// no unpaired electrons yet, whose hydrogens are still to be counted.
    pub fn new(atomic_symbol: AtomicSymbol) -> (atom: Atom)
        ensures
            atom == (Atom {
                atomic_symbol,
                charge: 0,
                aromatic: false,
                needs_update: true,
                num_imp_h: 0,
                num_rad_electron: 0,
            }),
    {
        Atom {
            atomic_symbol,
            charge: 0,
            aromatic: false,
            needs_update: true,
            num_imp_h: 0,
            num_rad_electron: 0,
        }
    }

    /// The atom with its aromatic flag cleared.
    pub open spec fn without_aromaticity(self) -> Atom {
        Atom { aromatic: false, ..self }
    }
}

} // verus!
