use molecule_perception::atom::{Atom, AtomicSymbol};
use molecule_perception::bond::BondType;
use molecule_perception::error::Error;
use molecule_perception::molecule::Molecule;
use molecule_perception::typing::resolve_default;
use molecule_perception::valence::{implicit_hydrogens, settle_atom, total_bond_order};
use petgraph::graph::{EdgeIndex, Graph, NodeIndex};
use petgraph::Undirected;

fn molecule(atoms: &[Atom], bonds: &[(usize, usize, BondType)]) -> Molecule {
    let mut graph = Graph::<Atom, BondType, Undirected, usize>::default();
    for atom in atoms {
        graph.add_node(*atom);
    }
    for (a, b, kind) in bonds {
        graph.add_edge(NodeIndex::new(*a), NodeIndex::new(*b), *kind);
    }
    Molecule { graph, rings: vec![] }
}

fn aromatic(symbol: AtomicSymbol) -> Atom {
    Atom { aromatic: true, ..Atom::new(symbol) }
}

fn charged(symbol: AtomicSymbol, charge: i8) -> Atom {
    Atom { charge, ..Atom::new(symbol) }
}

fn atom_at(mol: &Molecule, a: usize) -> Atom {
    mol.graph[NodeIndex::<usize>::new(a)]
}

fn kinds_of(mol: &Molecule) -> Vec<BondType> {
    mol.graph.edge_weights().copied().collect()
}

fn star(center: AtomicSymbol, arms: usize) -> Molecule {
    let mut atoms = vec![Atom::new(center)];
    let mut bonds = vec![];
    for i in 0..arms {
        atoms.push(Atom::new(AtomicSymbol::C));
        bonds.push((0, i + 1, BondType::Single));
    }
    molecule(&atoms, &bonds)
}

#[test]
fn default_bonds_follow_the_aromatic_flags() {
    let c = AtomicSymbol::C;
    let mut mol = molecule(
        &[aromatic(c), aromatic(c), Atom::new(c), Atom::new(c)],
        &[
            (0, 1, BondType::Default),
            (1, 2, BondType::Default),
            (2, 3, BondType::Default),
            (0, 2, BondType::Double),
            (1, 0, BondType::Single),
            (3, 1, BondType::Aromatic),
            (0, 3, BondType::Triple),
        ],
    );
    mol.perceive_default_bonds();
    assert_eq!(
        kinds_of(&mol),
        vec![
            BondType::Aromatic,
            BondType::Single,
            BondType::Single,
            BondType::Double,
            BondType::Single,
            BondType::Aromatic,
            BondType::Triple,
        ]
    );
}

#[test]
fn default_bond_typing_twice_is_once() {
    let c = AtomicSymbol::C;
    let mut mol = molecule(
        &[aromatic(c), aromatic(c), Atom::new(c)],
        &[(0, 1, BondType::Default), (1, 2, BondType::Default), (2, 0, BondType::Double)],
    );
    mol.perceive_default_bonds();
    let once = kinds_of(&mol);
    mol.perceive_default_bonds();
    assert_eq!(kinds_of(&mol), once);
    assert_eq!(once, vec![BondType::Aromatic, BondType::Single, BondType::Double]);
}

#[test]
fn default_bond_typing_touches_nothing_else() {
    let c = AtomicSymbol::C;
    let mut mol = molecule(&[aromatic(c), aromatic(c)], &[(1, 0, BondType::Default)]);
    mol.rings = vec![Box::new(vec![0, 1])];
    mol.perceive_default_bonds();
    assert_eq!(atom_at(&mol, 0), aromatic(c));
    assert_eq!(atom_at(&mol, 1), aromatic(c));
    assert_eq!(mol.rings, vec![Box::new(vec![0, 1])]);
    let ends = mol.graph.edge_endpoints(EdgeIndex::new(0)).unwrap();
    assert_eq!((ends.0.index(), ends.1.index()), (1, 0));
}

#[test]
fn resolve_default_by_cases() {
    assert_eq!(resolve_default(BondType::Default, true, true), BondType::Aromatic);
    assert_eq!(resolve_default(BondType::Default, true, false), BondType::Single);
    assert_eq!(resolve_default(BondType::Default, false, true), BondType::Single);
    assert_eq!(resolve_default(BondType::Default, false, false), BondType::Single);
    assert_eq!(resolve_default(BondType::Double, true, true), BondType::Double);
    assert_eq!(resolve_default(BondType::Aromatic, false, false), BondType::Aromatic);
}

#[test]
fn carbon_with_one_single_bond_gets_three_hydrogens() {
    let c = AtomicSymbol::C;
    let mut mol = molecule(&[Atom::new(c), Atom::new(c)], &[(0, 1, BondType::Single)]);
    assert_eq!(mol.perceive_implicit_hydrogens(), Ok(()));
    for a in 0..2 {
        let atom = atom_at(&mol, a);
        assert_eq!(atom.num_imp_h, 3);
        assert!(!atom.needs_update);
        assert_eq!(atom.num_rad_electron, 0);
    }
}

#[test]
fn carbon_with_five_single_bonds_exceeds_its_valence() {
    let mut mol = star(AtomicSymbol::C, 5);
    assert_eq!(mol.perceive_implicit_hydrogens(), Err(Error::ValenceExceeded));
}

#[test]
fn failed_valence_perception_changes_no_atom() {
    let c = AtomicSymbol::C;
    let mut atoms = vec![Atom::new(c); 7];
    atoms[6] = Atom::new(AtomicSymbol::O);
    let mut bonds: Vec<(usize, usize, BondType)> =
        (1..6).map(|i| (5, i - 1, BondType::Single)).collect();
    bonds.push((0, 6, BondType::Single));
    let mut mol = molecule(&atoms, &bonds);
    assert_eq!(mol.perceive_implicit_hydrogens(), Err(Error::ValenceExceeded));
    for a in 0..7 {
        assert_eq!(atom_at(&mol, a), atoms[a]);
    }
}

#[test]
fn lone_atoms_get_their_normal_valence() {
    let symbols = [
        (AtomicSymbol::H, 1),
        (AtomicSymbol::B, 3),
        (AtomicSymbol::C, 4),
        (AtomicSymbol::N, 3),
        (AtomicSymbol::O, 2),
        (AtomicSymbol::F, 1),
        (AtomicSymbol::Si, 4),
        (AtomicSymbol::P, 3),
        (AtomicSymbol::S, 2),
        (AtomicSymbol::Cl, 1),
        (AtomicSymbol::Br, 1),
        (AtomicSymbol::I, 1),
    ];
    for (symbol, hydrogens) in symbols {
        let mut mol = molecule(&[Atom::new(symbol)], &[]);
        assert_eq!(mol.perceive_implicit_hydrogens(), Ok(()));
        assert_eq!(atom_at(&mol, 0).num_imp_h, hydrogens);
    }
}

#[test]
fn sulfur_steps_down_by_two() {
    let expected = [2, 1, 2, 1, 2, 1, 0];
    for arms in 0..7 {
        let mut mol = star(AtomicSymbol::S, arms);
        assert_eq!(mol.perceive_implicit_hydrogens(), Ok(()));
        assert_eq!(atom_at(&mol, 0).num_imp_h, expected[arms]);
    }
    let mut mol = star(AtomicSymbol::S, 7);
    assert_eq!(mol.perceive_implicit_hydrogens(), Err(Error::ValenceExceeded));
}

#[test]
fn charged_atoms_bond_like_their_neighbours_in_the_table() {
    let cases = [
        (AtomicSymbol::N, 1, 4),
        (AtomicSymbol::O, -1, 1),
        (AtomicSymbol::O, 1, 3),
        (AtomicSymbol::B, -1, 4),
        (AtomicSymbol::C, -1, 3),
        (AtomicSymbol::C, 1, 3),
        (AtomicSymbol::H, 1, 0),
    ];
    for (symbol, charge, hydrogens) in cases {
        let mut mol = molecule(&[charged(symbol, charge)], &[]);
        assert_eq!(mol.perceive_implicit_hydrogens(), Ok(()));
        assert_eq!(atom_at(&mol, 0).num_imp_h, hydrogens);
    }
}

#[test]
fn aromatic_bond_orders_are_rounded_down() {
    let c = AtomicSymbol::C;
    let mut mol = molecule(
        &[aromatic(c), aromatic(c), aromatic(c), aromatic(c)],
        &[(0, 1, BondType::Aromatic), (0, 2, BondType::Aromatic), (0, 3, BondType::Aromatic)],
    );
    assert_eq!(mol.perceive_implicit_hydrogens(), Ok(()));
    assert_eq!(atom_at(&mol, 0).num_imp_h, 0);
    assert_eq!(atom_at(&mol, 1).num_imp_h, 3);
    let mut two = molecule(
        &[aromatic(c), aromatic(c), aromatic(c)],
        &[(0, 1, BondType::Aromatic), (2, 0, BondType::Aromatic)],
    );
    assert_eq!(two.perceive_implicit_hydrogens(), Ok(()));
    assert_eq!(atom_at(&two, 0).num_imp_h, 1);
}

#[test]
fn untyped_bonds_have_no_order() {
    let c = AtomicSymbol::C;
    let mut mol = molecule(&[Atom::new(c), Atom::new(c)], &[(0, 1, BondType::Default)]);
    assert_eq!(mol.perceive_implicit_hydrogens(), Ok(()));
    assert_eq!(atom_at(&mol, 0).num_imp_h, 4);
}

#[test]
fn a_bond_from_an_atom_to_itself_counts_once() {
    let mut mol = molecule(&[Atom::new(AtomicSymbol::C)], &[(0, 0, BondType::Double)]);
    assert_eq!(mol.perceive_implicit_hydrogens(), Ok(()));
    assert_eq!(atom_at(&mol, 0).num_imp_h, 2);
}

#[test]
fn fixed_hydrogens_leave_radical_electrons() {
    let c = AtomicSymbol::C;
    let fixed = Atom { needs_update: false, num_imp_h: 2, ..Atom::new(c) };
    let mut mol = molecule(&[fixed, Atom::new(c)], &[(0, 1, BondType::Single)]);
    assert_eq!(mol.perceive_implicit_hydrogens(), Ok(()));
    let atom = atom_at(&mol, 0);
    assert_eq!(atom.num_rad_electron, 1);
    assert_eq!(atom.num_imp_h, 2);
    assert!(!atom.needs_update);
    assert_eq!(atom_at(&mol, 1).num_imp_h, 3);
    assert_eq!(atom_at(&mol, 1).num_rad_electron, 0);
}

#[test]
fn more_fixed_hydrogens_than_valence_leave_no_radical_electrons() {
    let c = AtomicSymbol::C;
    let fixed = Atom { needs_update: false, num_imp_h: 4, num_rad_electron: 9, ..Atom::new(c) };
    let mut mol = molecule(&[fixed, Atom::new(c)], &[(0, 1, BondType::Single)]);
    assert_eq!(mol.perceive_implicit_hydrogens(), Ok(()));
    assert_eq!(atom_at(&mol, 0).num_rad_electron, 0);
    assert_eq!(atom_at(&mol, 0).num_imp_h, 4);
}

#[test]
fn valence_perception_touches_no_bond_and_no_ring() {
    let c = AtomicSymbol::C;
    let mut mol = molecule(&[Atom::new(c), Atom::new(c)], &[(0, 1, BondType::Double)]);
    mol.rings = vec![Box::new(vec![1, 0])];
    assert_eq!(mol.perceive_implicit_hydrogens(), Ok(()));
    assert_eq!(kinds_of(&mol), vec![BondType::Double]);
    assert_eq!(mol.rings, vec![Box::new(vec![1, 0])]);
    assert_eq!(atom_at(&mol, 0).num_imp_h, 2);
}

#[test]
fn valence_perception_twice_keeps_the_hydrogens() {
    let mut mol = star(AtomicSymbol::S, 3);
    assert_eq!(mol.perceive_implicit_hydrogens(), Ok(()));
    let once: Vec<Atom> = (0..4).map(|a| atom_at(&mol, a)).collect();
    assert_eq!(mol.perceive_implicit_hydrogens(), Ok(()));
    for a in 0..4 {
        assert_eq!(atom_at(&mol, a).num_imp_h, once[a].num_imp_h);
        assert!(!atom_at(&mol, a).needs_update);
    }
}

#[test]
fn total_bond_order_sums_and_caps() {
    assert_eq!(total_bond_order(&vec![]), 0);
    assert_eq!(total_bond_order(&vec![BondType::Aromatic]), 1);
    assert_eq!(total_bond_order(&vec![BondType::Aromatic; 2]), 3);
    assert_eq!(total_bond_order(&vec![BondType::Aromatic; 3]), 4);
    assert_eq!(total_bond_order(&vec![BondType::Triple, BondType::Single]), 4);
    assert_eq!(total_bond_order(&vec![BondType::Default, BondType::Double]), 2);
    assert_eq!(total_bond_order(&vec![BondType::Triple; 85]), 255);
    assert_eq!(total_bond_order(&vec![BondType::Triple; 84]), 252);
    assert_eq!(total_bond_order(&vec![BondType::Triple; 200]), 255);
    assert_eq!(total_bond_order(&vec![BondType::Aromatic; 1000]), 255);
}

#[test]
fn implicit_hydrogens_by_bond_order() {
    let carbon = Atom::new(AtomicSymbol::C);
    assert_eq!(implicit_hydrogens(&carbon, 0), Some(4));
    assert_eq!(implicit_hydrogens(&carbon, 4), Some(0));
    assert_eq!(implicit_hydrogens(&carbon, 5), None);
    assert_eq!(implicit_hydrogens(&carbon, 255), None);
    let chlorine = Atom::new(AtomicSymbol::Cl);
    assert_eq!(implicit_hydrogens(&chlorine, 0), Some(1));
    assert_eq!(implicit_hydrogens(&chlorine, 1), Some(0));
    assert_eq!(implicit_hydrogens(&chlorine, 2), Some(1));
    assert_eq!(implicit_hydrogens(&chlorine, 7), Some(0));
    assert_eq!(implicit_hydrogens(&chlorine, 8), None);
    let phosphorus = Atom::new(AtomicSymbol::P);
    assert_eq!(implicit_hydrogens(&phosphorus, 0), Some(3));
    assert_eq!(implicit_hydrogens(&phosphorus, 1), Some(2));
    assert_eq!(implicit_hydrogens(&phosphorus, 4), Some(1));
}

#[test]
fn settle_atom_by_mark() {
    let carbon = Atom::new(AtomicSymbol::C);
    assert_eq!(settle_atom(&carbon, 3), Atom { needs_update: false, num_imp_h: 3, ..carbon });
    let fixed = Atom { needs_update: false, num_imp_h: 1, ..carbon };
    assert_eq!(settle_atom(&fixed, 3), Atom { num_rad_electron: 2, ..fixed });
    assert_eq!(settle_atom(&fixed, 0), Atom { num_rad_electron: 0, ..fixed });
}

#[test]
fn maximum_valence_table() {
    let normal = |s: AtomicSymbol, c: i8| s.maximum_valence(c, false);
    let relaxed = |s: AtomicSymbol, c: i8| s.maximum_valence(c, true);
    assert_eq!((normal(AtomicSymbol::C, 0), relaxed(AtomicSymbol::C, 0)), (4, 4));
    assert_eq!((normal(AtomicSymbol::N, 0), relaxed(AtomicSymbol::N, 0)), (3, 3));
    assert_eq!((normal(AtomicSymbol::O, 0), relaxed(AtomicSymbol::O, 0)), (2, 2));
    assert_eq!((normal(AtomicSymbol::F, 0), relaxed(AtomicSymbol::F, 0)), (1, 1));
    assert_eq!((normal(AtomicSymbol::B, 0), relaxed(AtomicSymbol::B, 0)), (3, 3));
    assert_eq!((normal(AtomicSymbol::H, 0), relaxed(AtomicSymbol::H, 0)), (1, 1));
    assert_eq!((normal(AtomicSymbol::Si, 0), relaxed(AtomicSymbol::Si, 0)), (4, 4));
    assert_eq!((normal(AtomicSymbol::P, 0), relaxed(AtomicSymbol::P, 0)), (3, 5));
    assert_eq!((normal(AtomicSymbol::S, 0), relaxed(AtomicSymbol::S, 0)), (2, 6));
    assert_eq!((normal(AtomicSymbol::Cl, 0), relaxed(AtomicSymbol::Cl, 0)), (1, 7));
    assert_eq!((normal(AtomicSymbol::Br, 0), relaxed(AtomicSymbol::Br, 0)), (1, 7));
    assert_eq!((normal(AtomicSymbol::I, 0), relaxed(AtomicSymbol::I, 0)), (1, 7));
    assert_eq!((normal(AtomicSymbol::S, 1), relaxed(AtomicSymbol::S, 1)), (3, 5));
    assert_eq!((normal(AtomicSymbol::S, -1), relaxed(AtomicSymbol::S, -1)), (1, 7));
    assert_eq!((normal(AtomicSymbol::S, -2), relaxed(AtomicSymbol::S, -2)), (0, 0));
    assert_eq!((normal(AtomicSymbol::N, -1), relaxed(AtomicSymbol::N, -1)), (2, 2));
    assert_eq!((normal(AtomicSymbol::H, -1), relaxed(AtomicSymbol::H, -1)), (0, 0));
    assert_eq!((normal(AtomicSymbol::C, 4), relaxed(AtomicSymbol::C, 4)), (0, 0));
    assert_eq!((normal(AtomicSymbol::C, 5), relaxed(AtomicSymbol::C, 5)), (0, 0));
    assert_eq!((normal(AtomicSymbol::C, -5), relaxed(AtomicSymbol::C, -5)), (0, 0));
    assert_eq!((normal(AtomicSymbol::I, 127), relaxed(AtomicSymbol::I, 127)), (0, 0));
    assert_eq!((normal(AtomicSymbol::I, -128), relaxed(AtomicSymbol::I, -128)), (0, 0));
}

#[test]
fn bond_orders_doubled() {
    assert_eq!(BondType::Default.twice_order(), 0);
    assert_eq!(BondType::Single.twice_order(), 2);
    assert_eq!(BondType::Aromatic.twice_order(), 3);
    assert_eq!(BondType::Double.twice_order(), 4);
    assert_eq!(BondType::Triple.twice_order(), 6);
}

#[test]
fn error_messages() {
    assert_eq!(Error::ValenceExceeded.message(), "bond order is too high");
    assert_eq!(
        Error::IsolatedAromaticAtom.message(),
        "kekulization failed - isolated aromatic atom"
    );
    assert_eq!(
        Error::KekulizationStuck.message(),
        "kekulization failed - all paths have odd length"
    );
}

#[test]
fn new_atom_is_neutral_and_still_to_be_counted() {
    let atom = Atom::new(AtomicSymbol::N);
    assert_eq!(
        atom,
        Atom {
            atomic_symbol: AtomicSymbol::N,
            charge: 0,
            aromatic: false,
            needs_update: true,
            num_imp_h: 0,
            num_rad_electron: 0,
        }
    );
}
