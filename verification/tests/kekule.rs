use molecule_perception::atom::{Atom, AtomicSymbol};
use molecule_perception::bond::BondType;
use molecule_perception::error::Error;
use molecule_perception::kekule::{
    clear_aromatic_flags, has_double_bond, holds, is_conjugated, offer_atom, offer_to_path,
    prepended, ring_paths, run_passes, settle_all, settle_aromatic_bonds, takes_double,
};
use molecule_perception::molecule::Molecule;
use petgraph::graph::{Graph, NodeIndex};
use petgraph::Undirected;

use BondType::{Aromatic, Double, Single};

fn molecule(atoms: &[Atom], bonds: &[(usize, usize, BondType)]) -> Molecule {
    let mut graph = Graph::<Atom, BondType, Undirected, usize>::default();
    for atom in atoms {
        graph.add_node(*atom);
    }
    for (a, b, kind) in bonds {
        graph.add_edge(NodeIndex::new(*a), NodeIndex::new(*b), *kind);
    }
    Molecule { graph, rings: vec![] }
}

fn aromatic_carbon() -> Atom {
    Atom { aromatic: true, ..Atom::new(AtomicSymbol::C) }
}

fn aromatic_cycle(size: usize) -> Molecule {
    let atoms = vec![aromatic_carbon(); size];
    let bonds: Vec<(usize, usize, BondType)> =
        (0..size).map(|i| (i, (i + 1) % size, Aromatic)).collect();
    molecule(&atoms, &bonds)
}

fn aromatic_molecule(atoms: usize, bonds: &[(usize, usize)]) -> Molecule {
    let typed: Vec<(usize, usize, BondType)> =
        bonds.iter().map(|(a, b)| (*a, *b, Aromatic)).collect();
    molecule(&vec![aromatic_carbon(); atoms], &typed)
}

fn kinds_of(mol: &Molecule) -> Vec<BondType> {
    mol.graph.edge_weights().copied().collect()
}

fn atoms_of(mol: &Molecule) -> Vec<Atom> {
    mol.graph.node_weights().copied().collect()
}

const NAPHTHALENE: [(usize, usize); 11] =
    [(0, 1), (1, 2), (2, 3), (3, 4), (4, 5), (5, 0), (4, 6), (6, 7), (7, 8), (8, 9), (9, 5)];

const AZULENE: [(usize, usize); 11] =
    [(0, 1), (1, 2), (2, 3), (3, 4), (4, 0), (4, 5), (5, 6), (6, 7), (7, 8), (8, 9), (9, 3)];

#[test]
fn benzene_gets_three_double_bonds_in_turn() {
    let mut mol = aromatic_cycle(6);
    mol.perceive_rings();
    assert_eq!(mol.perceive_implicit_hydrogens(), Ok(()));
    let out = mol.kekulized().unwrap();
    let kinds = kinds_of(&out);
    assert_eq!(kinds.iter().filter(|k| **k == Double).count(), 3);
    assert_eq!(kinds.iter().filter(|k| **k == Single).count(), 3);
    for i in 0..6 {
        assert_ne!(kinds[i], kinds[(i + 1) % 6]);
    }
    assert!(atoms_of(&out).iter().all(|atom| !atom.aromatic));
    assert!(kinds.iter().all(|k| *k != Aromatic));
}

#[test]
fn benzene_double_bonds_start_at_the_first_ring_atom() {
    let mut mol = aromatic_cycle(6);
    mol.perceive_rings();
    let out = mol.kekulized().unwrap();
    assert_eq!(kinds_of(&out), vec![Single, Double, Single, Double, Single, Double]);
    assert_eq!(out.rings, mol.rings);
}

#[test]
fn kekulized_leaves_the_molecule_as_it_is() {
    let mut mol = aromatic_cycle(6);
    mol.perceive_rings();
    let before_atoms = atoms_of(&mol);
    let before_rings = mol.rings.clone();
    let _ = mol.kekulized().unwrap();
    assert_eq!(kinds_of(&mol), vec![Aromatic; 6]);
    assert_eq!(atoms_of(&mol), before_atoms);
    assert_eq!(mol.rings, before_rings);
    let mut five = aromatic_cycle(5);
    five.perceive_rings();
    assert!(five.kekulized().is_err());
    assert_eq!(kinds_of(&five), vec![Aromatic; 5]);
    assert!(atoms_of(&five).iter().all(|atom| atom.aromatic));
}

#[test]
fn kekulized_keeps_everything_but_aromaticity() {
    let mut mol = aromatic_cycle(6);
    mol.perceive_rings();
    assert_eq!(mol.perceive_implicit_hydrogens(), Ok(()));
    let out = mol.kekulized().unwrap();
    let expected: Vec<Atom> =
        atoms_of(&mol).iter().map(|atom| Atom { aromatic: false, ..*atom }).collect();
    assert_eq!(atoms_of(&out), expected);
    assert_eq!(out.graph.edge_count(), 6);
    for e in out.graph.edge_indices() {
        assert_eq!(out.graph.edge_endpoints(e), mol.graph.edge_endpoints(e));
    }
}

#[test]
fn five_ring_of_aromatic_atoms_is_stuck() {
    let mut mol = aromatic_cycle(5);
    mol.perceive_rings();
    assert_eq!(mol.rings.len(), 1);
    assert_eq!(mol.kekulized().err(), Some(Error::KekulizationStuck));
}

#[test]
fn lone_aromatic_atom_in_a_ring_is_isolated() {
    let c = Atom::new(AtomicSymbol::C);
    let mut mol = molecule(
        &[c, c, aromatic_carbon()],
        &[(0, 1, Double), (1, 2, Aromatic), (2, 0, Aromatic)],
    );
    mol.rings = vec![Box::new(vec![0, 1, 2])];
    assert_eq!(mol.kekulized().err(), Some(Error::IsolatedAromaticAtom));
}

#[test]
fn isolated_atom_is_reported_before_a_stuck_pass() {
    let c = Atom::new(AtomicSymbol::C);
    let mut atoms = vec![aromatic_carbon(); 5];
    atoms.extend([c, c, aromatic_carbon()]);
    let mut mol = molecule(
        &atoms,
        &[
            (0, 1, Aromatic),
            (1, 2, Aromatic),
            (2, 3, Aromatic),
            (3, 4, Aromatic),
            (4, 0, Aromatic),
            (5, 6, Double),
            (6, 7, Aromatic),
            (7, 5, Aromatic),
        ],
    );
    mol.rings = vec![Box::new(vec![0, 1, 2, 3, 4]), Box::new(vec![5, 6, 7])];
    assert_eq!(mol.kekulized().err(), Some(Error::IsolatedAromaticAtom));
}

#[test]
fn naphthalene_rings_and_double_bonds() {
    let mut mol = aromatic_molecule(10, &NAPHTHALENE);
    mol.perceive_rings();
    assert_eq!(
        mol.rings,
        vec![
            Box::new(vec![5, 4, 3, 2, 1, 0]),
            Box::new(vec![9, 8, 7, 6, 4, 5]),
            Box::new(vec![1, 2, 3, 4, 6, 7, 8, 9, 5, 0]),
        ]
    );
    assert_eq!(mol.perceive_implicit_hydrogens(), Ok(()));
    let out = mol.kekulized().unwrap();
    assert_eq!(
        kinds_of(&out),
        vec![Double, Single, Double, Single, Double, Single, Single, Double, Single, Double, Single]
    );
}

#[test]
fn odd_rings_are_settled_by_the_ring_around_them() {
    let mut mol = aromatic_molecule(10, &AZULENE);
    mol.rings = vec![
        Box::new(vec![0, 1, 2, 3, 4]),
        Box::new(vec![3, 4, 5, 6, 7, 8, 9]),
        Box::new(vec![0, 1, 2, 3, 9, 8, 7, 6, 5, 4]),
    ];
    let out = mol.kekulized().unwrap();
    assert_eq!(
        kinds_of(&out),
        vec![Double, Single, Double, Single, Single, Double, Single, Double, Single, Double, Single]
    );
}

#[test]
fn odd_rings_alone_are_stuck() {
    let mut mol = aromatic_molecule(10, &AZULENE);
    mol.rings = vec![Box::new(vec![0, 1, 2, 3, 4]), Box::new(vec![3, 4, 5, 6, 7, 8, 9])];
    assert_eq!(mol.kekulized().err(), Some(Error::KekulizationStuck));
}

#[test]
fn without_rings_aromatic_bonds_become_single() {
    let mol = aromatic_cycle(6);
    let out = mol.kekulized().unwrap();
    assert_eq!(kinds_of(&out), vec![Single; 6]);
    assert!(atoms_of(&out).iter().all(|atom| !atom.aromatic));
}

#[test]
fn rings_that_are_not_conjugated_are_passed_over() {
    let mut mol = aromatic_cycle(5);
    mol.graph[NodeIndex::<usize>::new(2)].aromatic = false;
    mol.perceive_rings();
    let out = mol.kekulized().unwrap();
    assert_eq!(kinds_of(&out), vec![Single; 5]);
}

#[test]
fn atoms_at_their_valence_take_no_double_bond() {
    let mut mol = aromatic_cycle(6);
    for atom in mol.graph.node_weights_mut() {
        atom.num_imp_h = 2;
    }
    mol.perceive_rings();
    let out = mol.kekulized().unwrap();
    assert_eq!(kinds_of(&out), vec![Single; 6]);
}

#[test]
fn double_bonds_outside_the_ring_make_it_conjugated() {
    let c = Atom::new(AtomicSymbol::C);
    let mut mol = molecule(
        &[aromatic_carbon(), aromatic_carbon(), c, c],
        &[(0, 1, Aromatic), (1, 2, Aromatic), (2, 0, Aromatic), (2, 3, Double)],
    );
    mol.rings = vec![Box::new(vec![0, 1, 2])];
    let out = mol.kekulized().unwrap();
    assert_eq!(kinds_of(&out), vec![Double, Single, Single, Double]);
}

#[test]
fn double_bond_search() {
    let c = Atom::new(AtomicSymbol::C);
    let mol = molecule(&[c, c, c, c], &[(0, 1, Double), (1, 2, Aromatic), (3, 1, Single)]);
    assert!(has_double_bond(&mol.graph, 0));
    assert!(has_double_bond(&mol.graph, 1));
    assert!(!has_double_bond(&mol.graph, 2));
    assert!(!has_double_bond(&mol.graph, 3));
    assert!(!has_double_bond(&mol.graph, 17));
}

#[test]
fn conjugation_needs_every_atom() {
    let c = Atom::new(AtomicSymbol::C);
    let mol = molecule(
        &[aromatic_carbon(), c, c, c],
        &[(1, 2, Double), (0, 1, Single), (2, 3, Single)],
    );
    assert!(is_conjugated(&mol.graph, &vec![0, 1, 2]));
    assert!(is_conjugated(&mol.graph, &vec![]));
    assert!(!is_conjugated(&mol.graph, &vec![0, 1, 2, 3]));
    assert!(!is_conjugated(&mol.graph, &vec![3]));
}

#[test]
fn takes_double_needs_room_and_no_double_bond() {
    let c = Atom::new(AtomicSymbol::C);
    let full = Atom { num_imp_h: 3, ..c };
    let nearly = Atom { num_imp_h: 2, ..c };
    let mol = molecule(
        &[c, c, full, nearly, c, c],
        &[(0, 1, Double), (2, 3, Single), (3, 4, Single), (4, 5, Aromatic)],
    );
    assert!(!takes_double(&mol.graph, 0));
    assert!(!takes_double(&mol.graph, 1));
    assert!(takes_double(&mol.graph, 2));
    assert!(takes_double(&mol.graph, 3));
    assert!(takes_double(&mol.graph, 4));
    let over = molecule(&[Atom { num_imp_h: 4, ..c }, c], &[(0, 1, Single)]);
    assert!(!takes_double(&over.graph, 0));
    assert!(takes_double(&over.graph, 1));
}

#[test]
fn paths_grow_at_their_ends() {
    let mol = aromatic_molecule(5, &[(0, 1), (1, 2), (2, 3), (3, 4)]);
    assert_eq!(offer_to_path(&mol.graph, &vec![1, 2], 3), vec![1, 2, 3]);
    assert_eq!(offer_to_path(&mol.graph, &vec![1, 2], 0), vec![0, 1, 2]);
    assert_eq!(offer_to_path(&mol.graph, &vec![1, 2], 4), vec![1, 2]);
    assert_eq!(offer_to_path(&mol.graph, &vec![2], 1), vec![2, 1]);
    assert_eq!(prepended(&vec![1, 2], 0), vec![0, 1, 2]);
    assert!(holds(&vec![1, 2], 2));
    assert!(!holds(&vec![1, 2], 3));
}

#[test]
fn an_atom_joins_every_path_it_touches_or_starts_its_own() {
    let mol = aromatic_molecule(5, &[(0, 1), (1, 2), (2, 3), (3, 4)]);
    assert_eq!(offer_atom(&mol.graph, &vec![], 2), vec![vec![2]]);
    assert_eq!(offer_atom(&mol.graph, &vec![vec![0]], 2), vec![vec![0], vec![2]]);
    assert_eq!(offer_atom(&mol.graph, &vec![vec![0], vec![2]], 4), vec![vec![0], vec![2], vec![4]]);
    assert_eq!(
        offer_atom(&mol.graph, &vec![vec![0, 1], vec![4, 3]], 2),
        vec![vec![0, 1, 2], vec![4, 3, 2]]
    );
}

#[test]
fn ring_paths_skip_atoms_that_take_no_double_bond() {
    let mut mol = aromatic_cycle(6);
    mol.graph.update_edge(NodeIndex::new(2), NodeIndex::new(3), Double);
    let paths = ring_paths(&mol.graph, &mol.graph, &vec![1, 2, 3, 4, 5, 0]);
    assert_eq!(paths, vec![vec![1, 0], vec![4, 5, 0]]);
    let paths = ring_paths(&mol.graph, &mol.graph, &vec![0, 1, 2, 3, 4, 5]);
    assert_eq!(paths, vec![vec![5, 0, 1], vec![4, 5]]);
    let whole = aromatic_cycle(6);
    assert_eq!(
        ring_paths(&whole.graph, &whole.graph, &vec![1, 2, 3, 4, 5, 0]),
        vec![vec![1, 2, 3, 4, 5, 0]]
    );
}

#[test]
fn one_pass_reports_what_it_met() {
    let six = aromatic_cycle(6);
    let mut work = six.graph.clone();
    assert_eq!(settle_all(&six.graph, &mut work, &vec![vec![1, 2, 3, 4, 5, 0]]), Ok((false, true)));
    let kinds: Vec<BondType> = work.edge_weights().copied().collect();
    assert_eq!(kinds, vec![Aromatic, Double, Aromatic, Double, Aromatic, Double]);
    assert_eq!(settle_all(&six.graph, &mut work, &vec![vec![1, 2, 3, 4, 5, 0]]), Ok((false, false)));
    let five = aromatic_cycle(5);
    let mut work = five.graph.clone();
    assert_eq!(settle_all(&five.graph, &mut work, &vec![vec![1, 2, 3, 4, 0]]), Ok((true, false)));
    assert_eq!(run_passes(&five.graph, &mut work, &vec![vec![1, 2, 3, 4, 0]]), Err(Error::KekulizationStuck));
    assert_eq!(run_passes(&five.graph, &mut work, &vec![]), Ok(()));
}

#[test]
fn cleaning_up_after_the_passes() {
    let mut mol = aromatic_molecule(3, &[(0, 1), (1, 2)]);
    mol.graph.update_edge(NodeIndex::new(1), NodeIndex::new(2), Double);
    settle_aromatic_bonds(&mut mol.graph);
    assert_eq!(kinds_of(&mol), vec![Single, Double]);
    assert!(atoms_of(&mol).iter().all(|atom| atom.aromatic));
    clear_aromatic_flags(&mut mol.graph);
    assert!(atoms_of(&mol).iter().all(|atom| !atom.aromatic));
    assert_eq!(kinds_of(&mol), vec![Single, Double]);
}

#[test]
fn new_molecule_is_empty() {
    let mol = Molecule::new();
    assert_eq!(mol.graph.node_count(), 0);
    assert_eq!(mol.graph.edge_count(), 0);
    assert!(mol.rings.is_empty());
    let other = Molecule::default();
    assert_eq!(other.graph.node_count(), 0);
    assert!(other.rings.is_empty());
}

#[test]
fn clone_is_a_molecule_of_its_own() {
    let mut mol = aromatic_cycle(6);
    mol.perceive_rings();
    let mut copy = mol.clone();
    assert_eq!(atoms_of(&copy), atoms_of(&mol));
    assert_eq!(kinds_of(&copy), kinds_of(&mol));
    assert_eq!(copy.rings, mol.rings);
    copy.graph[NodeIndex::<usize>::new(0)].aromatic = false;
    copy.rings.clear();
    assert!(atoms_of(&mol)[0].aromatic);
    assert_eq!(mol.rings.len(), 1);
    assert_eq!(mol.conjugated_among(), vec![vec![1, 2, 3, 4, 5, 0]]);
    assert_eq!(mol.copied_rings(), mol.rings);
}

#[test]
fn well_formed_molecules_have_their_rings_in_the_graph() {
    let mut mol = aromatic_cycle(6);
    assert!(mol.is_well_formed());
    mol.perceive_rings();
    assert!(mol.is_well_formed());
    mol.rings.push(Box::new(vec![0, 6]));
    assert!(!mol.is_well_formed());
    mol.rings = vec![Box::new(vec![]), Box::new(vec![5])];
    assert!(mol.is_well_formed());
    let mut empty = Molecule::new();
    assert!(empty.is_well_formed());
    empty.rings.push(Box::new(vec![0]));
    assert!(!empty.is_well_formed());
}
