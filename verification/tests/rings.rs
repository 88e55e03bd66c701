use molecule_perception::atom::{Atom, AtomicSymbol};
use molecule_perception::bond::BondType;
use molecule_perception::molecule::Molecule;
use molecule_perception::rings::{distinct_sorted, repeated_rings, same_sequence, sorted_copy};
use molecule_perception::utils::get_duplicate_element;
use molecule_perception::walks::{
    extended, find_rings, grow_walks, onward_atoms, ring_from, split_closed, starting_walks,
    tail_from,
};
use petgraph::graph::{Graph, NodeIndex};
use petgraph::Undirected;

fn carbon_graph(atoms: usize, bonds: &[(usize, usize)]) -> Graph<Atom, BondType, Undirected, usize> {
    let mut graph = Graph::<Atom, BondType, Undirected, usize>::default();
    for _ in 0..atoms {
        graph.add_node(Atom::new(AtomicSymbol::C));
    }
    for (a, b) in bonds {
        graph.add_edge(NodeIndex::new(*a), NodeIndex::new(*b), BondType::Single);
    }
    graph
}

fn carbon_molecule(atoms: usize, bonds: &[(usize, usize)]) -> Molecule {
    Molecule { graph: carbon_graph(atoms, bonds), rings: vec![] }
}

fn rings_of(mol: &Molecule) -> Vec<Vec<usize>> {
    mol.rings.iter().map(|ring| ring.as_ref().clone()).collect()
}

fn sorted(ring: &[usize]) -> Vec<usize> {
    let mut copy = ring.to_vec();
    copy.sort();
    copy
}

const NAPHTHALENE: [(usize, usize); 11] =
    [(0, 1), (1, 2), (2, 3), (3, 4), (4, 5), (5, 0), (4, 6), (6, 7), (7, 8), (8, 9), (9, 5)];

#[test]
fn six_ring_is_perceived_once() {
    let mut mol = carbon_molecule(6, &[(0, 1), (1, 2), (2, 3), (3, 4), (4, 5), (5, 0)]);
    for atom in mol.graph.node_weights_mut() {
        atom.aromatic = true;
    }
    mol.perceive_rings();
    assert_eq!(mol.rings.len(), 1);
    assert_eq!(mol.rings[0].len(), 6);
    assert_eq!(sorted(&mol.rings[0]), vec![0, 1, 2, 3, 4, 5]);
}

#[test]
fn six_ring_runs_from_the_first_neighbour_of_atom_zero() {
    let mut mol = carbon_molecule(6, &[(0, 1), (1, 2), (2, 3), (3, 4), (4, 5), (5, 0)]);
    mol.perceive_rings();
    assert_eq!(rings_of(&mol), vec![vec![1, 2, 3, 4, 5, 0]]);
}

#[test]
fn fused_rings_share_two_atoms() {
    let mut mol = carbon_molecule(10, &NAPHTHALENE);
    mol.perceive_rings();
    let rings = rings_of(&mol);
    let six: Vec<&Vec<usize>> = rings.iter().filter(|ring| ring.len() == 6).collect();
    assert_eq!(six.len(), 2);
    let shared: Vec<usize> = six[0].iter().copied().filter(|a| six[1].contains(a)).collect();
    assert_eq!(sorted(&shared), vec![4, 5]);
    assert_ne!(sorted(six[0]), sorted(six[1]));
}

#[test]
fn fused_rings_also_give_the_ring_around_both() {
    let mut mol = carbon_molecule(10, &NAPHTHALENE);
    mol.perceive_rings();
    let rings = rings_of(&mol);
    assert_eq!(rings.len(), 3);
    assert_eq!(rings[0].len(), 6);
    assert_eq!(rings[1].len(), 6);
    assert_eq!(rings[2].len(), 10);
    assert_eq!(sorted(&rings[2]), vec![0, 1, 2, 3, 4, 5, 6, 7, 8, 9]);
}

#[test]
fn perceived_rings_are_distinct_and_ordered_by_size() {
    let mut mol = carbon_molecule(10, &NAPHTHALENE);
    mol.perceive_rings();
    let rings = rings_of(&mol);
    for i in 0..rings.len() {
        for j in (i + 1)..rings.len() {
            assert!(rings[i].len() <= rings[j].len());
            assert_ne!(sorted(&rings[i]), sorted(&rings[j]));
        }
    }
}

#[test]
fn perceived_rings_are_cycles_of_the_graph() {
    let mut mol = carbon_molecule(10, &NAPHTHALENE);
    mol.perceive_rings();
    for ring in rings_of(&mol) {
        for i in 0..ring.len() {
            let a = ring[i];
            let b = ring[(i + 1) % ring.len()];
            assert!(mol.graph.find_edge(NodeIndex::new(a), NodeIndex::new(b)).is_some());
        }
        assert_eq!(sorted(&ring).windows(2).filter(|w| w[0] == w[1]).count(), 0);
    }
}

#[test]
fn fewer_than_three_atoms_is_a_no_op() {
    let mut mol = carbon_molecule(2, &[(0, 1)]);
    mol.rings = vec![Box::new(vec![1, 0]), Box::new(vec![0, 1]), Box::new(vec![0])];
    mol.perceive_rings();
    assert_eq!(rings_of(&mol), vec![vec![1, 0], vec![0, 1], vec![0]]);
}

#[test]
fn chain_has_no_rings() {
    let mut mol = carbon_molecule(4, &[(0, 1), (1, 2), (2, 3)]);
    mol.perceive_rings();
    assert!(mol.rings.is_empty());
}

#[test]
fn ring_away_from_atom_zero_is_not_found() {
    let mut mol = carbon_molecule(5, &[(0, 1), (2, 3), (3, 4), (4, 2)]);
    mol.perceive_rings();
    assert!(mol.rings.is_empty());
}

#[test]
fn ring_behind_a_chain_is_found() {
    let mut mol = carbon_molecule(5, &[(0, 1), (1, 2), (2, 3), (3, 4), (4, 2)]);
    mol.perceive_rings();
    let rings = rings_of(&mol);
    assert_eq!(rings.len(), 1);
    assert_eq!(sorted(&rings[0]), vec![2, 3, 4]);
}

#[test]
fn earlier_rings_stay_and_later_repeats_go() {
    let mut mol = carbon_molecule(3, &[(0, 1), (1, 2), (2, 0)]);
    mol.rings = vec![Box::new(vec![7, 8, 9, 10]), Box::new(vec![2, 0, 1])];
    mol.perceive_rings();
    assert_eq!(rings_of(&mol), vec![vec![2, 0, 1], vec![7, 8, 9, 10]]);
}

#[test]
fn perceiving_twice_changes_nothing_more() {
    let mut mol = carbon_molecule(10, &NAPHTHALENE);
    mol.perceive_rings();
    let once = rings_of(&mol);
    mol.perceive_rings();
    assert_eq!(rings_of(&mol), once);
}

#[test]
fn perceive_rings_leaves_the_graph_alone() {
    let mut mol = carbon_molecule(6, &[(0, 1), (1, 2), (2, 3), (3, 4), (4, 5), (5, 0)]);
    mol.perceive_rings();
    assert_eq!(mol.graph.node_count(), 6);
    assert_eq!(mol.graph.edge_count(), 6);
    assert!(mol.graph.edge_weights().all(|kind| *kind == BondType::Single));
}

#[test]
fn parallel_bonds_close_no_ring_of_two() {
    let mut mol = carbon_molecule(3, &[(0, 1), (0, 1), (1, 2)]);
    mol.perceive_rings();
    assert!(mol.rings.is_empty());
}

#[test]
fn find_rings_gives_every_closing_walk() {
    let graph = carbon_graph(3, &[(0, 1), (1, 2), (2, 0)]);
    assert_eq!(find_rings(&graph), vec![vec![1, 2, 0], vec![2, 1, 0]]);
    let small = carbon_graph(2, &[(0, 1)]);
    assert!(find_rings(&small).is_empty());
}

#[test]
fn starting_walks_follow_the_neighbours_of_atom_zero() {
    let graph = carbon_graph(4, &[(0, 1), (0, 2), (3, 0)]);
    assert_eq!(starting_walks(&graph), vec![vec![0, 2], vec![0, 1], vec![0, 3]]);
}

#[test]
fn onward_atoms_leave_out_the_atom_before() {
    let graph = carbon_graph(4, &[(0, 1), (1, 2), (1, 3)]);
    assert_eq!(onward_atoms(&graph, &vec![0, 1]), vec![3, 2]);
    assert_eq!(onward_atoms(&graph, &vec![1, 2]), Vec::<usize>::new());
    assert_eq!(onward_atoms(&graph, &vec![2, 1]), vec![3, 0]);
}

#[test]
fn grow_walks_continues_then_branches() {
    let graph = carbon_graph(5, &[(0, 1), (1, 2), (1, 3), (0, 4)]);
    let walks = vec![vec![0, 4], vec![0, 1]];
    assert_eq!(grow_walks(&graph, &walks), vec![vec![0, 1, 3], vec![0, 1, 2]]);
    let both = vec![vec![4, 0], vec![0, 1]];
    assert_eq!(grow_walks(&graph, &both), vec![vec![4, 0, 1], vec![0, 1, 3], vec![0, 1, 2]]);
}

#[test]
fn split_closed_parts_walks_and_rings() {
    let walks = vec![vec![0, 1, 2], vec![0, 1, 2, 1], vec![3, 4, 5, 3], vec![7, 8]];
    let (open, rings) = split_closed(&walks);
    assert_eq!(open, vec![vec![0, 1, 2], vec![7, 8]]);
    assert_eq!(rings, vec![vec![2, 1], vec![4, 5, 3]]);
}

#[test]
fn ring_from_starts_after_the_first_occurrence() {
    assert_eq!(ring_from(&vec![0, 1, 2, 3, 1], 1), vec![2, 3, 1]);
    assert_eq!(ring_from(&vec![4, 4], 4), vec![4]);
}

#[test]
fn duplicate_element_is_the_first_that_repeats() {
    assert_eq!(get_duplicate_element(&vec![0, 1, 2, 3]), None);
    assert_eq!(get_duplicate_element(&vec![]), None);
    assert_eq!(get_duplicate_element(&vec![0, 1, 2, 1]), Some(1));
    assert_eq!(get_duplicate_element(&vec![5, 3, 3, 5]), Some(5));
    assert_eq!(get_duplicate_element(&vec![1, 2, 2, 3, 3]), Some(2));
}

#[test]
fn copies_of_walks() {
    assert_eq!(extended(&vec![1, 2], 3), vec![1, 2, 3]);
    assert_eq!(extended(&vec![], 3), vec![3]);
    assert_eq!(tail_from(&vec![1, 2, 3], 1), vec![2, 3]);
    assert_eq!(tail_from(&vec![1, 2, 3], 3), Vec::<usize>::new());
}

#[test]
fn sorted_copy_orders_and_keeps_repeats() {
    assert_eq!(sorted_copy(&vec![3, 1, 2, 1]), vec![1, 1, 2, 3]);
    assert_eq!(sorted_copy(&vec![]), Vec::<usize>::new());
    assert!(same_sequence(&vec![1, 2], &vec![1, 2]));
    assert!(!same_sequence(&vec![1, 2], &vec![2, 1]));
    assert!(!same_sequence(&vec![1, 2], &vec![1, 2, 3]));
}

#[test]
fn repeated_rings_are_told_by_their_atoms() {
    let rings = vec![
        Box::new(vec![1, 2, 3]),
        Box::new(vec![3, 1, 2]),
        Box::new(vec![1, 2, 2]),
        Box::new(vec![2, 1, 2]),
        Box::new(vec![1, 2]),
    ];
    assert_eq!(repeated_rings(&rings), vec![false, true, false, true, false]);
}

#[test]
fn distinct_sorted_keeps_the_first_and_the_order_within_a_size() {
    let rings = vec![
        Box::new(vec![5, 6, 7, 8]),
        Box::new(vec![1, 2, 3]),
        Box::new(vec![8, 7, 6, 5]),
        Box::new(vec![4, 5, 6]),
        Box::new(vec![9]),
        Box::new(vec![3, 2, 1]),
        Box::new(vec![0, 1, 2]),
    ];
    let out: Vec<Vec<usize>> = distinct_sorted(rings).into_iter().map(|r| *r).collect();
    assert_eq!(out, vec![vec![9], vec![1, 2, 3], vec![4, 5, 6], vec![0, 1, 2], vec![5, 6, 7, 8]]);
}

#[test]
fn a_bond_from_atom_zero_to_itself_gives_a_ring_of_two() {
    let mut mol = carbon_molecule(3, &[(0, 0), (0, 1), (1, 2)]);
    mol.perceive_rings();
    assert_eq!(rings_of(&mol), vec![vec![0, 1]]);
}

#[test]
fn a_bond_from_another_atom_to_itself_gives_a_ring_of_one() {
    let mut mol = carbon_molecule(3, &[(0, 1), (1, 2), (2, 2)]);
    mol.perceive_rings();
    assert_eq!(rings_of(&mol), vec![vec![2]]);
}
