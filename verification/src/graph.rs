//! The molecular graph, and what the perception passes rely on from it.
//!
//! The graph is a `petgraph::Graph` with undirected edges. None of its code
//! is verified here. This module names what such a graph holds and states,
//! for each of its methods that the passes call, what the method returns and
//! changes. Everything proved about the passes rests on these statements.

use vstd::prelude::*;
use petgraph::graph::{EdgeIndex, Graph, NodeIndex};
use petgraph::Undirected;
use crate::atom::Atom;
use crate::bond::BondType;

verus! {

#[verifier::external_type_specification]
#[verifier::external_body]
#[verifier::reject_recursive_types(N)]
#[verifier::reject_recursive_types(E)]
#[verifier::reject_recursive_types(Ty)]
#[verifier::reject_recursive_types(Ix)]
pub struct ExGraph<N, E, Ty, Ix>(Graph<N, E, Ty, Ix>);

#[verifier::external_type_specification]
#[verifier::external_body]
pub struct ExUndirected(Undirected);

/// An undirected graph of atoms joined by bonds. Atoms and bonds are numbered
/// from zero without gaps.
pub type MolGraph = Graph<Atom, BondType, Undirected, usize>;

/// The atoms of the graph, by atom index.
pub uninterp spec fn graph_atoms(g: Graph<Atom, BondType, Undirected, usize>) -> Seq<Atom>;

/// For each bond, by bond index, the two atoms that it joins: first the one
/// that was given first when the bond was added, its source, then the other,
/// its target. The bond itself has no direction.
pub uninterp spec fn graph_ends(g: Graph<Atom, BondType, Undirected, usize>) -> Seq<(usize, usize)>;

/// The type of each bond, by bond index.
pub uninterp spec fn graph_kinds(g: Graph<Atom, BondType, Undirected, usize>) -> Seq<BondType>;

/// For each atom, by atom index, the indices of the bonds at that atom, in
/// the order in which the graph walks them: first the bonds that were added
/// with the atom as their source, then the others. A bond from an atom to
/// itself is listed once.
pub uninterp spec fn graph_incidence(g: Graph<Atom, BondType, Undirected, usize>) -> Seq<
    Seq<usize>,
>;

/// The atom at the other end of a bond between `ends`, seen from atom `a`.
/// For a bond from an atom to itself this is `a` again.
pub open spec fn other_end(ends: (usize, usize), a: usize) -> usize {
    if ends.0 == a {
        ends.1
    } else {
        ends.0
    }
}

/// The indices of the bonds at atom `a`, in the order in which the graph
/// walks them; none where the graph has no atom `a`.
pub open spec fn bonds_at(g: MolGraph, a: usize) -> Seq<usize> {
    if a < graph_incidence(g).len() {
        graph_incidence(g)[a as int]
    } else {
        Seq::empty()
    }
}

/// The atoms at the other ends of the bonds at atom `a`, in the order of
/// `bonds_at`. An atom joined to `a` by several bonds is listed once for each.
pub open spec fn neighbors_of(g: MolGraph, a: usize) -> Seq<usize> {
    bonds_at(g, a).map_values(|e: usize| other_end(graph_ends(g)[e as int], a))
}

/// The types that the bonds at atom `a` have in `kinds`, a list of types by
/// bond index, in the order of `bonds_at`.
pub open spec fn kinds_around(g: MolGraph, kinds: Seq<BondType>, a: usize) -> Seq<BondType> {
    bonds_at(g, a).map_values(|e: usize| kinds[e as int])
}

/// The types of the bonds at atom `a`, in the order of `bonds_at`.
pub open spec fn kinds_at(g: MolGraph, a: usize) -> Seq<BondType> {
    kinds_around(g, graph_kinds(g), a)
}

/// The first bond at atom `a`, in the order of `bonds_at`, that leads to
/// atom `b`.
pub open spec fn first_joining(g: MolGraph, a: usize, b: usize) -> Option<usize> {
    match neighbors_of(g, a).index_of_first(b) {
        Some(k) => Some(bonds_at(g, a)[k]),
        None => None,
    }
}

/// Whether two graphs have the same bonds between the same atoms, in the
/// same order at each atom. The atoms themselves and the types of the bonds
/// may differ.
pub open spec fn same_skeleton(g: MolGraph, h: MolGraph) -> bool {
    &&& graph_atoms(g).len() == graph_atoms(h).len()
    &&& graph_incidence(g) == graph_incidence(h)
    &&& graph_ends(g) == graph_ends(h)
}

/// In two graphs with the same skeleton every atom has the same bonds and
/// the same neighbours, and the same bond is found first between two atoms.
pub proof fn lemma_same_skeleton(g: MolGraph, h: MolGraph, a: usize)
    requires
        same_skeleton(g, h),
    ensures
        bonds_at(g, a) == bonds_at(h, a),
        neighbors_of(g, a) == neighbors_of(h, a),
        forall|b: usize| #[trigger] first_joining(g, a, b) == first_joining(h, a, b),
        forall|kinds: Seq<BondType>| #[trigger] kinds_around(g, kinds, a) == kinds_around(h, kinds, a),
{
    assert(neighbors_of(g, a) =~= neighbors_of(h, a));
    assert forall|kinds: Seq<BondType>| #[trigger]
        kinds_around(g, kinds, a) == kinds_around(h, kinds, a) by {
        assert(kinds_around(g, kinds, a) =~= kinds_around(h, kinds, a));
    }
}

/// `Graph::default`: a graph with no atoms and no bonds.
#[verifier::external_body]
pub(crate) fn empty_graph() -> (g: MolGraph)
    ensures
        graph_atoms(g) == Seq::<Atom>::empty(),
        graph_ends(g) == Seq::<(usize, usize)>::empty(),
        graph_kinds(g) == Seq::<BondType>::empty(),
        graph_incidence(g) == Seq::<Seq<usize>>::empty(),
{
    Graph::default()
}

/// `Graph::clone`: the copy holds the same atoms and bonds, and walks the
/// bonds at each atom in the same order.
#[verifier::external_body]
pub(crate) fn clone_graph(g: &MolGraph) -> (h: MolGraph)
    ensures
        graph_atoms(h) == graph_atoms(*g),
        graph_ends(h) == graph_ends(*g),
        graph_kinds(h) == graph_kinds(*g),
        graph_incidence(h) == graph_incidence(*g),
{
    g.clone()
}

/// `Graph::node_count`: the number of atoms. There is one list of bonds for
/// each atom.
#[verifier::external_body]
pub(crate) fn node_count(g: &MolGraph) -> (n: usize)
    ensures
        n == graph_atoms(*g).len(),
        n == graph_incidence(*g).len(),
{
    g.node_count()
}

/// `Graph::edge_count`: the number of bonds.
#[verifier::external_body]
pub(crate) fn edge_count(g: &MolGraph) -> (n: usize)
    ensures
        n == graph_ends(*g).len(),
        n == graph_kinds(*g).len(),
{
    g.edge_count()
}

/// `Graph::node_weight`: the atom with index `a`, or `None` where the graph
/// has no such atom.
#[verifier::external_body]
pub(crate) fn node_weight(g: &MolGraph, a: usize) -> (atom: Option<Atom>)
    ensures
        atom == (if a < graph_atoms(*g).len() {
            Some(graph_atoms(*g)[a as int])
        } else {
            None
        }),
{
    g.node_weight(NodeIndex::new(a)).copied()
}

/// `Graph::edge_weight`: the type of the bond with index `e`, or `None`
/// where the graph has no such bond.
#[verifier::external_body]
pub(crate) fn edge_weight(g: &MolGraph, e: usize) -> (kind: Option<BondType>)
    ensures
        kind == (if e < graph_kinds(*g).len() {
            Some(graph_kinds(*g)[e as int])
        } else {
            None
        }),
{
    g.edge_weight(EdgeIndex::new(e)).copied()
}

/// `Graph::edge_endpoints`: the source and the target of the bond with index
/// `e`, both atoms of the graph, or `None` where the graph has no such bond.
#[verifier::external_body]
pub(crate) fn edge_endpoints(g: &MolGraph, e: usize) -> (ends: Option<(usize, usize)>)
    ensures
        ends == (if e < graph_ends(*g).len() {
            Some(graph_ends(*g)[e as int])
        } else {
            None
        }),
        ends matches Some(p) ==> p.0 < graph_atoms(*g).len() && p.1 < graph_atoms(*g).len(),
{
    g.edge_endpoints(EdgeIndex::new(e)).map(|(s, t)| (s.index(), t.index()))
}

/// `Graph::neighbors`: the atoms joined to atom `a`, in the order in which
/// the graph walks the bonds at `a`; all of them are atoms of the graph.
/// Empty where the graph has no atom `a`.
#[verifier::external_body]
pub(crate) fn neighbors(g: &MolGraph, a: usize) -> (atoms: Vec<usize>)
    ensures
        atoms@ == neighbors_of(*g, a),
        forall|i: int| 0 <= i < atoms@.len() ==> (#[trigger] atoms@[i]) < graph_atoms(*g).len(),
{
    g.neighbors(NodeIndex::new(a)).map(|n| n.index()).collect()
}

/// `Graph::edges`: the types of the bonds at atom `a`, in the order in which
/// the graph walks them. Empty where the graph has no atom `a`.
#[verifier::external_body]
pub(crate) fn incident_kinds(g: &MolGraph, a: usize) -> (kinds: Vec<BondType>)
    ensures
        kinds@ == kinds_at(*g, a),
{
    g.edges(NodeIndex::new(a)).map(|e| *e.weight()).collect()
}

/// `Graph::find_edge`: the first bond at atom `a` that leads to atom `b`, or
/// `None` where none of the bonds at `a` leads to `b`. The bond found is a
/// bond of the graph.
#[verifier::external_body]
pub(crate) fn find_edge(g: &MolGraph, a: usize, b: usize) -> (found: Option<usize>)
    ensures
        found == first_joining(*g, a, b),
        found matches Some(e) ==> e < graph_ends(*g).len() && e < graph_kinds(*g).len(),
{
    g.find_edge(NodeIndex::new(a), NodeIndex::new(b)).map(|e| e.index())
}

/// `Graph::update_edge`, for two atoms that a bond joins: the bond that
/// `Graph::find_edge` finds for them gets the type `kind`, and nothing else
/// changes. The index of that bond is returned.
#[verifier::external_body]
pub(crate) fn update_edge(g: &mut MolGraph, a: usize, b: usize, kind: BondType) -> (e: usize)
    requires
        first_joining(*old(g), a, b) is Some,
    ensures
        first_joining(*old(g), a, b) == Some(e),
        e < graph_kinds(*old(g)).len(),
        graph_atoms(*final(g)) == graph_atoms(*old(g)),
        graph_incidence(*final(g)) == graph_incidence(*old(g)),
        graph_ends(*final(g)) == graph_ends(*old(g)),
        graph_kinds(*final(g)) == graph_kinds(*old(g)).update(e as int, kind),
{
    g.update_edge(NodeIndex::new(a), NodeIndex::new(b), kind).index()
}

/// Writing through `Graph::index_mut` at a bond index: the bond with index
/// `e` gets the type `kind`, and nothing else changes.
#[verifier::external_body]
pub(crate) fn set_bond_type(g: &mut MolGraph, e: usize, kind: BondType)
    requires
        e < graph_kinds(*old(g)).len(),
    ensures
        graph_atoms(*final(g)) == graph_atoms(*old(g)),
        graph_incidence(*final(g)) == graph_incidence(*old(g)),
        graph_ends(*final(g)) == graph_ends(*old(g)),
        graph_kinds(*final(g)) == graph_kinds(*old(g)).update(e as int, kind),
{
    g[EdgeIndex::new(e)] = kind;
}

/// Writing through `Graph::index_mut` at an atom index: the atom with index
/// `a` is replaced by `atom`, and nothing else changes.
#[verifier::external_body]
pub(crate) fn set_atom(g: &mut MolGraph, a: usize, atom: Atom)
    requires
        a < graph_atoms(*old(g)).len(),
    ensures
        graph_atoms(*final(g)) == graph_atoms(*old(g)).update(a as int, atom),
        graph_ends(*final(g)) == graph_ends(*old(g)),
        graph_kinds(*final(g)) == graph_kinds(*old(g)),
        graph_incidence(*final(g)) == graph_incidence(*old(g)),
{
    g[NodeIndex::new(a)] = atom;
}

} // verus!
