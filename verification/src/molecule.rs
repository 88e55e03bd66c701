use vstd::prelude::*;
use crate::atom::Atom;
use crate::bond::BondType;
use crate::error::Error;
use crate::graph::{
    clone_graph, edge_count, edge_endpoints, edge_weight, empty_graph, graph_atoms, graph_ends,
    graph_incidence, graph_kinds, incident_kinds, kinds_at, neighbors_of, node_count,
    node_weight, set_atom, set_bond_type, MolGraph,
};
use crate::kekule::{
    clear_aromatic_flags, conjugated_rings, is_conjugated, kekule_form, run_passes,
    settle_aromatic_bonds, settled_kind,
};
use crate::rings::{
    all_different, distinct_rings, distinct_sorted, lemma_distinct_sorted, of_size,
    ordered_by_size, ring_views, sorted_by_size,
};
use crate::typing::{default_type, default_typed, resolve_default};
use crate::valence::{
    bond_order, implicit_hydrogens, settle_atom, total_bond_order, valence_exceeded,
    with_valence,
};
use crate::walks::{
    find_rings, is_cycle, lemma_perceived_rings_are_cycles, perceived, rings_within, tail_from,
    views,
};

verus! {

/// A molecule: a graph of atoms and bonds, and the rings that were perceived
/// in it.
#[derive(Debug)]
pub struct Molecule {
    /// The atoms and the bonds between them.
    pub graph: MolGraph,
    /// The rings, each as the indices of its atoms in the order in which the
    /// ring runs through them.
    pub rings: Vec<Box<Vec<usize>>>,
}

impl Clone for Molecule {
    /// A molecule of its own with the same atoms, bonds and rings.
    fn clone(&self) -> (m: Molecule)
        ensures
            m.atoms() == self.atoms(),
            m.bond_ends() == self.bond_ends(),
            m.bond_kinds() == self.bond_kinds(),
            graph_incidence(m.graph) == graph_incidence(self.graph),
            m.ring_atoms() == self.ring_atoms(),
    {
        Molecule { graph: clone_graph(&self.graph), rings: self.copied_rings() }
    }
}

impl Default for Molecule {
    /// A molecule with no atoms, no bonds and no rings.
    fn default() -> (m: Molecule)
        ensures
            m.atoms().len() == 0,
            m.bond_ends().len() == 0,
            m.bond_kinds().len() == 0,
            graph_incidence(m.graph).len() == 0,
            m.rings@.len() == 0,
            m.wf(),
    {
        Molecule::new()
    }
}

impl Molecule {
    /// The atoms, by index.
    pub open spec fn atoms(&self) -> Seq<Atom> {
        graph_atoms(self.graph)
    }

    /// The two atoms of each bond, by bond index.
    pub open spec fn bond_ends(&self) -> Seq<(usize, usize)> {
        graph_ends(self.graph)
    }

    /// The type of each bond, by bond index.
    pub open spec fn bond_kinds(&self) -> Seq<BondType> {
        graph_kinds(self.graph)
    }

    /// The rings, each as the sequence of its atom indices.
    pub open spec fn ring_atoms(&self) -> Seq<Seq<usize>> {
        ring_views(self.rings@)
    }

    /// The bond order at atom `a`.
    pub open spec fn bond_order_at(&self, a: usize) -> nat {
        bond_order(kinds_at(self.graph, a))
    }

    /// Whether every ring runs through atoms of the graph only.
    pub open spec fn wf(&self) -> bool {
        rings_within(self.ring_atoms(), self.atoms().len())
    }

    /// Whether every ring is a cycle of the graph.
    pub open spec fn has_cycles_for_rings(&self) -> bool {
        forall|i: int|
            0 <= i < self.ring_atoms().len() ==> is_cycle(self.graph, #[trigger] self.ring_atoms()[i])
    }

    /// Whether every ring runs through atoms of the graph only.
    pub fn is_well_formed(&self) -> (r: bool)
        ensures
            r == self.wf(),
    {
        let n: usize = node_count(&self.graph);
        let mut i: usize = 0;
        while i < self.rings.len()
            invariant
                i <= self.rings@.len(),
                n == self.atoms().len(),
                forall|a: int, b: int|
                    0 <= a < i && 0 <= b < self.ring_atoms()[a].len() ==> (
                    #[trigger] self.ring_atoms()[a][b]) < n,
            decreases self.rings@.len() - i,
        {
            let ring: &Vec<usize> = &self.rings[i];
            let mut j: usize = 0;
            while j < ring.len()
                invariant
                    j <= ring@.len(),
                    i < self.rings@.len(),
                    n == self.atoms().len(),
                    ring@ == self.ring_atoms()[i as int],
                    forall|b: int| 0 <= b < j ==> (#[trigger] ring@[b]) < n,
                decreases ring@.len() - j,
            {
                if ring[j] >= n {
                    proof {
                        assert(self.ring_atoms()[i as int][j as int] >= n);
                    }
                    return false;
                }
                j += 1;
            }
            i += 1;
        }
        true
    }

    /// A molecule with no atoms, no bonds and no rings.
    pub fn new() -> (m: Molecule)
        ensures
            m.atoms().len() == 0,
            m.bond_ends().len() == 0,
            m.bond_kinds().len() == 0,
            graph_incidence(m.graph).len() == 0,
            m.rings@.len() == 0,
            m.wf(),
    {
        Molecule { graph: empty_graph(), rings: Vec::new() }
    }

    /// Finds the rings of the graph that walks from atom 0 close, adds them
    /// to the rings of the molecule, drops every ring that has the same atoms
    /// as a ring before it, and orders the rings by size.
    ///
    /// On a graph with fewer than three atoms nothing happens. Rings in a part
    /// of the graph that is not connected to atom 0 are not found.
    pub fn perceive_rings(&mut self)
        ensures
            final(self).graph == old(self).graph,
            old(self).atoms().len() < 3 ==> final(self).rings == old(self).rings,
            old(self).atoms().len() >= 3 ==> {
                &&& final(self).ring_atoms() == sorted_by_size(
                    distinct_rings(old(self).ring_atoms() + perceived(old(self).graph)),
                )
                &&& ordered_by_size(final(self).ring_atoms())
                &&& forall|size: nat| #[trigger]
                    of_size(final(self).ring_atoms(), size) == of_size(
                        distinct_rings(old(self).ring_atoms() + perceived(old(self).graph)),
                        size,
                    )
                &&& all_different(final(self).ring_atoms())
            },
            old(self).wf() ==> final(self).wf(),
            forall|ring: Seq<usize>| #[trigger]
                final(self).ring_atoms().contains(ring) ==> old(self).ring_atoms().contains(ring)
                    || perceived(old(self).graph).contains(ring),
            old(self).has_cycles_for_rings() && !neighbors_of(old(self).graph, 0).contains(0)
                ==> final(self).has_cycles_for_rings(),
    {
        let n: usize = node_count(&self.graph);
        if n < 3 {
            return ;
        }
        proof {
            if !neighbors_of(self.graph, 0).contains(0) {
                lemma_perceived_rings_are_cycles(self.graph);
            }
        }
        let found: Vec<Vec<usize>> = find_rings(&self.graph);
        let mut all: Vec<Box<Vec<usize>>> = Vec::new();
        core::mem::swap(&mut self.rings, &mut all);
        let ghost before = ring_views(all@);
        let mut i: usize = 0;
        proof {
            assert(ring_views(all@) =~= before + views(found@).take(0));
        }
        while i < found.len()
            invariant
                i <= found@.len(),
                ring_views(all@) == before + views(found@).take(i as int),
            decreases found@.len() - i,
        {
            let ghost all_before = all@;
            let ring: Vec<usize> = tail_from(&found[i], 0);
            proof {
                assert(ring@ =~= found@[i as int]@);
            }
            all.push(Box::new(ring));
            proof {
                assert(ring_views(all@) =~= ring_views(all_before).push(ring@));
                assert(views(found@).take(i + 1) =~= views(found@).take(i as int).push(
                    found@[i as int]@,
                ));
                assert(ring_views(all@) =~= before + views(found@).take(i + 1));
            }
            i += 1;
        }
        let ghost raw = ring_views(all@);
        proof {
            assert(views(found@).take(i as int) =~= views(found@));
            lemma_distinct_sorted(raw);
        }
        self.rings = distinct_sorted(all);
        proof {
            let out = self.ring_atoms();
            assert forall|ring: Seq<usize>| #[trigger] out.contains(ring) implies old(
                self,
            ).ring_atoms().contains(ring) || perceived(old(self).graph).contains(ring) by {
                assert(raw.contains(ring));
                let k = choose|k: int| 0 <= k < raw.len() && raw[k] == ring;
                if k < before.len() {
                    assert(old(self).ring_atoms()[k] == ring);
                } else {
                    assert(perceived(old(self).graph)[k - before.len()] == ring);
                }
            }
            if old(self).has_cycles_for_rings() && !neighbors_of(old(self).graph, 0).contains(0) {
                assert forall|i: int| 0 <= i < out.len() implies is_cycle(
                    self.graph,
                    #[trigger] out[i],
                ) by {
                    assert(out.contains(out[i]));
                    if old(self).ring_atoms().contains(out[i]) {
                        let k = choose|k: int|
                            0 <= k < old(self).ring_atoms().len() && old(self).ring_atoms()[k]
                                == out[i];
                        assert(is_cycle(self.graph, old(self).ring_atoms()[k]));
                    } else {
                        let k = choose|k: int|
                            0 <= k < perceived(old(self).graph).len() && perceived(
                                old(self).graph,
                            )[k] == out[i];
                        assert(is_cycle(self.graph, perceived(old(self).graph)[k]));
                    }
                }
            }
            if old(self).wf() {
                let out = self.ring_atoms();
                assert forall|a: int, b: int| 0 <= a < out.len() && 0 <= b < out[a].len() implies (
                #[trigger] out[a][b]) < n by {
                    assert(out.contains(out[a]));
                    assert(raw.contains(out[a]));
                    let k = choose|k: int| 0 <= k < raw.len() && raw[k] == out[a];
                    if k < before.len() {
                        assert(raw[k] == old(self).ring_atoms()[k]);
                    } else {
                        assert(raw[k] == views(found@)[k - before.len()]);
                    }
                }
            }
        }
    }

    /// Gives every bond that has no type yet its default type: aromatic
    /// between two aromatic atoms, single otherwise. Bonds that have a type
    /// keep it, and nothing but bond types changes.
    pub fn perceive_default_bonds(&mut self)
        ensures
            final(self).bond_kinds() == default_typed(
                old(self).atoms(),
                old(self).bond_ends(),
                old(self).bond_kinds(),
            ),
            forall|e: int|
                0 <= e < final(self).bond_kinds().len() ==> #[trigger] final(self).bond_kinds()[e]
                    != BondType::Default,
            final(self).bond_ends() == old(self).bond_ends(),
            final(self).atoms() == old(self).atoms(),
            graph_incidence(final(self).graph) == graph_incidence(old(self).graph),
            final(self).rings == old(self).rings,
    {
        let ghost atoms = self.atoms();
        let ghost ends = self.bond_ends();
        let ghost before = self.bond_kinds();
        let count: usize = edge_count(&self.graph);
        let mut e: usize = 0;
        while e < count
            invariant
                e <= count,
                count == before.len(),
                count == ends.len(),
                self.atoms() == atoms,
                self.bond_ends() == ends,
                self.rings == old(self).rings,
                graph_incidence(self.graph) == graph_incidence(old(self).graph),
                self.bond_kinds().len() == before.len(),
                forall|k: int|
                    0 <= k < e ==> #[trigger] self.bond_kinds()[k] == default_typed(
                        atoms,
                        ends,
                        before,
                    )[k],
                forall|k: int| e <= k < count ==> #[trigger] self.bond_kinds()[k] == before[k],
            decreases count - e,
        {
            let kind: BondType = edge_weight(&self.graph, e).unwrap();
            let pair: (usize, usize) = edge_endpoints(&self.graph, e).unwrap();
            let source: Atom = node_weight(&self.graph, pair.0).unwrap();
            let target: Atom = node_weight(&self.graph, pair.1).unwrap();
            let resolved: BondType = resolve_default(kind, source.aromatic, target.aromatic);
            proof {
                assert(resolved == default_type(kind, source, target));
                assert(resolved == default_typed(atoms, ends, before)[e as int]);
            }
            set_bond_type(&mut self.graph, e, resolved);
            e += 1;
        }
        proof {
            assert(self.bond_kinds() =~= default_typed(atoms, ends, before));
        }
    }

    /// Counts the implicit hydrogens, or else the unpaired electrons, of every
    /// atom from the bond order at it.
    ///
    /// Fails with `Error::ValenceExceeded`, and changes nothing, where the
    /// bond order at some atom is more than the atom can have. Otherwise every
    /// atom is replaced by what `with_valence` gives for it at the bond order
    /// that it had at the call, and nothing else changes.
    pub fn perceive_implicit_hydrogens(&mut self) -> (r: Result<(), Error>)
        ensures
            r is Err <==> exists|a: int|
                0 <= a < old(self).atoms().len() && valence_exceeded(
                    #[trigger] old(self).atoms()[a],
                    old(self).bond_order_at(a as usize),
                ),
            r matches Err(e) ==> e == Error::ValenceExceeded && *final(self) == *old(self),
            r is Ok ==> {
                &&& final(self).atoms().len() == old(self).atoms().len()
                &&& forall|a: int|
                    0 <= a < old(self).atoms().len() ==> #[trigger] final(self).atoms()[a]
                        == with_valence(old(self).atoms()[a], old(self).bond_order_at(a as usize))
                &&& final(self).bond_ends() == old(self).bond_ends()
                &&& final(self).bond_kinds() == old(self).bond_kinds()
                &&& graph_incidence(final(self).graph) == graph_incidence(old(self).graph)
                &&& final(self).rings == old(self).rings
            },
    {
        let ghost before = self.atoms();
        let count: usize = node_count(&self.graph);
        let mut settled: Vec<Atom> = Vec::new();
        let mut a: usize = 0;
        while a < count
            invariant
                a <= count,
                count == before.len(),
                *self == *old(self),
                before == self.atoms(),
                settled@.len() == a,
                forall|k: int|
                    0 <= k < a ==> !valence_exceeded(
                        #[trigger] before[k],
                        self.bond_order_at(k as usize),
                    ),
                forall|k: int|
                    0 <= k < a ==> #[trigger] settled@[k] == with_valence(
                        before[k],
                        self.bond_order_at(k as usize),
                    ),
            decreases count - a,
        {
            let atom: Atom = node_weight(&self.graph, a).unwrap();
            let kinds: Vec<BondType> = incident_kinds(&self.graph, a);
            let order: u8 = total_bond_order(&kinds);
            match implicit_hydrogens(&atom, order) {
                None => {
                    return Err(Error::ValenceExceeded);
                },
                Some(h) => {
                    let next: Atom = settle_atom(&atom, h);
                    proof {
                        assert(next == with_valence(atom, order as nat));
                    }
                    settled.push(next);
                },
            }
            a += 1;
        }
        let mut b: usize = 0;
        while b < count
            invariant
                b <= count,
                count == before.len(),
                before == old(self).atoms(),
                settled@.len() == count,
                forall|k: int|
                    0 <= k < count ==> !valence_exceeded(
                        #[trigger] before[k],
                        old(self).bond_order_at(k as usize),
                    ),
                forall|k: int|
                    0 <= k < count ==> #[trigger] settled@[k] == with_valence(
                        before[k],
                        old(self).bond_order_at(k as usize),
                    ),
                self.atoms().len() == count,
                self.bond_ends() == old(self).bond_ends(),
                self.bond_kinds() == old(self).bond_kinds(),
                graph_incidence(self.graph) == graph_incidence(old(self).graph),
                self.rings == old(self).rings,
                forall|k: int| 0 <= k < b ==> #[trigger] self.atoms()[k] == settled@[k],
                forall|k: int| b <= k < count ==> #[trigger] self.atoms()[k] == before[k],
            decreases count - b,
        {
            set_atom(&mut self.graph, b, settled[b]);
            b += 1;
        }
        Ok(())
    }

    /// The conjugated rings among the rings of the molecule, in their order.
    pub fn conjugated_among(&self) -> (found: Vec<Vec<usize>>)
        requires
            self.wf(),
        ensures
            views(found@) == conjugated_rings(self.graph, self.ring_atoms()),
            rings_within(views(found@), self.atoms().len()),
    {
        let ghost rs = self.ring_atoms();
        let mut found: Vec<Vec<usize>> = Vec::new();
        let mut i: usize = 0;
        proof {
            assert(views(found@) =~= conjugated_rings(self.graph, rs.take(0)));
        }
        while i < self.rings.len()
            invariant
                i <= self.rings@.len(),
                rs == self.ring_atoms(),
                self.wf(),
                views(found@) == conjugated_rings(self.graph, rs.take(i as int)),
                rings_within(views(found@), self.atoms().len()),
            decreases self.rings@.len() - i,
        {
            let ring: &Vec<usize> = &self.rings[i];
            proof {
                assert(rs[i as int] == ring@);
                assert(rs.take(i + 1).drop_last() =~= rs.take(i as int));
                assert(rs.take(i + 1).last() == ring@);
                assert forall|k: int| 0 <= k < ring@.len() implies (#[trigger] ring@[k])
                    < self.atoms().len() by {
                    assert(rs[i as int][k] == ring@[k]);
                }
            }
            if is_conjugated(&self.graph, ring) {
                let ghost before = found@;
                let copy: Vec<usize> = tail_from(ring, 0);
                found.push(copy);
                proof {
                    assert(copy@ =~= ring@);
                    assert(views(found@) =~= views(before).push(ring@));
                    assert forall|a: int, b: int|
                        0 <= a < views(found@).len() && 0 <= b < views(
                            found@,
                        )[a].len() implies (#[trigger] views(found@)[a][b]) < self.atoms().len() by {
                        if a < before.len() {
                            assert(views(found@)[a] == views(before)[a]);
                        } else {
                            assert(views(found@)[a][b] == rs[i as int][b]);
                        }
                    }
                }
            }
            i += 1;
        }
        proof {
            assert(rs.take(i as int) =~= rs);
        }
        found
    }

    /// A copy of the rings of the molecule.
    pub fn copied_rings(&self) -> (copy: Vec<Box<Vec<usize>>>)
        ensures
            ring_views(copy@) == self.ring_atoms(),
    {
        let mut copy: Vec<Box<Vec<usize>>> = Vec::new();
        let mut i: usize = 0;
        while i < self.rings.len()
            invariant
                i <= self.rings@.len(),
                copy@.len() == i,
                forall|k: int| 0 <= k < i ==> (#[trigger] copy@[k])@ == self.rings@[k]@,
            decreases self.rings@.len() - i,
        {
            let ring: Vec<usize> = tail_from(&self.rings[i], 0);
            proof {
                assert(ring@ =~= self.rings@[i as int]@);
            }
            copy.push(Box::new(ring));
            i += 1;
        }
        proof {
            assert(ring_views(copy@) =~= self.ring_atoms());
        }
        copy
    }

    /// The kekulized form of the molecule: a new molecule in which the
    /// aromatic bonds of the conjugated rings are single and double bonds in
    /// turn. The molecule itself stays as it is.
    ///
    /// The bond types of the result are those of `kekule_form`; it has the
    /// same atoms, but none of them aromatic, the same bonds between them,
    /// none of them aromatic, and the same rings. Where `kekule_form` has
    /// no result, this fails in the same way: with
    /// `Error::IsolatedAromaticAtom` where an atom that needs a double bond
    /// has no neighbour in its ring that can share one, and with
    /// `Error::KekulizationStuck` where a pass has met nothing but paths
    /// with an odd number of atoms.
    pub fn kekulized(&self) -> (r: Result<Molecule, Error>)
        requires
            self.wf(),
        ensures
            match kekule_form(self.graph, self.ring_atoms()) {
                Err(e) => r matches Err(f) && f == e,
                Ok(kinds) => r matches Ok(m) && {
                    &&& m.bond_kinds() == kinds
                    &&& m.bond_ends() == self.bond_ends()
                    &&& graph_incidence(m.graph) == graph_incidence(self.graph)
                    &&& m.atoms() == self.atoms().map_values(|a: Atom| a.without_aromaticity())
                    &&& m.ring_atoms() == self.ring_atoms()
                },
            },
            r matches Ok(m) ==> {
                &&& m.wf()
                &&& m.bond_kinds().len() == self.bond_kinds().len()
                &&& forall|e: int|
                    0 <= e < m.bond_kinds().len() ==> #[trigger] m.bond_kinds()[e]
                        != BondType::Aromatic
                &&& forall|e: int|
                    0 <= e < m.bond_kinds().len() ==> #[trigger] m.bond_kinds()[e]
                        == BondType::Double || m.bond_kinds()[e] == settled_kind(
                        self.bond_kinds()[e],
                    )
                &&& forall|a: int| 0 <= a < m.atoms().len() ==> !(#[trigger] m.atoms()[a]).aromatic
            },
    {
        let mut graph: MolGraph = clone_graph(&self.graph);
        let rings: Vec<Vec<usize>> = self.conjugated_among();
        match run_passes(&self.graph, &mut graph, &rings) {
            Err(e) => {
                return Err(e);
            },
            Ok(()) => {},
        }
        settle_aromatic_bonds(&mut graph);
        clear_aromatic_flags(&mut graph);
        let copy: Vec<Box<Vec<usize>>> = self.copied_rings();
        Ok(Molecule { graph, rings: copy })
    }
}

} // verus!
