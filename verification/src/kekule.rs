//! Kekulization: writing the aromatic bonds of conjugated rings as single
//! and double bonds in turn.
//!
//! The rings are gone through again and again. In each ring the atoms that
//! can still take a double bond are gathered into paths along the ring, and
//! every path with an even number of atoms gets a double bond on each second
//! of its bonds. This goes on until a pass meets no path with an odd number
//! of atoms.

use vstd::prelude::*;
use crate::atom::Atom;
use crate::bond::BondType;
use crate::error::Error;
use crate::graph::{
    bonds_at, edge_count, edge_weight, find_edge, first_joining, graph_atoms, graph_kinds,
    incident_kinds, kinds_around, lemma_same_skeleton, neighbors_of, node_count, node_weight,
    same_skeleton, set_atom, set_bond_type, update_edge, MolGraph,
};
use crate::valence::{bond_order, total_bond_order};
use crate::walks::{extended, rings_within, tail_from, views};

verus! {

/// Whether one of the bonds at atom `a` is a double bond, where `kinds`
/// gives the type of each bond of the graph.
pub open spec fn has_double(g: MolGraph, kinds: Seq<BondType>, a: usize) -> bool {
    kinds_around(g, kinds, a).contains(BondType::Double)
}

/// Whether a ring is conjugated: each of its atoms is aromatic or has a
/// double bond, in the ring or out of it.
pub open spec fn conjugated(g: MolGraph, ring: Seq<usize>) -> bool {
    forall|i: int|
        0 <= i < ring.len() ==> graph_atoms(g)[(#[trigger] ring[i]) as int].aromatic || has_double(
            g,
            graph_kinds(g),
            ring[i],
        )
}

/// The conjugated rings among `rings`, in their order.
pub open spec fn conjugated_rings(g: MolGraph, rings: Seq<Seq<usize>>) -> Seq<Seq<usize>>
    decreases rings.len(),
{
    if rings.len() == 0 {
        Seq::empty()
    } else if conjugated(g, rings.last()) {
        conjugated_rings(g, rings.drop_last()).push(rings.last())
    } else {
        conjugated_rings(g, rings.drop_last())
    }
}

/// Whether atom `a` can still take a double bond, where `kinds` gives the
/// type of each bond: it has none, and its bond order and its implicit
/// hydrogens together are not more than its largest valence.
pub open spec fn can_take_double(g: MolGraph, kinds: Seq<BondType>, a: usize) -> bool {
    let atom = graph_atoms(g)[a as int];
    !has_double(g, kinds, a) && bond_order(kinds_around(g, kinds, a)) + atom.num_imp_h
        <= atom.atomic_symbol.valence(atom.charge, true)
}

/// Whether one of the bonds at atom `a` leads to atom `b`.
pub open spec fn joined(g: MolGraph, a: usize, b: usize) -> bool {
    first_joining(g, a, b) is Some
}

/// Whether each atom of the path is joined to the next by a bond.
pub open spec fn linked(g: MolGraph, path: Seq<usize>) -> bool {
    forall|i: int| 0 <= i < path.len() - 1 ==> joined(g, #[trigger] path[i], path[i + 1])
}

/// A path after atom `a` was offered to it: with `a` at its end where its
/// last atom is joined to `a`, else with `a` at its front where `a` is joined
/// to its first atom, else as it was.
pub open spec fn path_with(g: MolGraph, path: Seq<usize>, a: usize) -> Seq<usize> {
    if joined(g, path.last(), a) {
        path.push(a)
    } else if joined(g, a, path.first()) {
        seq![a] + path
    } else {
        path
    }
}

/// Whether one of the paths holds atom `a`.
pub open spec fn holds_atom(paths: Seq<Seq<usize>>, a: usize) -> bool {
    exists|k: int| 0 <= k < paths.len() && (#[trigger] paths[k]).contains(a)
}

/// The paths after atom `a` was offered to each of them, and a new path of
/// `a` alone at the end where none of them holds `a` then.
pub open spec fn paths_with(g: MolGraph, paths: Seq<Seq<usize>>, a: usize) -> Seq<Seq<usize>> {
    let offered = paths.map_values(|p: Seq<usize>| path_with(g, p, a));
    if holds_atom(offered, a) {
        offered
    } else {
        offered.push(seq![a])
    }
}

/// The paths of a ring: its atoms that can still take a double bond, taken
/// in the order of the ring and gathered into paths along the bonds of the
/// graph.
pub open spec fn open_paths(g: MolGraph, kinds: Seq<BondType>, ring: Seq<usize>) -> Seq<Seq<usize>>
    decreases ring.len(),
{
    if ring.len() == 0 {
        Seq::empty()
    } else if can_take_double(g, kinds, ring.last()) {
        paths_with(g, open_paths(g, kinds, ring.drop_last()), ring.last())
    } else {
        open_paths(g, kinds, ring.drop_last())
    }
}

/// The bond types after the first `pairs` pairs of atoms of the path got a
/// double bond each: between the first atom and the second, between the
/// third and the fourth, and so on. The bond of a pair is the first that
/// joins its first atom to its second.
pub open spec fn doubled(g: MolGraph, kinds: Seq<BondType>, path: Seq<usize>, pairs: nat) -> Seq<
    BondType,
>
    decreases pairs,
{
    if pairs == 0 {
        kinds
    } else {
        let before = doubled(g, kinds, path, (pairs - 1) as nat);
        match first_joining(g, path[2 * (pairs - 1)], path[2 * (pairs - 1) + 1]) {
            Some(e) => before.update(e as int, BondType::Double),
            None => before,
        }
    }
}

/// How far a pass has come: the bond types, whether it has met a path with
/// an odd number of atoms, and whether it has met one with an even number.
pub struct Tally {
    pub kinds: Seq<BondType>,
    pub odd: bool,
    pub even: bool,
}

/// A pass after one more path. A path of one atom ends kekulization. A path
/// with an odd number of atoms is left for a later pass. A path with an even
/// number of atoms gets its double bonds.
pub open spec fn settle_path(g: MolGraph, tally: Tally, path: Seq<usize>) -> Result<Tally, Error> {
    if path.len() == 1 {
        Err(Error::IsolatedAromaticAtom)
    } else if path.len() % 2 == 1 {
        Ok(Tally { kinds: tally.kinds, odd: true, even: tally.even })
    } else {
        Ok(
            Tally {
                kinds: doubled(g, tally.kinds, path, path.len() / 2),
                odd: tally.odd,
                even: true,
            },
        )
    }
}

/// A pass after the paths, in their order.
pub open spec fn settle_paths(g: MolGraph, tally: Tally, paths: Seq<Seq<usize>>) -> Result<
    Tally,
    Error,
>
    decreases paths.len(),
{
    if paths.len() == 0 {
        Ok(tally)
    } else {
        match settle_paths(g, tally, paths.drop_last()) {
            Err(e) => Err(e),
            Ok(t) => settle_path(g, t, paths.last()),
        }
    }
}

/// A pass after one more ring: the paths of the ring are gathered with the
/// bond types as they are when the pass comes to the ring.
pub open spec fn settle_ring(g: MolGraph, tally: Tally, ring: Seq<usize>) -> Result<Tally, Error> {
    settle_paths(g, tally, open_paths(g, tally.kinds, ring))
}

/// A pass after the rings, in their order.
pub open spec fn settle_rings(g: MolGraph, tally: Tally, rings: Seq<Seq<usize>>) -> Result<
    Tally,
    Error,
>
    decreases rings.len(),
{
    if rings.len() == 0 {
        Ok(tally)
    } else {
        match settle_rings(g, tally, rings.drop_last()) {
            Err(e) => Err(e),
            Ok(t) => settle_ring(g, t, rings.last()),
        }
    }
}

/// One pass over the rings, from the bond types `kinds`.
pub open spec fn one_pass(g: MolGraph, kinds: Seq<BondType>, rings: Seq<Seq<usize>>) -> Result<
    Tally,
    Error,
> {
    settle_rings(g, Tally { kinds, odd: false, even: false }, rings)
}

/// The bond types after as many passes as it takes, at most `passes` more
/// than one. A pass that meets no path with an odd number of atoms is the
/// last. A pass that meets such paths and no others ends kekulization: it
/// has changed nothing, and no later pass would.
pub open spec fn kekule_passes(
    g: MolGraph,
    kinds: Seq<BondType>,
    rings: Seq<Seq<usize>>,
    passes: nat,
) -> Result<Seq<BondType>, Error>
    decreases passes,
{
    match one_pass(g, kinds, rings) {
        Err(e) => Err(e),
        Ok(t) => if !t.odd {
            Ok(t.kinds)
        } else if !t.even || passes == 0 {
            Err(Error::KekulizationStuck)
        } else {
            kekule_passes(g, t.kinds, rings, (passes - 1) as nat)
        },
    }
}

/// A bond type after kekulization: what was left aromatic is single.
pub open spec fn settled_kind(kind: BondType) -> BondType {
    if kind == BondType::Aromatic {
        BondType::Single
    } else {
        kind
    }
}

/// The bond types of the kekulized form of a graph with these rings, or why
/// there is none. Every pass but the last gives a double bond to a bond that
/// had none, so there are never more passes than bonds.
pub open spec fn kekule_form(g: MolGraph, rings: Seq<Seq<usize>>) -> Result<Seq<BondType>, Error> {
    match kekule_passes(g, graph_kinds(g), conjugated_rings(g, rings), graph_kinds(g).len()) {
        Err(e) => Err(e),
        Ok(kinds) => Ok(kinds.map_values(|k: BondType| settled_kind(k))),
    }
}

/// Whether the bond types `after` are the bond types `before` but for bonds
/// that have become double bonds.
pub open spec fn only_doubled(before: Seq<BondType>, after: Seq<BondType>) -> bool {
    &&& after.len() == before.len()
    &&& forall|e: int|
        0 <= e < before.len() ==> #[trigger] after[e] == BondType::Double || after[e] == before[e]
}

/// The number of bonds that are not double bonds.
pub open spec fn undoubled(kinds: Seq<BondType>) -> nat
    decreases kinds.len(),
{
    if kinds.len() == 0 {
        0
    } else if kinds.last() == BondType::Double {
        undoubled(kinds.drop_last())
    } else {
        undoubled(kinds.drop_last()) + 1
    }
}

/// Making a bond a double bond leaves no more bonds that are not, and fewer
/// where the bond was none before.
pub proof fn lemma_undoubled_update(kinds: Seq<BondType>, e: int)
    requires
        0 <= e < kinds.len(),
    ensures
        undoubled(kinds) <= kinds.len(),
        undoubled(kinds.update(e, BondType::Double)) <= undoubled(kinds),
        kinds[e] != BondType::Double ==> undoubled(kinds.update(e, BondType::Double)) < undoubled(
            kinds,
        ),
    decreases kinds.len(),
{
    let after = kinds.update(e, BondType::Double);
    if e == kinds.len() - 1 {
        assert(after.drop_last() =~= kinds.drop_last());
        lemma_undoubled_bound(kinds.drop_last());
    } else {
        assert(after.drop_last() =~= kinds.drop_last().update(e, BondType::Double));
        lemma_undoubled_update(kinds.drop_last(), e);
    }
}

/// There are no more bonds that are not double bonds than bonds.
pub proof fn lemma_undoubled_bound(kinds: Seq<BondType>)
    ensures
        undoubled(kinds) <= kinds.len(),
    decreases kinds.len(),
{
    if kinds.len() > 0 {
        lemma_undoubled_bound(kinds.drop_last());
    }
}

/// Whether `x` occurs in `v`.
pub fn holds(v: &Vec<usize>, x: usize) -> (found: bool)
    ensures
        found == v@.contains(x),
{
    let mut i: usize = 0;
    while i < v.len()
        invariant
            i <= v@.len(),
            forall|k: int| 0 <= k < i ==> v@[k] != x,
        decreases v@.len() - i,
    {
        if v[i] == x {
            return true;
        }
        i += 1;
    }
    false
}

/// A copy of `path` with `atom` at its front.
pub fn prepended(path: &Vec<usize>, atom: usize) -> (r: Vec<usize>)
    ensures
        r@ == seq![atom] + path@,
{
    let mut r: Vec<usize> = Vec::new();
    r.push(atom);
    let mut i: usize = 0;
    while i < path.len()
        invariant
            i <= path@.len(),
            r@ == seq![atom] + path@.take(i as int),
        decreases path@.len() - i,
    {
        r.push(path[i]);
        proof {
            assert((seq![atom] + path@.take(i as int)).push(path@[i as int]) =~= seq![atom]
                + path@.take(i + 1));
        }
        i += 1;
    }
    proof {
        assert(path@.take(i as int) =~= path@);
    }
    r
}

/// Whether one of the bonds at atom `a` is a double bond.
pub fn has_double_bond(g: &MolGraph, a: usize) -> (found: bool)
    ensures
        found == has_double(*g, graph_kinds(*g), a),
{
    let kinds: Vec<BondType> = incident_kinds(g, a);
    let mut i: usize = 0;
    while i < kinds.len()
        invariant
            i <= kinds@.len(),
            kinds@ == kinds_around(*g, graph_kinds(*g), a),
            forall|k: int| 0 <= k < i ==> kinds@[k] != BondType::Double,
        decreases kinds@.len() - i,
    {
        if let BondType::Double = kinds[i] {
            proof {
                let around = kinds_around(*g, graph_kinds(*g), a);
                assert(around == kinds@);
                assert(around[i as int] == BondType::Double);
            }
            return true;
        }
        i += 1;
    }
    false
}

/// Whether a ring is conjugated.
pub fn is_conjugated(g: &MolGraph, ring: &Vec<usize>) -> (r: bool)
    requires
        forall|i: int| 0 <= i < ring@.len() ==> (#[trigger] ring@[i]) < graph_atoms(*g).len(),
    ensures
        r == conjugated(*g, ring@),
{
    let mut i: usize = 0;
    while i < ring.len()
        invariant
            i <= ring@.len(),
            forall|k: int| 0 <= k < ring@.len() ==> (#[trigger] ring@[k]) < graph_atoms(*g).len(),
            forall|k: int|
                0 <= k < i ==> graph_atoms(*g)[(#[trigger] ring@[k]) as int].aromatic || has_double(
                    *g,
                    graph_kinds(*g),
                    ring@[k],
                ),
        decreases ring@.len() - i,
    {
        let atom: Atom = node_weight(g, ring[i]).unwrap();
        if !atom.aromatic {
            if !has_double_bond(g, ring[i]) {
                return false;
            }
        }
        i += 1;
    }
    true
}

/// Whether atom `a` can still take a double bond.
pub fn takes_double(g: &MolGraph, a: usize) -> (r: bool)
    requires
        a < graph_atoms(*g).len(),
    ensures
        r == can_take_double(*g, graph_kinds(*g), a),
{
    let atom: Atom = node_weight(g, a).unwrap();
    let kinds: Vec<BondType> = incident_kinds(g, a);
    let order: u8 = total_bond_order(&kinds);
    let largest: u8 = atom.atomic_symbol.maximum_valence(atom.charge, true);
    let used: u16 = (order as u16) + (atom.num_imp_h as u16);
    if has_double_bond(g, a) {
        false
    } else {
        used <= (largest as u16)
    }
}

/// Whether a path has an atom, its atoms are joined in turn, and none of
/// them has a double bond, where `kinds` gives the type of each bond.
pub open spec fn sound_path(g: MolGraph, kinds: Seq<BondType>, path: Seq<usize>) -> bool {
    &&& path.len() >= 1
    &&& linked(g, path)
    &&& forall|j: int| 0 <= j < path.len() ==> !has_double(g, kinds, #[trigger] path[j])
}

/// Whether all paths are sound.
pub open spec fn sound_paths(g: MolGraph, kinds: Seq<BondType>, paths: Seq<Seq<usize>>) -> bool {
    forall|k: int| 0 <= k < paths.len() ==> sound_path(g, kinds, #[trigger] paths[k])
}

/// A path after atom `a` was offered to it.
pub fn offer_to_path(g: &MolGraph, path: &Vec<usize>, a: usize) -> (grown: Vec<usize>)
    requires
        path@.len() >= 1,
    ensures
        grown@ == path_with(*g, path@, a),
        forall|kinds: Seq<BondType>|
            !has_double(*g, kinds, a) && #[trigger] sound_path(*g, kinds, path@) ==> sound_path(
                *g,
                kinds,
                grown@,
            ),
{
    let last: usize = path[path.len() - 1];
    let first: usize = path[0];
    if find_edge(g, last, a).is_some() {
        let q: Vec<usize> = extended(path, a);
        proof {
            assert forall|kinds: Seq<BondType>|
                !has_double(*g, kinds, a) && #[trigger] sound_path(
                    *g,
                    kinds,
                    path@,
                ) implies sound_path(*g, kinds, q@) by {
                assert forall|j: int| 0 <= j < q@.len() - 1 implies joined(
                    *g,
                    #[trigger] q@[j],
                    q@[j + 1],
                ) by {
                    if j < path@.len() - 1 {
                        assert(joined(*g, path@[j], path@[j + 1]));
                    }
                }
                assert forall|j: int| 0 <= j < q@.len() implies !has_double(
                    *g,
                    kinds,
                    #[trigger] q@[j],
                ) by {
                    if j < path@.len() {
                        assert(q@[j] == path@[j]);
                    }
                }
            }
        }
        q
    } else if find_edge(g, a, first).is_some() {
        let q: Vec<usize> = prepended(path, a);
        proof {
            assert forall|kinds: Seq<BondType>|
                !has_double(*g, kinds, a) && #[trigger] sound_path(
                    *g,
                    kinds,
                    path@,
                ) implies sound_path(*g, kinds, q@) by {
                assert forall|j: int| 0 <= j < q@.len() - 1 implies joined(
                    *g,
                    #[trigger] q@[j],
                    q@[j + 1],
                ) by {
                    if j > 0 {
                        assert(q@[j] == path@[j - 1]);
                        assert(q@[j + 1] == path@[j]);
                        assert(joined(*g, path@[j - 1], path@[j]));
                    }
                }
                assert forall|j: int| 0 <= j < q@.len() implies !has_double(
                    *g,
                    kinds,
                    #[trigger] q@[j],
                ) by {
                    if j > 0 {
                        assert(q@[j] == path@[j - 1]);
                    }
                }
            }
        }
        q
    } else {
        let q: Vec<usize> = tail_from(path, 0);
        proof {
            assert(q@ =~= path@);
        }
        q
    }
}

/// The paths after atom `a` was offered to each of them, with a new path of
/// `a` alone where none of them holds it then.
pub fn offer_atom(g: &MolGraph, paths: &Vec<Vec<usize>>, a: usize) -> (next: Vec<Vec<usize>>)
    requires
        forall|k: int| 0 <= k < paths@.len() ==> (#[trigger] paths@[k])@.len() >= 1,
    ensures
        views(next@) == paths_with(*g, views(paths@), a),
        forall|kinds: Seq<BondType>|
            !has_double(*g, kinds, a) && #[trigger] sound_paths(*g, kinds, views(paths@))
                ==> sound_paths(*g, kinds, views(next@)),
{
    let ghost before = views(paths@);
    let ghost offered = before.map_values(|p: Seq<usize>| path_with(*g, p, a));
    let mut next: Vec<Vec<usize>> = Vec::new();
    let mut held: bool = false;
    let mut k: usize = 0;
    while k < paths.len()
        invariant
            k <= paths@.len(),
            before == views(paths@),
            offered == before.map_values(|p: Seq<usize>| path_with(*g, p, a)),
            forall|m: int| 0 <= m < paths@.len() ==> (#[trigger] paths@[m])@.len() >= 1,
            next@.len() == k,
            forall|m: int| 0 <= m < k ==> (#[trigger] next@[m])@ == offered[m],
            held == (exists|m: int| 0 <= m < k && (#[trigger] offered[m]).contains(a)),
            forall|kinds: Seq<BondType>|
                !has_double(*g, kinds, a) && #[trigger] sound_paths(*g, kinds, before)
                    ==> forall|m: int| 0 <= m < k ==> sound_path(*g, kinds, #[trigger] next@[m]@),
        decreases paths@.len() - k,
    {
        let grown: Vec<usize> = offer_to_path(g, &paths[k], a);
        proof {
            assert(before[k as int] == paths@[k as int]@);
            assert(grown@ == offered[k as int]);
            assert forall|kinds: Seq<BondType>|
                !has_double(*g, kinds, a) && #[trigger] sound_paths(
                    *g,
                    kinds,
                    before,
                ) implies sound_path(*g, kinds, grown@) by {
                assert(sound_path(*g, kinds, before[k as int]));
            }
        }
        if holds(&grown, a) {
            held = true;
        }
        next.push(grown);
        k += 1;
    }
    proof {
        assert(views(next@) =~= offered);
        assert(held == holds_atom(offered, a));
    }
    if !held {
        let mut alone: Vec<usize> = Vec::new();
        alone.push(a);
        proof {
            assert(alone@ =~= seq![a]);
        }
        next.push(alone);
        proof {
            assert(views(next@) =~= offered.push(seq![a]));
        }
    }
    proof {
        assert forall|kinds: Seq<BondType>|
            !has_double(*g, kinds, a) && #[trigger] sound_paths(
                *g,
                kinds,
                views(paths@),
            ) implies sound_paths(*g, kinds, views(next@)) by {
            assert forall|m: int| 0 <= m < views(next@).len() implies sound_path(
                *g,
                kinds,
                #[trigger] views(next@)[m],
            ) by {
                if m < paths@.len() {
                    assert(sound_path(*g, kinds, next@[m]@));
                } else {
                    assert(views(next@)[m] == seq![a]);
                }
            }
        }
    }
    next
}

/// The paths of a ring of the graph `g`, with the bond types of `h`, a graph
/// with the atoms and the skeleton of `g`. The paths are sound.
pub fn ring_paths(g: &MolGraph, h: &MolGraph, ring: &Vec<usize>) -> (paths: Vec<Vec<usize>>)
    requires
        same_skeleton(*g, *h),
        graph_atoms(*g) == graph_atoms(*h),
        forall|i: int| 0 <= i < ring@.len() ==> (#[trigger] ring@[i]) < graph_atoms(*g).len(),
    ensures
        views(paths@) == open_paths(*g, graph_kinds(*h), ring@),
        sound_paths(*g, graph_kinds(*h), views(paths@)),
{
    let ghost kinds = graph_kinds(*h);
    let mut paths: Vec<Vec<usize>> = Vec::new();
    let mut i: usize = 0;
    proof {
        assert(views(paths@) =~= open_paths(*g, kinds, ring@.take(0)));
    }
    while i < ring.len()
        invariant
            i <= ring@.len(),
            kinds == graph_kinds(*h),
            same_skeleton(*g, *h),
            graph_atoms(*g) == graph_atoms(*h),
            forall|k: int| 0 <= k < ring@.len() ==> (#[trigger] ring@[k]) < graph_atoms(*g).len(),
            views(paths@) == open_paths(*g, kinds, ring@.take(i as int)),
            sound_paths(*g, kinds, views(paths@)),
        decreases ring@.len() - i,
    {
        let a: usize = ring[i];
        proof {
            assert(ring@.take(i + 1).drop_last() =~= ring@.take(i as int));
            assert(ring@.take(i + 1).last() == a);
            lemma_same_skeleton(*g, *h, a);
        }
        if takes_double(h, a) {
            proof {
                assert forall|k: int| 0 <= k < paths@.len() implies (#[trigger] paths@[k])@.len()
                    >= 1 by {
                    assert(sound_path(*g, kinds, views(paths@)[k]));
                }
            }
            paths = offer_atom(g, &paths, a);
        }
        i += 1;
    }
    proof {
        assert(ring@.take(i as int) =~= ring@);
    }
    paths
}

/// A pass that has failed after some of the paths has failed after all of
/// them, in the same way.
pub proof fn lemma_settle_paths_fails(g: MolGraph, tally: Tally, paths: Seq<Seq<usize>>, j: int)
    requires
        0 <= j <= paths.len(),
        settle_paths(g, tally, paths.take(j)) is Err,
    ensures
        settle_paths(g, tally, paths) == settle_paths(g, tally, paths.take(j)),
    decreases paths.len(),
{
    if j == paths.len() {
        assert(paths.take(j) =~= paths);
    } else {
        assert(paths.drop_last().take(j) =~= paths.take(j));
        lemma_settle_paths_fails(g, tally, paths.drop_last(), j);
    }
}

/// A pass that has failed after some of the rings has failed after all of
/// them, in the same way.
pub proof fn lemma_settle_rings_fails(g: MolGraph, tally: Tally, rings: Seq<Seq<usize>>, j: int)
    requires
        0 <= j <= rings.len(),
        settle_rings(g, tally, rings.take(j)) is Err,
    ensures
        settle_rings(g, tally, rings) == settle_rings(g, tally, rings.take(j)),
    decreases rings.len(),
{
    if j == rings.len() {
        assert(rings.take(j) =~= rings);
    } else {
        assert(rings.drop_last().take(j) =~= rings.take(j));
        lemma_settle_rings_fails(g, tally, rings.drop_last(), j);
    }
}

/// Gives each pair of atoms of a path its double bond, in the graph `h`,
/// which has the skeleton of `g`. No bond stops being a double bond, and
/// where the first atom of the path had none, one more bond is one.
pub(crate) fn double_pairs(Ghost(g): Ghost<MolGraph>, h: &mut MolGraph, path: &Vec<usize>)
    requires
        same_skeleton(g, *old(h)),
        path@.len() % 2 == 0,
        linked(g, path@),
    ensures
        same_skeleton(g, *final(h)),
        graph_atoms(*final(h)) == graph_atoms(*old(h)),
        only_doubled(graph_kinds(*old(h)), graph_kinds(*final(h))),
        graph_kinds(*final(h)) == doubled(
            g,
            graph_kinds(*old(h)),
            path@,
            (path@.len() / 2) as nat,
        ),
        undoubled(graph_kinds(*final(h))) <= undoubled(graph_kinds(*old(h))),
        path@.len() >= 2 && !has_double(g, graph_kinds(*old(h)), path@[0]) ==> undoubled(
            graph_kinds(*final(h)),
        ) < undoubled(graph_kinds(*old(h))),
{
    let pairs: usize = path.len() / 2;
    let mut i: usize = 0;
    while i < pairs
        invariant
            i <= pairs,
            pairs == path@.len() / 2,
            path@.len() <= usize::MAX,
            path@.len() % 2 == 0,
            linked(g, path@),
            same_skeleton(g, *h),
            graph_atoms(*h) == graph_atoms(*old(h)),
            only_doubled(graph_kinds(*old(h)), graph_kinds(*h)),
            graph_kinds(*h) == doubled(g, graph_kinds(*old(h)), path@, i as nat),
            undoubled(graph_kinds(*h)) <= undoubled(graph_kinds(*old(h))),
            i >= 1 && !has_double(g, graph_kinds(*old(h)), path@[0]) ==> undoubled(graph_kinds(*h))
                < undoubled(graph_kinds(*old(h))),
        decreases pairs - i,
    {
        let a: usize = path[2 * i];
        let b: usize = path[2 * i + 1];
        let ghost kinds = graph_kinds(*h);
        proof {
            lemma_same_skeleton(g, *h, a);
            assert(joined(g, path@[2 * i], path@[2 * i + 1]));
        }
        let e: usize = update_edge(h, a, b, BondType::Double);
        proof {
            lemma_undoubled_update(kinds, e as int);
            if i == 0 && !has_double(g, kinds, a) {
                neighbors_of(g, a).index_of_first_ensures(b);
                let k = neighbors_of(g, a).index_of_first(b).unwrap();
                assert(bonds_at(g, a)[k] == e);
                assert(kinds_around(g, kinds, a)[k] == kinds[e as int]);
            }
        }
        i += 1;
    }
}

/// Goes through the paths of one ring in the graph `h`, which has the
/// skeleton of `g`: gives the paths with an even number of atoms their double
/// bonds, and says whether the pass has met, here or before, a path with an
/// odd number of atoms and one with an even number. A path of one atom ends
/// it.
pub(crate) fn settle_ring_paths(
    Ghost(g): Ghost<MolGraph>,
    h: &mut MolGraph,
    paths: &Vec<Vec<usize>>,
    odd: bool,
    even: bool,
) -> (r: Result<(bool, bool), Error>)
    requires
        same_skeleton(g, *old(h)),
        sound_paths(g, graph_kinds(*old(h)), views(paths@)),
    ensures
        same_skeleton(g, *final(h)),
        graph_atoms(*final(h)) == graph_atoms(*old(h)),
        only_doubled(graph_kinds(*old(h)), graph_kinds(*final(h))),
        match settle_paths(g, Tally { kinds: graph_kinds(*old(h)), odd, even }, views(paths@)) {
            Err(e) => r == Err::<(bool, bool), Error>(e),
            Ok(t) => r == Ok::<(bool, bool), Error>((t.odd, t.even)) && graph_kinds(*final(h))
                == t.kinds,
        },
        undoubled(graph_kinds(*final(h))) <= undoubled(graph_kinds(*old(h))),
        r matches Ok(flags) ==> (even ==> flags.1) && (!flags.1 ==> graph_kinds(*final(h))
            == graph_kinds(*old(h))) && (flags.1 && !even ==> undoubled(graph_kinds(*final(h)))
            < undoubled(graph_kinds(*old(h)))),
{
    let ghost ps = views(paths@);
    let ghost start = Tally { kinds: graph_kinds(*h), odd, even };
    let mut odd_now: bool = odd;
    let mut even_now: bool = even;
    let mut j: usize = 0;
    proof {
        assert(ps.take(0) =~= Seq::<Seq<usize>>::empty());
    }
    while j < paths.len()
        invariant
            j <= paths@.len(),
            ps == views(paths@),
            start == (Tally { kinds: graph_kinds(*old(h)), odd, even }),
            same_skeleton(g, *h),
            graph_atoms(*h) == graph_atoms(*old(h)),
            only_doubled(graph_kinds(*old(h)), graph_kinds(*h)),
            sound_paths(g, graph_kinds(*old(h)), ps),
            settle_paths(g, start, ps.take(j as int)) == Ok::<Tally, Error>(
                Tally { kinds: graph_kinds(*h), odd: odd_now, even: even_now },
            ),
            undoubled(graph_kinds(*h)) <= undoubled(graph_kinds(*old(h))),
            even ==> even_now,
            !even_now ==> graph_kinds(*h) == graph_kinds(*old(h)),
            even_now && !even ==> undoubled(graph_kinds(*h)) < undoubled(graph_kinds(*old(h))),
        decreases paths@.len() - j,
    {
        let path: &Vec<usize> = &paths[j];
        proof {
            assert(ps.take(j + 1).drop_last() =~= ps.take(j as int));
            assert(ps.take(j + 1).last() == path@);
            assert(sound_path(g, graph_kinds(*old(h)), ps[j as int]));
        }
        if path.len() == 1 {
            proof {
                lemma_settle_paths_fails(g, start, ps, j + 1);
            }
            return Err(Error::IsolatedAromaticAtom);
        } else if path.len() % 2 == 1 {
            odd_now = true;
        } else {
            double_pairs(Ghost(g), h, path);
            even_now = true;
        }
        j += 1;
    }
    proof {
        assert(ps.take(j as int) =~= ps);
    }
    Ok((odd_now, even_now))
}

/// One pass over the rings in the graph `h`, which has the atoms and the
/// skeleton of `g`. Says whether the pass has met a path with an odd number
/// of atoms and one with an even number; where it has met one with an even
/// number, one more bond is a double bond.
pub fn settle_all(g: &MolGraph, h: &mut MolGraph, rings: &Vec<Vec<usize>>) -> (r: Result<
    (bool, bool),
    Error,
>)
    requires
        same_skeleton(*g, *old(h)),
        graph_atoms(*g) == graph_atoms(*old(h)),
        rings_within(views(rings@), graph_atoms(*g).len()),
    ensures
        same_skeleton(*g, *final(h)),
        graph_atoms(*final(h)) == graph_atoms(*old(h)),
        only_doubled(graph_kinds(*old(h)), graph_kinds(*final(h))),
        match one_pass(*g, graph_kinds(*old(h)), views(rings@)) {
            Err(e) => r == Err::<(bool, bool), Error>(e),
            Ok(t) => r == Ok::<(bool, bool), Error>((t.odd, t.even)) && graph_kinds(*final(h))
                == t.kinds,
        },
        undoubled(graph_kinds(*final(h))) <= undoubled(graph_kinds(*old(h))),
        r matches Ok(flags) ==> (flags.1 ==> undoubled(graph_kinds(*final(h))) < undoubled(
            graph_kinds(*old(h)),
        )),
{
    let ghost rs = views(rings@);
    let ghost start = Tally { kinds: graph_kinds(*h), odd: false, even: false };
    let mut odd: bool = false;
    let mut even: bool = false;
    let mut i: usize = 0;
    proof {
        assert(rs.take(0) =~= Seq::<Seq<usize>>::empty());
    }
    while i < rings.len()
        invariant
            i <= rings@.len(),
            rs == views(rings@),
            start == (Tally { kinds: graph_kinds(*old(h)), odd: false, even: false }),
            same_skeleton(*g, *h),
            graph_atoms(*g) == graph_atoms(*old(h)),
            graph_atoms(*h) == graph_atoms(*old(h)),
            only_doubled(graph_kinds(*old(h)), graph_kinds(*h)),
            rings_within(rs, graph_atoms(*g).len()),
            settle_rings(*g, start, rs.take(i as int)) == Ok::<Tally, Error>(
                Tally { kinds: graph_kinds(*h), odd, even },
            ),
            undoubled(graph_kinds(*h)) <= undoubled(graph_kinds(*old(h))),
            !even ==> graph_kinds(*h) == graph_kinds(*old(h)),
            even ==> undoubled(graph_kinds(*h)) < undoubled(graph_kinds(*old(h))),
        decreases rings@.len() - i,
    {
        let ring: &Vec<usize> = &rings[i];
        proof {
            assert(rs.take(i + 1).drop_last() =~= rs.take(i as int));
            assert(rs.take(i + 1).last() == ring@);
            assert forall|k: int| 0 <= k < ring@.len() implies (#[trigger] ring@[k]) < graph_atoms(
                *g,
            ).len() by {
                assert(rs[i as int][k] == ring@[k]);
            }
        }
        let paths: Vec<Vec<usize>> = ring_paths(g, h, ring);
        match settle_ring_paths(Ghost(*g), h, &paths, odd, even) {
            Err(e) => {
                proof {
                    lemma_settle_rings_fails(*g, start, rs, i + 1);
                }
                return Err(e);
            },
            Ok(flags) => {
                odd = flags.0;
                even = flags.1;
            },
        }
        i += 1;
    }
    proof {
        assert(rs.take(i as int) =~= rs);
    }
    Ok((odd, even))
}

/// Runs passes over the rings in the graph `h`, which has the atoms, the
/// bond types and the skeleton of `g`, until a pass meets no path with an odd
/// number of atoms.
pub fn run_passes(g: &MolGraph, h: &mut MolGraph, rings: &Vec<Vec<usize>>) -> (r: Result<(), Error>)
    requires
        same_skeleton(*g, *old(h)),
        graph_atoms(*g) == graph_atoms(*old(h)),
        graph_kinds(*g) == graph_kinds(*old(h)),
        rings_within(views(rings@), graph_atoms(*g).len()),
    ensures
        same_skeleton(*g, *final(h)),
        graph_atoms(*final(h)) == graph_atoms(*g),
        only_doubled(graph_kinds(*g), graph_kinds(*final(h))),
        match kekule_passes(*g, graph_kinds(*g), views(rings@), graph_kinds(*g).len()) {
            Err(e) => r == Err::<(), Error>(e),
            Ok(kinds) => r is Ok && graph_kinds(*final(h)) == kinds,
        },
{
    let ghost whole = kekule_passes(*g, graph_kinds(*g), views(rings@), graph_kinds(*g).len());
    let ghost mut budget: nat = graph_kinds(*g).len();
    let mut pending: bool = true;
    proof {
        lemma_undoubled_bound(graph_kinds(*g));
    }
    while pending
        invariant
            same_skeleton(*g, *h),
            graph_atoms(*h) == graph_atoms(*g),
            only_doubled(graph_kinds(*g), graph_kinds(*h)),
            rings_within(views(rings@), graph_atoms(*g).len()),
            whole == kekule_passes(*g, graph_kinds(*g), views(rings@), graph_kinds(*g).len()),
            pending ==> whole == kekule_passes(*g, graph_kinds(*h), views(rings@), budget)
                && undoubled(graph_kinds(*h)) <= budget,
            !pending ==> whole == Ok::<Seq<BondType>, Error>(graph_kinds(*h)),
        decreases
                (if pending {
                    budget + 1
                } else {
                    0
                }),
    {
        match settle_all(g, h, rings) {
            Err(e) => {
                return Err(e);
            },
            Ok(flags) => {
                if !flags.0 {
                    pending = false;
                } else if !flags.1 {
                    return Err(Error::KekulizationStuck);
                } else {
                    proof {
                        budget = (budget - 1) as nat;
                    }
                }
            },
        }
    }
    Ok(())
}

/// Makes every bond that is still aromatic a single bond.
pub fn settle_aromatic_bonds(h: &mut MolGraph)
    ensures
        graph_kinds(*final(h)) == graph_kinds(*old(h)).map_values(|k: BondType| settled_kind(k)),
        graph_atoms(*final(h)) == graph_atoms(*old(h)),
        same_skeleton(*old(h), *final(h)),
{
    let ghost before = graph_kinds(*h);
    let count: usize = edge_count(h);
    let mut e: usize = 0;
    while e < count
        invariant
            e <= count,
            count == before.len(),
            before == graph_kinds(*old(h)),
            graph_atoms(*h) == graph_atoms(*old(h)),
            same_skeleton(*old(h), *h),
            graph_kinds(*h).len() == count,
            forall|k: int| 0 <= k < e ==> #[trigger] graph_kinds(*h)[k] == settled_kind(before[k]),
            forall|k: int| e <= k < count ==> #[trigger] graph_kinds(*h)[k] == before[k],
        decreases count - e,
    {
        let kind: BondType = edge_weight(h, e).unwrap();
        if let BondType::Aromatic = kind {
            set_bond_type(h, e, BondType::Single);
        }
        e += 1;
    }
    proof {
        assert(graph_kinds(*h) =~= before.map_values(|k: BondType| settled_kind(k)));
    }
}

/// Clears the aromatic flag of every atom.
pub fn clear_aromatic_flags(h: &mut MolGraph)
    ensures
        graph_atoms(*final(h)) == graph_atoms(*old(h)).map_values(
            |a: Atom| a.without_aromaticity(),
        ),
        graph_kinds(*final(h)) == graph_kinds(*old(h)),
        same_skeleton(*old(h), *final(h)),
{
    let ghost before = graph_atoms(*h);
    let count: usize = node_count(h);
    let mut a: usize = 0;
    while a < count
        invariant
            a <= count,
            count == before.len(),
            before == graph_atoms(*old(h)),
            graph_kinds(*h) == graph_kinds(*old(h)),
            same_skeleton(*old(h), *h),
            graph_atoms(*h).len() == count,
            forall|k: int|
                0 <= k < a ==> #[trigger] graph_atoms(*h)[k] == before[k].without_aromaticity(),
            forall|k: int| a <= k < count ==> #[trigger] graph_atoms(*h)[k] == before[k],
        decreases count - a,
    {
        let atom: Atom = node_weight(h, a).unwrap();
        let cleared: Atom = Atom {
            atomic_symbol: atom.atomic_symbol,
            charge: atom.charge,
            aromatic: false,
            needs_update: atom.needs_update,
            num_imp_h: atom.num_imp_h,
            num_rad_electron: atom.num_rad_electron,
        };
        set_atom(h, a, cleared);
        a += 1;
    }
    proof {
        assert(graph_atoms(*h) =~= before.map_values(|a: Atom| a.without_aromaticity()));
    }
}

} // verus!
