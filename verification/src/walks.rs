//! Growing walks through a molecular graph, and the rings they close.
//!
//! Ring perception starts one walk from atom 0 towards each of its
//! neighbours and grows all walks by one atom at a time, never straight back
//! to the atom a walk just came from. A walk that comes to an atom for the
//! second time has closed a ring and stops.

use vstd::prelude::*;
use crate::graph::{graph_atoms, neighbors, neighbors_of, node_count, MolGraph};
use crate::utils::{first_repeat, get_duplicate_element, lemma_first_repeat, repeats_at};

verus! {

/// The sequences of atom indices that a vector of walks or rings holds.
pub open spec fn views(walks: Seq<Vec<usize>>) -> Seq<Seq<usize>> {
    walks.map_values(|w: Vec<usize>| w@)
}

/// `s` without every occurrence of `x`.
pub open spec fn without(s: Seq<usize>, x: usize) -> Seq<usize>
    decreases s.len(),
{
    if s.len() == 0 {
        s
    } else if s.last() == x {
        without(s.drop_last(), x)
    } else {
        without(s.drop_last(), x).push(s.last())
    }
}

/// The atoms to which a walk can go on: the neighbours of its last atom, in
/// the order in which the graph gives them, but for the atom before the last.
pub open spec fn onward(g: MolGraph, walk: Seq<usize>) -> Seq<usize>
    recommends
        walk.len() >= 2,
{
    without(neighbors_of(g, walk.last()), walk[walk.len() - 2])
}

/// The walks that go on in place: each walk that can go on, with the first
/// of its onward atoms at its end. A walk that cannot go on is dropped.
pub open spec fn continued(g: MolGraph, walks: Seq<Seq<usize>>) -> Seq<Seq<usize>>
    decreases walks.len(),
{
    if walks.len() == 0 {
        Seq::empty()
    } else {
        let init = continued(g, walks.drop_last());
        let on = onward(g, walks.last());
        if on.len() == 0 {
            init
        } else {
            init.push(walks.last().push(on[0]))
        }
    }
}

/// The walks that branch off one walk: one for each of its onward atoms after
/// the first, in their order.
pub open spec fn branches_of(g: MolGraph, walk: Seq<usize>) -> Seq<Seq<usize>> {
    let on = onward(g, walk);
    if on.len() == 0 {
        Seq::empty()
    } else {
        Seq::new((on.len() - 1) as nat, |k: int| walk.push(on[k + 1]))
    }
}

/// The walks that branch off the walks, walk by walk.
pub open spec fn branched(g: MolGraph, walks: Seq<Seq<usize>>) -> Seq<Seq<usize>>
    decreases walks.len(),
{
    if walks.len() == 0 {
        Seq::empty()
    } else {
        branched(g, walks.drop_last()) + branches_of(g, walks.last())
    }
}

/// The walks after one round of growth: those that went on in place, then
/// those that branched off.
pub open spec fn grown(g: MolGraph, walks: Seq<Seq<usize>>) -> Seq<Seq<usize>> {
    continued(g, walks) + branched(g, walks)
}

/// The ring that a walk with a repeated atom has closed: the atoms after the
/// first occurrence of the first repeated atom, up to the end of the walk.
pub open spec fn ring_of(walk: Seq<usize>) -> Seq<usize>
    recommends
        !walk.no_duplicates(),
{
    walk.skip(first_repeat(walk) + 1)
}

/// The rings that the walks have closed, in the order of the walks.
pub open spec fn closed_rings(walks: Seq<Seq<usize>>) -> Seq<Seq<usize>>
    decreases walks.len(),
{
    if walks.len() == 0 {
        Seq::empty()
    } else if walks.last().no_duplicates() {
        closed_rings(walks.drop_last())
    } else {
        closed_rings(walks.drop_last()).push(ring_of(walks.last()))
    }
}

/// The walks that have closed no ring, in their order.
pub open spec fn open_walks(walks: Seq<Seq<usize>>) -> Seq<Seq<usize>>
    decreases walks.len(),
{
    if walks.len() == 0 {
        Seq::empty()
    } else if walks.last().no_duplicates() {
        open_walks(walks.drop_last()).push(walks.last())
    } else {
        open_walks(walks.drop_last())
    }
}

/// The rings found from the walks in at most `rounds` rounds: the rings that
/// the walks close when they are grown once, then the rings found from those
/// of the grown walks that closed none.
pub open spec fn rings_found(g: MolGraph, walks: Seq<Seq<usize>>, rounds: nat) -> Seq<Seq<usize>>
    decreases rounds,
{
    if rounds == 0 || walks.len() == 0 {
        Seq::empty()
    } else {
        let next = grown(g, walks);
        closed_rings(next) + rings_found(g, open_walks(next), (rounds - 1) as nat)
    }
}

/// The walks that ring perception starts with: from atom 0 to each of its
/// neighbours, in the order in which the graph gives them.
pub open spec fn first_walks(g: MolGraph) -> Seq<Seq<usize>> {
    neighbors_of(g, 0).map_values(|n: usize| seq![0usize, n])
}

/// The rings that ring perception finds in a graph, in the order in which
/// it finds them. A graph with fewer than three atoms has none. No walk
/// outlives as many rounds as the graph has atoms, so that many rounds find
/// all rings that the walks from atom 0 ever close; rings in a part of the
/// graph that is not connected to atom 0 are not found.
pub open spec fn perceived(g: MolGraph) -> Seq<Seq<usize>> {
    if graph_atoms(g).len() < 3 {
        Seq::empty()
    } else {
        rings_found(g, first_walks(g), graph_atoms(g).len())
    }
}

/// Whether every walk has `len` atoms, all of them among the first `n`.
pub open spec fn walks_within(walks: Seq<Seq<usize>>, len: nat, n: nat) -> bool {
    forall|i: int|
        0 <= i < walks.len() ==> (#[trigger] walks[i]).len() == len && forall|j: int|
            0 <= j < len ==> (#[trigger] walks[i][j]) < n
}

/// Whether every ring has its atoms among the first `n`.
pub open spec fn rings_within(rings: Seq<Seq<usize>>, n: nat) -> bool {
    forall|i: int, j: int|
        0 <= i < rings.len() && 0 <= j < rings[i].len() ==> (#[trigger] rings[i][j]) < n
}

/// A sequence of different numbers below `n` has at most `n` of them.
pub proof fn lemma_distinct_atoms_bounded(s: Seq<usize>, n: nat)
    requires
        s.no_duplicates(),
        forall|i: int| 0 <= i < s.len() ==> (#[trigger] s[i]) < n,
    ensures
        s.len() <= n,
    decreases n,
{
    if s.len() == 0 {
    } else if n == 0 {
        assert(s[0] < n);
    } else {
        if exists|i: int| 0 <= i < s.len() && #[trigger] s[i] == n - 1 {
            let i = choose|i: int| 0 <= i < s.len() && #[trigger] s[i] == n - 1;
            let t = Seq::new(
                (s.len() - 1) as nat,
                |j: int|
                    if j < i {
                        s[j]
                    } else {
                        s[j + 1]
                    },
            );
            assert forall|j: int| 0 <= j < t.len() implies (#[trigger] t[j]) < n - 1 by {
                let k = if j < i {
                    j
                } else {
                    j + 1
                };
                assert(t[j] == s[k]);
                assert(s[k] < n);
                assert(k != i);
            }
            assert forall|a: int, b: int| 0 <= a < t.len() && 0 <= b < t.len() && a != b implies t[a]
                != t[b] by {
                let ka = if a < i {
                    a
                } else {
                    a + 1
                };
                let kb = if b < i {
                    b
                } else {
                    b + 1
                };
                assert(t[a] == s[ka] && t[b] == s[kb]);
            }
            lemma_distinct_atoms_bounded(t, (n - 1) as nat);
        } else {
            assert forall|j: int| 0 <= j < s.len() implies (#[trigger] s[j]) < n - 1 by {
                assert(s[j] < n);
            }
            lemma_distinct_atoms_bounded(s, (n - 1) as nat);
        }
    }
}

/// A copy of `walk` with `atom` at its end.
pub fn extended(walk: &Vec<usize>, atom: usize) -> (r: Vec<usize>)
    ensures
        r@ == walk@.push(atom),
{
    let mut r: Vec<usize> = Vec::new();
    let mut i: usize = 0;
    while i < walk.len()
        invariant
            i <= walk@.len(),
            r@ == walk@.take(i as int),
        decreases walk@.len() - i,
    {
        r.push(walk[i]);
        proof {
            assert(walk@.take(i as int).push(walk@[i as int]) =~= walk@.take(i + 1));
        }
        i += 1;
    }
    proof {
        assert(walk@.take(i as int) =~= walk@);
    }
    r.push(atom);
    r
}

/// A copy of the part of `walk` from position `from` on.
pub fn tail_from(walk: &Vec<usize>, from: usize) -> (r: Vec<usize>)
    requires
        from <= walk@.len(),
    ensures
        r@ == walk@.skip(from as int),
{
    let mut r: Vec<usize> = Vec::new();
    let mut i: usize = from;
    while i < walk.len()
        invariant
            from <= i <= walk@.len(),
            r@ == walk@.subrange(from as int, i as int),
        decreases walk@.len() - i,
    {
        r.push(walk[i]);
        proof {
            assert(walk@.subrange(from as int, i as int).push(walk@[i as int]) =~= walk@.subrange(
                from as int,
                i + 1,
            ));
        }
        i += 1;
    }
    proof {
        assert(walk@.subrange(from as int, i as int) =~= walk@.skip(from as int));
    }
    r
}

/// The atoms to which a walk can go on.
pub fn onward_atoms(g: &MolGraph, walk: &Vec<usize>) -> (atoms: Vec<usize>)
    requires
        walk@.len() >= 2,
    ensures
        atoms@ == onward(*g, walk@),
        forall|i: int| 0 <= i < atoms@.len() ==> (#[trigger] atoms@[i]) < graph_atoms(*g).len(),
{
    let last: usize = walk[walk.len() - 1];
    let before: usize = walk[walk.len() - 2];
    let around: Vec<usize> = neighbors(g, last);
    let mut atoms: Vec<usize> = Vec::new();
    let mut i: usize = 0;
    while i < around.len()
        invariant
            i <= around@.len(),
            atoms@ == without(around@.take(i as int), before),
            forall|k: int| 0 <= k < around@.len() ==> (#[trigger] around@[k]) < graph_atoms(*g).len(),
            forall|k: int| 0 <= k < atoms@.len() ==> (#[trigger] atoms@[k]) < graph_atoms(*g).len(),
        decreases around@.len() - i,
    {
        proof {
            assert(around@.take(i + 1).drop_last() =~= around@.take(i as int));
        }
        if around[i] != before {
            atoms.push(around[i]);
        }
        i += 1;
    }
    proof {
        assert(around@.take(i as int) =~= around@);
    }
    atoms
}

/// The walks that ring perception starts with.
pub fn starting_walks(g: &MolGraph) -> (walks: Vec<Vec<usize>>)
    requires
        graph_atoms(*g).len() >= 1,
    ensures
        views(walks@) == first_walks(*g),
        walks_within(views(walks@), 2, graph_atoms(*g).len()),
{
    let around: Vec<usize> = neighbors(g, 0);
    let mut walks: Vec<Vec<usize>> = Vec::new();
    let mut i: usize = 0;
    while i < around.len()
        invariant
            i <= around@.len(),
            graph_atoms(*g).len() >= 1,
            forall|k: int| 0 <= k < around@.len() ==> (#[trigger] around@[k]) < graph_atoms(*g).len(),
            walks@.len() == i,
            forall|k: int| 0 <= k < i ==> (#[trigger] walks@[k])@ == seq![0usize, around@[k]],
        decreases around@.len() - i,
    {
        let mut walk: Vec<usize> = Vec::new();
        walk.push(0);
        walk.push(around[i]);
        proof {
            assert(walk@ =~= seq![0usize, around@[i as int]]);
        }
        walks.push(walk);
        i += 1;
    }
    proof {
        assert(views(walks@) =~= first_walks(*g));
        assert forall|k: int| 0 <= k < views(walks@).len() implies (#[trigger] views(walks@)[k]).len()
            == 2 && forall|j: int| 0 <= j < 2 ==> (#[trigger] views(walks@)[k][j]) < graph_atoms(
            *g,
        ).len() by {
            assert(views(walks@)[k] == seq![0usize, around@[k]]);
        }
    }
    walks
}

/// Whether `walk` is one of `walks` grown by one of its onward atoms, an
/// atom among the first `n`.
pub open spec fn grows_from(g: MolGraph, walks: Seq<Seq<usize>>, n: nat, walk: Seq<usize>) -> bool {
    exists|m: int, a: usize|
        0 <= m < walks.len() && a < n && onward(g, walks[m]).contains(a) && walk == (
        #[trigger] walks[m].push(a))
}

proof fn lemma_views_push(v: Seq<Vec<usize>>, x: Vec<usize>)
    ensures
        views(v.push(x)) == views(v).push(x@),
{
    assert(views(v.push(x)) =~= views(v).push(x@));
}

proof fn lemma_views_add(a: Seq<Vec<usize>>, b: Seq<Vec<usize>>)
    ensures
        views(a + b) == views(a) + views(b),
{
    assert(views(a + b) =~= views(a) + views(b));
}

/// One round of growth: every walk goes on to the first of its onward atoms,
/// and branches off to each of the others.
#[verifier::loop_isolation(false)]
pub fn grow_walks(g: &MolGraph, walks: &Vec<Vec<usize>>) -> (next: Vec<Vec<usize>>)
    requires
        forall|i: int| 0 <= i < walks@.len() ==> (#[trigger] walks@[i])@.len() >= 2,
    ensures
        views(next@) == grown(*g, views(walks@)),
        forall|k: int|
            0 <= k < next@.len() ==> grows_from(
                *g,
                views(walks@),
                graph_atoms(*g).len(),
                #[trigger] views(next@)[k],
            ),
{
    let ghost ws = views(walks@);
    let ghost n = graph_atoms(*g).len();
    let mut kept: Vec<Vec<usize>> = Vec::new();
    let mut spawned: Vec<Vec<usize>> = Vec::new();
    let mut i: usize = 0;
    while i < walks.len()
        invariant
            i <= walks@.len(),
            views(kept@) == continued(*g, ws.take(i as int)),
            views(spawned@) == branched(*g, ws.take(i as int)),
            forall|k: int| 0 <= k < kept@.len() ==> grows_from(*g, ws, n, #[trigger] views(kept@)[k]),
            forall|k: int|
                0 <= k < spawned@.len() ==> grows_from(*g, ws, n, #[trigger] views(spawned@)[k]),
        decreases walks@.len() - i,
    {
        let walk: &Vec<usize> = &walks[i];
        let on: Vec<usize> = onward_atoms(g, walk);
        proof {
            assert(ws.take(i + 1).drop_last() =~= ws.take(i as int));
            assert(ws.take(i + 1).last() == walk@);
            assert(ws[i as int] == walk@);
        }
        let ghost spawned_before = views(spawned@);
        if on.len() > 0 {
            let ghost kept_before = kept@;
            let first: Vec<usize> = extended(walk, on[0]);
            kept.push(first);
            proof {
                lemma_views_push(kept_before, first);
                assert(on@.contains(on@[0]));
                assert(first@ == ws[i as int].push(on@[0]));
                assert(grows_from(*g, ws, n, first@));
            }
            let mut k: usize = 1;
            while k < on.len()
                invariant
                    1 <= k <= on@.len(),
                    views(spawned@) == spawned_before + branches_of(*g, walk@).take(k - 1),
                    forall|m: int|
                        0 <= m < spawned@.len() ==> grows_from(
                            *g,
                            ws,
                            n,
                            #[trigger] views(spawned@)[m],
                        ),
                decreases on@.len() - k,
            {
                let ghost spawned_now = spawned@;
                let branch: Vec<usize> = extended(walk, on[k]);
                spawned.push(branch);
                proof {
                    lemma_views_push(spawned_now, branch);
                    assert(on@.contains(on@[k as int]));
                    assert(branch@ == ws[i as int].push(on@[k as int]));
                    assert(grows_from(*g, ws, n, branch@));
                    assert(branches_of(*g, walk@).take(k - 1).push(branch@) =~= branches_of(
                        *g,
                        walk@,
                    ).take(k as int));
                    assert(views(spawned@) =~= spawned_before + branches_of(*g, walk@).take(
                        k as int,
                    ));
                }
                k += 1;
            }
            proof {
                assert(branches_of(*g, walk@).take(k - 1) =~= branches_of(*g, walk@));
            }
        } else {
            proof {
                assert(spawned_before + branches_of(*g, walk@) =~= spawned_before);
            }
        }
        i += 1;
    }
    proof {
        assert(ws.take(i as int) =~= ws);
        lemma_views_add(kept@, spawned@);
    }
    kept.append(&mut spawned);
    kept
}

/// The ring that a walk has closed, where `repeated` is the first atom that
/// occurs in the walk more than once.
pub fn ring_from(walk: &Vec<usize>, repeated: usize) -> (ring: Vec<usize>)
    requires
        0 <= first_repeat(walk@) < walk@.len(),
        repeated == walk@[first_repeat(walk@)],
    ensures
        ring@ == ring_of(walk@),
{
    proof {
        lemma_first_repeat(walk@);
    }
    let n: usize = walk.len();
    let mut i: usize = 0;
    while walk[i] != repeated
        invariant
            n == walk@.len(),
            0 <= i <= first_repeat(walk@) < walk@.len(),
            repeated == walk@[first_repeat(walk@)],
            forall|k: int| 0 <= k < i ==> walk@[k] != repeated,
        decreases walk@.len() - i,
    {
        i += 1;
    }
    proof {
        if i < first_repeat(walk@) {
            assert(walk@[first_repeat(walk@)] == walk@[i as int]);
            assert(repeats_at(walk@, i as int));
        }
    }
    tail_from(walk, i + 1)
}

/// Of walks within the first `n` atoms, those that go on stay within them
/// and come to no atom twice, and the rings that the others have closed stay
/// within them.
pub proof fn lemma_split_within(walks: Seq<Seq<usize>>, len: nat, n: nat)
    requires
        walks_within(walks, len, n),
    ensures
        walks_within(open_walks(walks), len, n),
        forall|k: int| 0 <= k < open_walks(walks).len() ==> (#[trigger] open_walks(walks)[k]).no_duplicates(),
        rings_within(closed_rings(walks), n),
    decreases walks.len(),
{
    if walks.len() > 0 {
        let init = walks.drop_last();
        assert forall|i: int| 0 <= i < init.len() implies (#[trigger] init[i]).len() == len && forall|
            j: int,
        |
            0 <= j < len ==> (#[trigger] init[i][j]) < n by {
            assert(init[i] == walks[i]);
        }
        lemma_split_within(init, len, n);
        let last = walks.last();
        assert(last == walks[walks.len() - 1]);
        if !last.no_duplicates() {
            lemma_first_repeat(last);
            let ring = ring_of(last);
            assert forall|i: int, j: int|
                0 <= i < closed_rings(walks).len() && 0 <= j < closed_rings(walks)[i].len() implies (
            #[trigger] closed_rings(walks)[i][j]) < n by {
                if i < closed_rings(init).len() {
                    assert(closed_rings(walks)[i] == closed_rings(init)[i]);
                } else {
                    assert(closed_rings(walks)[i] == ring);
                    assert(ring[j] == last[first_repeat(last) + 1 + j]);
                }
            }
        }
    }
}

/// Parts the walks into those that go on and the rings that the others have
/// closed.
#[verifier::loop_isolation(false)]
pub fn split_closed(walks: &Vec<Vec<usize>>) -> (parts: (Vec<Vec<usize>>, Vec<Vec<usize>>))
    ensures
        views(parts.0@) == open_walks(views(walks@)),
        views(parts.1@) == closed_rings(views(walks@)),
{
    let ghost ws = views(walks@);
    let mut open: Vec<Vec<usize>> = Vec::new();
    let mut rings: Vec<Vec<usize>> = Vec::new();
    let mut i: usize = 0;
    while i < walks.len()
        invariant
            i <= walks@.len(),
            views(open@) == open_walks(ws.take(i as int)),
            views(rings@) == closed_rings(ws.take(i as int)),
        decreases walks@.len() - i,
    {
        let walk: &Vec<usize> = &walks[i];
        proof {
            assert(ws.take(i + 1).drop_last() =~= ws.take(i as int));
            assert(ws.take(i + 1).last() == walk@);
            lemma_first_repeat(walk@);
        }
        match get_duplicate_element(walk) {
            Some(repeated) => {
                let ghost before = rings@;
                let ring: Vec<usize> = ring_from(walk, repeated);
                rings.push(ring);
                proof {
                    lemma_views_push(before, ring);
                }
            },
            None => {
                let ghost before = open@;
                let copy: Vec<usize> = tail_from(walk, 0);
                open.push(copy);
                proof {
                    assert(copy@ =~= walk@);
                    lemma_views_push(before, copy);
                }
            },
        }
        i += 1;
    }
    proof {
        assert(ws.take(i as int) =~= ws);
    }
    (open, rings)
}

/// Finds the rings of a graph that walks from atom 0 close, in the order in
/// which the walks close them. All of them run through atoms of the graph.
pub fn find_rings(g: &MolGraph) -> (rings: Vec<Vec<usize>>)
    ensures
        views(rings@) == perceived(*g),
        rings_within(views(rings@), graph_atoms(*g).len()),
{
    let n: usize = node_count(g);
    let mut rings: Vec<Vec<usize>> = Vec::new();
    if n < 3 {
        proof {
            assert(views(rings@) =~= perceived(*g));
        }
        return rings;
    }
    let mut walks: Vec<Vec<usize>> = starting_walks(g);
    let ghost mut rounds: nat = n as nat;
    let ghost mut len: nat = 2;
    proof {
        assert(views(rings@) + rings_found(*g, views(walks@), rounds) =~= perceived(*g));
    }
    while walks.len() > 0
        invariant
            n == graph_atoms(*g).len(),
            n >= 3,
            len >= 2,
            len + rounds == n + 2,
            walks_within(views(walks@), len, n as nat),
            len > 2 ==> forall|k: int|
                0 <= k < walks@.len() ==> (#[trigger] views(walks@)[k]).no_duplicates(),
            perceived(*g) == views(rings@) + rings_found(*g, views(walks@), rounds),
            rings_within(views(rings@), n as nat),
        decreases rounds,
    {
        let ghost ws = views(walks@);
        let ghost found = views(rings@);
        proof {
            assert(ws[0].len() == len);
            if len > 2 {
                lemma_distinct_atoms_bounded(ws[0], n as nat);
            }
            assert(rounds >= 2);
            assert forall|i: int| 0 <= i < walks@.len() implies (#[trigger] walks@[i])@.len()
                >= 2 by {
                assert(ws[i] == walks@[i]@);
            }
        }
        let next: Vec<Vec<usize>> = grow_walks(g, &walks);
        let ghost nx = views(next@);
        proof {
            assert forall|i: int| 0 <= i < nx.len() implies (#[trigger] nx[i]).len() == len + 1
                && forall|j: int| 0 <= j < len + 1 ==> (#[trigger] nx[i][j]) < n by {
                assert(grows_from(*g, ws, n as nat, nx[i]));
                let (m, a) = choose|m: int, a: usize|
                    0 <= m < ws.len() && a < n && onward(*g, ws[m]).contains(a) && nx[i] == (
                    #[trigger] ws[m].push(a));
                assert(ws[m].len() == len);
                assert forall|j: int| 0 <= j < len + 1 implies (#[trigger] nx[i][j]) < n by {
                    if j < len {
                        assert(nx[i][j] == ws[m][j]);
                    }
                }
            }
            assert(walks_within(nx, len + 1, n as nat));
            lemma_split_within(nx, len + 1, n as nat);
        }
        let parts: (Vec<Vec<usize>>, Vec<Vec<usize>>) = split_closed(&next);
        let mut closed: Vec<Vec<usize>> = parts.1;
        proof {
            lemma_views_add(rings@, closed@);
            assert(rings_found(*g, ws, rounds) == closed_rings(nx) + rings_found(
                *g,
                open_walks(nx),
                (rounds - 1) as nat,
            ));
            assert(found + (closed_rings(nx) + rings_found(*g, open_walks(nx), (rounds - 1) as nat))
                =~= (found + closed_rings(nx)) + rings_found(
                *g,
                open_walks(nx),
                (rounds - 1) as nat,
            ));
            assert forall|i: int, j: int|
                0 <= i < (found + closed_rings(nx)).len() && 0 <= j < (found + closed_rings(
                    nx,
                ))[i].len() implies (#[trigger] (found + closed_rings(nx))[i][j]) < n by {
                if i < found.len() {
                    assert((found + closed_rings(nx))[i] == found[i]);
                } else {
                    assert((found + closed_rings(nx))[i] == closed_rings(nx)[i - found.len()]);
                }
            }
        }
        rings.append(&mut closed);
        walks = parts.0;
        proof {
            rounds = (rounds - 1) as nat;
            len = len + 1;
        }
    }
    proof {
        assert(views(rings@) + rings_found(*g, views(walks@), rounds) =~= views(rings@));
    }
    rings
}

/// Whether each atom of the walk is a neighbour of the atom before it.
pub open spec fn chained(g: MolGraph, walk: Seq<usize>) -> bool {
    forall|i: int|
        0 <= i < walk.len() - 1 ==> neighbors_of(g, #[trigger] walk[i]).contains(walk[i + 1])
}

/// Whether a ring is a cycle of the graph: it comes to no atom twice, each of
/// its atoms is a neighbour of the atom before it, and its first atom is a
/// neighbour of its last.
pub open spec fn is_cycle(g: MolGraph, ring: Seq<usize>) -> bool {
    &&& ring.len() >= 1
    &&& ring.no_duplicates()
    &&& chained(g, ring)
    &&& neighbors_of(g, ring.last()).contains(ring[0])
}

/// Whether a walk of two atoms or more goes from neighbour to neighbour and
/// comes to no atom twice.
pub open spec fn simple_walk(g: MolGraph, walk: Seq<usize>) -> bool {
    &&& walk.len() >= 2
    &&& walk.no_duplicates()
    &&& chained(g, walk)
}

/// Whether a walk goes from neighbour to neighbour and comes to no atom
/// twice before its last.
pub open spec fn closing_walk(g: MolGraph, walk: Seq<usize>) -> bool {
    &&& walk.len() >= 3
    &&& walk.drop_last().no_duplicates()
    &&& chained(g, walk)
}

/// Whether `walk` is one of `walks` with one of its onward atoms at its end.
pub open spec fn steps_from(g: MolGraph, walks: Seq<Seq<usize>>, walk: Seq<usize>) -> bool {
    exists|m: int, a: usize|
        0 <= m < walks.len() && onward(g, walks[m]).contains(a) && walk == (
        #[trigger] walks[m].push(a))
}

/// `without` keeps the values that are not `x`, and no others.
pub proof fn lemma_without(s: Seq<usize>, x: usize, a: usize)
    ensures
        without(s, x).contains(a) <==> s.contains(a) && a != x,
    decreases s.len(),
{
    if s.len() > 0 {
        let init = s.drop_last();
        lemma_without(init, x, a);
        if s.contains(a) && a != x {
            let i = choose|i: int| 0 <= i < s.len() && s[i] == a;
            if i < s.len() - 1 {
                assert(init[i] == a);
                assert(init.contains(a));
                let w = without(init, x);
                let k = choose|k: int| 0 <= k < w.len() && w[k] == a;
                assert(without(s, x)[k] == a);
            } else {
                assert(without(s, x).last() == a);
            }
        }
        if without(s, x).contains(a) {
            let w = without(s, x);
            let k = choose|k: int| 0 <= k < w.len() && w[k] == a;
            if s.last() != x && k == w.len() - 1 {
                assert(s[s.len() - 1] == a);
            } else {
                assert(without(init, x)[k] == a);
                assert(without(init, x).contains(a));
                let i = choose|i: int| 0 <= i < init.len() && init[i] == a;
                assert(s[i] == a);
            }
        }
    }
}

proof fn lemma_steps_from_more(g: MolGraph, walks: Seq<Seq<usize>>, walk: Seq<usize>)
    requires
        walks.len() > 0,
        steps_from(g, walks.drop_last(), walk),
    ensures
        steps_from(g, walks, walk),
{
    let (m, a) = choose|m: int, a: usize|
        0 <= m < walks.drop_last().len() && onward(g, walks.drop_last()[m]).contains(a) && walk
            == (#[trigger] walks.drop_last()[m].push(a));
    assert(walks[m] == walks.drop_last()[m]);
    assert(walk == walks[m].push(a));
}

/// Every walk after a round of growth is one of the walks before it with one
/// of its onward atoms at its end.
pub proof fn lemma_grown_steps(g: MolGraph, walks: Seq<Seq<usize>>)
    ensures
        forall|k: int|
            0 <= k < continued(g, walks).len() ==> steps_from(
                g,
                walks,
                #[trigger] continued(g, walks)[k],
            ),
        forall|k: int|
            0 <= k < branched(g, walks).len() ==> steps_from(
                g,
                walks,
                #[trigger] branched(g, walks)[k],
            ),
        forall|k: int|
            0 <= k < grown(g, walks).len() ==> steps_from(g, walks, #[trigger] grown(g, walks)[k]),
    decreases walks.len(),
{
    if walks.len() > 0 {
        let init = walks.drop_last();
        let last = walks.last();
        let on = onward(g, last);
        lemma_grown_steps(g, init);
        assert(walks[walks.len() - 1] == last);
        assert forall|k: int| 0 <= k < continued(g, walks).len() implies steps_from(
            g,
            walks,
            #[trigger] continued(g, walks)[k],
        ) by {
            if k < continued(g, init).len() {
                assert(continued(g, walks)[k] == continued(g, init)[k]);
                lemma_steps_from_more(g, walks, continued(g, walks)[k]);
            } else {
                assert(on.contains(on[0]));
                assert(continued(g, walks)[k] == walks[walks.len() - 1].push(on[0]));
            }
        }
        assert forall|k: int| 0 <= k < branched(g, walks).len() implies steps_from(
            g,
            walks,
            #[trigger] branched(g, walks)[k],
        ) by {
            if k < branched(g, init).len() {
                assert(branched(g, walks)[k] == branched(g, init)[k]);
                lemma_steps_from_more(g, walks, branched(g, walks)[k]);
            } else {
                let j = k - branched(g, init).len();
                assert(branched(g, walks)[k] == branches_of(g, last)[j]);
                assert(on.contains(on[j + 1]));
                assert(branched(g, walks)[k] == walks[walks.len() - 1].push(on[j + 1]));
            }
        }
    }
    assert forall|k: int| 0 <= k < grown(g, walks).len() implies steps_from(
        g,
        walks,
        #[trigger] grown(g, walks)[k],
    ) by {
        if k < continued(g, walks).len() {
            assert(grown(g, walks)[k] == continued(g, walks)[k]);
        } else {
            assert(grown(g, walks)[k] == branched(g, walks)[k - continued(g, walks).len()]);
        }
    }
}

/// A simple walk with one of its onward atoms at its end still goes from
/// neighbour to neighbour, and comes to no atom twice before its last.
pub proof fn lemma_step_closing(g: MolGraph, walk: Seq<usize>, a: usize)
    requires
        simple_walk(g, walk),
        onward(g, walk).contains(a),
    ensures
        closing_walk(g, walk.push(a)),
{
    let next = walk.push(a);
    lemma_without(neighbors_of(g, walk.last()), walk[walk.len() - 2], a);
    assert(next.drop_last() =~= walk);
    assert forall|i: int| 0 <= i < next.len() - 1 implies neighbors_of(
        g,
        #[trigger] next[i],
    ).contains(next[i + 1]) by {
        if i < walk.len() - 1 {
            assert(neighbors_of(g, walk[i]).contains(walk[i + 1]));
        }
    }
}

/// The ring that a closing walk has closed is a cycle of the graph.
pub proof fn lemma_ring_is_cycle(g: MolGraph, walk: Seq<usize>)
    requires
        closing_walk(g, walk),
        !walk.no_duplicates(),
    ensures
        is_cycle(g, ring_of(walk)),
{
    lemma_first_repeat(walk);
    let fr = first_repeat(walk);
    let ring = ring_of(walk);
    let init = walk.drop_last();
    let end = walk.len() - 1;
    let j = choose|j: int| fr < j < walk.len() && #[trigger] walk[j] == walk[fr];
    if j < end {
        assert(init[fr] == init[j]);
    }
    assert(j == end);
    assert forall|a: int, b: int| 0 <= a < ring.len() && 0 <= b < ring.len() && a != b implies ring[a]
        != ring[b] by {
        let x = fr + 1 + a;
        let y = fr + 1 + b;
        assert(ring[a] == walk[x] && ring[b] == walk[y]);
        if x < end && y < end {
            assert(init[x] == walk[x] && init[y] == walk[y]);
        } else if x == end {
            assert(init[fr] == walk[fr] && init[y] == walk[y]);
        } else {
            assert(init[fr] == walk[fr] && init[x] == walk[x]);
        }
    }
    assert forall|i: int| 0 <= i < ring.len() - 1 implies neighbors_of(
        g,
        #[trigger] ring[i],
    ).contains(ring[i + 1]) by {
        assert(ring[i] == walk[fr + 1 + i]);
        assert(ring[i + 1] == walk[fr + 1 + i + 1]);
    }
    assert(ring[0] == walk[fr + 1]);
    assert(ring.last() == walk[end]);
    assert(neighbors_of(g, walk[fr]).contains(walk[fr + 1]));
}

/// Of closing walks, those that go on are simple walks, and the rings that
/// the others have closed are cycles of the graph.
pub proof fn lemma_split_closing(g: MolGraph, walks: Seq<Seq<usize>>)
    requires
        forall|i: int| 0 <= i < walks.len() ==> closing_walk(g, #[trigger] walks[i]),
    ensures
        forall|i: int|
            0 <= i < open_walks(walks).len() ==> simple_walk(g, #[trigger] open_walks(walks)[i]),
        forall|i: int|
            0 <= i < closed_rings(walks).len() ==> is_cycle(g, #[trigger] closed_rings(walks)[i]),
    decreases walks.len(),
{
    if walks.len() > 0 {
        let init = walks.drop_last();
        assert forall|i: int| 0 <= i < init.len() implies closing_walk(g, #[trigger] init[i]) by {
            assert(init[i] == walks[i]);
        }
        lemma_split_closing(g, init);
        let last = walks.last();
        assert(closing_walk(g, walks[walks.len() - 1]));
        if !last.no_duplicates() {
            lemma_ring_is_cycle(g, last);
        }
        assert forall|i: int| 0 <= i < open_walks(walks).len() implies simple_walk(
            g,
            #[trigger] open_walks(walks)[i],
        ) by {
            if i < open_walks(init).len() {
                assert(open_walks(walks)[i] == open_walks(init)[i]);
            } else {
                assert(open_walks(walks)[i] == last);
            }
        }
        assert forall|i: int| 0 <= i < closed_rings(walks).len() implies is_cycle(
            g,
            #[trigger] closed_rings(walks)[i],
        ) by {
            if i < closed_rings(init).len() {
                assert(closed_rings(walks)[i] == closed_rings(init)[i]);
            } else {
                assert(closed_rings(walks)[i] == ring_of(last));
            }
        }
    }
}

/// Every ring found from simple walks is a cycle of the graph.
pub proof fn lemma_rings_found_are_cycles(g: MolGraph, walks: Seq<Seq<usize>>, rounds: nat)
    requires
        forall|i: int| 0 <= i < walks.len() ==> simple_walk(g, #[trigger] walks[i]),
    ensures
        forall|i: int|
            0 <= i < rings_found(g, walks, rounds).len() ==> is_cycle(
                g,
                #[trigger] rings_found(g, walks, rounds)[i],
            ),
    decreases rounds,
{
    if rounds > 0 && walks.len() > 0 {
        let next = grown(g, walks);
        lemma_grown_steps(g, walks);
        assert forall|i: int| 0 <= i < next.len() implies closing_walk(g, #[trigger] next[i]) by {
            assert(steps_from(g, walks, next[i]));
            let (m, a) = choose|m: int, a: usize|
                0 <= m < walks.len() && onward(g, walks[m]).contains(a) && next[i] == (
                #[trigger] walks[m].push(a));
            lemma_step_closing(g, walks[m], a);
        }
        lemma_split_closing(g, next);
        lemma_rings_found_are_cycles(g, open_walks(next), (rounds - 1) as nat);
        let rest = rings_found(g, open_walks(next), (rounds - 1) as nat);
        assert forall|i: int| 0 <= i < rings_found(g, walks, rounds).len() implies is_cycle(
            g,
            #[trigger] rings_found(g, walks, rounds)[i],
        ) by {
            if i < closed_rings(next).len() {
                assert(rings_found(g, walks, rounds)[i] == closed_rings(next)[i]);
            } else {
                assert(rings_found(g, walks, rounds)[i] == rest[i - closed_rings(next).len()]);
            }
        }
    }
}

/// In a graph without a bond from atom 0 to itself, every ring that ring
/// perception finds is a cycle of the graph.
pub proof fn lemma_perceived_rings_are_cycles(g: MolGraph)
    requires
        !neighbors_of(g, 0).contains(0),
    ensures
        forall|i: int| 0 <= i < perceived(g).len() ==> is_cycle(g, #[trigger] perceived(g)[i]),
{
    let walks = first_walks(g);
    assert forall|i: int| 0 <= i < walks.len() implies simple_walk(g, #[trigger] walks[i]) by {
        let n = neighbors_of(g, 0)[i];
        assert(walks[i] == seq![0usize, n]);
        assert(neighbors_of(g, 0).contains(n));
        assert(walks[i][0] == 0 && walks[i][1] == n);
    }
    lemma_rings_found_are_cycles(g, walks, graph_atoms(g).len());
}

} // verus!
