//! The list of rings of a molecule: telling rings with the same atoms apart
//! from those with different ones, and ordering rings by size.

use vstd::prelude::*;
use vstd::relations::{sorted_by, total_ordering};
use vstd::seq_lib::{lemma_sorted_unique, to_multiset_build, to_multiset_insert};

verus! {

/// The sequences of atom indices that a vector of rings holds.
pub open spec fn ring_views(rings: Seq<Box<Vec<usize>>>) -> Seq<Seq<usize>> {
    rings.map_values(|r: Box<Vec<usize>>| r@)
}

/// Whether two rings run through the same atoms, each as often in the one as
/// in the other, in whatever order and direction.
pub open spec fn same_atoms(a: Seq<usize>, b: Seq<usize>) -> bool {
    a.to_multiset() == b.to_multiset()
}

/// Two rings that each come to no atom twice have the same atoms exactly
/// where they have the same set of atoms.
pub proof fn lemma_same_atoms_as_sets(a: Seq<usize>, b: Seq<usize>)
    requires
        a.no_duplicates(),
        b.no_duplicates(),
    ensures
        same_atoms(a, b) <==> a.to_set() == b.to_set(),
{
    broadcast use vstd::seq_lib::group_to_multiset_ensures;

    a.lemma_multiset_has_no_duplicates();
    b.lemma_multiset_has_no_duplicates();
    if a.to_set() == b.to_set() {
        assert forall|x: usize| a.to_multiset().count(x) == b.to_multiset().count(x) by {
            assert(a.contains(x) <==> a.to_set().contains(x));
            assert(b.contains(x) <==> b.to_set().contains(x));
        }
        assert(a.to_multiset() =~= b.to_multiset());
    }
    if same_atoms(a, b) {
        assert forall|x: usize| a.to_set().contains(x) <==> b.to_set().contains(x) by {
            assert(a.contains(x) <==> a.to_multiset().count(x) > 0);
            assert(b.contains(x) <==> b.to_multiset().count(x) > 0);
        }
        assert(a.to_set() =~= b.to_set());
    }
}

/// Whether the ring at position `i` has the same atoms as a ring before it.
pub open spec fn seen_before(rings: Seq<Seq<usize>>, i: int) -> bool {
    exists|j: int| 0 <= j < i && same_atoms(#[trigger] rings[j], rings[i])
}

/// The rings from position `i` on, without those that have the same atoms as
/// a ring before them in the whole list.
pub open spec fn distinct_from(rings: Seq<Seq<usize>>, i: int) -> Seq<Seq<usize>>
    decreases rings.len() - i,
{
    if i < 0 || i >= rings.len() {
        Seq::empty()
    } else if seen_before(rings, i) {
        distinct_from(rings, i + 1)
    } else {
        seq![rings[i]] + distinct_from(rings, i + 1)
    }
}

/// The rings without those that have the same atoms as a ring before them:
/// of several rings with the same atoms the first stays.
pub open spec fn distinct_rings(rings: Seq<Seq<usize>>) -> Seq<Seq<usize>> {
    distinct_from(rings, 0)
}

/// The position of the first ring with at least `size` atoms, or the number
/// of rings where all are smaller.
pub open spec fn place_of(rings: Seq<Seq<usize>>, size: nat) -> int
    decreases rings.len(),
{
    if rings.len() == 0 || rings[0].len() >= size {
        0
    } else {
        1 + place_of(rings.drop_first(), size)
    }
}

/// The rings with `ring` put in after the rings that are smaller than it and
/// before all others.
pub open spec fn placed(rings: Seq<Seq<usize>>, ring: Seq<usize>) -> Seq<Seq<usize>> {
    rings.insert(place_of(rings, ring.len()), ring)
}

/// The rings in the order of their sizes, smallest first, rings of one size
/// in the order in which they were.
pub open spec fn sorted_by_size(rings: Seq<Seq<usize>>) -> Seq<Seq<usize>>
    decreases rings.len(),
{
    if rings.len() == 0 {
        Seq::empty()
    } else {
        placed(sorted_by_size(rings.drop_first()), rings[0])
    }
}

/// Whether no ring is larger than a ring after it.
pub open spec fn ordered_by_size(rings: Seq<Seq<usize>>) -> bool {
    forall|i: int, j: int|
        0 <= i < j < rings.len() ==> (#[trigger] rings[i]).len() <= (#[trigger] rings[j]).len()
}

/// Whether no two rings have the same atoms.
pub open spec fn all_different(rings: Seq<Seq<usize>>) -> bool {
    forall|i: int, j: int|
        0 <= i < j < rings.len() ==> !same_atoms(#[trigger] rings[i], #[trigger] rings[j])
}

/// `place_of` is where the rings that are smaller than `size` end.
pub proof fn lemma_place_of(rings: Seq<Seq<usize>>, size: nat)
    ensures
        0 <= place_of(rings, size) <= rings.len(),
        forall|k: int| 0 <= k < place_of(rings, size) ==> (#[trigger] rings[k]).len() < size,
        place_of(rings, size) < rings.len() ==> rings[place_of(rings, size)].len() >= size,
    decreases rings.len(),
{
    if rings.len() == 0 || rings[0].len() >= size {
    } else {
        let rest = rings.drop_first();
        lemma_place_of(rest, size);
        assert forall|k: int| 0 <= k < place_of(rings, size) implies (#[trigger] rings[k]).len()
            < size by {
            if k > 0 {
                assert(rings[k] == rest[k - 1]);
            }
        }
        if place_of(rings, size) < rings.len() {
            assert(rings[place_of(rings, size)] == rest[place_of(rest, size)]);
        }
    }
}

/// Putting a ring in place keeps rings that are ordered by size ordered.
/// The rings are then those that were there and the new one, and where no
/// two of these have the same atoms, no two in the result have.
pub proof fn lemma_placed(rings: Seq<Seq<usize>>, ring: Seq<usize>)
    requires
        ordered_by_size(rings),
    ensures
        ordered_by_size(placed(rings, ring)),
        placed(rings, ring).len() == rings.len() + 1,
        forall|x: Seq<usize>|
            #[trigger] placed(rings, ring).contains(x) <==> rings.contains(x) || x == ring,
        all_different(rings) && (forall|k: int|
            0 <= k < rings.len() ==> !same_atoms(#[trigger] rings[k], ring)) ==> all_different(
            placed(rings, ring),
        ),
{
    let p = place_of(rings, ring.len());
    let out = placed(rings, ring);
    lemma_place_of(rings, ring.len());
    rings.insert_ensures(p, ring);
    assert forall|k: int| 0 <= k < out.len() implies #[trigger] out[k] == (if k < p {
        rings[k]
    } else if k == p {
        ring
    } else {
        rings[k - 1]
    }) by {
        if k > p {
            assert(out[(k - 1) + 1] == rings[k - 1]);
        }
    }
    assert forall|i: int, j: int| 0 <= i < j < out.len() implies (#[trigger] out[i]).len() <= (
    #[trigger] out[j]).len() by {
        if i < p && j > p {
            assert(rings[i].len() <= rings[j - 1].len());
        } else if i == p {
            assert(rings[p].len() <= rings[j - 1].len() || p == j - 1);
        } else if j == p {
        } else if j < p {
            assert(rings[i].len() <= rings[j].len());
        } else {
            assert(rings[i - 1].len() <= rings[j - 1].len());
        }
    }
    assert forall|x: Seq<usize>| #[trigger] out.contains(x) <==> rings.contains(x) || x
        == ring by {
        if out.contains(x) {
            let k = choose|k: int| 0 <= k < out.len() && out[k] == x;
            if k < p {
                assert(rings[k] == x);
            } else if k > p {
                assert(rings[k - 1] == x);
            }
        }
        if rings.contains(x) {
            let k = choose|k: int| 0 <= k < rings.len() && rings[k] == x;
            if k < p {
                assert(out[k] == x);
            } else {
                assert(out[k + 1] == x);
            }
        }
        if x == ring {
            assert(out[p] == x);
        }
    }
    if all_different(rings) && (forall|k: int|
        0 <= k < rings.len() ==> !same_atoms(#[trigger] rings[k], ring)) {
        assert forall|i: int, j: int| 0 <= i < j < out.len() implies !same_atoms(
            #[trigger] out[i],
            #[trigger] out[j],
        ) by {
            let a = if i < p {
                i
            } else {
                i - 1
            };
            let b = if j < p {
                j
            } else {
                j - 1
            };
            if i == p {
                assert(!same_atoms(rings[b], ring));
            } else if j == p {
                assert(!same_atoms(rings[a], ring));
            } else {
                assert(!same_atoms(rings[a], rings[b]));
            }
        }
    }
}

/// Ordering by size gives the same rings, no ring larger than a ring after
/// it. Where no two rings had the same atoms, no two have.
pub proof fn lemma_sorted_by_size(rings: Seq<Seq<usize>>)
    ensures
        ordered_by_size(sorted_by_size(rings)),
        sorted_by_size(rings).len() == rings.len(),
        forall|x: Seq<usize>| #[trigger] sorted_by_size(rings).contains(x) <==> rings.contains(x),
        all_different(rings) ==> all_different(sorted_by_size(rings)),
    decreases rings.len(),
{
    if rings.len() > 0 {
        let rest = rings.drop_first();
        let sorted = sorted_by_size(rest);
        lemma_sorted_by_size(rest);
        lemma_placed(sorted, rings[0]);
        assert forall|x: Seq<usize>| #[trigger]
            sorted_by_size(rings).contains(x) <==> rings.contains(x) by {
            if rest.contains(x) {
                let k = choose|k: int| 0 <= k < rest.len() && rest[k] == x;
                assert(rings[k + 1] == x);
            }
            if rings.contains(x) {
                let k = choose|k: int| 0 <= k < rings.len() && rings[k] == x;
                if k > 0 {
                    assert(rest[k - 1] == x);
                }
            }
        }
        if all_different(rings) {
            assert forall|i: int, j: int| 0 <= i < j < rest.len() implies !same_atoms(
                #[trigger] rest[i],
                #[trigger] rest[j],
            ) by {
                assert(!same_atoms(rings[i + 1], rings[j + 1]));
            }
            assert forall|k: int| 0 <= k < sorted.len() implies !same_atoms(
                #[trigger] sorted[k],
                rings[0],
            ) by {
                assert(sorted.contains(sorted[k]));
                assert(rest.contains(sorted[k]));
                let m = choose|m: int| 0 <= m < rest.len() && rest[m] == sorted[k];
                assert(!same_atoms(rings[0], rings[m + 1]));
            }
        }
    } else {
        assert forall|x: Seq<usize>| #[trigger]
            sorted_by_size(rings).contains(x) <==> rings.contains(x) by {}
    }
}

/// The rings with `size` atoms, in their order.
pub open spec fn of_size(rings: Seq<Seq<usize>>, size: nat) -> Seq<Seq<usize>>
    decreases rings.len(),
{
    if rings.len() == 0 {
        Seq::empty()
    } else if rings[0].len() == size {
        seq![rings[0]] + of_size(rings.drop_first(), size)
    } else {
        of_size(rings.drop_first(), size)
    }
}

/// The rings of one size in two lists, one after the other, are those in the
/// first list, then those in the second.
pub proof fn lemma_of_size_add(a: Seq<Seq<usize>>, b: Seq<Seq<usize>>, size: nat)
    ensures
        of_size(a + b, size) == of_size(a, size) + of_size(b, size),
    decreases a.len(),
{
    if a.len() == 0 {
        assert(a + b =~= b);
        assert(of_size(a, size) + of_size(b, size) =~= of_size(b, size));
    } else {
        assert((a + b).drop_first() =~= a.drop_first() + b);
        lemma_of_size_add(a.drop_first(), b, size);
        assert(of_size(a + b, size) =~= of_size(a, size) + of_size(b, size));
    }
}

/// Among rings that are all smaller than `size` none has that size.
pub proof fn lemma_of_size_none(rings: Seq<Seq<usize>>, size: nat)
    requires
        forall|k: int| 0 <= k < rings.len() ==> (#[trigger] rings[k]).len() < size,
    ensures
        of_size(rings, size) == Seq::<Seq<usize>>::empty(),
    decreases rings.len(),
{
    if rings.len() > 0 {
        assert(rings[0].len() < size);
        assert forall|k: int| 0 <= k < rings.drop_first().len() implies (
        #[trigger] rings.drop_first()[k]).len() < size by {
            assert(rings.drop_first()[k] == rings[k + 1]);
        }
        lemma_of_size_none(rings.drop_first(), size);
    }
}

/// A ring that is put in place comes before the rings of its size that were
/// there, and leaves the rings of each other size as they were.
pub proof fn lemma_placed_keeps_order(rings: Seq<Seq<usize>>, ring: Seq<usize>, size: nat)
    ensures
        of_size(placed(rings, ring), size) == (if ring.len() == size {
            seq![ring] + of_size(rings, size)
        } else {
            of_size(rings, size)
        }),
{
    let p = place_of(rings, ring.len());
    lemma_place_of(rings, ring.len());
    let front = rings.take(p);
    let back = rings.skip(p);
    assert(rings =~= front + back);
    assert(placed(rings, ring) =~= front + (seq![ring] + back));
    lemma_of_size_add(front, back, size);
    lemma_of_size_add(front, seq![ring] + back, size);
    lemma_of_size_add(seq![ring], back, size);
    let one = seq![ring];
    assert(one.drop_first().len() == 0);
    assert(of_size(one.drop_first(), size) =~= Seq::<Seq<usize>>::empty());
    assert(one[0] == ring);
    assert(of_size(one, size) =~= (if ring.len() == size {
        seq![ring]
    } else {
        Seq::<Seq<usize>>::empty()
    }));
    if ring.len() == size {
        assert forall|k: int| 0 <= k < front.len() implies (#[trigger] front[k]).len() < size by {
            assert(front[k] == rings[k]);
        }
        lemma_of_size_none(front, size);
        assert(of_size(placed(rings, ring), size) =~= seq![ring] + of_size(rings, size));
    } else {
        assert(of_size(placed(rings, ring), size) =~= of_size(rings, size));
    }
}

/// Ordering by size leaves the rings of each size in the order in which
/// they were.
pub proof fn lemma_sorted_by_size_stable(rings: Seq<Seq<usize>>, size: nat)
    ensures
        of_size(sorted_by_size(rings), size) == of_size(rings, size),
    decreases rings.len(),
{
    if rings.len() > 0 {
        lemma_sorted_by_size_stable(rings.drop_first(), size);
        lemma_placed_keeps_order(sorted_by_size(rings.drop_first()), rings[0], size);
    }
}

/// Whether `ring` is one of the rings from position `i` on that have not the
/// same atoms as a ring before them.
pub open spec fn first_of_its_atoms(rings: Seq<Seq<usize>>, i: int, ring: Seq<usize>) -> bool {
    exists|k: int| i <= k < rings.len() && !seen_before(rings, k) && #[trigger] rings[k] == ring
}

/// What `distinct_from` keeps: each ring from position `i` on that has not
/// the same atoms as a ring before it, and nothing else. No two of the rings
/// kept have the same atoms.
pub proof fn lemma_distinct_from(rings: Seq<Seq<usize>>, i: int)
    requires
        0 <= i,
    ensures
        forall|x: Seq<usize>| #[trigger]
            distinct_from(rings, i).contains(x) <==> first_of_its_atoms(rings, i, x),
        all_different(distinct_from(rings, i)),
    decreases rings.len() - i,
{
    let d = distinct_from(rings, i);
    if i >= rings.len() {
        assert forall|x: Seq<usize>| #[trigger] d.contains(x) <==> first_of_its_atoms(rings, i, x) by {}
    } else {
        let rest = distinct_from(rings, i + 1);
        lemma_distinct_from(rings, i + 1);
        if seen_before(rings, i) {
            assert forall|x: Seq<usize>| #[trigger]
                d.contains(x) <==> first_of_its_atoms(rings, i, x) by {
                if first_of_its_atoms(rings, i, x) {
                    let k = choose|k: int|
                        i <= k < rings.len() && !seen_before(rings, k) && #[trigger] rings[k] == x;
                    assert(k >= i + 1);
                    assert(first_of_its_atoms(rings, i + 1, x));
                }
                if d.contains(x) {
                    assert(first_of_its_atoms(rings, i + 1, x));
                    let k = choose|k: int|
                        i + 1 <= k < rings.len() && !seen_before(rings, k) && #[trigger] rings[k]
                            == x;
                    assert(first_of_its_atoms(rings, i, x));
                }
            }
        } else {
            assert(d.len() == rest.len() + 1);
            assert(d[0] == rings[i]);
            assert forall|k: int| 1 <= k < d.len() implies #[trigger] d[k] == rest[k - 1] by {}
            assert forall|x: Seq<usize>| #[trigger]
                d.contains(x) <==> first_of_its_atoms(rings, i, x) by {
                if first_of_its_atoms(rings, i, x) {
                    let k = choose|k: int|
                        i <= k < rings.len() && !seen_before(rings, k) && #[trigger] rings[k] == x;
                    if k == i {
                        assert(d[0] == x);
                    } else {
                        assert(first_of_its_atoms(rings, i + 1, x));
                        assert(rest.contains(x));
                        let m = choose|m: int| 0 <= m < rest.len() && rest[m] == x;
                        assert(d[m + 1] == x);
                    }
                }
                if d.contains(x) {
                    let m = choose|m: int| 0 <= m < d.len() && d[m] == x;
                    if m == 0 {
                        assert(rings[i] == x);
                        assert(first_of_its_atoms(rings, i, x));
                    } else {
                        assert(rest[m - 1] == x);
                        assert(rest.contains(x));
                        assert(first_of_its_atoms(rings, i + 1, x));
                        let k = choose|k: int|
                            i + 1 <= k < rings.len() && !seen_before(rings, k) && #[trigger] rings[k]
                                == x;
                        assert(first_of_its_atoms(rings, i, x));
                    }
                }
            }
            assert forall|a: int, b: int| 0 <= a < b < d.len() implies !same_atoms(
                #[trigger] d[a],
                #[trigger] d[b],
            ) by {
                if a == 0 {
                    assert(rest.contains(rest[b - 1]));
                    assert(first_of_its_atoms(rings, i + 1, d[b]));
                    let k = choose|k: int|
                        i + 1 <= k < rings.len() && !seen_before(rings, k) && #[trigger] rings[k]
                            == d[b];
                    if same_atoms(d[a], d[b]) {
                        assert(same_atoms(rings[i], rings[k]));
                        assert(seen_before(rings, k));
                    }
                } else {
                    assert(!same_atoms(rest[a - 1], rest[b - 1]));
                }
            }
        }
    }
}

/// What is left of a list of rings after the repeated ones are dropped and
/// the others are ordered by size: no ring is larger than a ring after it,
/// rings of one size are in the order in which they were, no two rings have
/// the same atoms, every ring left is a ring of the list, and every ring of
/// the list has its atoms in a ring that is left.
pub proof fn lemma_distinct_sorted(rings: Seq<Seq<usize>>)
    ensures
        ordered_by_size(sorted_by_size(distinct_rings(rings))),
        forall|size: nat| #[trigger]
            of_size(sorted_by_size(distinct_rings(rings)), size) == of_size(
                distinct_rings(rings),
                size,
            ),
        all_different(sorted_by_size(distinct_rings(rings))),
        forall|x: Seq<usize>| #[trigger]
            sorted_by_size(distinct_rings(rings)).contains(x) ==> rings.contains(x),
        forall|k: int|
            0 <= k < rings.len() ==> exists|x: Seq<usize>|
                #[trigger] sorted_by_size(distinct_rings(rings)).contains(x) && same_atoms(
                    x,
                    #[trigger] rings[k],
                ),
{
    let d = distinct_rings(rings);
    let out = sorted_by_size(d);
    lemma_distinct_from(rings, 0);
    lemma_sorted_by_size(d);
    assert forall|size: nat| #[trigger] of_size(out, size) == of_size(d, size) by {
        lemma_sorted_by_size_stable(d, size);
    }
    assert forall|x: Seq<usize>| #[trigger] out.contains(x) implies rings.contains(x) by {
        assert(d.contains(x));
        assert(first_of_its_atoms(rings, 0, x));
    }
    assert forall|k: int| 0 <= k < rings.len() implies exists|x: Seq<usize>|
        #[trigger] out.contains(x) && same_atoms(x, #[trigger] rings[k]) by {
        lemma_first_with_atoms(rings, k);
        let j = choose|j: int| 0 <= j <= k && !seen_before(rings, j) && same_atoms(
            #[trigger] rings[j],
            rings[k],
        );
        assert(first_of_its_atoms(rings, 0, rings[j]));
        assert(d.contains(rings[j]));
        assert(out.contains(rings[j]));
    }
}

/// Among the rings up to position `k` with the atoms of the ring at `k`
/// there is a first one.
pub proof fn lemma_first_with_atoms(rings: Seq<Seq<usize>>, k: int)
    requires
        0 <= k < rings.len(),
    ensures
        exists|j: int|
            0 <= j <= k && !seen_before(rings, j) && same_atoms(#[trigger] rings[j], rings[k]),
    decreases k,
{
    if seen_before(rings, k) {
        let m = choose|m: int| 0 <= m < k && same_atoms(#[trigger] rings[m], rings[k]);
        lemma_first_with_atoms(rings, m);
        let j = choose|j: int|
            0 <= j <= m && !seen_before(rings, j) && same_atoms(#[trigger] rings[j], rings[m]);
        assert(same_atoms(rings[j], rings[k]));
    } else {
        assert(same_atoms(rings[k], rings[k]));
    }
}

/// Whether the numbers never go down.
pub open spec fn ascending(s: Seq<usize>) -> bool {
    forall|i: int, j: int| 0 <= i < j < s.len() ==> (#[trigger] s[i]) <= (#[trigger] s[j])
}

/// The order of the natural numbers, as a relation.
pub open spec fn at_most() -> spec_fn(usize, usize) -> bool {
    |a: usize, b: usize| a <= b
}

/// Two rings have the same atoms exactly where their atoms, put in
/// ascending order, are the same sequence.
pub proof fn lemma_same_atoms_by_order(a: Seq<usize>, b: Seq<usize>, ka: Seq<usize>, kb: Seq<usize>)
    requires
        ascending(ka),
        ascending(kb),
        ka.to_multiset() == a.to_multiset(),
        kb.to_multiset() == b.to_multiset(),
    ensures
        same_atoms(a, b) <==> ka == kb,
{
    if same_atoms(a, b) {
        assert(sorted_by(ka, at_most()));
        assert(sorted_by(kb, at_most()));
        assert(total_ordering(at_most()));
        lemma_sorted_unique(ka, kb, at_most());
    }
}

/// The numbers of `v` in ascending order.
pub fn sorted_copy(v: &Vec<usize>) -> (r: Vec<usize>)
    ensures
        ascending(r@),
        r@.to_multiset() == v@.to_multiset(),
{
    let mut r: Vec<usize> = Vec::new();
    let mut i: usize = 0;
    proof {
        assert(r@ =~= v@.take(0));
    }
    while i < v.len()
        invariant
            i <= v@.len(),
            r@.len() == i,
            ascending(r@),
            r@.to_multiset() == v@.take(i as int).to_multiset(),
        decreases v@.len() - i,
    {
        let x: usize = v[i];
        let mut p: usize = 0;
        while p < r.len() && r[p] <= x
            invariant
                p <= r@.len(),
                forall|k: int| 0 <= k < p ==> (#[trigger] r@[k]) <= x,
            decreases r@.len() - p,
        {
            p += 1;
        }
        let ghost before = r@;
        r.insert(p, x);
        proof {
            before.insert_ensures(p as int, x);
            to_multiset_insert(before, p as int, x);
            to_multiset_build(v@.take(i as int), x);
            assert(v@.take(i + 1) =~= v@.take(i as int).push(x));
            assert forall|a: int, b: int| 0 <= a < b < r@.len() implies (#[trigger] r@[a]) <= (
            #[trigger] r@[b]) by {
                if a < p && b > p {
                    assert(r@[a] == before[a]);
                    assert(r@[b] == before[b - 1]);
                } else if a < p && b < p {
                    assert(r@[a] == before[a] && r@[b] == before[b]);
                } else if a > p {
                    assert(r@[a] == before[a - 1] && r@[b] == before[b - 1]);
                } else if a == p {
                    assert(r@[b] == before[b - 1]);
                    assert(before[p as int] > x);
                    assert(before[p as int] <= before[b - 1]);
                } else {
                    assert(r@[a] == before[a]);
                }
            }
        }
        i += 1;
    }
    proof {
        assert(v@.take(i as int) =~= v@);
    }
    r
}

/// Whether two vectors hold the same numbers in the same order.
pub fn same_sequence(a: &Vec<usize>, b: &Vec<usize>) -> (same: bool)
    ensures
        same == (a@ == b@),
{
    if a.len() != b.len() {
        return false;
    }
    let mut i: usize = 0;
    while i < a.len()
        invariant
            i <= a@.len(),
            a@.len() == b@.len(),
            forall|k: int| 0 <= k < i ==> a@[k] == b@[k],
        decreases a@.len() - i,
    {
        if a[i] != b[i] {
            return false;
        }
        i += 1;
    }
    proof {
        assert(a@ =~= b@);
    }
    true
}

/// For each ring, whether it has the same atoms as a ring before it.
#[verifier::loop_isolation(false)]
pub fn repeated_rings(rings: &Vec<Box<Vec<usize>>>) -> (seen: Vec<bool>)
    ensures
        seen@.len() == rings@.len(),
        forall|i: int|
            0 <= i < rings@.len() ==> (#[trigger] seen@[i]) == seen_before(ring_views(rings@), i),
{
    let ghost rs = ring_views(rings@);
    let mut keys: Vec<Vec<usize>> = Vec::new();
    let mut i: usize = 0;
    while i < rings.len()
        invariant
            i <= rings@.len(),
            keys@.len() == i,
            forall|k: int|
                0 <= k < i ==> ascending((#[trigger] keys@[k])@) && keys@[k]@.to_multiset()
                    == rs[k].to_multiset(),
        decreases rings@.len() - i,
    {
        let key: Vec<usize> = sorted_copy(&rings[i]);
        keys.push(key);
        i += 1;
    }
    let mut seen: Vec<bool> = Vec::new();
    let mut a: usize = 0;
    while a < rings.len()
        invariant
            a <= rings@.len(),
            seen@.len() == a,
            forall|k: int| 0 <= k < a ==> (#[trigger] seen@[k]) == seen_before(rs, k),
        decreases rings@.len() - a,
    {
        let mut found: bool = false;
        let mut b: usize = 0;
        while b < a
            invariant
                b <= a,
                found == (exists|j: int| 0 <= j < b && same_atoms(#[trigger] rs[j], rs[a as int])),
            decreases a - b,
        {
            let same: bool = same_sequence(&keys[b], &keys[a]);
            proof {
                lemma_same_atoms_by_order(rs[b as int], rs[a as int], keys@[b as int]@, keys@[a as int]@);
                if same {
                    assert(same_atoms(rs[b as int], rs[a as int]));
                }
            }
            if same {
                found = true;
            }
            b += 1;
        }
        seen.push(found);
        a += 1;
    }
    seen
}

/// The rings without those that have the same atoms as a ring before them,
/// in the order of their sizes.
#[verifier::loop_isolation(false)]
pub fn distinct_sorted(rings: Vec<Box<Vec<usize>>>) -> (out: Vec<Box<Vec<usize>>>)
    ensures
        ring_views(out@) == sorted_by_size(distinct_rings(ring_views(rings@))),
{
    let ghost rs = ring_views(rings@);
    let seen: Vec<bool> = repeated_rings(&rings);
    let mut rest: Vec<Box<Vec<usize>>> = rings;
    let mut out: Vec<Box<Vec<usize>>> = Vec::new();
    let mut i: usize = rest.len();
    proof {
        assert(ring_views(out@) =~= sorted_by_size(distinct_from(rs, i as int)));
    }
    while i > 0
        invariant
            i <= rs.len(),
            rest@.len() == i,
            ring_views(rest@) == rs.take(i as int),
            ring_views(out@) == sorted_by_size(distinct_from(rs, i as int)),
        decreases i,
    {
        i -= 1;
        let ghost rest_before = rest@;
        let ring: Box<Vec<usize>> = rest.pop().unwrap();
        proof {
            assert(ring_views(rest_before)[i as int] == rs.take(i + 1)[i as int]);
            assert(ring@ == rs[i as int]);
            assert(ring_views(rest@) =~= rs.take(i as int));
        }
        if !seen[i] {
            let size: usize = ring.len();
            let mut p: usize = 0;
            while p < out.len() && out[p].len() < size
                invariant
                    p <= out@.len(),
                    forall|k: int| 0 <= k < p ==> (#[trigger] ring_views(out@)[k]).len() < size,
                decreases out@.len() - p,
            {
                proof {
                    assert(ring_views(out@)[p as int] == out@[p as int]@);
                }
                p += 1;
            }
            let ghost out_before = out@;
            proof {
                let sorted = ring_views(out_before);
                lemma_place_of(sorted, size as nat);
                if p < out@.len() {
                    assert(sorted[p as int] == out@[p as int]@);
                }
                let q = place_of(sorted, size as nat);
                if q < p {
                    assert(sorted[q].len() < size);
                }
                if p < q {
                    assert(sorted[p as int].len() < size);
                }
                assert(p == q);
                let d = distinct_from(rs, i + 1);
                assert((seq![rs[i as int]] + d).drop_first() =~= d);
            }
            out.insert(p, ring);
            proof {
                assert(ring_views(out@) =~= ring_views(out_before).insert(p as int, ring@));
            }
        }
    }
    out
}

} // verus!
