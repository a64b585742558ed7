//! Laws the library's contracts guarantee, stated once and proved.
//!
//! Each proof function below is phrased over the same views and spec
//! functions that the executable functions' contracts use, so together with
//! those contracts it states a fact about any sequence of calls.

use crate::cells::count_live;
use crate::cells::neighbors_of;
use crate::game::cell_next_alive;
use crate::game::next_gen;
use crate::snapshot::cell_id;
use vstd::prelude::*;

verus! {

/// Marking a coordinate alive makes it read as alive; killing it afterwards
/// makes it read as dead; and both operations are idempotent: repeating a
/// `birth` or a `kill` leaves the living set exactly as one call left it.
pub proof fn lemma_birth_kill_alive(s: Set<(u32, u32)>, c: (u32, u32))
    ensures
        s.insert(c).contains(c),
        !s.insert(c).remove(c).contains(c),
        s.insert(c).insert(c) == s.insert(c),
        s.insert(c).remove(c).remove(c) == s.insert(c).remove(c),
{
    assert(s.insert(c).insert(c) =~= s.insert(c));
    assert(s.insert(c).remove(c).remove(c) =~= s.insert(c).remove(c));
}

/// A coordinate whose row and column both lie strictly inside the grid has
/// exactly eight distinct neighbors; every other coordinate, the border and
/// everything beyond it included, has none. The two cases are exhaustive:
/// row or column equal to `size - 1` still yields all eight.
pub proof fn lemma_neighbors_count(size: u32, i: u32, j: u32)
    ensures
        (1 <= i < size && 1 <= j < size) ==> neighbors_of(size, i, j).len() == 8,
        (1 <= i < size && 1 <= j < size) ==> neighbors_of(size, i, j).no_duplicates(),
        (i < 1 || j < 1 || i >= size || j >= size) ==> neighbors_of(size, i, j).len() == 0,
{
}

/// The identifiers accumulated by adding the cells of `cs` one by one,
/// starting from an already-accumulated set `acc`.
pub open spec fn added_ids(size: u32, acc: Set<u64>, cs: Seq<(u32, u32)>) -> Set<u64>
    decreases cs.len(),
{
    if cs.len() == 0 {
        acc
    } else {
        added_ids(size, acc, cs.drop_last()).insert(cell_id(size, cs.last().0, cs.last().1))
    }
}

/// Adding a list of cells folds to one union over the list's member set.
pub proof fn lemma_added_ids_members(size: u32, acc: Set<u64>, cs: Seq<(u32, u32)>)
    ensures
        added_ids(size, acc, cs) == acc.union(
            cs.to_set().map(|c: (u32, u32)| cell_id(size, c.0, c.1)),
        ),
    decreases cs.len(),
{
    let f = |c: (u32, u32)| cell_id(size, c.0, c.1);
    if cs.len() == 0 {
        assert(cs.to_set() =~= Set::<(u32, u32)>::empty());
        assert forall|y: u64| cs.to_set().map(f).contains(y) implies false by {
            let x = choose|x: (u32, u32)| cs.to_set().contains(x) && f(x) == y;
        }
        assert(added_ids(size, acc, cs) =~= acc.union(cs.to_set().map(f)));
    } else {
        let cd = cs.drop_last();
        lemma_added_ids_members(size, acc, cd);
        assert(cs =~= cd + seq![cs.last()]);
        Seq::lemma_to_set_insert_commutes(cd, cs.last());
        assert(cs.to_set() == cd.to_set().insert(cs.last()));
        assert forall|y: u64| cs.to_set().map(f).contains(y) implies cd.to_set().map(f).insert(
            f(cs.last()),
        ).contains(y) by {
            let x = choose|x: (u32, u32)| cs.to_set().contains(x) && f(x) == y;
            if x != cs.last() {
                assert(cd.to_set().contains(x));
                assert(cd.to_set().map(f).contains(y));
            }
        }
        assert forall|y: u64| cd.to_set().map(f).insert(f(cs.last())).contains(y)
            implies cs.to_set().map(f).contains(y) by {
            if y == f(cs.last()) {
                assert(cs.to_set().contains(cs.last()));
            } else {
                let x = choose|x: (u32, u32)| cd.to_set().contains(x) && f(x) == y;
                assert(cs.to_set().contains(x));
            }
        }
        assert(cs.to_set().map(f) =~= cd.to_set().map(f).insert(f(cs.last())));
        assert(added_ids(size, acc, cs) =~= acc.union(cs.to_set().map(f)));
    }
}

/// Signature canonicalization: two cell lists holding the same members, in
/// whatever order and multiplicity, accumulate the same pending identifier
/// set, and so commit identical signatures.
pub proof fn lemma_signature_order_independent(
    size: u32,
    acc: Set<u64>,
    cs1: Seq<(u32, u32)>,
    cs2: Seq<(u32, u32)>,
)
    requires
        cs1.to_set() == cs2.to_set(),
    ensures
        added_ids(size, acc, cs1) == added_ids(size, acc, cs2),
{
    lemma_added_ids_members(size, acc, cs1);
    lemma_added_ids_members(size, acc, cs2);
}

/// Over a duplicate-free list, a singleton set is counted at most once.
pub proof fn lemma_count_live_singleton(c: (u32, u32), cs: Seq<(u32, u32)>)
    requires
        cs.no_duplicates(),
    ensures
        count_live(Set::<(u32, u32)>::empty().insert(c), cs) == (if cs.contains(c) {
            1nat
        } else {
            0nat
        }),
    decreases cs.len(),
{
    let s = Set::<(u32, u32)>::empty().insert(c);
    if cs.len() > 0 {
        let cd = cs.drop_last();
        lemma_count_live_singleton(c, cd);
        if cs.last() == c {
            if cd.contains(c) {
                let t = choose|t: int| 0 <= t < cd.len() && cd[t] == c;
                assert(cs[t] == c);
                assert(false);
            }
            assert(cs.contains(c));
        } else {
            if cd.contains(c) {
                let t = choose|t: int| 0 <= t < cd.len() && cd[t] == c;
                assert(cs[t] == c);
                assert(cs.contains(c));
            } else {
                if cs.contains(c) {
                    let t = choose|t: int| 0 <= t < cs.len() && cs[t] == c;
                    if t < cs.len() - 1 {
                        assert(cd[t] == c);
                        assert(cd.contains(c));
                    }
                    assert(false);
                }
            }
        }
    }
}

/// Extinction of an isolated cell: a grid holding exactly one living cell
/// holds none at all after one tick, wherever that cell lies.
pub proof fn lemma_lone_cell_dies(size: u32, c: (u32, u32))
    ensures
        next_gen(Set::<(u32, u32)>::empty().insert(c), size) == Set::<(u32, u32)>::empty(),
{
    let s = Set::<(u32, u32)>::empty().insert(c);
    assert forall|x: (u32, u32)| next_gen(s, size).contains(x) implies false by {
        let ns = neighbors_of(size, x.0, x.1);
        lemma_neighbors_count(size, x.0, x.1);
        if ns.len() == 0 {
            assert(count_live(s, ns) == 0);
        } else {
            lemma_count_live_singleton(c, ns);
        }
        if x == c {
            // the cell itself is not among its own neighbors
            if ns.contains(c) {
                let t = choose|t: int| 0 <= t < ns.len() && ns[t] == c;
                assert(1 <= x.0 < size && 1 <= x.1 < size);
                assert(false);
            }
            assert(count_live(s, ns) <= 1);
        } else {
            // a dead cell needs three living neighbors, but at most one
            // coordinate is alive anywhere
            assert(count_live(s, ns) <= 1);
            assert(!cell_next_alive(s, size, x));
        }
    }
    assert(next_gen(s, size) =~= Set::<(u32, u32)>::empty());
}

} // verus!
