//! One simultaneous-update tick of the automaton.
//!
//! A tick reads the current generation, evaluates the rule for every cell
//! that could possibly change (a living cell or a neighbor of one), builds
//! the next generation atomically from those decisions, and commits the new
//! living set's signature to the cycle tracker. Every neighbor count is
//! taken against the prior generation: no cell's update can affect another
//! cell's count within the same tick.

use crate::cells::active_cells;
use crate::cells::count_live;
use crate::cells::neighbors_of;
use crate::cells::Cells;
use crate::snapshot::cell_id;
use crate::snapshot::Snapshot;
use vstd::prelude::*;

verus! {

/// Does cell `c` live in the next generation, judged against the living set
/// `s` of the prior generation? A living cell survives with two or three
/// living neighbors and dies of isolation or overcrowding otherwise; a dead
/// cell is born with exactly three.
pub open spec fn cell_next_alive(s: Set<(u32, u32)>, size: u32, c: (u32, u32)) -> bool {
    if s.contains(c) {
        2 <= count_live(s, neighbors_of(size, c.0, c.1)) <= 3
    } else {
        count_live(s, neighbors_of(size, c.0, c.1)) == 3
    }
}

/// The living set one tick after `s`: the candidate cells (living cells and
/// their neighbors) that the rule keeps or brings to life. A cell outside
/// the candidate set stays dead.
pub open spec fn next_gen(s: Set<(u32, u32)>, size: u32) -> Set<(u32, u32)> {
    Set::new(|c: (u32, u32)| active_cells(s, size).contains(c) && cell_next_alive(s, size, c))
}

/// The cell identifiers of a living set, as the tracker records them.
pub open spec fn ids_of(s: Set<(u32, u32)>, size: u32) -> Set<u64> {
    s.map(|c: (u32, u32)| cell_id(size, c.0, c.1))
}

/// The cells born from the first `k` candidates.
pub open spec fn born_prefix(
    cand: Seq<(u32, u32)>,
    s: Set<(u32, u32)>,
    size: u32,
    k: int,
) -> Set<(u32, u32)> {
    Set::new(
        |c: (u32, u32)|
            (exists|t: int| 0 <= t < k && #[trigger] cand[t] == c) && cell_next_alive(s, size, c),
    )
}

/// The grid of one run together with its optional cycle tracker.
pub struct Game {
    pub cells: Cells,
    pub snapshot: Option<Snapshot>,
}

impl Game {
    /// Well-formedness: the grid is well formed, and the tracker, when
    /// present, is well formed and bound to the same grid size.
    pub open spec fn wf(self) -> bool {
        &&& self.cells.wf()
        &&& (match self.snapshot {
            Some(s) => s.wf() && s.spec_size() == self.cells.spec_size(),
            None => true,
        })
    }

    /// A game over `cells`, tracking cycles when `snapshot` is present.
    pub fn new(snapshot: Option<Snapshot>, cells: Cells) -> (r: Game)
        requires
            cells.wf(),
            (match snapshot {
                Some(s) => s.wf() && s.spec_size() == cells.spec_size(),
                None => true,
            }),
        ensures
            r.wf(),
            r.cells == cells,
            r.snapshot == snapshot,
    {
        Game { cells, snapshot }
    }

    /// Advance one generation: replace the grid by `next_gen` of it and, when
    /// a tracker is present, commit the new living set's signature.
    pub fn step(&mut self)
        requires
            old(self).wf(),
            (match old(self).snapshot {
                Some(s) => s.history().len() <= usize::MAX - 3,
                None => true,
            }),
        ensures
            final(self).wf(),
            final(self).cells.spec_size() == old(self).cells.spec_size(),
            final(self).cells@ == next_gen(old(self).cells@, old(self).cells.spec_size()),
            (match (old(self).snapshot, final(self).snapshot) {
                (Some(o), Some(n)) => {
                    &&& n.spec_size() == o.spec_size()
                    &&& n.history() == o.history().push(
                        o.pending().union(
                            ids_of(
                                next_gen(old(self).cells@, old(self).cells.spec_size()),
                                o.spec_size(),
                            ),
                        ),
                    )
                    &&& n.pending() == Set::<u64>::empty()
                },
                (None, None) => true,
                _ => false,
            }),
    {
        let ghost s0 = self.cells@;
        let ghost size = self.cells.spec_size();
        let ghost snap0 = self.snapshot;
        let candidates = self.cells.living_cells_and_neighbors();
        let ghost cand = candidates@;
        let sz = self.cells.size();
        let mut next = Cells::new(sz);
        let mut k: usize = 0;
        while k < candidates.len()
            invariant
                self.cells == old(self).cells,
                s0 == self.cells@,
                size == self.cells.spec_size(),
                self.cells.wf(),
                candidates@ == cand,
                0 <= k <= cand.len(),
                next.wf(),
                next.spec_size() == size,
                next@ =~= born_prefix(cand, s0, size, k as int),
                (match (snap0, self.snapshot) {
                    (Some(o), Some(n)) => {
                        &&& n.wf()
                        &&& n.spec_size() == o.spec_size()
                        &&& o.spec_size() == size
                        &&& n.history() == o.history()
                        &&& n.pending() == o.pending().union(
                            ids_of(born_prefix(cand, s0, size, k as int), size),
                        )
                    },
                    (None, None) => true,
                    _ => false,
                }),
            decreases cand.len() - k,
        {
            let c = candidates[k];
            let n = self.cells.num_living_neighbors(c.0, c.1);
            let alive = self.cells.is_alive(c.0, c.1);
            let ghost before = next@;
            if (alive && n >= 2 && n <= 3) || (!alive && n == 3) {
                proof {
                    assert(cell_next_alive(s0, size, c));
                }
                next.birth(c.0, c.1);
                match &mut self.snapshot {
                    Some(s) => {
                        s.add_cell(c.0, c.1);
                    },
                    None => {},
                }
                proof {
                    assert forall|x: (u32, u32)|
                        born_prefix(cand, s0, size, k + 1).contains(x) implies before.insert(
                        c,
                    ).contains(x) by {
                        let t = choose|t: int| 0 <= t < k + 1 && #[trigger] cand[t] == x;
                        if t < k {
                            assert(born_prefix(cand, s0, size, k as int).contains(x));
                        }
                    }
                    assert forall|x: (u32, u32)| before.insert(c).contains(x)
                        implies born_prefix(cand, s0, size, k + 1).contains(x) by {
                        if x == c {
                            assert(cand[k as int] == x);
                        } else {
                            let t = choose|t: int| 0 <= t < k && #[trigger] cand[t] == x;
                        }
                    }
                    assert(next@ =~= born_prefix(cand, s0, size, k + 1));
                    let ghost snap_now = self.snapshot;
                    match (snap0, snap_now) {
                        (Some(o), Some(n_)) => {
                            assert forall|y: u64|
                                ids_of(born_prefix(cand, s0, size, k + 1), size).contains(y)
                                implies ids_of(born_prefix(cand, s0, size, k as int), size).insert(
                                cell_id(size, c.0, c.1),
                            ).contains(y) by {
                                let x = choose|x: (u32, u32)|
                                    born_prefix(cand, s0, size, k + 1).contains(x) && cell_id(
                                        size,
                                        x.0,
                                        x.1,
                                    ) == y;
                                if x != c {
                                    assert(born_prefix(cand, s0, size, k as int).contains(x));
                                }
                            }
                            assert forall|y: u64|
                                ids_of(born_prefix(cand, s0, size, k as int), size).insert(
                                    cell_id(size, c.0, c.1),
                                ).contains(y) implies ids_of(
                                born_prefix(cand, s0, size, k + 1),
                                size,
                            ).contains(y) by {
                                if y == cell_id(size, c.0, c.1) {
                                    assert(born_prefix(cand, s0, size, k + 1).contains(c));
                                } else {
                                    let x = choose|x: (u32, u32)|
                                        born_prefix(cand, s0, size, k as int).contains(x)
                                            && cell_id(size, x.0, x.1) == y;
                                    assert(born_prefix(cand, s0, size, k + 1).contains(x));
                                }
                            }
                            assert(ids_of(born_prefix(cand, s0, size, k + 1), size) =~= ids_of(
                                born_prefix(cand, s0, size, k as int),
                                size,
                            ).insert(cell_id(size, c.0, c.1)));
                            assert(n_.pending() =~= o.pending().union(
                                ids_of(born_prefix(cand, s0, size, k + 1), size),
                            ));
                        },
                        _ => {},
                    }
                }
            } else {
                proof {
                    assert(!cell_next_alive(s0, size, c));
                    assert forall|x: (u32, u32)|
                        born_prefix(cand, s0, size, k + 1).contains(x) implies before.contains(
                        x,
                    ) by {
                        let t = choose|t: int| 0 <= t < k + 1 && #[trigger] cand[t] == x;
                        assert(t < k);
                    }
                    assert forall|x: (u32, u32)| before.contains(x) implies born_prefix(
                        cand,
                        s0,
                        size,
                        k + 1,
                    ).contains(x) by {
                        let t = choose|t: int| 0 <= t < k && #[trigger] cand[t] == x;
                    }
                    assert(next@ =~= born_prefix(cand, s0, size, k + 1));
                }
            }
            k += 1;
        }
        proof {
            assert forall|x: (u32, u32)| born_prefix(cand, s0, size, cand.len() as int).contains(
                x,
            ) implies next_gen(s0, size).contains(x) by {
                let t = choose|t: int| 0 <= t < cand.len() && #[trigger] cand[t] == x;
                assert(cand.to_set().contains(x));
                assert(active_cells(s0, size).contains(x));
            }
            assert forall|x: (u32, u32)| next_gen(s0, size).contains(x) implies born_prefix(
                cand,
                s0,
                size,
                cand.len() as int,
            ).contains(x) by {
                assert(cand.to_set().contains(x));
                let t = choose|t: int| 0 <= t < cand.len() && cand[t] == x;
                assert(cand[t] == x);
            }
            assert(born_prefix(cand, s0, size, cand.len() as int) =~= next_gen(s0, size));
        }
        self.cells = next;
        match &mut self.snapshot {
            Some(s) => {
                s.commit_cells();
            },
            None => {},
        }
    }
}

} // verus!
