//! The sparse living-cell set of one generation, on a bounded square grid.
//!
//! A `Cells` value is viewed as a mathematical set of `(row, column)`
//! coordinates together with the grid size it was bound to. The neighborhood
//! rule deliberately gives border and out-of-range coordinates an empty
//! neighbor list: such cells can never gain life from neighbors and always
//! read as isolated.

use vstd::prelude::*;
use vstd::seq_lib::*;

verus! {

/// The (up to) eight coordinates around `(i, j)`, in row-major order.
/// Whenever `i` or `j` is `0`, or at least `size`, the list is empty:
/// the border policy of this grid.
pub open spec fn neighbors_of(size: u32, i: u32, j: u32) -> Seq<(u32, u32)> {
    if i < 1 || j < 1 || i >= size || j >= size {
        Seq::empty()
    } else {
        seq![
            ((i - 1) as u32, (j - 1) as u32),
            ((i - 1) as u32, j),
            ((i - 1) as u32, (j + 1) as u32),
            (i, (j - 1) as u32),
            (i, (j + 1) as u32),
            ((i + 1) as u32, (j - 1) as u32),
            ((i + 1) as u32, j),
            ((i + 1) as u32, (j + 1) as u32),
        ]
    }
}

/// How many coordinates of `cs` are members of `s`.
pub open spec fn count_live(s: Set<(u32, u32)>, cs: Seq<(u32, u32)>) -> nat
    decreases cs.len(),
{
    if cs.len() == 0 {
        0
    } else {
        count_live(s, cs.drop_last()) + (if s.contains(cs.last()) {
            1nat
        } else {
            0nat
        })
    }
}

/// The set of living cells of `s` together with every neighbor of a living
/// cell: the only coordinates whose state can change over one tick.
pub open spec fn active_cells(s: Set<(u32, u32)>, size: u32) -> Set<(u32, u32)> {
    Set::new(
        |c: (u32, u32)|
            s.contains(c) || (exists|d: (u32, u32)|
                #[trigger] s.contains(d) && neighbors_of(size, d.0, d.1).contains(c)),
    )
}

/// The cells reachable from the first `k` entries of the living list `liv`:
/// each such entry itself and each of its neighbors.
pub open spec fn active_prefix(liv: Seq<(u32, u32)>, size: u32, k: int) -> Set<(u32, u32)> {
    Set::new(
        |c: (u32, u32)|
            exists|t: int|
                0 <= t < k && (#[trigger] liv[t] == c || neighbors_of(size, liv[t].0, liv[t].1)
                    .contains(c)),
    )
}

/// Append `c` to `v` unless it is already present.
fn insert_unique(v: &mut Vec<(u32, u32)>, c: (u32, u32))
    requires
        old(v)@.no_duplicates(),
    ensures
        final(v)@.no_duplicates(),
        final(v)@.to_set() == old(v)@.to_set().insert(c),
{
    let mut k: usize = 0;
    while k < v.len()
        invariant
            *v == *old(v),
            old(v)@.no_duplicates(),
            0 <= k <= v@.len(),
            forall|t: int| 0 <= t < k ==> v@[t] != c,
        decreases v@.len() - k,
    {
        let x = v[k];
        if x.0 == c.0 && x.1 == c.1 {
            proof {
                assert(v@.to_set().contains(c));
                assert(v@.to_set() =~= old(v)@.to_set().insert(c));
            }
            return ;
        }
        k += 1;
    }
    proof {
        assert(!v@.contains(c));
    }
    let ghost pre = v@;
    v.push(c);
    proof {
        assert(v@ =~= pre + seq![c]);
        Seq::lemma_to_set_insert_commutes(pre, c);
        assert forall|a: int, b: int| 0 <= a < b < v@.len() implies v@[a] != v@[b] by {
            if b == pre.len() {
                assert(pre[a] != c);
            }
        }
    }
}

/// Sparse set of living cells bound to a fixed grid size.
pub struct Cells {
    living: Vec<(u32, u32)>,
    size: u32,
}

impl View for Cells {
    type V = Set<(u32, u32)>;

    /// The living set, as a mathematical set of coordinates.
    closed spec fn view(&self) -> Set<(u32, u32)> {
        self.living@.to_set()
    }
}

impl Cells {
    /// The grid size this set was bound to at construction.
    pub closed spec fn spec_size(self) -> u32 {
        self.size
    }

    /// Internal well-formedness: no coordinate is stored twice.
    pub closed spec fn wf(self) -> bool {
        self.living@.no_duplicates()
    }

    /// An empty living set bound to `size`.
    pub fn new(size: u32) -> (r: Cells)
        ensures
            r.wf(),
            r@ == Set::<(u32, u32)>::empty(),
            r.spec_size() == size,
    {
        let r = Cells { living: Vec::new(), size };
        proof {
            assert(r.living@.to_set() =~= Set::<(u32, u32)>::empty());
        }
        r
    }

    /// The grid size this set was bound to.
    pub fn size(&self) -> (r: u32)
        ensures
            r == self.spec_size(),
    {
        self.size
    }

    /// Is the coordinate a living cell?
    pub fn is_alive(&self, i: u32, j: u32) -> (r: bool)
        ensures
            r == self@.contains((i, j)),
    {
        let mut k: usize = 0;
        while k < self.living.len()
            invariant
                0 <= k <= self.living@.len(),
                forall|t: int| 0 <= t < k ==> self.living@[t] != (i, j),
            decreases self.living@.len() - k,
        {
            let c = self.living[k];
            if c.0 == i && c.1 == j {
                proof {
                    assert(self.living@.to_set().contains((i, j)));
                }
                return true;
            }
            k += 1;
        }
        proof {
            assert(!self.living@.to_set().contains((i, j)));
        }
        false
    }

    /// Mark the coordinate as alive; repeating the call changes nothing.
    pub fn birth(&mut self, i: u32, j: u32)
        requires
            old(self).wf(),
        ensures
            final(self).wf(),
            final(self)@ == old(self)@.insert((i, j)),
            final(self).spec_size() == old(self).spec_size(),
    {
        if !self.is_alive(i, j) {
            proof {
                assert(!self.living@.contains((i, j)));
            }
            self.living.push((i, j));
            proof {
                let pre = old(self).living@;
                assert(self.living@ =~= pre + seq![(i, j)]);
                Seq::lemma_to_set_insert_commutes(pre, (i, j));
                assert forall|a: int, b: int|
                    0 <= a < b < self.living@.len() implies self.living@[a] != self.living@[b] by {
                    if b == pre.len() {
                        assert(pre[a] != (i, j));
                    }
                }
            }
        } else {
            proof {
                assert(self.living@.to_set() =~= old(self).living@.to_set().insert((i, j)));
            }
        }
    }

    /// Mark each coordinate of `coords` as alive.
    pub fn birth_multiple(&mut self, coords: &[(u32, u32)])
        requires
            old(self).wf(),
        ensures
            final(self).wf(),
            final(self)@ == old(self)@.union(coords@.to_set()),
            final(self).spec_size() == old(self).spec_size(),
    {
        let n = coords.len();
        let mut k: usize = 0;
        while k < n
            invariant
                n == coords@.len(),
                0 <= k <= n,
                self.wf(),
                self.spec_size() == old(self).spec_size(),
                self@ == old(self)@.union(coords@.take(k as int).to_set()),
            decreases n - k,
        {
            let c = coords[k];
            self.birth(c.0, c.1);
            proof {
                assert(coords@.take(k + 1) =~= coords@.take(k as int) + seq![coords@[k as int]]);
                Seq::lemma_to_set_insert_commutes(coords@.take(k as int), coords@[k as int]);
                assert(self@ =~= old(self)@.union(coords@.take(k + 1).to_set()));
            }
            k += 1;
        }
        proof {
            assert(coords@.take(n as int) =~= coords@);
        }
    }

    /// Mark the coordinate as not alive; a no-op when it was not living.
    pub fn kill(&mut self, i: u32, j: u32)
        requires
            old(self).wf(),
        ensures
            final(self).wf(),
            final(self)@ == old(self)@.remove((i, j)),
            final(self).spec_size() == old(self).spec_size(),
    {
        let mut k: usize = 0;
        while k < self.living.len()
            invariant
                0 <= k <= self.living@.len(),
                *self == *old(self),
                old(self).wf(),
                forall|t: int| 0 <= t < k ==> self.living@[t] != (i, j),
            decreases self.living@.len() - k,
        {
            let c = self.living[k];
            if c.0 == i && c.1 == j {
                self.living.remove(k);
                proof {
                    let pre = old(self).living@;
                    let post = self.living@;
                    assert(post == pre.remove(k as int));
                    assert(post.len() == pre.len() - 1);
                    assert(forall|t: int| 0 <= t < k ==> post[t] == pre[t]);
                    assert(forall|t: int| k <= t < post.len() ==> post[t] == pre[t + 1]);
                    assert forall|a: int, b: int| 0 <= a < b < post.len() implies post[a]
                        != post[b] by {
                        if a < k && b < k {
                            assert(pre[a] != pre[b]);
                        } else if a < k {
                            assert(pre[a] != pre[b + 1]);
                        } else {
                            assert(pre[a + 1] != pre[b + 1]);
                        }
                    }
                    assert forall|x: (u32, u32)| post.to_set().contains(x) implies pre.to_set()
                        .remove((i, j)).contains(x) by {
                        let t = choose|t: int| 0 <= t < post.len() && post[t] == x;
                        if t < k {
                            assert(pre[t] == x);
                            assert(pre[t] != (i, j));
                        } else {
                            assert(pre[t + 1] == x);
                            assert(pre.no_duplicates());
                            assert(pre[t + 1] != pre[k as int]);
                        }
                        assert(pre.to_set().contains(x));
                    }
                    assert forall|x: (u32, u32)| pre.to_set().remove((i, j)).contains(x)
                        implies post.to_set().contains(x) by {
                        let t = choose|t: int| 0 <= t < pre.len() && pre[t] == x;
                        if t < k {
                            assert(post[t] == x);
                        } else {
                            assert(t != k);
                            assert(post[t - 1] == x);
                        }
                    }
                    assert(post.to_set() =~= pre.to_set().remove((i, j)));
                }
                return ;
            }
            k += 1;
        }
        proof {
            assert(!self.living@.to_set().contains((i, j)));
            assert(self.living@.to_set() =~= old(self).living@.to_set().remove((i, j)));
        }
    }

    /// How many cells are alive.
    pub fn num_living_cells(&self) -> (r: usize)
        requires
            self.wf(),
        ensures
            r == self@.len(),
    {
        proof {
            self.living@.unique_seq_to_set();
        }
        self.living.len()
    }

    /// Every living cell together with every neighbor of a living cell,
    /// without duplicates: the candidate cells of the next generation.
    pub fn living_cells_and_neighbors(&self) -> (r: Vec<(u32, u32)>)
        requires
            self.wf(),
        ensures
            r@.no_duplicates(),
            r@.to_set() == active_cells(self@, self.spec_size()),
    {
        let ghost liv = self.living@;
        let ghost size = self.spec_size();
        let mut res: Vec<(u32, u32)> = Vec::new();
        let mut k: usize = 0;
        while k < self.living.len()
            invariant
                self.wf(),
                0 <= k <= liv.len(),
                liv == self.living@,
                size == self.spec_size(),
                res@.no_duplicates(),
                res@.to_set() =~= active_prefix(liv, size, k as int),
            decreases liv.len() - k,
        {
            let c = self.living[k];
            insert_unique(&mut res, c);
            let nbrs = self.neighbors(c.0, c.1);
            let ghost ns = nbrs@;
            let mut m: usize = 0;
            while m < nbrs.len()
                invariant
                    0 <= m <= ns.len(),
                    nbrs@ == ns,
                    res@.no_duplicates(),
                    res@.to_set() =~= active_prefix(liv, size, k as int).insert(c).union(
                        ns.take(m as int).to_set(),
                    ),
                decreases ns.len() - m,
            {
                insert_unique(&mut res, nbrs[m]);
                proof {
                    assert(ns.take(m + 1) =~= ns.take(m as int) + seq![ns[m as int]]);
                    Seq::lemma_to_set_insert_commutes(ns.take(m as int), ns[m as int]);
                    assert(res@.to_set() =~= active_prefix(liv, size, k as int).insert(c).union(
                        ns.take(m + 1).to_set(),
                    ));
                }
                m += 1;
            }
            proof {
                assert(ns.take(ns.len() as int) =~= ns);
                assert(liv[k as int] == c);
                assert forall|x: (u32, u32)| #[trigger] active_prefix(liv, size, k + 1).contains(x)
                    implies active_prefix(liv, size, k as int).insert(c).union(ns.to_set())
                    .contains(x) by {
                    let t = choose|t: int|
                        0 <= t < k + 1 && (liv[t] == x || neighbors_of(size, liv[t].0, liv[t].1)
                            .contains(x));
                    if t < k {
                        assert(active_prefix(liv, size, k as int).contains(x));
                    } else {
                        if liv[t] != x {
                            assert(ns.contains(x));
                        }
                    }
                }
                assert forall|x: (u32, u32)|
                    active_prefix(liv, size, k as int).insert(c).union(ns.to_set()).contains(x)
                    implies #[trigger] active_prefix(liv, size, k + 1).contains(x) by {
                    if active_prefix(liv, size, k as int).contains(x) {
                    } else if x == c {
                        assert(liv[k as int] == x);
                    } else {
                        assert(ns.contains(x));
                        assert(neighbors_of(size, liv[k as int].0, liv[k as int].1).contains(x));
                    }
                }
                assert(res@.to_set() =~= active_prefix(liv, size, k + 1));
            }
            k += 1;
        }
        proof {
            assert forall|x: (u32, u32)| #[trigger] active_cells(self@, size).contains(x)
                implies active_prefix(liv, size, liv.len() as int).contains(x) by {
                if self@.contains(x) {
                    let t = choose|t: int| 0 <= t < liv.len() && liv[t] == x;
                    assert(liv[t] == x || neighbors_of(size, liv[t].0, liv[t].1).contains(x));
                } else {
                    let d = choose|d: (u32, u32)|
                        self@.contains(d) && #[trigger] neighbors_of(size, d.0, d.1).contains(x);
                    let t = choose|t: int| 0 <= t < liv.len() && liv[t] == d;
                    assert(liv[t] == x || neighbors_of(size, liv[t].0, liv[t].1).contains(x));
                }
            }
            assert forall|x: (u32, u32)| #[trigger] active_prefix(liv, size, liv.len() as int)
                .contains(x) implies active_cells(self@, size).contains(x) by {
                let t = choose|t: int|
                    0 <= t < liv.len() && (liv[t] == x || neighbors_of(size, liv[t].0, liv[t].1)
                        .contains(x));
                assert(self@.contains(liv[t]));
            }
            assert(res@.to_set() =~= active_cells(self@, size));
        }
        res
    }

    /// The neighbors of `(i, j)` under the border policy of `neighbors_of`.
    pub fn neighbors(&self, i: u32, j: u32) -> (r: Vec<(u32, u32)>)
        ensures
            r@ == neighbors_of(self.spec_size(), i, j),
    {
        let mut v: Vec<(u32, u32)> = Vec::new();
        if i < 1 || j < 1 || i >= self.size || j >= self.size {
            proof {
                assert(v@ =~= neighbors_of(self.spec_size(), i, j));
            }
            return v;
        }
        v.push((i - 1, j - 1));
        v.push((i - 1, j));
        v.push((i - 1, j + 1));
        v.push((i, j - 1));
        v.push((i, j + 1));
        v.push((i + 1, j - 1));
        v.push((i + 1, j));
        v.push((i + 1, j + 1));
        proof {
            assert(v@ =~= neighbors_of(self.spec_size(), i, j));
        }
        v
    }

    /// How many of the coordinate's neighbors are alive; `0` for any
    /// coordinate whose neighbor list is empty under the border policy.
    pub fn num_living_neighbors(&self, i: u32, j: u32) -> (r: u32)
        ensures
            r == count_live(self@, neighbors_of(self.spec_size(), i, j)),
            r <= 8,
    {
        let neighbors = self.neighbors(i, j);
        let ghost ns = neighbors@;
        let mut r: u32 = 0;
        let mut k: usize = 0;
        while k < neighbors.len()
            invariant
                0 <= k <= ns.len(),
                ns.len() <= 8,
                neighbors@ == ns,
                ns == neighbors_of(self.spec_size(), i, j),
                r == count_live(self@, ns.take(k as int)),
                r <= k,
            decreases ns.len() - k,
        {
            let c = neighbors[k];
            let live = self.is_alive(c.0, c.1);
            proof {
                assert(ns.take(k + 1).drop_last() =~= ns.take(k as int));
                assert(ns.take(k + 1).last() == ns[k as int]);
            }
            if live {
                r += 1;
            }
            k += 1;
        }
        proof {
            assert(ns.take(ns.len() as int) =~= ns);
        }
        r
    }
}

} // verus!
