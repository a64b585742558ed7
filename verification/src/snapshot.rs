//! Canonical generation signatures and repeat detection.
//!
//! Each living cell of a generation is mapped to an integer identifier
//! `size * row + column`. The identifiers collected for one generation form a
//! sorted, duplicate-free sequence: the generation's signature. Two living
//! sets built up in any insertion order therefore commit identical
//! signatures exactly when they hold the same members. The tracker keeps the
//! full history of committed signatures and raises a sticky flag the first
//! time a signature repeats.

use vstd::prelude::*;

verus! {

/// The integer identifier of cell `(i, j)` on a grid of the given size.
pub open spec fn cell_id(size: u32, i: u32, j: u32) -> u64 {
    ((size as int) * (i as int) + (j as int)) as u64
}

/// Does the signature history hold the same entry twice?
pub open spec fn has_dup(h: Seq<Set<u64>>) -> bool {
    exists|i: int, j: int| 0 <= i < j < h.len() && h[i] == h[j]
}

/// Strictly increasing: sorted with no duplicates.
pub open spec fn strictly_sorted(s: Seq<u64>) -> bool {
    forall|a: int, b: int| 0 <= a < b < s.len() ==> s[a] < s[b]
}

/// Two strictly sorted sequences holding the same members are identical:
/// sorting is a canonical form.
pub proof fn lemma_sorted_to_set_eq(a: Seq<u64>, b: Seq<u64>)
    requires
        strictly_sorted(a),
        strictly_sorted(b),
        a.to_set() == b.to_set(),
    ensures
        a == b,
    decreases a.len(),
{
    if a.len() == 0 {
        if b.len() > 0 {
            assert(b.to_set().contains(b[0]));
            assert(a.to_set().contains(b[0]));
            assert(false);
        }
        assert(a =~= b);
    } else {
        assert(a.to_set().contains(a.last()));
        assert(b.to_set().contains(a.last()));
        if b.len() == 0 {
            assert(false);
        }
        let ta = choose|t: int| 0 <= t < b.len() && b[t] == a.last();
        assert(b.last() >= a.last());
        assert(b.to_set().contains(b.last()));
        assert(a.to_set().contains(b.last()));
        let tb = choose|t: int| 0 <= t < a.len() && a[t] == b.last();
        assert(a.last() >= b.last());
        assert(a.last() == b.last());
        let ad = a.drop_last();
        let bd = b.drop_last();
        assert forall|x: u64| ad.to_set().contains(x) implies bd.to_set().contains(x) by {
            let t = choose|t: int| 0 <= t < ad.len() && ad[t] == x;
            assert(a[t] == x);
            assert(x < a.last());
            assert(b.to_set().contains(x));
            let u = choose|u: int| 0 <= u < b.len() && b[u] == x;
            assert(u != b.len() - 1);
            assert(bd[u] == x);
        }
        assert forall|x: u64| bd.to_set().contains(x) implies ad.to_set().contains(x) by {
            let t = choose|t: int| 0 <= t < bd.len() && bd[t] == x;
            assert(b[t] == x);
            assert(x < b.last());
            assert(a.to_set().contains(x));
            let u = choose|u: int| 0 <= u < a.len() && a[u] == x;
            assert(u != a.len() - 1);
            assert(ad[u] == x);
        }
        assert(ad.to_set() =~= bd.to_set());
        lemma_sorted_to_set_eq(ad, bd);
        assert(a.len() == b.len());
        assert(forall|t: int| 0 <= t < a.len() - 1 ==> a[t] == ad[t]);
        assert(forall|t: int| 0 <= t < b.len() - 1 ==> b[t] == bd[t]);
        assert(a =~= b);
    }
}

/// Are two vectors equal element for element?
fn vec_eq(a: &Vec<u64>, b: &Vec<u64>) -> (r: bool)
    ensures
        r == (a@ == b@),
{
    if a.len() != b.len() {
        return false;
    }
    let mut k: usize = 0;
    while k < a.len()
        invariant
            a@.len() == b@.len(),
            0 <= k <= a@.len(),
            forall|t: int| 0 <= t < k ==> a@[t] == b@[t],
        decreases a@.len() - k,
    {
        if a[k] != b[k] {
            return false;
        }
        k += 1;
    }
    proof {
        assert(a@ =~= b@);
    }
    true
}

/// Tracks the signature of every generation seen so far and whether any
/// signature has occurred twice.
pub struct Snapshot {
    grids_vec: Vec<Vec<u64>>,
    cells: Vec<u64>,
    size: u32,
    has_repeat: bool,
}

impl Snapshot {
    /// The grid size the tracker was bound to.
    pub closed spec fn spec_size(self) -> u32 {
        self.size
    }

    /// The cell identifiers added since the last commit.
    pub closed spec fn pending(self) -> Set<u64> {
        self.cells@.to_set()
    }

    /// The committed signatures, oldest first, each as the set of cell
    /// identifiers it canonicalizes.
    pub closed spec fn history(self) -> Seq<Set<u64>> {
        self.grids_vec@.map_values(|v: Vec<u64>| v@.to_set())
    }

    /// Internal well-formedness: every stored signature and the in-progress
    /// identifier list are strictly sorted, the sticky flag agrees with the
    /// history, and the history has room left to grow.
    pub closed spec fn wf(self) -> bool {
        &&& strictly_sorted(self.cells@)
        &&& forall|t: int|
            0 <= t < self.grids_vec@.len() ==> strictly_sorted(#[trigger] self.grids_vec@[t]@)
        &&& self.has_repeat == has_dup(self.history())
        &&& self.grids_vec@.len() <= usize::MAX - 2
    }

    /// An empty tracker bound to `size`.
    pub fn new(size: u32) -> (r: Snapshot)
        ensures
            r.wf(),
            r.spec_size() == size,
            r.pending() == Set::<u64>::empty(),
            r.history() == Seq::<Set<u64>>::empty(),
    {
        let r = Snapshot { grids_vec: Vec::new(), cells: Vec::new(), size, has_repeat: false };
        proof {
            assert(r.pending() =~= Set::<u64>::empty());
            assert(r.history() =~= Seq::<Set<u64>>::empty());
        }
        r
    }

    /// Add one living cell of the generation being assembled; adding the
    /// same cell again changes nothing.
    pub fn add_cell(&mut self, i: u32, j: u32)
        requires
            old(self).wf(),
        ensures
            final(self).wf(),
            final(self).pending() == old(self).pending().insert(
                cell_id(old(self).spec_size(), i, j),
            ),
            final(self).history() == old(self).history(),
            final(self).spec_size() == old(self).spec_size(),
    {
        proof {
            assert((self.size as u64) as int * ((i as u64) as int) <= 0xFFFFFFFFu64 as int
                * 0xFFFFFFFFu64 as int) by (nonlinear_arith)
                requires
                    self.size <= 0xFFFFFFFFu64,
                    i <= 0xFFFFFFFFu64,
            ;
        }
        let id: u64 = (self.size as u64) * (i as u64) + (j as u64);
        proof {
            assert(id == cell_id(self.size, i, j));
        }
        let ghost pre = self.cells@;
        let mut k: usize = 0;
        while k < self.cells.len() && self.cells[k] < id
            invariant
                self.cells@ == pre,
                0 <= k <= pre.len(),
                forall|t: int| 0 <= t < k ==> pre[t] < id,
            decreases pre.len() - k,
        {
            k += 1;
        }
        if k < self.cells.len() && self.cells[k] == id {
            proof {
                assert(self.cells@.to_set().contains(id));
                assert(self.cells@.to_set() =~= self.cells@.to_set().insert(id));
            }
            return ;
        }
        self.cells.insert(k, id);
        proof {
            let post = self.cells@;
            assert(post == pre.insert(k as int, id));
            assert(post.len() == pre.len() + 1);
            assert(forall|t: int| 0 <= t < k ==> post[t] == pre[t]);
            assert(post[k as int] == id);
            assert(forall|t: int| k < t < post.len() ==> post[t] == pre[t - 1]);
            assert(forall|t: int| k <= t < pre.len() ==> pre[t] > id || pre[t] == id);
            assert(forall|t: int| k <= t < pre.len() ==> pre[t] > id);
            assert forall|x: int, y: int| 0 <= x < y < post.len() implies post[x] < post[y] by {
                if x < k && y < k {
                } else if x < k && y == k {
                } else if x < k {
                    assert(post[y] == pre[y - 1]);
                    if y - 1 >= k {
                        assert(pre[y - 1] > id);
                        assert(pre[x] < id);
                    }
                } else if x == k {
                    assert(post[y] == pre[y - 1]);
                    assert(pre[y - 1] > id);
                } else {
                    assert(post[x] == pre[x - 1]);
                    assert(post[y] == pre[y - 1]);
                }
            }
            assert forall|x: u64| post.to_set().contains(x) implies pre.to_set().insert(
                id,
            ).contains(x) by {
                let t = choose|t: int| 0 <= t < post.len() && post[t] == x;
                if t < k {
                    assert(pre[t] == x);
                } else if t == k {
                } else {
                    assert(pre[t - 1] == x);
                }
            }
            assert forall|x: u64| pre.to_set().insert(id).contains(x) implies post.to_set()
                .contains(x) by {
                if x == id {
                    assert(post[k as int] == x);
                } else {
                    let t = choose|t: int| 0 <= t < pre.len() && pre[t] == x;
                    if t < k {
                        assert(post[t] == x);
                    } else {
                        assert(post[t + 1] == x);
                    }
                }
            }
            assert(post.to_set() =~= pre.to_set().insert(id));
            assert(self.history() =~= old(self).history());
        }
    }

    /// Has any committed signature occurred twice? Sticky: once true it
    /// stays true for the life of the tracker.
    pub fn has_repeat(&self) -> (r: bool)
        requires
            self.wf(),
        ensures
            r == has_dup(self.history()),
    {
        self.has_repeat
    }

    /// Finalize the pending cells into one signature: append it to the
    /// history, raise the sticky flag when the same signature was committed
    /// before, and clear the pending set for the next generation.
    pub fn commit_cells(&mut self)
        requires
            old(self).wf(),
            old(self).history().len() <= usize::MAX - 3,
        ensures
            final(self).wf(),
            final(self).history() == old(self).history().push(old(self).pending()),
            final(self).pending() == Set::<u64>::empty(),
            final(self).spec_size() == old(self).spec_size(),
    {
        let mut sig: Vec<u64> = Vec::new();
        core::mem::swap(&mut sig, &mut self.cells);
        let ghost pre = old(self).grids_vec@;
        let mut found = false;
        let mut k: usize = 0;
        while k < self.grids_vec.len()
            invariant
                self.grids_vec@ == pre,
                sig@ == old(self).cells@,
                0 <= k <= pre.len(),
                strictly_sorted(sig@),
                forall|t: int| 0 <= t < pre.len() ==> strictly_sorted(#[trigger] pre[t]@),
                found == (exists|t: int| 0 <= t < k && #[trigger] pre[t]@ == sig@),
            decreases pre.len() - k,
        {
            if vec_eq(&self.grids_vec[k], &sig) {
                found = true;
                proof {
                    assert(pre[k as int]@ == sig@);
                }
            }
            k += 1;
        }
        if found {
            self.has_repeat = true;
        }
        self.grids_vec.push(sig);
        proof {
            let h0 = old(self).history();
            let p = old(self).pending();
            let h1 = self.history();
            assert(h1 =~= h0.push(p));
            assert(self.pending() =~= Set::<u64>::empty());
            // the flag matches the duplicate predicate over the new history
            assert forall|t: int| 0 <= t < pre.len() implies (#[trigger] pre[t]@ == old(
                self,
            ).cells@) == (h0[t] == p) by {
                if pre[t]@ == old(self).cells@ {
                    assert(h0[t] == pre[t]@.to_set());
                } else {
                    if h0[t] == p {
                        lemma_sorted_to_set_eq(pre[t]@, old(self).cells@);
                    }
                }
            }
            if self.has_repeat {
                if old(self).has_repeat {
                    let (x, y) = choose|x: int, y: int| 0 <= x < y < h0.len() && h0[x] == h0[y];
                    assert(h1[x] == h1[y]);
                    assert(has_dup(h1));
                } else {
                    let t = choose|t: int| 0 <= t < pre.len() && #[trigger] pre[t]@ == sig@;
                    assert(h1[t] == h1[h0.len() as int]);
                    assert(has_dup(h1));
                }
            } else {
                if has_dup(h1) {
                    let (x, y) = choose|x: int, y: int| 0 <= x < y < h1.len() && h1[x] == h1[y];
                    if y < h0.len() {
                        assert(h0[x] == h0[y]);
                        assert(has_dup(h0));
                    } else {
                        assert(h0[x] == p);
                        assert(pre[x]@ == old(self).cells@);
                    }
                    assert(false);
                }
            }
        }
    }

    /// The cycle period once a repeat was seen: two more than the first
    /// history index whose signature equals the most recently committed one.
    /// Calling this before `has_repeat` reports true is a usage error, which
    /// the precondition rules out.
    pub fn period(&self) -> (r: usize)
        requires
            self.wf(),
            has_dup(self.history()),
        ensures
            2 <= r <= self.history().len() + 1,
            self.history()[r - 2] == self.history().last(),
            forall|t: int| 0 <= t < r - 2 ==> self.history()[t] != self.history().last(),
    {
        let n = self.grids_vec.len();
        proof {
            if n == 0 {
                assert(!has_dup(self.history()));
            }
        }
        let ghost h = self.history();
        let mut k: usize = 0;
        while k < n - 1
            invariant
                self.wf(),
                n == self.grids_vec@.len(),
                n >= 1,
                h == self.history(),
                0 <= k <= n - 1,
                forall|t: int| 0 <= t < k ==> h[t] != h.last(),
            decreases n - k,
        {
            if vec_eq(&self.grids_vec[k], &self.grids_vec[n - 1]) {
                proof {
                    assert(h[k as int] == h.last());
                }
                return k + 2;
            }
            proof {
                let gk = self.grids_vec@[k as int]@;
                let gl = self.grids_vec@[n - 1]@;
                if h[k as int] == h.last() {
                    lemma_sorted_to_set_eq(gk, gl);
                }
            }
            k += 1;
        }
        proof {
            assert(h[n - 1] == h.last());
        }
        n - 1 + 2
    }
}

} // verus!
