//! The sparse grid of live cells and the generational transition.

use vstd::prelude::*;

use crate::index::{
    in_deep_interior, in_interior, lemma_neighbor_in_interior, lemma_neighbors_symmetric,
    neighbors_of, Index,
};

verus! {

/// The set of coordinate views of the indices in `s`.
pub open spec fn views_of(s: Seq<Index>) -> Set<(int, int)> {
    Set::new(|p: (int, int)| exists|k: int| 0 <= k < s.len() && s[k]@ == p)
}

/// No coordinate pair occurs twice in `s`.
spec fn distinct_views(s: Seq<Index>) -> bool {
    forall|j1: int, j2: int|
        0 <= j1 < j2 < s.len() ==> #[trigger] s[j1]@ != #[trigger] s[j2]@
}

/// Appending an index adds exactly its coordinate pair to the view set.
proof fn lemma_views_of_push(s: Seq<Index>, i: Index)
    ensures
        views_of(s.push(i)) == views_of(s).insert(i@),
{
    assert forall|p: (int, int)| views_of(s.push(i)).contains(p)
        implies views_of(s).insert(i@).contains(p) by {
        let k = choose|k: int| 0 <= k < s.push(i).len() && s.push(i)[k]@ == p;
        if k < s.len() {
            assert(s[k]@ == p);
        }
    };
    assert forall|p: (int, int)| views_of(s).insert(i@).contains(p)
        implies views_of(s.push(i)).contains(p) by {
        if p == i@ {
            assert(s.push(i)[s.len() as int]@ == p);
        } else {
            let k = choose|k: int| 0 <= k < s.len() && s[k]@ == p;
            assert(s.push(i)[k]@ == p);
        }
    };
    assert(views_of(s.push(i)) =~= views_of(s).insert(i@));
}

/// Removing the one occurrence of a coordinate pair removes exactly that
/// pair from the view set.
proof fn lemma_views_of_remove(s: Seq<Index>, k: int)
    requires
        0 <= k < s.len(),
        distinct_views(s),
    ensures
        views_of(s.remove(k)) == views_of(s).remove(s[k]@),
{
    s.remove_ensures(k);
    assert forall|p: (int, int)| views_of(s.remove(k)).contains(p)
        implies views_of(s).remove(s[k]@).contains(p) by {
        let j = choose|j: int| 0 <= j < s.remove(k).len() && s.remove(k)[j]@ == p;
        if j < k {
            assert(s[j]@ == p);
        } else {
            assert(s[j + 1]@ == p);
        }
    };
    assert forall|p: (int, int)| views_of(s).remove(s[k]@).contains(p)
        implies views_of(s.remove(k)).contains(p) by {
        let j = choose|j: int| 0 <= j < s.len() && s[j]@ == p;
        if j < k {
            assert(s.remove(k)[j]@ == p);
        } else {
            assert(j != k);
            assert(s.remove(k)[j - 1]@ == p);
        }
    };
    assert(views_of(s.remove(k)) =~= views_of(s).remove(s[k]@));
}

/// Appending an index whose coordinate pair is not yet present keeps the
/// stored cells free of duplicates.
proof fn lemma_distinct_push(s: Seq<Index>, i: Index)
    requires
        distinct_views(s),
        !views_of(s).contains(i@),
    ensures
        distinct_views(s.push(i)),
{
    assert forall|j1: int, j2: int| 0 <= j1 < j2 < s.push(i).len()
        implies #[trigger] s.push(i)[j1]@ != #[trigger] s.push(i)[j2]@ by {
        if j2 == s.len() {
            assert(views_of(s).contains(s[j1]@));
        }
    };
}

/// Removing an element keeps the stored cells free of duplicates.
proof fn lemma_distinct_remove(s: Seq<Index>, k: int)
    requires
        0 <= k < s.len(),
        distinct_views(s),
    ensures
        distinct_views(s.remove(k)),
{
    s.remove_ensures(k);
    assert forall|j1: int, j2: int| 0 <= j1 < j2 < s.remove(k).len()
        implies #[trigger] s.remove(k)[j1]@ != #[trigger] s.remove(k)[j2]@ by {
        if j2 < k {
        } else if j1 < k {
            assert(s.remove(k)[j1] == s[j1]);
            assert(s.remove(k)[j2] == s[j2 + 1]);
        } else {
            assert(s.remove(k)[j1] == s[j1 + 1]);
            assert(s.remove(k)[j2] == s[j2 + 1]);
        }
    };
}

/// Taking one more element adds exactly its coordinate pair to the view
/// set of the prefix.
proof fn lemma_views_of_take_step(s: Seq<Index>, k: int)
    requires
        0 <= k < s.len(),
    ensures
        views_of(s.take(k + 1)) == views_of(s.take(k)).insert(s[k]@),
{
    assert(s.take(k + 1) =~= s.take(k).push(s[k]));
    lemma_views_of_push(s.take(k), s[k]);
}

/// A coordinate pair that occurs at position `k` does not occur among the
/// first `k` positions of a duplicate-free sequence.
proof fn lemma_take_not_contains(order: Seq<Index>, k: int)
    requires
        0 <= k < order.len(),
        distinct_views(order),
    ensures
        !views_of(order.take(k)).contains(order[k]@),
{
    if views_of(order.take(k)).contains(order[k]@) {
        let j = choose|j: int|
            0 <= j < order.take(k).len() && order.take(k)[j]@ == order[k]@;
        assert(order[j]@ == order[k]@);
        assert(false);
    }
}

/// How many of the first `n` coordinates of `q` are members of `s`.
pub open spec fn live_count_upto(s: Set<(int, int)>, q: Seq<(int, int)>, n: int) -> int
    decreases n,
{
    if n <= 0 {
        0
    } else {
        live_count_upto(s, q, n - 1) + (if s.contains(q[n - 1]) {
            1int
        } else {
            0int
        })
    }
}

/// The number of the eight Moore neighbors of `p` that are live in `s`.
pub open spec fn live_neighbor_count(s: Set<(int, int)>, p: (int, int)) -> int {
    live_count_upto(s, neighbors_of(p), 8)
}

/// The Life transition rule: whether the cell at `p` is live in the
/// generation after `s`. A live cell survives with two or three live
/// neighbors; a dead cell is born with exactly three.
pub open spec fn alive_next(s: Set<(int, int)>, p: (int, int)) -> bool {
    if s.contains(p) {
        2 <= live_neighbor_count(s, p) <= 3
    } else {
        live_neighbor_count(s, p) == 3
    }
}

/// A prefix count lies between zero and the prefix length.
proof fn lemma_count_bounds(s: Set<(int, int)>, q: Seq<(int, int)>, n: int)
    requires
        n >= 0,
    ensures
        0 <= live_count_upto(s, q, n) <= n,
    decreases n,
{
    if n > 0 {
        lemma_count_bounds(s, q, n - 1);
    }
}

/// A positive prefix count exhibits a member of `s` within the prefix.
proof fn lemma_count_positive_witness(s: Set<(int, int)>, q: Seq<(int, int)>, n: int)
    requires
        live_count_upto(s, q, n) > 0,
    ensures
        exists|i: int| 0 <= i < n && s.contains(#[trigger] q[i]),
    decreases n,
{
    if n > 0 {
        if s.contains(q[n - 1]) {
        } else {
            lemma_count_positive_witness(s, q, n - 1);
        }
    }
}

/// A cell has at most eight live neighbors, and never a negative count.
pub proof fn lemma_live_neighbor_count_range(s: Set<(int, int)>, p: (int, int))
    ensures
        0 <= live_neighbor_count(s, p) <= 8,
{
    lemma_count_bounds(s, neighbors_of(p), 8);
}

/// The live cells of `s` after the first `k` stored cells of `order` have
/// been examined for survival: a cell already examined stays only with two
/// or three live neighbors, counted in the pre-tick set `s`.
spec fn pass1_upto(s: Set<(int, int)>, order: Seq<Index>, k: int) -> Set<(int, int)> {
    Set::new(
        |p: (int, int)|
            s.contains(p) && (views_of(order.take(k)).contains(p)
                ==> 2 <= live_neighbor_count(s, p) <= 3),
    )
}

/// The cells of `s` that survive the tick: live with two or three live
/// neighbors in `s`.
spec fn survivors(s: Set<(int, int)>) -> Set<(int, int)> {
    Set::new(|p: (int, int)| s.contains(p) && 2 <= live_neighbor_count(s, p) <= 3)
}

/// The cells born by the tick whose witnessing (live cell, neighbor slot)
/// pair has already been examined: dead in `s`, with exactly three live
/// neighbors in `s`, and a neighbor slot `u` of a stored cell `j` with
/// `(j, u)` lexicographically before `(k, t)`.
spec fn born_upto(s: Set<(int, int)>, order: Seq<Index>, k: int, t: int) -> Set<(int, int)> {
    Set::new(
        |p: (int, int)|
            !s.contains(p) && live_neighbor_count(s, p) == 3 && exists|j: int, u: int|
                0 <= j < order.len() && 0 <= u < 8 && (j < k || (j == k && u < t))
                    && #[trigger] neighbors_of(order[j]@)[u] == p,
    )
}

/// Examining stored cell `k` removes it from the survival pass exactly
/// when its live-neighbor count in `s` is below two or above three.
proof fn lemma_pass1_step(s: Set<(int, int)>, order: Seq<Index>, k: int)
    requires
        0 <= k < order.len(),
        distinct_views(order),
    ensures
        ({
            let p0 = order[k]@;
            if 2 <= live_neighbor_count(s, p0) <= 3 {
                pass1_upto(s, order, k + 1) == pass1_upto(s, order, k)
            } else {
                pass1_upto(s, order, k + 1) == pass1_upto(s, order, k).remove(p0)
            }
        }),
{
    lemma_views_of_take_step(order, k);
    lemma_take_not_contains(order, k);
    let p0 = order[k]@;
    if 2 <= live_neighbor_count(s, p0) <= 3 {
        assert(pass1_upto(s, order, k + 1) =~= pass1_upto(s, order, k));
    } else {
        assert(pass1_upto(s, order, k + 1) =~= pass1_upto(s, order, k).remove(p0));
    }
}

/// Examining neighbor slot `t` of stored cell `k` adds exactly that
/// neighbor to the birth pass, when it is dead with three live neighbors.
proof fn lemma_born_step(s: Set<(int, int)>, order: Seq<Index>, k: int, t: int)
    requires
        0 <= k < order.len(),
        0 <= t < 8,
    ensures
        ({
            let d = neighbors_of(order[k]@)[t];
            if !s.contains(d) && live_neighbor_count(s, d) == 3 {
                born_upto(s, order, k, t + 1) == born_upto(s, order, k, t).insert(d)
            } else {
                born_upto(s, order, k, t + 1) == born_upto(s, order, k, t)
            }
        }),
{
    let d = neighbors_of(order[k]@)[t];
    assert forall|p: (int, int)| born_upto(s, order, k, t + 1).contains(p)
        implies p == d || born_upto(s, order, k, t).contains(p) by {
        let (j, u) = choose|j: int, u: int|
            0 <= j < order.len() && 0 <= u < 8 && (j < k || (j == k && u < t + 1))
                && #[trigger] neighbors_of(order[j]@)[u] == p;
        if j == k && u == t {
            assert(p == d);
        } else {
            assert(j < k || (j == k && u < t));
            assert(born_upto(s, order, k, t).contains(p));
        }
    };
    assert forall|p: (int, int)| born_upto(s, order, k, t).contains(p)
        implies born_upto(s, order, k, t + 1).contains(p) by {
        let (j, u) = choose|j: int, u: int|
            0 <= j < order.len() && 0 <= u < 8 && (j < k || (j == k && u < t))
                && #[trigger] neighbors_of(order[j]@)[u] == p;
        assert(neighbors_of(order[j]@)[u] == p);
    };
    if !s.contains(d) && live_neighbor_count(s, d) == 3 {
        assert(born_upto(s, order, k, t + 1).contains(d)) by {
            assert(neighbors_of(order[k]@)[t] == d);
        };
        assert(born_upto(s, order, k, t + 1) =~= born_upto(s, order, k, t).insert(d));
    } else {
        assert(born_upto(s, order, k, t + 1) =~= born_upto(s, order, k, t));
    }
}

/// Finishing the eight neighbor slots of stored cell `k` reaches the same
/// birth pass as starting on stored cell `k + 1`.
proof fn lemma_born_row_end(s: Set<(int, int)>, order: Seq<Index>, k: int)
    requires
        0 <= k < order.len(),
    ensures
        born_upto(s, order, k, 8) == born_upto(s, order, k + 1, 0),
{
    assert forall|p: (int, int)| born_upto(s, order, k, 8).contains(p)
        implies born_upto(s, order, k + 1, 0).contains(p) by {
        let (j, u) = choose|j: int, u: int|
            0 <= j < order.len() && 0 <= u < 8 && (j < k || (j == k && u < 8))
                && #[trigger] neighbors_of(order[j]@)[u] == p;
        assert(j < k + 1);
        assert(neighbors_of(order[j]@)[u] == p);
    };
    assert forall|p: (int, int)| born_upto(s, order, k + 1, 0).contains(p)
        implies born_upto(s, order, k, 8).contains(p) by {
        let (j, u) = choose|j: int, u: int|
            0 <= j < order.len() && 0 <= u < 8 && (j < k + 1 || (j == k + 1 && u < 0))
                && #[trigger] neighbors_of(order[j]@)[u] == p;
        assert(j < k || (j == k && u < 8));
        assert(neighbors_of(order[j]@)[u] == p);
    };
    assert(born_upto(s, order, k, 8) =~= born_upto(s, order, k + 1, 0));
}

/// Once every stored cell has been examined, the birth pass holds exactly
/// the dead cells with three live neighbors: every such cell is a Moore
/// neighbor of one of its own live neighbors, which is a stored cell.
proof fn lemma_born_complete(s: Set<(int, int)>, order: Seq<Index>)
    requires
        views_of(order) == s,
    ensures
        forall|p: (int, int)|
            #[trigger] born_upto(s, order, order.len() as int, 0).contains(p) <==> (!s.contains(p)
                && live_neighbor_count(s, p) == 3),
{
    let n = order.len() as int;
    assert forall|p: (int, int)| !s.contains(p) && live_neighbor_count(s, p) == 3
        implies #[trigger] born_upto(s, order, n, 0).contains(p) by {
        lemma_count_positive_witness(s, neighbors_of(p), 8);
        let i = choose|i: int| 0 <= i < 8 && s.contains(#[trigger] neighbors_of(p)[i]);
        let q = neighbors_of(p)[i];
        assert(neighbors_of(p).contains(q));
        lemma_neighbors_symmetric(p, q);
        let u = choose|u: int| 0 <= u < neighbors_of(q).len() && neighbors_of(q)[u] == p;
        let j = choose|j: int| 0 <= j < order.len() && order[j]@ == q;
        assert(neighbors_of(order[j]@)[u] == p);
    };
}

/// Relies on rand::random::<bool>: a coin flip from the thread-local
/// generator; nothing is promised of the outcome.
#[verifier::external_body]
fn random_bool() -> bool {
    rand::random::<bool>()
}

/// An infinite, two-dimensional, orthogonal grid of (square) cells.
///
/// Only the live cells are stored; any index absent from the live set is
/// dead. The abstract value of a grid (its view) is the set of coordinate
/// pairs of its live cells.
pub struct Grid {
    /// The indices of the living cells, each coordinate pair at most once.
    living: Vec<Index>,
}

impl View for Grid {
    type V = Set<(int, int)>;

    closed spec fn view(&self) -> Set<(int, int)> {
        views_of(self.living@)
    }
}

impl Grid {
    /// The stored live cells carry no duplicate coordinate pair, so the
    /// grid is a set: memory is proportional to the live population.
    pub closed spec fn wf(self) -> bool {
        distinct_views(self.living@)
    }

    /// The position of `index` among the stored live cells, if it is live.
    fn position_of(&self, index: &Index) -> (r: Option<usize>)
        ensures
            match r {
                Some(k) => k < self.living@.len() && self.living@[k as int]@ == index@,
                None => !self@.contains(index@),
            },
    {
        let mut k: usize = 0;
        while k < self.living.len()
            invariant
                0 <= k <= self.living@.len(),
                forall|j: int| 0 <= j < k ==> #[trigger] self.living@[j]@ != index@,
            decreases self.living@.len() - k,
        {
            if self.living[k] == *index {
                return Some(k);
            }
            k = k + 1;
        }
        None
    }

    /// Whether the specified cell is living.
    pub fn is_living(&self, index: &Index) -> (r: bool)
        ensures
            r == self@.contains(index@),
    {
        match self.position_of(index) {
            Some(_) => true,
            None => false,
        }
    }

    /// The number of live neighbors of the cell at the given index within
    /// the grid: the count of the eight Moore neighbors that are living.
    pub fn living_neighbors(&self, index: Index) -> (r: usize)
        requires
            in_interior(index@),
        ensures
            r == live_neighbor_count(self@, index@),
            r <= 8,
    {
        let nbrs = index.neighbors();
        let mut count: usize = 0;
        let mut t: usize = 0;
        while t < 8
            invariant
                0 <= t <= 8,
                count <= t,
                count == live_count_upto(self@, neighbors_of(index@), t as int),
                forall|u: int| 0 <= u < 8 ==> #[trigger] nbrs@[u]@ == neighbors_of(index@)[u],
            decreases 8 - t,
        {
            if self.is_living(&nbrs[t]) {
                count = count + 1;
            }
            t = t + 1;
        }
        count
    }

    /// Creates a new grid with the given seed.
    ///
    /// The seed is a collection of indices indicating the positions of the
    /// living cells at the beginning of time; duplicates collapse and the
    /// order is irrelevant.
    pub fn new(seed: Vec<Index>) -> (r: Self)
        ensures
            r.wf(),
            r@ == views_of(seed@),
    {
        let mut grid = Grid { living: Vec::new() };
        let mut k: usize = 0;
        while k < seed.len()
            invariant
                0 <= k <= seed@.len(),
                grid.wf(),
                grid@ == views_of(seed@.take(k as int)),
            decreases seed@.len() - k,
        {
            proof {
                lemma_views_of_take_step(seed@, k as int);
            }
            grid.unkill(seed[k]);
            k = k + 1;
        }
        proof {
            assert(seed@.take(seed@.len() as int) =~= seed@);
        }
        grid
    }

    /// Kills the cell at the given index. Has no effect if the cell is
    /// already dead.
    pub fn kill(&mut self, index: Index)
        requires
            old(self).wf(),
        ensures
            final(self).wf(),
            final(self)@ == old(self)@.remove(index@),
    {
        match self.position_of(&index) {
            Some(k) => {
                proof {
                    lemma_views_of_remove(self.living@, k as int);
                    lemma_distinct_remove(self.living@, k as int);
                }
                self.living.remove(k);
            },
            None => {
                proof {
                    assert(self@ =~= self@.remove(index@));
                }
            },
        }
    }

    /// "Unkills" the cell at the given index, making it live. Has no effect
    /// if the cell is already living.
    pub fn unkill(&mut self, index: Index)
        requires
            old(self).wf(),
        ensures
            final(self).wf(),
            final(self)@ == old(self)@.insert(index@),
    {
        match self.position_of(&index) {
            Some(k) => {
                proof {
                    assert(self.living@[k as int]@ == index@);
                    assert(self@.contains(index@));
                    assert(self@ =~= self@.insert(index@));
                }
            },
            None => {
                proof {
                    lemma_views_of_push(self.living@, index);
                    lemma_distinct_push(self.living@, index);
                }
                self.living.push(index);
            },
        }
    }

    /// Runs the next tick of the simulation, returning a copy of the grid
    /// with updated state; the receiver itself is left unchanged.
    ///
    /// On each tick, counting neighbors in the pre-tick grid only:
    /// 1) living cells with fewer than two living neighbors die;
    /// 2) living cells with two or three living neighbors live on;
    /// 3) living cells with more than three living neighbors die;
    /// 4) dead cells with exactly three living neighbors become living.
    ///
    /// Only live cells and their neighbors are examined, so the work is
    /// proportional to the live population, never to any bounding box.
    #[verifier::loop_isolation(false)]
    pub fn tick(&self) -> (r: Self)
        requires
            self.wf(),
            forall|p: (int, int)| self@.contains(p) ==> in_deep_interior(p),
        ensures
            r.wf(),
            forall|p: (int, int)| #[trigger] r@.contains(p) <==> alive_next(self@, p),
    {
        let ghost s = self@;
        let ghost order = self.living@;

        // Start from a copy of the current live set.
        let mut next = Grid { living: Vec::new() };
        let mut c: usize = 0;
        while c < self.living.len()
            invariant
                0 <= c <= order.len(),
                next.living@ == order.take(c as int),
            decreases order.len() - c,
        {
            next.living.push(self.living[c]);
            proof {
                assert(next.living@ =~= order.take(c as int + 1));
            }
            c = c + 1;
        }
        proof {
            assert(order.take(order.len() as int) =~= order);
            assert(next@ =~= pass1_upto(s, order, 0)) by {
                assert(order.take(0int) =~= Seq::<Index>::empty());
            };
        }

        // First pass: every live cell keeps its place only with two or
        // three live neighbors, counted in the pre-tick grid.
        let mut k: usize = 0;
        while k < self.living.len()
            invariant
                0 <= k <= order.len(),
                next.wf(),
                next@ == pass1_upto(s, order, k as int),
            decreases order.len() - k,
        {
            let idx = self.living[k];
            proof {
                assert(self@.contains(idx@));
                assert(in_deep_interior(idx@));
                lemma_pass1_step(s, order, k as int);
            }
            let n = self.living_neighbors(idx);
            if n < 2 || n > 3 {
                next.kill(idx);
            }
            proof {
                assert(next@ =~= pass1_upto(s, order, k as int + 1));
            }
            k = k + 1;
        }
        proof {
            assert(order.take(order.len() as int) =~= order);
            assert(next@ =~= survivors(s));
        }

        // Second pass: the only dead cells that can reach three live
        // neighbors are neighbors of live cells; those with exactly three,
        // counted in the pre-tick grid, become living.
        let mut k2: usize = 0;
        while k2 < self.living.len()
            invariant
                0 <= k2 <= order.len(),
                next.wf(),
                next@ == survivors(s).union(born_upto(s, order, k2 as int, 0)),
            decreases order.len() - k2,
        {
            let idx = self.living[k2];
            proof {
                assert(self@.contains(idx@));
                assert(in_deep_interior(idx@));
            }
            let nbrs = idx.neighbors();
            let mut t: usize = 0;
            while t < 8
                invariant
                    0 <= t <= 8,
                    next.wf(),
                    next@ == survivors(s).union(born_upto(s, order, k2 as int, t as int)),
                decreases 8 - t,
            {
                proof {
                    lemma_neighbor_in_interior(idx@, t as int);
                    lemma_born_step(s, order, k2 as int, t as int);
                }
                let d = nbrs[t];
                if !self.is_living(&d) {
                    let cnt = self.living_neighbors(d);
                    if cnt == 3 {
                        next.unkill(d);
                    }
                }
                proof {
                    assert(next@ =~= survivors(s).union(
                        born_upto(s, order, k2 as int, t as int + 1),
                    ));
                }
                t = t + 1;
            }
            proof {
                lemma_born_row_end(s, order, k2 as int);
            }
            k2 = k2 + 1;
        }

        proof {
            lemma_born_complete(s, order);
            assert forall|p: (int, int)| #[trigger] next@.contains(p) == alive_next(s, p) by {
                if s.contains(p) {
                    assert(!born_upto(s, order, order.len() as int, 0).contains(p));
                }
            };
        }
        next
    }

    /// Creates a new grid with a pseudo-randomized population: every cell
    /// with coordinates in the box `[-50, 50) x [-20, 20)` is independently
    /// live with roughly even odds. The seed is a convenience, not an
    /// entropy source: nothing beyond the bounding box is promised of it.
    #[verifier::loop_isolation(false)]
    pub fn generate() -> (r: Self)
        ensures
            r.wf(),
            forall|p: (int, int)|
                #[trigger] r@.contains(p) ==> -50 <= p.0 < 50 && -20 <= p.1 < 20,
    {
        let mut grid = Grid { living: Vec::new() };
        let mut x: isize = -50;
        while x < 50
            invariant
                -50 <= x <= 50,
                grid.wf(),
                forall|p: (int, int)|
                    #[trigger] grid@.contains(p) ==> -50 <= p.0 < 50 && -20 <= p.1 < 20,
            decreases 50 - x,
        {
            let mut y: isize = -20;
            while y < 20
                invariant
                    -20 <= y <= 20,
                    grid.wf(),
                    forall|p: (int, int)|
                        #[trigger] grid@.contains(p) ==> -50 <= p.0 < 50 && -20 <= p.1 < 20,
                decreases 20 - y,
            {
                if random_bool() {
                    grid.unkill(Index { x, y });
                }
                y = y + 1;
            }
            x = x + 1;
        }
        grid
    }

    /// The index at the center of this grid.
    ///
    /// This is an alias for [`Index::origin`].
    pub fn origin() -> (r: Index)
        ensures
            r@ == ((0int, 0int)),
    {
        Index::origin()
    }
}

/// A grid built from a seed reads back exactly the seed: an index is live
/// in `views_of(seed)` precisely when the seed contains it.
pub proof fn lemma_construction_faithful(seed: Seq<Index>, index: Index)
    ensures
        views_of(seed).contains(index@) <==> seed.contains(index),
{
    if views_of(seed).contains(index@) {
        let k = choose|k: int| 0 <= k < seed.len() && seed[k]@ == index@;
        assert(seed[k] == index);
        assert(seed.contains(index));
    }
    if seed.contains(index) {
        let k = choose|k: int| 0 <= k < seed.len() && seed[k] == index;
        assert(seed[k]@ == index@);
    }
}

} // verus!
