//! Lattice coordinates and their Moore neighborhoods.

use vstd::prelude::*;

use crate::text::{decimal_text, push_decimal};

verus! {

/// The human-readable rendering of the coordinate pair `p`: the two
/// decimal coordinates, comma-separated, in parentheses.
pub open spec fn index_text(p: (int, int)) -> Seq<char> {
    seq!['('] + decimal_text(p.0) + seq![',', ' '] + decimal_text(p.1) + seq![')']
}

/// A coordinate on the integer lattice, used to index into a grid.
///
/// An `Index` is a plain value: equality and hashing go by the coordinate
/// pair alone, and the directional moves return fresh values instead of
/// altering the receiver. The vertical convention is screen-like: `up`
/// increases `y` by one.
#[derive(Clone, Copy, Debug, Eq, Hash, PartialEq, Structural)]
pub struct Index {
    pub x: isize,
    pub y: isize,
}

impl View for Index {
    type V = (int, int);

    open spec fn view(&self) -> (int, int) {
        (self.x as int, self.y as int)
    }
}

/// The coordinate `p` moved by `dx` horizontally and `dy` vertically.
pub open spec fn shifted(p: (int, int), dx: int, dy: int) -> (int, int) {
    (p.0 + dx, p.1 + dy)
}

/// Both coordinates are strictly inside the `isize` range, so every
/// immediate neighbor of `p` is still representable.
pub open spec fn in_interior(p: (int, int)) -> bool {
    isize::MIN < p.0 < isize::MAX && isize::MIN < p.1 < isize::MAX
}

/// Both coordinates are at least two units away from the `isize` bounds,
/// so cells two steps away from `p` are still representable.
pub open spec fn in_deep_interior(p: (int, int)) -> bool {
    isize::MIN + 2 <= p.0 <= isize::MAX - 2 && isize::MIN + 2 <= p.1 <= isize::MAX - 2
}

/// The eight coordinates of the Moore neighborhood of `p`, in the fixed
/// order up-left, up, up-right, right, down-right, down, down-left, left.
pub open spec fn neighbors_of(p: (int, int)) -> Seq<(int, int)> {
    seq![
        shifted(p, -1, 1),
        shifted(p, 0, 1),
        shifted(p, 1, 1),
        shifted(p, 1, 0),
        shifted(p, 1, -1),
        shifted(p, 0, -1),
        shifted(p, -1, -1),
        shifted(p, -1, 0),
    ]
}

/// The Chebyshev distance between `p` and `q`: the larger of the two
/// coordinate-wise absolute differences.
pub open spec fn chebyshev_distance(p: (int, int), q: (int, int)) -> int {
    let dx = if p.0 >= q.0 { p.0 - q.0 } else { q.0 - p.0 };
    let dy = if p.1 >= q.1 { p.1 - q.1 } else { q.1 - p.1 };
    if dx >= dy {
        dx
    } else {
        dy
    }
}

impl Index {
    /// The index at the center of any given grid.
    pub fn origin() -> (r: Self)
        ensures
            r@ == ((0int, 0int)),
    {
        Index { x: 0, y: 0 }
    }

    /// The index above this one.
    pub fn up(self) -> (r: Self)
        requires
            self.y < isize::MAX,
        ensures
            r@ == shifted(self@, 0, 1),
    {
        Index { x: self.x, y: self.y + 1 }
    }

    /// The index below this one.
    pub fn down(self) -> (r: Self)
        requires
            self.y > isize::MIN,
        ensures
            r@ == shifted(self@, 0, -1),
    {
        Index { x: self.x, y: self.y - 1 }
    }

    /// The index right of this one.
    pub fn right(self) -> (r: Self)
        requires
            self.x < isize::MAX,
        ensures
            r@ == shifted(self@, 1, 0),
    {
        Index { x: self.x + 1, y: self.y }
    }

    /// The index left of this one.
    pub fn left(self) -> (r: Self)
        requires
            self.x > isize::MIN,
        ensures
            r@ == shifted(self@, -1, 0),
    {
        Index { x: self.x - 1, y: self.y }
    }

    /// The human-readable `"(x, y)"` rendering of this index.
    pub fn to_text(&self) -> (r: String)
        ensures
            r@ == index_text(self@),
    {
        let mut out = String::new();
        out.push('(');
        push_decimal(self.x, &mut out);
        out.push(',');
        out.push(' ');
        push_decimal(self.y, &mut out);
        out.push(')');
        proof {
            assert(out@ =~= index_text(self@));
        }
        out
    }

    /// The neighboring indices for this index, in the fixed order given by
    /// [`neighbors_of`].
    pub fn neighbors(self) -> (r: [Index; 8])
        requires
            in_interior(self@),
        ensures
            forall|u: int| 0 <= u < 8 ==> #[trigger] r@[u]@ == neighbors_of(self@)[u],
    {
        [
            self.up().left(),
            self.up(),
            self.up().right(),
            self.right(),
            self.down().right(),
            self.down(),
            self.down().left(),
            self.left(),
        ]
    }

    /// The neighboring indices for this index (in vector form), in the same
    /// fixed order as [`Index::neighbors`].
    pub fn neighbors_vec(self) -> (r: Vec<Index>)
        requires
            in_interior(self@),
        ensures
            r@.len() == 8,
            forall|u: int| 0 <= u < 8 ==> #[trigger] r@[u]@ == neighbors_of(self@)[u],
    {
        let mut r: Vec<Index> = Vec::new();
        r.push(self.up().left());
        r.push(self.up());
        r.push(self.up().right());
        r.push(self.right());
        r.push(self.down().right());
        r.push(self.down());
        r.push(self.down().left());
        r.push(self.left());
        r
    }
}

/// Two indices are equal exactly when their coordinate views are equal,
/// so an `Index` is interchangeable with its coordinate pair.
pub proof fn lemma_view_injective(a: Index, b: Index)
    ensures
        a@ == b@ <==> a == b,
{
}

/// The four directional moves invert each other: moving up then down,
/// down then up, left then right, or right then left returns to the
/// starting coordinate.
pub proof fn lemma_moves_invert(p: (int, int))
    ensures
        shifted(shifted(p, 0, 1), 0, -1) == p,
        shifted(shifted(p, 0, -1), 0, 1) == p,
        shifted(shifted(p, -1, 0), 1, 0) == p,
        shifted(shifted(p, 1, 0), -1, 0) == p,
{
}

/// The Moore neighborhood of `p` consists of exactly eight pairwise
/// distinct coordinates, none equal to `p`, each at Chebyshev distance
/// exactly one from `p`.
pub proof fn lemma_neighbors_moore(p: (int, int))
    ensures
        neighbors_of(p).len() == 8,
        forall|i: int, j: int|
            0 <= i < j < 8 ==> #[trigger] neighbors_of(p)[i] != #[trigger] neighbors_of(p)[j],
        forall|i: int| 0 <= i < 8 ==> #[trigger] neighbors_of(p)[i] != p,
        forall|i: int| 0 <= i < 8 ==> chebyshev_distance(p, #[trigger] neighbors_of(p)[i]) == 1,
{
}

/// A cell deep enough inside the representable range has all of its
/// neighbors inside the range too, with room for their own neighborhoods.
pub proof fn lemma_neighbor_in_interior(p: (int, int), u: int)
    requires
        in_deep_interior(p),
        0 <= u < 8,
    ensures
        in_interior(p),
        in_interior(neighbors_of(p)[u]),
{
    lemma_neighbors_moore(p);
    assert(chebyshev_distance(p, neighbors_of(p)[u]) == 1);
}

/// Neighborhood membership is symmetric: if `q` lies in the Moore
/// neighborhood of `p`, then `p` lies in the Moore neighborhood of `q`.
pub proof fn lemma_neighbors_symmetric(p: (int, int), q: (int, int))
    requires
        neighbors_of(p).contains(q),
    ensures
        neighbors_of(q).contains(p),
{
    let i = choose|i: int| 0 <= i < neighbors_of(p).len() && neighbors_of(p)[i] == q;
    if i == 0 {
        assert(neighbors_of(q)[4] == p);
    } else if i == 1 {
        assert(neighbors_of(q)[5] == p);
    } else if i == 2 {
        assert(neighbors_of(q)[6] == p);
    } else if i == 3 {
        assert(neighbors_of(q)[7] == p);
    } else if i == 4 {
        assert(neighbors_of(q)[0] == p);
    } else if i == 5 {
        assert(neighbors_of(q)[1] == p);
    } else if i == 6 {
        assert(neighbors_of(q)[2] == p);
    } else {
        assert(neighbors_of(q)[3] == p);
    }
}

} // verus!
