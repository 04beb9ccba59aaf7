//! Grid positions and their Moore neighborhood.
//!
//! The grid of the model is unbounded: a position is a pair of mathematical
//! integers `(x, y)`.  A [`Cell`] is a position whose coordinates fit in `i64`.

use vstd::prelude::*;

verus! {

/// One position of the grid.
#[derive(Clone, Copy, Debug, PartialEq, Eq, Hash, Structural)]
pub struct Cell {
    pub x: i64,
    pub y: i64,
}

impl View for Cell {
    type V = (int, int);

    open spec fn view(&self) -> (int, int) {
        (self.x as int, self.y as int)
    }
}

/// Both coordinates of `p` fit in `i64`: some [`Cell`] stands at `p`.
pub open spec fn representable(p: (int, int)) -> bool {
    &&& i64::MIN <= p.0 <= i64::MAX
    &&& i64::MIN <= p.1 <= i64::MAX
}

/// The eight positions around `p`, column by column from `x - 1` to `x + 1`
/// and, within a column, from `y - 1` to `y + 1`.
pub open spec fn neighborhood(p: (int, int)) -> Seq<(int, int)> {
    seq![
        (p.0 - 1, p.1 - 1),
        (p.0 - 1, p.1),
        (p.0 - 1, p.1 + 1),
        (p.0, p.1 - 1),
        (p.0, p.1 + 1),
        (p.0 + 1, p.1 - 1),
        (p.0 + 1, p.1),
        (p.0 + 1, p.1 + 1),
    ]
}

/// `p` and `q` are different positions of one 3×3 block.
pub open spec fn adjacent(p: (int, int), q: (int, int)) -> bool {
    &&& p != q
    &&& -1 <= p.0 - q.0 <= 1
    &&& -1 <= p.1 - q.1 <= 1
}

/// The place that the position at offset `(dx, dy)` from the block's first
/// corner takes in [`neighborhood`]: the center `(1, 1)` is skipped.
spec fn slot(dx: int, dy: int) -> int {
    if 3 * dx + dy <= 4 {
        3 * dx + dy
    } else {
        3 * dx + dy - 1
    }
}

/// Every position has exactly eight neighbors, no two of them equal, none
/// of them the position itself.
pub proof fn lemma_neighborhood_distinct(p: (int, int))
    ensures
        neighborhood(p).len() == 8,
        neighborhood(p).no_duplicates(),
        !neighborhood(p).contains(p),
{
    let n = neighborhood(p);
    assert(n[0] != p && n[1] != p && n[2] != p && n[3] != p);
    assert(n[4] != p && n[5] != p && n[6] != p && n[7] != p);
}

/// The neighborhood of `p` holds exactly the positions adjacent to `p`.
pub proof fn lemma_neighborhood_is_adjacency(p: (int, int), q: (int, int))
    ensures
        neighborhood(p).contains(q) <==> adjacent(p, q),
{
    let n = neighborhood(p);
    if adjacent(p, q) {
        let i = slot(q.0 - p.0 + 1, q.1 - p.1 + 1);
        assert(0 <= i < 8);
        assert(n[i] == q);
    }
    if n.contains(q) {
        let i = choose|i: int| 0 <= i < n.len() && n[i] == q;
        assert(n[i] == q);
    }
}

impl Cell {
    /// All eight neighbors of the cell have coordinates that fit in `i64`.
    pub open spec fn interior(&self) -> bool {
        &&& i64::MIN < self.x < i64::MAX
        &&& i64::MIN < self.y < i64::MAX
    }

    /// Whether all eight neighbors of the cell have coordinates that fit in
    /// `i64`.
    pub fn is_interior(&self) -> (yes: bool)
        ensures
            yes == self.interior(),
    {
        i64::MIN < self.x && self.x < i64::MAX && i64::MIN < self.y && self.y < i64::MAX
    }

    /// Writes the eight neighbors of the cell into `neighbors`, in the order
    /// of [`neighborhood`].
    pub fn neighbors(&self, neighbors: &mut [Cell; 8])
        requires
            self.interior(),
        ensures
            final(neighbors)@.len() == 8,
            forall|i: int|
                0 <= i < 8 ==> (#[trigger] final(neighbors)[i])@ == neighborhood(self@)[i],
            forall|i: int, j: int|
                0 <= i < j < 8 ==> #[trigger] final(neighbors)[i] != #[trigger] final(neighbors)[j],
            forall|i: int| 0 <= i < 8 ==> #[trigger] final(neighbors)[i] != *self,
    {
        let mut i: usize = 0;
        for dx in 0..3i64
            invariant
                self.interior(),
                i == slot(dx as int, 0),
                forall|k: int| 0 <= k < i ==> (#[trigger] neighbors[k])@ == neighborhood(self@)[k],
        {
            for dy in 0..3i64
                invariant
                    self.interior(),
                    0 <= dx < 3,
                    i == slot(dx as int, dy as int),
                    forall|k: int|
                        0 <= k < i ==> (#[trigger] neighbors[k])@ == neighborhood(self@)[k],
            {
                if dx != 1 || dy != 1 {
                    neighbors[i] = Cell { x: self.x - 1 + dx, y: self.y - 1 + dy };
                    i += 1;
                }
            }
        }
        proof {
            lemma_neighborhood_distinct(self@);
            assert forall|a: int, b: int| 0 <= a < b < 8 implies
                #[trigger] neighbors[a] != #[trigger] neighbors[b] by {
                assert(neighbors[a]@ == neighborhood(self@)[a]);
                assert(neighbors[b]@ == neighborhood(self@)[b]);
            }
            assert forall|a: int| 0 <= a < 8 implies #[trigger] neighbors[a] != *self by {
                assert(neighbors[a]@ == neighborhood(self@)[a]);
            }
        }
    }
}

} // verus!
