//! Writing a board as text.
//!
//! A field without live cells is written as the word `empty`.  Any other
//! field is written as a grid of `X` and `.`: one line for each row from two
//! above the topmost live cell to two below the lowest one, and in each line
//! one character for each column from two before the leftmost live cell to
//! two behind the rightmost one.  Every line ends with a line break.

use vstd::prelude::*;
use vstd::std_specs::iter::IteratorSpec;
use vstd::string::StringExecFns;
use crate::cell::Cell;
use crate::field::Field;
use crate::key::point_of;
use crate::key::unpack;
use crate::parse::LINE_BREAK;
use crate::parse::LIVE;

verus! {

broadcast use vstd::std_specs::hash::group_hash_axioms;

/// The character that stands for a dead cell.
pub const DEAD: char = '.';

/// The number of dead rows and columns written on each side of the live cells.
pub const PADDING: i64 = 2;

/// What is written for a field without live cells.
pub open spec fn sentinel() -> Seq<char> {
    seq!['e', 'm', 'p', 't', 'y']
}

/// The smallest rectangle that holds a set of positions.
pub struct Frame {
    pub left: int,
    pub right: int,
    pub top: int,
    pub bottom: int,
}

/// `frame` is the smallest rectangle that holds all of `cells`: no position of
/// `cells` is outside it, and each of its four sides touches one.
pub open spec fn frames(frame: Frame, cells: Set<(int, int)>) -> bool {
    &&& forall|p: (int, int)| #[trigger]
        cells.contains(p) ==> frame.left <= p.0 <= frame.right && frame.top <= p.1 <= frame.bottom
    &&& exists|p: (int, int)| #[trigger] cells.contains(p) && p.0 == frame.left
    &&& exists|p: (int, int)| #[trigger] cells.contains(p) && p.0 == frame.right
    &&& exists|p: (int, int)| #[trigger] cells.contains(p) && p.1 == frame.top
    &&& exists|p: (int, int)| #[trigger] cells.contains(p) && p.1 == frame.bottom
}

/// The smallest rectangle that holds all of `cells`, where there is one: a
/// set that is finite and not empty has exactly one.
pub open spec fn bounding_box(cells: Set<(int, int)>) -> Frame {
    choose|frame: Frame| frames(frame, cells)
}

/// The character written for the position `p`.
pub open spec fn mark(cells: Set<(int, int)>, p: (int, int)) -> char {
    if cells.contains(p) {
        LIVE
    } else {
        DEAD
    }
}

/// The first `n` characters of the row `y`, from the column `x0` on.
pub open spec fn row_marks(cells: Set<(int, int)>, y: int, x0: int, n: nat) -> Seq<char> {
    Seq::new(n, |c: int| mark(cells, (x0 + c, y)))
}

/// The first `height` lines of a grid that starts at the row `y0` and shows
/// `width` columns from the column `x0` on.
pub open spec fn grid_text(
    cells: Set<(int, int)>,
    x0: int,
    width: nat,
    y0: int,
    height: nat,
) -> Seq<char>
    decreases height,
{
    if height == 0 {
        Seq::empty()
    } else {
        grid_text(cells, x0, width, y0, (height - 1) as nat) + row_marks(
            cells,
            y0 + height - 1,
            x0,
            width,
        ).push(LINE_BREAK)
    }
}

/// The text that stands for `cells`.
pub open spec fn rendered(cells: Set<(int, int)>) -> Seq<char> {
    if cells.is_empty() {
        sentinel()
    } else {
        let frame = bounding_box(cells);
        grid_text(
            cells,
            frame.left - PADDING,
            (frame.right - frame.left + 1 + 2 * PADDING) as nat,
            frame.top - PADDING,
            (frame.bottom - frame.top + 1 + 2 * PADDING) as nat,
        )
    }
}

/// A set of positions has at most one smallest rectangle.
pub proof fn lemma_frame_unique(a: Frame, b: Frame, cells: Set<(int, int)>)
    requires
        frames(a, cells),
        frames(b, cells),
    ensures
        a == b,
{
}

/// A set of positions that is finite and not empty has a smallest rectangle.
pub proof fn lemma_bounding_box_exists(cells: Set<(int, int)>)
    requires
        cells.finite(),
        !cells.is_empty(),
    ensures
        frames(bounding_box(cells), cells),
    decreases cells.len(),
{
    let e = cells.choose();
    let rest = cells.remove(e);
    assert(cells.contains(e));
    if rest.is_empty() {
        let frame = Frame { left: e.0, right: e.0, top: e.1, bottom: e.1 };
        assert forall|p: (int, int)| #[trigger] cells.contains(p) implies p == e by {
            if p != e {
                assert(rest.contains(p));
            }
        }
        assert(frames(frame, cells));
    } else {
        lemma_bounding_box_exists(rest);
        let inner = bounding_box(rest);
        let at_left = choose|p: (int, int)| #[trigger] rest.contains(p) && p.0 == inner.left;
        let at_right = choose|p: (int, int)| #[trigger] rest.contains(p) && p.0 == inner.right;
        let at_top = choose|p: (int, int)| #[trigger] rest.contains(p) && p.1 == inner.top;
        let at_bottom = choose|p: (int, int)| #[trigger] rest.contains(p) && p.1 == inner.bottom;
        let frame = Frame {
            left: if e.0 < inner.left {
                e.0
            } else {
                inner.left
            },
            right: if e.0 > inner.right {
                e.0
            } else {
                inner.right
            },
            top: if e.1 < inner.top {
                e.1
            } else {
                inner.top
            },
            bottom: if e.1 > inner.bottom {
                e.1
            } else {
                inner.bottom
            },
        };
        assert(cells.contains(at_left) && cells.contains(at_right));
        assert(cells.contains(at_top) && cells.contains(at_bottom));
        assert forall|p: (int, int)| #[trigger] cells.contains(p) implies
            frame.left <= p.0 <= frame.right && frame.top <= p.1 <= frame.bottom by {
            if p != e {
                assert(rest.contains(p));
            }
        }
        assert(frames(frame, cells));
    }
}

/// A grid with at least one line ends with a line break.
pub proof fn lemma_grid_ends_with_line_break(
    cells: Set<(int, int)>,
    x0: int,
    width: nat,
    y0: int,
    height: nat,
)
    requires
        height > 0,
    ensures
        grid_text(cells, x0, width, y0, height).len() > 0,
        grid_text(cells, x0, width, y0, height).last() == LINE_BREAK,
{
}

/// The word `empty` is written for the set without positions and for no
/// other finite set.
pub proof fn lemma_sentinel_means_empty(cells: Set<(int, int)>)
    requires
        cells.finite(),
    ensures
        rendered(cells) == sentinel() <==> cells.is_empty(),
{
    if !cells.is_empty() {
        lemma_bounding_box_exists(cells);
        let frame = bounding_box(cells);
        lemma_grid_ends_with_line_break(
            cells,
            frame.left - PADDING,
            (frame.right - frame.left + 1 + 2 * PADDING) as nat,
            frame.top - PADDING,
            (frame.bottom - frame.top + 1 + 2 * PADDING) as nat,
        );
        assert(sentinel().last() == 'y');
    }
}

impl Field {
    /// Whether the position `(x, y)` is live.
    fn live_at(&self, x: i128, y: i128) -> (live: bool)
        ensures
            live == self@.contains((x as int, y as int)),
    {
        if x < i64::MIN as i128 || x > i64::MAX as i128 || y < i64::MIN as i128
            || y > i64::MAX as i128 {
            proof {
                self.lemma_view();
            }
            false
        } else {
            self.contains(Cell { x: x as i64, y: y as i64 })
        }
    }

    /// The smallest and the greatest column and the smallest and the greatest
    /// row, in this order, that hold a live cell.
    fn extent(&self) -> (sides: (i64, i64, i64, i64))
        requires
            !self@.is_empty(),
        ensures
            frames(
                (Frame {
                    left: sides.0 as int,
                    right: sides.1 as int,
                    top: sides.2 as int,
                    bottom: sides.3 as int,
                }),
                self@,
            ),
    {
        let mut min_x = i64::MAX;
        let mut max_x = i64::MIN;
        let mut min_y = i64::MAX;
        let mut max_y = i64::MIN;
        let ghost mut at_min_x: int = 0;
        let ghost mut at_max_x: int = 0;
        let ghost mut at_min_y: int = 0;
        let ghost mut at_max_y: int = 0;
        for k in it: self.keys.iter()
            invariant
                forall|i: int|
                    0 <= i < it.index() ==> min_x <= point_of(*#[trigger] it.seq()[i] as int).0
                        <= max_x,
                forall|i: int|
                    0 <= i < it.index() ==> min_y <= point_of(*#[trigger] it.seq()[i] as int).1
                        <= max_y,
                0 <= at_min_x <= it.index(),
                0 <= at_max_x <= it.index(),
                0 <= at_min_y <= it.index(),
                0 <= at_max_y <= it.index(),
                it.index() > 0 ==> at_min_x < it.index() && point_of(*it.seq()[at_min_x] as int).0
                    == min_x,
                it.index() > 0 ==> at_max_x < it.index() && point_of(*it.seq()[at_max_x] as int).0
                    == max_x,
                it.index() > 0 ==> at_min_y < it.index() && point_of(*it.seq()[at_min_y] as int).1
                    == min_y,
                it.index() > 0 ==> at_max_y < it.index() && point_of(*it.seq()[at_max_y] as int).1
                    == max_y,
                it.index() == 0 ==> min_x == i64::MAX && max_x == i64::MIN && min_y == i64::MAX
                    && max_y == i64::MIN,
        {
            let cell = unpack(*k);
            let ghost i = it.index();
            assert(*k == *it.seq()[i]);
            if cell.x < min_x {
                min_x = cell.x;
                proof {
                    at_min_x = i;
                }
            }
            if cell.x > max_x {
                max_x = cell.x;
                proof {
                    at_max_x = i;
                }
            }
            if cell.y < min_y {
                min_y = cell.y;
                proof {
                    at_min_y = i;
                }
            }
            if cell.y > max_y {
                max_y = cell.y;
                proof {
                    at_max_y = i;
                }
            }
        }
        proof {
            let walk = self.keys.iter().remaining();
            self.lemma_walk();
            assert forall|p: (int, int)| #[trigger]
                self@.contains(p) implies min_x <= p.0 <= max_x && min_y <= p.1 <= max_y by {
                let i = choose|i: int|
                    0 <= i < walk.len() && point_of(*#[trigger] walk[i] as int) == p;
            }
            assert(self@.contains(point_of(*walk[at_min_x] as int)));
            assert(self@.contains(point_of(*walk[at_max_x] as int)));
            assert(self@.contains(point_of(*walk[at_min_y] as int)));
            assert(self@.contains(point_of(*walk[at_max_y] as int)));
        }
        (min_x, max_x, min_y, max_y)
    }

    /// The field as text.
    pub fn render(&self) -> (text: String)
        ensures
            text@ == rendered(self@),
            text@ == sentinel() <==> self@.is_empty(),
    {
        proof {
            self.lemma_view();
            lemma_sentinel_means_empty(self@);
        }
        if self.is_empty() {
            proof {
                reveal_strlit("empty");
                assert("empty"@ =~= sentinel());
            }
            return "empty".to_owned();
        }
        let (min_x, max_x, min_y, max_y) = self.extent();
        proof {
            let frame = Frame {
                left: min_x as int,
                right: max_x as int,
                top: min_y as int,
                bottom: max_y as int,
            };
            lemma_frame_unique(frame, bounding_box(self@), self@);
        }
        let x0: i128 = min_x as i128 - PADDING as i128;
        let x1: i128 = max_x as i128 + PADDING as i128;
        let y0: i128 = min_y as i128 - PADDING as i128;
        let y1: i128 = max_y as i128 + PADDING as i128;
        let ghost width = (x1 - x0 + 1) as nat;
        let mut text = String::new();
        let mut y = y0;
        while y <= y1
            invariant
                x0 <= x1 <= i64::MAX + PADDING,
                y0 <= y <= y1 + 1,
                y1 <= i64::MAX + PADDING,
                width == x1 - x0 + 1,
                text@ == grid_text(self@, x0 as int, width, y0 as int, (y - y0) as nat),
            decreases y1 + 1 - y,
        {
            let ghost above = text@;
            let mut x = x0;
            while x <= x1
                invariant
                    x0 <= x <= x1 + 1,
                    x1 <= i64::MAX + PADDING,
                    text@ == above + row_marks(self@, y as int, x0 as int, (x - x0) as nat),
                decreases x1 + 1 - x,
            {
                if self.live_at(x, y) {
                    proof {
                        reveal_strlit("X");
                    }
                    text.append("X");
                } else {
                    proof {
                        reveal_strlit(".");
                    }
                    text.append(".");
                }
                proof {
                    assert(text@ =~= above + row_marks(
                        self@,
                        y as int,
                        x0 as int,
                        (x + 1 - x0) as nat,
                    ));
                }
                x += 1;
            }
            proof {
                reveal_strlit("\n");
            }
            text.append("\n");
            proof {
                assert(text@ =~= grid_text(
                    self@,
                    x0 as int,
                    width,
                    y0 as int,
                    (y + 1 - y0) as nat,
                ));
            }
            y += 1;
        }
        text
    }
}

} // verus!
