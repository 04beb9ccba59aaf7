//! Reading back what was written.
//!
//! The text of a field, read as a board, gives the same cells again, moved so
//! that the leftmost column and the topmost row that hold a live cell come to
//! stand at place `PADDING`.

use vstd::prelude::*;
use crate::field::shifted;
use crate::parse::column_of;
use crate::parse::line_of;
use crate::parse::marks;
use crate::parse::parsed;
use crate::parse::LINE_BREAK;
use crate::render::bounding_box;
use crate::render::grid_text;
use crate::render::lemma_bounding_box_exists;
use crate::render::mark;
use crate::render::rendered;
use crate::render::row_marks;
use crate::render::sentinel;
use crate::render::PADDING;

verus! {

/// The place in a text of lines of `w` characters each of the character `c` of
/// the line `r`.
spec fn place(r: int, c: int, w: int) -> int {
    r * w + c
}

/// One line more is `w` characters more.
proof fn lemma_next_line(r: int, w: int)
    ensures
        place(r + 1, 0, w) == place(r, 0, w) + w,
        place(0, 0, w) == 0,
{
    assert((r + 1) * w == r * w + w) by (nonlinear_arith);
}

/// The lines before the line `r` are `r * w` characters, and no fewer than
/// those before an earlier line.
proof fn lemma_lines_grow(r: int, s: int, w: int)
    requires
        0 <= r <= s,
        0 <= w,
    ensures
        0 <= place(r, 0, w) <= place(s, 0, w),
{
    assert(0 <= r * w <= s * w) by (nonlinear_arith)
        requires
            0 <= r <= s,
            0 <= w,
    ;
}

/// A grid of `height` lines of `width` marks each has `height * (width + 1)`
/// characters.
proof fn lemma_grid_len(cells: Set<(int, int)>, x0: int, width: nat, y0: int, height: nat)
    ensures
        grid_text(cells, x0, width, y0, height).len() == place(height as int, 0, width as int + 1),
    decreases height,
{
    if height > 0 {
        lemma_grid_len(cells, x0, width, y0, (height - 1) as nat);
        lemma_next_line(height - 1, width as int + 1);
    } else {
        lemma_next_line(0, width as int + 1);
    }
}

/// In a grid, the character `c` of the line `r` is the mark of the position
/// `(x0 + c, y0 + r)`, and each line ends with a line break.
proof fn lemma_grid_char(
    cells: Set<(int, int)>,
    x0: int,
    width: nat,
    y0: int,
    height: nat,
    r: int,
    c: int,
)
    requires
        0 <= r < height,
        0 <= c <= width,
    ensures
        0 <= place(r, c, width as int + 1) < grid_text(cells, x0, width, y0, height).len(),
        grid_text(cells, x0, width, y0, height)[place(r, c, width as int + 1)] == if c == width {
            LINE_BREAK
        } else {
            mark(cells, (x0 + c, y0 + r))
        },
    decreases height,
{
    let above = grid_text(cells, x0, width, y0, (height - 1) as nat);
    let line = row_marks(cells, y0 + height - 1, x0, width).push(LINE_BREAK);
    lemma_grid_len(cells, x0, width, y0, (height - 1) as nat);
    lemma_grid_len(cells, x0, width, y0, height);
    lemma_next_line(height - 1, width as int + 1);
    if r == height - 1 {
        lemma_lines_grow(0, r, width as int + 1);
        assert((above + line)[above.len() + c] == line[c]);
    } else {
        lemma_grid_char(cells, x0, width, y0, (height - 1) as nat, r, c);
        let i = place(r, c, width as int + 1);
        assert((above + line)[i] == above[i]);
    }
}

/// In a grid, the character `c` of the line `r` is read as standing at place
/// `c` of the line `r`.
proof fn lemma_grid_position(
    cells: Set<(int, int)>,
    x0: int,
    width: nat,
    y0: int,
    height: nat,
    r: int,
    c: int,
)
    requires
        0 <= r < height,
        0 <= c <= width,
    ensures
        line_of(grid_text(cells, x0, width, y0, height), place(r, c, width as int + 1)) == r,
        column_of(grid_text(cells, x0, width, y0, height), place(r, c, width as int + 1)) == c,
    decreases r, c,
{
    let text = grid_text(cells, x0, width, y0, height);
    let i = place(r, c, width as int + 1);
    if c > 0 {
        lemma_grid_position(cells, x0, width, y0, height, r, c - 1);
        lemma_grid_char(cells, x0, width, y0, height, r, c - 1);
        lemma_lines_grow(0, r, width as int + 1);
        assert(place(r, c - 1, width as int + 1) == i - 1);
    } else if r > 0 {
        lemma_grid_position(cells, x0, width, y0, height, r - 1, width as int);
        lemma_grid_char(cells, x0, width, y0, height, r - 1, width as int);
        lemma_next_line(r - 1, width as int + 1);
        lemma_lines_grow(0, r - 1, width as int + 1);
        assert(place(r - 1, width as int, width as int + 1) == i - 1);
    } else {
        lemma_next_line(0, width as int + 1);
    }
}

/// Every character of a text of `h` lines of `w` characters each stands in
/// one of the lines, at one of its places.
proof fn lemma_line_and_place(i: int, w: int, h: int) -> (at: (int, int))
    requires
        0 < w,
        0 <= i < place(h, 0, w),
    ensures
        0 <= at.0 < h,
        0 <= at.1 < w,
        i == place(at.0, at.1, w),
    decreases h,
{
    if h <= 0 {
        assert(h * w <= 0) by (nonlinear_arith)
            requires
                h <= 0,
                0 < w,
        ;
        (0, 0)
    } else {
        lemma_next_line(h - 1, w);
        if i >= place(h - 1, 0, w) {
            (h - 1, i - place(h - 1, 0, w))
        } else {
            lemma_line_and_place(i, w, h - 1)
        }
    }
}

/// What a grid marks as live: the live cells that it shows, each at its
/// column and row within the grid.
pub proof fn lemma_parsed_grid(cells: Set<(int, int)>, x0: int, width: nat, y0: int, height: nat)
    ensures
        forall|p: (int, int)|
            parsed(grid_text(cells, x0, width, y0, height)).contains(p) <==> {
                &&& 0 <= p.0 < width
                &&& 0 <= p.1 < height
                &&& cells.contains((x0 + p.0, y0 + p.1))
            },
{
    let text = grid_text(cells, x0, width, y0, height);
    lemma_grid_len(cells, x0, width, y0, height);
    assert forall|p: (int, int)| parsed(text).contains(p) implies
        0 <= p.0 < width && 0 <= p.1 < height && cells.contains((x0 + p.0, y0 + p.1)) by {
        let i = choose|i: int| i < text.len() && #[trigger] marks(text, i, p);
        let at = lemma_line_and_place(i, width as int + 1, height as int);
        lemma_grid_char(cells, x0, width, y0, height, at.0, at.1);
        lemma_grid_position(cells, x0, width, y0, height, at.0, at.1);
    }
    assert forall|p: (int, int)|
        0 <= p.0 < width && 0 <= p.1 < height && cells.contains((x0 + p.0, y0 + p.1)) implies
        parsed(text).contains(p) by {
        lemma_grid_char(cells, x0, width, y0, height, p.1, p.0);
        lemma_grid_position(cells, x0, width, y0, height, p.1, p.0);
        assert(marks(text, place(p.1, p.0, width as int + 1), p));
    }
}

/// The word written for the field without live cells marks no cell as live.
pub proof fn lemma_parsed_sentinel()
    ensures
        parsed(sentinel()) == Set::<(int, int)>::empty(),
{
    assert forall|p: (int, int)| !parsed(sentinel()).contains(p) by {
        if parsed(sentinel()).contains(p) {
            let i = choose|i: int| i < sentinel().len() && #[trigger] marks(sentinel(), i, p);
            assert(i == 0 || i == 1 || i == 2 || i == 3 || i == 4);
        }
    }
    assert(parsed(sentinel()) =~= Set::<(int, int)>::empty());
}

/// The text of a finite set of cells, read as a board, gives the cells again,
/// moved so that the smallest rectangle around them has its upper left
/// corner at `(PADDING, PADDING)`.  Where no cell is live, none is read.
pub proof fn lemma_render_then_parse(cells: Set<(int, int)>)
    requires
        cells.finite(),
    ensures
        parsed(rendered(cells)) == shifted(
            cells,
            PADDING - bounding_box(cells).left,
            PADDING - bounding_box(cells).top,
        ),
        cells.is_empty() ==> parsed(rendered(cells)) == cells,
{
    let frame = bounding_box(cells);
    let moved = shifted(cells, PADDING - frame.left, PADDING - frame.top);
    if cells.is_empty() {
        lemma_parsed_sentinel();
        assert(moved =~= Set::<(int, int)>::empty());
        assert(cells =~= Set::<(int, int)>::empty());
    } else {
        lemma_bounding_box_exists(cells);
        let width = (frame.right - frame.left + 1 + 2 * PADDING) as nat;
        let height = (frame.bottom - frame.top + 1 + 2 * PADDING) as nat;
        lemma_parsed_grid(cells, frame.left - PADDING, width, frame.top - PADDING, height);
        assert(parsed(rendered(cells)) =~= moved);
    }
}

} // verus!
