//! Reading a board from text.
//!
//! The text is a sequence of lines, separated by line breaks.  The character
//! at place `x` of line `y`, both counted from 0, stands for the position
//! `(x, y)`: the column comes first.  `X` marks a live cell; every other
//! character stands for a dead one.

use vstd::prelude::*;
use crate::cell::representable;
use crate::cell::Cell;
use crate::field::within;
use crate::field::Field;

verus! {

/// The character that marks a live cell.
pub const LIVE: char = 'X';

/// The character that ends a line.
pub const LINE_BREAK: char = '\n';

/// The line that the character at place `i` of `text` stands in: the number
/// of line breaks before it.
pub open spec fn line_of(text: Seq<char>, i: int) -> int
    decreases i,
{
    if i <= 0 {
        0
    } else if text[i - 1] == LINE_BREAK {
        line_of(text, i - 1) + 1
    } else {
        line_of(text, i - 1)
    }
}

/// The place within its line of the character at place `i` of `text`: the
/// number of characters between it and the line break before it.
pub open spec fn column_of(text: Seq<char>, i: int) -> int
    decreases i,
{
    if i <= 0 {
        0
    } else if text[i - 1] == LINE_BREAK {
        0
    } else {
        column_of(text, i - 1) + 1
    }
}

/// The character at place `i` of `text` marks the position `p` as live.
pub open spec fn marks(text: Seq<char>, i: int, p: (int, int)) -> bool {
    &&& 0 <= i < text.len()
    &&& text[i] == LIVE
    &&& column_of(text, i) == p.0
    &&& line_of(text, i) == p.1
}

/// The positions that the first `n` characters of `text` mark as live.
pub open spec fn parsed_prefix(text: Seq<char>, n: int) -> Set<(int, int)> {
    Set::new(|p: (int, int)| exists|i: int| i < n && #[trigger] marks(text, i, p))
}

/// The positions that `text` marks as live.
pub open spec fn parsed(text: Seq<char>) -> Set<(int, int)> {
    parsed_prefix(text, text.len() as int)
}

/// A character stands in a line and at a place that are no greater than its
/// own place in the text.
pub proof fn lemma_position_bounds(text: Seq<char>, i: int)
    requires
        0 <= i,
    ensures
        0 <= line_of(text, i) <= i,
        0 <= column_of(text, i) <= i,
    decreases i,
{
    if i > 0 {
        lemma_position_bounds(text, i - 1);
    }
}

/// No cell is marked at a negative coordinate, nor at one as great as the
/// length of the text.
pub proof fn lemma_parsed_within(text: Seq<char>)
    ensures
        within(parsed(text), 0, text.len() - 1),
{
    assert forall|p: (int, int)| #[trigger] parsed(text).contains(p) implies
        0 <= p.0 <= text.len() - 1 && 0 <= p.1 <= text.len() - 1 by {
        let i = choose|i: int| i < text.len() && #[trigger] marks(text, i, p);
        lemma_position_bounds(text, i);
    }
}

/// The positions that the first `n` characters of `text` mark as live and
/// that a cell can hold.
spec fn kept_prefix(text: Seq<char>, n: int) -> Set<(int, int)> {
    parsed_prefix(text, n).filter(|p: (int, int)| representable(p))
}

/// `n`, or the greatest `u64` where `n` is greater.
spec fn clipped(n: int) -> int {
    if n <= u64::MAX {
        n
    } else {
        u64::MAX as int
    }
}

impl Field {
    /// The field that `desc` describes.
    ///
    /// A cell holds its coordinates as `i64`, so a character at a place or in
    /// a line beyond `i64::MAX` marks no cell.  No text of at most
    /// `i64::MAX + 1` characters has such a character.
    pub fn new(desc: &str) -> (field: Field)
        ensures
            field@ == parsed(desc@).filter(|p: (int, int)| representable(p)),
            desc@.len() <= i64::MAX + 1 ==> field@ == parsed(desc@),
            desc@.len() <= i64::MAX ==> field.interior(),
    {
        let mut field = Field::empty();
        let mut x: u64 = 0;
        let mut y: u64 = 0;
        for c in it: desc.chars()
            invariant
                it.seq() == desc@,
                x == clipped(column_of(desc@, it.index())),
                y == clipped(line_of(desc@, it.index())),
                field@ == kept_prefix(desc@, it.index()),
        {
            let ghost i = it.index();
            proof {
                lemma_position_bounds(desc@, i);
                assert(c == desc@[i]);
            }
            if c == LIVE && x <= i64::MAX as u64 && y <= i64::MAX as u64 {
                field.add(Cell { x: x as i64, y: y as i64 });
            }
            proof {
                assert(field@ =~= kept_prefix(desc@, i + 1)) by {
                    assert forall|p: (int, int)|
                        kept_prefix(desc@, i + 1).contains(p) implies field@.contains(p) by {
                        let j = choose|j: int| j < i + 1 && #[trigger] marks(desc@, j, p);
                        if j < i {
                            assert(kept_prefix(desc@, i).contains(p));
                        }
                    }
                    assert forall|p: (int, int)|
                        field@.contains(p) implies kept_prefix(desc@, i + 1).contains(p) by {
                        if kept_prefix(desc@, i).contains(p) {
                            let j = choose|j: int| j < i && #[trigger] marks(desc@, j, p);
                            assert(marks(desc@, j, p));
                        } else {
                            assert(marks(desc@, i, p));
                        }
                    }
                }
            }
            if c == LINE_BREAK {
                y = y.saturating_add(1);
                x = 0;
            } else {
                x = x.saturating_add(1);
            }
        }
        proof {
            lemma_parsed_within(desc@);
            if desc@.len() <= i64::MAX + 1 {
                assert(field@ =~= parsed(desc@));
            }
        }
        field
    }
}

} // verus!
