//! Neighbour sums on a bounded grid: cells outside the grid do not exist and
//! contribute nothing (no wraparound).

use vstd::prelude::*;
use crate::board::{gather_board_values, shaped, sum_at, Board};

verus! {

/// The value of the cell `(r, c)` of the `rows` x `cols` grid `g`, or 0 where
/// there is no such cell.
pub open spec fn value_at(g: Seq<Seq<u8>>, rows: int, cols: int, r: int, c: int) -> int {
    if 0 <= r < rows && 0 <= c < cols {
        g[r][c] as int
    } else {
        0
    }
}

/// The sum of the values of the (up to eight) cells around `(r, c)`.
pub open spec fn neighbor_sum(g: Seq<Seq<u8>>, rows: int, cols: int, r: int, c: int) -> int {
    value_at(g, rows, cols, r - 1, c - 1) + value_at(g, rows, cols, r - 1, c) + value_at(
        g,
        rows,
        cols,
        r - 1,
        c + 1,
    ) + value_at(g, rows, cols, r, c - 1) + value_at(g, rows, cols, r, c + 1) + value_at(
        g,
        rows,
        cols,
        r + 1,
        c - 1,
    ) + value_at(g, rows, cols, r + 1, c) + value_at(g, rows, cols, r + 1, c + 1)
}

/// The sum of the neighbours of cell `(r, c)` of the `rows` x `cols` board.
/// Corners have three neighbours, other border cells five, inner cells eight;
/// a single row or column has only the cells beside it along the line.
pub fn count_neighbors(brd: &Board, rows: &usize, cols: &usize, r: &usize, c: &usize) -> (n: u8)
    requires
        shaped(brd@, *rows as int, *cols as int),
        *r < *rows,
        *c < *cols,
        neighbor_sum(brd@, *rows as int, *cols as int, *r as int, *c as int) <= u8::MAX,
    ensures
        n == neighbor_sum(brd@, *rows as int, *cols as int, *r as int, *c as int),
{
    let rows = *rows;
    let cols = *cols;
    let r = *r;
    let c = *c;
    proof {
        reveal_with_fuel(sum_at, 9);
    }
    if rows == 1 && cols == 1 {
        0
    }
    // A single row: only left and right.
    else if rows == 1 {
        if c == 0 {
            gather_board_values(brd, &[(0, 1)])
        } else if c == cols - 1 {
            gather_board_values(brd, &[(0, c - 1)])
        } else {
            gather_board_values(brd, &[(0, c - 1), (0, c + 1)])
        }
    }
    // A single column: only above and below.
    else if cols == 1 {
        if r == 0 {
            gather_board_values(brd, &[(1, 0)])
        } else if r == rows - 1 {
            gather_board_values(brd, &[(r - 1, 0)])
        } else {
            gather_board_values(brd, &[(r - 1, 0), (r + 1, 0)])
        }
    }
    // Upper left corner
    else if r == 0 && c == 0 {
        gather_board_values(brd, &[(0, 1), (1, 0), (1, 1)])
    }
    // Upper right corner
    else if r == 0 && c == cols - 1 {
        gather_board_values(brd, &[(0, cols - 2), (1, cols - 2), (1, cols - 1)])
    }
    // Bottom right corner
    else if r == rows - 1 && c == cols - 1 {
        gather_board_values(brd, &[(rows - 2, cols - 1), (rows - 2, cols - 2), (rows - 1, cols - 2)])
    }
    // Bottom left corner
    else if r == rows - 1 && c == 0 {
        gather_board_values(brd, &[(rows - 2, 0), (rows - 2, 1), (rows - 1, 1)])
    }
    // Top row
    else if r == 0 {
        gather_board_values(brd, &[(0, c - 1), (1, c - 1), (1, c), (1, c + 1), (0, c + 1)])
    }
    // Right column
    else if c == cols - 1 {
        gather_board_values(brd, &[(r - 1, c), (r - 1, c - 1), (r, c - 1), (r + 1, c - 1), (r + 1, c)])
    }
    // Bottom row
    else if r == rows - 1 {
        gather_board_values(brd, &[(r, c - 1), (r - 1, c - 1), (r - 1, c), (r - 1, c + 1), (r, c + 1)])
    }
    // Left column
    else if c == 0 {
        gather_board_values(brd, &[(r - 1, 0), (r - 1, 1), (r, 1), (r + 1, 1), (r + 1, 0)])
    }
    // Inner cell
    else {
        gather_board_values(
            brd,
            &[
                (r - 1, c - 1),
                (r - 1, c),
                (r - 1, c + 1),
                (r, c + 1),
                (r + 1, c + 1),
                (r + 1, c),
                (r + 1, c - 1),
                (r, c - 1),
            ],
        )
    }
}

/// No wraparound: in a grid whose only live cell is `(0, 0)`, the opposite
/// corner `(rows - 1, cols - 1)` has no live neighbour, unless the grid is so
/// small that the two corners really touch.
pub proof fn lemma_no_wraparound(g: Seq<Seq<u8>>, rows: int, cols: int)
    requires
        shaped(g, rows, cols),
        rows >= 1,
        cols >= 1,
        rows > 2 || cols > 2,
        g[0][0] == 1,
        forall|r: int, c: int|
            0 <= r < rows && 0 <= c < cols && (r, c) != (0int, 0int) ==> #[trigger] g[r][c] == 0,
    ensures
        neighbor_sum(g, rows, cols, rows - 1, cols - 1) == 0,
{
}

} // verus!
