//! The transition scanner: the changes that the Life rule makes to the cells
//! of one rectangular sub-region, read against the whole current grid.

use vstd::prelude::*;
use crate::board::{is_binary, shaped, Board};
use crate::neighbors::{count_neighbors, neighbor_sum, value_at};

verus! {

/// A required mutation: `(row, col, new value)`.
pub type CellChange = (usize, usize, u8);

/// The Life rule (B3/S23): the next value of a cell holding `cur` with
/// neighbour sum `n`.
pub open spec fn next_value(cur: u8, n: int) -> u8 {
    if cur == 1 && (n < 2 || n > 3) {
        0
    } else if cur == 0 && n == 3 {
        1
    } else {
        cur
    }
}

/// The next value of the cell `(r, c)` of grid `g`.
pub open spec fn life_next(g: Seq<Seq<u8>>, rows: int, cols: int, r: int, c: int) -> u8 {
    next_value(g[r][c], neighbor_sum(g, rows, cols, r, c))
}

/// The change the rule makes to the cell `(r, c)`: one entry if its value
/// changes, none if it stays.
pub open spec fn cell_change(g: Seq<Seq<u8>>, rows: int, cols: int, r: int, c: int) -> Seq<
    CellChange,
> {
    if life_next(g, rows, cols, r, c) != g[r][c] {
        seq![(r as usize, c as usize, life_next(g, rows, cols, r, c))]
    } else {
        seq![]
    }
}

/// The changes to the cells `c0 .. c1` of row `r`, left to right.
pub open spec fn row_changes(g: Seq<Seq<u8>>, rows: int, cols: int, r: int, c0: int, c1: int) -> Seq<
    CellChange,
>
    decreases c1 - c0,
{
    if c1 <= c0 {
        seq![]
    } else {
        row_changes(g, rows, cols, r, c0, c1 - 1) + cell_change(g, rows, cols, r, c1 - 1)
    }
}

/// The changes to the cells of rows `r0 .. r1` and columns `c0 .. c1`, row by
/// row.
pub open spec fn region_changes(
    g: Seq<Seq<u8>>,
    rows: int,
    cols: int,
    r0: int,
    r1: int,
    c0: int,
    c1: int,
) -> Seq<CellChange>
    decreases r1 - r0,
{
    if r1 <= r0 {
        seq![]
    } else {
        region_changes(g, rows, cols, r0, r1 - 1, c0, c1) + row_changes(g, rows, cols, r1 - 1, c0, c1)
    }
}

proof fn lemma_binary_neighbor_sum(g: Seq<Seq<u8>>, rows: int, cols: int, r: int, c: int)
    requires
        is_binary(g, rows, cols),
    ensures
        0 <= neighbor_sum(g, rows, cols, r, c) <= 8,
{
    assert forall|i: int, j: int| 0 <= #[trigger] value_at(g, rows, cols, i, j) <= 1 by {
        if 0 <= i < rows && 0 <= j < cols {
            assert(g[i][j] <= 1);
        }
    }
    assert(0 <= value_at(g, rows, cols, r - 1, c - 1) <= 1);
    assert(0 <= value_at(g, rows, cols, r - 1, c) <= 1);
    assert(0 <= value_at(g, rows, cols, r - 1, c + 1) <= 1);
    assert(0 <= value_at(g, rows, cols, r, c - 1) <= 1);
    assert(0 <= value_at(g, rows, cols, r, c + 1) <= 1);
    assert(0 <= value_at(g, rows, cols, r + 1, c - 1) <= 1);
    assert(0 <= value_at(g, rows, cols, r + 1, c) <= 1);
    assert(0 <= value_at(g, rows, cols, r + 1, c + 1) <= 1);
}

/// Every change that the scan of rows `r0 .. r1` and columns `c0 .. c1` lists
/// lies in that rectangle, carries the cell's next value, and differs from its
/// current value.
pub proof fn lemma_region_changes_entries(g: Seq<Seq<u8>>, rows: int, cols: int, r0: int, r1: int, c0: int, c1: int)
    requires
        0 <= r0,
        0 <= c0,
        r1 <= usize::MAX + 1,
        c1 <= usize::MAX + 1,
    ensures
        forall|k: int|
            0 <= k < region_changes(g, rows, cols, r0, r1, c0, c1).len() ==> {
                let m = #[trigger] region_changes(g, rows, cols, r0, r1, c0, c1)[k];
                &&& r0 <= m.0 < r1
                &&& c0 <= m.1 < c1
                &&& m.2 == life_next(g, rows, cols, m.0 as int, m.1 as int)
                &&& m.2 != g[m.0 as int][m.1 as int]
            },
    decreases r1 - r0,
{
    if r1 > r0 {
        let front = region_changes(g, rows, cols, r0, r1 - 1, c0, c1);
        let back = row_changes(g, rows, cols, r1 - 1, c0, c1);
        lemma_region_changes_entries(g, rows, cols, r0, r1 - 1, c0, c1);
        lemma_row_changes_entries(g, rows, cols, r1 - 1, c0, c1);
        assert forall|k: int| 0 <= k < (front + back).len() implies {
            let m = #[trigger] (front + back)[k];
            &&& r0 <= m.0 < r1
            &&& c0 <= m.1 < c1
            &&& m.2 == life_next(g, rows, cols, m.0 as int, m.1 as int)
            &&& m.2 != g[m.0 as int][m.1 as int]
        } by {
            if k < front.len() {
                assert((front + back)[k] == front[k]);
            } else {
                assert((front + back)[k] == back[k - front.len()]);
            }
        }
    }
}

proof fn lemma_row_changes_entries(g: Seq<Seq<u8>>, rows: int, cols: int, r: int, c0: int, c1: int)
    requires
        0 <= r <= usize::MAX,
        0 <= c0,
        c1 <= usize::MAX + 1,
    ensures
        forall|k: int|
            0 <= k < row_changes(g, rows, cols, r, c0, c1).len() ==> {
                let m = #[trigger] row_changes(g, rows, cols, r, c0, c1)[k];
                &&& m.0 == r
                &&& c0 <= m.1 < c1
                &&& m.2 == life_next(g, rows, cols, m.0 as int, m.1 as int)
                &&& m.2 != g[m.0 as int][m.1 as int]
            },
    decreases c1 - c0,
{
    if c1 > c0 {
        let front = row_changes(g, rows, cols, r, c0, c1 - 1);
        let back = cell_change(g, rows, cols, r, c1 - 1);
        lemma_row_changes_entries(g, rows, cols, r, c0, c1 - 1);
        assert forall|k: int| 0 <= k < (front + back).len() implies {
            let m = #[trigger] (front + back)[k];
            &&& m.0 == r
            &&& c0 <= m.1 < c1
            &&& m.2 == life_next(g, rows, cols, m.0 as int, m.1 as int)
            &&& m.2 != g[m.0 as int][m.1 as int]
        } by {
            if k < front.len() {
                assert((front + back)[k] == front[k]);
            } else {
                assert((front + back)[k] == back[k - front.len()]);
            }
        }
    }
}

/// A region whose every cell keeps its value under the rule (a still life,
/// with the neighbours that the grid gives it) yields no change.
pub proof fn lemma_stable_region(g: Seq<Seq<u8>>, rows: int, cols: int, r0: int, r1: int, c0: int, c1: int)
    requires
        0 <= r0,
        0 <= c0,
        r1 <= usize::MAX + 1,
        c1 <= usize::MAX + 1,
        forall|r: int, c: int| r0 <= r < r1 && c0 <= c < c1 ==> #[trigger] life_next(g, rows, cols, r, c) == g[r][c],
    ensures
        region_changes(g, rows, cols, r0, r1, c0, c1).len() == 0,
{
    lemma_region_changes_entries(g, rows, cols, r0, r1, c0, c1);
    if region_changes(g, rows, cols, r0, r1, c0, c1).len() > 0 {
        let m = region_changes(g, rows, cols, r0, r1, c0, c1)[0];
        assert(life_next(g, rows, cols, m.0 as int, m.1 as int) == g[m.0 as int][m.1 as int]);
    }
}

/// Scans the cells of rows `start_row .. stop_row` and columns
/// `start_col .. stop_col` of the binary `rows` x `cols` board and lists, row
/// by row, the cells whose value the Life rule changes, with their new value.
pub fn capture_moves(
    brd: &Board,
    rows: &usize,
    cols: &usize,
    start_row: &usize,
    stop_row: &usize,
    start_col: &usize,
    stop_col: &usize,
) -> (moves: Vec<CellChange>)
    requires
        shaped(brd@, *rows as int, *cols as int),
        is_binary(brd@, *rows as int, *cols as int),
        *stop_row <= *rows,
        *stop_col <= *cols,
    ensures
        moves@ == region_changes(
            brd@,
            *rows as int,
            *cols as int,
            *start_row as int,
            *stop_row as int,
            *start_col as int,
            *stop_col as int,
        ),
        forall|k: int|
            0 <= k < moves@.len() ==> {
                let m = #[trigger] moves@[k];
                &&& *start_row <= m.0 < *stop_row
                &&& *start_col <= m.1 < *stop_col
                &&& m.2 == life_next(brd@, *rows as int, *cols as int, m.0 as int, m.1 as int)
                &&& m.2 != brd@[m.0 as int][m.1 as int]
            },
{
    let ghost g = brd@;
    let ghost (nr, nc) = (*rows as int, *cols as int);
    let mut moves: Vec<CellChange> = Vec::new();
    let mut r: usize = *start_row;
    while r < *stop_row
        invariant
            *start_row <= r,
            r <= *stop_row || r == *start_row,
            g == brd@,
            nr == *rows && nc == *cols,
            shaped(g, nr, nc),
            is_binary(g, nr, nc),
            *stop_row <= *rows,
            *stop_col <= *cols,
            moves@ == region_changes(g, nr, nc, *start_row as int, r as int, *start_col as int, *stop_col as int),
        decreases *stop_row - r,
    {
        let ghost before = moves@;
        let mut c: usize = *start_col;
        while c < *stop_col
            invariant
                *start_row <= r < *stop_row,
                *start_col <= c,
                c <= *stop_col || c == *start_col,
                g == brd@,
                nr == *rows && nc == *cols,
                shaped(g, nr, nc),
                is_binary(g, nr, nc),
                *stop_row <= *rows,
                *stop_col <= *cols,
                moves@ == before + row_changes(g, nr, nc, r as int, *start_col as int, c as int),
            decreases *stop_col - c,
        {
            proof {
                lemma_binary_neighbor_sum(g, nr, nc, r as int, c as int);
            }
            let count = count_neighbors(brd, rows, cols, &r, &c);
            let cur = brd.get(r, c);
            if cur == 1 && (count < 2 || count > 3) {
                moves.push((r, c, 0));
            } else if cur == 0 && count == 3 {
                moves.push((r, c, 1));
            }
            proof {
                assert(moves@ =~= before + row_changes(g, nr, nc, r as int, *start_col as int, c + 1));
            }
            c = c + 1;
        }
        proof {
            assert(row_changes(g, nr, nc, r as int, *start_col as int, c as int) =~= row_changes(
                g,
                nr,
                nc,
                r as int,
                *start_col as int,
                *stop_col as int,
            ));
        }
        r = r + 1;
    }
    proof {
        assert(region_changes(g, nr, nc, *start_row as int, r as int, *start_col as int, *stop_col as int)
            =~= region_changes(g, nr, nc, *start_row as int, *stop_row as int, *start_col as int, *stop_col as int));
        lemma_region_changes_entries(g, nr, nc, *start_row as int, *stop_row as int, *start_col as int, *stop_col as int);
    }
    moves
}

} // verus!
