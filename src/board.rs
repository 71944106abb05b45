//! The grid container: an `ndarray` matrix of cell values, seen by the proofs
//! as a sequence of rows.

use vstd::prelude::*;

verus! {

/// Row by row, the values held by an array.
pub uninterp spec fn board_cells(b: Board) -> Seq<Seq<u8>>;

/// A rectangular grid of cell values, stored as an `ndarray::Array2<u8>`.
#[verifier::external_body]
pub struct Board {
    arr: ndarray::Array2<u8>,
}

impl View for Board {
    type V = Seq<Seq<u8>>;

    open spec fn view(&self) -> Seq<Seq<u8>> {
        board_cells(*self)
    }
}

#[verifier::external_type_specification]
#[verifier::external_body]
pub struct ExShapeError(ndarray::ShapeError);

/// `g` has `rows` rows of `cols` values each.
pub open spec fn shaped(g: Seq<Seq<u8>>, rows: int, cols: int) -> bool {
    &&& g.len() == rows
    &&& forall|r: int| 0 <= r < rows ==> #[trigger] g[r].len() == cols
}

/// Every cell of the `rows` x `cols` grid `g` is 0 (dead) or 1 (alive).
pub open spec fn is_binary(g: Seq<Seq<u8>>, rows: int, cols: int) -> bool {
    forall|r: int, c: int| 0 <= r < rows && 0 <= c < cols ==> #[trigger] g[r][c] <= 1
}

/// The row-major sequence `v` cut into `rows` rows of `cols` values.
pub open spec fn grid_of(v: Seq<u8>, rows: nat, cols: nat) -> Seq<Seq<u8>> {
    Seq::new(rows, |r: int| v.subrange(r * cols, r * cols + cols))
}

/// A cell value turned over: 1 becomes 0, anything else becomes 1.
pub open spec fn flip_value(x: u8) -> u8 {
    if x == 1 {
        0
    } else {
        1
    }
}

/// Every value of `g` turned over.
pub open spec fn flipped(g: Seq<Seq<u8>>) -> Seq<Seq<u8>> {
    g.map_values(|row: Seq<u8>| row.map_values(|x: u8| flip_value(x)))
}

/// Each position of `ps` names a cell of `g`.
pub open spec fn positions_in(g: Seq<Seq<u8>>, ps: Seq<(usize, usize)>) -> bool {
    forall|k: int|
        0 <= k < ps.len() ==> {
            &&& (#[trigger] ps[k]).0 < g.len()
            &&& ps[k].1 < g[ps[k].0 as int].len()
        }
}

/// The sum of the values of `g` at the positions `ps`, repeats counted each time.
pub open spec fn sum_at(g: Seq<Seq<u8>>, ps: Seq<(usize, usize)>) -> int
    decreases ps.len(),
{
    if ps.len() == 0 {
        0
    } else {
        sum_at(g, ps.drop_last()) + g[ps.last().0 as int][ps.last().1 as int]
    }
}

/// Why a grid could not be built.
#[derive(Debug, Clone, Copy, PartialEq, Eq, Structural)]
pub enum GridError {
    /// The grid would have no rows or no columns.
    EmptyGrid,
    /// The number of values is not `rows * cols`.
    WrongCellCount,
    /// A value is neither 0 nor 1.
    InvalidCell,
}

/// Relies on `ndarray::Array2::from_shape_vec` with a plain `(rows, cols)`
/// shape: the values are laid out row by row, and the call succeeds when their
/// number is the product of the two lengths and that product fits in `isize`.
#[verifier::external_body]
fn board_from_vec(rows: usize, cols: usize, v: Vec<u8>) -> (r: Result<Board, ndarray::ShapeError>)
    ensures
        rows > 0 && cols > 0 && v@.len() == rows * cols && rows * cols <= isize::MAX ==> r is Ok,
        r matches Ok(b) ==> board_cells(b) == grid_of(v@, rows as nat, cols as nat),
{
    match ndarray::Array2::from_shape_vec((rows, cols), v) {
        Ok(arr) => Ok(Board { arr }),
        Err(e) => Err(e),
    }
}

/// Relies on `ndarray::ArrayBase::dim`: the number of rows and of columns.
#[verifier::external_body]
fn board_dim(b: &Board) -> (d: (usize, usize))
    ensures
        board_cells(*b).len() == d.0,
        forall|r: int| 0 <= r < d.0 ==> #[trigger] board_cells(*b)[r].len() == d.1,
{
    b.arr.dim()
}

/// Relies on ndarray's `Index<[usize; 2]>`: the value at row `r`, column `c`.
#[verifier::external_body]
fn cell_at(b: &Board, r: usize, c: usize) -> (v: u8)
    requires
        r < board_cells(*b).len(),
        c < board_cells(*b)[r as int].len(),
    ensures
        v == board_cells(*b)[r as int][c as int],
{
    b.arr[[r, c]]
}

/// Relies on ndarray's `IndexMut<[usize; 2]>`: only the value at row `r`,
/// column `c` is replaced.
#[verifier::external_body]
pub(crate) fn set_cell(b: &mut Board, r: usize, c: usize, v: u8)
    requires
        r < board_cells(*old(b)).len(),
        c < board_cells(*old(b))[r as int].len(),
    ensures
        board_cells(*final(b)) == board_cells(*old(b)).update(r as int, board_cells(*old(b))[r as int].update(c as int, v)),
{
    b.arr[[r, c]] = v;
}

/// Relies on `Clone` for `ndarray::Array2`: an array with the same values.
#[verifier::external_body]
pub(crate) fn copy_board(b: &Board) -> (r: Board)
    ensures
        board_cells(r) == board_cells(*b),
{
    Board { arr: b.arr.clone() }
}

impl Board {
    /// Builds a `rows` x `cols` grid from its values listed row by row. Each
    /// value must be 0 or 1.
    pub fn new(rows: usize, cols: usize, cells: Vec<u8>) -> (r: Result<Board, GridError>)
        requires
            cells@.len() <= isize::MAX,
        ensures
            rows == 0 || cols == 0 ==> r == Err::<Board, GridError>(GridError::EmptyGrid),
            rows > 0 && cols > 0 && cells@.len() != rows * cols ==> r == Err::<Board, GridError>(
                GridError::WrongCellCount,
            ),
            rows > 0 && cols > 0 && cells@.len() == rows * cols && (exists|i: int|
                0 <= i < cells@.len() && #[trigger] cells@[i] > 1) ==> r == Err::<Board, GridError>(
                GridError::InvalidCell,
            ),
            r is Ok <==> rows > 0 && cols > 0 && cells@.len() == rows * cols && (forall|i: int|
                0 <= i < cells@.len() ==> #[trigger] cells@[i] <= 1),
            r matches Ok(b) ==> b@ == grid_of(cells@, rows as nat, cols as nat),
    {
        if rows == 0 || cols == 0 {
            return Err(GridError::EmptyGrid);
        }
        match rows.checked_mul(cols) {
            Some(n) => {
                if n != cells.len() {
                    return Err(GridError::WrongCellCount);
                }
            },
            None => {
                return Err(GridError::WrongCellCount);
            },
        }
        let mut i: usize = 0;
        while i < cells.len()
            invariant
                rows > 0 && cols > 0 && cells@.len() == rows * cols,
                i <= cells@.len(),
                forall|k: int| 0 <= k < i ==> #[trigger] cells@[k] <= 1,
            decreases cells@.len() - i,
        {
            if cells[i] > 1 {
                return Err(GridError::InvalidCell);
            }
            i = i + 1;
        }
        match board_from_vec(rows, cols, cells) {
            Ok(b) => Ok(b),
            Err(_) => Err(GridError::WrongCellCount),
        }
    }

    /// The number of rows.
    pub fn nrows(&self) -> (n: usize)
        ensures
            n == self@.len(),
    {
        board_dim(self).0
    }

    /// The number of columns (that of every row).
    pub fn ncols(&self) -> (n: usize)
        ensures
            forall|r: int| 0 <= r < self@.len() ==> #[trigger] self@[r].len() == n,
    {
        board_dim(self).1
    }

    /// The value at row `r`, column `c`.
    pub fn get(&self, r: usize, c: usize) -> (v: u8)
        requires
            r < self@.len(),
            c < self@[r as int].len(),
        ensures
            v == self@[r as int][c as int],
    {
        cell_at(self, r, c)
    }
}

/// Turns over every cell of the `rows` x `cols` board: 1 becomes 0, any other
/// value becomes 1.
pub fn flip_board(brd: &mut Board, rows: &usize, cols: &usize)
    requires
        shaped(old(brd)@, *rows as int, *cols as int),
    ensures
        final(brd)@ == flipped(old(brd)@),
{
    let ghost g = brd@;
    let mut r: usize = 0;
    while r < *rows
        invariant
            r <= *rows,
            shaped(brd@, *rows as int, *cols as int),
            shaped(g, *rows as int, *cols as int),
            forall|i: int, j: int|
                0 <= i < *rows && 0 <= j < *cols ==> #[trigger] brd@[i][j] == if i < r {
                    flip_value(g[i][j])
                } else {
                    g[i][j]
                },
        decreases *rows - r,
    {
        let mut c: usize = 0;
        while c < *cols
            invariant
                r < *rows,
                c <= *cols,
                shaped(brd@, *rows as int, *cols as int),
                shaped(g, *rows as int, *cols as int),
                forall|i: int, j: int|
                    0 <= i < *rows && 0 <= j < *cols ==> #[trigger] brd@[i][j] == if i < r || (i
                        == r && j < c) {
                        flip_value(g[i][j])
                    } else {
                        g[i][j]
                    },
            decreases *cols - c,
        {
            if cell_at(brd, r, c) == 1 {
                set_cell(brd, r, c, 0);
            } else {
                set_cell(brd, r, c, 1);
            }
            c = c + 1;
        }
        r = r + 1;
    }
    assert(brd@ =~~= flipped(g));
}

/// Whether the board has `rows` rows of `cols` cells, each 0 or 1.
pub fn is_life_board(brd: &Board, rows: usize, cols: usize) -> (ok: bool)
    ensures
        ok == (shaped(brd@, rows as int, cols as int) && is_binary(brd@, rows as int, cols as int)),
{
    let (nr, nc) = board_dim(brd);
    if nr != rows || (rows > 0 && nc != cols) {
        proof {
            if nr == rows {
                assert(brd@[0].len() == nc);
            }
        }
        return false;
    }
    let mut r: usize = 0;
    while r < rows
        invariant
            shaped(brd@, rows as int, cols as int),
            r <= rows,
            forall|i: int, j: int| 0 <= i < r && 0 <= j < cols ==> #[trigger] brd@[i][j] <= 1,
        decreases rows - r,
    {
        let mut c: usize = 0;
        while c < cols
            invariant
                shaped(brd@, rows as int, cols as int),
                r < rows,
                c <= cols,
                forall|i: int, j: int|
                    0 <= i < rows && 0 <= j < cols && (i < r || (i == r && j < c)) ==> #[trigger] brd@[i][j] <= 1,
            decreases cols - c,
        {
            if cell_at(brd, r, c) > 1 {
                return false;
            }
            c = c + 1;
        }
        r = r + 1;
    }
    true
}

proof fn lemma_sum_at_prefix_le(g: Seq<Seq<u8>>, ps: Seq<(usize, usize)>, i: int)
    requires
        0 <= i <= ps.len(),
    ensures
        0 <= sum_at(g, ps.take(i)) <= sum_at(g, ps),
    decreases ps.len(),
{
    if ps.len() > 0 {
        if i == ps.len() {
            assert(ps.take(i) =~= ps);
            lemma_sum_at_prefix_le(g, ps.drop_last(), 0);
        } else {
            lemma_sum_at_prefix_le(g, ps.drop_last(), i);
            assert(ps.drop_last().take(i) =~= ps.take(i));
        }
    }
}

/// Adds up the values of the board at the given positions.
pub fn gather_board_values(brd: &Board, pos_arr: &[(usize, usize)]) -> (s: u8)
    requires
        positions_in(brd@, pos_arr@),
        sum_at(brd@, pos_arr@) <= u8::MAX,
    ensures
        s == sum_at(brd@, pos_arr@),
{
    let mut ret: u8 = 0;
    let mut i: usize = 0;
    while i < pos_arr.len()
        invariant
            i <= pos_arr@.len(),
            positions_in(brd@, pos_arr@),
            sum_at(brd@, pos_arr@) <= u8::MAX,
            ret == sum_at(brd@, pos_arr@.take(i as int)),
        decreases pos_arr@.len() - i,
    {
        let (r0, c0) = pos_arr[i];
        proof {
            assert(pos_arr@.take(i + 1).drop_last() =~= pos_arr@.take(i as int));
            lemma_sum_at_prefix_le(brd@, pos_arr@, i + 1);
        }
        ret = ret + cell_at(brd, r0, c0);
        i = i + 1;
    }
    assert(pos_arr@.take(i as int) =~= pos_arr@);
    ret
}

} // verus!
