use vstd::prelude::*;
use crate::board::{Board, in_grid};
use crate::cell::Cell;

verus! {

/// A board as a flat record: the counters, the side length, and one code per
/// cell in row-major order, `-1` for an empty cell and `k >= 1` for a tile
/// of order `k`.
pub struct FlatBoard {
    pub moves: usize,
    pub score: usize,
    pub dimension: usize,
    pub cells: Vec<i8>,
}

/// Why a flat record does not give a board.
#[derive(Clone, Copy, Debug, PartialEq, Eq, Structural)]
pub enum LoadError {
    /// The record was saved for a board of another size.
    DimensionMismatch { expected: usize, found: usize },
    /// The record holds too few codes, or an invalid one.
    Malformed,
}

/// The code of a cell in a flat record.
pub open spec fn encode_cell(c: Cell) -> i8 {
    if c.is_tile() {
        c.0 as i8
    } else {
        -1i8
    }
}

/// Codes that stand for a cell: `-1` and `0` for an empty one, a positive
/// order for a tile.
pub open spec fn code_valid(x: i8) -> bool {
    x >= -1
}

/// The cell that a valid code stands for.
pub open spec fn decode_cell(x: i8) -> Cell {
    if x >= 1 {
        Cell(x as u8)
    } else {
        Cell::empty()
    }
}

/// The rows `0..m` of a grid, one after the other.
pub open spec fn rows_cells<const N: usize>(g: [[Cell; N]; N], m: nat) -> Seq<Cell>
    decreases m,
{
    if m == 0 {
        Seq::empty()
    } else {
        rows_cells(g, (m - 1) as nat) + g@[m - 1]@
    }
}

pub proof fn lemma_rows_cells_len<const N: usize>(g: [[Cell; N]; N], m: nat)
    requires
        m <= N,
    ensures
        rows_cells(g, m).len() == m * N,
    decreases m,
{
    if m > 0 {
        let k = (m - 1) as nat;
        lemma_rows_cells_len(g, k);
        assert(g@[m - 1]@.len() == N);
        assert(rows_cells(g, m).len() == rows_cells(g, k).len() + N);
        assert(k * N + N == m * N) by (nonlinear_arith)
            requires
                k == m - 1,
        ;
    } else {
        assert(m * N == 0) by (nonlinear_arith)
            requires
                m == 0,
        ;
    }
}

proof fn lemma_rows_cells_same<const N: usize>(g: [[Cell; N]; N], h: [[Cell; N]; N], m: nat)
    requires
        m <= N,
        forall|a: int| 0 <= a < m ==> g@[a] == h@[a],
    ensures
        rows_cells(g, m) == rows_cells(h, m),
    decreases m,
{
    if m > 0 {
        lemma_rows_cells_same(g, h, (m - 1) as nat);
    }
}

/// Grids with the same rows laid end to end are equal row by row.
proof fn lemma_rows_cells_injective<const N: usize>(g: [[Cell; N]; N], h: [[Cell; N]; N], m: nat)
    requires
        m <= N,
        rows_cells(g, m) == rows_cells(h, m),
    ensures
        forall|a: int| 0 <= a < m ==> g@[a]@ == h@[a]@,
    decreases m,
{
    if m > 0 {
        let x = rows_cells(g, (m - 1) as nat);
        let y = rows_cells(h, (m - 1) as nat);
        lemma_rows_cells_len(g, (m - 1) as nat);
        lemma_rows_cells_len(h, (m - 1) as nat);
        let whole = rows_cells(g, m);
        assert(whole.subrange(0, x.len() as int) =~= x);
        assert((y + h@[m - 1]@).subrange(0, y.len() as int) =~= y);
        assert(whole.subrange(x.len() as int, whole.len() as int) =~= g@[m - 1]@);
        assert((y + h@[m - 1]@).subrange(y.len() as int, whole.len() as int) =~= h@[m - 1]@);
        lemma_rows_cells_injective(g, h, (m - 1) as nat);
    }
}

impl<const N: usize> Board<N> {
    /// The cells of the board in row-major order.
    pub open spec fn flat_cells(self) -> Seq<Cell> {
        rows_cells(self.cell, N as nat)
    }

    /// Every tile has an order that a code can hold.
    pub open spec fn codes_fit(self) -> bool {
        forall|i: int, j: int| in_grid(N as int, i, j) ==> (#[trigger] self.at(i, j)).rank() <= 127
    }
}

impl FlatBoard {
    /// The record holds the counters, the side length and the cell codes
    /// of `b`.
    pub open spec fn encodes<const N: usize>(self, b: Board<N>) -> bool {
        &&& self.moves == b.moves
        &&& self.score == b.score
        &&& self.dimension == N
        &&& self.cells@ == b.flat_cells().map_values(|c: Cell| encode_cell(c))
    }

    /// The record holds at least one code for each cell of an N×N board,
    /// and the first `N * N` codes are valid; codes past those are ignored.
    pub open spec fn well_formed<const N: usize>(self) -> bool {
        &&& self.cells@.len() >= N * N
        &&& forall|t: int| 0 <= t < N * N ==> code_valid(#[trigger] self.cells@[t])
    }

    /// `b` holds the counters and the cells that the first `N * N` codes of
    /// the record stand for.
    pub open spec fn decodes_to<const N: usize>(self, b: Board<N>) -> bool {
        &&& b.moves == self.moves
        &&& b.score == self.score
        &&& b.flat_cells() == self.cells@.subrange(0, N * N).map_values(|x: i8| decode_cell(x))
    }

    /// The flat record of a board.
    pub fn new<const N: usize>(board: &Board<N>) -> (r: FlatBoard)
        requires
            board.codes_fit(),
        ensures
            r.encodes(*board),
    {
        let mut cells: Vec<i8> = Vec::new();
        let mut i: usize = 0;
        while i < N
            invariant
                i <= N,
                board.codes_fit(),
                cells@ == rows_cells(board.cell, i as nat).map_values(|c: Cell| encode_cell(c)),
            decreases N - i,
        {
            let row = board.cell[i];
            let mut j: usize = 0;
            while j < N
                invariant
                    i < N,
                    j <= N,
                    row == board.cell@[i as int],
                    board.codes_fit(),
                    cells@ == (rows_cells(board.cell, i as nat) + row@.subrange(0, j as int)).map_values(
                        |c: Cell| encode_cell(c),
                    ),
                decreases N - j,
            {
                let c = row[j];
                assert(c == board.at(i as int, j as int));
                let code: i8 = match c.order() {
                    None => -1,
                    Some(order) => order as i8,
                };
                let ghost before = cells@;
                cells.push(code);
                assert((rows_cells(board.cell, i as nat) + row@.subrange(0, j + 1)).map_values(
                    |c: Cell| encode_cell(c),
                ) =~= before.push(encode_cell(c)));
                j = j + 1;
            }
            assert(row@.subrange(0, N as int) =~= row@);
            assert(rows_cells(board.cell, (i + 1) as nat) == rows_cells(board.cell, i as nat) + board.cell@[i as int]@);
            i = i + 1;
        }
        FlatBoard { moves: board.moves, score: board.score, dimension: N, cells }
    }
}

fn decode_code(x: i8) -> (r: Cell)
    requires
        code_valid(x),
    ensures
        r == decode_cell(x),
{
    if x >= 1 {
        Cell::new(x as u8)
    } else {
        Cell::new_empty()
    }
}

impl<const N: usize> Board<N> {
    /// The board that a flat record stands for. A record made for another
    /// side length gives `DimensionMismatch`; one with fewer codes than
    /// cells, or an invalid code among the first `N * N`, gives `Malformed`.
    /// Codes past the first `N * N` are not read.
    pub fn from_flat(flat: &FlatBoard) -> (r: Result<Board<N>, LoadError>)
        ensures
            flat.dimension != N ==> r == Err::<Board<N>, LoadError>(
                LoadError::DimensionMismatch { expected: N, found: flat.dimension },
            ),
            flat.dimension == N ==> (r is Ok <==> flat.well_formed::<N>()),
            flat.dimension == N && !flat.well_formed::<N>() ==> r == Err::<Board<N>, LoadError>(
                LoadError::Malformed,
            ),
            r matches Ok(b) ==> flat.decodes_to(b),
    {
        if flat.dimension != N {
            return Err(LoadError::DimensionMismatch { expected: N, found: flat.dimension });
        }
        let len = flat.cells.len();
        let total = match N.checked_mul(N) {
            Some(t) => t,
            None => {
                return Err(LoadError::Malformed);
            },
        };
        if len < total {
            return Err(LoadError::Malformed);
        }
        let mut decoded: Vec<Cell> = Vec::new();
        let mut t: usize = 0;
        while t < total
            invariant
                flat.dimension == N,
                flat.cells@.len() >= total,
                total == N * N,
                t <= total,
                decoded@ == flat.cells@.subrange(0, t as int).map_values(|x: i8| decode_cell(x)),
                forall|u: int| 0 <= u < t ==> code_valid(#[trigger] flat.cells@[u]),
            decreases total - t,
        {
            let x = flat.cells[t];
            if x < -1 {
                return Err(LoadError::Malformed);
            }
            let ghost before = decoded@;
            decoded.push(decode_code(x));
            assert(flat.cells@.subrange(0, t + 1).map_values(|x: i8| decode_cell(x)) =~= before.push(
                decode_cell(x),
            ));
            t = t + 1;
        }
        let mut cells = [[Cell::new_empty(); N]; N];
        let mut i: usize = 0;
        let mut t: usize = 0;
        while i < N
            invariant
                i <= N,
                decoded@.len() == N * N,
                total == N * N,
                t == i * N,
                rows_cells(cells, i as nat) == decoded@.subrange(0, t as int),
            decreases N - i,
        {
            assert(t + N <= N * N) by (nonlinear_arith)
                requires
                    t == i * N,
                    i < N,
            ;
            let mut row = [Cell::new_empty(); N];
            let mut j: usize = 0;
            while j < N
                invariant
                    i < N,
                    j <= N,
                    t + N <= decoded@.len(),
                    decoded@.len() == total,
                    row@.len() == N,
                    forall|u: int| 0 <= u < j ==> row@[u] == #[trigger] decoded@[t + u],
                decreases N - j,
            {
                row[j] = decoded[t + j];
                j = j + 1;
            }
            assert(row@.len() == N);
            let ghost before = cells;
            cells[i] = row;
            proof {
                lemma_rows_cells_same(before, cells, i as nat);
                assert forall|u: int| 0 <= u < N implies row@[u] == decoded@.subrange(t as int, t + N)[u] by {
                    assert(row@[u] == decoded@[t + u]);
                }
                assert(row@ =~= decoded@.subrange(t as int, t + N));
                assert(decoded@.subrange(0, t as int) + decoded@.subrange(t as int, t + N) =~= decoded@.subrange(
                    0,
                    t + N,
                ));
            }
            assert((i + 1) * N == t + N) by (nonlinear_arith)
                requires
                    t == i * N,
            ;
            t = t + N;
            i = i + 1;
        }
        assert(decoded@.subrange(0, t as int) =~= decoded@);
        Ok(Board { cell: cells, moves: flat.moves, score: flat.score })
    }
}

/// A record made from a board is well formed for the board's size and
/// decodes to that same board: cells, score and move count.
pub proof fn lemma_flat_round_trip<const N: usize>(b: Board<N>, flat: FlatBoard, back: Board<N>)
    requires
        b.codes_fit(),
        flat.encodes(b),
    ensures
        flat.dimension == N,
        flat.well_formed::<N>(),
        flat.decodes_to(back) ==> back == b,
{
    lemma_rows_cells_len(b.cell, N as nat);
    let fc = b.flat_cells();
    assert forall|t: int| 0 <= t < fc.len() implies decode_cell(encode_cell(#[trigger] fc[t])) == fc[t]
        && code_valid(encode_cell(fc[t])) by {
        lemma_flat_cell_fits(b, t);
    }
    assert(flat.cells@.subrange(0, N * N) =~= flat.cells@);
    assert(flat.cells@.subrange(0, N * N).map_values(|x: i8| decode_cell(x)) =~= fc);
    if flat.decodes_to(back) {
        lemma_rows_cells_injective(back.cell, b.cell, N as nat);
        assert forall|a: int| 0 <= a < N implies back.cell@[a] == b.cell@[a] by {
            assert(back.cell@[a] =~= b.cell@[a]);
        }
        assert(back.cell =~= b.cell);
    }
}

/// Every cell of the flat cells of a board is a cell of the board.
proof fn lemma_flat_cell_fits<const N: usize>(b: Board<N>, t: int)
    requires
        b.codes_fit(),
        0 <= t < b.flat_cells().len(),
    ensures
        b.flat_cells()[t].rank() <= 127,
{
    lemma_rows_cell_fits(b, N as nat, t);
}

proof fn lemma_rows_cell_fits<const N: usize>(b: Board<N>, m: nat, t: int)
    requires
        m <= N,
        b.codes_fit(),
        0 <= t < rows_cells(b.cell, m).len(),
    ensures
        rows_cells(b.cell, m)[t].rank() <= 127,
    decreases m,
{
    if m > 0 {
        let x = rows_cells(b.cell, (m - 1) as nat);
        if t < x.len() {
            lemma_rows_cell_fits(b, (m - 1) as nat, t);
        } else {
            assert(b.at(m - 1, t - x.len()).rank() <= 127);
        }
    }
}

} // verus!
