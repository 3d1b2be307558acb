use vstd::prelude::*;
use crate::cell::{Cell, collapse_score, collapsed, collapsed_line, padded};
use crate::chance::{choose_position, gen_ratio};

verus! {

/// An N×N grid of cells with its move counter and cumulative score.
#[derive(Clone, Copy, Debug, PartialEq, Eq)]
pub struct Board<const N: usize> {
    pub cell: [[Cell; N]; N],
    pub moves: usize,
    pub score: usize,
}

/// The four directions toward which the tiles can be pushed.
#[derive(Clone, Copy, Debug, PartialEq, Eq, Structural)]
pub enum BoardMove {
    Left,
    Right,
    Up,
    Down,
}

/// Grid position `(row, column)` of cell `j` of line `k` for a move toward
/// `dir`, counting from the edge that the tiles move toward.
pub open spec fn position(n: int, dir: BoardMove, k: int, j: int) -> (int, int) {
    match dir {
        BoardMove::Left => (k, j),
        BoardMove::Right => (k, n - 1 - j),
        BoardMove::Up => (j, k),
        BoardMove::Down => (n - 1 - j, k),
    }
}

/// The line and the place in it of grid position `(i, j)` for a move
/// toward `dir`: the inverse of `position`.
pub open spec fn line_index(n: int, dir: BoardMove, i: int, j: int) -> (int, int) {
    match dir {
        BoardMove::Left => (i, j),
        BoardMove::Right => (i, n - 1 - j),
        BoardMove::Up => (j, i),
        BoardMove::Down => (j, n - 1 - i),
    }
}

/// A new tile is of order 2 in `HIGH_TILE_ODDS` draws out of
/// `TILE_ODDS_OUT_OF`, and of order 1 otherwise.
pub const HIGH_TILE_ODDS: u32 = 1;

pub const TILE_ODDS_OUT_OF: u32 = 10;

/// The tile that a new-tile draw gives: order 2 when the draw came out
/// high, order 1 otherwise.
pub fn new_tile(high: bool) -> (r: Cell)
    ensures
        r.rank() == (if high { 2nat } else { 1nat }),
{
    if high {
        Cell::new(2)
    } else {
        Cell::new(1)
    }
}

pub open spec fn in_grid(n: int, i: int, j: int) -> bool {
    0 <= i < n && 0 <= j < n
}

fn locate<const N: usize>(dir: BoardMove, k: usize, j: usize) -> (r: (usize, usize))
    requires
        k < N,
        j < N,
    ensures
        r.0 == position(N as int, dir, k as int, j as int).0,
        r.1 == position(N as int, dir, k as int, j as int).1,
        r.0 < N,
        r.1 < N,
{
    match dir {
        BoardMove::Left => (k, j),
        BoardMove::Right => (k, N - 1 - j),
        BoardMove::Up => (j, k),
        BoardMove::Down => (N - 1 - j, k),
    }
}

/// The number of tiles in a sequence of cells.
pub open spec fn count_tiles(s: Seq<Cell>) -> nat
    decreases s.len(),
{
    if s.len() == 0 {
        0
    } else {
        count_tiles(s.drop_last()) + (if s.last().is_tile() { 1nat } else { 0nat })
    }
}

/// Putting a tile where a sequence has an empty cell adds one tile.
pub proof fn lemma_count_tiles_update(s: Seq<Cell>, j: int, t: Cell)
    requires
        0 <= j < s.len(),
        !s[j].is_tile(),
        t.is_tile(),
    ensures
        count_tiles(s.update(j, t)) == count_tiles(s) + 1,
    decreases s.len(),
{
    let u = s.update(j, t);
    if j == s.len() - 1 {
        assert(u.drop_last() =~= s.drop_last());
    } else {
        assert(u.drop_last() =~= s.drop_last().update(j, t));
        lemma_count_tiles_update(s.drop_last(), j, t);
    }
}

/// A sequence of empty cells holds no tile.
pub proof fn lemma_count_tiles_blank(s: Seq<Cell>)
    requires
        forall|j: int| 0 <= j < s.len() ==> !(#[trigger] s[j]).is_tile(),
    ensures
        count_tiles(s) == 0,
    decreases s.len(),
{
    if s.len() > 0 {
        lemma_count_tiles_blank(s.drop_last());
    }
}

/// The number of tiles in the first `m` rows of a grid.
pub open spec fn rows_tiles<const N: usize>(g: [[Cell; N]; N], m: nat) -> nat
    decreases m,
{
    if m == 0 {
        0
    } else {
        rows_tiles(g, (m - 1) as nat) + count_tiles(g@[m - 1]@)
    }
}

/// The cell at row `i`, column `j` of a grid.
pub open spec fn grid_at<const N: usize>(g: [[Cell; N]; N], i: int, j: int) -> Cell {
    g@[i]@[j]
}

impl<const N: usize> Board<N> {
    pub open spec fn at(self, i: int, j: int) -> Cell {
        grid_at(self.cell, i, j)
    }

    /// Line `k` for a move toward `dir`, from the edge the tiles move toward.
    pub open spec fn line(self, dir: BoardMove, k: int) -> Seq<Cell> {
        Seq::new(
            N as nat,
            |j: int| self.at(position(N as int, dir, k, j).0, position(N as int, dir, k, j).1),
        )
    }

    /// The cell at `(i, j)` once every line is collapsed toward `dir`.
    pub open spec fn shifted_at(self, dir: BoardMove, i: int, j: int) -> Cell {
        let p = line_index(N as int, dir, i, j);
        collapsed_line(self.line(dir, p.0))[p.1]
    }

    /// The score earned by the first `m` lines of a move toward `dir`.
    pub open spec fn gain_upto(self, dir: BoardMove, m: nat) -> nat
        decreases m,
    {
        if m == 0 {
            0
        } else {
            self.gain_upto(dir, (m - 1) as nat) + collapse_score(self.line(dir, m - 1))
        }
    }

    /// The score that a move toward `dir` earns.
    pub open spec fn gain(self, dir: BoardMove) -> nat {
        self.gain_upto(dir, N as nat)
    }

    /// The counters still fit in a `usize` after a move toward `dir`.
    pub open spec fn can_shift(self, dir: BoardMove) -> bool {
        self.moves < usize::MAX && self.score + self.gain(dir) <= usize::MAX
    }

    /// The counters fit after a move in any direction.
    pub open spec fn within_limits(self) -> bool {
        &&& self.can_shift(BoardMove::Left)
        &&& self.can_shift(BoardMove::Right)
        &&& self.can_shift(BoardMove::Up)
        &&& self.can_shift(BoardMove::Down)
    }

    /// `r` is this board with every line collapsed toward `dir`, one more
    /// move counted and the move's score added.
    pub open spec fn is_shift_of(self, r: Board<N>, dir: BoardMove) -> bool {
        &&& r.moves == self.moves + 1
        &&& r.score == self.score + self.gain(dir)
        &&& forall|i: int, j: int| in_grid(N as int, i, j) ==> #[trigger] r.at(i, j) == self.shifted_at(dir, i, j)
    }

    /// A move toward `dir` leaves every cell as it is.
    pub open spec fn stays(self, dir: BoardMove) -> bool {
        forall|i: int, j: int| in_grid(N as int, i, j) ==> #[trigger] self.shifted_at(dir, i, j) == self.at(i, j)
    }

    /// Both boards hold the same cells.
    pub open spec fn same_grid(self, other: Board<N>) -> bool {
        forall|i: int, j: int| in_grid(N as int, i, j) ==> #[trigger] self.at(i, j) == other.at(i, j)
    }

    /// A board as a new game starts: no moves, no score, and two tiles of
    /// order 1 or 2 on an otherwise empty grid.
    pub open spec fn is_fresh(self) -> bool {
        &&& self.moves == 0
        &&& self.score == 0
        &&& self.tile_count() == 2
        &&& forall|i: int, j: int| in_grid(N as int, i, j) ==> (#[trigger] self.at(i, j)).rank() <= 2
    }

    /// The number of tiles on the board.
    pub open spec fn tile_count(self) -> nat {
        rows_tiles(self.cell, N as nat)
    }

    pub open spec fn has_empty(self) -> bool {
        exists|i: int, j: int| in_grid(N as int, i, j) && !(#[trigger] self.at(i, j)).is_tile()
    }

    /// `r` is this board with a tile of order 1 or 2 put in the empty cell
    /// at `(i, j)`, and nothing else changed.
    pub open spec fn inserted(self, r: Board<N>, i: int, j: int) -> bool {
        &&& in_grid(N as int, i, j)
        &&& !self.at(i, j).is_tile()
        &&& (r.at(i, j).rank() == 1 || r.at(i, j).rank() == 2)
        &&& forall|a: int, b: int| in_grid(N as int, a, b) && (a != i || b != j) ==> #[trigger] r.at(a, b) == self.at(a, b)
        &&& r.moves == self.moves
        &&& r.score == self.score
    }

    /// `r` is what a committed move toward `dir` gives: the shifted board
    /// with one tile inserted.
    pub open spec fn committed(self, r: Board<N>, dir: BoardMove) -> bool {
        exists|s: Board<N>, i: int, j: int| #[trigger] s.inserted(r, i, j) && self.is_shift_of(s, dir)
    }

    /// An insertion adds exactly one tile.
    pub proof fn lemma_inserted_count(self, r: Board<N>, i: int, j: int)
        requires
            self.inserted(r, i, j),
        ensures
            r.tile_count() == self.tile_count() + 1,
    {
        let row = self.cell@[i]@;
        assert forall|b: int| 0 <= b < N implies r.cell@[i]@[b] == row.update(j, r.at(i, j))[b] by {
            if b != j {
                assert(r.at(i, b) == self.at(i, b));
            }
        }
        assert(r.cell@[i]@ =~= row.update(j, r.at(i, j)));
        lemma_count_tiles_update(row, j, r.at(i, j));
        assert forall|a: int| 0 <= a < N && a != i implies r.cell@[a]@ =~= self.cell@[a]@ by {
            assert forall|b: int| 0 <= b < N implies r.cell@[a]@[b] == self.cell@[a]@[b] by {
                assert(r.at(a, b) == self.at(a, b));
            }
        }
        self.lemma_rows_tiles_update(r, i, N as nat);
    }

    proof fn lemma_rows_tiles_update(self, r: Board<N>, i: int, m: nat)
        requires
            0 <= i < N,
            m <= N,
            count_tiles(r.cell@[i]@) == count_tiles(self.cell@[i]@) + 1,
            forall|a: int| 0 <= a < N && a != i ==> r.cell@[a]@ == self.cell@[a]@,
        ensures
            rows_tiles(r.cell, m) == rows_tiles(self.cell, m) + (if i < m { 1nat } else { 0nat }),
        decreases m,
    {
        if m > 0 {
            self.lemma_rows_tiles_update(r, i, (m - 1) as nat);
        }
    }

    proof fn lemma_rows_tiles_blank(self, m: nat)
        requires
            m <= N,
            forall|i: int, j: int| in_grid(N as int, i, j) ==> !(#[trigger] self.at(i, j)).is_tile(),
        ensures
            rows_tiles(self.cell, m) == 0,
        decreases m,
    {
        if m > 0 {
            self.lemma_rows_tiles_blank((m - 1) as nat);
            assert forall|j: int| 0 <= j < N implies !(#[trigger] self.cell@[m - 1]@[j]).is_tile() by {
                assert(!self.at(m - 1, j).is_tile());
            }
            lemma_count_tiles_blank(self.cell@[m - 1]@);
        }
    }

    pub proof fn lemma_gain_upto_grows(self, dir: BoardMove, a: nat, b: nat)
        requires
            a <= b,
        ensures
            self.gain_upto(dir, a) <= self.gain_upto(dir, b),
        decreases b,
    {
        if a < b {
            self.lemma_gain_upto_grows(dir, a, (b - 1) as nat);
        }
    }

    /// The cells once every line is collapsed toward `dir`, and the score
    /// after the move when it fits in a `usize`.
    fn shift_parts(&self, dir: BoardMove) -> (r: ([[Cell; N]; N], Option<usize>))
        ensures
            forall|i: int, j: int| in_grid(N as int, i, j) ==> #[trigger] grid_at(r.0, i, j) == self.shifted_at(dir, i, j),
            r.1 == (if self.score + self.gain(dir) <= usize::MAX {
                Some((self.score + self.gain(dir)) as usize)
            } else {
                None::<usize>
            }),
    {
        let mut cells = [[Cell::new_empty(); N]; N];
        let mut score: Option<usize> = Some(self.score);
        let mut k: usize = 0;
        while k < N
            invariant
                k <= N,
                score matches Some(sc) ==> sc == self.score + self.gain_upto(dir, k as nat),
                score is None ==> self.score + self.gain(dir) > usize::MAX,
                forall|i: int, j: int|
                    in_grid(N as int, i, j) && line_index(N as int, dir, i, j).0 < k ==> #[trigger] grid_at(cells, i, j)
                        == self.shifted_at(dir, i, j),
            decreases N - k,
        {
            let mut line = [Cell::new_empty(); N];
            let mut j: usize = 0;
            while j < N
                invariant
                    k < N,
                    j <= N,
                    forall|t: int| 0 <= t < j ==> line@[t] == #[trigger] self.line(dir, k as int)[t],
                    score matches Some(sc) ==> sc == self.score + self.gain_upto(dir, k as nat),
                score is None ==> self.score + self.gain(dir) > usize::MAX,
                    forall|i: int, j: int|
                        in_grid(N as int, i, j) && line_index(N as int, dir, i, j).0 < k ==> #[trigger] grid_at(cells, i, j)
                            == self.shifted_at(dir, i, j),
                decreases N - j,
            {
                let (r, c) = locate::<N>(dir, k, j);
                line[j] = self.cell[r][c];
                j = j + 1;
            }
            assert(line@ =~= self.line(dir, k as int));
            let (merged, gain) = Cell::collapse_parts(line.as_slice());
            proof {
                self.lemma_gain_upto_grows(dir, (k + 1) as nat, N as nat);
            }
            score = match (score, gain) {
                (Some(sc), Some(g)) => sc.checked_add(g),
                _ => None,
            };
            proof {
                crate::cell::lemma_merge_run_len(line@, Cell::empty());
            }
            let mut j: usize = 0;
            while j < N
                invariant
                    k < N,
                    j <= N,
                    line@ == self.line(dir, k as int),
                    merged@ == collapsed(line@),
                    merged@.len() <= N,
                    score matches Some(sc) ==> sc == self.score + self.gain_upto(dir, (k + 1) as nat),
                    score is None ==> self.score + self.gain(dir) > usize::MAX,
                    forall|i: int, jj: int|
                        in_grid(N as int, i, jj) && (line_index(N as int, dir, i, jj).0 < k || (line_index(
                            N as int,
                            dir,
                            i,
                            jj,
                        ).0 == k && line_index(N as int, dir, i, jj).1 < j)) ==> #[trigger] grid_at(cells, i, jj)
                            == self.shifted_at(dir, i, jj),
                decreases N - j,
            {
                let (r, c) = locate::<N>(dir, k, j);
                let v = if j < merged.len() {
                    merged[j]
                } else {
                    Cell::new_empty()
                };
                assert(v == padded(collapsed(line@), N as nat)[j as int]);
                assert(line_index(N as int, dir, r as int, c as int) == (k as int, j as int));
                assert(v == self.shifted_at(dir, r as int, c as int));
                let ghost before = cells;
                let mut row = cells[r];
                row[c] = v;
                cells[r] = row;
                assert forall|i: int, jj: int| in_grid(N as int, i, jj) && (i != r || jj != c) implies grid_at(
                    cells,
                    i,
                    jj,
                ) == grid_at(before, i, jj) by {}
                assert(grid_at(cells, r as int, c as int) == v);
                j = j + 1;
            }
            k = k + 1;
        }
        (cells, score)
    }

    /// Collapses every line toward `dir`, or gives `None` when a counter
    /// would not fit in a `usize`.
    fn try_shift(&self, dir: BoardMove) -> (r: Option<Board<N>>)
        ensures
            r is Some <==> self.can_shift(dir),
            r matches Some(b) ==> self.is_shift_of(b, dir),
    {
        let (cells, score) = self.shift_parts(dir);
        let score = match score {
            Some(sc) => sc,
            None => {
                return None;
            },
        };
        let moves = match self.moves.checked_add(1) {
            Some(m) => m,
            None => {
                return None;
            },
        };
        Some(Board { cell: cells, moves, score })
    }
}

impl<const N: usize> Board<N> {
    /// The positions of the empty cells.
    fn empty_positions(&self) -> (r: Vec<(usize, usize)>)
        ensures
            forall|t: int| 0 <= t < r@.len() ==> in_grid(N as int, r@[t].0 as int, r@[t].1 as int) && !self.at(
                r@[t].0 as int,
                r@[t].1 as int,
            ).is_tile(),
            forall|a: int, b: int|
                in_grid(N as int, a, b) && !(#[trigger] self.at(a, b)).is_tile() ==> r@.contains(
                    (a as usize, b as usize),
                ),
    {
        let mut v: Vec<(usize, usize)> = Vec::new();
        let mut i: usize = 0;
        while i < N
            invariant
                i <= N,
                forall|t: int| 0 <= t < v@.len() ==> in_grid(N as int, v@[t].0 as int, v@[t].1 as int) && !self.at(
                    v@[t].0 as int,
                    v@[t].1 as int,
                ).is_tile(),
                forall|a: int, b: int|
                    in_grid(N as int, a, b) && a < i && !(#[trigger] self.at(a, b)).is_tile() ==> v@.contains(
                        (a as usize, b as usize),
                    ),
            decreases N - i,
        {
            let mut j: usize = 0;
            while j < N
                invariant
                    i < N,
                    j <= N,
                    forall|t: int| 0 <= t < v@.len() ==> in_grid(N as int, v@[t].0 as int, v@[t].1 as int) && !self.at(
                        v@[t].0 as int,
                        v@[t].1 as int,
                    ).is_tile(),
                    forall|a: int, b: int|
                        in_grid(N as int, a, b) && (a < i || (a == i && b < j)) && !(#[trigger] self.at(
                            a,
                            b,
                        )).is_tile() ==> v@.contains((a as usize, b as usize)),
                decreases N - j,
            {
                if self.cell[i][j].is_empty() {
                    let ghost before = v@;
                    v.push((i, j));
                    assert(v@[v@.len() - 1] == (i, j));
                    assert forall|a: int, b: int|
                        in_grid(N as int, a, b) && (a < i || (a == i && b < j)) && !(#[trigger] self.at(
                            a,
                            b,
                        )).is_tile() implies v@.contains((a as usize, b as usize)) by {
                        let t = choose|t: int| 0 <= t < before.len() && before[t] == (a as usize, b as usize);
                        assert(v@[t] == before[t]);
                    }
                }
                j = j + 1;
            }
            i = i + 1;
        }
        v
    }

    /// Draws where a new tile goes and what it is: `None` exactly when no
    /// cell is empty.
    fn pick_random_insertion(&self) -> (r: Option<(usize, usize, Cell)>)
        ensures
            r is None <==> !self.has_empty(),
            r matches Some(t) ==> t.0 < N && t.1 < N && !self.at(t.0 as int, t.1 as int).is_tile() && (
            t.2.rank() == 1 || t.2.rank() == 2),
    {
        let empty_cells = self.empty_positions();
        match choose_position(&empty_cells) {
            None => {
                proof {
                    if self.has_empty() {
                        let (a, b) = choose|a: int, b: int|
                            in_grid(N as int, a, b) && !(#[trigger] self.at(a, b)).is_tile();
                        assert(empty_cells@.contains((a as usize, b as usize)));
                    }
                }
                None
            },
            Some((i, j)) => {
                proof {
                    let t = choose|t: int| 0 <= t < empty_cells@.len() && empty_cells@[t] == (i, j);
                    assert(!self.at(i as int, j as int).is_tile());
                }
                let cell = new_tile(gen_ratio(HIGH_TILE_ODDS, TILE_ODDS_OUT_OF));
                Some((i, j, cell))
            },
        }
    }

    /// Puts a tile of order 1 or 2 in a random empty cell; `Err` when the
    /// grid is full, and then nothing changes.
    fn insert_random(&mut self) -> (r: Result<(), ()>)
        ensures
            r is Ok <==> old(self).has_empty(),
            r is Ok ==> exists|i: int, j: int| #[trigger] old(self).inserted(*final(self), i, j),
            r is Ok ==> final(self).tile_count() == old(self).tile_count() + 1,
            r is Err ==> *final(self) == *old(self),
    {
        match self.pick_random_insertion() {
            None => Err(()),
            Some((i, j, cell)) => {
                let ghost before = *self;
                let mut row = self.cell[i];
                row[j] = cell;
                self.cell[i] = row;
                assert(before.inserted(*self, i as int, j as int));
                proof {
                    before.lemma_inserted_count(*self, i as int, j as int);
                }
                Ok(())
            },
        }
    }
}

impl<const N: usize> Board<N> {
    /// A fresh game: no moves, no score, and two tiles of order 1 or 2 in
    /// random cells of an otherwise empty grid.
    pub fn new() -> (r: Board<N>)
        requires
            N >= 2,
        ensures
            r.is_fresh(),
    {
        let mut board = Board { cell: [[Cell::new_empty(); N]; N], moves: 0, score: 0 };
        assert(!board.at(0, 0).is_tile());
        proof {
            board.lemma_rows_tiles_blank(N as nat);
        }
        let ghost blank = board;
        let _ = board.insert_random();
        let ghost one = board;
        proof {
            let (a, b) = choose|a: int, b: int| #[trigger] blank.inserted(one, a, b);
            if a == 0 && b == 0 {
                assert(!one.at(0, 1).is_tile());
            } else {
                assert(!one.at(0, 0).is_tile());
            }
        }
        let _ = board.insert_random();
        proof {
            let (a, b) = choose|a: int, b: int| #[trigger] blank.inserted(one, a, b);
            let (c, d) = choose|c: int, d: int| #[trigger] one.inserted(board, c, d);
            assert forall|i: int, j: int| in_grid(N as int, i, j) implies (#[trigger] board.at(i, j)).rank() <= 2 by {
                if (i != c || j != d) && (i != a || j != b) {
                    assert(board.at(i, j) == one.at(i, j));
                    assert(one.at(i, j) == blank.at(i, j));
                } else if i != c || j != d {
                    assert(board.at(i, j) == one.at(i, j));
                }
            }
        }
        board
    }

    /// Whether the counters still fit in a `usize` after a move toward `dir`.
    pub fn move_fits(&self, dir: BoardMove) -> (r: bool)
        ensures
            r == self.can_shift(dir),
    {
        self.try_shift(dir).is_some()
    }

    fn shift(&self, dir: BoardMove) -> (r: Board<N>)
        requires
            self.can_shift(dir),
        ensures
            self.is_shift_of(r, dir),
    {
        match self.try_shift(dir) {
            Some(b) => b,
            None => *self,
        }
    }

    fn left(&self) -> (r: Board<N>)
        requires
            self.can_shift(BoardMove::Left),
        ensures
            self.is_shift_of(r, BoardMove::Left),
    {
        self.shift(BoardMove::Left)
    }

    fn right(&self) -> (r: Board<N>)
        requires
            self.can_shift(BoardMove::Right),
        ensures
            self.is_shift_of(r, BoardMove::Right),
    {
        self.shift(BoardMove::Right)
    }

    fn up(&self) -> (r: Board<N>)
        requires
            self.can_shift(BoardMove::Up),
        ensures
            self.is_shift_of(r, BoardMove::Up),
    {
        self.shift(BoardMove::Up)
    }

    fn down(&self) -> (r: Board<N>)
        requires
            self.can_shift(BoardMove::Down),
        ensures
            self.is_shift_of(r, BoardMove::Down),
    {
        self.shift(BoardMove::Down)
    }

    /// Whether both boards hold the same cells.
    fn same_cells(&self, other: &Board<N>) -> (r: bool)
        ensures
            r == self.same_grid(*other),
    {
        let mut i: usize = 0;
        while i < N
            invariant
                i <= N,
                forall|a: int, b: int| in_grid(N as int, a, b) && a < i ==> #[trigger] self.at(a, b) == other.at(a, b),
            decreases N - i,
        {
            let mut j: usize = 0;
            while j < N
                invariant
                    i < N,
                    j <= N,
                    forall|a: int, b: int|
                        in_grid(N as int, a, b) && (a < i || (a == i && b < j)) ==> #[trigger] self.at(a, b)
                            == other.at(a, b),
                decreases N - j,
            {
                if self.cell[i][j] != other.cell[i][j] {
                    assert(self.at(i as int, j as int) != other.at(i as int, j as int));
                    return false;
                }
                j = j + 1;
            }
            i = i + 1;
        }
        true
    }

    /// A move toward `dir` leaves the grid as it is exactly when the
    /// shifted board has the same cells.
    proof fn lemma_stays_iff_same(self, s: Board<N>, dir: BoardMove)
        requires
            forall|i: int, j: int| in_grid(N as int, i, j) ==> #[trigger] s.at(i, j) == self.shifted_at(dir, i, j),
        ensures
            self.stays(dir) <==> self.same_grid(s),
    {
        if self.stays(dir) {
            assert forall|i: int, j: int| in_grid(N as int, i, j) implies #[trigger] self.at(i, j) == s.at(i, j) by {
                assert(self.shifted_at(dir, i, j) == self.at(i, j));
            }
        }
        if self.same_grid(s) {
            assert forall|i: int, j: int| in_grid(N as int, i, j) implies #[trigger] self.shifted_at(dir, i, j)
                == self.at(i, j) by {
                assert(s.at(i, j) == self.at(i, j));
            }
        }
    }

    /// Whether a move toward `dir` leaves every cell as it is; the
    /// counters play no part.
    fn leaves_cells(&self, dir: BoardMove) -> (r: bool)
        ensures
            r == self.stays(dir),
    {
        let (cells, _) = self.shift_parts(dir);
        let shifted = Board { cell: cells, moves: self.moves, score: self.score };
        proof {
            self.lemma_stays_iff_same(shifted, dir);
        }
        self.same_cells(&shifted)
    }

    /// No move in any direction changes the grid.
    pub fn game_over(&self) -> (r: bool)
        ensures
            r == (self.stays(BoardMove::Left) && self.stays(BoardMove::Right) && self.stays(BoardMove::Up)
                && self.stays(BoardMove::Down)),
    {
        self.leaves_cells(BoardMove::Left) && self.leaves_cells(BoardMove::Right) && self.leaves_cells(BoardMove::Up)
            && self.leaves_cells(BoardMove::Down)
    }

    /// A shifted board that differs from this one has an empty cell.
    proof fn lemma_changed_shift_has_empty(self, s: Board<N>, dir: BoardMove)
        requires
            self.is_shift_of(s, dir),
            !self.stays(dir),
        ensures
            s.has_empty(),
    {
        let (i, j) = choose|i: int, j: int| in_grid(N as int, i, j) && #[trigger] self.shifted_at(dir, i, j) != self.at(i, j);
        let p = line_index(N as int, dir, i, j);
        let line = self.line(dir, p.0);
        assert(line[p.1] == self.at(i, j));
        crate::cell::lemma_changed_line_ends_empty(line);
        let q = position(N as int, dir, p.0, N - 1);
        assert(line_index(N as int, dir, q.0, q.1) == (p.0, N - 1));
        assert(s.at(q.0, q.1) == self.shifted_at(dir, q.0, q.1));
        assert(!s.at(q.0, q.1).is_tile());
    }

    /// Performs a move toward `dir`: `None` when it would change nothing,
    /// otherwise the shifted board with one random tile inserted. Only a
    /// move that changes the grid needs its counters to fit in a `usize`.
    pub fn do_move(&self, board_move: BoardMove) -> (r: Option<Board<N>>)
        requires
            self.stays(board_move) || self.can_shift(board_move),
        ensures
            r is None <==> self.stays(board_move),
            r matches Some(b) ==> self.committed(b, board_move),
    {
        if self.leaves_cells(board_move) {
            return None;
        }
        let mut newboard = match board_move {
            BoardMove::Left => self.left(),
            BoardMove::Right => self.right(),
            BoardMove::Up => self.up(),
            BoardMove::Down => self.down(),
        };
        proof {
            self.lemma_changed_shift_has_empty(newboard, board_move);
        }
        let ghost shifted = newboard;
        let _ = newboard.insert_random();
        proof {
            let (i, j) = choose|i: int, j: int| #[trigger] shifted.inserted(newboard, i, j);
            assert(shifted.inserted(newboard, i, j) && self.is_shift_of(shifted, board_move));
        }
        Some(newboard)
    }
}

impl<const N: usize> Board<N> {
    /// Every cell holds a tile.
    pub open spec fn is_full(self) -> bool {
        forall|i: int, j: int| in_grid(N as int, i, j) ==> (#[trigger] self.at(i, j)).is_tile()
    }

    pub open spec fn has_tile(self) -> bool {
        exists|i: int, j: int| in_grid(N as int, i, j) && (#[trigger] self.at(i, j)).is_tile()
    }

    /// No two neighbouring cells of a row or of a column are equal.
    pub open spec fn no_adjacent_equal(self) -> bool {
        &&& forall|i: int, j: int|
            in_grid(N as int, i, j) && j + 1 < N ==> #[trigger] self.at(i, j) != self.at(i, j + 1)
        &&& forall|i: int, j: int|
            in_grid(N as int, i, j) && i + 1 < N ==> #[trigger] self.at(i, j) != self.at(i + 1, j)
    }

    proof fn lemma_line_fixed(self, dir: BoardMove, k: int)
        requires
            self.is_full(),
            self.no_adjacent_equal(),
            0 <= k < N,
        ensures
            collapsed_line(self.line(dir, k)) == self.line(dir, k),
    {
        let l = self.line(dir, k);
        assert forall|t: int| 0 <= t < l.len() implies (#[trigger] l[t]).is_tile() by {
            let p = position(N as int, dir, k, t);
            assert(self.at(p.0, p.1).is_tile());
        }
        assert forall|t: int| 0 <= t < l.len() - 1 implies #[trigger] l[t] != l[t + 1] by {
            match dir {
                BoardMove::Left => {
                    assert(self.at(k, t) != self.at(k, t + 1));
                },
                BoardMove::Right => {
                    assert(self.at(k, N - 2 - t) != self.at(k, N - 2 - t + 1));
                },
                BoardMove::Up => {
                    assert(self.at(t, k) != self.at(t + 1, k));
                },
                BoardMove::Down => {
                    assert(self.at(N - 2 - t, k) != self.at(N - 2 - t + 1, k));
                },
            }
        }
        crate::cell::lemma_merge_run_no_pairs(l, Cell::empty());
        assert(Seq::<Cell>::empty() + l =~= l);
        assert(collapsed_line(l) =~= l);
    }

    proof fn lemma_stuck_stays(self, dir: BoardMove)
        requires
            self.is_full(),
            self.no_adjacent_equal(),
        ensures
            self.stays(dir),
    {
        assert forall|i: int, j: int| in_grid(N as int, i, j) implies #[trigger] self.shifted_at(dir, i, j) == self.at(
            i,
            j,
        ) by {
            let p = line_index(N as int, dir, i, j);
            self.lemma_line_fixed(dir, p.0);
            assert(self.line(dir, p.0)[p.1] == self.at(i, j));
        }
    }

    /// A full grid with no two equal neighbours in any row or column has no
    /// move left: every direction leaves it as it is, so `game_over` holds.
    pub proof fn lemma_stuck_board_is_over(self)
        requires
            self.is_full(),
            self.no_adjacent_equal(),
        ensures
            self.stays(BoardMove::Left),
            self.stays(BoardMove::Right),
            self.stays(BoardMove::Up),
            self.stays(BoardMove::Down),
    {
        self.lemma_stuck_stays(BoardMove::Left);
        self.lemma_stuck_stays(BoardMove::Right);
        self.lemma_stuck_stays(BoardMove::Up);
        self.lemma_stuck_stays(BoardMove::Down);
    }

    proof fn lemma_line_score_in_gain(self, dir: BoardMove, k: int, m: nat)
        requires
            0 <= k < m <= N,
        ensures
            collapse_score(self.line(dir, k)) <= self.gain_upto(dir, m),
        decreases m,
    {
        if k < m - 1 {
            self.lemma_line_score_in_gain(dir, k, (m - 1) as nat);
        }
    }

    proof fn lemma_stays_line(self, dir: BoardMove, k: int)
        requires
            self.stays(dir),
            self.can_shift(dir),
            0 <= k < N,
        ensures
            collapsed_line(self.line(dir, k)) == self.line(dir, k),
            collapse_score(self.line(dir, k)) < crate::cell::magnitude(64),
    {
        let l = self.line(dir, k);
        assert forall|j: int| 0 <= j < N implies #[trigger] collapsed_line(l)[j] == l[j] by {
            let p = position(N as int, dir, k, j);
            assert(line_index(N as int, dir, p.0, p.1) == (k, j));
            assert(self.shifted_at(dir, p.0, p.1) == self.at(p.0, p.1));
        }
        assert(collapsed_line(l) =~= l);
        self.lemma_line_score_in_gain(dir, k, N as nat);
        crate::cell::lemma_magnitude_beyond_usize();
    }

    /// A grid with an empty cell and a tile always has a move left:
    /// `game_over` does not hold. (A grid without any tile has none.)
    pub proof fn lemma_open_board_is_not_over(self)
        requires
            self.has_empty(),
            self.has_tile(),
            self.within_limits(),
        ensures
            !(self.stays(BoardMove::Left) && self.stays(BoardMove::Right) && self.stays(BoardMove::Up)
                && self.stays(BoardMove::Down)),
    {
        if self.stays(BoardMove::Left) && self.stays(BoardMove::Right) && self.stays(BoardMove::Up)
            && self.stays(BoardMove::Down) {
            let (i, j) = choose|i: int, j: int| in_grid(N as int, i, j) && !(#[trigger] self.at(i, j)).is_tile();
            let (a, b) = choose|a: int, b: int| in_grid(N as int, a, b) && (#[trigger] self.at(a, b)).is_tile();
            self.lemma_stays_line(BoardMove::Left, i);
            self.lemma_stays_line(BoardMove::Right, i);
            self.lemma_stays_line(BoardMove::Up, b);
            self.lemma_stays_line(BoardMove::Down, b);
            let row = self.line(BoardMove::Left, i);
            let col = self.line(BoardMove::Up, b);
            crate::cell::lemma_fixed_both_ways(row, self.line(BoardMove::Right, i));
            crate::cell::lemma_fixed_both_ways(col, self.line(BoardMove::Down, b));
            assert(!row[j].is_tile());
            assert(!row[b].is_tile());
            assert(!col[i].is_tile());
            assert(col[a].is_tile());
        }
    }

    /// A committed move leaves exactly one tile more than the shifted board
    /// it was made from.
    pub proof fn lemma_commit_adds_one_tile(self, r: Board<N>, dir: BoardMove)
        requires
            self.committed(r, dir),
        ensures
            exists|s: Board<N>| #[trigger] self.is_shift_of(s, dir) && r.tile_count() == s.tile_count() + 1,
    {
        let (s, i, j) = choose|s: Board<N>, i: int, j: int| #[trigger] s.inserted(r, i, j) && self.is_shift_of(s, dir);
        s.lemma_inserted_count(r, i, j);
    }
}

} // verus!
