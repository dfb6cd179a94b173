use vstd::prelude::*;
use crate::tile::{Tile, BoardStatus, SetError};

verus! {

/// The grid after `t` has been written at `(r, c)`.
pub open spec fn place(g: Seq<Seq<Tile>>, r: int, c: int, t: Tile) -> Seq<Seq<Tile>> {
    g.update(r, g[r].update(c, t))
}

/// Whether `g` is an `n`-by-`n` grid.
pub open spec fn is_square(g: Seq<Seq<Tile>>, n: int) -> bool {
    &&& g.len() == n
    &&& forall|r: int| 0 <= r < n ==> #[trigger] g[r].len() == n
}

pub open spec fn in_bounds(g: Seq<Seq<Tile>>, r: int, c: int) -> bool {
    0 <= r < g.len() && 0 <= c < g[r].len()
}

/// The cell at `(r, c)`, or `None` off the grid.
pub open spec fn cell_at(g: Seq<Seq<Tile>>, r: int, c: int) -> Option<Tile> {
    if in_bounds(g, r, c) {
        Some(g[r][c])
    } else {
        None
    }
}

/// One of the eight unit steps: horizontal, vertical or diagonal, either sign.
pub open spec fn is_direction(dr: int, dc: int) -> bool {
    -1 <= dr <= 1 && -1 <= dc <= 1 && !(dr == 0 && dc == 0)
}

/// The `w` cells from `(r, c)` stepping by `(dr, dc)` all lie on the grid and hold `t`.
pub open spec fn line_of(g: Seq<Seq<Tile>>, w: int, r: int, c: int, dr: int, dc: int, t: Tile) -> bool {
    forall|i: int| 0 <= i < w ==> #[trigger] cell_at(g, r + i * dr, c + i * dc) == Some(t)
}

/// Some straight line of `w` cells holds `t` throughout.
pub open spec fn has_line(g: Seq<Seq<Tile>>, w: int, t: Tile) -> bool {
    exists|r: int, c: int, dr: int, dc: int|
        0 <= r < g.len() && 0 <= c < g.len() && is_direction(dr, dc)
            && #[trigger] line_of(g, w, r, c, dr, dc, t)
}

/// Some cell of the grid is empty.
pub open spec fn has_empty(g: Seq<Seq<Tile>>) -> bool {
    exists|r: int, c: int| in_bounds(g, r, c) && #[trigger] g[r][c] == Tile::Empty
}

/// The status that the contents `g` determine with winning length `w`.
/// A line of crosses is looked for before a line of noughts.
pub open spec fn status_of(g: Seq<Seq<Tile>>, w: int) -> BoardStatus {
    if has_line(g, w, Tile::Cross) {
        BoardStatus::Winner(Tile::Cross)
    } else if has_line(g, w, Tile::Nought) {
        BoardStatus::Winner(Tile::Nought)
    } else if !has_empty(g) {
        BoardStatus::Tie
    } else {
        BoardStatus::Continue
    }
}

/// Writing a tile on an empty cell and then emptying that cell again gives back
/// the same contents, and therefore the same status.
pub proof fn lemma_place_then_clear(g: Seq<Seq<Tile>>, w: int, r: int, c: int, t: Tile)
    requires
        in_bounds(g, r, c),
        g[r][c] == Tile::Empty,
    ensures
        place(place(g, r, c, t), r, c, Tile::Empty) == g,
        status_of(place(place(g, r, c, t), r, c, Tile::Empty), w) == status_of(g, w),
{
    assert(place(g, r, c, t)[r].update(c, Tile::Empty) =~= g[r]);
    assert(place(place(g, r, c, t), r, c, Tile::Empty) =~= g);
}

/// The status is a function of the contents and the winning length alone, and a
/// winner is always one of the two sides.
pub proof fn lemma_status_of_contents(a: &Board, b: &Board)
    requires
        a.wf(),
        b.wf(),
        a.cells() == b.cells(),
        a.win_length() == b.win_length(),
    ensures
        status_of(a.cells(), a.win_length()) == status_of(b.cells(), b.win_length()),
        status_of(a.cells(), a.win_length()) matches BoardStatus::Winner(t) ==> t != Tile::Empty,
{
}

/// A square grid of tiles with a winning row length.
pub struct Board {
    tiles: Vec<Vec<Tile>>,
    length: usize,
    win_row_length: usize,
}

impl Board {
    /// The contents, row by row.
    pub closed spec fn cells(&self) -> Seq<Seq<Tile>> {
        self.tiles@.map_values(|row: Vec<Tile>| row@)
    }

    pub closed spec fn size(&self) -> int {
        self.length as int
    }

    pub closed spec fn win_length(&self) -> int {
        self.win_row_length as int
    }

    /// The grid is `size`-by-`size` and the winning length lies in `[1, size]`.
    pub closed spec fn wf(&self) -> bool {
        &&& self.tiles@.len() == self.length
        &&& forall|r: int| 0 <= r < self.length ==> #[trigger] self.tiles@[r]@.len() == self.length
        &&& 1 <= self.win_row_length <= self.length
    }

    pub proof fn lemma_wf(&self)
        requires
            self.wf(),
        ensures
            is_square(self.cells(), self.size()),
            1 <= self.win_length() <= self.size(),
    {
    }

    pub fn new(length: usize, win_row_length: usize) -> (b: Self)
        requires
            1 <= win_row_length <= length,
        ensures
            b.wf(),
            is_square(b.cells(), length as int),
            b.size() == length,
            b.win_length() == win_row_length,
            forall|r: int, c: int| 0 <= r < length && 0 <= c < length ==> #[trigger] b.cells()[r][c] == Tile::Empty,
    {
        let mut tiles: Vec<Vec<Tile>> = Vec::new();
        let mut i: usize = 0;
        while i < length
            invariant
                i <= length,
                tiles@.len() == i,
                forall|r: int| 0 <= r < i ==> #[trigger] tiles@[r]@ == Seq::new(length as nat, |c: int| Tile::Empty),
            decreases length - i,
        {
            tiles.push(vec![Tile::Empty; length]);
            i = i + 1;
        }
        Board { tiles, length, win_row_length }
    }

    pub fn length(&self) -> (r: usize)
        ensures
            r == self.size(),
    {
        self.length
    }

    pub fn win_row_length(&self) -> (r: usize)
        ensures
            r == self.win_length(),
    {
        self.win_row_length
    }

    /// The cell at `(row, col)`, or `None` when either index is off the grid.
    pub fn get(&self, row: usize, col: usize) -> (r: Option<Tile>)
        requires
            self.wf(),
        ensures
            r == cell_at(self.cells(), row as int, col as int),
    {
        if row < self.length && col < self.length {
            Some(self.tiles[row][col])
        } else {
            None
        }
    }

    /// Writes `tile` at `(row, col)` when that cell is on the grid and empty;
    /// otherwise leaves the board as it was and says why.
    pub fn set(&mut self, tile: Tile, row: usize, col: usize) -> (r: Result<(), SetError>)
        requires
            old(self).wf(),
        ensures
            final(self).wf(),
            is_square(final(self).cells(), final(self).size()),
            final(self).size() == old(self).size(),
            final(self).win_length() == old(self).win_length(),
            r == (if row >= old(self).size() {
                Err(SetError::RowOutOfBounds)
            } else if col >= old(self).size() {
                Err(SetError::ColumnOutOfBounds)
            } else if old(self).cells()[row as int][col as int] != Tile::Empty {
                Err(SetError::AlreadyOccupied)
            } else {
                Ok(())
            }),
            r is Ok ==> final(self).cells() == place(old(self).cells(), row as int, col as int, tile),
            r is Err ==> final(self).cells() == old(self).cells(),
    {
        if row >= self.length {
            return Err(SetError::RowOutOfBounds);
        }
        if col >= self.length {
            return Err(SetError::ColumnOutOfBounds);
        }
        if self.tiles[row][col] != Tile::Empty {
            return Err(SetError::AlreadyOccupied);
        }
        self.tiles[row][col] = tile;
        assert(self.cells() =~= place(old(self).cells(), row as int, col as int, tile));
        Ok(())
    }
}


/// The index `start + i * d` when it lies in `[0, n)`.
fn step(start: usize, i: usize, d: i8, n: usize) -> (r: Option<usize>)
    requires
        -1 <= d <= 1,
        start < n,
    ensures
        0 <= start + i * d < n ==> r == Some((start + i * d) as usize),
        !(0 <= start + i * d < n) ==> r is None,
{
    if d == 0 {
        assert(i * d == 0);
        Some(start)
    } else if d > 0 {
        assert(i * d == i) by (nonlinear_arith)
            requires
                d == 1,
        ;
        if i < n - start {
            Some(start + i)
        } else {
            None
        }
    } else {
        assert(i * d == -i) by (nonlinear_arith)
            requires
                d == -1,
        ;
        if i <= start {
            Some(start - i)
        } else {
            None
        }
    }
}

impl Board {
    /// Whether the `win_length` cells from `(row, col)` stepping by `(dr, dc)` all hold `t`.
    fn line_holds(&self, row: usize, col: usize, dr: i8, dc: i8, t: Tile) -> (b: bool)
        requires
            self.wf(),
            row < self.size(),
            col < self.size(),
            -1 <= dr <= 1,
            -1 <= dc <= 1,
        ensures
            b == line_of(self.cells(), self.win_length(), row as int, col as int, dr as int, dc as int, t),
    {
        let ghost g = self.cells();
        let mut i: usize = 0;
        while i < self.win_row_length
            invariant
                self.wf(),
                g == self.cells(),
                row < self.size(),
                col < self.size(),
                -1 <= dr <= 1,
                -1 <= dc <= 1,
                i <= self.win_row_length,
                forall|k: int| 0 <= k < i ==> #[trigger] cell_at(g, row + k * dr, col + k * dc) == Some(t),
            decreases self.win_row_length - i,
        {
            let r = step(row, i, dr, self.length);
            let c = step(col, i, dc, self.length);
            match (r, c) {
                (Some(r), Some(c)) => {
                    if self.tiles[r][c] != t {
                        assert(cell_at(g, row + i * dr, col + i * dc) != Some(t));
                        return false;
                    }
                },
                _ => {
                    assert(cell_at(g, row + i * dr, col + i * dc) is None);
                    return false;
                },
            }
            i = i + 1;
        }
        true
    }

    /// Whether some straight line of `win_length` cells holds `t` throughout.
    fn has_winning_line(&self, t: Tile) -> (b: bool)
        requires
            self.wf(),
        ensures
            b == has_line(self.cells(), self.win_length(), t),
    {
        let ghost g = self.cells();
        let ghost w = self.win_length();
        let n = self.length;
        let mut row: usize = 0;
        while row < n
            invariant
                self.wf(),
                g == self.cells(),
                w == self.win_length(),
                n == self.size(),
                row <= n,
                forall|r: int, c: int, dr: int, dc: int|
                    0 <= r < row && 0 <= c < n && is_direction(dr, dc) ==> !#[trigger] line_of(g, w, r, c, dr, dc, t),
            decreases n - row,
        {
            let mut col: usize = 0;
            while col < n
                invariant
                    self.wf(),
                    g == self.cells(),
                    w == self.win_length(),
                    n == self.size(),
                    row < n,
                    col <= n,
                    forall|r: int, c: int, dr: int, dc: int|
                        ((0 <= r < row && 0 <= c < n) || (r == row && 0 <= c < col)) && is_direction(dr, dc)
                            ==> !#[trigger] line_of(g, w, r, c, dr, dc, t),
                decreases n - col,
            {
                let mut dr: i8 = -1;
                while dr <= 1
                    invariant
                        self.wf(),
                        g == self.cells(),
                        w == self.win_length(),
                        n == self.size(),
                        row < n,
                        col < n,
                        -1 <= dr <= 2,
                        forall|r: int, c: int, dr2: int, dc: int|
                            (((0 <= r < row && 0 <= c < n) || (r == row && 0 <= c < col)) || (r == row && c == col && dr2 < dr))
                                && is_direction(dr2, dc) ==> !#[trigger] line_of(g, w, r, c, dr2, dc, t),
                    decreases 2 - dr,
                {
                    let mut dc: i8 = -1;
                    while dc <= 1
                        invariant
                            self.wf(),
                            g == self.cells(),
                            w == self.win_length(),
                            n == self.size(),
                            row < n,
                            col < n,
                            -1 <= dr <= 1,
                            -1 <= dc <= 2,
                            forall|r: int, c: int, dr2: int, dc2: int|
                                (((0 <= r < row && 0 <= c < n) || (r == row && 0 <= c < col)) || (r == row && c == col && (
                                dr2 < dr || (dr2 == dr && dc2 < dc)))) && is_direction(dr2, dc2)
                                    ==> !#[trigger] line_of(g, w, r, c, dr2, dc2, t),
                        decreases 2 - dc,
                    {
                        if (dr != 0 || dc != 0) && self.line_holds(row, col, dr, dc, t) {
                            assert(line_of(g, w, row as int, col as int, dr as int, dc as int, t));
                            return true;
                        }
                        dc = dc + 1;
                    }
                    dr = dr + 1;
                }
                col = col + 1;
            }
            row = row + 1;
        }
        false
    }

    /// Whether some cell of the grid is empty.
    fn has_empty_cell(&self) -> (b: bool)
        requires
            self.wf(),
        ensures
            b == has_empty(self.cells()),
    {
        let ghost g = self.cells();
        let n = self.length;
        let mut row: usize = 0;
        while row < n
            invariant
                self.wf(),
                g == self.cells(),
                n == self.size(),
                row <= n,
                forall|r: int, c: int| 0 <= r < row && 0 <= c < n ==> #[trigger] g[r][c] != Tile::Empty,
            decreases n - row,
        {
            let mut col: usize = 0;
            while col < n
                invariant
                    self.wf(),
                    g == self.cells(),
                    n == self.size(),
                    row < n,
                    col <= n,
                    forall|r: int, c: int|
                        (0 <= r < row && 0 <= c < n) || (r == row && 0 <= c < col) ==> #[trigger] g[r][c] != Tile::Empty,
                decreases n - col,
            {
                if self.tiles[row][col] == Tile::Empty {
                    assert(g[row as int][col as int] == Tile::Empty);
                    return true;
                }
                col = col + 1;
            }
            row = row + 1;
        }
        false
    }

    /// Empties the cell at `(row, col)`: undoes a move made there.
    pub(crate) fn clear(&mut self, row: usize, col: usize)
        requires
            old(self).wf(),
            row < old(self).size(),
            col < old(self).size(),
        ensures
            final(self).wf(),
            is_square(final(self).cells(), final(self).size()),
            final(self).size() == old(self).size(),
            final(self).win_length() == old(self).win_length(),
            final(self).cells() == place(old(self).cells(), row as int, col as int, Tile::Empty),
    {
        self.tiles[row][col] = Tile::Empty;
        assert(self.cells() =~= place(old(self).cells(), row as int, col as int, Tile::Empty));
    }

    /// The status of the game, computed afresh from the contents.
    pub fn board_status(&self) -> (s: BoardStatus)
        requires
            self.wf(),
        ensures
            s == status_of(self.cells(), self.win_length()),
    {
        if self.has_winning_line(Tile::Cross) {
            BoardStatus::Winner(Tile::Cross)
        } else if self.has_winning_line(Tile::Nought) {
            BoardStatus::Winner(Tile::Nought)
        } else if !self.has_empty_cell() {
            BoardStatus::Tie
        } else {
            BoardStatus::Continue
        }
    }
}

} // verus!
