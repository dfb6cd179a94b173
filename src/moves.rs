use vstd::prelude::*;
use crate::tile::{Tile, BoardStatus, opponent};
use crate::board::{Board, lemma_place_then_clear, place, status_of, in_bounds, is_square, has_empty};
use rand::seq::SliceRandom;

verus! {

/// The number of empty cells in a row.
pub open spec fn count_row(s: Seq<Tile>) -> nat
    decreases s.len(),
{
    if s.len() == 0 {
        0
    } else {
        count_row(s.drop_last()) + if s.last() == Tile::Empty { 1nat } else { 0nat }
    }
}

/// The number of empty cells in a grid.
pub open spec fn count_empty(g: Seq<Seq<Tile>>) -> nat
    decreases g.len(),
{
    if g.len() == 0 {
        0
    } else {
        count_empty(g.drop_last()) + count_row(g.last())
    }
}

proof fn lemma_count_row_fill(s: Seq<Tile>, c: int, t: Tile)
    requires
        0 <= c < s.len(),
        s[c] == Tile::Empty,
        t != Tile::Empty,
    ensures
        count_row(s.update(c, t)) + 1 == count_row(s),
    decreases s.len(),
{
    let u = s.update(c, t);
    if c == s.len() - 1 {
        assert(u.drop_last() =~= s.drop_last());
    } else {
        assert(u.drop_last() =~= s.drop_last().update(c, t));
        lemma_count_row_fill(s.drop_last(), c, t);
    }
}

/// Filling an empty cell leaves one empty cell fewer.
pub proof fn lemma_count_place(g: Seq<Seq<Tile>>, r: int, c: int, t: Tile)
    requires
        in_bounds(g, r, c),
        g[r][c] == Tile::Empty,
        t != Tile::Empty,
    ensures
        count_empty(place(g, r, c, t)) + 1 == count_empty(g),
    decreases g.len(),
{
    let u = place(g, r, c, t);
    if r == g.len() - 1 {
        assert(u.drop_last() =~= g.drop_last());
        lemma_count_row_fill(g[r], c, t);
    } else {
        assert(u.drop_last() =~= place(g.drop_last(), r, c, t));
        lemma_count_place(g.drop_last(), r, c, t);
    }
}

pub open spec fn larger(a: int, b: int) -> int {
    if a >= b { a } else { b }
}

/// The value of the grid `g` for `mover`, the side that has just moved:
/// 1 for a win, 0 for a tie, -1 for a loss, and otherwise the negation of
/// the best value the opponent can reach with its next move.
pub open spec fn outcome(g: Seq<Seq<Tile>>, w: int, mover: Tile) -> int
    decreases count_empty(g), 2nat, 0nat,
{
    match status_of(g, w) {
        BoardStatus::Winner(t) => if t == mover { 1 } else { -1 },
        BoardStatus::Tie => 0,
        BoardStatus::Continue => -best_over_rows(g, w, opponent(mover), g.len() as nat),
    }
}

/// The best value `side` reaches by moving to an empty cell of the first `r` rows
/// (-1 when there is none).
pub open spec fn best_over_rows(g: Seq<Seq<Tile>>, w: int, side: Tile, r: nat) -> int
    decreases count_empty(g), 1nat, r,
{
    if r == 0 {
        -1
    } else {
        let k = (r - 1) as nat;
        larger(
            best_over_rows(g, w, side, k),
            best_in_row(g, w, side, k, if k < g.len() { g[k as int].len() } else { 0 }),
        )
    }
}

/// The best value `side` reaches by moving to an empty cell among the first `c`
/// cells of row `r` (-1 when there is none).
pub open spec fn best_in_row(g: Seq<Seq<Tile>>, w: int, side: Tile, r: nat, c: nat) -> int
    decreases count_empty(g), 0nat, c,
{
    if c == 0 {
        -1
    } else {
        let k = (c - 1) as nat;
        let prev = best_in_row(g, w, side, r, k);
        if side != Tile::Empty && in_bounds(g, r as int, k as int) && g[r as int][k as int] == Tile::Empty {
            proof {
                lemma_count_place(g, r as int, k as int, side);
            }
            larger(prev, outcome(place(g, r as int, k as int, side), w, side))
        } else {
            prev
        }
    }
}

/// `(r, c)` is an empty cell of `g` and no other empty cell is worth more to `side`.
pub open spec fn is_best_move(g: Seq<Seq<Tile>>, w: int, side: Tile, r: int, c: int) -> bool {
    &&& in_bounds(g, r, c)
    &&& g[r][c] == Tile::Empty
    &&& forall|r2: int, c2: int|
        in_bounds(g, r2, c2) && g[r2][c2] == Tile::Empty
            ==> #[trigger] outcome(place(g, r2, c2, side), w, side) <= outcome(place(g, r, c, side), w, side)
}

/// A best move is never a losing one when some empty cell does not lose.
pub proof fn lemma_best_move_not_losing(g: Seq<Seq<Tile>>, w: int, side: Tile, r: int, c: int, r2: int, c2: int)
    requires
        is_best_move(g, w, side, r, c),
        in_bounds(g, r2, c2),
        g[r2][c2] == Tile::Empty,
        outcome(place(g, r2, c2, side), w, side) >= 0,
    ensures
        outcome(place(g, r, c, side), w, side) >= 0,
{
}

/// Position `a` comes strictly before position `b` in row-major order.
pub open spec fn before(a: (usize, usize), b: (usize, usize)) -> bool {
    a.0 < b.0 || (a.0 == b.0 && a.1 < b.1)
}

/// Relies on rand's `SliceRandom::choose` with the thread-local generator: it gives
/// `None` for an empty slice and otherwise one of the slice's elements.
#[verifier::external_body]
fn choose_cell(cells: &Vec<(usize, usize)>) -> (r: Option<(usize, usize)>)
    ensures
        cells@.len() == 0 <==> r is None,
        r is Some ==> cells@.contains(r->0),
{
    cells.choose(&mut rand::thread_rng()).copied()
}

impl Board {
    /// The value for `side` of moving at `(move_row, move_col)`, found by exhaustive
    /// negamax; the board is left as it was.
    fn value_of_move(&mut self, side: Tile, move_row: usize, move_col: usize) -> (v: i8)
        requires
            old(self).wf(),
            move_row < old(self).size(),
            move_col < old(self).size(),
            in_bounds(old(self).cells(), move_row as int, move_col as int),
            old(self).cells()[move_row as int][move_col as int] == Tile::Empty,
            side != Tile::Empty,
        ensures
            final(self).wf(),
            final(self).cells() == old(self).cells(),
            final(self).size() == old(self).size(),
            final(self).win_length() == old(self).win_length(),
            v as int == outcome(
                place(old(self).cells(), move_row as int, move_col as int, side),
                old(self).win_length(),
                side,
            ),
            -1 <= v <= 1,
        decreases count_empty(old(self).cells()),
    {
        let ghost g = self.cells();
        let ghost w = self.win_length();
        proof {
            self.lemma_wf();
            lemma_count_place(g, move_row as int, move_col as int, side);
        }
        let _ = self.set(side, move_row, move_col);
        let ghost g2 = self.cells();
        let value: i8 = match self.board_status() {
            BoardStatus::Winner(t) => if t == side { 1 } else { -1 },
            BoardStatus::Tie => 0,
            BoardStatus::Continue => {
                let opp = if side == Tile::Cross { Tile::Nought } else { Tile::Cross };
                let n = self.length();
                let mut best: i8 = -1;
                let mut row: usize = 0;
                while row < n
                    invariant
                        self.wf(),
                        self.cells() == g2,
                        self.size() == n,
                        self.win_length() == w,
                        is_square(g2, n as int),
                        count_empty(g2) < count_empty(g),
                        g == old(self).cells(),
                        g2 == place(g, move_row as int, move_col as int, side),
                        opp == opponent(side),
                        opp != Tile::Empty,
                        row <= n,
                        best == best_over_rows(g2, w, opp, row as nat),
                        -1 <= best <= 1,
                    decreases n - row,
                {
                    let mut col: usize = 0;
                    let mut row_best: i8 = -1;
                    while col < n
                        invariant
                            self.wf(),
                            self.cells() == g2,
                            self.size() == n,
                            self.win_length() == w,
                            is_square(g2, n as int),
                            count_empty(g2) < count_empty(g),
                            g == old(self).cells(),
                            g2 == place(g, move_row as int, move_col as int, side),
                        g == old(self).cells(),
                        g2 == place(g, move_row as int, move_col as int, side),
                            opp == opponent(side),
                            opp != Tile::Empty,
                            row < n,
                            col <= n,
                            best == best_over_rows(g2, w, opp, row as nat),
                            -1 <= best <= 1,
                            row_best == best_in_row(g2, w, opp, row as nat, col as nat),
                            -1 <= row_best <= 1,
                        decreases n - col,
                    {
                        if self.get(row, col) == Some(Tile::Empty) {
                            let v = self.value_of_move(opp, row, col);
                            if v > row_best {
                                row_best = v;
                            }
                        }
                        col = col + 1;
                    }
                    if row_best > best {
                        best = row_best;
                    }
                    row = row + 1;
                }
                -best
            },
        };
        self.clear(move_row, move_col);
        proof {
            lemma_place_then_clear(g, w, move_row as int, move_col as int, side);
        }
        value
    }
}

impl Board {
    /// The empty cells, in row-major order.
    pub fn empty_cells(&self) -> (v: Vec<(usize, usize)>)
        requires
            self.wf(),
        ensures
            forall|k: int| 0 <= k < v@.len() ==> in_bounds(self.cells(), #[trigger] v@[k].0 as int, v@[k].1 as int)
                && self.cells()[v@[k].0 as int][v@[k].1 as int] == Tile::Empty,
            forall|r: int, c: int| in_bounds(self.cells(), r, c) && #[trigger] self.cells()[r][c] == Tile::Empty
                ==> v@.contains((r as usize, c as usize)),
            forall|i: int, j: int| 0 <= i < j < v@.len() ==> before(#[trigger] v@[i], #[trigger] v@[j]),
    {
        let ghost g = self.cells();
        proof {
            self.lemma_wf();
        }
        let n = self.length();
        let mut v: Vec<(usize, usize)> = Vec::new();
        let mut row: usize = 0;
        while row < n
            invariant
                self.wf(),
                g == self.cells(),
                n == self.size(),
                is_square(g, n as int),
                row <= n,
                forall|k: int| 0 <= k < v@.len() ==> in_bounds(g, #[trigger] v@[k].0 as int, v@[k].1 as int)
                    && g[v@[k].0 as int][v@[k].1 as int] == Tile::Empty && v@[k].0 < row,
                forall|r: int, c: int| 0 <= r < row && in_bounds(g, r, c) && #[trigger] g[r][c] == Tile::Empty
                    ==> v@.contains((r as usize, c as usize)),
                forall|i: int, j: int| 0 <= i < j < v@.len() ==> before(#[trigger] v@[i], #[trigger] v@[j]),
            decreases n - row,
        {
            let mut col: usize = 0;
            while col < n
                invariant
                    self.wf(),
                    g == self.cells(),
                    n == self.size(),
                    is_square(g, n as int),
                    row < n,
                    col <= n,
                    forall|k: int| 0 <= k < v@.len() ==> in_bounds(g, #[trigger] v@[k].0 as int, v@[k].1 as int)
                        && g[v@[k].0 as int][v@[k].1 as int] == Tile::Empty
                        && before(v@[k], (row, col)),
                    forall|r: int, c: int| (0 <= r < row || (r == row && c < col)) && in_bounds(g, r, c)
                        && #[trigger] g[r][c] == Tile::Empty ==> v@.contains((r as usize, c as usize)),
                    forall|i: int, j: int| 0 <= i < j < v@.len() ==> before(#[trigger] v@[i], #[trigger] v@[j]),
                decreases n - col,
            {
                if self.get(row, col) == Some(Tile::Empty) {
                    let ghost old_v = v@;
                    v.push((row, col));
                    proof {
                        assert(v@[old_v.len() as int] == (row, col));
                        assert forall|r: int, c: int| (0 <= r < row || (r == row && c < col + 1)) && in_bounds(g, r, c)
                            && #[trigger] g[r][c] == Tile::Empty implies v@.contains((r as usize, c as usize)) by {
                            if r == row && c == col {
                                assert(v@[old_v.len() as int] == (r as usize, c as usize));
                            } else {
                                assert(old_v.contains((r as usize, c as usize)));
                                let k = choose|k: int| 0 <= k < old_v.len() && old_v[k] == (r as usize, c as usize);
                                assert(v@[k] == (r as usize, c as usize));
                            }
                        }
                    }
                }
                col = col + 1;
            }
            row = row + 1;
        }
        v
    }

    /// Writes `side` on an empty cell picked at random.
    pub fn make_random_move(&mut self, side: Tile)
        requires
            old(self).wf(),
            has_empty(old(self).cells()),
        ensures
            final(self).wf(),
            is_square(final(self).cells(), final(self).size()),
            final(self).size() == old(self).size(),
            final(self).win_length() == old(self).win_length(),
            exists|r: int, c: int|
                in_bounds(old(self).cells(), r, c) && old(self).cells()[r][c] == Tile::Empty
                    && #[trigger] place(old(self).cells(), r, c, side) == final(self).cells(),
    {
        let ghost g = self.cells();
        proof {
            self.lemma_wf();
        }
        let cells = self.empty_cells();
        proof {
            let (r, c) = choose|r: int, c: int| in_bounds(g, r, c) && #[trigger] g[r][c] == Tile::Empty;
            assert(cells@.contains((r as usize, c as usize)));
        }
        match choose_cell(&cells) {
            Some((row, col)) => {
                let ghost k = choose|k: int| 0 <= k < cells@.len() && cells@[k] == (row, col);
                assert(in_bounds(g, cells@[k].0 as int, cells@[k].1 as int));
                let _ = self.set(side, row, col);
                assert(place(g, row as int, col as int, side) == self.cells());
            },
            None => {},
        }
    }

    /// Writes `side` on an empty cell of the greatest negamax value for `side`.
    pub fn make_perfect_move(&mut self, side: Tile)
        requires
            old(self).wf(),
            side != Tile::Empty,
            has_empty(old(self).cells()),
        ensures
            final(self).wf(),
            is_square(final(self).cells(), final(self).size()),
            final(self).size() == old(self).size(),
            final(self).win_length() == old(self).win_length(),
            exists|r: int, c: int|
                #[trigger] is_best_move(old(self).cells(), old(self).win_length(), side, r, c)
                    && place(old(self).cells(), r, c, side) == final(self).cells(),
    {
        let ghost g = self.cells();
        let ghost w = self.win_length();
        proof {
            self.lemma_wf();
        }
        let n = self.length();
        let mut found = false;
        let mut best: i8 = -1;
        let mut best_row: usize = 0;
        let mut best_col: usize = 0;
        let mut row: usize = 0;
        while row < n
            invariant
                self.wf(),
                g == self.cells(),
                w == self.win_length(),
                n == self.size(),
                is_square(g, n as int),
                side != Tile::Empty,
                row <= n,
                found ==> in_bounds(g, best_row as int, best_col as int)
                    && g[best_row as int][best_col as int] == Tile::Empty
                    && best == outcome(place(g, best_row as int, best_col as int, side), w, side),
                forall|r: int, c: int|
                    #![trigger g[r][c]]
                    #![trigger outcome(place(g, r, c, side), w, side)]
                    0 <= r < row && in_bounds(g, r, c) && g[r][c] == Tile::Empty
                    ==> found && outcome(place(g, r, c, side), w, side) <= best,
            decreases n - row,
        {
            let mut col: usize = 0;
            while col < n
                invariant
                    self.wf(),
                    g == self.cells(),
                    w == self.win_length(),
                    n == self.size(),
                    is_square(g, n as int),
                    side != Tile::Empty,
                    row < n,
                    col <= n,
                    found ==> in_bounds(g, best_row as int, best_col as int)
                        && g[best_row as int][best_col as int] == Tile::Empty
                        && best == outcome(place(g, best_row as int, best_col as int, side), w, side),
                    forall|r: int, c: int|
                        #![trigger g[r][c]]
                        #![trigger outcome(place(g, r, c, side), w, side)]
                        (0 <= r < row || (r == row && c < col)) && in_bounds(g, r, c) && g[r][c] == Tile::Empty
                        ==> found && outcome(place(g, r, c, side), w, side) <= best,
                decreases n - col,
            {
                if self.get(row, col) == Some(Tile::Empty) {
                    let v = self.value_of_move(side, row, col);
                    if !found || v > best {
                        found = true;
                        best = v;
                        best_row = row;
                        best_col = col;
                    }
                }
                col = col + 1;
            }
            row = row + 1;
        }
        proof {
            let (r, c) = choose|r: int, c: int| in_bounds(g, r, c) && #[trigger] g[r][c] == Tile::Empty;
            assert(outcome(place(g, r, c, side), w, side) <= best);
            assert(is_best_move(g, w, side, best_row as int, best_col as int));
        }
        let _ = self.set(side, best_row, best_col);
    }
}

} // verus!
