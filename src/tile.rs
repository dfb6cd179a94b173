use vstd::prelude::*;

verus! {

/// The content of one cell: empty, or one of the two sides.
#[derive(Copy, Clone, PartialEq, Eq, Structural, Debug)]
pub enum Tile {
    Empty,
    Cross,
    Nought,
}

/// The opposite side; `Empty` has none and maps to itself.
pub open spec fn opponent(t: Tile) -> Tile {
    match t {
        Tile::Cross => Tile::Nought,
        Tile::Nought => Tile::Cross,
        Tile::Empty => Tile::Empty,
    }
}

/// The one-character glyph that renders a cell.
pub open spec fn glyph(t: Tile) -> Seq<char> {
    match t {
        Tile::Empty => seq![' '],
        Tile::Cross => seq!['X'],
        Tile::Nought => seq!['O'],
    }
}

impl Tile {
    pub fn char(&self) -> (r: &'static str)
        ensures
            r@ == glyph(*self),
    {
        proof {
            reveal_strlit(" ");
            reveal_strlit("X");
            reveal_strlit("O");
        }
        match self {
            Tile::Empty => " ",
            Tile::Cross => "X",
            Tile::Nought => "O",
        }
    }

    pub fn opposite(&self) -> (r: Option<Tile>)
        ensures
            *self == Tile::Empty ==> r is None,
            *self != Tile::Empty ==> r == Some(opponent(*self)),
    {
        match self {
            Tile::Cross => Some(Tile::Nought),
            Tile::Nought => Some(Tile::Cross),
            Tile::Empty => None,
        }
    }
}

/// What the board's contents say about the game.
#[derive(Copy, Clone, PartialEq, Eq, Structural, Debug)]
pub enum BoardStatus {
    Winner(Tile),
    Tie,
    Continue,
}

/// Why a cell could not be set.
#[derive(Copy, Clone, PartialEq, Eq, Structural, Debug)]
pub enum SetError {
    RowOutOfBounds,
    ColumnOutOfBounds,
    AlreadyOccupied,
}

impl SetError {
    /// A human-readable description of the error.
    pub fn message(&self) -> (r: &'static str)
        ensures
            *self == SetError::RowOutOfBounds ==> r@ == "Row index out of bounds."@,
            *self == SetError::ColumnOutOfBounds ==> r@ == "Column index out of bounds."@,
            *self == SetError::AlreadyOccupied ==> r@ == "Already occupied tile."@,
    {
        proof {
            reveal_strlit("Row index out of bounds.");
            reveal_strlit("Column index out of bounds.");
            reveal_strlit("Already occupied tile.");
        }
        match self {
            SetError::RowOutOfBounds => "Row index out of bounds.",
            SetError::ColumnOutOfBounds => "Column index out of bounds.",
            SetError::AlreadyOccupied => "Already occupied tile.",
        }
    }
}

} // verus!
