//! The board model: squares, colours, piece kinds, and the occupancy grid.

use vstd::prelude::*;
use vstd::pervasive::VecAdditionalExecFns;

verus! {

/// A board coordinate: `row` counts ranks and `file` counts columns, both
/// 0-indexed. A `Location` is a plain value; out-of-range coordinates are
/// legal to build and are simply never occupied.
#[derive(Clone, Copy, Debug, Hash, PartialEq, Eq, Structural)]
pub struct Location {
    pub row: i32,
    pub file: i32,
}

impl Location {
    pub fn new(row: i32, file: i32) -> (loc: Location)
        ensures
            loc.row == row,
            loc.file == file,
    {
        Location { row, file }
    }
}

/// The side a piece belongs to.
#[derive(Clone, Copy, Debug, PartialEq, Eq, Structural)]
pub enum Colour {
    White,
    Black,
}

/// The six kinds of chess piece.
#[derive(Clone, Copy, Debug, PartialEq, Eq, Structural)]
pub enum PieceKind {
    Pawn,
    Knight,
    Bishop,
    Rook,
    Queen,
    King,
}

/// A piece: its kind, its colour, and the square it stands on.
#[derive(Clone, Copy, Debug, PartialEq, Eq, Structural)]
pub struct Piece {
    pub kind: PieceKind,
    pub colour: Colour,
    pub location: Location,
}

/// The one construction error: a board needs at least one row and one file.
#[derive(Clone, Copy, Debug, PartialEq, Eq, Structural)]
pub enum ConfigError {
    NonPositiveDimensions,
}

/// A fixed-extent board: `rows` x `files` squares, each holding at most one
/// piece. The well-formedness invariant [`Board::wf`] ties every stored
/// piece to the square it sits on.
pub struct Board {
    pub rows: i32,
    pub files: i32,
    pub grid: Vec<Vec<Option<Piece>>>,
}

impl Board {
    /// Well-formedness: positive extent, a full `rows` x `files` grid, and
    /// every occupant's `location` field names the square that holds it.
    pub open spec fn wf(self) -> bool {
        &&& 0 < self.rows
        &&& 0 < self.files
        &&& self.grid@.len() == self.rows as int
        &&& forall|r: int| 0 <= r < self.grid@.len() ==> (#[trigger] self.grid@[r])@.len() == self.files as int
        &&& forall|r: int, f: int|
                0 <= r < self.grid@.len() && 0 <= f < self.grid@[r]@.len()
                ==> ((#[trigger] self.grid@[r]@[f]) matches Some(p)
                     ==> p.location.row == r && p.location.file == f)
    }

    /// The occupant of square `(r, f)`, as a mathematical value. Squares
    /// outside the grid are empty.
    pub open spec fn occ(self, r: int, f: int) -> Option<Piece> {
        if 0 <= r < self.grid@.len() && 0 <= f < self.grid@[r]@.len() {
            self.grid@[r]@[f]
        } else {
            None
        }
    }

    /// Whether `(r, f)` lies on the board.
    pub open spec fn in_bounds_spec(self, r: int, f: int) -> bool {
        0 <= r < self.rows && 0 <= f < self.files
    }

    /// Builds an empty board, or reports `ConfigError` exactly when either
    /// dimension is not positive.
    #[verifier::loop_isolation(false)]
    pub fn new(rows: i32, files: i32) -> (result: Result<Board, ConfigError>)
        ensures
            match result {
                Ok(b) => {
                    &&& rows > 0 && files > 0
                    &&& b.wf()
                    &&& b.rows == rows
                    &&& b.files == files
                    &&& forall|r: int, f: int| b.occ(r, f) is None
                },
                Err(e) => (rows <= 0 || files <= 0) && e == ConfigError::NonPositiveDimensions,
            },
    {
        if rows <= 0 || files <= 0 {
            return Err(ConfigError::NonPositiveDimensions);
        }
        let mut grid: Vec<Vec<Option<Piece>>> = Vec::new();
        let mut r: i32 = 0;
        while r < rows
            invariant
                0 <= r <= rows,
                grid@.len() == r as int,
                forall|i: int| 0 <= i < grid@.len() ==> (#[trigger] grid@[i])@.len() == files as int,
                forall|i: int, j: int|
                    0 <= i < grid@.len() && 0 <= j < grid@[i]@.len()
                    ==> (#[trigger] grid@[i]@[j]) is None,
            decreases rows - r,
        {
            let mut row_vec: Vec<Option<Piece>> = Vec::new();
            let mut f: i32 = 0;
            while f < files
                invariant
                    0 <= f <= files,
                    row_vec@.len() == f as int,
                    forall|j: int| 0 <= j < row_vec@.len() ==> (#[trigger] row_vec@[j]) is None,
                decreases files - f,
            {
                row_vec.push(None);
                f = f + 1;
            }
            grid.push(row_vec);
            r = r + 1;
        }
        Ok(Board { rows, files, grid })
    }

    /// Whether `loc` lies on the board.
    pub fn in_bounds(&self, loc: Location) -> (r: bool)
        ensures
            r == self.in_bounds_spec(loc.row as int, loc.file as int),
    {
        0 <= loc.row && loc.row < self.rows && 0 <= loc.file && loc.file < self.files
    }

    /// The occupant of `loc`, or `None` for an empty or out-of-range square.
    pub fn occupant_at(&self, loc: Location) -> (r: Option<Piece>)
        requires
            self.wf(),
        ensures
            r == self.occ(loc.row as int, loc.file as int),
    {
        if self.in_bounds(loc) {
            self.grid[loc.row as usize][loc.file as usize]
        } else {
            None
        }
    }

    /// Puts `piece` on its own square, replacing any occupant there.
    /// Returns whether the square is on the board; an off-board piece
    /// leaves the board unchanged.
    pub fn place(&mut self, piece: Piece) -> (placed: bool)
        requires
            old(self).wf(),
        ensures
            final(self).wf(),
            final(self).rows == old(self).rows,
            final(self).files == old(self).files,
            placed == old(self).in_bounds_spec(piece.location.row as int, piece.location.file as int),
            placed ==> forall|r: int, f: int|
                final(self).occ(r, f)
                    == (if r == piece.location.row as int && f == piece.location.file as int {
                        Some(piece)
                    } else {
                        old(self).occ(r, f)
                    }),
            !placed ==> *final(self) == *old(self),
    {
        if self.in_bounds(piece.location) {
            let row: &mut Vec<Option<Piece>> = &mut self.grid[piece.location.row as usize];
            row.set(piece.location.file as usize, Some(piece));
            true
        } else {
            false
        }
    }

    /// Empties `loc` and hands back what stood there. An out-of-range `loc`
    /// leaves the board unchanged and returns `None`.
    pub fn remove(&mut self, loc: Location) -> (removed: Option<Piece>)
        requires
            old(self).wf(),
        ensures
            final(self).wf(),
            final(self).rows == old(self).rows,
            final(self).files == old(self).files,
            removed == old(self).occ(loc.row as int, loc.file as int),
            forall|r: int, f: int|
                final(self).occ(r, f)
                    == (if r == loc.row as int && f == loc.file as int {
                        None::<Piece>
                    } else {
                        old(self).occ(r, f)
                    }),
    {
        if self.in_bounds(loc) {
            let row: &mut Vec<Option<Piece>> = &mut self.grid[loc.row as usize];
            let occupant = row[loc.file as usize];
            row.set(loc.file as usize, None);
            occupant
        } else {
            None
        }
    }
}

} // verus!
