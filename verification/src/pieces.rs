//! Piece values and the shared movement capability: every kind answers
//! `possible_moves(board)` with its exact destination set.

use vstd::prelude::*;
use crate::board::{Board, Colour, Location, Piece, PieceKind};
use crate::moves::{
    black_pawn_moves, diagonal_positions, king_moves, knight_moves, orthogonal_positions,
    pawn_dests, piece_dests, queen_dests, ray_moves, white_pawn_moves,
};

verus! {

impl Piece {
    /// The piece's candidate destinations on `board`: a duplicate-free
    /// vector holding exactly the destination set of the piece's kind.
    pub fn possible_moves(&self, board: &Board) -> (moves: Vec<Location>)
        requires
            board.wf(),
        ensures
            moves@.no_duplicates(),
            forall|l: Location| moves@.contains(l) <==>
                piece_dests(*board, *self).contains((l.row as int, l.file as int)),
    {
        match self.kind {
            PieceKind::Pawn => match self.colour {
                Colour::White => white_pawn_moves(board, self.location),
                Colour::Black => black_pawn_moves(board, self.location),
            },
            PieceKind::Knight => knight_moves(board, self.colour, self.location),
            PieceKind::Bishop => diagonal_positions(board, self.colour, self.location),
            PieceKind::Rook => orthogonal_positions(board, self.colour, self.location),
            PieceKind::King => king_moves(board, self.colour, self.location),
            PieceKind::Queen => {
                let mut out: Vec<Location> = Vec::new();
                ray_moves(board, self.colour, self.location, 1, 0, &mut out);
                ray_moves(board, self.colour, self.location, -1, 0, &mut out);
                ray_moves(board, self.colour, self.location, 0, 1, &mut out);
                ray_moves(board, self.colour, self.location, 0, -1, &mut out);
                ray_moves(board, self.colour, self.location, 1, 1, &mut out);
                ray_moves(board, self.colour, self.location, 1, -1, &mut out);
                ray_moves(board, self.colour, self.location, -1, 1, &mut out);
                ray_moves(board, self.colour, self.location, -1, -1, &mut out);
                out
            },
        }
    }
}

/// A queen: moves along all eight rays.
#[derive(Clone, Copy, Debug, PartialEq, Eq, Structural)]
pub struct Queen {
    pub colour: Colour,
    pub location: Location,
}

impl Queen {
    /// The square the queen stands on.
    pub fn location(&self) -> (loc: Location)
        ensures
            loc == self.location,
    {
        self.location
    }

    /// The queen's candidate destinations on `board`.
    pub fn possible_moves(&self, board: &Board) -> (moves: Vec<Location>)
        requires
            board.wf(),
        ensures
            moves@.no_duplicates(),
            forall|l: Location| moves@.contains(l) <==>
                queen_dests(*board, self.colour, self.location.row as int, self.location.file as int)
                    .contains((l.row as int, l.file as int)),
    {
        let piece = Piece { kind: PieceKind::Queen, colour: self.colour, location: self.location };
        piece.possible_moves(board)
    }
}

/// A pawn: single or double forward step, diagonal captures.
#[derive(Clone, Copy, Debug, PartialEq, Eq, Structural)]
pub struct Pawn {
    pub colour: Colour,
    pub location: Location,
}

impl Pawn {
    /// The square the pawn stands on.
    pub fn location(&self) -> (loc: Location)
        ensures
            loc == self.location,
    {
        self.location
    }

    /// The pawn's candidate destinations on `board`, by its colour.
    pub fn possible_moves(&self, board: &Board) -> (moves: Vec<Location>)
        requires
            board.wf(),
        ensures
            moves@.no_duplicates(),
            forall|l: Location| moves@.contains(l) <==>
                pawn_dests(*board, self.colour, self.location.row as int, self.location.file as int)
                    .contains((l.row as int, l.file as int)),
    {
        match self.colour {
            Colour::White => white_pawn_moves(board, self.location),
            Colour::Black => black_pawn_moves(board, self.location),
        }
    }
}

} // verus!
