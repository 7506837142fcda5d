use chess_moves::board::{Board, Colour, ConfigError, Location, Piece, PieceKind};
use chess_moves::pieces::{Pawn, Queen};

fn loc(row: i32, file: i32) -> Location {
    Location::new(row, file)
}

fn piece(kind: PieceKind, colour: Colour, row: i32, file: i32) -> Piece {
    Piece { kind, colour, location: loc(row, file) }
}

fn empty_board(rows: i32, files: i32) -> Board {
    Board::new(rows, files).unwrap()
}

#[test]
fn test_queen_movement() {
    let board = empty_board(10, 10);
    let queen = Queen { colour: Colour::White, location: loc(0, 0) };
    let moves = queen.possible_moves(&board);
    assert!(!moves.contains(&loc(0, 0)));
    assert!(moves.contains(&loc(9, 0)));
    assert!(moves.contains(&loc(9, 9)));
    assert!(moves.contains(&loc(0, 9)));
}

#[test]
fn queen_corner_empty_board_exact_set() {
    let board = empty_board(8, 8);
    let queen = piece(PieceKind::Queen, Colour::White, 0, 0);
    let moves = queen.possible_moves(&board);
    // 7 along the rank, 7 along the file, 7 along the main diagonal; the
    // anti-diagonal leaves the board at once.
    assert_eq!(moves.len(), 21);
    for i in 1..8 {
        assert!(moves.contains(&loc(0, i)));
        assert!(moves.contains(&loc(i, 0)));
        assert!(moves.contains(&loc(i, i)));
    }
    assert!(!moves.contains(&loc(0, 0)));
}

#[test]
fn black_pawn_double_step_from_start_rank() {
    let board = empty_board(8, 8);
    let pawn = piece(PieceKind::Pawn, Colour::Black, 6, 3);
    let moves = pawn.possible_moves(&board);
    assert_eq!(moves.len(), 2);
    assert!(moves.contains(&loc(5, 3)));
    assert!(moves.contains(&loc(4, 3)));
}

#[test]
fn rook_stops_at_capture() {
    let mut board = empty_board(8, 8);
    assert!(board.place(piece(PieceKind::Pawn, Colour::Black, 3, 6)));
    let rook = piece(PieceKind::Rook, Colour::White, 3, 3);
    let moves = rook.possible_moves(&board);
    // Toward the enemy piece: up to and including the capture square.
    assert!(moves.contains(&loc(3, 4)));
    assert!(moves.contains(&loc(3, 5)));
    assert!(moves.contains(&loc(3, 6)));
    assert!(!moves.contains(&loc(3, 7)));
    // The other rank direction and the whole file are unobstructed.
    assert!(moves.contains(&loc(3, 0)));
    assert!(moves.contains(&loc(3, 1)));
    assert!(moves.contains(&loc(3, 2)));
    for r in 0..8 {
        if r != 3 {
            assert!(moves.contains(&loc(r, 3)));
        }
    }
    assert_eq!(moves.len(), 13);
}

#[test]
fn rook_blocked_by_friendly_piece() {
    let mut board = empty_board(8, 8);
    assert!(board.place(piece(PieceKind::Pawn, Colour::White, 0, 3)));
    let rook = piece(PieceKind::Rook, Colour::White, 0, 0);
    let moves = rook.possible_moves(&board);
    assert!(moves.contains(&loc(0, 1)));
    assert!(moves.contains(&loc(0, 2)));
    assert!(!moves.contains(&loc(0, 3)));
    assert!(!moves.contains(&loc(0, 4)));
    assert!(!moves.contains(&loc(0, 7)));
}

#[test]
fn bishop_corner_empty_board() {
    let board = empty_board(8, 8);
    let bishop = piece(PieceKind::Bishop, Colour::Black, 0, 0);
    let moves = bishop.possible_moves(&board);
    assert_eq!(moves.len(), 7);
    for i in 1..8 {
        assert!(moves.contains(&loc(i, i)));
    }
}

#[test]
fn knight_corner_and_centre() {
    let board = empty_board(8, 8);
    let corner = piece(PieceKind::Knight, Colour::White, 0, 0);
    let corner_moves = corner.possible_moves(&board);
    assert_eq!(corner_moves.len(), 2);
    assert!(corner_moves.contains(&loc(1, 2)));
    assert!(corner_moves.contains(&loc(2, 1)));

    let centre = piece(PieceKind::Knight, Colour::White, 3, 3);
    let centre_moves = centre.possible_moves(&board);
    assert_eq!(centre_moves.len(), 8);
    assert!(!centre_moves.contains(&loc(3, 3)));
}

#[test]
fn knight_respects_occupants() {
    let mut board = empty_board(8, 8);
    assert!(board.place(piece(PieceKind::Pawn, Colour::White, 5, 4)));
    assert!(board.place(piece(PieceKind::Pawn, Colour::Black, 4, 5)));
    let knight = piece(PieceKind::Knight, Colour::White, 3, 3);
    let moves = knight.possible_moves(&board);
    // A friendly piece blocks the square; an enemy piece is a capture.
    assert!(!moves.contains(&loc(5, 4)));
    assert!(moves.contains(&loc(4, 5)));
    assert_eq!(moves.len(), 7);
}

#[test]
fn king_corner_and_centre() {
    let board = empty_board(8, 8);
    let corner = piece(PieceKind::King, Colour::Black, 0, 0);
    let corner_moves = corner.possible_moves(&board);
    assert_eq!(corner_moves.len(), 3);
    assert!(corner_moves.contains(&loc(0, 1)));
    assert!(corner_moves.contains(&loc(1, 0)));
    assert!(corner_moves.contains(&loc(1, 1)));

    let centre = piece(PieceKind::King, Colour::Black, 3, 3);
    let centre_moves = centre.possible_moves(&board);
    assert_eq!(centre_moves.len(), 8);
    assert!(!centre_moves.contains(&loc(3, 3)));
}

#[test]
fn white_pawn_double_step_only_from_start_rank() {
    let board = empty_board(8, 8);
    let on_start = piece(PieceKind::Pawn, Colour::White, 1, 3);
    let moves = on_start.possible_moves(&board);
    assert_eq!(moves.len(), 2);
    assert!(moves.contains(&loc(2, 3)));
    assert!(moves.contains(&loc(3, 3)));

    let off_start = piece(PieceKind::Pawn, Colour::White, 3, 3);
    let moves = off_start.possible_moves(&board);
    assert_eq!(moves.len(), 1);
    assert!(moves.contains(&loc(4, 3)));
}

#[test]
fn pawn_double_step_needs_both_squares_empty() {
    // Intermediate square occupied: no forward move at all.
    let mut board = empty_board(8, 8);
    assert!(board.place(piece(PieceKind::Knight, Colour::Black, 2, 3)));
    let pawn = piece(PieceKind::Pawn, Colour::White, 1, 3);
    assert_eq!(pawn.possible_moves(&board).len(), 0);

    // Destination square occupied: the single step stays, the double goes.
    let mut board = empty_board(8, 8);
    assert!(board.place(piece(PieceKind::Knight, Colour::Black, 3, 3)));
    let moves = pawn.possible_moves(&board);
    assert_eq!(moves.len(), 1);
    assert!(moves.contains(&loc(2, 3)));
}

#[test]
fn pawn_captures_diagonally() {
    let mut board = empty_board(8, 8);
    assert!(board.place(piece(PieceKind::Rook, Colour::Black, 2, 2)));
    assert!(board.place(piece(PieceKind::Rook, Colour::White, 2, 4)));
    let pawn = piece(PieceKind::Pawn, Colour::White, 1, 3);
    let moves = pawn.possible_moves(&board);
    // The enemy rook is a capture; the friendly rook is not.
    assert!(moves.contains(&loc(2, 2)));
    assert!(!moves.contains(&loc(2, 4)));
    assert!(moves.contains(&loc(2, 3)));
    assert!(moves.contains(&loc(3, 3)));
    assert_eq!(moves.len(), 3);
}

#[test]
fn black_pawn_captures_toward_decreasing_rows() {
    let mut board = empty_board(8, 8);
    assert!(board.place(piece(PieceKind::Bishop, Colour::White, 5, 2)));
    let pawn = Pawn { colour: Colour::Black, location: loc(6, 3) };
    let moves = pawn.possible_moves(&board);
    assert!(moves.contains(&loc(5, 2)));
    assert!(moves.contains(&loc(5, 3)));
    assert!(moves.contains(&loc(4, 3)));
    assert_eq!(moves.len(), 3);
}

#[test]
fn pawn_at_far_edge_has_no_moves() {
    let board = empty_board(8, 8);
    let pawn = piece(PieceKind::Pawn, Colour::White, 7, 3);
    assert_eq!(pawn.possible_moves(&board).len(), 0);
}

#[test]
fn board_rejects_non_positive_dimensions() {
    assert!(matches!(Board::new(0, 5), Err(ConfigError::NonPositiveDimensions)));
    assert!(matches!(Board::new(5, 0), Err(ConfigError::NonPositiveDimensions)));
    assert!(matches!(Board::new(-1, -1), Err(ConfigError::NonPositiveDimensions)));
    assert!(Board::new(1, 1).is_ok());
}

#[test]
fn board_bounds_and_occupancy() {
    let mut board = empty_board(8, 8);
    assert!(board.in_bounds(loc(0, 0)));
    assert!(board.in_bounds(loc(7, 7)));
    assert!(!board.in_bounds(loc(8, 0)));
    assert!(!board.in_bounds(loc(0, -1)));
    assert_eq!(board.occupant_at(loc(3, 3)), None);
    // Probing an off-board square is not an error.
    assert_eq!(board.occupant_at(loc(-2, 11)), None);

    let knight = piece(PieceKind::Knight, Colour::White, 3, 3);
    assert!(board.place(knight));
    assert_eq!(board.occupant_at(loc(3, 3)), Some(knight));
    // Placing replaces what stood there.
    let queen = piece(PieceKind::Queen, Colour::Black, 3, 3);
    assert!(board.place(queen));
    assert_eq!(board.occupant_at(loc(3, 3)), Some(queen));
    // A piece off the board is refused and nothing changes.
    assert!(!board.place(piece(PieceKind::Rook, Colour::White, 9, 9)));
    assert_eq!(board.occupant_at(loc(3, 3)), Some(queen));

    assert_eq!(board.remove(loc(3, 3)), Some(queen));
    assert_eq!(board.occupant_at(loc(3, 3)), None);
    assert_eq!(board.remove(loc(3, 3)), None);
    assert_eq!(board.remove(loc(-1, 0)), None);
}

#[test]
fn queen_and_pawn_expose_their_square() {
    let queen = Queen { colour: Colour::White, location: loc(2, 5) };
    assert_eq!(queen.location(), loc(2, 5));
    let pawn = Pawn { colour: Colour::Black, location: loc(6, 1) };
    assert_eq!(pawn.location(), loc(6, 1));
}

#[test]
fn no_piece_may_stay_in_place() {
    let board = empty_board(8, 8);
    let kinds = [
        PieceKind::Pawn,
        PieceKind::Knight,
        PieceKind::Bishop,
        PieceKind::Rook,
        PieceKind::Queen,
        PieceKind::King,
    ];
    for kind in kinds {
        let p = piece(kind, Colour::White, 3, 3);
        assert!(!p.possible_moves(&board).contains(&loc(3, 3)));
    }
}

#[test]
fn free_functions_match_piece_dispatch() {
    let mut board = empty_board(8, 8);
    assert!(board.place(piece(PieceKind::Pawn, Colour::Black, 3, 6)));
    let from = loc(3, 3);
    let rook_moves = chess_moves::moves::orthogonal_positions(&board, Colour::White, from);
    let bishop_moves = chess_moves::moves::diagonal_positions(&board, Colour::White, from);
    assert_eq!(rook_moves.len(), 13);
    assert!(bishop_moves.contains(&loc(0, 0)));
    assert!(!bishop_moves.contains(&loc(3, 4)));
    let white_pawn = chess_moves::moves::white_pawn_moves(&board, loc(1, 1));
    assert_eq!(white_pawn.len(), 2);
    let black_pawn = chess_moves::moves::black_pawn_moves(&board, loc(6, 0));
    assert_eq!(black_pawn.len(), 2);
}
