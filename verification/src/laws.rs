//! The engine's laws, each proved once and for all boards and pieces:
//! ray membership characterized by step count, blocking, no self-moves,
//! board clipping, and the pawn double-step rule.

use vstd::prelude::*;
use crate::board::{Board, Colour, Piece, PieceKind};
use crate::moves::{
    edge_dist, lemma_ray_dests_ahead, path_clear, pawn_dests, pawn_dir, pawn_start_rank,
    piece_dests, ray_dests, ray_target, unit_dir,
};

verus! {

/// Within a clear path of length `k`, every strictly earlier square is on
/// the board and empty.
proof fn lemma_path_clear_at(board: Board, r: int, f: int, dr: int, df: int, k: int, j: int)
    requires
        path_clear(board, r, f, dr, df, k),
        1 <= j < k,
    ensures
        board.in_bounds_spec(r + j * dr, f + j * df),
        board.occ(r + j * dr, f + j * df) is None,
    decreases j,
{
    if j == 1 {
        assert(1 * dr == dr && 1 * df == df) by (nonlinear_arith);
    } else {
        lemma_path_clear_at(board, r + dr, f + df, dr, df, k - 1, j - 1);
        assert(r + dr + (j - 1) * dr == r + j * dr) by (nonlinear_arith);
        assert(f + df + (j - 1) * df == f + j * df) by (nonlinear_arith);
    }
}

/// Ray membership, characterized: a square is a ray destination exactly
/// when it lies some `k >= 1` steps along the direction, on the board,
/// with every strictly earlier square empty, and is itself empty or an
/// enemy square.
pub proof fn lemma_ray_dests_iff(board: Board, colour: Colour, r: int, f: int, dr: int, df: int, tr: int, tf: int)
    requires
        unit_dir(dr, df),
    ensures
        ray_dests(board, colour, r, f, dr, df).contains((tr, tf))
            <==> exists|k: int| ray_target(board, colour, r, f, dr, df, k, tr, tf),
    decreases edge_dist(board, r, f, dr, df),
{
    let s = ray_dests(board, colour, r, f, dr, df);
    let nr = r + dr;
    let nf = f + df;
    if !board.in_bounds_spec(nr, nf) {
        assert(s == Set::<(int, int)>::empty());
        assert forall|k: int| !ray_target(board, colour, r, f, dr, df, k, tr, tf) by {
            if ray_target(board, colour, r, f, dr, df, k, tr, tf) {
                if k == 1 {
                    assert(tr == r + dr && tf == f + df) by (nonlinear_arith)
                        requires tr == r + k * dr, tf == f + k * df, k == 1;
                }
            }
        };
    } else {
        match board.occ(nr, nf) {
            None => {
                lemma_ray_dests_iff(board, colour, nr, nf, dr, df, tr, tf);
                let rec = ray_dests(board, colour, nr, nf, dr, df);
                assert(s == rec.insert((nr, nf)));
                if s.contains((tr, tf)) {
                    if tr == nr && tf == nf {
                        assert(1 * dr == dr && 1 * df == df) by (nonlinear_arith);
                        assert(ray_target(board, colour, r, f, dr, df, 1, tr, tf));
                    } else {
                        assert(rec.contains((tr, tf)));
                        let k0 = choose|k: int| ray_target(board, colour, nr, nf, dr, df, k, tr, tf);
                        assert((k0 + 1) * dr == k0 * dr + dr) by (nonlinear_arith);
                        assert((k0 + 1) * df == k0 * df + df) by (nonlinear_arith);
                        assert(path_clear(board, r, f, dr, df, k0 + 1));
                        assert(ray_target(board, colour, r, f, dr, df, k0 + 1, tr, tf));
                    }
                }
                if exists|k: int| ray_target(board, colour, r, f, dr, df, k, tr, tf) {
                    let k0 = choose|k: int| ray_target(board, colour, r, f, dr, df, k, tr, tf);
                    if k0 == 1 {
                        assert(tr == nr && tf == nf) by (nonlinear_arith)
                            requires tr == r + k0 * dr, tf == f + k0 * df, k0 == 1, nr == r + dr, nf == f + df;
                        assert(s.contains((tr, tf)));
                    } else {
                        assert(path_clear(board, nr, nf, dr, df, k0 - 1));
                        assert(tr == nr + (k0 - 1) * dr) by (nonlinear_arith)
                            requires tr == r + k0 * dr, nr == r + dr;
                        assert(tf == nf + (k0 - 1) * df) by (nonlinear_arith)
                            requires tf == f + k0 * df, nf == f + df;
                        assert(ray_target(board, colour, nr, nf, dr, df, k0 - 1, tr, tf));
                        assert(rec.contains((tr, tf)));
                        assert(s.contains((tr, tf)));
                    }
                }
            },
            Some(p) => {
                if p.colour == colour {
                    assert(s == Set::<(int, int)>::empty());
                    assert forall|k: int| !ray_target(board, colour, r, f, dr, df, k, tr, tf) by {
                        if ray_target(board, colour, r, f, dr, df, k, tr, tf) {
                            if k == 1 {
                                assert(tr == nr && tf == nf) by (nonlinear_arith)
                                    requires tr == r + k * dr, tf == f + k * df, k == 1, nr == r + dr, nf == f + df;
                            }
                        }
                    };
                } else {
                    assert(s == Set::<(int, int)>::empty().insert((nr, nf)));
                    if s.contains((tr, tf)) {
                        assert(1 * dr == dr && 1 * df == df) by (nonlinear_arith);
                        assert(ray_target(board, colour, r, f, dr, df, 1, tr, tf));
                    }
                    if exists|k: int| ray_target(board, colour, r, f, dr, df, k, tr, tf) {
                        let k0 = choose|k: int| ray_target(board, colour, r, f, dr, df, k, tr, tf);
                        if k0 == 1 {
                            assert(tr == nr && tf == nf) by (nonlinear_arith)
                                requires tr == r + k0 * dr, tf == f + k0 * df, k0 == 1, nr == r + dr, nf == f + df;
                            assert(s.contains((tr, tf)));
                        }
                    }
                }
            },
        }
    }
}

/// Blocking law: along any direction, no ray destination lies strictly
/// beyond the first square that is off the board or occupied (a friendly
/// square blocks without being a destination; an enemy square is the
/// final destination; the board edge ends the ray).
pub proof fn lemma_ray_blocking(board: Board, colour: Colour, r: int, f: int, dr: int, df: int, m: int, k: int)
    requires
        unit_dir(dr, df),
        1 <= m < k,
        !board.in_bounds_spec(r + m * dr, f + m * df) || board.occ(r + m * dr, f + m * df) is Some,
    ensures
        !ray_dests(board, colour, r, f, dr, df).contains((r + k * dr, f + k * df)),
{
    let tr = r + k * dr;
    let tf = f + k * df;
    if ray_dests(board, colour, r, f, dr, df).contains((tr, tf)) {
        lemma_ray_dests_iff(board, colour, r, f, dr, df, tr, tf);
        let k0 = choose|k1: int| ray_target(board, colour, r, f, dr, df, k1, tr, tf);
        assert(k0 == k) by {
            if dr != 0 {
                assert(k0 == k) by (nonlinear_arith)
                    requires r + k0 * dr == r + k * dr, dr == 1 || dr == -1;
            } else {
                assert(k0 == k) by (nonlinear_arith)
                    requires f + k0 * df == f + k * df, df == 1 || df == -1;
            }
        }
        lemma_path_clear_at(board, r, f, dr, df, k, m);
    }
}

/// Blocking law, at the piece level: for a sliding piece, once some square
/// `m` steps along a direction is off the board or occupied, the square
/// `k > m` steps along that direction is not among the piece's
/// destinations — no other direction can reach it either.
pub proof fn lemma_sliding_blocking(board: Board, piece: Piece, dr: int, df: int, m: int, k: int)
    requires
        piece.kind == PieceKind::Queen || piece.kind == PieceKind::Rook || piece.kind
            == PieceKind::Bishop,
        unit_dir(dr, df),
        1 <= m < k,
        !board.in_bounds_spec(
            piece.location.row + m * dr,
            piece.location.file + m * df,
        ) || board.occ(piece.location.row + m * dr, piece.location.file + m * df) is Some,
    ensures
        !piece_dests(board, piece).contains(
            (piece.location.row + k * dr, piece.location.file + k * df),
        ),
{
    let r = piece.location.row as int;
    let f = piece.location.file as int;
    let tr = r + k * dr;
    let tf = f + k * df;
    lemma_ray_blocking(board, piece.colour, r, f, dr, df, m, k);
    assert forall|dr2: int, df2: int|
        unit_dir(dr2, df2) && !(dr2 == dr && df2 == df) implies !(#[trigger] ray_dests(
        board,
        piece.colour,
        r,
        f,
        dr2,
        df2,
    )).contains((tr, tf)) by {
        lemma_ray_dests_iff(board, piece.colour, r, f, dr2, df2, tr, tf);
        if ray_dests(board, piece.colour, r, f, dr2, df2).contains((tr, tf)) {
            let k2 = choose|k1: int| ray_target(board, piece.colour, r, f, dr2, df2, k1, tr, tf);
            assert(dr2 == dr && df2 == df) by (nonlinear_arith)
                requires
                    k >= 1,
                    k2 >= 1,
                    -1 <= dr <= 1,
                    -1 <= df <= 1,
                    !(dr == 0 && df == 0),
                    -1 <= dr2 <= 1,
                    -1 <= df2 <= 1,
                    !(dr2 == 0 && df2 == 0),
                    r + k2 * dr2 == r + k * dr,
                    f + k2 * df2 == f + k * df,
            ;
        }
    };
}

/// No piece's destination set contains its own starting square.
pub proof fn lemma_no_self_move(board: Board, piece: Piece)
    ensures
        !piece_dests(board, piece).contains((piece.location.row as int, piece.location.file as int)),
{
    let r = piece.location.row as int;
    let f = piece.location.file as int;
    lemma_ray_dests_ahead(board, piece.colour, r, f, 1, 0);
    lemma_ray_dests_ahead(board, piece.colour, r, f, -1, 0);
    lemma_ray_dests_ahead(board, piece.colour, r, f, 0, 1);
    lemma_ray_dests_ahead(board, piece.colour, r, f, 0, -1);
    lemma_ray_dests_ahead(board, piece.colour, r, f, 1, 1);
    lemma_ray_dests_ahead(board, piece.colour, r, f, 1, -1);
    lemma_ray_dests_ahead(board, piece.colour, r, f, -1, 1);
    lemma_ray_dests_ahead(board, piece.colour, r, f, -1, -1);
    match piece.colour {
        Colour::White => {},
        Colour::Black => {},
    }
}

/// Board clipping: an off-board square is never a destination, for any
/// piece.
pub proof fn lemma_moves_in_bounds(board: Board, piece: Piece, tr: int, tf: int)
    requires
        !board.in_bounds_spec(tr, tf),
    ensures
        !piece_dests(board, piece).contains((tr, tf)),
{
    let r = piece.location.row as int;
    let f = piece.location.file as int;
    lemma_ray_dests_ahead(board, piece.colour, r, f, 1, 0);
    lemma_ray_dests_ahead(board, piece.colour, r, f, -1, 0);
    lemma_ray_dests_ahead(board, piece.colour, r, f, 0, 1);
    lemma_ray_dests_ahead(board, piece.colour, r, f, 0, -1);
    lemma_ray_dests_ahead(board, piece.colour, r, f, 1, 1);
    lemma_ray_dests_ahead(board, piece.colour, r, f, 1, -1);
    lemma_ray_dests_ahead(board, piece.colour, r, f, -1, 1);
    lemma_ray_dests_ahead(board, piece.colour, r, f, -1, -1);
}

/// Pawn double-step law: the square two ranks ahead is a destination
/// exactly when the pawn stands on its starting rank, that square is on
/// the board, and both it and the intermediate square are empty.
pub proof fn lemma_pawn_double_step(board: Board, colour: Colour, r: int, f: int)
    ensures
        pawn_dests(board, colour, r, f).contains((r + 2 * pawn_dir(colour), f))
            <==> {
                &&& r == pawn_start_rank(board, colour)
                &&& board.in_bounds_spec(r + 2 * pawn_dir(colour), f)
                &&& board.occ(r + pawn_dir(colour), f) is None
                &&& board.occ(r + 2 * pawn_dir(colour), f) is None
            },
{
    match colour {
        Colour::White => {},
        Colour::Black => {},
    }
}

} // verus!
