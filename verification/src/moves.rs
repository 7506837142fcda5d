//! Move generation: ray casting for sliding pieces, fixed offsets for
//! knight and king, forward steps and diagonal captures for pawns.
//!
//! Each executable generator returns a duplicate-free `Vec<Location>` whose
//! members are exactly the destination set of the corresponding spec
//! function, so callers reason entirely over the mathematical sets.

use vstd::prelude::*;
use crate::board::{Board, Colour, Location, Piece, PieceKind};

verus! {

/// A one-square direction vector: each component in `{-1, 0, 1}`, not both 0.
pub open spec fn unit_dir(dr: int, df: int) -> bool {
    -1 <= dr <= 1 && -1 <= df <= 1 && !(dr == 0 && df == 0)
}

/// A piece of `colour` may end its move on `(r, f)`: the square is empty or
/// holds an opposing piece (a capture).
pub open spec fn capture_ok(board: Board, colour: Colour, r: int, f: int) -> bool {
    match board.occ(r, f) {
        None => true,
        Some(p) => p.colour != colour,
    }
}

/// How many one-square steps in direction `(dr, df)` can be taken from
/// `(r, f)` before leaving the board; a termination measure for rays.
pub open spec fn edge_dist(board: Board, r: int, f: int, dr: int, df: int) -> int {
    if dr == 1 {
        board.rows - r
    } else if dr == -1 {
        r + 1
    } else if df == 1 {
        board.files - f
    } else {
        f + 1
    }
}

/// The destinations of a ray cast from `(r, f)` in direction `(dr, df)`:
/// step outward square by square; an empty square is a destination and the
/// ray continues; the first occupied square ends the ray, and is itself a
/// destination exactly when it holds an opposing piece; leaving the board
/// ends the ray.
pub open spec fn ray_dests(board: Board, colour: Colour, r: int, f: int, dr: int, df: int) -> Set<(int, int)>
    decreases edge_dist(board, r, f, dr, df),
{
    if !unit_dir(dr, df) {
        Set::empty()
    } else {
        let nr = r + dr;
        let nf = f + df;
        if !board.in_bounds_spec(nr, nf) {
            Set::empty()
        } else {
            match board.occ(nr, nf) {
                None => ray_dests(board, colour, nr, nf, dr, df).insert((nr, nf)),
                Some(p) => if p.colour == colour {
                    Set::empty()
                } else {
                    Set::empty().insert((nr, nf))
                },
            }
        }
    }
}

/// The squares strictly between `(r, f)` and the square `k` steps away in
/// direction `(dr, df)` are all on the board and empty.
pub open spec fn path_clear(board: Board, r: int, f: int, dr: int, df: int, k: int) -> bool
    decreases k,
{
    k <= 1 || (board.in_bounds_spec(r + dr, f + df)
               && board.occ(r + dr, f + df) is None
               && path_clear(board, r + dr, f + df, dr, df, k - 1))
}

/// `(tr, tf)` is a legal ray destination exactly `k` steps from `(r, f)` in
/// direction `(dr, df)`: on the board, reached over empty squares, and
/// empty or a capture itself.
pub open spec fn ray_target(board: Board, colour: Colour, r: int, f: int, dr: int, df: int, k: int, tr: int, tf: int) -> bool {
    &&& 1 <= k
    &&& tr == r + k * dr
    &&& tf == f + k * df
    &&& board.in_bounds_spec(tr, tf)
    &&& path_clear(board, r, f, dr, df, k)
    &&& capture_ok(board, colour, tr, tf)
}

/// A single one-square (or knight-jump) step from `(r, f)` by `(dr, df)`
/// lands on `(tr, tf)`: on the board and not blocked by a friendly piece.
pub open spec fn step_dest(board: Board, colour: Colour, r: int, f: int, dr: int, df: int, tr: int, tf: int) -> bool {
    &&& tr == r + dr
    &&& tf == f + df
    &&& board.in_bounds_spec(tr, tf)
    &&& capture_ok(board, colour, tr, tf)
}

/// A knight on `(r, f)` may move to `(tr, tf)`: one of the eight jump
/// offsets, on the board, not blocked by a friendly piece.
pub open spec fn knight_dest(board: Board, colour: Colour, r: int, f: int, tr: int, tf: int) -> bool {
    ||| step_dest(board, colour, r, f, 1, 2, tr, tf)
    ||| step_dest(board, colour, r, f, 2, 1, tr, tf)
    ||| step_dest(board, colour, r, f, 2, -1, tr, tf)
    ||| step_dest(board, colour, r, f, 1, -2, tr, tf)
    ||| step_dest(board, colour, r, f, -1, -2, tr, tf)
    ||| step_dest(board, colour, r, f, -2, -1, tr, tf)
    ||| step_dest(board, colour, r, f, -2, 1, tr, tf)
    ||| step_dest(board, colour, r, f, -1, 2, tr, tf)
}

/// A king on `(r, f)` may move to `(tr, tf)`: one square in any direction,
/// on the board, not blocked by a friendly piece.
pub open spec fn king_dest(board: Board, colour: Colour, r: int, f: int, tr: int, tf: int) -> bool {
    ||| step_dest(board, colour, r, f, 1, 0, tr, tf)
    ||| step_dest(board, colour, r, f, 1, 1, tr, tf)
    ||| step_dest(board, colour, r, f, 0, 1, tr, tf)
    ||| step_dest(board, colour, r, f, -1, 1, tr, tf)
    ||| step_dest(board, colour, r, f, -1, 0, tr, tf)
    ||| step_dest(board, colour, r, f, -1, -1, tr, tf)
    ||| step_dest(board, colour, r, f, 0, -1, tr, tf)
    ||| step_dest(board, colour, r, f, 1, -1, tr, tf)
}

pub open spec fn knight_dests(board: Board, colour: Colour, r: int, f: int) -> Set<(int, int)> {
    Set::new(|t: (int, int)| knight_dest(board, colour, r, f, t.0, t.1))
}

pub open spec fn king_dests(board: Board, colour: Colour, r: int, f: int) -> Set<(int, int)> {
    Set::new(|t: (int, int)| king_dest(board, colour, r, f, t.0, t.1))
}

/// The row direction a pawn advances in: White toward increasing rows,
/// Black toward decreasing rows.
pub open spec fn pawn_dir(colour: Colour) -> int {
    match colour {
        Colour::White => 1,
        Colour::Black => -1,
    }
}

/// The rank a pawn double-steps from: row 1 for White, row `rows - 2` for
/// Black, on a 0-indexed board.
pub open spec fn pawn_start_rank(board: Board, colour: Colour) -> int {
    match colour {
        Colour::White => 1,
        Colour::Black => board.rows - 2,
    }
}

/// A pawn of `colour` on `(r, f)` may move to `(tr, tf)`: a single forward
/// step onto an empty square; a double step from the starting rank over two
/// empty squares; or a forward-diagonal capture of an opposing piece.
pub open spec fn pawn_dest(board: Board, colour: Colour, r: int, f: int, tr: int, tf: int) -> bool {
    let d = pawn_dir(colour);
    ||| (tr == r + d && tf == f
         && board.in_bounds_spec(tr, tf)
         && board.occ(tr, tf) is None)
    ||| (tr == r + 2 * d && tf == f
         && r == pawn_start_rank(board, colour)
         && board.in_bounds_spec(tr, tf)
         && board.occ(r + d, f) is None
         && board.occ(tr, tf) is None)
    ||| (tr == r + d && (tf == f + 1 || tf == f - 1)
         && board.in_bounds_spec(tr, tf)
         && (board.occ(tr, tf) matches Some(p) && p.colour != colour))
}

pub open spec fn pawn_dests(board: Board, colour: Colour, r: int, f: int) -> Set<(int, int)> {
    Set::new(|t: (int, int)| pawn_dest(board, colour, r, f, t.0, t.1))
}

/// A rook's destinations: rays along the four orthogonal directions.
pub open spec fn orthogonal_dests(board: Board, colour: Colour, r: int, f: int) -> Set<(int, int)> {
    ray_dests(board, colour, r, f, 1, 0)
        .union(ray_dests(board, colour, r, f, -1, 0))
        .union(ray_dests(board, colour, r, f, 0, 1))
        .union(ray_dests(board, colour, r, f, 0, -1))
}

/// A bishop's destinations: rays along the four diagonal directions.
pub open spec fn diagonal_dests(board: Board, colour: Colour, r: int, f: int) -> Set<(int, int)> {
    ray_dests(board, colour, r, f, 1, 1)
        .union(ray_dests(board, colour, r, f, 1, -1))
        .union(ray_dests(board, colour, r, f, -1, 1))
        .union(ray_dests(board, colour, r, f, -1, -1))
}

/// A queen's destinations: rook and bishop rays together.
pub open spec fn queen_dests(board: Board, colour: Colour, r: int, f: int) -> Set<(int, int)> {
    orthogonal_dests(board, colour, r, f).union(diagonal_dests(board, colour, r, f))
}

/// The full destination set of `piece` on `board`.
pub open spec fn piece_dests(board: Board, piece: Piece) -> Set<(int, int)> {
    let r = piece.location.row as int;
    let f = piece.location.file as int;
    match piece.kind {
        PieceKind::Pawn => pawn_dests(board, piece.colour, r, f),
        PieceKind::Knight => knight_dests(board, piece.colour, r, f),
        PieceKind::Bishop => diagonal_dests(board, piece.colour, r, f),
        PieceKind::Rook => orthogonal_dests(board, piece.colour, r, f),
        PieceKind::Queen => queen_dests(board, piece.colour, r, f),
        PieceKind::King => king_dests(board, piece.colour, r, f),
    }
}

/// Whether `v` already holds `loc`.
fn contains_loc(v: &Vec<Location>, loc: Location) -> (found: bool)
    ensures
        found == v@.contains(loc),
{
    let mut i: usize = 0;
    while i < v.len()
        invariant
            0 <= i <= v@.len(),
            forall|j: int| 0 <= j < i ==> v@[j] != loc,
        decreases v@.len() - i,
    {
        if v[i] == loc {
            assert(v@.contains(loc)) by {
                assert(v@[i as int] == loc);
            }
            return true;
        }
        i = i + 1;
    }
    false
}

/// Appends `loc` unless it is already present, keeping `out` duplicate-free.
fn push_unique(out: &mut Vec<Location>, loc: Location)
    requires
        old(out)@.no_duplicates(),
    ensures
        final(out)@.no_duplicates(),
        forall|l: Location| final(out)@.contains(l) <==> old(out)@.contains(l) || l == loc,
{
    if !contains_loc(out, loc) {
        let ghost before = out@;
        out.push(loc);
        proof {
            assert forall|l: Location| out@.contains(l) <==> before.contains(l) || l == loc by {
                if before.contains(l) {
                    let j = choose|j: int| 0 <= j < before.len() && before[j] == l;
                    assert(out@[j] == l);
                }
                if l == loc {
                    assert(out@[before.len() as int] == l);
                }
                if out@.contains(l) {
                    let j = choose|j: int| 0 <= j < out@.len() && out@[j] == l;
                    if j < before.len() {
                        assert(before[j] == l);
                    }
                }
            }
            assert(out@.no_duplicates()) by {
                assert(forall|i: int, j: int|
                    0 <= i < out@.len() && 0 <= j < out@.len() && i != j && j == before.len() as int
                    ==> out@[i] != out@[j]);
            }
        }
    }
}

/// The square one `(dr, df)` step from `(r, f)`, if it is on the board.
fn shifted(board: &Board, r: i32, f: i32, dr: i32, df: i32) -> (res: Option<Location>)
    requires
        -2 <= dr <= 2,
        -2 <= df <= 2,
    ensures
        match res {
            Some(l) => {
                &&& l.row == r + dr
                &&& l.file == f + df
                &&& board.in_bounds_spec(l.row as int, l.file as int)
            },
            None => !board.in_bounds_spec(r + dr, f + df),
        },
{
    let nr: i64 = r as i64 + dr as i64;
    let nf: i64 = f as i64 + df as i64;
    if 0 <= nr && nr < board.rows as i64 && 0 <= nf && nf < board.files as i64 {
        Some(Location { row: nr as i32, file: nf as i32 })
    } else {
        None
    }
}

/// The membership relation a partly-cast ray maintains: `cur` holds what
/// `init` held, plus the destinations of the full ray (`full`) that the
/// walk has already passed; `rest` is what the walk has still to visit.
spec fn ray_progress(init: Seq<Location>, cur: Seq<Location>, full: Set<(int, int)>, rest: Set<(int, int)>) -> bool {
    forall|l: Location| cur.contains(l) <==>
        init.contains(l)
        || (full.contains((l.row as int, l.file as int))
            && !rest.contains((l.row as int, l.file as int)))
}

/// Taking one unblocked step: the walk appends the stepped-onto square and
/// the remaining ray shrinks by it.
proof fn lemma_ray_progress_step(
    init: Seq<Location>, pre: Seq<Location>, post: Seq<Location>,
    full: Set<(int, int)>, rest: Set<(int, int)>, nrest: Set<(int, int)>, next: Location,
)
    requires
        ray_progress(init, pre, full, rest),
        forall|l: Location| post.contains(l) <==> pre.contains(l) || l == next,
        rest == nrest.insert((next.row as int, next.file as int)),
        !nrest.contains((next.row as int, next.file as int)),
        full.contains((next.row as int, next.file as int)),
    ensures
        ray_progress(init, post, full, nrest),
{
    let nextp = (next.row as int, next.file as int);
    assert forall|l: Location| post.contains(l) <==>
        init.contains(l)
        || (full.contains((l.row as int, l.file as int))
            && !nrest.contains((l.row as int, l.file as int))) by {
        let lp = (l.row as int, l.file as int);
        assert(post.contains(l) <==> pre.contains(l) || l == next);
        assert(pre.contains(l) <==> init.contains(l) || (full.contains(lp) && !rest.contains(lp)));
        assert(rest.contains(lp) <==> nrest.contains(lp) || lp == nextp);
        if lp == nextp {
            assert(l == next);
        }
    };
}

/// When the remaining ray is exhausted, the walk holds exactly the initial
/// contents plus the whole ray.
proof fn lemma_ray_progress_done(init: Seq<Location>, cur: Seq<Location>, full: Set<(int, int)>)
    requires
        ray_progress(init, cur, full, Set::empty()),
    ensures
        forall|l: Location| cur.contains(l) <==>
            init.contains(l) || full.contains((l.row as int, l.file as int)),
{
    assert forall|l: Location| cur.contains(l) <==>
        init.contains(l) || full.contains((l.row as int, l.file as int)) by {
        let lp = (l.row as int, l.file as int);
        assert(cur.contains(l) <==> init.contains(l) || (full.contains(lp) && !Set::<(int, int)>::empty().contains(lp)));
    };
}

/// Casts one ray and appends its destinations to `out`.
pub fn ray_moves(board: &Board, colour: Colour, start: Location, dr: i32, df: i32, out: &mut Vec<Location>)
    requires
        board.wf(),
        unit_dir(dr as int, df as int),
        old(out)@.no_duplicates(),
    ensures
        final(out)@.no_duplicates(),
        forall|l: Location| final(out)@.contains(l) <==>
            old(out)@.contains(l)
            || ray_dests(*board, colour, start.row as int, start.file as int, dr as int, df as int)
                   .contains((l.row as int, l.file as int)),
{
    let ghost full = ray_dests(*board, colour, start.row as int, start.file as int, dr as int, df as int);
    let ghost out0 = out@;
    let mut cr: i32 = start.row;
    let mut cf: i32 = start.file;
    loop
        invariant_except_break
            board.wf(),
            unit_dir(dr as int, df as int),
            full == ray_dests(*board, colour, start.row as int, start.file as int, dr as int, df as int),
            out@.no_duplicates(),
            ray_dests(*board, colour, cr as int, cf as int, dr as int, df as int).subset_of(full),
            ray_progress(out0, out@, full, ray_dests(*board, colour, cr as int, cf as int, dr as int, df as int)),
        ensures
            out@.no_duplicates(),
            forall|l: Location| out@.contains(l) <==>
                out0.contains(l) || full.contains((l.row as int, l.file as int)),
        decreases edge_dist(*board, cr as int, cf as int, dr as int, df as int),
    {
        let ghost rest = ray_dests(*board, colour, cr as int, cf as int, dr as int, df as int);
        match shifted(board, cr, cf, dr, df) {
            None => {
                proof {
                    assert(rest =~= Set::<(int, int)>::empty());
                    lemma_ray_progress_done(out0, out@, full);
                }
                break;
            },
            Some(next) => {
                let ghost nextp = (next.row as int, next.file as int);
                match board.occupant_at(next) {
                    None => {
                        let ghost nrest = ray_dests(*board, colour, nextp.0, nextp.1, dr as int, df as int);
                        proof {
                            lemma_ray_dests_ahead(*board, colour, nextp.0, nextp.1, dr as int, df as int);
                            assert(rest == nrest.insert(nextp));
                            assert(!nrest.contains(nextp));
                            assert(rest.contains(nextp));
                            assert(full.contains(nextp));
                        }
                        let ghost pre = out@;
                        push_unique(out, next);
                        proof {
                            lemma_ray_progress_step(out0, pre, out@, full, rest, nrest, next);
                            assert forall|t: (int, int)| #[trigger] nrest.contains(t) implies full.contains(t) by {
                                assert(rest.contains(t));
                            };
                        }
                        cr = next.row;
                        cf = next.file;
                    },
                    Some(p) => {
                        if p.colour != colour {
                            let ghost pre = out@;
                            push_unique(out, next);
                            proof {
                                assert(rest == Set::<(int, int)>::empty().insert(nextp));
                                assert(!Set::<(int, int)>::empty().contains(nextp));
                                assert(rest.contains(nextp));
                                assert(full.contains(nextp));
                                lemma_ray_progress_step(out0, pre, out@, full, rest, Set::empty(), next);
                                lemma_ray_progress_done(out0, out@, full);
                            }
                        } else {
                            proof {
                                assert(rest =~= Set::<(int, int)>::empty());
                                lemma_ray_progress_done(out0, out@, full);
                            }
                        }
                        break;
                    },
                }
            },
        }
    }
}

/// Tries a single offset step from `start`, appending the destination when
/// it is on the board and not held by a friendly piece.
fn try_step(board: &Board, colour: Colour, start: Location, dr: i32, df: i32, out: &mut Vec<Location>)
    requires
        board.wf(),
        -2 <= dr <= 2,
        -2 <= df <= 2,
        old(out)@.no_duplicates(),
    ensures
        final(out)@.no_duplicates(),
        forall|l: Location| final(out)@.contains(l) <==>
            old(out)@.contains(l)
            || step_dest(*board, colour, start.row as int, start.file as int, dr as int, df as int,
                         l.row as int, l.file as int),
{
    match shifted(board, start.row, start.file, dr, df) {
        None => {},
        Some(next) => {
            let capture_or_free = match board.occupant_at(next) {
                None => true,
                Some(p) => p.colour != colour,
            };
            if capture_or_free {
                let ghost pre = out@;
                push_unique(out, next);
                proof {
                    assert forall|l: Location| out@.contains(l) <==>
                        pre.contains(l)
                        || step_dest(*board, colour, start.row as int, start.file as int,
                                     dr as int, df as int, l.row as int, l.file as int) by {
                        if l.row as int == next.row as int && l.file as int == next.file as int {
                            assert(l == next);
                        }
                    };
                }
            }
        },
    }
}

/// A knight's moves: the eight jump offsets, clipped to the board and to
/// squares not held by a friendly piece.
pub fn knight_moves(board: &Board, colour: Colour, start: Location) -> (moves: Vec<Location>)
    requires
        board.wf(),
    ensures
        moves@.no_duplicates(),
        forall|l: Location| moves@.contains(l) <==>
            knight_dests(*board, colour, start.row as int, start.file as int)
                .contains((l.row as int, l.file as int)),
{
    let mut out: Vec<Location> = Vec::new();
    try_step(board, colour, start, 1, 2, &mut out);
    try_step(board, colour, start, 2, 1, &mut out);
    try_step(board, colour, start, 2, -1, &mut out);
    try_step(board, colour, start, 1, -2, &mut out);
    try_step(board, colour, start, -1, -2, &mut out);
    try_step(board, colour, start, -2, -1, &mut out);
    try_step(board, colour, start, -2, 1, &mut out);
    try_step(board, colour, start, -1, 2, &mut out);
    out
}

/// A king's moves: one square in each of the eight directions, clipped to
/// the board and to squares not held by a friendly piece.
pub fn king_moves(board: &Board, colour: Colour, start: Location) -> (moves: Vec<Location>)
    requires
        board.wf(),
    ensures
        moves@.no_duplicates(),
        forall|l: Location| moves@.contains(l) <==>
            king_dests(*board, colour, start.row as int, start.file as int)
                .contains((l.row as int, l.file as int)),
{
    let mut out: Vec<Location> = Vec::new();
    try_step(board, colour, start, 1, 0, &mut out);
    try_step(board, colour, start, 1, 1, &mut out);
    try_step(board, colour, start, 0, 1, &mut out);
    try_step(board, colour, start, -1, 1, &mut out);
    try_step(board, colour, start, -1, 0, &mut out);
    try_step(board, colour, start, -1, -1, &mut out);
    try_step(board, colour, start, 0, -1, &mut out);
    try_step(board, colour, start, 1, -1, &mut out);
    out
}

/// Pawn move generation, shared by both colours.
fn pawn_moves_impl(board: &Board, colour: Colour, location: Location) -> (moves: Vec<Location>)
    requires
        board.wf(),
    ensures
        moves@.no_duplicates(),
        forall|l: Location| moves@.contains(l) <==>
            pawn_dests(*board, colour, location.row as int, location.file as int)
                .contains((l.row as int, l.file as int)),
{
    let d: i32 = match colour {
        Colour::White => 1,
        Colour::Black => -1,
    };
    let start_rank: i32 = match colour {
        Colour::White => 1,
        Colour::Black => board.rows - 2,
    };
    let mut out: Vec<Location> = Vec::new();
    // Forward steps: the single step must land on an empty square, and the
    // double step additionally starts from the starting rank and crosses
    // only empty squares.
    match shifted(board, location.row, location.file, d, 0) {
        Some(single) => {
            match board.occupant_at(single) {
                None => {
                    push_unique(&mut out, single);
                    if location.row == start_rank {
                        match shifted(board, location.row, location.file, 2 * d, 0) {
                            Some(double) => {
                                match board.occupant_at(double) {
                                    None => {
                                        push_unique(&mut out, double);
                                    },
                                    Some(_) => {},
                                }
                            },
                            None => {},
                        }
                    }
                },
                Some(_) => {},
            }
        },
        None => {},
    }
    // Diagonal captures.
    match shifted(board, location.row, location.file, d, 1) {
        Some(target) => {
            match board.occupant_at(target) {
                Some(p) => {
                    if p.colour != colour {
                        push_unique(&mut out, target);
                    }
                },
                None => {},
            }
        },
        None => {},
    }
    match shifted(board, location.row, location.file, d, -1) {
        Some(target) => {
            match board.occupant_at(target) {
                Some(p) => {
                    if p.colour != colour {
                        push_unique(&mut out, target);
                    }
                },
                None => {},
            }
        },
        None => {},
    }
    proof {
        assert forall|l: Location| out@.contains(l) <==>
            pawn_dests(*board, colour, location.row as int, location.file as int)
                .contains((l.row as int, l.file as int)) by {
            let r = location.row as int;
            let f = location.file as int;
            assert(pawn_dests(*board, colour, r, f).contains((l.row as int, l.file as int))
                == pawn_dest(*board, colour, r, f, l.row as int, l.file as int));
        };
    }
    out
}

/// A white pawn's moves: forward toward increasing rows, double step from
/// rank 1, diagonal captures of black pieces.
pub fn white_pawn_moves(board: &Board, location: Location) -> (moves: Vec<Location>)
    requires
        board.wf(),
    ensures
        moves@.no_duplicates(),
        forall|l: Location| moves@.contains(l) <==>
            pawn_dests(*board, Colour::White, location.row as int, location.file as int)
                .contains((l.row as int, l.file as int)),
{
    pawn_moves_impl(board, Colour::White, location)
}

/// A black pawn's moves: forward toward decreasing rows, double step from
/// rank `rows - 2`, diagonal captures of white pieces.
pub fn black_pawn_moves(board: &Board, location: Location) -> (moves: Vec<Location>)
    requires
        board.wf(),
    ensures
        moves@.no_duplicates(),
        forall|l: Location| moves@.contains(l) <==>
            pawn_dests(*board, Colour::Black, location.row as int, location.file as int)
                .contains((l.row as int, l.file as int)),
{
    pawn_moves_impl(board, Colour::Black, location)
}

/// The destinations along the four diagonal rays: a bishop's moves, and
/// half of a queen's.
pub fn diagonal_positions(board: &Board, colour: Colour, start: Location) -> (moves: Vec<Location>)
    requires
        board.wf(),
    ensures
        moves@.no_duplicates(),
        forall|l: Location| moves@.contains(l) <==>
            diagonal_dests(*board, colour, start.row as int, start.file as int)
                .contains((l.row as int, l.file as int)),
{
    let mut out: Vec<Location> = Vec::new();
    ray_moves(board, colour, start, 1, 1, &mut out);
    ray_moves(board, colour, start, 1, -1, &mut out);
    ray_moves(board, colour, start, -1, 1, &mut out);
    ray_moves(board, colour, start, -1, -1, &mut out);
    out
}

/// The destinations along the four orthogonal rays: a rook's moves, and
/// the other half of a queen's.
pub fn orthogonal_positions(board: &Board, colour: Colour, start: Location) -> (moves: Vec<Location>)
    requires
        board.wf(),
    ensures
        moves@.no_duplicates(),
        forall|l: Location| moves@.contains(l) <==>
            orthogonal_dests(*board, colour, start.row as int, start.file as int)
                .contains((l.row as int, l.file as int)),
{
    let mut out: Vec<Location> = Vec::new();
    ray_moves(board, colour, start, 1, 0, &mut out);
    ray_moves(board, colour, start, -1, 0, &mut out);
    ray_moves(board, colour, start, 0, 1, &mut out);
    ray_moves(board, colour, start, 0, -1, &mut out);
    out
}

/// Every ray destination is on the board and strictly ahead of the ray's
/// origin in each moving component of the direction.
pub proof fn lemma_ray_dests_ahead(board: Board, colour: Colour, r: int, f: int, dr: int, df: int)
    ensures
        forall|t: (int, int)| #[trigger] ray_dests(board, colour, r, f, dr, df).contains(t) ==> {
            &&& board.in_bounds_spec(t.0, t.1)
            &&& (dr == 1 ==> t.0 > r)
            &&& (dr == -1 ==> t.0 < r)
            &&& (dr == 0 ==> t.0 == r)
            &&& (df == 1 ==> t.1 > f)
            &&& (df == -1 ==> t.1 < f)
            &&& (df == 0 ==> t.1 == f)
        },
    decreases edge_dist(board, r, f, dr, df),
{
    let s = ray_dests(board, colour, r, f, dr, df);
    if unit_dir(dr, df) {
        let nr = r + dr;
        let nf = f + df;
        if board.in_bounds_spec(nr, nf) {
            match board.occ(nr, nf) {
                None => {
                    lemma_ray_dests_ahead(board, colour, nr, nf, dr, df);
                    let rec = ray_dests(board, colour, nr, nf, dr, df);
                    assert(s == rec.insert((nr, nf)));
                    assert forall|t: (int, int)| #[trigger] s.contains(t) implies {
                        &&& board.in_bounds_spec(t.0, t.1)
                        &&& (dr == 1 ==> t.0 > r)
                        &&& (dr == -1 ==> t.0 < r)
                        &&& (dr == 0 ==> t.0 == r)
                        &&& (df == 1 ==> t.1 > f)
                        &&& (df == -1 ==> t.1 < f)
                        &&& (df == 0 ==> t.1 == f)
                    } by {
                        if t != (nr, nf) {
                            assert(rec.contains(t));
                        }
                    };
                },
                Some(p) => {
                    if p.colour == colour {
                        assert(s == Set::<(int, int)>::empty());
                    } else {
                        assert(s == Set::<(int, int)>::empty().insert((nr, nf)));
                    }
                },
            }
        } else {
            assert(s == Set::<(int, int)>::empty());
        }
    } else {
        assert(s == Set::<(int, int)>::empty());
    }
}

} // verus!
