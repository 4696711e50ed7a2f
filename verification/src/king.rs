//! King moves, castling included.
//!
//! The castle check here is purely structural: the right flag is set, the
//! king sits on its home square, the squares strictly between king and
//! rook are empty and the rook occupies its home corner.  Whether the king
//! is in check or crosses an attacked square is resolved later by the
//! legality filter.

use vstd::prelude::*;

use crate::board::Board;
use crate::board::CastlingRights;
use crate::board::Cell;
use crate::board::Color;
use crate::board::PieceKind;
use crate::board::free_for;
use crate::board::has_piece_at;
use crate::board::is_empty_at;
use crate::board::on_board;
use crate::motion::color_at;
use crate::motion::dist;
use crate::motion::groups_contain;
use crate::motion::lemma_groups_push;

verus! {

/// (tr, tf) is a plain king step from (r, f): one square away in any
/// direction, onto a board square free of its own color.
pub open spec fn king_step_dest(
    b: Seq<Cell>,
    us: Color,
    r: int,
    f: int,
    tr: int,
    tf: int,
) -> bool {
    &&& free_for(b, us, tr, tf)
    &&& dist(r, f, tr, tf) == 1
}

/// (tr, tf) is a structurally available castle destination for the king
/// on (r, f): the matching right is set, the king is on its home square,
/// the squares strictly between king and rook are empty and the rook is
/// on its home corner.
pub open spec fn castle_dest(
    b: Seq<Cell>,
    cr: CastlingRights,
    r: int,
    f: int,
    tr: int,
    tf: int,
) -> bool {
    match cell_is_king(b, r, f) {
        Some(Color::White) => r == 7 && f == 4 && ((cr.white_kingside && is_empty_at(b, 7, 5)
            && is_empty_at(b, 7, 6) && has_piece_at(b, 7, 7, Color::White, PieceKind::Rook) && tr
            == 7 && tf == 6) || (cr.white_queenside && is_empty_at(b, 7, 1) && is_empty_at(b, 7, 2)
            && is_empty_at(b, 7, 3) && has_piece_at(b, 7, 0, Color::White, PieceKind::Rook) && tr
            == 7 && tf == 2)),
        Some(Color::Black) => r == 0 && f == 4 && ((cr.black_kingside && is_empty_at(b, 0, 5)
            && is_empty_at(b, 0, 6) && has_piece_at(b, 0, 7, Color::Black, PieceKind::Rook) && tr
            == 0 && tf == 6) || (cr.black_queenside && is_empty_at(b, 0, 1) && is_empty_at(b, 0, 2)
            && is_empty_at(b, 0, 3) && has_piece_at(b, 0, 0, Color::Black, PieceKind::Rook) && tr
            == 0 && tf == 2)),
        None => false,
    }
}

/// The color of the king on (r, f), if a king stands there.
pub open spec fn cell_is_king(b: Seq<Cell>, r: int, f: int) -> Option<Color> {
    match crate::board::cell_at(b, r, f) {
        Cell::Piece { color, kind: PieceKind::King } => Some(color),
        _ => None,
    }
}

/// Any pseudo-legal king destination.
pub open spec fn king_dest(
    b: Seq<Cell>,
    cr: CastlingRights,
    us: Color,
    r: int,
    f: int,
    tr: int,
    tf: int,
) -> bool {
    king_step_dest(b, us, r, f, tr, tf) || castle_dest(b, cr, r, f, tr, tf)
}

/// A castle destination square is always empty.
pub proof fn lemma_castle_dest_empty(
    b: Seq<Cell>,
    cr: CastlingRights,
    r: int,
    f: int,
    tr: int,
    tf: int,
)
    requires
        castle_dest(b, cr, r, f, tr, tf),
    ensures
        on_board(tr, tf),
        is_empty_at(b, tr, tf),
{
}

/// The j-th king step target from (r, f), for j in 0..8.
pub open spec fn king_target(r: int, f: int, j: int) -> (int, int) {
    if j == 0 {
        (r, f + 1)
    } else if j == 1 {
        (r, f - 1)
    } else if j == 2 {
        (r + 1, f)
    } else if j == 3 {
        (r - 1, f)
    } else if j == 4 {
        (r + 1, f + 1)
    } else if j == 5 {
        (r + 1, f - 1)
    } else if j == 6 {
        (r - 1, f + 1)
    } else {
        (r - 1, f - 1)
    }
}

/// A king step destination is one of the eight step targets, and
/// conversely.
proof fn lemma_king_enum(b: Seq<Cell>, us: Color, r: int, f: int)
    ensures
        forall|tr: int, tf: int|
            #[trigger] king_step_dest(b, us, r, f, tr, tf) <==> exists|j: int|
                0 <= j < 8 && (tr, tf) == #[trigger] king_target(r, f, j) && free_for(
                    b,
                    us,
                    tr,
                    tf,
                ),
{
    assert forall|tr: int, tf: int| #[trigger] king_step_dest(b, us, r, f, tr, tf) implies exists|
        j: int,
    |
        0 <= j < 8 && (tr, tf) == #[trigger] king_target(r, f, j) && free_for(b, us, tr, tf) by {
        if tr == r && tf == f + 1 {
            assert((tr, tf) == king_target(r, f, 0));
        } else if tr == r && tf == f - 1 {
            assert((tr, tf) == king_target(r, f, 1));
        } else if tr == r + 1 && tf == f {
            assert((tr, tf) == king_target(r, f, 2));
        } else if tr == r - 1 && tf == f {
            assert((tr, tf) == king_target(r, f, 3));
        } else if tr == r + 1 && tf == f + 1 {
            assert((tr, tf) == king_target(r, f, 4));
        } else if tr == r + 1 && tf == f - 1 {
            assert((tr, tf) == king_target(r, f, 5));
        } else if tr == r - 1 && tf == f + 1 {
            assert((tr, tf) == king_target(r, f, 6));
        } else {
            assert((tr, tf) == king_target(r, f, 7));
        }
    }
}

/// The structurally available castle destinations for the king on `from`.
pub fn check_castle(board: &Board, from: (u8, u8), castling: CastlingRights) -> (moves: Vec<
    (u8, u8),
>)
    requires
        board.wf(),
        from.0 < 8,
        from.1 < 8,
    ensures
        forall|t: (u8, u8)|
            #[trigger] moves@.contains(t) <==> castle_dest(
                board@,
                castling,
                from.0 as int,
                from.1 as int,
                t.0 as int,
                t.1 as int,
            ),
{
    let mut moves: Vec<(u8, u8)> = Vec::new();
    let white_rook = Cell::Piece { color: Color::White, kind: PieceKind::Rook };
    let black_rook = Cell::Piece { color: Color::Black, kind: PieceKind::Rook };
    match board.at(from.0, from.1) {
        Cell::Piece { color: Color::White, kind: PieceKind::King } => {
            if from.0 == 7 && from.1 == 4 {
                if castling.white_kingside && board.at(7, 5) == Cell::Empty && board.at(7, 6)
                    == Cell::Empty && board.at(7, 7) == white_rook {
                    moves.push((7, 6));
                }
                if castling.white_queenside && board.at(7, 1) == Cell::Empty && board.at(7, 2)
                    == Cell::Empty && board.at(7, 3) == Cell::Empty && board.at(7, 0)
                    == white_rook {
                    moves.push((7, 2));
                }
            }
        },
        Cell::Piece { color: Color::Black, kind: PieceKind::King } => {
            if from.0 == 0 && from.1 == 4 {
                if castling.black_kingside && board.at(0, 5) == Cell::Empty && board.at(0, 6)
                    == Cell::Empty && board.at(0, 7) == black_rook {
                    moves.push((0, 6));
                }
                if castling.black_queenside && board.at(0, 1) == Cell::Empty && board.at(0, 2)
                    == Cell::Empty && board.at(0, 3) == Cell::Empty && board.at(0, 0)
                    == black_rook {
                    moves.push((0, 2));
                }
            }
        },
        _ => {},
    }
    proof {
        broadcast use vstd::seq_lib::lemma_seq_contains_after_push;
        assert forall|t: (u8, u8)| #[trigger] moves@.contains(t) implies castle_dest(
            board@,
            castling,
            from.0 as int,
            from.1 as int,
            t.0 as int,
            t.1 as int,
        ) by {
            let i = choose|i: int| 0 <= i < moves@.len() && moves@[i] == t;
        }
    }
    moves
}

/// Pseudo-legal king destinations: each reachable step is its own group,
/// with the structurally available castle destinations appended as one
/// final group when there are any.
pub fn get_possible_moves(from: (u8, u8), board: &Board, castling: CastlingRights) -> (res: Vec<
    Vec<(u8, u8)>,
>)
    requires
        board.wf(),
        from.0 < 8,
        from.1 < 8,
        !is_empty_at(board@, from.0 as int, from.1 as int),
    ensures
        forall|t: (u8, u8)|
            #[trigger] groups_contain(res@, t) <==> king_dest(
                board@,
                castling,
                color_at(board@, from.0 as int, from.1 as int),
                from.0 as int,
                from.1 as int,
                t.0 as int,
                t.1 as int,
            ),
        forall|i: int, t: (u8, u8), t2: (u8, u8)|
            #![trigger res@[i]@.contains(t), res@[i]@.contains(t2)]
            0 <= i < res@.len() && res@[i]@.contains(t) && res@[i]@.contains(t2)
                && !is_empty_at(board@, t.0 as int, t.1 as int) ==> t2 == t,
{
    let us = match board.at(from.0, from.1) {
        Cell::Piece { color, .. } => color,
        Cell::Empty => {
            proof {
                assert(false);
            }
            Color::White
        },
    };
    let ghost b = board@;
    let ghost r = from.0 as int;
    let ghost f = from.1 as int;
    let mut offsets: Vec<(i8, i8)> = Vec::new();
    offsets.push((0, 1));
    offsets.push((0, -1));
    offsets.push((1, 0));
    offsets.push((-1, 0));
    offsets.push((1, 1));
    offsets.push((1, -1));
    offsets.push((-1, 1));
    offsets.push((-1, -1));
    let mut res: Vec<Vec<(u8, u8)>> = Vec::new();
    let mut i: usize = 0;
    while i < 8
        invariant
            board.wf(),
            b == board@,
            us == color_at(b, r, f),
            r == from.0 as int,
            f == from.1 as int,
            on_board(r, f),
            !is_empty_at(b, r, f),
            offsets@.len() == 8,
            forall|j: int|
                0 <= j < 8 ==> (r + (#[trigger] offsets@[j]).0 as int, f + offsets@[j].1 as int)
                    == king_target(r, f, j),
            i <= 8,
            forall|j: int| 0 <= j < res@.len() ==> (#[trigger] res@[j])@.len() == 1,
            forall|t: (u8, u8)|
                #[trigger] groups_contain(res@, t) <==> exists|j: int|
                    0 <= j < i && (t.0 as int, t.1 as int) == #[trigger] king_target(r, f, j)
                        && free_for(b, us, t.0 as int, t.1 as int),
        decreases 8 - i,
    {
        let off: (i8, i8) = offsets[i];
        let tr = from.0 as i16 + off.0 as i16;
        let tf = from.1 as i16 + off.1 as i16;
        let ghost old_res = res@;
        if 0 <= tr && tr < 8 && 0 <= tf && tf < 8 {
            let t: (u8, u8) = (tr as u8, tf as u8);
            let keep = match board.at(t.0, t.1) {
                Cell::Empty => true,
                Cell::Piece { color, .. } => color != us,
            };
            if keep {
                let mut g: Vec<(u8, u8)> = Vec::new();
                g.push(t);
                proof {
                    lemma_king_step_pushed(b, us, r, f, i as int, old_res, g, t);
                }
                res.push(g);
            } else {
                proof {
                    lemma_king_step_skipped(b, us, r, f, i as int, old_res);
                }
            }
        } else {
            proof {
                lemma_king_step_skipped(b, us, r, f, i as int, old_res);
            }
        }
        i = i + 1;
    }
    let castle_moves = check_castle(board, from, castling);
    let ghost step_res = res@;
    let ghost castle_snap = castle_moves@;
    let has_castle = castle_moves.len() > 0;
    if has_castle {
        res.push(castle_moves);
    }
    proof {
        lemma_king_enum(b, us, r, f);
        if has_castle {
            assert(res@.len() == step_res.len() + 1);
            assert(forall|gi: int| 0 <= gi < step_res.len() ==> res@[gi] == step_res[gi]);
            assert(res@[step_res.len() as int]@ == castle_snap);
        } else {
            assert(res@ == step_res);
        }
        assert forall|t: (u8, u8)| #[trigger] groups_contain(res@, t) implies king_dest(
            b,
            castling,
            us,
            r,
            f,
            t.0 as int,
            t.1 as int,
        ) by {
            let i = choose|i: int| 0 <= i < res@.len() && #[trigger] res@[i]@.contains(t);
            if i < step_res.len() {
                assert(step_res[i]@.contains(t));
                assert(groups_contain(step_res, t));
                let j = choose|j: int|
                    0 <= j < 8 && (t.0 as int, t.1 as int) == #[trigger] king_target(r, f, j)
                        && free_for(b, us, t.0 as int, t.1 as int);
                assert(dist(r, f, t.0 as int, t.1 as int) == 1);
            } else {
                assert(castle_snap.contains(t));
            }
        }
        assert forall|t: (u8, u8)|
            king_dest(b, castling, us, r, f, t.0 as int, t.1 as int) implies #[trigger] groups_contain(
            res@,
            t,
        ) by {
            if king_step_dest(b, us, r, f, t.0 as int, t.1 as int) {
                assert(groups_contain(step_res, t));
                let gi = choose|gi: int|
                    0 <= gi < step_res.len() && #[trigger] step_res[gi]@.contains(t);
                assert(res@[gi]@.contains(t));
            } else {
                assert(castle_snap.contains(t));
                assert(castle_snap.len() > 0);
                assert(res@[res@.len() - 1]@.contains(t));
            }
        }
        assert forall|i: int, t: (u8, u8), t2: (u8, u8)|
            #![trigger res@[i]@.contains(t), res@[i]@.contains(t2)]
            0 <= i < res@.len() && res@[i]@.contains(t) && res@[i]@.contains(t2)
                && !is_empty_at(b, t.0 as int, t.1 as int) implies t2 == t by {
            if i < step_res.len() {
                assert(res@[i]@.len() == 1);
                let ci = choose|ci: int| 0 <= ci < res@[i]@.len() && res@[i]@[ci] == t;
                let ci2 = choose|ci2: int| 0 <= ci2 < res@[i]@.len() && res@[i]@[ci2] == t2;
            } else {
                assert(castle_snap.contains(t));
                assert(castle_dest(b, castling, r, f, t.0 as int, t.1 as int));
                lemma_castle_dest_empty(b, castling, r, f, t.0 as int, t.1 as int);
                assert(false);
            }
        }
    }
    res
}

/// The membership summary after covering the i-th step, when the target
/// was reachable and its singleton group was appended.
proof fn lemma_king_step_pushed(
    b: Seq<Cell>,
    us: Color,
    r: int,
    f: int,
    i: int,
    s: Seq<Vec<(u8, u8)>>,
    g: Vec<(u8, u8)>,
    e: (u8, u8),
)
    requires
        0 <= i < 8,
        forall|t: (u8, u8)|
            #[trigger] groups_contain(s, t) <==> exists|j: int|
                0 <= j < i && (t.0 as int, t.1 as int) == #[trigger] king_target(r, f, j)
                    && free_for(b, us, t.0 as int, t.1 as int),
        g@.len() == 1,
        g@[0] == e,
        (e.0 as int, e.1 as int) == king_target(r, f, i),
        free_for(b, us, e.0 as int, e.1 as int),
    ensures
        forall|t: (u8, u8)|
            #[trigger] groups_contain(s.push(g), t) <==> exists|j: int|
                0 <= j < i + 1 && (t.0 as int, t.1 as int) == #[trigger] king_target(r, f, j)
                    && free_for(b, us, t.0 as int, t.1 as int),
{
    assert forall|t: (u8, u8)| #[trigger] groups_contain(s.push(g), t) implies exists|j: int|
        0 <= j < i + 1 && (t.0 as int, t.1 as int) == #[trigger] king_target(r, f, j) && free_for(
        b,
        us,
        t.0 as int,
        t.1 as int,
    ) by {
        lemma_groups_push(s, g, t);
        if groups_contain(s, t) {
            let j = choose|j: int|
                0 <= j < i && (t.0 as int, t.1 as int) == #[trigger] king_target(r, f, j)
                    && free_for(b, us, t.0 as int, t.1 as int);
            assert((t.0 as int, t.1 as int) == king_target(r, f, j));
        } else {
            assert(g@.contains(t));
            let gi = choose|gi: int| 0 <= gi < g@.len() && g@[gi] == t;
            assert(t == e);
            assert((t.0 as int, t.1 as int) == king_target(r, f, i));
        }
    }
    assert forall|t: (u8, u8)|
        (exists|j: int|
            0 <= j < i + 1 && (t.0 as int, t.1 as int) == #[trigger] king_target(r, f, j)
                && free_for(b, us, t.0 as int, t.1 as int)) implies #[trigger] groups_contain(
        s.push(g),
        t,
    ) by {
        lemma_groups_push(s, g, t);
        let j = choose|j: int|
            0 <= j < i + 1 && (t.0 as int, t.1 as int) == #[trigger] king_target(r, f, j)
                && free_for(b, us, t.0 as int, t.1 as int);
        if j < i {
            assert(groups_contain(s, t));
        } else {
            assert(t.0 == e.0 && t.1 == e.1);
            assert(t == e);
            assert(g@[0] == t);
            assert(g@.contains(t));
        }
    }
}

/// The membership summary after covering the i-th step, when the target
/// was off the board or blocked and nothing was appended.
proof fn lemma_king_step_skipped(
    b: Seq<Cell>,
    us: Color,
    r: int,
    f: int,
    i: int,
    s: Seq<Vec<(u8, u8)>>,
)
    requires
        0 <= i < 8,
        forall|t: (u8, u8)|
            #[trigger] groups_contain(s, t) <==> exists|j: int|
                0 <= j < i && (t.0 as int, t.1 as int) == #[trigger] king_target(r, f, j)
                    && free_for(b, us, t.0 as int, t.1 as int),
        !free_for(b, us, king_target(r, f, i).0, king_target(r, f, i).1),
    ensures
        forall|t: (u8, u8)|
            #[trigger] groups_contain(s, t) <==> exists|j: int|
                0 <= j < i + 1 && (t.0 as int, t.1 as int) == #[trigger] king_target(r, f, j)
                    && free_for(b, us, t.0 as int, t.1 as int),
{
    assert forall|t: (u8, u8)|
        (exists|j: int|
            0 <= j < i + 1 && (t.0 as int, t.1 as int) == #[trigger] king_target(r, f, j)
                && free_for(b, us, t.0 as int, t.1 as int)) implies #[trigger] groups_contain(
        s,
        t,
    ) by {
        let j = choose|j: int|
            0 <= j < i + 1 && (t.0 as int, t.1 as int) == #[trigger] king_target(r, f, j)
                && free_for(b, us, t.0 as int, t.1 as int);
        assert(j < i);
    }
}

} // verus!
