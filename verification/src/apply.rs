//! Applying a legal move to a game state.
//!
//! The move relocates the piece and vacates its origin; on top of that a
//! double pawn advance sets the en-passant target, an en-passant capture
//! removes the passed pawn, a pawn reaching the far rank promotes to a
//! queen, a castling king brings its rook across, and the castling
//! rights, halfmove clock, fullmove number and side to move are updated.

use vstd::prelude::*;

use crate::board::CastlingRights;
use crate::board::Cell;
use crate::board::Color;
use crate::board::PieceKind;
use crate::board::cell_at;
use crate::board::opposite;
use crate::board::sq_idx;
use crate::fen_parser::Gamestate;
use crate::motion::iabs;
use crate::possible_moves::legal_move;
use crate::possible_moves::lemma_piece_dest_on_board;
use crate::possible_moves::scratch_board;
use crate::possible_moves::unique_king;

verus! {

pub open spec fn is_pawn(c: Cell) -> bool {
    c matches Cell::Piece { kind: PieceKind::Pawn, .. }
}

/// The board after the move: piece relocated, then the passed pawn of an
/// en-passant capture removed, then a far-rank pawn promoted to a queen,
/// then a castling king's rook brought across.
pub open spec fn applied_board(
    b: Seq<Cell>,
    ep: (int, int),
    from: (int, int),
    to: (int, int),
) -> Seq<Cell> {
    let piece = cell_at(b, from.0, from.1);
    let b1 = scratch_board(b, from.0, from.1, to.0, to.1);
    let b2 = if is_pawn(piece) && iabs(from.0 - to.0) != 2 && to == ep {
        b1.update(sq_idx(from.0, to.1), Cell::Empty)
    } else {
        b1
    };
    let b3 = if is_pawn(piece) && (to.0 == 0 || to.0 == 7) {
        b2.update(
            sq_idx(to.0, to.1),
            Cell::Piece { color: crate::motion::color_at(b, from.0, from.1), kind: PieceKind::Queen },
        )
    } else {
        b2
    };
    if piece == (Cell::Piece { color: Color::White, kind: PieceKind::King }) && from == (7int, 4int) {
        if to == (7int, 6int) {
            b3.update(sq_idx(7, 5), b3[sq_idx(7, 7)]).update(sq_idx(7, 7), Cell::Empty)
        } else if to == (7int, 2int) {
            b3.update(sq_idx(7, 3), b3[sq_idx(7, 0)]).update(sq_idx(7, 0), Cell::Empty)
        } else {
            b3
        }
    } else if piece == (Cell::Piece { color: Color::Black, kind: PieceKind::King }) && from == (0int, 4int) {
        if to == (0int, 6int) {
            b3.update(sq_idx(0, 5), b3[sq_idx(0, 7)]).update(sq_idx(0, 7), Cell::Empty)
        } else if to == (0int, 2int) {
            b3.update(sq_idx(0, 3), b3[sq_idx(0, 0)]).update(sq_idx(0, 0), Cell::Empty)
        } else {
            b3
        }
    } else {
        b3
    }
}

/// The en-passant target after the move: the passed-over square of a
/// double pawn advance, else none.
pub open spec fn applied_ep(b: Seq<Cell>, from: (int, int), to: (int, int)) -> Option<(u8, u8)> {
    if is_pawn(cell_at(b, from.0, from.1)) && iabs(from.0 - to.0) == 2 {
        Some((((from.0 + to.0) / 2) as u8, from.1 as u8))
    } else {
        None
    }
}

/// The halfmove clock after the move: reset by a pawn move or a capture,
/// else one more.
pub open spec fn applied_halfmove(b: Seq<Cell>, from: (int, int), to: (int, int), h: u8) -> u8 {
    if is_pawn(cell_at(b, from.0, from.1)) || cell_at(b, to.0, to.1) != Cell::Empty {
        0
    } else {
        (h + 1) as u8
    }
}

/// The castling rights after the move: a captured home rook clears its
/// flag, a king move from home clears both of its side's flags, a rook
/// move from its corner clears that corner's flag.
pub open spec fn applied_castling(
    b: Seq<Cell>,
    from: (int, int),
    to: (int, int),
    cr: CastlingRights,
) -> CastlingRights {
    let piece = cell_at(b, from.0, from.1);
    let target = cell_at(b, to.0, to.1);
    let c1 = if target == (Cell::Piece { color: Color::White, kind: PieceKind::Rook }) {
        if to == (7int, 0int) {
            CastlingRights { white_queenside: false, ..cr }
        } else if to == (7int, 7int) {
            CastlingRights { white_kingside: false, ..cr }
        } else {
            cr
        }
    } else if target == (Cell::Piece { color: Color::Black, kind: PieceKind::Rook }) {
        if to == (0int, 0int) {
            CastlingRights { black_queenside: false, ..cr }
        } else if to == (0int, 7int) {
            CastlingRights { black_kingside: false, ..cr }
        } else {
            cr
        }
    } else {
        cr
    };
    if piece == (Cell::Piece { color: Color::White, kind: PieceKind::King }) && from == (7int, 4int) {
        CastlingRights { white_kingside: false, white_queenside: false, ..c1 }
    } else if piece == (Cell::Piece { color: Color::Black, kind: PieceKind::King }) && from == (0int, 4int) {
        CastlingRights { black_kingside: false, black_queenside: false, ..c1 }
    } else if piece == (Cell::Piece { color: Color::White, kind: PieceKind::Rook }) {
        if from == (7int, 0int) {
            CastlingRights { white_queenside: false, ..c1 }
        } else if from == (7int, 7int) {
            CastlingRights { white_kingside: false, ..c1 }
        } else {
            c1
        }
    } else if piece == (Cell::Piece { color: Color::Black, kind: PieceKind::Rook }) {
        if from == (0int, 0int) {
            CastlingRights { black_queenside: false, ..c1 }
        } else if from == (0int, 7int) {
            CastlingRights { black_kingside: false, ..c1 }
        } else {
            c1
        }
    } else {
        c1
    }
}

/// Apply a legal move of the side to move, yielding the next state.
pub fn apply_move(game: &Gamestate, from: (u8, u8), to: (u8, u8)) -> (r: Gamestate)
    requires
        game.wf(),
        unique_king(game.board@, game.player),
        legal_move(
            game.board@,
            game.ep_square(),
            game.castling,
            game.player,
            (from.0 as int, from.1 as int),
            (to.0 as int, to.1 as int),
        ),
        game.halfmove < 255,
        game.fullmove < 65535,
    ensures
        r.wf(),
        r.board@ == applied_board(
            game.board@,
            game.ep_square(),
            (from.0 as int, from.1 as int),
            (to.0 as int, to.1 as int),
        ),
        r.player == opposite(game.player),
        r.castling == applied_castling(
            game.board@,
            (from.0 as int, from.1 as int),
            (to.0 as int, to.1 as int),
            game.castling,
        ),
        r.enpassat == applied_ep(
            game.board@,
            (from.0 as int, from.1 as int),
            (to.0 as int, to.1 as int),
        ),
        r.halfmove == applied_halfmove(
            game.board@,
            (from.0 as int, from.1 as int),
            (to.0 as int, to.1 as int),
            game.halfmove,
        ),
        r.fullmove == if game.player == Color::Black {
            (game.fullmove + 1) as u16
        } else {
            game.fullmove
        },
{
    let ghost b = game.board@;
    let ghost fi = (from.0 as int, from.1 as int);
    let ghost ti = (to.0 as int, to.1 as int);
    proof {
        lemma_piece_dest_on_board(b, game.ep_square(), game.castling, fi.0, fi.1, ti.0, ti.1);
    }
    let piece = game.board.at(from.0, from.1);
    let target = game.board.at(to.0, to.1);
    let pawn_moved = match piece {
        Cell::Piece { kind: PieceKind::Pawn, .. } => true,
        _ => false,
    };
    let mut board = game.board.clone();
    board.set(to.0, to.1, piece);
    board.set(from.0, from.1, Cell::Empty);
    let mut enp: Option<(u8, u8)> = None;
    if pawn_moved {
        let rd = if from.0 >= to.0 {
            from.0 - to.0
        } else {
            to.0 - from.0
        };
        if rd == 2 {
            enp = Some(((from.0 + to.0) / 2, from.1));
        } else {
            let eps = match game.enpassat {
                Some(e) => e,
                None => (0, 0),
            };
            if to.0 == eps.0 && to.1 == eps.1 {
                board.set(from.0, to.1, Cell::Empty);
            }
        }
        if to.0 == 0 || to.0 == 7 {
            let color = match piece {
                Cell::Piece { color, .. } => color,
                Cell::Empty => {
                    proof {
                        assert(false);
                    }
                    Color::White
                },
            };
            board.set(to.0, to.1, Cell::Piece { color, kind: PieceKind::Queen });
        }
    }
    let halfmove: u8 = if pawn_moved || target != Cell::Empty {
        0
    } else {
        game.halfmove + 1
    };
    let mut cr = game.castling;
    if target == (Cell::Piece { color: Color::White, kind: PieceKind::Rook }) {
        if to.0 == 7 && to.1 == 0 {
            cr.white_queenside = false;
        } else if to.0 == 7 && to.1 == 7 {
            cr.white_kingside = false;
        }
    } else if target == (Cell::Piece { color: Color::Black, kind: PieceKind::Rook }) {
        if to.0 == 0 && to.1 == 0 {
            cr.black_queenside = false;
        } else if to.0 == 0 && to.1 == 7 {
            cr.black_kingside = false;
        }
    }
    if piece == (Cell::Piece { color: Color::White, kind: PieceKind::King }) && from.0 == 7
        && from.1 == 4 {
        cr.white_kingside = false;
        cr.white_queenside = false;
        if to.0 == 7 && to.1 == 6 {
            let rook = board.at(7, 7);
            board.set(7, 5, rook);
            board.set(7, 7, Cell::Empty);
        } else if to.0 == 7 && to.1 == 2 {
            let rook = board.at(7, 0);
            board.set(7, 3, rook);
            board.set(7, 0, Cell::Empty);
        }
    } else if piece == (Cell::Piece { color: Color::Black, kind: PieceKind::King }) && from.0 == 0
        && from.1 == 4 {
        cr.black_kingside = false;
        cr.black_queenside = false;
        if to.0 == 0 && to.1 == 6 {
            let rook = board.at(0, 7);
            board.set(0, 5, rook);
            board.set(0, 7, Cell::Empty);
        } else if to.0 == 0 && to.1 == 2 {
            let rook = board.at(0, 0);
            board.set(0, 3, rook);
            board.set(0, 0, Cell::Empty);
        }
    } else if piece == (Cell::Piece { color: Color::White, kind: PieceKind::Rook }) {
        if from.0 == 7 && from.1 == 0 {
            cr.white_queenside = false;
        } else if from.0 == 7 && from.1 == 7 {
            cr.white_kingside = false;
        }
    } else if piece == (Cell::Piece { color: Color::Black, kind: PieceKind::Rook }) {
        if from.0 == 0 && from.1 == 0 {
            cr.black_queenside = false;
        } else if from.0 == 0 && from.1 == 7 {
            cr.black_kingside = false;
        }
    }
    let player = crate::board::other_color(game.player);
    let fullmove: u16 = if player == Color::White {
        game.fullmove + 1
    } else {
        game.fullmove
    };
    Gamestate { board, player, castling: cr, enpassat: enp, halfmove, fullmove }
}

} // verus!
