//! Pawn moves.
//!
//! A pawn advances onto empty squares only, two from its home rank when
//! both squares ahead are clear, and captures diagonally forward — onto an
//! opposing piece or onto the en-passant target square.  The output keeps
//! the capture squares and the quiet advances in separate groups: capture
//! squares matter for king safety, quiet advances never threaten anything.

use vstd::prelude::*;

use crate::board::Board;
use crate::board::Cell;
use crate::board::Color;
use crate::board::has_color_at;
use crate::board::is_empty_at;
use crate::board::on_board;
use crate::board::opposite;
use crate::motion::color_at;
use crate::motion::groups_contain;

verus! {

/// The rank step a pawn of this color advances by: white pawns move
/// toward rank 0, black pawns toward rank 7.
pub open spec fn pawn_dir(c: Color) -> int {
    match c {
        Color::White => -1,
        Color::Black => 1,
    }
}

/// The home rank a pawn of this color double-advances from.
pub open spec fn pawn_home(c: Color) -> int {
    match c {
        Color::White => 6,
        Color::Black => 1,
    }
}

/// (tr, tf) is a capture square of the pawn of color `us` on (r, f): one
/// square diagonally forward, holding an opposing piece or equal to the
/// en-passant target.
pub open spec fn pawn_attack_dest(
    b: Seq<Cell>,
    ep: (int, int),
    us: Color,
    r: int,
    f: int,
    tr: int,
    tf: int,
) -> bool {
    &&& on_board(tr, tf)
    &&& tr == r + pawn_dir(us)
    &&& (tf == f - 1 || tf == f + 1)
    &&& (has_color_at(b, tr, tf, opposite(us)) || (tr == ep.0 && tf == ep.1))
}

/// (tr, tf) is a quiet advance of the pawn of color `us` on (r, f): one
/// square forward onto an empty square, or two from the home rank with
/// both the intervening and the destination square empty.
pub open spec fn pawn_push_dest(
    b: Seq<Cell>,
    us: Color,
    r: int,
    f: int,
    tr: int,
    tf: int,
) -> bool {
    &&& on_board(tr, tf)
    &&& tf == f
    &&& is_empty_at(b, tr, tf)
    &&& (tr == r + pawn_dir(us) || (r == pawn_home(us) && tr == r + 2 * pawn_dir(us)
        && is_empty_at(b, r + pawn_dir(us), f)))
}

/// Any pseudo-legal pawn destination.
pub open spec fn pawn_dest(
    b: Seq<Cell>,
    ep: (int, int),
    us: Color,
    r: int,
    f: int,
    tr: int,
    tf: int,
) -> bool {
    pawn_attack_dest(b, ep, us, r, f, tr, tf) || pawn_push_dest(b, us, r, f, tr, tf)
}

/// Pseudo-legal pawn destinations: the capture group first, the quiet
/// advance group second.
pub fn get_possible_moves(from: (u8, u8), board: &Board, enpassat: (u8, u8)) -> (res: Vec<
    Vec<(u8, u8)>,
>)
    requires
        board.wf(),
        from.0 < 8,
        from.1 < 8,
        !is_empty_at(board@, from.0 as int, from.1 as int),
    ensures
        res@.len() == 2,
        forall|t: (u8, u8)|
            #[trigger] res@[0]@.contains(t) <==> pawn_attack_dest(
                board@,
                (enpassat.0 as int, enpassat.1 as int),
                color_at(board@, from.0 as int, from.1 as int),
                from.0 as int,
                from.1 as int,
                t.0 as int,
                t.1 as int,
            ),
        forall|t: (u8, u8)|
            #[trigger] res@[1]@.contains(t) <==> pawn_push_dest(
                board@,
                color_at(board@, from.0 as int, from.1 as int),
                from.0 as int,
                from.1 as int,
                t.0 as int,
                t.1 as int,
            ),
        forall|t: (u8, u8)|
            #[trigger] groups_contain(res@, t) <==> pawn_dest(
                board@,
                (enpassat.0 as int, enpassat.1 as int),
                color_at(board@, from.0 as int, from.1 as int),
                from.0 as int,
                from.1 as int,
                t.0 as int,
                t.1 as int,
            ),
{
    let us = match board.at(from.0, from.1) {
        Cell::Piece { color, .. } => color,
        Cell::Empty => {
            proof {
                assert(false);
            }
            Color::White
        },
    };
    let ghost b = board@;
    let ghost r = from.0 as int;
    let ghost f = from.1 as int;
    let ghost ep = (enpassat.0 as int, enpassat.1 as int);
    let x = from.0;
    let y = from.1;
    let mut attack: Vec<(u8, u8)> = Vec::new();
    let mut regular: Vec<(u8, u8)> = Vec::new();
    let at_edge = match us {
        Color::White => x == 0,
        Color::Black => x == 7,
    };
    if at_edge {
        let mut res: Vec<Vec<(u8, u8)>> = Vec::new();
        res.push(attack);
        res.push(regular);
        proof {
            assert forall|t: (u8, u8)| #[trigger] groups_contain(res@, t) implies false by {
                let i = choose|i: int| 0 <= i < res@.len() && #[trigger] res@[i]@.contains(t);
            }
        }
        return res;
    }
    let nx: u8 = match us {
        Color::White => x - 1,
        Color::Black => x + 1,
    };
    match us {
        Color::White => {
            if x == 6 && board.at(5, y) == Cell::Empty && board.at(4, y) == Cell::Empty {
                regular.push((4, y));
            }
        },
        Color::Black => {
            if x == 1 && board.at(2, y) == Cell::Empty && board.at(3, y) == Cell::Empty {
                regular.push((3, y));
            }
        },
    }
    if board.at(nx, y) == Cell::Empty {
        regular.push((nx, y));
    }
    if y > 0 {
        let enemy = match board.at(nx, y - 1) {
            Cell::Piece { color, .. } => color != us,
            Cell::Empty => false,
        };
        if enemy {
            attack.push((nx, y - 1));
        }
        if nx == enpassat.0 && y - 1 == enpassat.1 {
            attack.push((nx, y - 1));
        }
    }
    if y < 7 {
        let enemy = match board.at(nx, y + 1) {
            Cell::Piece { color, .. } => color != us,
            Cell::Empty => false,
        };
        if enemy {
            attack.push((nx, y + 1));
        }
        if nx == enpassat.0 && y + 1 == enpassat.1 {
            attack.push((nx, y + 1));
        }
    }
    let ghost attack_snap = attack@;
    let ghost regular_snap = regular@;
    let mut res: Vec<Vec<(u8, u8)>> = Vec::new();
    res.push(attack);
    res.push(regular);
    proof {
        broadcast use vstd::seq_lib::lemma_seq_contains_after_push;
        assert forall|t: (u8, u8)| #[trigger] attack_snap.contains(t) implies pawn_attack_dest(
            b,
            ep,
            us,
            r,
            f,
            t.0 as int,
            t.1 as int,
        ) by {
            let i = choose|i: int| 0 <= i < attack_snap.len() && attack_snap[i] == t;
        }
        assert forall|t: (u8, u8)|
            pawn_attack_dest(b, ep, us, r, f, t.0 as int, t.1 as int) implies #[trigger] attack_snap
            .contains(t) by {
            if t.1 as int == f - 1 {
                assert(t == ((nx, (y - 1) as u8)));
                assert(attack_snap.contains(t));
            } else {
                assert(t == ((nx, (y + 1) as u8)));
                assert(attack_snap.contains(t));
            }
        }
        assert forall|t: (u8, u8)| #[trigger] regular_snap.contains(t) implies pawn_push_dest(
            b,
            us,
            r,
            f,
            t.0 as int,
            t.1 as int,
        ) by {
            let i = choose|i: int| 0 <= i < regular_snap.len() && regular_snap[i] == t;
        }
        assert forall|t: (u8, u8)|
            pawn_push_dest(b, us, r, f, t.0 as int, t.1 as int) implies #[trigger] regular_snap
            .contains(t) by {
            if t.0 as int == r + pawn_dir(us) {
                assert(t == ((nx, y)));
                assert(regular_snap.contains(t));
            } else {
                assert(regular_snap.contains(t));
            }
        }
        assert forall|t: (u8, u8)| #[trigger] groups_contain(res@, t) implies pawn_dest(
            b,
            ep,
            us,
            r,
            f,
            t.0 as int,
            t.1 as int,
        ) by {
            let i = choose|i: int| 0 <= i < res@.len() && #[trigger] res@[i]@.contains(t);
        }
        assert forall|t: (u8, u8)|
            pawn_dest(b, ep, us, r, f, t.0 as int, t.1 as int) implies #[trigger] groups_contain(
            res@,
            t,
        ) by {
            if pawn_attack_dest(b, ep, us, r, f, t.0 as int, t.1 as int) {
                assert(res@[0]@.contains(t));
            } else {
                assert(res@[1]@.contains(t));
            }
        }
    }
    res
}

} // verus!
