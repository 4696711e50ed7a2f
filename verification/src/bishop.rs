//! Bishop moves: the four diagonal rays.

use vstd::prelude::*;

use crate::board::Board;
use crate::board::Cell;
use crate::board::Color;
use crate::board::is_empty_at;
use crate::motion::color_at;
use crate::motion::groups_contain;
use crate::motion::ray_dest;
use crate::motion::ray_moves;
use crate::motion::bishop_dirs;

verus! {

/// (tr, tf) is a pseudo-legal bishop destination from (r, f): a destination
/// of one of the four diagonal rays.
pub open spec fn bishop_dest(b: Seq<Cell>, us: Color, r: int, f: int, tr: int, tf: int) -> bool {
    exists|i: int|
        0 <= i < 4 && #[trigger] ray_dest(b, us, r, f, bishop_dirs(i).0, bishop_dirs(i).1, tr, tf)
}

/// Pseudo-legal bishop destinations, one group per direction walked.
pub fn get_possible_moves(from: (u8, u8), board: &Board) -> (res: Vec<Vec<(u8, u8)>>)
    requires
        board.wf(),
        from.0 < 8,
        from.1 < 8,
        !is_empty_at(board@, from.0 as int, from.1 as int),
    ensures
        res@.len() == 4,
        forall|i: int, t: (u8, u8)|
            #![trigger res@[i]@.contains(t)]
            0 <= i < 4 ==> (res@[i]@.contains(t) <==> ray_dest(
                board@,
                color_at(board@, from.0 as int, from.1 as int),
                from.0 as int,
                from.1 as int,
                bishop_dirs(i).0,
                bishop_dirs(i).1,
                t.0 as int,
                t.1 as int,
            )),
        forall|t: (u8, u8)|
            #[trigger] groups_contain(res@, t) <==> bishop_dest(
                board@,
                color_at(board@, from.0 as int, from.1 as int),
                from.0 as int,
                from.1 as int,
                t.0 as int,
                t.1 as int,
            ),
{
    let mut res: Vec<Vec<(u8, u8)>> = Vec::new();
    res.push(ray_moves(board, from, 1, -1));
    res.push(ray_moves(board, from, -1, -1));
    res.push(ray_moves(board, from, 1, 1));
    res.push(ray_moves(board, from, -1, 1));
    proof {
        let b = board@;
        let us = color_at(b, from.0 as int, from.1 as int);
        let r = from.0 as int;
        let f = from.1 as int;
        assert forall|i: int, t: (u8, u8)|
            #![trigger res@[i]@.contains(t)]
            0 <= i < 4 implies (res@[i]@.contains(t) <==> ray_dest(
            b,
            us,
            r,
            f,
            bishop_dirs(i).0,
            bishop_dirs(i).1,
            t.0 as int,
            t.1 as int,
        )) by {
            if i == 0 {
                assert(bishop_dirs(i) == (1 as int, -1 as int));
            } else if i == 1 {
                assert(bishop_dirs(i) == (-1 as int, -1 as int));
            } else if i == 2 {
                assert(bishop_dirs(i) == (1 as int, 1 as int));
            } else if i == 3 {
                assert(bishop_dirs(i) == (-1 as int, 1 as int));
            }
        }
        assert forall|t: (u8, u8)| #[trigger] groups_contain(res@, t) implies bishop_dest(
            b,
            us,
            r,
            f,
            t.0 as int,
            t.1 as int,
        ) by {
            let i = choose|i: int| 0 <= i < res@.len() && #[trigger] res@[i]@.contains(t);
            assert(ray_dest(b, us, r, f, bishop_dirs(i).0, bishop_dirs(i).1, t.0 as int, t.1 as int));
        }
        assert forall|t: (u8, u8)|
            bishop_dest(b, us, r, f, t.0 as int, t.1 as int) implies #[trigger] groups_contain(
            res@,
            t,
        ) by {
            let i = choose|i: int|
                0 <= i < 4 && #[trigger] ray_dest(
                    b,
                    us,
                    r,
                    f,
                    bishop_dirs(i).0,
                    bishop_dirs(i).1,
                    t.0 as int,
                    t.1 as int,
                );
            assert(res@[i]@.contains(t));
        }
    }
    res
}

} // verus!
