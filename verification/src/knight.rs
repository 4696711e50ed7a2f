//! Knight moves: the eight L-shaped jumps.

use vstd::prelude::*;

use crate::board::Board;
use crate::board::Cell;
use crate::board::Color;
use crate::board::free_for;
use crate::board::is_empty_at;
use crate::board::on_board;
use crate::motion::color_at;
use crate::motion::groups_contain;
use crate::motion::iabs;
use crate::motion::lemma_groups_push;

verus! {

/// (tr, tf) is a pseudo-legal knight destination from (r, f): an L-shaped
/// jump onto a board square that does not hold a piece of color `us`.
pub open spec fn knight_dest(b: Seq<Cell>, us: Color, r: int, f: int, tr: int, tf: int) -> bool {
    &&& free_for(b, us, tr, tf)
    &&& ((iabs(r - tr) == 2 && iabs(f - tf) == 1) || (iabs(r - tr) == 1 && iabs(f - tf) == 2))
}

/// The j-th knight jump target from (r, f), for j in 0..8.
pub open spec fn knight_target(r: int, f: int, j: int) -> (int, int) {
    if j == 0 {
        (r + 2, f + 1)
    } else if j == 1 {
        (r + 2, f - 1)
    } else if j == 2 {
        (r - 2, f + 1)
    } else if j == 3 {
        (r - 2, f - 1)
    } else if j == 4 {
        (r + 1, f + 2)
    } else if j == 5 {
        (r + 1, f - 2)
    } else if j == 6 {
        (r - 1, f + 2)
    } else {
        (r - 1, f - 2)
    }
}

/// A knight destination is one of the eight jump targets, and conversely.
proof fn lemma_knight_enum(b: Seq<Cell>, us: Color, r: int, f: int)
    ensures
        forall|tr: int, tf: int|
            #[trigger] knight_dest(b, us, r, f, tr, tf) <==> exists|j: int|
                0 <= j < 8 && (tr, tf) == #[trigger] knight_target(r, f, j) && free_for(
                    b,
                    us,
                    tr,
                    tf,
                ),
{
    assert forall|tr: int, tf: int| #[trigger] knight_dest(b, us, r, f, tr, tf) implies exists|
        j: int,
    |
        0 <= j < 8 && (tr, tf) == #[trigger] knight_target(r, f, j) && free_for(b, us, tr, tf) by {
        if tr == r + 2 && tf == f + 1 {
            assert((tr, tf) == knight_target(r, f, 0));
        } else if tr == r + 2 && tf == f - 1 {
            assert((tr, tf) == knight_target(r, f, 1));
        } else if tr == r - 2 && tf == f + 1 {
            assert((tr, tf) == knight_target(r, f, 2));
        } else if tr == r - 2 && tf == f - 1 {
            assert((tr, tf) == knight_target(r, f, 3));
        } else if tr == r + 1 && tf == f + 2 {
            assert((tr, tf) == knight_target(r, f, 4));
        } else if tr == r + 1 && tf == f - 2 {
            assert((tr, tf) == knight_target(r, f, 5));
        } else if tr == r - 1 && tf == f + 2 {
            assert((tr, tf) == knight_target(r, f, 6));
        } else {
            assert((tr, tf) == knight_target(r, f, 7));
        }
    }
}

/// The membership summary after covering the i-th jump, when the target
/// was reachable and its singleton group was appended.
proof fn lemma_knight_step_pushed(
    b: Seq<Cell>,
    us: Color,
    r: int,
    f: int,
    i: int,
    s: Seq<Vec<(u8, u8)>>,
    g: Vec<(u8, u8)>,
    e: (u8, u8),
)
    requires
        0 <= i < 8,
        forall|t: (u8, u8)|
            #[trigger] groups_contain(s, t) <==> exists|j: int|
                0 <= j < i && (t.0 as int, t.1 as int) == #[trigger] knight_target(r, f, j)
                    && free_for(b, us, t.0 as int, t.1 as int),
        g@.len() == 1,
        g@[0] == e,
        (e.0 as int, e.1 as int) == knight_target(r, f, i),
        free_for(b, us, e.0 as int, e.1 as int),
    ensures
        forall|t: (u8, u8)|
            #[trigger] groups_contain(s.push(g), t) <==> exists|j: int|
                0 <= j < i + 1 && (t.0 as int, t.1 as int) == #[trigger] knight_target(r, f, j)
                    && free_for(b, us, t.0 as int, t.1 as int),
{
    assert forall|t: (u8, u8)| #[trigger] groups_contain(s.push(g), t) implies exists|j: int|
        0 <= j < i + 1 && (t.0 as int, t.1 as int) == #[trigger] knight_target(r, f, j) && free_for(
        b,
        us,
        t.0 as int,
        t.1 as int,
    ) by {
        lemma_groups_push(s, g, t);
        if groups_contain(s, t) {
            let j = choose|j: int|
                0 <= j < i && (t.0 as int, t.1 as int) == #[trigger] knight_target(r, f, j)
                    && free_for(b, us, t.0 as int, t.1 as int);
            assert((t.0 as int, t.1 as int) == knight_target(r, f, j));
        } else {
            assert(g@.contains(t));
            let gi = choose|gi: int| 0 <= gi < g@.len() && g@[gi] == t;
            assert(t == e);
            assert((t.0 as int, t.1 as int) == knight_target(r, f, i));
        }
    }
    assert forall|t: (u8, u8)|
        (exists|j: int|
            0 <= j < i + 1 && (t.0 as int, t.1 as int) == #[trigger] knight_target(r, f, j)
                && free_for(b, us, t.0 as int, t.1 as int)) implies #[trigger] groups_contain(
        s.push(g),
        t,
    ) by {
        lemma_groups_push(s, g, t);
        let j = choose|j: int|
            0 <= j < i + 1 && (t.0 as int, t.1 as int) == #[trigger] knight_target(r, f, j)
                && free_for(b, us, t.0 as int, t.1 as int);
        if j < i {
            assert(groups_contain(s, t));
        } else {
            assert(t.0 == e.0 && t.1 == e.1);
            assert(t == e);
            assert(g@[0] == t);
            assert(g@.contains(t));
        }
    }
}

/// The membership summary after covering the i-th jump, when the target
/// was off the board or blocked and nothing was appended.
proof fn lemma_knight_step_skipped(
    b: Seq<Cell>,
    us: Color,
    r: int,
    f: int,
    i: int,
    s: Seq<Vec<(u8, u8)>>,
)
    requires
        0 <= i < 8,
        forall|t: (u8, u8)|
            #[trigger] groups_contain(s, t) <==> exists|j: int|
                0 <= j < i && (t.0 as int, t.1 as int) == #[trigger] knight_target(r, f, j)
                    && free_for(b, us, t.0 as int, t.1 as int),
        !free_for(b, us, knight_target(r, f, i).0, knight_target(r, f, i).1),
    ensures
        forall|t: (u8, u8)|
            #[trigger] groups_contain(s, t) <==> exists|j: int|
                0 <= j < i + 1 && (t.0 as int, t.1 as int) == #[trigger] knight_target(r, f, j)
                    && free_for(b, us, t.0 as int, t.1 as int),
{
    assert forall|t: (u8, u8)|
        (exists|j: int|
            0 <= j < i + 1 && (t.0 as int, t.1 as int) == #[trigger] knight_target(r, f, j)
                && free_for(b, us, t.0 as int, t.1 as int)) implies #[trigger] groups_contain(
        s,
        t,
    ) by {
        let j = choose|j: int|
            0 <= j < i + 1 && (t.0 as int, t.1 as int) == #[trigger] knight_target(r, f, j)
                && free_for(b, us, t.0 as int, t.1 as int);
        assert(j < i);
    }
}

/// Pseudo-legal knight destinations; each reachable jump is its own group.
pub fn get_possible_moves(from: (u8, u8), board: &Board) -> (res: Vec<Vec<(u8, u8)>>)
    requires
        board.wf(),
        from.0 < 8,
        from.1 < 8,
        !is_empty_at(board@, from.0 as int, from.1 as int),
    ensures
        forall|t: (u8, u8)|
            #[trigger] groups_contain(res@, t) <==> knight_dest(
                board@,
                color_at(board@, from.0 as int, from.1 as int),
                from.0 as int,
                from.1 as int,
                t.0 as int,
                t.1 as int,
            ),
        forall|i: int| 0 <= i < res@.len() ==> (#[trigger] res@[i])@.len() == 1,
{
    let us = match board.at(from.0, from.1) {
        Cell::Piece { color, .. } => color,
        Cell::Empty => {
            proof {
                assert(false);
            }
            Color::White
        },
    };
    let ghost b = board@;
    let ghost r = from.0 as int;
    let ghost f = from.1 as int;
    let mut offsets: Vec<(i8, i8)> = Vec::new();
    offsets.push((2, 1));
    offsets.push((2, -1));
    offsets.push((-2, 1));
    offsets.push((-2, -1));
    offsets.push((1, 2));
    offsets.push((1, -2));
    offsets.push((-1, 2));
    offsets.push((-1, -2));
    let mut res: Vec<Vec<(u8, u8)>> = Vec::new();
    let mut i: usize = 0;
    while i < 8
        invariant
            board.wf(),
            b == board@,
            us == color_at(b, r, f),
            r == from.0 as int,
            f == from.1 as int,
            on_board(r, f),
            !is_empty_at(b, r, f),
            offsets@.len() == 8,
            forall|j: int|
                0 <= j < 8 ==> (r + (#[trigger] offsets@[j]).0 as int, f + offsets@[j].1 as int)
                    == knight_target(r, f, j),
            i <= 8,
            forall|j: int| 0 <= j < res@.len() ==> (#[trigger] res@[j])@.len() == 1,
            forall|t: (u8, u8)|
                #[trigger] groups_contain(res@, t) <==> exists|j: int|
                    0 <= j < i && (t.0 as int, t.1 as int) == #[trigger] knight_target(r, f, j)
                        && free_for(b, us, t.0 as int, t.1 as int),
        decreases 8 - i,
    {
        let off: (i8, i8) = offsets[i];
        let dr = off.0;
        let df = off.1;
        let tr = from.0 as i16 + dr as i16;
        let tf = from.1 as i16 + df as i16;
        let ghost old_res = res@;
        proof {
            assert((r + offsets@[i as int].0 as int, f + offsets@[i as int].1 as int)
                == knight_target(r, f, i as int));
        }
        if 0 <= tr && tr < 8 && 0 <= tf && tf < 8 {
            let t: (u8, u8) = (tr as u8, tf as u8);
            let keep = match board.at(t.0, t.1) {
                Cell::Empty => true,
                Cell::Piece { color, .. } => color != us,
            };
            if keep {
                let mut g: Vec<(u8, u8)> = Vec::new();
                g.push(t);
                proof {
                    assert(dr as int == offsets@[i as int].0 as int);
                    assert(tr as int == r + dr as int);
                    assert(t.0 as int == tr as int);
                    assert(t.0 as int == knight_target(r, f, i as int).0);
                    assert(t.1 as int == knight_target(r, f, i as int).1);
                    lemma_knight_step_pushed(b, us, r, f, i as int, old_res, g, t);
                }
                res.push(g);
            } else {
                proof {
                    lemma_knight_step_skipped(b, us, r, f, i as int, old_res);
                }
            }
        } else {
            proof {
                lemma_knight_step_skipped(b, us, r, f, i as int, old_res);
            }
        }
        i = i + 1;
    }
    proof {
        lemma_knight_enum(b, us, r, f);
    }
    res
}

} // verus!
