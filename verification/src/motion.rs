//! Rays and shared movement geometry.
//!
//! A sliding piece walks a direction one square at a time, stopping at the
//! first occupied square and including it only when it holds an opposing
//! piece.  `ray_dest` is the declarative statement of that rule and
//! `ray_moves` the verified walker; every sliding generator is built on
//! these two.

use vstd::prelude::*;

use crate::board::Board;
use crate::board::Cell;
use crate::board::Color;
use crate::board::cell_at;
use crate::board::free_for;
use crate::board::has_color_at;
use crate::board::is_empty_at;
use crate::board::on_board;

verus! {

pub open spec fn iabs(a: int) -> int {
    if a < 0 {
        -a
    } else {
        a
    }
}

/// Chebyshev distance: the number of king steps between two squares.
pub open spec fn dist(ar: int, af: int, br: int, bf: int) -> int {
    if iabs(ar - br) >= iabs(af - bf) {
        iabs(ar - br)
    } else {
        iabs(af - bf)
    }
}

/// The coordinate reached after `j` steps from `a` along direction `d`,
/// where `d` is -1, 0 or 1.
pub open spec fn step_coord(a: int, d: int, j: int) -> int {
    if d == 1 {
        a + j
    } else if d == -1 {
        a - j
    } else {
        a
    }
}

/// A unit direction: each component is -1, 0 or 1, not both zero.
pub open spec fn valid_dir(dr: int, df: int) -> bool {
    -1 <= dr <= 1 && -1 <= df <= 1 && !(dr == 0 && df == 0)
}

/// The color of the piece on (r, f); meaningful only on occupied squares.
pub open spec fn color_at(b: Seq<Cell>, r: int, f: int) -> Color
    recommends
        !is_empty_at(b, r, f),
{
    match cell_at(b, r, f) {
        Cell::Piece { color, .. } => color,
        Cell::Empty => Color::White,
    }
}

/// (tr, tf) is a destination of the ray that starts on (r, f) and runs in
/// direction (dr, df): it lies some positive number of steps out, every
/// strictly intervening square is empty, and it is on the board and not
/// occupied by a piece of color `us`.
pub open spec fn ray_dest(
    b: Seq<Cell>,
    us: Color,
    r: int,
    f: int,
    dr: int,
    df: int,
    tr: int,
    tf: int,
) -> bool {
    let n = dist(r, f, tr, tf);
    &&& n >= 1
    &&& tr == step_coord(r, dr, n)
    &&& tf == step_coord(f, df, n)
    &&& on_board(tr, tf)
    &&& forall|j: int|
        1 <= j < n ==> is_empty_at(b, #[trigger] step_coord(r, dr, j), step_coord(f, df, j))
    &&& free_for(b, us, tr, tf)
}

/// Some group of the generated family contains the square.
pub open spec fn groups_contain(gs: Seq<Vec<(u8, u8)>>, t: (u8, u8)) -> bool {
    exists|i: int| 0 <= i < gs.len() && #[trigger] gs[i]@.contains(t)
}

/// Membership in a concatenation is membership in either part.
pub proof fn lemma_seq_add_contains<T>(s1: Seq<T>, s2: Seq<T>, x: T)
    ensures
        (s1 + s2).contains(x) <==> (s1.contains(x) || s2.contains(x)),
{
    if (s1 + s2).contains(x) {
        let i = choose|i: int| 0 <= i < (s1 + s2).len() && (s1 + s2)[i] == x;
        if i < s1.len() {
            assert(s1[i] == x);
        } else {
            assert(s2[i - s1.len()] == x);
        }
    }
    if s1.contains(x) {
        let i = choose|i: int| 0 <= i < s1.len() && s1[i] == x;
        assert((s1 + s2)[i] == x);
    }
    if s2.contains(x) {
        let i = choose|i: int| 0 <= i < s2.len() && s2[i] == x;
        assert((s1 + s2)[s1.len() + i] == x);
    }
}

/// Pushing a new group extends the family's membership by the group's own.
pub proof fn lemma_groups_push(s: Seq<Vec<(u8, u8)>>, g: Vec<(u8, u8)>, t: (u8, u8))
    ensures
        groups_contain(s.push(g), t) <==> (groups_contain(s, t) || g@.contains(t)),
{
    if groups_contain(s.push(g), t) {
        let i = choose|i: int| 0 <= i < s.push(g).len() && #[trigger] s.push(g)[i]@.contains(t);
        if i < s.len() {
            assert(s[i]@.contains(t));
        } else {
            assert(s.push(g)[i] == g);
        }
    }
    if groups_contain(s, t) {
        let i = choose|i: int| 0 <= i < s.len() && #[trigger] s[i]@.contains(t);
        assert(s.push(g)[i]@.contains(t));
    }
    if g@.contains(t) {
        assert(s.push(g)[s.len() as int]@.contains(t));
    }
}


/// The i-th rook direction, in the order the generator walks them.
pub open spec fn rook_dirs(i: int) -> (int, int) {
    if i == 0 {
        (0, 1)
    } else if i == 1 {
        (0, -1)
    } else if i == 2 {
        (1, 0)
    } else {
        (-1, 0)
    }
}

/// The i-th bishop direction, in the order the generator walks them.
pub open spec fn bishop_dirs(i: int) -> (int, int) {
    if i == 0 {
        (1, -1)
    } else if i == 1 {
        (-1, -1)
    } else if i == 2 {
        (1, 1)
    } else {
        (-1, 1)
    }
}

/// The i-th queen direction, in the order the generator walks them.
pub open spec fn queen_dirs(i: int) -> (int, int) {
    if i == 0 {
        (0, -1)
    } else if i == 1 {
        (0, 1)
    } else if i == 2 {
        (1, 0)
    } else if i == 3 {
        (-1, 0)
    } else if i == 4 {
        (1, -1)
    } else if i == 5 {
        (-1, -1)
    } else if i == 6 {
        (1, 1)
    } else {
        (-1, 1)
    }
}

/// Linear membership test on a group of squares.
pub fn contains_sq(v: &Vec<(u8, u8)>, t: (u8, u8)) -> (r: bool)
    ensures
        r == v@.contains(t),
{
    let mut i: usize = 0;
    while i < v.len()
        invariant
            i <= v@.len(),
            forall|j: int| 0 <= j < i ==> v@[j] != t,
        decreases v@.len() - i,
    {
        if v[i].0 == t.0 && v[i].1 == t.1 {
            assert(v@[i as int] == t);
            return true;
        }
        i = i + 1;
    }
    proof {
        if v@.contains(t) {
            let j = choose|j: int| 0 <= j < v@.len() && v@[j] == t;
        }
    }
    false
}

/// The index of the first group that contains the square, if any does.
pub fn first_group_with(groups: &Vec<Vec<(u8, u8)>>, t: (u8, u8)) -> (r: Option<usize>)
    ensures
        match r {
            Some(i) => i < groups@.len() && groups@[i as int]@.contains(t),
            None => !groups_contain(groups@, t),
        },
{
    let mut i: usize = 0;
    while i < groups.len()
        invariant
            i <= groups@.len(),
            forall|j: int| 0 <= j < i ==> !(#[trigger] groups@[j]@.contains(t)),
        decreases groups@.len() - i,
    {
        if contains_sq(&groups[i], t) {
            return Some(i);
        }
        i = i + 1;
    }
    proof {
        if groups_contain(groups@, t) {
            let j = choose|j: int| 0 <= j < groups@.len() && #[trigger] groups@[j]@.contains(t);
        }
    }
    None
}

/// Flatten a family of groups into the single list of its squares.
pub fn flat_groups(groups: &Vec<Vec<(u8, u8)>>) -> (r: Vec<(u8, u8)>)
    ensures
        forall|t: (u8, u8)| #[trigger] r@.contains(t) <==> groups_contain(groups@, t),
{
    let mut r: Vec<(u8, u8)> = Vec::new();
    let mut i: usize = 0;
    while i < groups.len()
        invariant
            i <= groups@.len(),
            forall|t: (u8, u8)|
                #[trigger] r@.contains(t) <==> exists|j: int|
                    0 <= j < i && #[trigger] groups@[j]@.contains(t),
        decreases groups@.len() - i,
    {
        let g = &groups[i];
        let mut e: usize = 0;
        while e < g.len()
            invariant
                i < groups@.len(),
                g == &groups[i as int],
                e <= g@.len(),
                forall|t: (u8, u8)|
                    #[trigger] r@.contains(t) <==> (exists|j: int|
                        0 <= j < i && #[trigger] groups@[j]@.contains(t)) || exists|x: int|
                        0 <= x < e && groups@[i as int]@[x] == t,
            decreases g@.len() - e,
        {
            let ghost old_r = r@;
            r.push(g[e]);
            proof {
                broadcast use vstd::seq_lib::lemma_seq_contains_after_push;
                assert forall|t: (u8, u8)| #[trigger] r@.contains(t) implies ((exists|j: int|
                    0 <= j < i && #[trigger] groups@[j]@.contains(t)) || exists|x: int|
                    0 <= x < e + 1 && groups@[i as int]@[x] == t) by {
                    if !old_r.contains(t) {
                        assert(groups@[i as int]@[e as int] == t);
                    }
                }
                assert forall|t: (u8, u8)|
                    ((exists|j: int| 0 <= j < i && #[trigger] groups@[j]@.contains(t)) || exists|
                        x: int,
                    | 0 <= x < e + 1 && groups@[i as int]@[x] == t) implies #[trigger] r@.contains(
                    t,
                ) by {
                    if !old_r.contains(t) {
                        let x = choose|x: int| 0 <= x < e + 1 && groups@[i as int]@[x] == t;
                        assert(x == e);
                        assert(t == groups@[i as int]@[e as int]);
                    }
                }
            }
            e = e + 1;
        }
        proof {
            assert forall|t: (u8, u8)| #[trigger] r@.contains(t) implies exists|j: int|
                0 <= j < i + 1 && #[trigger] groups@[j]@.contains(t) by {
                if exists|j: int| 0 <= j < i && #[trigger] groups@[j]@.contains(t) {
                    let j = choose|j: int| 0 <= j < i && #[trigger] groups@[j]@.contains(t);
                    assert(groups@[j]@.contains(t));
                } else {
                    let x = choose|x: int| 0 <= x < g@.len() && groups@[i as int]@[x] == t;
                    assert(groups@[i as int]@.contains(t));
                }
            }
            assert forall|t: (u8, u8)|
                (exists|j: int| 0 <= j < i + 1 && #[trigger] groups@[j]@.contains(t))
                    implies #[trigger] r@.contains(t) by {
                let j = choose|j: int| 0 <= j < i + 1 && #[trigger] groups@[j]@.contains(t);
                if j < i {
                    assert(exists|j2: int| 0 <= j2 < i && #[trigger] groups@[j2]@.contains(t));
                } else {
                    let x = choose|x: int| 0 <= x < groups@[j]@.len() && groups@[j]@[x] == t;
                    assert(groups@[i as int]@[x] == t);
                }
            }
        }
        i = i + 1;
    }
    proof {
        assert forall|t: (u8, u8)| groups_contain(groups@, t) implies #[trigger] r@.contains(t) by {
            let j = choose|j: int| 0 <= j < groups@.len() && #[trigger] groups@[j]@.contains(t);
        }
        assert forall|t: (u8, u8)| #[trigger] r@.contains(t) implies groups_contain(groups@, t) by {
            let j = choose|j: int| 0 <= j < groups@.len() && #[trigger] groups@[j]@.contains(t);
        }
    }
    r
}

/// A square is a destination of at most one ray direction.
pub proof fn lemma_ray_dir_unique(
    b: Seq<Cell>,
    us: Color,
    r: int,
    f: int,
    d1r: int,
    d1f: int,
    d2r: int,
    d2f: int,
    tr: int,
    tf: int,
)
    requires
        valid_dir(d1r, d1f),
        valid_dir(d2r, d2f),
        ray_dest(b, us, r, f, d1r, d1f, tr, tf),
        ray_dest(b, us, r, f, d2r, d2f, tr, tf),
    ensures
        d1r == d2r,
        d1f == d2f,
{
}

/// After `k` clear steps the ray has run off the board: its destinations
/// are exactly the `k` squares walked so far.
proof fn lemma_ray_stops_at_edge(
    b: Seq<Cell>,
    us: Color,
    r: int,
    f: int,
    dr: int,
    df: int,
    k: int,
)
    requires
        valid_dir(dr, df),
        on_board(r, f),
        k >= 0,
        forall|j: int|
            1 <= j <= k ==> is_empty_at(b, #[trigger] step_coord(r, dr, j), step_coord(f, df, j)),
        k > 0 ==> on_board(step_coord(r, dr, k), step_coord(f, df, k)),
        !on_board(step_coord(r, dr, k + 1), step_coord(f, df, k + 1)),
    ensures
        forall|tr: int, tf: int|
            #[trigger] ray_dest(b, us, r, f, dr, df, tr, tf) <==> exists|j: int|
                1 <= j <= k && tr == step_coord(r, dr, j) && tf == #[trigger] step_coord(
                    f,
                    df,
                    j,
                ),
{
    assert forall|tr: int, tf: int| #[trigger] ray_dest(b, us, r, f, dr, df, tr, tf) implies exists|
        j: int,
    |
        1 <= j <= k && tr == step_coord(r, dr, j) && tf == #[trigger] step_coord(f, df, j) by {
        let n = dist(r, f, tr, tf);
        if n > k {
            assert(!on_board(step_coord(r, dr, k + 1), step_coord(f, df, k + 1)));
            assert(false);
        }
    }
    assert forall|tr: int, tf: int|
        (exists|j: int|
            1 <= j <= k && tr == step_coord(r, dr, j) && tf == #[trigger] step_coord(
                f,
                df,
                j,
            )) implies #[trigger] ray_dest(b, us, r, f, dr, df, tr, tf) by {
        let j = choose|j: int|
            1 <= j <= k && tr == step_coord(r, dr, j) && tf == #[trigger] step_coord(f, df, j);
        assert(is_empty_at(b, step_coord(r, dr, j), step_coord(f, df, j)));
        assert(dist(r, f, tr, tf) == j);
        assert(on_board(tr, tf));
    }
}

/// After `k` clear steps the ray has hit a piece one step further out:
/// its destinations are the `k` squares walked so far, plus the blocker's
/// square exactly when the blocker is an opposing piece.
proof fn lemma_ray_stops_at_piece(
    b: Seq<Cell>,
    us: Color,
    r: int,
    f: int,
    dr: int,
    df: int,
    k: int,
    co: Color,
)
    requires
        valid_dir(dr, df),
        on_board(r, f),
        k >= 0,
        forall|j: int|
            1 <= j <= k ==> is_empty_at(b, #[trigger] step_coord(r, dr, j), step_coord(f, df, j)),
        on_board(step_coord(r, dr, k + 1), step_coord(f, df, k + 1)),
        !is_empty_at(b, step_coord(r, dr, k + 1), step_coord(f, df, k + 1)),
        co == color_at(b, step_coord(r, dr, k + 1), step_coord(f, df, k + 1)),
    ensures
        forall|tr: int, tf: int|
            #[trigger] ray_dest(b, us, r, f, dr, df, tr, tf) <==> ((exists|j: int|
                1 <= j <= k && tr == step_coord(r, dr, j) && tf == #[trigger] step_coord(f, df, j))
                || (co != us && tr == step_coord(r, dr, k + 1) && tf == step_coord(f, df, k + 1))),
{
    assert forall|tr: int, tf: int| #[trigger] ray_dest(b, us, r, f, dr, df, tr, tf) implies ((
    exists|j: int|
        1 <= j <= k && tr == step_coord(r, dr, j) && tf == #[trigger] step_coord(f, df, j)) || (co
        != us && tr == step_coord(r, dr, k + 1) && tf == step_coord(f, df, k + 1))) by {
        let n = dist(r, f, tr, tf);
        if n > k + 1 {
            assert(is_empty_at(b, step_coord(r, dr, k + 1), step_coord(f, df, k + 1)));
            assert(false);
        } else if n == k + 1 {
            assert(!has_color_at(b, tr, tf, us));
        }
    }
    assert forall|tr: int, tf: int|
        ((exists|j: int|
            1 <= j <= k && tr == step_coord(r, dr, j) && tf == #[trigger] step_coord(f, df, j)) || (
        co != us && tr == step_coord(r, dr, k + 1) && tf == step_coord(
            f,
            df,
            k + 1,
        ))) implies #[trigger] ray_dest(b, us, r, f, dr, df, tr, tf) by {
        if exists|j: int|
            1 <= j <= k && tr == step_coord(r, dr, j) && tf == #[trigger] step_coord(f, df, j) {
            let j = choose|j: int|
                1 <= j <= k && tr == step_coord(r, dr, j) && tf == #[trigger] step_coord(f, df, j);
            assert(is_empty_at(b, step_coord(r, dr, j), step_coord(f, df, j)));
            assert(dist(r, f, tr, tf) == j);
        } else {
            assert(dist(r, f, tr, tf) == k + 1);
        }
    }
}

/// Walk one ray from an occupied origin square, collecting destinations:
/// empty squares as they come, the first occupied square only when it
/// holds an opposing piece.
#[verifier::rlimit(100)]
pub fn ray_moves(board: &Board, from: (u8, u8), dr: i8, df: i8) -> (res: Vec<(u8, u8)>)
    requires
        board.wf(),
        from.0 < 8,
        from.1 < 8,
        valid_dir(dr as int, df as int),
        !is_empty_at(board@, from.0 as int, from.1 as int),
    ensures
        forall|t: (u8, u8)|
            #[trigger] res@.contains(t) <==> ray_dest(
                board@,
                color_at(board@, from.0 as int, from.1 as int),
                from.0 as int,
                from.1 as int,
                dr as int,
                df as int,
                t.0 as int,
                t.1 as int,
            ),
{
    let us = match board.at(from.0, from.1) {
        Cell::Piece { color, .. } => color,
        Cell::Empty => {
            proof {
                assert(false);
            }
            Color::White
        },
    };
    let ghost r = from.0 as int;
    let ghost f = from.1 as int;
    let ghost b = board@;
    let mut res: Vec<(u8, u8)> = Vec::new();
    let mut cr: u8 = from.0;
    let mut cf: u8 = from.1;
    let ghost mut k: int = 0;
    loop
        invariant_except_break
            0 <= k <= 7,
            cr as int == step_coord(r, dr as int, k),
            cf as int == step_coord(f, df as int, k),
            on_board(cr as int, cf as int),
            forall|j: int|
                1 <= j <= k ==> is_empty_at(
                    b,
                    #[trigger] step_coord(r, dr as int, j),
                    step_coord(f, df as int, j),
                ),
            res@.len() == k,
            forall|i: int|
                0 <= i < k ==> (#[trigger] res@[i]).0 as int == step_coord(r, dr as int, i + 1)
                    && res@[i].1 as int == step_coord(f, df as int, i + 1),
        invariant
            board.wf(),
            b == board@,
            us == color_at(b, r, f),
            on_board(r, f),
            valid_dir(dr as int, df as int),
        ensures
            forall|t: (u8, u8)|
                #[trigger] res@.contains(t) <==> ray_dest(
                    b,
                    us,
                    r,
                    f,
                    dr as int,
                    df as int,
                    t.0 as int,
                    t.1 as int,
                ),
        decreases 8 - k,
    {
        let edge = if dr == 1 {
            cr >= 7
        } else if dr == -1 {
            cr == 0
        } else {
            false
        } || if df == 1 {
            cf >= 7
        } else if df == -1 {
            cf == 0
        } else {
            false
        };
        if edge {
            proof {
                lemma_ray_stops_at_edge(b, us, r, f, dr as int, df as int, k);
                assert forall|t: (u8, u8)| #[trigger] res@.contains(t) implies ray_dest(
                    b,
                    us,
                    r,
                    f,
                    dr as int,
                    df as int,
                    t.0 as int,
                    t.1 as int,
                ) by {
                    let i = choose|i: int| 0 <= i < res@.len() && res@[i] == t;
                    assert(t.0 as int == step_coord(r, dr as int, i + 1) && t.1 as int
                        == step_coord(f, df as int, i + 1));
                }
                assert forall|t: (u8, u8)|
                    ray_dest(
                        b,
                        us,
                        r,
                        f,
                        dr as int,
                        df as int,
                        t.0 as int,
                        t.1 as int,
                    ) implies #[trigger] res@.contains(t) by {
                    let j = choose|j: int|
                        1 <= j <= k && t.0 as int == step_coord(r, dr as int, j) && t.1 as int
                            == #[trigger] step_coord(f, df as int, j);
                    assert(res@[j - 1] == t);
                }
            }
            break;
        }
        let nr: u8 = if dr == 1 {
            cr + 1
        } else if dr == -1 {
            cr - 1
        } else {
            cr
        };
        let nf: u8 = if df == 1 {
            cf + 1
        } else if df == -1 {
            cf - 1
        } else {
            cf
        };
        proof {
            k = k + 1;
        }
        match board.at(nr, nf) {
            Cell::Empty => {
                res.push((nr, nf));
                cr = nr;
                cf = nf;
            },
            Cell::Piece { color, .. } => {
                if color != us {
                    res.push((nr, nf));
                }
                proof {
                    lemma_ray_stops_at_piece(b, us, r, f, dr as int, df as int, k - 1, color);
                    assert forall|t: (u8, u8)| #[trigger] res@.contains(t) implies ray_dest(
                        b,
                        us,
                        r,
                        f,
                        dr as int,
                        df as int,
                        t.0 as int,
                        t.1 as int,
                    ) by {
                        let i = choose|i: int| 0 <= i < res@.len() && res@[i] == t;
                        if i < k - 1 {
                            assert(t.0 as int == step_coord(r, dr as int, i + 1) && t.1 as int
                                == step_coord(f, df as int, i + 1));
                        }
                    }
                    assert forall|t: (u8, u8)|
                        ray_dest(
                            b,
                            us,
                            r,
                            f,
                            dr as int,
                            df as int,
                            t.0 as int,
                            t.1 as int,
                        ) implies #[trigger] res@.contains(t) by {
                        if exists|j: int|
                            1 <= j <= k - 1 && t.0 as int == step_coord(r, dr as int, j) && t.1
                                as int == #[trigger] step_coord(f, df as int, j) {
                            let j = choose|j: int|
                                1 <= j <= k - 1 && t.0 as int == step_coord(r, dr as int, j) && t.1
                                    as int == #[trigger] step_coord(f, df as int, j);
                            assert(res@[j - 1] == t);
                        } else {
                            assert(color != us && t.0 as int == step_coord(r, dr as int, k) && t.1
                                as int == step_coord(f, df as int, k));
                            assert(res@[res@.len() - 1] == t);
                        }
                    }
                }
                break;
            },
        }
    }
    res
}

} // verus!
