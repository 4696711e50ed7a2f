//! Mirror symmetry: swapping the colors and reflecting the board across
//! its horizontal axis reflects the legal move set.

use vstd::prelude::*;

use crate::bishop::bishop_dest;
use crate::board::CastlingRights;
use crate::board::Cell;
use crate::board::Color;
use crate::board::PieceKind;
use crate::board::cell_at;
use crate::board::has_color_at;
use crate::board::is_empty_at;
use crate::board::on_board;
use crate::board::opposite;
use crate::board::sq_idx;
use crate::king::castle_dest;
use crate::king::king_step_dest;
use crate::knight::knight_dest;
use crate::motion::bishop_dirs;
use crate::motion::dist;
use crate::motion::queen_dirs;
use crate::motion::ray_dest;
use crate::motion::rook_dirs;
use crate::motion::step_coord;
use crate::motion::valid_dir;
use crate::pawn::pawn_attack_dest;
use crate::pawn::pawn_dest;
use crate::pawn::pawn_dir;
use crate::pawn::pawn_home;
use crate::pawn::pawn_push_dest;
use crate::queen::queen_dest;
use crate::rook::rook_dest;
use crate::possible_moves::check_path;

verus! {

/// The same piece for the other side.
pub open spec fn mirror_cell(c: Cell) -> Cell {
    match c {
        Cell::Empty => Cell::Empty,
        Cell::Piece { color, kind } => Cell::Piece { color: opposite(color), kind },
    }
}

/// The square reflected across the horizontal axis.
pub open spec fn mirror_sq(s: (int, int)) -> (int, int) {
    (7 - s.0, s.1)
}

/// The board with ranks reflected and every piece's color swapped.
pub open spec fn mirror_board(b: Seq<Cell>) -> Seq<Cell> {
    Seq::new(64, |i: int| mirror_cell(b[(7 - i / 8) * 8 + i % 8]))
}

/// The castling rights with the sides swapped.
pub open spec fn mirror_rights(cr: CastlingRights) -> CastlingRights {
    CastlingRights {
        white_kingside: cr.black_kingside,
        white_queenside: cr.black_queenside,
        black_kingside: cr.white_kingside,
        black_queenside: cr.white_queenside,
    }
}

/// Reading the mirrored board reads the reflected square of the
/// original, with the color swapped.
pub proof fn lemma_mirror_cell_at(b: Seq<Cell>, r: int, f: int)
    requires
        b.len() == 64,
        on_board(r, f),
    ensures
        cell_at(mirror_board(b), r, f) == mirror_cell(cell_at(b, 7 - r, f)),
        is_empty_at(mirror_board(b), r, f) == is_empty_at(b, 7 - r, f),
        forall|c: Color|
            #[trigger] has_color_at(mirror_board(b), r, f, c) == has_color_at(
                b,
                7 - r,
                f,
                opposite(c),
            ),
{
    let i = sq_idx(r, f);
    assert(i / 8 == r && i % 8 == f) by (nonlinear_arith)
        requires
            0 <= r < 8 && 0 <= f < 8 && i == r * 8 + f,
    ;
    assert(mirror_board(b)[i] == mirror_cell(b[(7 - r) * 8 + f]));
}

/// A ray on the mirrored board is the reflected ray, with the vertical
/// component of its direction flipped.
pub proof fn lemma_mirror_ray(
    b: Seq<Cell>,
    us: Color,
    r: int,
    f: int,
    dr: int,
    df: int,
    tr: int,
    tf: int,
)
    requires
        b.len() == 64,
        valid_dir(dr, df),
        on_board(r, f),
    ensures
        ray_dest(mirror_board(b), opposite(us), r, f, dr, df, tr, tf) == ray_dest(
            b,
            us,
            7 - r,
            f,
            -dr,
            df,
            7 - tr,
            tf,
        ),
{
    let mb = mirror_board(b);
    let n = dist(r, f, tr, tf);
    assert(dist(7 - r, f, 7 - tr, tf) == n);
    assert(step_coord(7 - r, -dr, n) == 7 - step_coord(r, dr, n));
    assert(step_coord(f, df, n) == step_coord(f, df, n));
    if on_board(tr, tf) {
        lemma_mirror_cell_at(b, tr, tf);
    }
    if ray_dest(mb, opposite(us), r, f, dr, df, tr, tf) {
        assert forall|j: int| 1 <= j < n implies is_empty_at(
            b,
            #[trigger] step_coord(7 - r, -dr, j),
            step_coord(f, df, j),
        ) by {
            assert(step_coord(7 - r, -dr, j) == 7 - step_coord(r, dr, j));
            assert(is_empty_at(mb, step_coord(r, dr, j), step_coord(f, df, j)));
            lemma_castle_between_on_board(r, f, dr, df, tr, tf, j);
            lemma_mirror_cell_at(b, step_coord(r, dr, j), step_coord(f, df, j));
        }
        assert(ray_dest(b, us, 7 - r, f, -dr, df, 7 - tr, tf));
    }
    if ray_dest(b, us, 7 - r, f, -dr, df, 7 - tr, tf) {
        assert forall|j: int| 1 <= j < n implies is_empty_at(
            mb,
            #[trigger] step_coord(r, dr, j),
            step_coord(f, df, j),
        ) by {
            assert(step_coord(7 - r, -dr, j) == 7 - step_coord(r, dr, j));
            assert(is_empty_at(b, step_coord(7 - r, -dr, j), step_coord(f, df, j)));
            lemma_castle_between_on_board(7 - r, f, -dr, df, 7 - tr, tf, j);
            lemma_mirror_cell_at(b, step_coord(r, dr, j), step_coord(f, df, j));
        }
        assert(ray_dest(mb, opposite(us), r, f, dr, df, tr, tf));
    }
}

/// A strictly intervening square of an on-board ray segment is itself on
/// the board.
pub proof fn lemma_castle_between_on_board(r: int, f: int, dr: int, df: int, tr: int, tf: int, j: int)
    requires
        valid_dir(dr, df),
        on_board(r, f),
        on_board(tr, tf),
        tr == step_coord(r, dr, dist(r, f, tr, tf)),
        tf == step_coord(f, df, dist(r, f, tr, tf)),
        1 <= j < dist(r, f, tr, tf),
        dist(r, f, tr, tf) >= 1,
    ensures
        on_board(step_coord(r, dr, j), step_coord(f, df, j)),
{
}


/// The rook destinations mirror.
pub proof fn lemma_mirror_rook(b: Seq<Cell>, us: Color, r: int, f: int, tr: int, tf: int)
    requires
        b.len() == 64,
        on_board(r, f),
    ensures
        rook_dest(mirror_board(b), opposite(us), r, f, tr, tf) == rook_dest(
            b,
            us,
            7 - r,
            f,
            7 - tr,
            tf,
        ),
{
    lemma_mirror_ray(b, us, r, f, rook_dirs(0).0, rook_dirs(0).1, tr, tf);
    lemma_mirror_ray(b, us, r, f, rook_dirs(1).0, rook_dirs(1).1, tr, tf);
    lemma_mirror_ray(b, us, r, f, rook_dirs(2).0, rook_dirs(2).1, tr, tf);
    lemma_mirror_ray(b, us, r, f, rook_dirs(3).0, rook_dirs(3).1, tr, tf);
    if rook_dest(mirror_board(b), opposite(us), r, f, tr, tf) {
        let i = choose|i: int|
            0 <= i < 4 && #[trigger] ray_dest(
                mirror_board(b),
                opposite(us),
                r,
                f,
                rook_dirs(i).0,
                rook_dirs(i).1,
                tr,
                tf,
            );
            if i == 0 {
                assert(ray_dest(b, us, 7 - r, f, rook_dirs(0).0, rook_dirs(0).1, 7 - tr, tf));
            } else if i == 1 {
                assert(ray_dest(b, us, 7 - r, f, rook_dirs(1).0, rook_dirs(1).1, 7 - tr, tf));
            } else if i == 2 {
                assert(ray_dest(b, us, 7 - r, f, rook_dirs(3).0, rook_dirs(3).1, 7 - tr, tf));
            } else if i == 3 {
                assert(ray_dest(b, us, 7 - r, f, rook_dirs(2).0, rook_dirs(2).1, 7 - tr, tf));
            }
    }
    if rook_dest(b, us, 7 - r, f, 7 - tr, tf) {
        let i = choose|i: int|
            0 <= i < 4 && #[trigger] ray_dest(b, us, 7 - r, f, rook_dirs(i).0, rook_dirs(i).1, 7 - tr, tf);
            if i == 0 {
                assert(ray_dest(mirror_board(b), opposite(us), r, f, rook_dirs(0).0, rook_dirs(0).1, tr,
                    tf));
            } else if i == 1 {
                assert(ray_dest(mirror_board(b), opposite(us), r, f, rook_dirs(1).0, rook_dirs(1).1, tr,
                    tf));
            } else if i == 2 {
                assert(ray_dest(mirror_board(b), opposite(us), r, f, rook_dirs(3).0, rook_dirs(3).1, tr,
                    tf));
            } else if i == 3 {
                assert(ray_dest(mirror_board(b), opposite(us), r, f, rook_dirs(2).0, rook_dirs(2).1, tr,
                    tf));
            }
    }
}

/// The bishop destinations mirror.
pub proof fn lemma_mirror_bishop(b: Seq<Cell>, us: Color, r: int, f: int, tr: int, tf: int)
    requires
        b.len() == 64,
        on_board(r, f),
    ensures
        bishop_dest(mirror_board(b), opposite(us), r, f, tr, tf) == bishop_dest(
            b,
            us,
            7 - r,
            f,
            7 - tr,
            tf,
        ),
{
    lemma_mirror_ray(b, us, r, f, bishop_dirs(0).0, bishop_dirs(0).1, tr, tf);
    lemma_mirror_ray(b, us, r, f, bishop_dirs(1).0, bishop_dirs(1).1, tr, tf);
    lemma_mirror_ray(b, us, r, f, bishop_dirs(2).0, bishop_dirs(2).1, tr, tf);
    lemma_mirror_ray(b, us, r, f, bishop_dirs(3).0, bishop_dirs(3).1, tr, tf);
    if bishop_dest(mirror_board(b), opposite(us), r, f, tr, tf) {
        let i = choose|i: int|
            0 <= i < 4 && #[trigger] ray_dest(
                mirror_board(b),
                opposite(us),
                r,
                f,
                bishop_dirs(i).0,
                bishop_dirs(i).1,
                tr,
                tf,
            );
            if i == 0 {
                assert(ray_dest(b, us, 7 - r, f, bishop_dirs(1).0, bishop_dirs(1).1, 7 - tr, tf));
            } else if i == 1 {
                assert(ray_dest(b, us, 7 - r, f, bishop_dirs(0).0, bishop_dirs(0).1, 7 - tr, tf));
            } else if i == 2 {
                assert(ray_dest(b, us, 7 - r, f, bishop_dirs(3).0, bishop_dirs(3).1, 7 - tr, tf));
            } else if i == 3 {
                assert(ray_dest(b, us, 7 - r, f, bishop_dirs(2).0, bishop_dirs(2).1, 7 - tr, tf));
            }
    }
    if bishop_dest(b, us, 7 - r, f, 7 - tr, tf) {
        let i = choose|i: int|
            0 <= i < 4 && #[trigger] ray_dest(b, us, 7 - r, f, bishop_dirs(i).0, bishop_dirs(i).1, 7 - tr, tf);
            if i == 0 {
                assert(ray_dest(mirror_board(b), opposite(us), r, f, bishop_dirs(1).0, bishop_dirs(1).1, tr,
                    tf));
            } else if i == 1 {
                assert(ray_dest(mirror_board(b), opposite(us), r, f, bishop_dirs(0).0, bishop_dirs(0).1, tr,
                    tf));
            } else if i == 2 {
                assert(ray_dest(mirror_board(b), opposite(us), r, f, bishop_dirs(3).0, bishop_dirs(3).1, tr,
                    tf));
            } else if i == 3 {
                assert(ray_dest(mirror_board(b), opposite(us), r, f, bishop_dirs(2).0, bishop_dirs(2).1, tr,
                    tf));
            }
    }
}

/// The queen destinations mirror.
pub proof fn lemma_mirror_queen(b: Seq<Cell>, us: Color, r: int, f: int, tr: int, tf: int)
    requires
        b.len() == 64,
        on_board(r, f),
    ensures
        queen_dest(mirror_board(b), opposite(us), r, f, tr, tf) == queen_dest(
            b,
            us,
            7 - r,
            f,
            7 - tr,
            tf,
        ),
{
    lemma_mirror_ray(b, us, r, f, queen_dirs(0).0, queen_dirs(0).1, tr, tf);
    lemma_mirror_ray(b, us, r, f, queen_dirs(1).0, queen_dirs(1).1, tr, tf);
    lemma_mirror_ray(b, us, r, f, queen_dirs(2).0, queen_dirs(2).1, tr, tf);
    lemma_mirror_ray(b, us, r, f, queen_dirs(3).0, queen_dirs(3).1, tr, tf);
    lemma_mirror_ray(b, us, r, f, queen_dirs(4).0, queen_dirs(4).1, tr, tf);
    lemma_mirror_ray(b, us, r, f, queen_dirs(5).0, queen_dirs(5).1, tr, tf);
    lemma_mirror_ray(b, us, r, f, queen_dirs(6).0, queen_dirs(6).1, tr, tf);
    lemma_mirror_ray(b, us, r, f, queen_dirs(7).0, queen_dirs(7).1, tr, tf);
    if queen_dest(mirror_board(b), opposite(us), r, f, tr, tf) {
        let i = choose|i: int|
            0 <= i < 8 && #[trigger] ray_dest(
                mirror_board(b),
                opposite(us),
                r,
                f,
                queen_dirs(i).0,
                queen_dirs(i).1,
                tr,
                tf,
            );
            if i == 0 {
                assert(ray_dest(b, us, 7 - r, f, queen_dirs(0).0, queen_dirs(0).1, 7 - tr, tf));
            } else if i == 1 {
                assert(ray_dest(b, us, 7 - r, f, queen_dirs(1).0, queen_dirs(1).1, 7 - tr, tf));
            } else if i == 2 {
                assert(ray_dest(b, us, 7 - r, f, queen_dirs(3).0, queen_dirs(3).1, 7 - tr, tf));
            } else if i == 3 {
                assert(ray_dest(b, us, 7 - r, f, queen_dirs(2).0, queen_dirs(2).1, 7 - tr, tf));
            } else if i == 4 {
                assert(ray_dest(b, us, 7 - r, f, queen_dirs(5).0, queen_dirs(5).1, 7 - tr, tf));
            } else if i == 5 {
                assert(ray_dest(b, us, 7 - r, f, queen_dirs(4).0, queen_dirs(4).1, 7 - tr, tf));
            } else if i == 6 {
                assert(ray_dest(b, us, 7 - r, f, queen_dirs(7).0, queen_dirs(7).1, 7 - tr, tf));
            } else if i == 7 {
                assert(ray_dest(b, us, 7 - r, f, queen_dirs(6).0, queen_dirs(6).1, 7 - tr, tf));
            }
    }
    if queen_dest(b, us, 7 - r, f, 7 - tr, tf) {
        let i = choose|i: int|
            0 <= i < 8 && #[trigger] ray_dest(b, us, 7 - r, f, queen_dirs(i).0, queen_dirs(i).1, 7 - tr, tf);
            if i == 0 {
                assert(ray_dest(mirror_board(b), opposite(us), r, f, queen_dirs(0).0, queen_dirs(0).1, tr,
                    tf));
            } else if i == 1 {
                assert(ray_dest(mirror_board(b), opposite(us), r, f, queen_dirs(1).0, queen_dirs(1).1, tr,
                    tf));
            } else if i == 2 {
                assert(ray_dest(mirror_board(b), opposite(us), r, f, queen_dirs(3).0, queen_dirs(3).1, tr,
                    tf));
            } else if i == 3 {
                assert(ray_dest(mirror_board(b), opposite(us), r, f, queen_dirs(2).0, queen_dirs(2).1, tr,
                    tf));
            } else if i == 4 {
                assert(ray_dest(mirror_board(b), opposite(us), r, f, queen_dirs(5).0, queen_dirs(5).1, tr,
                    tf));
            } else if i == 5 {
                assert(ray_dest(mirror_board(b), opposite(us), r, f, queen_dirs(4).0, queen_dirs(4).1, tr,
                    tf));
            } else if i == 6 {
                assert(ray_dest(mirror_board(b), opposite(us), r, f, queen_dirs(7).0, queen_dirs(7).1, tr,
                    tf));
            } else if i == 7 {
                assert(ray_dest(mirror_board(b), opposite(us), r, f, queen_dirs(6).0, queen_dirs(6).1, tr,
                    tf));
            }
    }
}


/// The knight destinations mirror.
pub proof fn lemma_mirror_knight(b: Seq<Cell>, us: Color, r: int, f: int, tr: int, tf: int)
    requires
        b.len() == 64,
        on_board(r, f),
    ensures
        knight_dest(mirror_board(b), opposite(us), r, f, tr, tf) == knight_dest(
            b,
            us,
            7 - r,
            f,
            7 - tr,
            tf,
        ),
{
    if on_board(tr, tf) {
        lemma_mirror_cell_at(b, tr, tf);
    }
}

/// The plain king steps mirror.
pub proof fn lemma_mirror_king_step(b: Seq<Cell>, us: Color, r: int, f: int, tr: int, tf: int)
    requires
        b.len() == 64,
        on_board(r, f),
    ensures
        king_step_dest(mirror_board(b), opposite(us), r, f, tr, tf) == king_step_dest(
            b,
            us,
            7 - r,
            f,
            7 - tr,
            tf,
        ),
{
    if on_board(tr, tf) {
        lemma_mirror_cell_at(b, tr, tf);
    }
}

/// The pawn destinations mirror: the other color advances the other
/// way, from the reflected home rank, toward the reflected target.
pub proof fn lemma_mirror_pawn(
    b: Seq<Cell>,
    ep: (int, int),
    us: Color,
    r: int,
    f: int,
    tr: int,
    tf: int,
)
    requires
        b.len() == 64,
        on_board(r, f),
    ensures
        pawn_attack_dest(mirror_board(b), mirror_sq(ep), opposite(us), r, f, tr, tf)
            == pawn_attack_dest(b, ep, us, 7 - r, f, 7 - tr, tf),
        pawn_push_dest(mirror_board(b), opposite(us), r, f, tr, tf) == pawn_push_dest(
            b,
            us,
            7 - r,
            f,
            7 - tr,
            tf,
        ),
        pawn_dest(mirror_board(b), mirror_sq(ep), opposite(us), r, f, tr, tf) == pawn_dest(
            b,
            ep,
            us,
            7 - r,
            f,
            7 - tr,
            tf,
        ),
{
    assert(pawn_dir(opposite(us)) == -pawn_dir(us));
    assert(pawn_home(opposite(us)) == 7 - pawn_home(us));
    if on_board(tr, tf) {
        lemma_mirror_cell_at(b, tr, tf);
    }
    if on_board(r + pawn_dir(opposite(us)), f) {
        lemma_mirror_cell_at(b, r + pawn_dir(opposite(us)), f);
    }
}

/// The castle destinations mirror: the sides swap along with the
/// rights.
pub proof fn lemma_mirror_castle(
    b: Seq<Cell>,
    cr: CastlingRights,
    r: int,
    f: int,
    tr: int,
    tf: int,
)
    requires
        b.len() == 64,
    ensures
        castle_dest(mirror_board(b), mirror_rights(cr), r, f, tr, tf) == castle_dest(
            b,
            cr,
            7 - r,
            f,
            7 - tr,
            tf,
        ),
{
    if on_board(r, f) {
        lemma_mirror_cell_at(b, r, f);
    }
    lemma_mirror_cell_at(b, 0, 0);
    lemma_mirror_cell_at(b, 0, 1);
    lemma_mirror_cell_at(b, 0, 2);
    lemma_mirror_cell_at(b, 0, 3);
    lemma_mirror_cell_at(b, 0, 5);
    lemma_mirror_cell_at(b, 0, 6);
    lemma_mirror_cell_at(b, 0, 7);
    lemma_mirror_cell_at(b, 7, 0);
    lemma_mirror_cell_at(b, 7, 1);
    lemma_mirror_cell_at(b, 7, 2);
    lemma_mirror_cell_at(b, 7, 3);
    lemma_mirror_cell_at(b, 7, 5);
    lemma_mirror_cell_at(b, 7, 6);
    lemma_mirror_cell_at(b, 7, 7);
}

/// Any piece's pseudo-legal destinations mirror.
pub proof fn lemma_mirror_piece_dest(
    b: Seq<Cell>,
    ep: (int, int),
    cr: CastlingRights,
    r: int,
    f: int,
    tr: int,
    tf: int,
)
    requires
        b.len() == 64,
        on_board(r, f),
    ensures
        crate::possible_moves::piece_dest(mirror_board(b), mirror_sq(ep), mirror_rights(cr), r, f, tr, tf)
            == crate::possible_moves::piece_dest(b, ep, cr, 7 - r, f, 7 - tr, tf),
{
    lemma_mirror_cell_at(b, r, f);
    match cell_at(b, 7 - r, f) {
        Cell::Empty => {},
        Cell::Piece { color, kind } => {
            match kind {
                PieceKind::Pawn => {
                    lemma_mirror_pawn(b, ep, color, r, f, tr, tf);
                },
                PieceKind::Rook => {
                    lemma_mirror_rook(b, color, r, f, tr, tf);
                },
                PieceKind::Knight => {
                    lemma_mirror_knight(b, color, r, f, tr, tf);
                },
                PieceKind::Bishop => {
                    lemma_mirror_bishop(b, color, r, f, tr, tf);
                },
                PieceKind::Queen => {
                    lemma_mirror_queen(b, color, r, f, tr, tf);
                },
                PieceKind::King => {
                    lemma_mirror_king_step(b, color, r, f, tr, tf);
                    lemma_mirror_castle(b, cr, r, f, tr, tf);
                },
            }
        },
    }
}


/// Attacked squares mirror.
pub proof fn lemma_mirror_attacked(b: Seq<Cell>, ep: (int, int), us: Color, tr: int, tf: int)
    requires
        b.len() == 64,
    ensures
        crate::possible_moves::square_attacked(mirror_board(b), mirror_sq(ep), opposite(us), tr, tf)
            == crate::possible_moves::square_attacked(b, ep, us, 7 - tr, tf),
{
    let mb = mirror_board(b);
    let mep = mirror_sq(ep);
    let none = CastlingRights::spec_none();
    assert(mirror_rights(none) == none);
    if crate::possible_moves::square_attacked(mb, mep, opposite(us), tr, tf) {
        let (ar, af) = choose|ar: int, af: int|
            #[trigger] crate::possible_moves::attacks_from_spec(mb, mep, opposite(us), ar, af, tr, tf);
        lemma_mirror_cell_at(b, ar, af);
        lemma_mirror_piece_dest(b, ep, none, ar, af, tr, tf);
        assert(crate::possible_moves::attacks_from_spec(b, ep, us, 7 - ar, af, 7 - tr, tf));
    }
    if crate::possible_moves::square_attacked(b, ep, us, 7 - tr, tf) {
        let (ar, af) = choose|ar: int, af: int|
            #[trigger] crate::possible_moves::attacks_from_spec(b, ep, us, ar, af, 7 - tr, tf);
        lemma_mirror_cell_at(b, 7 - ar, af);
        lemma_mirror_piece_dest(b, ep, none, 7 - ar, af, tr, tf);
        assert(crate::possible_moves::attacks_from_spec(mb, mep, opposite(us), 7 - ar, af, tr, tf));
    }
}

/// Attackers of the king square mirror.
pub proof fn lemma_mirror_attacker_at(
    b: Seq<Cell>,
    ep: (int, int),
    us: Color,
    k: (int, int),
    a: (int, int),
)
    requires
        b.len() == 64,
    ensures
        crate::possible_moves::attacker_at(mirror_board(b), mirror_sq(ep), opposite(us), k, a)
            == crate::possible_moves::attacker_at(b, ep, us, mirror_sq(k), mirror_sq(a)),
{
    let none = CastlingRights::spec_none();
    assert(mirror_rights(none) == none);
    if on_board(a.0, a.1) {
        lemma_mirror_cell_at(b, a.0, a.1);
        lemma_mirror_piece_dest(b, ep, none, a.0, a.1, k.0, k.1);
    }
}

/// The unique king mirrors to the reflected square.
pub proof fn lemma_mirror_kings(b: Seq<Cell>, us: Color)
    requires
        b.len() == 64,
        crate::possible_moves::unique_king(b, us),
    ensures
        crate::possible_moves::unique_king(mirror_board(b), opposite(us)),
        crate::possible_moves::king_square(mirror_board(b), opposite(us)) == mirror_sq(
            crate::possible_moves::king_square(b, us),
        ),
{
    let mb = mirror_board(b);
    assert forall|sq: (int, int)|
        #[trigger] crate::possible_moves::king_at(mb, opposite(us), sq)
            == crate::possible_moves::king_at(b, us, mirror_sq(sq)) by {
        if on_board(sq.0, sq.1) {
            lemma_mirror_cell_at(b, sq.0, sq.1);
        }
    }
    let k = crate::possible_moves::king_square(b, us);
    assert(crate::possible_moves::king_at(b, us, k)) by {
        let sq = choose|sq: (int, int)| crate::possible_moves::king_at(b, us, sq);
        assert(crate::possible_moves::king_at(b, us, sq));
    }
    assert(crate::possible_moves::king_at(mb, opposite(us), mirror_sq(k))) by {
        assert(mirror_sq(mirror_sq(k)) == k);
    }
    assert forall|s1: (int, int), s2: (int, int)|
        #[trigger] crate::possible_moves::king_at(mb, opposite(us), s1)
            && #[trigger] crate::possible_moves::king_at(mb, opposite(us), s2) implies s1
        == s2 by {
        assert(crate::possible_moves::king_at(b, us, mirror_sq(s1)));
        assert(crate::possible_moves::king_at(b, us, mirror_sq(s2)));
        assert(mirror_sq(s1) == mirror_sq(s2));
    }
    let mk = crate::possible_moves::king_square(mb, opposite(us));
    assert(crate::possible_moves::king_at(mb, opposite(us), mk)) by {
        let sq = choose|sq: (int, int)| crate::possible_moves::king_at(mb, opposite(us), sq);
        assert(crate::possible_moves::king_at(mb, opposite(us), sq));
    }
    assert(mk == mirror_sq(k));
}


/// The attacking-ray pair of a rook mirrors.
#[verifier::rlimit(100)]
proof fn lemma_mirror_ray_pair_rook(
    b: Seq<Cell>,
    us2: Color,
    a: (int, int),
    k: (int, int),
    tr: int,
    tf: int,
)
    requires
        b.len() == 64,
        on_board(a.0, a.1),
    ensures
        (exists|i: int|
            0 <= i < 4 && #[trigger] ray_dest(
                mirror_board(b),
                opposite(us2),
                a.0,
                a.1,
                rook_dirs(i).0,
                rook_dirs(i).1,
                k.0,
                k.1,
            ) && ray_dest(mirror_board(b), opposite(us2), a.0, a.1, rook_dirs(i).0, rook_dirs(i).1, tr, tf))
            == (exists|i: int|
            0 <= i < 4 && #[trigger] ray_dest(
                b,
                us2,
                mirror_sq(a).0,
                mirror_sq(a).1,
                rook_dirs(i).0,
                rook_dirs(i).1,
                mirror_sq(k).0,
                mirror_sq(k).1,
            ) && ray_dest(b, us2, mirror_sq(a).0, mirror_sq(a).1, rook_dirs(i).0, rook_dirs(i).1, 7 - tr, tf)),
{
    lemma_mirror_ray(b, us2, a.0, a.1, rook_dirs(0).0, rook_dirs(0).1, k.0, k.1);
    lemma_mirror_ray(b, us2, a.0, a.1, rook_dirs(0).0, rook_dirs(0).1, tr, tf);
    lemma_mirror_ray(b, us2, a.0, a.1, rook_dirs(1).0, rook_dirs(1).1, k.0, k.1);
    lemma_mirror_ray(b, us2, a.0, a.1, rook_dirs(1).0, rook_dirs(1).1, tr, tf);
    lemma_mirror_ray(b, us2, a.0, a.1, rook_dirs(2).0, rook_dirs(2).1, k.0, k.1);
    lemma_mirror_ray(b, us2, a.0, a.1, rook_dirs(2).0, rook_dirs(2).1, tr, tf);
    lemma_mirror_ray(b, us2, a.0, a.1, rook_dirs(3).0, rook_dirs(3).1, k.0, k.1);
    lemma_mirror_ray(b, us2, a.0, a.1, rook_dirs(3).0, rook_dirs(3).1, tr, tf);
    if exists|i: int|
        0 <= i < 4 && #[trigger] ray_dest(
            mirror_board(b),
            opposite(us2),
            a.0,
            a.1,
            rook_dirs(i).0,
            rook_dirs(i).1,
            k.0,
            k.1,
        ) && ray_dest(mirror_board(b), opposite(us2), a.0, a.1, rook_dirs(i).0, rook_dirs(i).1, tr, tf) {
        let i = choose|i: int|
            0 <= i < 4 && #[trigger] ray_dest(
                mirror_board(b),
                opposite(us2),
                a.0,
                a.1,
                rook_dirs(i).0,
                rook_dirs(i).1,
                k.0,
                k.1,
            ) && ray_dest(mirror_board(b), opposite(us2), a.0, a.1, rook_dirs(i).0, rook_dirs(i).1, tr, tf);
        if i == 0 {
            assert(ray_dest(b, us2, mirror_sq(a).0, mirror_sq(a).1, rook_dirs(0).0, rook_dirs(0).1,
                mirror_sq(k).0, mirror_sq(k).1) && ray_dest(b, us2, mirror_sq(a).0, mirror_sq(
                a,
            ).1, rook_dirs(0).0, rook_dirs(0).1, 7 - tr, tf));
        } else if i == 1 {
            assert(ray_dest(b, us2, mirror_sq(a).0, mirror_sq(a).1, rook_dirs(1).0, rook_dirs(1).1,
                mirror_sq(k).0, mirror_sq(k).1) && ray_dest(b, us2, mirror_sq(a).0, mirror_sq(
                a,
            ).1, rook_dirs(1).0, rook_dirs(1).1, 7 - tr, tf));
        } else if i == 2 {
            assert(ray_dest(b, us2, mirror_sq(a).0, mirror_sq(a).1, rook_dirs(3).0, rook_dirs(3).1,
                mirror_sq(k).0, mirror_sq(k).1) && ray_dest(b, us2, mirror_sq(a).0, mirror_sq(
                a,
            ).1, rook_dirs(3).0, rook_dirs(3).1, 7 - tr, tf));
        } else if i == 3 {
            assert(ray_dest(b, us2, mirror_sq(a).0, mirror_sq(a).1, rook_dirs(2).0, rook_dirs(2).1,
                mirror_sq(k).0, mirror_sq(k).1) && ray_dest(b, us2, mirror_sq(a).0, mirror_sq(
                a,
            ).1, rook_dirs(2).0, rook_dirs(2).1, 7 - tr, tf));
        }
    }
    if exists|i: int|
        0 <= i < 4 && #[trigger] ray_dest(
            b,
            us2,
            mirror_sq(a).0,
            mirror_sq(a).1,
            rook_dirs(i).0,
            rook_dirs(i).1,
            mirror_sq(k).0,
            mirror_sq(k).1,
        ) && ray_dest(b, us2, mirror_sq(a).0, mirror_sq(a).1, rook_dirs(i).0, rook_dirs(i).1, 7 - tr, tf) {
        let i = choose|i: int|
            0 <= i < 4 && #[trigger] ray_dest(
                b,
                us2,
                mirror_sq(a).0,
                mirror_sq(a).1,
                rook_dirs(i).0,
                rook_dirs(i).1,
                mirror_sq(k).0,
                mirror_sq(k).1,
            ) && ray_dest(b, us2, mirror_sq(a).0, mirror_sq(a).1, rook_dirs(i).0, rook_dirs(i).1, 7 - tr, tf);
        if i == 0 {
            assert(ray_dest(mirror_board(b), opposite(us2), a.0, a.1, rook_dirs(0).0, rook_dirs(0).1, k.0,
                k.1) && ray_dest(mirror_board(b), opposite(us2), a.0, a.1, rook_dirs(0).0, rook_dirs(
                0,
            ).1, tr, tf));
        } else if i == 1 {
            assert(ray_dest(mirror_board(b), opposite(us2), a.0, a.1, rook_dirs(1).0, rook_dirs(1).1, k.0,
                k.1) && ray_dest(mirror_board(b), opposite(us2), a.0, a.1, rook_dirs(1).0, rook_dirs(
                1,
            ).1, tr, tf));
        } else if i == 2 {
            assert(ray_dest(mirror_board(b), opposite(us2), a.0, a.1, rook_dirs(3).0, rook_dirs(3).1, k.0,
                k.1) && ray_dest(mirror_board(b), opposite(us2), a.0, a.1, rook_dirs(3).0, rook_dirs(
                3,
            ).1, tr, tf));
        } else if i == 3 {
            assert(ray_dest(mirror_board(b), opposite(us2), a.0, a.1, rook_dirs(2).0, rook_dirs(2).1, k.0,
                k.1) && ray_dest(mirror_board(b), opposite(us2), a.0, a.1, rook_dirs(2).0, rook_dirs(
                2,
            ).1, tr, tf));
        }
    }
}

/// The attacking-ray pair of a bishop mirrors.
#[verifier::rlimit(100)]
proof fn lemma_mirror_ray_pair_bishop(
    b: Seq<Cell>,
    us2: Color,
    a: (int, int),
    k: (int, int),
    tr: int,
    tf: int,
)
    requires
        b.len() == 64,
        on_board(a.0, a.1),
    ensures
        (exists|i: int|
            0 <= i < 4 && #[trigger] ray_dest(
                mirror_board(b),
                opposite(us2),
                a.0,
                a.1,
                bishop_dirs(i).0,
                bishop_dirs(i).1,
                k.0,
                k.1,
            ) && ray_dest(mirror_board(b), opposite(us2), a.0, a.1, bishop_dirs(i).0, bishop_dirs(i).1, tr, tf))
            == (exists|i: int|
            0 <= i < 4 && #[trigger] ray_dest(
                b,
                us2,
                mirror_sq(a).0,
                mirror_sq(a).1,
                bishop_dirs(i).0,
                bishop_dirs(i).1,
                mirror_sq(k).0,
                mirror_sq(k).1,
            ) && ray_dest(b, us2, mirror_sq(a).0, mirror_sq(a).1, bishop_dirs(i).0, bishop_dirs(i).1, 7 - tr, tf)),
{
    lemma_mirror_ray(b, us2, a.0, a.1, bishop_dirs(0).0, bishop_dirs(0).1, k.0, k.1);
    lemma_mirror_ray(b, us2, a.0, a.1, bishop_dirs(0).0, bishop_dirs(0).1, tr, tf);
    lemma_mirror_ray(b, us2, a.0, a.1, bishop_dirs(1).0, bishop_dirs(1).1, k.0, k.1);
    lemma_mirror_ray(b, us2, a.0, a.1, bishop_dirs(1).0, bishop_dirs(1).1, tr, tf);
    lemma_mirror_ray(b, us2, a.0, a.1, bishop_dirs(2).0, bishop_dirs(2).1, k.0, k.1);
    lemma_mirror_ray(b, us2, a.0, a.1, bishop_dirs(2).0, bishop_dirs(2).1, tr, tf);
    lemma_mirror_ray(b, us2, a.0, a.1, bishop_dirs(3).0, bishop_dirs(3).1, k.0, k.1);
    lemma_mirror_ray(b, us2, a.0, a.1, bishop_dirs(3).0, bishop_dirs(3).1, tr, tf);
    if exists|i: int|
        0 <= i < 4 && #[trigger] ray_dest(
            mirror_board(b),
            opposite(us2),
            a.0,
            a.1,
            bishop_dirs(i).0,
            bishop_dirs(i).1,
            k.0,
            k.1,
        ) && ray_dest(mirror_board(b), opposite(us2), a.0, a.1, bishop_dirs(i).0, bishop_dirs(i).1, tr, tf) {
        let i = choose|i: int|
            0 <= i < 4 && #[trigger] ray_dest(
                mirror_board(b),
                opposite(us2),
                a.0,
                a.1,
                bishop_dirs(i).0,
                bishop_dirs(i).1,
                k.0,
                k.1,
            ) && ray_dest(mirror_board(b), opposite(us2), a.0, a.1, bishop_dirs(i).0, bishop_dirs(i).1, tr, tf);
        if i == 0 {
            assert(ray_dest(b, us2, mirror_sq(a).0, mirror_sq(a).1, bishop_dirs(1).0, bishop_dirs(1).1,
                mirror_sq(k).0, mirror_sq(k).1) && ray_dest(b, us2, mirror_sq(a).0, mirror_sq(
                a,
            ).1, bishop_dirs(1).0, bishop_dirs(1).1, 7 - tr, tf));
        } else if i == 1 {
            assert(ray_dest(b, us2, mirror_sq(a).0, mirror_sq(a).1, bishop_dirs(0).0, bishop_dirs(0).1,
                mirror_sq(k).0, mirror_sq(k).1) && ray_dest(b, us2, mirror_sq(a).0, mirror_sq(
                a,
            ).1, bishop_dirs(0).0, bishop_dirs(0).1, 7 - tr, tf));
        } else if i == 2 {
            assert(ray_dest(b, us2, mirror_sq(a).0, mirror_sq(a).1, bishop_dirs(3).0, bishop_dirs(3).1,
                mirror_sq(k).0, mirror_sq(k).1) && ray_dest(b, us2, mirror_sq(a).0, mirror_sq(
                a,
            ).1, bishop_dirs(3).0, bishop_dirs(3).1, 7 - tr, tf));
        } else if i == 3 {
            assert(ray_dest(b, us2, mirror_sq(a).0, mirror_sq(a).1, bishop_dirs(2).0, bishop_dirs(2).1,
                mirror_sq(k).0, mirror_sq(k).1) && ray_dest(b, us2, mirror_sq(a).0, mirror_sq(
                a,
            ).1, bishop_dirs(2).0, bishop_dirs(2).1, 7 - tr, tf));
        }
    }
    if exists|i: int|
        0 <= i < 4 && #[trigger] ray_dest(
            b,
            us2,
            mirror_sq(a).0,
            mirror_sq(a).1,
            bishop_dirs(i).0,
            bishop_dirs(i).1,
            mirror_sq(k).0,
            mirror_sq(k).1,
        ) && ray_dest(b, us2, mirror_sq(a).0, mirror_sq(a).1, bishop_dirs(i).0, bishop_dirs(i).1, 7 - tr, tf) {
        let i = choose|i: int|
            0 <= i < 4 && #[trigger] ray_dest(
                b,
                us2,
                mirror_sq(a).0,
                mirror_sq(a).1,
                bishop_dirs(i).0,
                bishop_dirs(i).1,
                mirror_sq(k).0,
                mirror_sq(k).1,
            ) && ray_dest(b, us2, mirror_sq(a).0, mirror_sq(a).1, bishop_dirs(i).0, bishop_dirs(i).1, 7 - tr, tf);
        if i == 0 {
            assert(ray_dest(mirror_board(b), opposite(us2), a.0, a.1, bishop_dirs(1).0, bishop_dirs(1).1, k.0,
                k.1) && ray_dest(mirror_board(b), opposite(us2), a.0, a.1, bishop_dirs(1).0, bishop_dirs(
                1,
            ).1, tr, tf));
        } else if i == 1 {
            assert(ray_dest(mirror_board(b), opposite(us2), a.0, a.1, bishop_dirs(0).0, bishop_dirs(0).1, k.0,
                k.1) && ray_dest(mirror_board(b), opposite(us2), a.0, a.1, bishop_dirs(0).0, bishop_dirs(
                0,
            ).1, tr, tf));
        } else if i == 2 {
            assert(ray_dest(mirror_board(b), opposite(us2), a.0, a.1, bishop_dirs(3).0, bishop_dirs(3).1, k.0,
                k.1) && ray_dest(mirror_board(b), opposite(us2), a.0, a.1, bishop_dirs(3).0, bishop_dirs(
                3,
            ).1, tr, tf));
        } else if i == 3 {
            assert(ray_dest(mirror_board(b), opposite(us2), a.0, a.1, bishop_dirs(2).0, bishop_dirs(2).1, k.0,
                k.1) && ray_dest(mirror_board(b), opposite(us2), a.0, a.1, bishop_dirs(2).0, bishop_dirs(
                2,
            ).1, tr, tf));
        }
    }
}

/// The attacking-ray pair of a queen mirrors.
#[verifier::rlimit(100)]
proof fn lemma_mirror_ray_pair_queen(
    b: Seq<Cell>,
    us2: Color,
    a: (int, int),
    k: (int, int),
    tr: int,
    tf: int,
)
    requires
        b.len() == 64,
        on_board(a.0, a.1),
    ensures
        (exists|i: int|
            0 <= i < 8 && #[trigger] ray_dest(
                mirror_board(b),
                opposite(us2),
                a.0,
                a.1,
                queen_dirs(i).0,
                queen_dirs(i).1,
                k.0,
                k.1,
            ) && ray_dest(mirror_board(b), opposite(us2), a.0, a.1, queen_dirs(i).0, queen_dirs(i).1, tr, tf))
            == (exists|i: int|
            0 <= i < 8 && #[trigger] ray_dest(
                b,
                us2,
                mirror_sq(a).0,
                mirror_sq(a).1,
                queen_dirs(i).0,
                queen_dirs(i).1,
                mirror_sq(k).0,
                mirror_sq(k).1,
            ) && ray_dest(b, us2, mirror_sq(a).0, mirror_sq(a).1, queen_dirs(i).0, queen_dirs(i).1, 7 - tr, tf)),
{
    lemma_mirror_ray(b, us2, a.0, a.1, queen_dirs(0).0, queen_dirs(0).1, k.0, k.1);
    lemma_mirror_ray(b, us2, a.0, a.1, queen_dirs(0).0, queen_dirs(0).1, tr, tf);
    lemma_mirror_ray(b, us2, a.0, a.1, queen_dirs(1).0, queen_dirs(1).1, k.0, k.1);
    lemma_mirror_ray(b, us2, a.0, a.1, queen_dirs(1).0, queen_dirs(1).1, tr, tf);
    lemma_mirror_ray(b, us2, a.0, a.1, queen_dirs(2).0, queen_dirs(2).1, k.0, k.1);
    lemma_mirror_ray(b, us2, a.0, a.1, queen_dirs(2).0, queen_dirs(2).1, tr, tf);
    lemma_mirror_ray(b, us2, a.0, a.1, queen_dirs(3).0, queen_dirs(3).1, k.0, k.1);
    lemma_mirror_ray(b, us2, a.0, a.1, queen_dirs(3).0, queen_dirs(3).1, tr, tf);
    lemma_mirror_ray(b, us2, a.0, a.1, queen_dirs(4).0, queen_dirs(4).1, k.0, k.1);
    lemma_mirror_ray(b, us2, a.0, a.1, queen_dirs(4).0, queen_dirs(4).1, tr, tf);
    lemma_mirror_ray(b, us2, a.0, a.1, queen_dirs(5).0, queen_dirs(5).1, k.0, k.1);
    lemma_mirror_ray(b, us2, a.0, a.1, queen_dirs(5).0, queen_dirs(5).1, tr, tf);
    lemma_mirror_ray(b, us2, a.0, a.1, queen_dirs(6).0, queen_dirs(6).1, k.0, k.1);
    lemma_mirror_ray(b, us2, a.0, a.1, queen_dirs(6).0, queen_dirs(6).1, tr, tf);
    lemma_mirror_ray(b, us2, a.0, a.1, queen_dirs(7).0, queen_dirs(7).1, k.0, k.1);
    lemma_mirror_ray(b, us2, a.0, a.1, queen_dirs(7).0, queen_dirs(7).1, tr, tf);
    if exists|i: int|
        0 <= i < 8 && #[trigger] ray_dest(
            mirror_board(b),
            opposite(us2),
            a.0,
            a.1,
            queen_dirs(i).0,
            queen_dirs(i).1,
            k.0,
            k.1,
        ) && ray_dest(mirror_board(b), opposite(us2), a.0, a.1, queen_dirs(i).0, queen_dirs(i).1, tr, tf) {
        let i = choose|i: int|
            0 <= i < 8 && #[trigger] ray_dest(
                mirror_board(b),
                opposite(us2),
                a.0,
                a.1,
                queen_dirs(i).0,
                queen_dirs(i).1,
                k.0,
                k.1,
            ) && ray_dest(mirror_board(b), opposite(us2), a.0, a.1, queen_dirs(i).0, queen_dirs(i).1, tr, tf);
        if i == 0 {
            assert(ray_dest(b, us2, mirror_sq(a).0, mirror_sq(a).1, queen_dirs(0).0, queen_dirs(0).1,
                mirror_sq(k).0, mirror_sq(k).1) && ray_dest(b, us2, mirror_sq(a).0, mirror_sq(
                a,
            ).1, queen_dirs(0).0, queen_dirs(0).1, 7 - tr, tf));
        } else if i == 1 {
            assert(ray_dest(b, us2, mirror_sq(a).0, mirror_sq(a).1, queen_dirs(1).0, queen_dirs(1).1,
                mirror_sq(k).0, mirror_sq(k).1) && ray_dest(b, us2, mirror_sq(a).0, mirror_sq(
                a,
            ).1, queen_dirs(1).0, queen_dirs(1).1, 7 - tr, tf));
        } else if i == 2 {
            assert(ray_dest(b, us2, mirror_sq(a).0, mirror_sq(a).1, queen_dirs(3).0, queen_dirs(3).1,
                mirror_sq(k).0, mirror_sq(k).1) && ray_dest(b, us2, mirror_sq(a).0, mirror_sq(
                a,
            ).1, queen_dirs(3).0, queen_dirs(3).1, 7 - tr, tf));
        } else if i == 3 {
            assert(ray_dest(b, us2, mirror_sq(a).0, mirror_sq(a).1, queen_dirs(2).0, queen_dirs(2).1,
                mirror_sq(k).0, mirror_sq(k).1) && ray_dest(b, us2, mirror_sq(a).0, mirror_sq(
                a,
            ).1, queen_dirs(2).0, queen_dirs(2).1, 7 - tr, tf));
        } else if i == 4 {
            assert(ray_dest(b, us2, mirror_sq(a).0, mirror_sq(a).1, queen_dirs(5).0, queen_dirs(5).1,
                mirror_sq(k).0, mirror_sq(k).1) && ray_dest(b, us2, mirror_sq(a).0, mirror_sq(
                a,
            ).1, queen_dirs(5).0, queen_dirs(5).1, 7 - tr, tf));
        } else if i == 5 {
            assert(ray_dest(b, us2, mirror_sq(a).0, mirror_sq(a).1, queen_dirs(4).0, queen_dirs(4).1,
                mirror_sq(k).0, mirror_sq(k).1) && ray_dest(b, us2, mirror_sq(a).0, mirror_sq(
                a,
            ).1, queen_dirs(4).0, queen_dirs(4).1, 7 - tr, tf));
        } else if i == 6 {
            assert(ray_dest(b, us2, mirror_sq(a).0, mirror_sq(a).1, queen_dirs(7).0, queen_dirs(7).1,
                mirror_sq(k).0, mirror_sq(k).1) && ray_dest(b, us2, mirror_sq(a).0, mirror_sq(
                a,
            ).1, queen_dirs(7).0, queen_dirs(7).1, 7 - tr, tf));
        } else if i == 7 {
            assert(ray_dest(b, us2, mirror_sq(a).0, mirror_sq(a).1, queen_dirs(6).0, queen_dirs(6).1,
                mirror_sq(k).0, mirror_sq(k).1) && ray_dest(b, us2, mirror_sq(a).0, mirror_sq(
                a,
            ).1, queen_dirs(6).0, queen_dirs(6).1, 7 - tr, tf));
        }
    }
    if exists|i: int|
        0 <= i < 8 && #[trigger] ray_dest(
            b,
            us2,
            mirror_sq(a).0,
            mirror_sq(a).1,
            queen_dirs(i).0,
            queen_dirs(i).1,
            mirror_sq(k).0,
            mirror_sq(k).1,
        ) && ray_dest(b, us2, mirror_sq(a).0, mirror_sq(a).1, queen_dirs(i).0, queen_dirs(i).1, 7 - tr, tf) {
        let i = choose|i: int|
            0 <= i < 8 && #[trigger] ray_dest(
                b,
                us2,
                mirror_sq(a).0,
                mirror_sq(a).1,
                queen_dirs(i).0,
                queen_dirs(i).1,
                mirror_sq(k).0,
                mirror_sq(k).1,
            ) && ray_dest(b, us2, mirror_sq(a).0, mirror_sq(a).1, queen_dirs(i).0, queen_dirs(i).1, 7 - tr, tf);
        if i == 0 {
            assert(ray_dest(mirror_board(b), opposite(us2), a.0, a.1, queen_dirs(0).0, queen_dirs(0).1, k.0,
                k.1) && ray_dest(mirror_board(b), opposite(us2), a.0, a.1, queen_dirs(0).0, queen_dirs(
                0,
            ).1, tr, tf));
        } else if i == 1 {
            assert(ray_dest(mirror_board(b), opposite(us2), a.0, a.1, queen_dirs(1).0, queen_dirs(1).1, k.0,
                k.1) && ray_dest(mirror_board(b), opposite(us2), a.0, a.1, queen_dirs(1).0, queen_dirs(
                1,
            ).1, tr, tf));
        } else if i == 2 {
            assert(ray_dest(mirror_board(b), opposite(us2), a.0, a.1, queen_dirs(3).0, queen_dirs(3).1, k.0,
                k.1) && ray_dest(mirror_board(b), opposite(us2), a.0, a.1, queen_dirs(3).0, queen_dirs(
                3,
            ).1, tr, tf));
        } else if i == 3 {
            assert(ray_dest(mirror_board(b), opposite(us2), a.0, a.1, queen_dirs(2).0, queen_dirs(2).1, k.0,
                k.1) && ray_dest(mirror_board(b), opposite(us2), a.0, a.1, queen_dirs(2).0, queen_dirs(
                2,
            ).1, tr, tf));
        } else if i == 4 {
            assert(ray_dest(mirror_board(b), opposite(us2), a.0, a.1, queen_dirs(5).0, queen_dirs(5).1, k.0,
                k.1) && ray_dest(mirror_board(b), opposite(us2), a.0, a.1, queen_dirs(5).0, queen_dirs(
                5,
            ).1, tr, tf));
        } else if i == 5 {
            assert(ray_dest(mirror_board(b), opposite(us2), a.0, a.1, queen_dirs(4).0, queen_dirs(4).1, k.0,
                k.1) && ray_dest(mirror_board(b), opposite(us2), a.0, a.1, queen_dirs(4).0, queen_dirs(
                4,
            ).1, tr, tf));
        } else if i == 6 {
            assert(ray_dest(mirror_board(b), opposite(us2), a.0, a.1, queen_dirs(7).0, queen_dirs(7).1, k.0,
                k.1) && ray_dest(mirror_board(b), opposite(us2), a.0, a.1, queen_dirs(7).0, queen_dirs(
                7,
            ).1, tr, tf));
        } else if i == 7 {
            assert(ray_dest(mirror_board(b), opposite(us2), a.0, a.1, queen_dirs(6).0, queen_dirs(6).1, k.0,
                k.1) && ray_dest(mirror_board(b), opposite(us2), a.0, a.1, queen_dirs(6).0, queen_dirs(
                6,
            ).1, tr, tf));
        }
    }
}

/// Attacking paths mirror.
#[verifier::rlimit(100)]
pub proof fn lemma_mirror_check_path(
    b: Seq<Cell>,
    ep: (int, int),
    a: (int, int),
    k: (int, int),
    tr: int,
    tf: int,
)
    requires
        b.len() == 64,
        on_board(a.0, a.1),
    ensures
        check_path(mirror_board(b), mirror_sq(ep), a, k, tr, tf) == check_path(
            b,
            ep,
            mirror_sq(a),
            mirror_sq(k),
            7 - tr,
            tf,
        ),
{
    let mb = mirror_board(b);
    lemma_mirror_cell_at(b, a.0, a.1);
    assert(mirror_sq(a).0 == 7 - a.0 && mirror_sq(a).1 == a.1);
    assert(cell_at(mb, a.0, a.1) == mirror_cell(cell_at(b, 7 - a.0, a.1)));
    match cell_at(b, 7 - a.0, a.1) {
        Cell::Empty => {
            assert(cell_at(mb, a.0, a.1) == Cell::Empty);
        },
        Cell::Piece { color, kind } => {
            let us2 = color;
            assert(cell_at(mb, a.0, a.1) == (Cell::Piece { color: opposite(us2), kind }));
            match kind {
                PieceKind::Pawn => {
                    lemma_mirror_pawn(b, ep, us2, a.0, a.1, tr, tf);
                },
                PieceKind::Knight => {
                    assert(((tr, tf) == k) == (((7 - tr, tf)) == mirror_sq(k)));
                },
                PieceKind::King => {
                    assert(((tr, tf) == k) == (((7 - tr, tf)) == mirror_sq(k)));
                },
                PieceKind::Rook => {
                    lemma_mirror_ray_pair_rook(b, us2, a, k, tr, tf);
                },
                PieceKind::Bishop => {
                    lemma_mirror_ray_pair_bishop(b, us2, a, k, tr, tf);
                },
                PieceKind::Queen => {
                    lemma_mirror_ray_pair_queen(b, us2, a, k, tr, tf);
                },
            }
        },
    }
}

/// The scratch board of a mirrored move is the mirror of the original
/// scratch board.
#[verifier::rlimit(100)]
pub proof fn lemma_mirror_scratch(b: Seq<Cell>, fr: int, ff: int, tr: int, tf: int)
    requires
        b.len() == 64,
        on_board(fr, ff),
        on_board(tr, tf),
        (fr, ff) != (tr, tf),
    ensures
        crate::possible_moves::scratch_board(mirror_board(b), fr, ff, tr, tf) == mirror_board(
            crate::possible_moves::scratch_board(b, 7 - fr, ff, 7 - tr, tf),
        ),
{
    let mb = mirror_board(b);
    let lhs = crate::possible_moves::scratch_board(mb, fr, ff, tr, tf);
    let sb = crate::possible_moves::scratch_board(b, 7 - fr, ff, 7 - tr, tf);
    let rhs = mirror_board(sb);
    assert(sq_idx(fr, ff) != sq_idx(tr, tf));
    assert(sq_idx(7 - fr, ff) != sq_idx(7 - tr, tf));
    assert forall|i: int| 0 <= i < 64 implies lhs[i] == rhs[i] by {
        let rr = i / 8;
        let cc = i % 8;
        assert(0 <= rr < 8 && 0 <= cc < 8 && rr * 8 + cc == i) by (nonlinear_arith)
            requires
                0 <= i < 64 && rr == i / 8 && cc == i % 8,
        ;
        let mi = (7 - rr) * 8 + cc;
        assert(0 <= mi < 64);
        assert(mi / 8 == 7 - rr && mi % 8 == cc) by (nonlinear_arith)
            requires
                0 <= rr < 8 && 0 <= cc < 8 && mi == (7 - rr) * 8 + cc,
        ;
        assert(rhs[i] == mirror_cell(sb[mi]));
        assert(mb[i] == mirror_cell(b[mi]));
        if i == sq_idx(fr, ff) {
            assert(rr == fr && cc == ff);
            assert(lhs[i] == Cell::Empty);
            assert(mi == sq_idx(7 - fr, ff));
            assert(sb[mi] == Cell::Empty);
        } else if i == sq_idx(tr, tf) {
            assert(rr == tr && cc == tf);
            assert(mi == sq_idx(7 - tr, tf));
            assert(lhs[i] == mb[sq_idx(fr, ff)]);
            assert(sb[mi] == b[sq_idx(7 - fr, ff)]);
            assert(mb[sq_idx(fr, ff)] == mirror_cell(b[(7 - fr) * 8 + ff]));
        } else {
            assert(lhs[i] == mb[i]);
            assert(mi != sq_idx(7 - fr, ff)) by {
                if mi == sq_idx(7 - fr, ff) {
                    assert(7 - rr == 7 - fr && cc == ff) by (nonlinear_arith)
                        requires
                            0 <= rr < 8 && 0 <= cc < 8 && 0 <= fr < 8 && 0 <= ff < 8 && (7 - rr) * 8
                                + cc == (7 - fr) * 8 + ff,
                    ;
                    assert(i == sq_idx(fr, ff));
                }
            }
            assert(mi != sq_idx(7 - tr, tf)) by {
                if mi == sq_idx(7 - tr, tf) {
                    assert(7 - rr == 7 - tr && cc == tf) by (nonlinear_arith)
                        requires
                            0 <= rr < 8 && 0 <= cc < 8 && 0 <= tr < 8 && 0 <= tf < 8 && (7 - rr) * 8
                                + cc == (7 - tr) * 8 + tf,
                    ;
                    assert(i == sq_idx(tr, tf));
                }
            }
            assert(sb[mi] == b[mi]);
        }
    }
    assert(lhs =~= rhs);
}

/// The king-safety filter mirrors.
pub proof fn lemma_mirror_king_allowed(
    b: Seq<Cell>,
    ep: (int, int),
    us: Color,
    k: (int, int),
    to: (int, int),
)
    requires
        b.len() == 64,
        on_board(k.0, k.1),
        on_board(to.0, to.1),
        k != to,
    ensures
        crate::possible_moves::king_move_allowed(mirror_board(b), mirror_sq(ep), opposite(us), k, to)
            == crate::possible_moves::king_move_allowed(b, ep, us, mirror_sq(k), mirror_sq(to)),
{
    lemma_mirror_attacked(b, ep, us, k.0, k.1);
    lemma_mirror_attacked(b, ep, us, k.0, crate::possible_moves::transit_file(k.1, to.1));
    lemma_mirror_scratch(b, k.0, k.1, to.0, to.1);
    let sb = crate::possible_moves::scratch_board(b, 7 - k.0, k.1, 7 - to.0, to.1);
    assert(sb.len() == 64);
    lemma_mirror_attacked(sb, ep, us, to.0, to.1);
    assert(crate::possible_moves::castle_shape(k.0, k.1, to.0, to.1)
        == crate::possible_moves::castle_shape(7 - k.0, k.1, 7 - to.0, to.1));
    assert(crate::possible_moves::transit_file(k.1, to.1) == crate::possible_moves::transit_file(
        mirror_sq(k).1,
        mirror_sq(to).1,
    ));
}

/// The check-response filter mirrors.
pub proof fn lemma_mirror_check_response(
    b: Seq<Cell>,
    ep: (int, int),
    us: Color,
    k: (int, int),
    to: (int, int),
)
    requires
        b.len() == 64,
    ensures
        crate::possible_moves::check_response_allowed(mirror_board(b), mirror_sq(ep), opposite(us), k, to)
            == crate::possible_moves::check_response_allowed(b, ep, us, mirror_sq(k), mirror_sq(to)),
{
    let mb = mirror_board(b);
    let mep = mirror_sq(ep);
    let mk = mirror_sq(k);
    lemma_mirror_attacked(b, ep, us, k.0, k.1);
    assert(mk.0 == 7 - k.0 && mk.1 == k.1);
    assert forall|a: (int, int)|
        #[trigger] crate::possible_moves::attacker_at(mb, mep, opposite(us), k, a)
            == crate::possible_moves::attacker_at(b, ep, us, mk, mirror_sq(a)) by {
        lemma_mirror_attacker_at(b, ep, us, k, a);
    }
    assert(crate::possible_moves::double_check(mb, mep, opposite(us), k)
        == crate::possible_moves::double_check(b, ep, us, mk)) by {
        if crate::possible_moves::double_check(mb, mep, opposite(us), k) {
            let (a1, a2) = choose|a1: (int, int), a2: (int, int)|
                #[trigger] crate::possible_moves::attacker_at(mb, mep, opposite(us), k, a1)
                    && #[trigger] crate::possible_moves::attacker_at(mb, mep, opposite(us), k, a2)
                    && a1 != a2;
            assert(crate::possible_moves::attacker_at(b, ep, us, mk, mirror_sq(a1)));
            assert(crate::possible_moves::attacker_at(b, ep, us, mk, mirror_sq(a2)));
            assert(mirror_sq(a1) != mirror_sq(a2));
            assert(crate::possible_moves::double_check(b, ep, us, mk));
        }
        if crate::possible_moves::double_check(b, ep, us, mk) {
            let (a1, a2) = choose|a1: (int, int), a2: (int, int)|
                #[trigger] crate::possible_moves::attacker_at(b, ep, us, mk, a1)
                    && #[trigger] crate::possible_moves::attacker_at(b, ep, us, mk, a2) && a1 != a2;
            assert(crate::possible_moves::attacker_at(mb, mep, opposite(us), k, mirror_sq(a1)))
                by {
                assert(mirror_sq(mirror_sq(a1)) == a1);
            }
            assert(crate::possible_moves::attacker_at(mb, mep, opposite(us), k, mirror_sq(a2)))
                by {
                assert(mirror_sq(mirror_sq(a2)) == a2);
            }
            assert(mirror_sq(a1) != mirror_sq(a2));
            assert(crate::possible_moves::double_check(mb, mep, opposite(us), k));
        }
    }
    if crate::possible_moves::square_attacked(mb, mep, opposite(us), k.0, k.1)
        && !crate::possible_moves::double_check(mb, mep, opposite(us), k) {
        let ta_m = crate::possible_moves::the_attacker(mb, mep, opposite(us), k);
        let ta_b = crate::possible_moves::the_attacker(b, ep, us, mk);
        assert(crate::possible_moves::attacker_at(mb, mep, opposite(us), k, ta_m)) by {
            let (ar, af) = choose|ar: int, af: int|
                #[trigger] crate::possible_moves::attacks_from_spec(mb, mep, opposite(us), ar, af, k.0, k.1);
            assert(crate::possible_moves::attacker_at(mb, mep, opposite(us), k, (ar, af)));
        }
        assert(crate::possible_moves::attacker_at(b, ep, us, mk, mirror_sq(ta_m)));
        assert(crate::possible_moves::attacker_at(b, ep, us, mk, ta_b)) by {
            assert(crate::possible_moves::attacker_at(b, ep, us, mk, mirror_sq(ta_m)));
        }
        assert(mirror_sq(ta_m) == ta_b) by {
            if mirror_sq(ta_m) != ta_b {
                assert(crate::possible_moves::double_check(b, ep, us, mk));
            }
        }
        assert(on_board(ta_m.0, ta_m.1));
        lemma_mirror_check_path(b, ep, ta_m, k, to.0, to.1);
        assert((to == ta_m) == (mirror_sq(to) == ta_b)) by {
            assert(mirror_sq(mirror_sq(to)) == to && mirror_sq(mirror_sq(ta_m)) == ta_m);
        }
    }
}

/// A legal move mirrors: color-swapping and reflecting the position
/// reflects each legal move.
#[verifier::rlimit(100)]
pub proof fn lemma_mirror_legal_move(
    b: Seq<Cell>,
    ep: (int, int),
    cr: CastlingRights,
    us: Color,
    from: (int, int),
    to: (int, int),
)
    requires
        b.len() == 64,
        crate::possible_moves::unique_king(b, us),
    ensures
        crate::possible_moves::legal_move(
            mirror_board(b),
            mirror_sq(ep),
            mirror_rights(cr),
            opposite(us),
            mirror_sq(from),
            mirror_sq(to),
        ) == crate::possible_moves::legal_move(b, ep, cr, us, from, to),
{
    let mb = mirror_board(b);
    let mep = mirror_sq(ep);
    let mcr = mirror_rights(cr);
    let mf = mirror_sq(from);
    let mt = mirror_sq(to);
    lemma_mirror_kings(b, us);
    let k = crate::possible_moves::king_square(b, us);
    assert(crate::possible_moves::king_at(b, us, k)) by {
        let sq = choose|sq: (int, int)| crate::possible_moves::king_at(b, us, sq);
        assert(crate::possible_moves::king_at(b, us, sq));
    }
    if !on_board(from.0, from.1) {
        assert(!on_board(mf.0, mf.1));
    } else {
        lemma_mirror_cell_at(b, mf.0, mf.1);
        lemma_mirror_piece_dest(b, ep, cr, mf.0, mf.1, mt.0, mt.1);
        assert(mirror_sq(mf) == from && mirror_sq(mt) == to);
        if crate::possible_moves::piece_dest(b, ep, cr, from.0, from.1, to.0, to.1) {
            crate::possible_moves::lemma_piece_dest_on_board(
                b,
                ep,
                cr,
                from.0,
                from.1,
                to.0,
                to.1,
            );
            assert((mf == mirror_sq(k)) == (from == k));
            if from == k {
                assert(to != k) by {
                    if to == k {
                        assert(!crate::possible_moves::piece_dest(
                            b,
                            ep,
                            cr,
                            from.0,
                            from.1,
                            to.0,
                            to.1,
                        ));
                    }
                }
                lemma_mirror_king_allowed(b, ep, us, mirror_sq(k), mirror_sq(to));
                assert(mirror_sq(mirror_sq(k)) == k && mirror_sq(mirror_sq(to)) == to);
            } else {
                lemma_mirror_check_response(b, ep, us, mirror_sq(k), mirror_sq(to));
                assert(mirror_sq(mirror_sq(k)) == k && mirror_sq(mirror_sq(to)) == to);
            }
        }
    }
}

/// Mirror symmetry of the legal move set: the moves legal for one side
/// are exactly the reflections of the moves legal for the other side of
/// the color-swapped, reflected position.
pub proof fn legal_moves_mirror(
    b: Seq<Cell>,
    ep: (int, int),
    cr: CastlingRights,
    us: Color,
    r1: Seq<((u8, u8), (u8, u8))>,
    r2: Seq<((u8, u8), (u8, u8))>,
)
    requires
        b.len() == 64,
        crate::possible_moves::unique_king(b, us),
        forall|m: ((u8, u8), (u8, u8))|
            #[trigger] r1.contains(m) <==> crate::possible_moves::legal_move(
                b,
                ep,
                cr,
                us,
                (m.0.0 as int, m.0.1 as int),
                (m.1.0 as int, m.1.1 as int),
            ),
        forall|m: ((u8, u8), (u8, u8))|
            #[trigger] r2.contains(m) <==> crate::possible_moves::legal_move(
                mirror_board(b),
                mirror_sq(ep),
                mirror_rights(cr),
                opposite(us),
                (m.0.0 as int, m.0.1 as int),
                (m.1.0 as int, m.1.1 as int),
            ),
    ensures
        forall|fr: u8, ff: u8, tr: u8, tf: u8|
            fr < 8 && ff < 8 && tr < 8 && tf < 8 ==> (#[trigger] r1.contains(
                ((fr, ff), (tr, tf)),
            ) == r2.contains((((7 - fr) as u8, ff), ((7 - tr) as u8, tf)))),
{
    assert forall|fr: u8, ff: u8, tr: u8, tf: u8|
        fr < 8 && ff < 8 && tr < 8 && tf < 8 implies (#[trigger] r1.contains(((fr, ff), (tr, tf)))
        == r2.contains((((7 - fr) as u8, ff), ((7 - tr) as u8, tf)))) by {
        lemma_mirror_legal_move(
            b,
            ep,
            cr,
            us,
            (fr as int, ff as int),
            (tr as int, tf as int),
        );
        assert(mirror_sq((fr as int, ff as int)) == (((7 - fr) as u8) as int, ff as int));
        assert(mirror_sq((tr as int, tf as int)) == (((7 - tr) as u8) as int, tf as int));
    }
}

} // verus!
