//! The engine's cross-cutting guarantees, stated and proved once.

use vstd::prelude::*;

use crate::apply::applied_board;
use crate::board::CastlingRights;
use crate::board::Cell;
use crate::board::Color;
use crate::board::PieceKind;
use crate::board::cell_at;
use crate::board::has_color_at;
use crate::board::is_empty_at;
use crate::board::on_board;
use crate::board::opposite;
use crate::board::sq_idx;
use crate::king::castle_dest;
use crate::motion::dist;
use crate::pawn::pawn_attack_dest;
use crate::pawn::pawn_dir;
use crate::possible_moves::GameStatus;
use crate::possible_moves::any_legal_move;
use crate::possible_moves::attacks_from_spec;
use crate::possible_moves::castle_shape;
use crate::possible_moves::game_status_spec;
use crate::possible_moves::king_at;
use crate::possible_moves::king_square;
use crate::possible_moves::legal_move;
use crate::possible_moves::lemma_piece_dest_on_board;
use crate::possible_moves::piece_dest;
use crate::possible_moves::scratch_board;
use crate::possible_moves::square_attacked;
use crate::possible_moves::transit_file;
use crate::possible_moves::unique_king;

verus! {

/// Whether a square the mover's own piece stands on is attacked does not
/// depend on the en-passant target: a pawn's capture square counts as
/// attacked outright when it holds an opposing piece.
pub proof fn lemma_attacked_own_square_ep(
    b: Seq<Cell>,
    ep1: (int, int),
    ep2: (int, int),
    us: Color,
    tr: int,
    tf: int,
)
    requires
        has_color_at(b, tr, tf, us),
    ensures
        square_attacked(b, ep1, us, tr, tf) == square_attacked(b, ep2, us, tr, tf),
{
    if square_attacked(b, ep1, us, tr, tf) {
        lemma_attacked_ep_mono(b, ep1, ep2, us, tr, tf);
    }
    if square_attacked(b, ep2, us, tr, tf) {
        lemma_attacked_ep_mono(b, ep2, ep1, us, tr, tf);
    }
}

/// One direction of the en-passant independence argument.
proof fn lemma_attacked_ep_mono(
    b: Seq<Cell>,
    e1: (int, int),
    e2: (int, int),
    us: Color,
    tr: int,
    tf: int,
)
    requires
        has_color_at(b, tr, tf, us),
        square_attacked(b, e1, us, tr, tf),
    ensures
        square_attacked(b, e2, us, tr, tf),
{
    let (ar, af) = choose|ar: int, af: int|
        #[trigger] attacks_from_spec(b, e1, us, ar, af, tr, tf);
    assert(attacks_from_spec(b, e2, us, ar, af, tr, tf)) by {
        match cell_at(b, ar, af) {
            Cell::Piece { color, kind: PieceKind::Pawn } => {
                assert(color == opposite(us));
                if pawn_attack_dest(b, e1, color, ar, af, tr, tf) {
                    assert(has_color_at(b, tr, tf, opposite(color)));
                    assert(pawn_attack_dest(b, e2, color, ar, af, tr, tf));
                }
            },
            _ => {},
        }
    }
}

/// A legal plain king step never leaves the king attacked: on the board
/// that results from applying it, the king's new square is safe, for any
/// en-passant target the oracle is asked with.
pub proof fn king_step_keeps_king_safe(
    b: Seq<Cell>,
    ep: (int, int),
    cr: CastlingRights,
    us: Color,
    to: (int, int),
    ep2: (int, int),
)
    requires
        b.len() == 64,
        unique_king(b, us),
        legal_move(b, ep, cr, us, king_square(b, us), to),
        !castle_shape(king_square(b, us).0, king_square(b, us).1, to.0, to.1),
    ensures
        !square_attacked(
            applied_board(b, ep, king_square(b, us), to),
            ep2,
            us,
            to.0,
            to.1,
        ),
{
    let k = king_square(b, us);
    assert(king_at(b, us, k)) by {
        let sq = choose|sq: (int, int)| king_at(b, us, sq);
        assert(king_at(b, us, sq));
    }
    lemma_piece_dest_on_board(b, ep, cr, k.0, k.1, to.0, to.1);
    let piece = cell_at(b, k.0, k.1);
    assert(piece == (Cell::Piece { color: us, kind: PieceKind::King }));
    let applied = applied_board(b, ep, k, to);
    let scratch = scratch_board(b, k.0, k.1, to.0, to.1);
    assert(applied == scratch);
    assert(k != to);
    assert(sq_idx(k.0, k.1) != sq_idx(to.0, to.1));
    assert(cell_at(scratch, to.0, to.1) == piece);
    assert(has_color_at(scratch, to.0, to.1, us));
    assert(!square_attacked(scratch, ep, us, to.0, to.1));
    lemma_attacked_own_square_ep(scratch, ep, ep2, us, to.0, to.1);
}

/// Checkmate and stalemate both require an empty legal move set and are
/// told apart only by whether the king is attacked, so the classifier
/// can never report both of one position.
pub proof fn checkmate_stalemate_exclusive(
    b: Seq<Cell>,
    ep: (int, int),
    cr: CastlingRights,
    us: Color,
)
    ensures
        (game_status_spec(b, ep, cr, us) == GameStatus::Checkmate) == (!any_legal_move(
            b,
            ep,
            cr,
            us,
        ) && square_attacked(b, ep, us, king_square(b, us).0, king_square(b, us).1)),
        (game_status_spec(b, ep, cr, us) == GameStatus::Stalemate) == (!any_legal_move(
            b,
            ep,
            cr,
            us,
        ) && !square_attacked(b, ep, us, king_square(b, us).0, king_square(b, us).1)),
{
}

/// The legal move set is a function of the position alone: any two
/// results of enumerating it for the same state hold the same moves.
pub proof fn legal_moves_deterministic(
    b: Seq<Cell>,
    ep: (int, int),
    cr: CastlingRights,
    us: Color,
    r1: Seq<((u8, u8), (u8, u8))>,
    r2: Seq<((u8, u8), (u8, u8))>,
)
    requires
        forall|m: ((u8, u8), (u8, u8))|
            #[trigger] r1.contains(m) <==> legal_move(
                b,
                ep,
                cr,
                us,
                (m.0.0 as int, m.0.1 as int),
                (m.1.0 as int, m.1.1 as int),
            ),
        forall|m: ((u8, u8), (u8, u8))|
            #[trigger] r2.contains(m) <==> legal_move(
                b,
                ep,
                cr,
                us,
                (m.0.0 as int, m.0.1 as int),
                (m.1.0 as int, m.1.1 as int),
            ),
    ensures
        r1.to_set() == r2.to_set(),
{
    assert(r1.to_set() =~= r2.to_set()) by {
        assert forall|m: ((u8, u8), (u8, u8))|
            r1.to_set().contains(m) == r2.to_set().contains(m) by {
            assert(r1.to_set().contains(m) == r1.contains(m));
            assert(r2.to_set().contains(m) == r2.contains(m));
        }
    }
}

/// A castle-shaped king move is legal exactly when the castle is
/// structurally available — right flag set, king and rook on their home
/// squares, the squares between them empty — and the king is not in
/// check, does not cross an attacked square, and does not land on one.
/// Violating any one of these removes the move.
pub proof fn castling_availability(
    b: Seq<Cell>,
    ep: (int, int),
    cr: CastlingRights,
    us: Color,
    to: (int, int),
)
    requires
        unique_king(b, us),
        castle_shape(king_square(b, us).0, king_square(b, us).1, to.0, to.1),
        on_board(to.0, to.1),
    ensures
        legal_move(b, ep, cr, us, king_square(b, us), to) <==> (castle_dest(
            b,
            cr,
            king_square(b, us).0,
            king_square(b, us).1,
            to.0,
            to.1,
        ) && !square_attacked(b, ep, us, king_square(b, us).0, king_square(b, us).1)
            && !square_attacked(
            b,
            ep,
            us,
            king_square(b, us).0,
            transit_file(king_square(b, us).1, to.1),
        ) && !square_attacked(
            scratch_board(b, king_square(b, us).0, king_square(b, us).1, to.0, to.1),
            ep,
            us,
            to.0,
            to.1,
        )),
{
    let k = king_square(b, us);
    assert(king_at(b, us, k)) by {
        let sq = choose|sq: (int, int)| king_at(b, us, sq);
        assert(king_at(b, us, sq));
    }
    assert(cell_at(b, k.0, k.1) == (Cell::Piece { color: us, kind: PieceKind::King }));
    assert(dist(k.0, k.1, to.0, to.1) == 2);
    assert(!crate::king::king_step_dest(b, us, k.0, k.1, to.0, to.1));
}

/// A pawn that stands diagonally before the en-passant target may
/// capture onto it, whatever the target square holds.
pub proof fn en_passant_capture_available(
    b: Seq<Cell>,
    ep: (int, int),
    cr: CastlingRights,
    us: Color,
    r: int,
    f: int,
)
    requires
        on_board(ep.0, ep.1),
        cell_at(b, r, f) == (Cell::Piece { color: us, kind: PieceKind::Pawn }),
        ep.0 == r + pawn_dir(us),
        ep.1 == f - 1 || ep.1 == f + 1,
    ensures
        pawn_attack_dest(b, ep, us, r, f, ep.0, ep.1),
        piece_dest(b, ep, cr, r, f, ep.0, ep.1),
{
}

/// Executing an en-passant capture removes the passed pawn from the
/// square beside the capturer's origin, not the piece landing on the
/// target square: the capturing pawn stands on the target afterwards.
pub proof fn en_passant_removes_passed_pawn(
    b: Seq<Cell>,
    ep: (int, int),
    us: Color,
    from: (int, int),
    to: (int, int),
)
    requires
        b.len() == 64,
        on_board(from.0, from.1),
        on_board(to.0, to.1),
        cell_at(b, from.0, from.1) == (Cell::Piece { color: us, kind: PieceKind::Pawn }),
        to == ep,
        to.0 == from.0 + pawn_dir(us),
        to.1 == from.1 - 1 || to.1 == from.1 + 1,
        to.0 != 0 && to.0 != 7,
    ensures
        cell_at(applied_board(b, ep, from, to), from.0, to.1) == Cell::Empty,
        cell_at(applied_board(b, ep, from, to), to.0, to.1) == (Cell::Piece {
            color: us,
            kind: PieceKind::Pawn,
        }),
        cell_at(applied_board(b, ep, from, to), from.0, from.1) == Cell::Empty,
{
    let ab = applied_board(b, ep, from, to);
    assert(sq_idx(from.0, from.1) != sq_idx(to.0, to.1));
    assert(sq_idx(from.0, to.1) != sq_idx(to.0, to.1));
    assert(sq_idx(from.0, to.1) != sq_idx(from.0, from.1));
}


/// A ray carries over to a board that agrees with the original on the
/// ray's squares.
proof fn lemma_ray_transfer(
    b1: Seq<Cell>,
    b2: Seq<Cell>,
    cc: Color,
    ar: int,
    af: int,
    dr: int,
    df: int,
    tr: int,
    tf: int,
)
    requires
        crate::motion::valid_dir(dr, df),
        crate::motion::ray_dest(b1, cc, ar, af, dr, df, tr, tf),
        cell_at(b2, tr, tf) == cell_at(b1, tr, tf),
        forall|j: int|
            1 <= j < crate::motion::dist(ar, af, tr, tf) ==> cell_at(
                b2,
                #[trigger] crate::motion::step_coord(ar, dr, j),
                crate::motion::step_coord(af, df, j),
            ) == cell_at(b1, crate::motion::step_coord(ar, dr, j), crate::motion::step_coord(af, df, j)),
    ensures
        crate::motion::ray_dest(b2, cc, ar, af, dr, df, tr, tf),
{
}

/// After a castle the rook's crossing cannot have opened a new attack
/// on the king's landing square: the square the rook came from never
/// lies strictly between an attacker and the landing square, and the
/// square it landed on is occupied.  So a landing square safe on the
/// plain king-relocation scratch board stays safe on the full board.
#[verifier::rlimit(100)]
proof fn lemma_castle_board_safe(
    scratch: Seq<Cell>,
    applied: Seq<Cell>,
    ep: (int, int),
    us: Color,
    hr: int,
    m: int,
    c: int,
    t1: int,
)
    requires
        scratch.len() == 64,
        hr == 0 || hr == 7,
        (t1 == 6 && c == 7 && m == 5) || (t1 == 2 && c == 0 && m == 3),
        applied == scratch.update(sq_idx(hr, m), scratch[sq_idx(hr, c)]).update(
            sq_idx(hr, c),
            Cell::Empty,
        ),
        cell_at(scratch, hr, c) matches Cell::Piece { color, .. } && color == us,
        has_color_at(scratch, hr, t1, us),
        !square_attacked(scratch, ep, us, hr, t1),
    ensures
        !square_attacked(applied, ep, us, hr, t1),
{
    let none = CastlingRights::spec_none();
    assert(applied.len() == 64);
    assert(cell_at(applied, hr, m) == cell_at(scratch, hr, c));
    assert(cell_at(applied, hr, c) == Cell::Empty);
    assert(cell_at(applied, hr, t1) == cell_at(scratch, hr, t1));
    if square_attacked(applied, ep, us, hr, t1) {
        let (ar, af) = choose|ar: int, af: int|
            #[trigger] attacks_from_spec(applied, ep, us, ar, af, hr, t1);
        if ar == hr && af == m {
            assert(has_color_at(applied, ar, af, us));
            assert(false);
        } else if ar == hr && af == c {
            assert(cell_at(applied, ar, af) == Cell::Empty);
            assert(false);
        } else {
            assert(sq_idx(ar, af) != sq_idx(hr, m) && sq_idx(ar, af) != sq_idx(hr, c));
            assert(cell_at(applied, ar, af) == cell_at(scratch, ar, af));
            assert(piece_dest(scratch, ep, none, ar, af, hr, t1)) by {
                lemma_castle_dest_transfer(scratch, applied, ep, us, hr, m, c, t1, ar, af);
            }
            assert(attacks_from_spec(scratch, ep, us, ar, af, hr, t1));
            assert(false);
        }
    }
}

/// The kind-by-kind transfer of an attack from the post-castle board
/// back to the scratch board.
#[verifier::rlimit(100)]
proof fn lemma_castle_dest_transfer(
    scratch: Seq<Cell>,
    applied: Seq<Cell>,
    ep: (int, int),
    us: Color,
    hr: int,
    m: int,
    c: int,
    t1: int,
    ar: int,
    af: int,
)
    requires
        scratch.len() == 64,
        hr == 0 || hr == 7,
        (t1 == 6 && c == 7 && m == 5) || (t1 == 2 && c == 0 && m == 3),
        applied == scratch.update(sq_idx(hr, m), scratch[sq_idx(hr, c)]).update(
            sq_idx(hr, c),
            Cell::Empty,
        ),
        cell_at(scratch, hr, c) matches Cell::Piece { color, .. } && color == us,
        has_color_at(scratch, hr, t1, us),
        on_board(ar, af),
        !(ar == hr && af == m),
        !(ar == hr && af == c),
        piece_dest(applied, ep, CastlingRights::spec_none(), ar, af, hr, t1),
    ensures
        piece_dest(scratch, ep, CastlingRights::spec_none(), ar, af, hr, t1),
{
    let none = CastlingRights::spec_none();
    assert(cell_at(applied, hr, m) == cell_at(scratch, hr, c));
    assert(cell_at(applied, hr, c) == Cell::Empty);
    assert(cell_at(applied, hr, t1) == cell_at(scratch, hr, t1));
    assert(sq_idx(ar, af) != sq_idx(hr, m) && sq_idx(ar, af) != sq_idx(hr, c));
    assert(cell_at(applied, ar, af) == cell_at(scratch, ar, af));
    match cell_at(scratch, ar, af) {
        Cell::Empty => {},
        Cell::Piece { color, kind } => {
            match kind {
                PieceKind::Pawn => {},
                PieceKind::Knight => {},
                PieceKind::King => {},
                PieceKind::Rook => {
                    let i = choose|i: int|
                        0 <= i < 4 && #[trigger] crate::motion::ray_dest(
                            applied,
                            color,
                            ar,
                            af,
                            crate::motion::rook_dirs(i).0,
                            crate::motion::rook_dirs(i).1,
                            hr,
                            t1,
                        );
                    lemma_castle_ray_agree(
                        scratch,
                        applied,
                        us,
                        hr,
                        m,
                        c,
                        t1,
                        ar,
                        af,
                        crate::motion::rook_dirs(i).0,
                        crate::motion::rook_dirs(i).1,
                    );
                    lemma_ray_transfer(
                        applied,
                        scratch,
                        color,
                        ar,
                        af,
                        crate::motion::rook_dirs(i).0,
                        crate::motion::rook_dirs(i).1,
                        hr,
                        t1,
                    );
                },
                PieceKind::Bishop => {
                    let i = choose|i: int|
                        0 <= i < 4 && #[trigger] crate::motion::ray_dest(
                            applied,
                            color,
                            ar,
                            af,
                            crate::motion::bishop_dirs(i).0,
                            crate::motion::bishop_dirs(i).1,
                            hr,
                            t1,
                        );
                    lemma_castle_ray_agree(
                        scratch,
                        applied,
                        us,
                        hr,
                        m,
                        c,
                        t1,
                        ar,
                        af,
                        crate::motion::bishop_dirs(i).0,
                        crate::motion::bishop_dirs(i).1,
                    );
                    lemma_ray_transfer(
                        applied,
                        scratch,
                        color,
                        ar,
                        af,
                        crate::motion::bishop_dirs(i).0,
                        crate::motion::bishop_dirs(i).1,
                        hr,
                        t1,
                    );
                },
                PieceKind::Queen => {
                    let i = choose|i: int|
                        0 <= i < 8 && #[trigger] crate::motion::ray_dest(
                            applied,
                            color,
                            ar,
                            af,
                            crate::motion::queen_dirs(i).0,
                            crate::motion::queen_dirs(i).1,
                            hr,
                            t1,
                        );
                    lemma_castle_ray_agree(
                        scratch,
                        applied,
                        us,
                        hr,
                        m,
                        c,
                        t1,
                        ar,
                        af,
                        crate::motion::queen_dirs(i).0,
                        crate::motion::queen_dirs(i).1,
                    );
                    lemma_ray_transfer(
                        applied,
                        scratch,
                        color,
                        ar,
                        af,
                        crate::motion::queen_dirs(i).0,
                        crate::motion::queen_dirs(i).1,
                        hr,
                        t1,
                    );
                },
            }
        },
    }
}

/// The squares strictly between an attacker and the castled king's
/// landing square are untouched by the rook's crossing: the rook's new
/// square is occupied on the post-castle board, and the vacated corner
/// lies beyond the landing square on any line.
proof fn lemma_castle_ray_agree(
    scratch: Seq<Cell>,
    applied: Seq<Cell>,
    us: Color,
    hr: int,
    m: int,
    c: int,
    t1: int,
    ar: int,
    af: int,
    dr: int,
    df: int,
)
    requires
        scratch.len() == 64,
        hr == 0 || hr == 7,
        (t1 == 6 && c == 7 && m == 5) || (t1 == 2 && c == 0 && m == 3),
        applied == scratch.update(sq_idx(hr, m), scratch[sq_idx(hr, c)]).update(
            sq_idx(hr, c),
            Cell::Empty,
        ),
        cell_at(scratch, hr, c) matches Cell::Piece { color, .. } && color == us,
        on_board(ar, af),
        crate::motion::valid_dir(dr, df),
        crate::motion::ray_dest(applied, crate::motion::color_at(applied, ar, af), ar, af, dr, df, hr, t1),
    ensures
        forall|j: int|
            1 <= j < crate::motion::dist(ar, af, hr, t1) ==> cell_at(
                scratch,
                #[trigger] crate::motion::step_coord(ar, dr, j),
                crate::motion::step_coord(af, df, j),
            ) == cell_at(applied, crate::motion::step_coord(ar, dr, j), crate::motion::step_coord(af, df, j)),
{
    let n = crate::motion::dist(ar, af, hr, t1);
    assert forall|j: int| 1 <= j < n implies cell_at(
        scratch,
        #[trigger] crate::motion::step_coord(ar, dr, j),
        crate::motion::step_coord(af, df, j),
    ) == cell_at(applied, crate::motion::step_coord(ar, dr, j), crate::motion::step_coord(af, df, j)) by {
        let sr = crate::motion::step_coord(ar, dr, j);
        let sf = crate::motion::step_coord(af, df, j);
        assert(is_empty_at(applied, sr, sf));
        crate::mirror::lemma_castle_between_on_board(ar, af, dr, df, hr, t1, j);
        if sr == hr && sf == m {
            assert(cell_at(applied, hr, m) == cell_at(scratch, hr, c));
            assert(!is_empty_at(applied, sr, sf));
            assert(false);
        }
        assert(!(sr == hr && sf == c)) by {
            if sr == hr && sf == c {
                assert(sf == crate::motion::step_coord(af, df, j));
                assert(t1 == crate::motion::step_coord(af, df, n));
                assert(false);
            }
        }
        assert(sq_idx(sr, sf) != sq_idx(hr, m) && sq_idx(sr, sf) != sq_idx(hr, c));
    }
}


/// A legal king move — a plain step or a castle — never leaves the king
/// attacked: on the board that results from applying it, the king's new
/// square is safe, for any en-passant target the oracle is asked with.
#[verifier::rlimit(100)]
pub proof fn king_move_keeps_king_safe(
    b: Seq<Cell>,
    ep: (int, int),
    cr: CastlingRights,
    us: Color,
    to: (int, int),
    ep2: (int, int),
)
    requires
        b.len() == 64,
        unique_king(b, us),
        legal_move(b, ep, cr, us, king_square(b, us), to),
    ensures
        !square_attacked(
            applied_board(b, ep, king_square(b, us), to),
            ep2,
            us,
            to.0,
            to.1,
        ),
{
    let k = king_square(b, us);
    if !castle_shape(k.0, k.1, to.0, to.1) {
        king_step_keeps_king_safe(b, ep, cr, us, to, ep2);
    } else {
        assert(king_at(b, us, k)) by {
            let sq = choose|sq: (int, int)| king_at(b, us, sq);
            assert(king_at(b, us, sq));
        }
        let piece = cell_at(b, k.0, k.1);
        assert(piece == (Cell::Piece { color: us, kind: PieceKind::King }));
        assert(dist(k.0, k.1, to.0, to.1) == 2);
        assert(castle_dest(b, cr, k.0, k.1, to.0, to.1));
        let applied = applied_board(b, ep, k, to);
        let scratch = scratch_board(b, k.0, k.1, to.0, to.1);
        assert(!square_attacked(scratch, ep, us, to.0, to.1));
        let hr: int = if us == Color::White {
            7
        } else {
            0
        };
        let t1 = to.1;
        let c: int = if t1 == 6 {
            7
        } else {
            0
        };
        let m: int = if t1 == 6 {
            5
        } else {
            3
        };
        assert(k == (hr, 4int) && to == (hr, t1) && (t1 == 6 || t1 == 2));
        assert(cell_at(b, hr, c) == (Cell::Piece { color: us, kind: PieceKind::Rook }));
        assert(sq_idx(hr, c) != sq_idx(to.0, to.1) && sq_idx(hr, c) != sq_idx(k.0, k.1));
        assert(cell_at(scratch, hr, c) == cell_at(b, hr, c));
        assert(cell_at(scratch, hr, t1) == cell_at(b, k.0, k.1));
        assert(has_color_at(scratch, hr, t1, us));
        assert(applied == scratch.update(sq_idx(hr, m), scratch[sq_idx(hr, c)]).update(
            sq_idx(hr, c),
            Cell::Empty,
        ));
        lemma_castle_board_safe(scratch, applied, ep, us, hr, m, c, t1);
        assert(sq_idx(hr, t1) != sq_idx(hr, m) && sq_idx(hr, t1) != sq_idx(hr, c));
        assert(cell_at(applied, hr, t1) == cell_at(scratch, hr, t1));
        assert(has_color_at(applied, to.0, to.1, us));
        lemma_attacked_own_square_ep(applied, ep, ep2, us, to.0, to.1);
    }
}

} // verus!
