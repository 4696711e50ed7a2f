//! Legal move enumeration, the attack oracle and the status classifier.
//!
//! `get_legal_moves` prunes the pseudo-legal moves of the side to move
//! down to the legal ones.  King moves are simulated on a scratch board
//! and rejected when the destination is attacked; castle moves are also
//! rejected when the king is in check or crosses an attacked square.
//! Non-king moves are rejected under double check, and under single check
//! they must capture the attacker or block its path.  A piece that is
//! pinned while the king is not in check is deliberately not filtered:
//! pin detection derives only from these check-response branches.

use vstd::prelude::*;

use rayon::iter::IntoParallelIterator;
use rayon::iter::ParallelIterator;

use crate::bishop;
use crate::bishop::bishop_dest;
use crate::board::Board;
use crate::board::CastlingRights;
use crate::board::Cell;
use crate::board::Color;
use crate::board::PieceKind;
use crate::board::cell_at;
use crate::board::has_color_at;
use crate::board::has_piece_at;
use crate::board::is_empty_at;
use crate::board::on_board;
use crate::board::opposite;
use crate::board::sq_idx;
use crate::king;
use crate::king::castle_dest;
use crate::king::king_dest;
use crate::knight;
use crate::knight::knight_dest;
use crate::motion::bishop_dirs;
use crate::motion::contains_sq;
use crate::motion::first_group_with;
use crate::motion::flat_groups;
use crate::motion::groups_contain;
use crate::motion::iabs;
use crate::motion::lemma_ray_dir_unique;
use crate::motion::queen_dirs;
use crate::motion::ray_dest;
use crate::motion::rook_dirs;
use crate::pawn;
use crate::pawn::pawn_attack_dest;
use crate::pawn::pawn_dest;
use crate::queen;
use crate::queen::queen_dest;
use crate::rook;
use crate::rook::rook_dest;

verus! {

/// The status of a position for the side to move.
#[derive(Clone, Copy, Debug, PartialEq, Eq, Structural)]
pub enum GameStatus {
    Ongoing,
    Check,
    Checkmate,
    Stalemate,
}

/// Any pseudo-legal destination of the piece on (ar, af).
pub open spec fn piece_dest(
    b: Seq<Cell>,
    ep: (int, int),
    cr: CastlingRights,
    ar: int,
    af: int,
    tr: int,
    tf: int,
) -> bool {
    match cell_at(b, ar, af) {
        Cell::Empty => false,
        Cell::Piece { color, kind } => match kind {
            PieceKind::Pawn => pawn_dest(b, ep, color, ar, af, tr, tf),
            PieceKind::Rook => rook_dest(b, color, ar, af, tr, tf),
            PieceKind::Knight => knight_dest(b, color, ar, af, tr, tf),
            PieceKind::Bishop => bishop_dest(b, color, ar, af, tr, tf),
            PieceKind::Queen => queen_dest(b, color, ar, af, tr, tf),
            PieceKind::King => king_dest(b, cr, color, ar, af, tr, tf),
        },
    }
}

/// The piece on (ar, af) belongs to the opponent of `us` and has (tr, tf)
/// among its pseudo-legal destinations, castling neutralized.
pub open spec fn attacks_from_spec(
    b: Seq<Cell>,
    ep: (int, int),
    us: Color,
    ar: int,
    af: int,
    tr: int,
    tf: int,
) -> bool {
    &&& on_board(ar, af)
    &&& has_color_at(b, ar, af, opposite(us))
    &&& piece_dest(b, ep, CastlingRights::spec_none(), ar, af, tr, tf)
}

/// (tr, tf) is attacked by the opponent of `us`: some opposing piece has
/// it among its pseudo-legal destinations, with castling neutralized —
/// castle destinations never count as attacks.
pub open spec fn square_attacked(
    b: Seq<Cell>,
    ep: (int, int),
    us: Color,
    tr: int,
    tf: int,
) -> bool {
    exists|ar: int, af: int| #[trigger] attacks_from_spec(b, ep, us, ar, af, tr, tf)
}

/// A king of color `us` stands on the square.
pub open spec fn king_at(b: Seq<Cell>, us: Color, sq: (int, int)) -> bool {
    on_board(sq.0, sq.1) && has_piece_at(b, sq.0, sq.1, us, PieceKind::King)
}

/// Exactly one king of color `us` is on the board.  The side to move
/// having a king is a precondition of every legality query; boards that
/// fail it are rejected by the validator before move generation runs.
pub open spec fn unique_king(b: Seq<Cell>, us: Color) -> bool {
    &&& exists|sq: (int, int)| #[trigger] king_at(b, us, sq)
    &&& forall|s1: (int, int), s2: (int, int)|
        #[trigger] king_at(b, us, s1) && #[trigger] king_at(b, us, s2) ==> s1 == s2
}

/// The square of the `us` king.
pub open spec fn king_square(b: Seq<Cell>, us: Color) -> (int, int) {
    choose|sq: (int, int)| king_at(b, us, sq)
}

/// The opposing piece on `a` attacks the king square `k`.
pub open spec fn attacker_at(
    b: Seq<Cell>,
    ep: (int, int),
    us: Color,
    k: (int, int),
    a: (int, int),
) -> bool {
    attacks_from_spec(b, ep, us, a.0, a.1, k.0, k.1)
}

/// Two distinct opposing pieces attack the king square.
pub open spec fn double_check(b: Seq<Cell>, ep: (int, int), us: Color, k: (int, int)) -> bool {
    exists|a1: (int, int), a2: (int, int)|
        #[trigger] attacker_at(b, ep, us, k, a1) && #[trigger] attacker_at(b, ep, us, k, a2) && a1
            != a2
}

/// The attacking piece's square, meaningful under single check.
pub open spec fn the_attacker(b: Seq<Cell>, ep: (int, int), us: Color, k: (int, int)) -> (
    int,
    int,
) {
    choose|a: (int, int)| attacker_at(b, ep, us, k, a)
}

/// (tr, tf) lies on the attacking path through which the piece on `a`
/// threatens the occupied square `k`: the square itself for a knight or
/// king attacker, any square of the attacking ray up to and including `k`
/// for a slider, and any capture square of a pawn attacker.
pub open spec fn check_path(
    b: Seq<Cell>,
    ep: (int, int),
    a: (int, int),
    k: (int, int),
    tr: int,
    tf: int,
) -> bool {
    match cell_at(b, a.0, a.1) {
        Cell::Empty => false,
        Cell::Piece { color, kind } => match kind {
            PieceKind::Pawn => pawn_attack_dest(b, ep, color, a.0, a.1, tr, tf),
            PieceKind::Knight => (tr, tf) == k,
            PieceKind::King => (tr, tf) == k,
            PieceKind::Rook => exists|i: int|
                0 <= i < 4 && #[trigger] ray_dest(
                    b,
                    color,
                    a.0,
                    a.1,
                    rook_dirs(i).0,
                    rook_dirs(i).1,
                    k.0,
                    k.1,
                ) && ray_dest(b, color, a.0, a.1, rook_dirs(i).0, rook_dirs(i).1, tr, tf),
            PieceKind::Bishop => exists|i: int|
                0 <= i < 4 && #[trigger] ray_dest(
                    b,
                    color,
                    a.0,
                    a.1,
                    bishop_dirs(i).0,
                    bishop_dirs(i).1,
                    k.0,
                    k.1,
                ) && ray_dest(b, color, a.0, a.1, bishop_dirs(i).0, bishop_dirs(i).1, tr, tf),
            PieceKind::Queen => exists|i: int|
                0 <= i < 8 && #[trigger] ray_dest(
                    b,
                    color,
                    a.0,
                    a.1,
                    queen_dirs(i).0,
                    queen_dirs(i).1,
                    k.0,
                    k.1,
                ) && ray_dest(b, color, a.0, a.1, queen_dirs(i).0, queen_dirs(i).1, tr, tf),
        },
    }
}

/// A king move two files sideways along its rank: the shape of a castle.
pub open spec fn castle_shape(fr: int, ff: int, tr: int, tf: int) -> bool {
    fr == tr && iabs(ff - tf) == 2
}

/// The file of the single square the king crosses while castling.
pub open spec fn transit_file(ff: int, tf: int) -> int {
    if tf > ff {
        ff + 1
    } else {
        ff - 1
    }
}

/// The board after relocating the piece on `from` to `to` and vacating
/// `from` — the scratch board king-move safety is tested on.
pub open spec fn scratch_board(b: Seq<Cell>, fr: int, ff: int, tr: int, tf: int) -> Seq<Cell> {
    b.update(sq_idx(tr, tf), b[sq_idx(fr, ff)]).update(sq_idx(fr, ff), Cell::Empty)
}

/// The king move `to` survives the safety filter: a castle-shaped move is
/// rejected when the king is in check or crosses an attacked square, and
/// any king move is rejected when its destination is attacked on the
/// scratch board.
pub open spec fn king_move_allowed(
    b: Seq<Cell>,
    ep: (int, int),
    us: Color,
    k: (int, int),
    to: (int, int),
) -> bool {
    &&& (castle_shape(k.0, k.1, to.0, to.1) ==> !square_attacked(b, ep, us, k.0, k.1)
        && !square_attacked(b, ep, us, k.0, transit_file(k.1, to.1)))
    &&& !square_attacked(scratch_board(b, k.0, k.1, to.0, to.1), ep, us, to.0, to.1)
}

/// A non-king move `to` survives the check-response filter: anything when
/// the king is not attacked, nothing under double check, and under single
/// check only capturing the attacker or interposing on its path.
pub open spec fn check_response_allowed(
    b: Seq<Cell>,
    ep: (int, int),
    us: Color,
    k: (int, int),
    to: (int, int),
) -> bool {
    if !square_attacked(b, ep, us, k.0, k.1) {
        true
    } else if double_check(b, ep, us, k) {
        false
    } else {
        let a = the_attacker(b, ep, us, k);
        to == a || check_path(b, ep, a, k, to.0, to.1)
    }
}

/// The move from `from` to `to` is legal for `us`: a pseudo-legal move of
/// a piece of `us`, surviving the king-safety filter when the king moves
/// and the check-response filter otherwise.
pub open spec fn legal_move(
    b: Seq<Cell>,
    ep: (int, int),
    cr: CastlingRights,
    us: Color,
    from: (int, int),
    to: (int, int),
) -> bool
    recommends
        unique_king(b, us),
{
    let k = king_square(b, us);
    &&& on_board(from.0, from.1)
    &&& has_color_at(b, from.0, from.1, us)
    &&& piece_dest(b, ep, cr, from.0, from.1, to.0, to.1)
    &&& if from == k {
        king_move_allowed(b, ep, us, k, to)
    } else {
        check_response_allowed(b, ep, us, k, to)
    }
}

/// Pseudo-legal destination groups of the occupied square `from`,
/// dispatched on the piece kind standing there.
pub fn piece_groups(
    board: &Board,
    from: (u8, u8),
    enpassat: (u8, u8),
    castling: CastlingRights,
) -> (res: Vec<Vec<(u8, u8)>>)
    requires
        board.wf(),
        from.0 < 8,
        from.1 < 8,
        !is_empty_at(board@, from.0 as int, from.1 as int),
    ensures
        forall|t: (u8, u8)|
            #[trigger] groups_contain(res@, t) <==> piece_dest(
                board@,
                (enpassat.0 as int, enpassat.1 as int),
                castling,
                from.0 as int,
                from.1 as int,
                t.0 as int,
                t.1 as int,
            ),
{
    match board.at(from.0, from.1) {
        Cell::Piece { kind: PieceKind::Pawn, .. } => pawn::get_possible_moves(
            from,
            board,
            enpassat,
        ),
        Cell::Piece { kind: PieceKind::Rook, .. } => rook::get_possible_moves(from, board),
        Cell::Piece { kind: PieceKind::Knight, .. } => knight::get_possible_moves(from, board),
        Cell::Piece { kind: PieceKind::Bishop, .. } => bishop::get_possible_moves(from, board),
        Cell::Piece { kind: PieceKind::Queen, .. } => queen::get_possible_moves(from, board),
        Cell::Piece { kind: PieceKind::King, .. } => king::get_possible_moves(
            from,
            board,
            castling,
        ),
        Cell::Empty => {
            proof {
                assert(false);
            }
            Vec::new()
        },
    }
}

/// Does the piece on (ar, af) — if it belongs to the opponent of
/// `player` — attack (tr, tf)?
pub fn attacks_from(
    board: &Board,
    enpassat: (u8, u8),
    player: Color,
    ar: u8,
    af: u8,
    tr: u8,
    tf: u8,
) -> (r: bool)
    requires
        board.wf(),
        ar < 8,
        af < 8,
        tr < 8,
        tf < 8,
    ensures
        r == attacks_from_spec(
            board@,
            (enpassat.0 as int, enpassat.1 as int),
            player,
            ar as int,
            af as int,
            tr as int,
            tf as int,
        ),
{
    let enemy = match board.at(ar, af) {
        Cell::Empty => false,
        Cell::Piece { color, .. } => color != player,
    };
    if !enemy {
        return false;
    }
    let groups = piece_groups(board, (ar, af), enpassat, CastlingRights::none());
    match first_group_with(&groups, (tr, tf)) {
        Some(i) => {
            proof {
                assert(groups_contain(groups@, (tr, tf)));
            }
            true
        },
        None => false,
    }
}

/// Some scan index, taken as a rank-major square, attacks the target.
pub open spec fn some_index_attacks(
    b: Seq<Cell>,
    ep: (int, int),
    us: Color,
    tr: int,
    tf: int,
) -> bool {
    exists|i: int| 0 <= i < 64 && #[trigger] attacks_from_spec(b, ep, us, i / 8, i % 8, tr, tf)
}

/// Relies on rayon's ParallelIterator::any: it returns true exactly
/// when some item of the range satisfies the predicate.  The predicate
/// is the verified per-square attack test.
#[verifier::external_body]
fn par_any_attacker(board: &Board, enpassat: (u8, u8), player: Color, pos: (u8, u8)) -> (r: bool)
    requires
        board.wf(),
        pos.0 < 8,
        pos.1 < 8,
    ensures
        r == some_index_attacks(
            board@,
            (enpassat.0 as int, enpassat.1 as int),
            player,
            pos.0 as int,
            pos.1 as int,
        ),
{
    (0u8..64).into_par_iter().any(
        |i| attacks_from(board, enpassat, player, i / 8, i % 8, pos.0, pos.1),
    )
}

/// The attack oracle: is `pos` attacked by the opponent of `player`?
/// All 64 squares are scanned, in parallel; castle destinations never
/// count as attacks.
pub fn is_square_attacked(
    pos: (u8, u8),
    board: &Board,
    enpassat: (u8, u8),
    player: Color,
) -> (r: bool)
    requires
        board.wf(),
        pos.0 < 8,
        pos.1 < 8,
    ensures
        r == square_attacked(
            board@,
            (enpassat.0 as int, enpassat.1 as int),
            player,
            pos.0 as int,
            pos.1 as int,
        ),
{
    let ghost b = board@;
    let ghost ep = (enpassat.0 as int, enpassat.1 as int);
    let r = par_any_attacker(board, enpassat, player, pos);
    proof {
        if r {
            let i = choose|i: int|
                0 <= i < 64 && #[trigger] attacks_from_spec(
                    b,
                    ep,
                    player,
                    i / 8,
                    i % 8,
                    pos.0 as int,
                    pos.1 as int,
                );
            assert(square_attacked(b, ep, player, pos.0 as int, pos.1 as int));
        } else {
            if square_attacked(b, ep, player, pos.0 as int, pos.1 as int) {
                let (ar, af) = choose|ar: int, af: int|
                    #[trigger] attacks_from_spec(b, ep, player, ar, af, pos.0 as int, pos.1 as int);
                let j = ar * 8 + af;
                assert(j / 8 == ar && j % 8 == af) by (nonlinear_arith)
                    requires
                        0 <= ar < 8 && 0 <= af < 8 && j == ar * 8 + af,
                ;
                assert(0 <= j < 64 && attacks_from_spec(
                    b,
                    ep,
                    player,
                    j / 8,
                    j % 8,
                    pos.0 as int,
                    pos.1 as int,
                ));
                assert(false);
            }
        }
    }
    r
}

/// The square of the side-to-move king.
pub fn find_king(board: &Board, player: Color) -> (k: (u8, u8))
    requires
        board.wf(),
        unique_king(board@, player),
    ensures
        k.0 < 8,
        k.1 < 8,
        (k.0 as int, k.1 as int) == king_square(board@, player),
{
    let ghost b = board@;
    let mut i: usize = 0;
    while i < 64
        invariant
            board.wf(),
            b == board@,
            unique_king(b, player),
            i <= 64,
            forall|j: int| 0 <= j < i ==> b[j] != (Cell::Piece { color: player, kind: PieceKind::King }),
        decreases 64 - i,
    {
        let r = (i / 8) as u8;
        let f = (i % 8) as u8;
        let is_king = board.at(r, f) == (Cell::Piece { color: player, kind: PieceKind::King });
        if is_king {
            proof {
                assert(king_at(b, player, (r as int, f as int)));
                let kk = king_square(b, player);
                assert(king_at(b, player, kk));
            }
            return (r, f);
        }
        proof {
            assert(b[i as int] == cell_at(b, i as int / 8, i as int % 8)) by (nonlinear_arith)
                requires
                    0 <= i < 64,
                    b.len() == 64,
                    cell_at(b, i as int / 8, i as int % 8) == b[(i as int / 8) * 8 + i as int % 8],
            ;
        }
        i = i + 1;
    }
    proof {
        let kk = choose|sq: (int, int)| king_at(b, player, sq);
        assert(king_at(b, player, kk));
        assert(b[sq_idx(kk.0, kk.1)] == (Cell::Piece { color: player, kind: PieceKind::King }));
        assert(0 <= sq_idx(kk.0, kk.1) < 64);
        assert(false);
    }
    (0, 0)
}

/// Is the `player` king attacked?
pub fn is_in_check(
    board: &Board,
    enpassat: (u8, u8),
    _castling: CastlingRights,
    player: Color,
) -> (r: bool)
    requires
        board.wf(),
        unique_king(board@, player),
    ensures
        r == {
            let k = king_square(board@, player);
            square_attacked(
                board@,
                (enpassat.0 as int, enpassat.1 as int),
                player,
                k.0,
                k.1,
            )
        },
{
    let k = find_king(board, player);
    is_square_attacked(k, board, enpassat, player)
}


/// Every pseudo-legal destination is a board square.
pub proof fn lemma_piece_dest_on_board(
    b: Seq<Cell>,
    ep: (int, int),
    cr: CastlingRights,
    ar: int,
    af: int,
    tr: int,
    tf: int,
)
    requires
        piece_dest(b, ep, cr, ar, af, tr, tf),
    ensures
        on_board(tr, tf),
{
    match cell_at(b, ar, af) {
        Cell::Empty => {},
        Cell::Piece { color, kind } => match kind {
            PieceKind::Pawn => {},
            PieceKind::Rook => {
                let i = choose|i: int|
                    0 <= i < 4 && #[trigger] ray_dest(
                        b,
                        color,
                        ar,
                        af,
                        rook_dirs(i).0,
                        rook_dirs(i).1,
                        tr,
                        tf,
                    );
            },
            PieceKind::Knight => {},
            PieceKind::Bishop => {
                let i = choose|i: int|
                    0 <= i < 4 && #[trigger] ray_dest(
                        b,
                        color,
                        ar,
                        af,
                        bishop_dirs(i).0,
                        bishop_dirs(i).1,
                        tr,
                        tf,
                    );
            },
            PieceKind::Queen => {
                let i = choose|i: int|
                    0 <= i < 8 && #[trigger] ray_dest(
                        b,
                        color,
                        ar,
                        af,
                        queen_dirs(i).0,
                        queen_dirs(i).1,
                        tr,
                        tf,
                    );
            },
            PieceKind::King => {
                if castle_dest(b, cr, ar, af, tr, tf) {
                    king::lemma_castle_dest_empty(b, cr, ar, af, tr, tf);
                }
            },
        },
    }
}

/// On an occupied target square the castling rights make no difference:
/// castle destinations are always empty, so no castle move reaches it.
pub proof fn lemma_piece_dest_rights(
    b: Seq<Cell>,
    ep: (int, int),
    cr: CastlingRights,
    ar: int,
    af: int,
    tr: int,
    tf: int,
)
    requires
        !is_empty_at(b, tr, tf),
    ensures
        piece_dest(b, ep, cr, ar, af, tr, tf) == piece_dest(
            b,
            ep,
            CastlingRights::spec_none(),
            ar,
            af,
            tr,
            tf,
        ),
{
    match cell_at(b, ar, af) {
        Cell::Piece { color, kind: PieceKind::King } => {
            if castle_dest(b, cr, ar, af, tr, tf) {
                king::lemma_castle_dest_empty(b, cr, ar, af, tr, tf);
            }
            if castle_dest(b, CastlingRights::spec_none(), ar, af, tr, tf) {
                king::lemma_castle_dest_empty(b, CastlingRights::spec_none(), ar, af, tr, tf);
            }
        },
        _ => {},
    }
}

/// The attacking group of the piece on `from` against the occupied
/// square `k`: the first generated group that contains `k`, whose
/// membership is exactly `check_path`.  `None` when the piece does not
/// attack `k`.
pub fn find_attack_group(
    board: &Board,
    from: (u8, u8),
    enpassat: (u8, u8),
    castling: CastlingRights,
    k: (u8, u8),
) -> (r: Option<Vec<(u8, u8)>>)
    requires
        board.wf(),
        from.0 < 8,
        from.1 < 8,
        k.0 < 8,
        k.1 < 8,
        !is_empty_at(board@, from.0 as int, from.1 as int),
        !is_empty_at(board@, k.0 as int, k.1 as int),
    ensures
        match r {
            Some(g) => piece_dest(
                board@,
                (enpassat.0 as int, enpassat.1 as int),
                CastlingRights::spec_none(),
                from.0 as int,
                from.1 as int,
                k.0 as int,
                k.1 as int,
            ) && forall|t: (u8, u8)|
                #[trigger] g@.contains(t) <==> check_path(
                    board@,
                    (enpassat.0 as int, enpassat.1 as int),
                    (from.0 as int, from.1 as int),
                    (k.0 as int, k.1 as int),
                    t.0 as int,
                    t.1 as int,
                ),
            None => !piece_dest(
                board@,
                (enpassat.0 as int, enpassat.1 as int),
                CastlingRights::spec_none(),
                from.0 as int,
                from.1 as int,
                k.0 as int,
                k.1 as int,
            ),
        },
{
    let ghost b = board@;
    let ghost ep = (enpassat.0 as int, enpassat.1 as int);
    let ghost a = (from.0 as int, from.1 as int);
    let ghost kk = (k.0 as int, k.1 as int);
    proof {
        lemma_piece_dest_rights(b, ep, castling, a.0, a.1, kk.0, kk.1);
    }
    match board.at(from.0, from.1) {
        Cell::Empty => {
            proof {
                assert(false);
            }
            None
        },
        Cell::Piece { color, kind } => match kind {
            PieceKind::Pawn => {
                let mut groups = pawn::get_possible_moves(from, board, enpassat);
                if contains_sq(&groups[0], k) {
                    let ghost orig = groups@;
                    let g = groups.remove(0);
                    proof {
                        assert(g == orig[0]);
                        assert(g@.contains(k));
                    }
                    Some(g)
                } else {
                    // The quiet-advance group holds empty squares only,
                    // so it can never contain the occupied square `k`.
                    proof {
                        if groups@[1]@.contains(k) {
                            assert(is_empty_at(b, kk.0, kk.1));
                            assert(false);
                        }
                    }
                    None
                }
            },
            PieceKind::Knight => {
                let mut groups = knight::get_possible_moves(from, board);
                let found = first_group_with(&groups, k);
                match found {
                    None => {
                        proof {
                            if knight_dest(b, color, a.0, a.1, kk.0, kk.1) {
                                assert(groups_contain(groups@, k));
                                let i = choose|i: int|
                                    0 <= i < groups@.len() && #[trigger] groups@[i]@.contains(k);
                            }
                        }
                        None
                    },
                    Some(i) => {
                        let ghost orig = groups@;
                        let g = groups.remove(i);
                        proof {
                            assert(g == orig[i as int]);
                            assert(orig[i as int]@.contains(k));
                            assert(groups_contain(orig, k));
                            assert(g@.contains(k));
                            assert(g@.len() == 1);
                            let ci = choose|ci: int| 0 <= ci < g@.len() && g@[ci] == k;
                            assert(g@[0] == k);
                            assert forall|t: (u8, u8)| #[trigger] g@.contains(t) implies t
                                == k by {
                                let ct = choose|ct: int| 0 <= ct < g@.len() && g@[ct] == t;
                            }
                        }
                        Some(g)
                    },
                }
            },
            PieceKind::King => {
                let mut groups = king::get_possible_moves(from, board, castling);
                let found = first_group_with(&groups, k);
                match found {
                    None => {
                        proof {
                            if king_dest(b, castling, color, a.0, a.1, kk.0, kk.1) {
                                assert(groups_contain(groups@, k));
                                let i = choose|i: int|
                                    0 <= i < groups@.len() && #[trigger] groups@[i]@.contains(k);
                            }
                        }
                        None
                    },
                    Some(i) => {
                        let ghost orig = groups@;
                        let g = groups.remove(i);
                        proof {
                            assert(g == orig[i as int]);
                            assert(orig[i as int]@.contains(k));
                            assert(groups_contain(orig, k));
                            assert(g@.contains(k));
                            assert forall|t: (u8, u8)| #[trigger] g@.contains(t) implies t
                                == k by {
                                assert(orig[i as int]@.contains(k) && orig[i as int]@.contains(t));
                            }
                        }
                        Some(g)
                    },
                }
            },
            PieceKind::Rook => {
                let mut groups: Vec<Vec<(u8, u8)>>;
            groups = rook::get_possible_moves(from, board);
            let found = first_group_with(&groups, k);
            match found {
                None => {
                    proof {
                        if rook_dest(b, color, a.0, a.1, kk.0, kk.1) {
                            let i = choose|i: int|
                                0 <= i < 4 && #[trigger] ray_dest(
                                    b,
                                    color,
                                    a.0,
                                    a.1,
                                    rook_dirs(i).0,
                                    rook_dirs(i).1,
                                    kk.0,
                                    kk.1,
                                );
                            assert(groups@[i]@.contains(k));
                        }
                    }
                    None
                },
                Some(i) => {
                    let ghost orig = groups@;
                    let g = groups.remove(i);
                    proof {
                        assert(g == orig[i as int]);
                        assert(g@.contains(k));
                        assert(ray_dest(b, color, a.0, a.1, rook_dirs(i as int).0, rook_dirs(
                            i as int,
                        ).1, kk.0, kk.1));
                        assert(rook_dest(b, color, a.0, a.1, kk.0, kk.1));
                        assert forall|t: (u8, u8)| #[trigger] g@.contains(t) implies check_path(
                            b,
                            ep,
                            a,
                            kk,
                            t.0 as int,
                            t.1 as int,
                        ) by {
                            assert(ray_dest(b, color, a.0, a.1, rook_dirs(i as int).0, rook_dirs(
                                i as int,
                            ).1, t.0 as int, t.1 as int));
                        }
                        assert forall|t: (u8, u8)|
                            check_path(b, ep, a, kk, t.0 as int, t.1 as int) implies #[trigger] g@
                            .contains(t) by {
                            let j = choose|j: int|
                                0 <= j < 4 && #[trigger] ray_dest(
                                    b,
                                    color,
                                    a.0,
                                    a.1,
                                    rook_dirs(j).0,
                                    rook_dirs(j).1,
                                    kk.0,
                                    kk.1,
                                ) && ray_dest(
                                    b,
                                    color,
                                    a.0,
                                    a.1,
                                    rook_dirs(j).0,
                                    rook_dirs(j).1,
                                    t.0 as int,
                                    t.1 as int,
                                );
                            lemma_ray_dir_unique(
                                b,
                                color,
                                a.0,
                                a.1,
                                rook_dirs(j).0,
                                rook_dirs(j).1,
                                rook_dirs(i as int).0,
                                rook_dirs(i as int).1,
                                kk.0,
                                kk.1,
                            );
                            assert(ray_dest(b, color, a.0, a.1, rook_dirs(i as int).0, rook_dirs(
                                i as int,
                            ).1, t.0 as int, t.1 as int));
                        }
                    }
                    Some(g)
                },
            }
            },
            PieceKind::Bishop => {
                let mut groups: Vec<Vec<(u8, u8)>>;
            groups = bishop::get_possible_moves(from, board);
            let found = first_group_with(&groups, k);
            match found {
                None => {
                    proof {
                        if bishop_dest(b, color, a.0, a.1, kk.0, kk.1) {
                            let i = choose|i: int|
                                0 <= i < 4 && #[trigger] ray_dest(
                                    b,
                                    color,
                                    a.0,
                                    a.1,
                                    bishop_dirs(i).0,
                                    bishop_dirs(i).1,
                                    kk.0,
                                    kk.1,
                                );
                            assert(groups@[i]@.contains(k));
                        }
                    }
                    None
                },
                Some(i) => {
                    let ghost orig = groups@;
                    let g = groups.remove(i);
                    proof {
                        assert(g == orig[i as int]);
                        assert(g@.contains(k));
                        assert(ray_dest(b, color, a.0, a.1, bishop_dirs(i as int).0, bishop_dirs(
                            i as int,
                        ).1, kk.0, kk.1));
                        assert(bishop_dest(b, color, a.0, a.1, kk.0, kk.1));
                        assert forall|t: (u8, u8)| #[trigger] g@.contains(t) implies check_path(
                            b,
                            ep,
                            a,
                            kk,
                            t.0 as int,
                            t.1 as int,
                        ) by {
                            assert(ray_dest(b, color, a.0, a.1, bishop_dirs(i as int).0, bishop_dirs(
                                i as int,
                            ).1, t.0 as int, t.1 as int));
                        }
                        assert forall|t: (u8, u8)|
                            check_path(b, ep, a, kk, t.0 as int, t.1 as int) implies #[trigger] g@
                            .contains(t) by {
                            let j = choose|j: int|
                                0 <= j < 4 && #[trigger] ray_dest(
                                    b,
                                    color,
                                    a.0,
                                    a.1,
                                    bishop_dirs(j).0,
                                    bishop_dirs(j).1,
                                    kk.0,
                                    kk.1,
                                ) && ray_dest(
                                    b,
                                    color,
                                    a.0,
                                    a.1,
                                    bishop_dirs(j).0,
                                    bishop_dirs(j).1,
                                    t.0 as int,
                                    t.1 as int,
                                );
                            lemma_ray_dir_unique(
                                b,
                                color,
                                a.0,
                                a.1,
                                bishop_dirs(j).0,
                                bishop_dirs(j).1,
                                bishop_dirs(i as int).0,
                                bishop_dirs(i as int).1,
                                kk.0,
                                kk.1,
                            );
                            assert(ray_dest(b, color, a.0, a.1, bishop_dirs(i as int).0, bishop_dirs(
                                i as int,
                            ).1, t.0 as int, t.1 as int));
                        }
                    }
                    Some(g)
                },
            }
            },
            PieceKind::Queen => {
                let mut groups: Vec<Vec<(u8, u8)>>;
            groups = queen::get_possible_moves(from, board);
            let found = first_group_with(&groups, k);
            match found {
                None => {
                    proof {
                        if queen_dest(b, color, a.0, a.1, kk.0, kk.1) {
                            let i = choose|i: int|
                                0 <= i < 8 && #[trigger] ray_dest(
                                    b,
                                    color,
                                    a.0,
                                    a.1,
                                    queen_dirs(i).0,
                                    queen_dirs(i).1,
                                    kk.0,
                                    kk.1,
                                );
                            assert(groups@[i]@.contains(k));
                        }
                    }
                    None
                },
                Some(i) => {
                    let ghost orig = groups@;
                    let g = groups.remove(i);
                    proof {
                        assert(g == orig[i as int]);
                        assert(g@.contains(k));
                        assert(ray_dest(b, color, a.0, a.1, queen_dirs(i as int).0, queen_dirs(
                            i as int,
                        ).1, kk.0, kk.1));
                        assert(queen_dest(b, color, a.0, a.1, kk.0, kk.1));
                        assert forall|t: (u8, u8)| #[trigger] g@.contains(t) implies check_path(
                            b,
                            ep,
                            a,
                            kk,
                            t.0 as int,
                            t.1 as int,
                        ) by {
                            assert(ray_dest(b, color, a.0, a.1, queen_dirs(i as int).0, queen_dirs(
                                i as int,
                            ).1, t.0 as int, t.1 as int));
                        }
                        assert forall|t: (u8, u8)|
                            check_path(b, ep, a, kk, t.0 as int, t.1 as int) implies #[trigger] g@
                            .contains(t) by {
                            let j = choose|j: int|
                                0 <= j < 8 && #[trigger] ray_dest(
                                    b,
                                    color,
                                    a.0,
                                    a.1,
                                    queen_dirs(j).0,
                                    queen_dirs(j).1,
                                    kk.0,
                                    kk.1,
                                ) && ray_dest(
                                    b,
                                    color,
                                    a.0,
                                    a.1,
                                    queen_dirs(j).0,
                                    queen_dirs(j).1,
                                    t.0 as int,
                                    t.1 as int,
                                );
                            lemma_ray_dir_unique(
                                b,
                                color,
                                a.0,
                                a.1,
                                queen_dirs(j).0,
                                queen_dirs(j).1,
                                queen_dirs(i as int).0,
                                queen_dirs(i as int).1,
                                kk.0,
                                kk.1,
                            );
                            assert(ray_dest(b, color, a.0, a.1, queen_dirs(i as int).0, queen_dirs(
                                i as int,
                            ).1, t.0 as int, t.1 as int));
                        }
                    }
                    Some(g)
                },
            }
            },
        },
    }
}


/// Every attacking path against the occupied square `k`, paired with its
/// attacker: for each opposing piece whose pseudo-legal destinations
/// include `k`, the group through which it attacks and its own square.
pub fn collect_attackers(
    board: &Board,
    enpassat: (u8, u8),
    castling: CastlingRights,
    player: Color,
    k: (u8, u8),
) -> (r: (Vec<Vec<(u8, u8)>>, Vec<(u8, u8)>))
    requires
        board.wf(),
        k.0 < 8,
        k.1 < 8,
        !is_empty_at(board@, k.0 as int, k.1 as int),
    ensures
        r.0@.len() == r.1@.len(),
        forall|idx: int|
            0 <= idx < r.1@.len() ==> attacker_at(
                board@,
                (enpassat.0 as int, enpassat.1 as int),
                player,
                (k.0 as int, k.1 as int),
                ((#[trigger] r.1@[idx]).0 as int, r.1@[idx].1 as int),
            ),
        forall|i1: int, i2: int| 0 <= i1 < i2 < r.1@.len() ==> r.1@[i1] != r.1@[i2],
        forall|a: (int, int)|
            #[trigger] attacker_at(
                board@,
                (enpassat.0 as int, enpassat.1 as int),
                player,
                (k.0 as int, k.1 as int),
                a,
            ) ==> exists|idx: int|
                0 <= idx < r.1@.len() && ((#[trigger] r.1@[idx]).0 as int, r.1@[idx].1 as int)
                    == a,
        forall|idx: int, t: (u8, u8)|
            0 <= idx < r.0@.len() ==> ((#[trigger] r.0@[idx]@.contains(t)) <==> check_path(
                board@,
                (enpassat.0 as int, enpassat.1 as int),
                (r.1@[idx].0 as int, r.1@[idx].1 as int),
                (k.0 as int, k.1 as int),
                t.0 as int,
                t.1 as int,
            )),
{
    let ghost b = board@;
    let ghost ep = (enpassat.0 as int, enpassat.1 as int);
    let ghost kk = (k.0 as int, k.1 as int);
    let mut paths: Vec<Vec<(u8, u8)>> = Vec::new();
    let mut attackers: Vec<(u8, u8)> = Vec::new();
    let mut i: usize = 0;
    while i < 64
        invariant
            board.wf(),
            b == board@,
            ep == (enpassat.0 as int, enpassat.1 as int),
            kk == (k.0 as int, k.1 as int),
            k.0 < 8,
            k.1 < 8,
            !is_empty_at(b, kk.0, kk.1),
            i <= 64,
            paths@.len() == attackers@.len(),
            forall|idx: int|
                0 <= idx < attackers@.len() ==> attacker_at(
                    b,
                    ep,
                    player,
                    kk,
                    ((#[trigger] attackers@[idx]).0 as int, attackers@[idx].1 as int),
                ),
            forall|idx: int|
                0 <= idx < attackers@.len() ==> sq_idx(
                    (#[trigger] attackers@[idx]).0 as int,
                    attackers@[idx].1 as int,
                ) < i,
            forall|i1: int, i2: int| 0 <= i1 < i2 < attackers@.len() ==> attackers@[i1] != attackers@[i2],
            forall|a: (int, int)|
                #[trigger] attacker_at(b, ep, player, kk, a) && sq_idx(a.0, a.1) < i ==> exists|
                    idx: int,
                |
                    0 <= idx < attackers@.len() && ((#[trigger] attackers@[idx]).0 as int,
                    attackers@[idx].1 as int) == a,
            forall|idx: int, t: (u8, u8)|
                0 <= idx < paths@.len() ==> ((#[trigger] paths@[idx]@.contains(t)) <==> check_path(
                    b,
                    ep,
                    (attackers@[idx].0 as int, attackers@[idx].1 as int),
                    kk,
                    t.0 as int,
                    t.1 as int,
                )),
        decreases 64 - i,
    {
        let ar = (i / 8) as u8;
        let af = (i % 8) as u8;
        let ghost old_attackers = attackers@;
        let ghost old_paths = paths@;
        let enemy = match board.at(ar, af) {
            Cell::Empty => false,
            Cell::Piece { color, .. } => color != player,
        };
        proof {
            assert(sq_idx(ar as int, af as int) == i);
        }
        if enemy {
            match find_attack_group(board, (ar, af), enpassat, castling, k) {
                Some(g) => {
                    paths.push(g);
                    attackers.push((ar, af));
                    proof {
                        assert(attacker_at(b, ep, player, kk, (ar as int, af as int)));
                        assert(attackers@[attackers@.len() - 1] == ((ar, af)));
                        assert forall|a: (int, int)|
                            #[trigger] attacker_at(b, ep, player, kk, a) && sq_idx(a.0, a.1) < i
                                + 1 implies exists|idx: int|
                            0 <= idx < attackers@.len() && ((#[trigger] attackers@[idx]).0 as int,
                            attackers@[idx].1 as int) == a by {
                            if sq_idx(a.0, a.1) < i {
                                let idx = choose|idx: int|
                                    0 <= idx < old_attackers.len() && ((
                                    #[trigger] old_attackers[idx]).0 as int,
                                    old_attackers[idx].1 as int) == a;
                                assert(((attackers@[idx]).0 as int, attackers@[idx].1 as int)
                                    == a);
                            } else {
                                assert(on_board(a.0, a.1));
                                assert(a == (ar as int, af as int));
                                assert(((attackers@[attackers@.len() - 1]).0 as int,
                                attackers@[attackers@.len() - 1].1 as int) == a);
                            }
                        }
                    }
                },
                None => {
                    proof {
                        assert forall|a: (int, int)|
                            #[trigger] attacker_at(b, ep, player, kk, a) && sq_idx(a.0, a.1) < i
                                + 1 implies exists|idx: int|
                            0 <= idx < attackers@.len() && ((#[trigger] attackers@[idx]).0 as int,
                            attackers@[idx].1 as int) == a by {
                            if sq_idx(a.0, a.1) >= i {
                                assert(on_board(a.0, a.1));
                                assert(a == (ar as int, af as int));
                                assert(false);
                            }
                        }
                    }
                },
            }
        } else {
            proof {
                assert forall|a: (int, int)|
                    #[trigger] attacker_at(b, ep, player, kk, a) && sq_idx(a.0, a.1) < i
                        + 1 implies exists|idx: int|
                    0 <= idx < attackers@.len() && ((#[trigger] attackers@[idx]).0 as int,
                    attackers@[idx].1 as int) == a by {
                    if sq_idx(a.0, a.1) >= i {
                        assert(on_board(a.0, a.1));
                        assert(a == (ar as int, af as int));
                        assert(has_color_at(b, a.0, a.1, opposite(player)));
                        assert(false);
                    }
                }
            }
        }
        i = i + 1;
    }
    proof {
        assert forall|a: (int, int)|
            #[trigger] attacker_at(b, ep, player, kk, a) implies exists|idx: int|
            0 <= idx < attackers@.len() && ((#[trigger] attackers@[idx]).0 as int,
            attackers@[idx].1 as int) == a by {
            assert(on_board(a.0, a.1));
            assert(sq_idx(a.0, a.1) < 64);
        }
    }
    (paths, attackers)
}

/// All pseudo-legal moves of the piece on the occupied square `from`.
pub fn square_moves(
    board: &Board,
    from: (u8, u8),
    enpassat: (u8, u8),
    castling: CastlingRights,
) -> (res: Vec<((u8, u8), (u8, u8))>)
    requires
        board.wf(),
        from.0 < 8,
        from.1 < 8,
        !is_empty_at(board@, from.0 as int, from.1 as int),
    ensures
        forall|m: ((u8, u8), (u8, u8))|
            #[trigger] res@.contains(m) <==> (m.0 == from && piece_dest(
                board@,
                (enpassat.0 as int, enpassat.1 as int),
                castling,
                from.0 as int,
                from.1 as int,
                m.1.0 as int,
                m.1.1 as int,
            )),
{
    let ghost b = board@;
    let ghost ep = (enpassat.0 as int, enpassat.1 as int);
    let groups = piece_groups(board, from, enpassat, castling);
    let flat = flat_groups(&groups);
    let mut res: Vec<((u8, u8), (u8, u8))> = Vec::new();
    let mut e: usize = 0;
    while e < flat.len()
        invariant
            e <= flat@.len(),
            forall|m: ((u8, u8), (u8, u8))|
                #[trigger] res@.contains(m) <==> (m.0 == from && exists|x: int|
                    0 <= x < e && flat@[x] == m.1),
        decreases flat@.len() - e,
    {
        let ghost old_res = res@;
        res.push((from, flat[e]));
        proof {
            broadcast use vstd::seq_lib::lemma_seq_contains_after_push;
            assert forall|m: ((u8, u8), (u8, u8))| #[trigger] res@.contains(m) implies (m.0 == from
                && exists|x: int| 0 <= x < e + 1 && flat@[x] == m.1) by {
                if old_res.contains(m) {
                    let x = choose|x: int| 0 <= x < e && flat@[x] == m.1;
                    assert(0 <= x < e + 1 && flat@[x] == m.1);
                } else {
                    assert(flat@[e as int] == m.1);
                }
            }
            assert forall|m: ((u8, u8), (u8, u8))|
                (m.0 == from && exists|x: int|
                    0 <= x < e + 1 && flat@[x] == m.1) implies #[trigger] res@.contains(m) by {
                let x = choose|x: int| 0 <= x < e + 1 && flat@[x] == m.1;
                if x < e {
                    assert(old_res.contains(m));
                } else {
                    assert(m == ((from, flat@[e as int])));
                }
            }
        }
        e = e + 1;
    }
    proof {
        assert forall|m: ((u8, u8), (u8, u8))| #[trigger] res@.contains(m) implies (m.0 == from
            && piece_dest(b, ep, castling, from.0 as int, from.1 as int, m.1.0 as int, m.1.1
            as int)) by {
            let x = choose|x: int| 0 <= x < flat@.len() && flat@[x] == m.1;
            assert(flat@.contains(m.1));
        }
        assert forall|m: ((u8, u8), (u8, u8))|
            (m.0 == from && piece_dest(b, ep, castling, from.0 as int, from.1 as int, m.1.0
            as int, m.1.1 as int)) implies #[trigger] res@.contains(m) by {
            assert(flat@.contains(m.1));
            let x = choose|x: int| 0 <= x < flat@.len() && flat@[x] == m.1;
        }
    }
    res
}

/// All pseudo-legal moves of every piece of `player` on the board.
pub fn collect_positions(
    board: &Board,
    enpassat: (u8, u8),
    castling: CastlingRights,
    player: Color,
) -> (res: Vec<((u8, u8), (u8, u8))>)
    requires
        board.wf(),
    ensures
        forall|m: ((u8, u8), (u8, u8))|
            #[trigger] res@.contains(m) <==> (on_board(m.0.0 as int, m.0.1 as int) && has_color_at(
                board@,
                m.0.0 as int,
                m.0.1 as int,
                player,
            ) && piece_dest(
                board@,
                (enpassat.0 as int, enpassat.1 as int),
                castling,
                m.0.0 as int,
                m.0.1 as int,
                m.1.0 as int,
                m.1.1 as int,
            )),
{
    let ghost b = board@;
    let ghost ep = (enpassat.0 as int, enpassat.1 as int);
    let mut res: Vec<((u8, u8), (u8, u8))> = Vec::new();
    let mut i: usize = 0;
    while i < 64
        invariant
            board.wf(),
            b == board@,
            ep == (enpassat.0 as int, enpassat.1 as int),
            i <= 64,
            forall|m: ((u8, u8), (u8, u8))|
                #[trigger] res@.contains(m) <==> (on_board(m.0.0 as int, m.0.1 as int) && sq_idx(
                    m.0.0 as int,
                    m.0.1 as int,
                ) < i && has_color_at(b, m.0.0 as int, m.0.1 as int, player) && piece_dest(
                    b,
                    ep,
                    castling,
                    m.0.0 as int,
                    m.0.1 as int,
                    m.1.0 as int,
                    m.1.1 as int,
                )),
        decreases 64 - i,
    {
        let r = (i / 8) as u8;
        let f = (i % 8) as u8;
        let ghost old_res = res@;
        let own = match board.at(r, f) {
            Cell::Empty => false,
            Cell::Piece { color, .. } => color == player,
        };
        proof {
            assert(sq_idx(r as int, f as int) == i);
        }
        if own {
            let mut sm = square_moves(board, (r, f), enpassat, castling);
            let ghost sm_snap = sm@;
            res.append(&mut sm);
            proof {
                assert(res@ == old_res + sm_snap);
                assert forall|m: ((u8, u8), (u8, u8))|
                    #[trigger] res@.contains(m) <==> (old_res.contains(m) || sm_snap.contains(
                        m,
                    )) by {
                    crate::motion::lemma_seq_add_contains(old_res, sm_snap, m);
                }
                assert forall|m: ((u8, u8), (u8, u8))| #[trigger] res@.contains(m) implies (
                on_board(m.0.0 as int, m.0.1 as int) && sq_idx(m.0.0 as int, m.0.1 as int) < i + 1
                    && has_color_at(b, m.0.0 as int, m.0.1 as int, player) && piece_dest(
                    b,
                    ep,
                    castling,
                    m.0.0 as int,
                    m.0.1 as int,
                    m.1.0 as int,
                    m.1.1 as int,
                )) by {
                    if sm_snap.contains(m) {
                        assert(m.0 == ((r, f)));
                    }
                }
                assert forall|m: ((u8, u8), (u8, u8))|
                    (on_board(m.0.0 as int, m.0.1 as int) && sq_idx(m.0.0 as int, m.0.1 as int) < i
                        + 1 && has_color_at(b, m.0.0 as int, m.0.1 as int, player) && piece_dest(
                        b,
                        ep,
                        castling,
                        m.0.0 as int,
                        m.0.1 as int,
                        m.1.0 as int,
                        m.1.1 as int,
                    )) implies #[trigger] res@.contains(m) by {
                    if sq_idx(m.0.0 as int, m.0.1 as int) >= i {
                        assert(m.0.0 as int == r as int && m.0.1 as int == f as int);
                        assert(m.0 == ((r, f)));
                        assert(sm_snap.contains(m));
                    }
                }
            }
        } else {
            proof {
                assert forall|m: ((u8, u8), (u8, u8))|
                    (on_board(m.0.0 as int, m.0.1 as int) && sq_idx(m.0.0 as int, m.0.1 as int) < i
                        + 1 && has_color_at(b, m.0.0 as int, m.0.1 as int, player) && piece_dest(
                        b,
                        ep,
                        castling,
                        m.0.0 as int,
                        m.0.1 as int,
                        m.1.0 as int,
                        m.1.1 as int,
                    )) implies #[trigger] res@.contains(m) by {
                    if sq_idx(m.0.0 as int, m.0.1 as int) >= i {
                        assert(m.0.0 as int == r as int && m.0.1 as int == f as int);
                        assert(false);
                    }
                }
            }
        }
        i = i + 1;
    }
    res
}


/// Every legal move of the side to move, as (from, to) square pairs.
/// The order of the result is not specified; membership is exactly
/// `legal_move`.
pub fn get_legal_moves(
    board: &Board,
    enpassat: (u8, u8),
    castling: CastlingRights,
    player: Color,
) -> (res: Vec<((u8, u8), (u8, u8))>)
    requires
        board.wf(),
        unique_king(board@, player),
    ensures
        forall|m: ((u8, u8), (u8, u8))|
            #[trigger] res@.contains(m) <==> legal_move(
                board@,
                (enpassat.0 as int, enpassat.1 as int),
                castling,
                player,
                (m.0.0 as int, m.0.1 as int),
                (m.1.0 as int, m.1.1 as int),
            ),
{
    let ghost b = board@;
    let ghost ep = (enpassat.0 as int, enpassat.1 as int);
    let k = find_king(board, player);
    let ghost kk = king_square(b, player);
    proof {
        assert(king_at(b, player, kk)) by {
            let sq = choose|sq: (int, int)| king_at(b, player, sq);
            assert(king_at(b, player, sq));
        }
    }
    let (paths, attackers) = collect_attackers(board, enpassat, castling, player, k);
    let in_chk = attackers.len() > 0;
    let dbl = attackers.len() > 1;
    proof {
        if in_chk {
            assert(attacker_at(b, ep, player, kk, (attackers@[0].0 as int, attackers@[0].1
                as int)));
            assert(attacks_from_spec(b, ep, player, attackers@[0].0 as int, attackers@[0].1
                as int, kk.0, kk.1));
        }
        if square_attacked(b, ep, player, kk.0, kk.1) {
            let (ar, af) = choose|ar: int, af: int|
                #[trigger] attacks_from_spec(b, ep, player, ar, af, kk.0, kk.1);
            assert(attacker_at(b, ep, player, kk, (ar, af)));
            let idx = choose|idx: int|
                0 <= idx < attackers@.len() && ((#[trigger] attackers@[idx]).0 as int,
                attackers@[idx].1 as int) == (ar, af);
            assert(attackers@.len() > 0);
        }
        if dbl {
            let a1 = (attackers@[0].0 as int, attackers@[0].1 as int);
            let a2 = (attackers@[1].0 as int, attackers@[1].1 as int);
            assert(attackers@[0] != attackers@[1]);
            assert(a1 != a2);
            assert(attacker_at(b, ep, player, kk, a1));
            assert(attacker_at(b, ep, player, kk, a2));
            assert(double_check(b, ep, player, kk));
        }
        if double_check(b, ep, player, kk) {
            let (a1, a2) = choose|a1: (int, int), a2: (int, int)|
                #[trigger] attacker_at(b, ep, player, kk, a1) && #[trigger] attacker_at(
                    b,
                    ep,
                    player,
                    kk,
                    a2,
                ) && a1 != a2;
            let i1 = choose|i1: int|
                0 <= i1 < attackers@.len() && ((#[trigger] attackers@[i1]).0 as int,
                attackers@[i1].1 as int) == a1;
            let i2 = choose|i2: int|
                0 <= i2 < attackers@.len() && ((#[trigger] attackers@[i2]).0 as int,
                attackers@[i2].1 as int) == a2;
            assert(i1 != i2);
            assert(attackers@.len() > 1);
        }
        if in_chk && !dbl {
            let ta = the_attacker(b, ep, player, kk);
            assert(attacker_at(b, ep, player, kk, ta)) by {
                assert(attacker_at(b, ep, player, kk, (attackers@[0].0 as int, attackers@[0].1
                    as int)));
            }
            let idx = choose|idx: int|
                0 <= idx < attackers@.len() && ((#[trigger] attackers@[idx]).0 as int,
                attackers@[idx].1 as int) == ta;
            assert(idx == 0);
            assert((attackers@[0].0 as int, attackers@[0].1 as int) == ta);
        }
    }
    let positions = collect_positions(board, enpassat, castling, player);
    let mut res: Vec<((u8, u8), (u8, u8))> = Vec::new();
    let mut p: usize = 0;
    while p < positions.len()
        invariant
            board.wf(),
            b == board@,
            ep == (enpassat.0 as int, enpassat.1 as int),
            unique_king(b, player),
            kk == king_square(b, player),
            king_at(b, player, kk),
            k.0 < 8,
            k.1 < 8,
            (k.0 as int, k.1 as int) == kk,
            p <= positions@.len(),
            paths@.len() == attackers@.len(),
            in_chk == (attackers@.len() > 0),
            dbl == (attackers@.len() > 1),
            in_chk == square_attacked(b, ep, player, kk.0, kk.1),
            dbl == double_check(b, ep, player, kk),
            in_chk && !dbl ==> (attackers@[0].0 as int, attackers@[0].1 as int) == the_attacker(
                b,
                ep,
                player,
                kk,
            ),
            forall|idx: int, t: (u8, u8)|
                0 <= idx < paths@.len() ==> ((#[trigger] paths@[idx]@.contains(t)) <==> check_path(
                    b,
                    ep,
                    (attackers@[idx].0 as int, attackers@[idx].1 as int),
                    kk,
                    t.0 as int,
                    t.1 as int,
                )),
            forall|m: ((u8, u8), (u8, u8))|
                #[trigger] positions@.contains(m) <==> (on_board(m.0.0 as int, m.0.1 as int)
                    && has_color_at(b, m.0.0 as int, m.0.1 as int, player) && piece_dest(
                    b,
                    ep,
                    castling,
                    m.0.0 as int,
                    m.0.1 as int,
                    m.1.0 as int,
                    m.1.1 as int,
                )),
            forall|m: ((u8, u8), (u8, u8))|
                #[trigger] res@.contains(m) <==> ((exists|q: int|
                    0 <= q < p && positions@[q] == m) && legal_move(
                    b,
                    ep,
                    castling,
                    player,
                    (m.0.0 as int, m.0.1 as int),
                    (m.1.0 as int, m.1.1 as int),
                )),
        decreases positions@.len() - p,
    {
        let m = positions[p];
        let from = m.0;
        let to = m.1;
        let ghost fi = (from.0 as int, from.1 as int);
        let ghost ti = (to.0 as int, to.1 as int);
        proof {
            assert(positions@.contains(m));
            lemma_piece_dest_on_board(b, ep, castling, fi.0, fi.1, ti.0, ti.1);
        }
        let keep: bool;
        if from.0 == k.0 && from.1 == k.1 {
            let mut ok = true;
            let fd = if to.1 >= from.1 {
                to.1 - from.1
            } else {
                from.1 - to.1
            };
            let is_castle = from.0 == to.0 && fd == 2;
            proof {
                assert(is_castle == castle_shape(kk.0, kk.1, ti.0, ti.1));
            }
            if is_castle {
                if in_chk {
                    ok = false;
                } else {
                    let tfile = if to.1 > from.1 {
                        from.1 + 1
                    } else {
                        from.1 - 1
                    };
                    proof {
                        assert(tfile as int == transit_file(kk.1, ti.1));
                        assert(tfile < 8);
                    }
                    if is_square_attacked((from.0, tfile), board, enpassat, player) {
                        ok = false;
                    }
                }
            }
            if ok {
                let piece = board.at(from.0, from.1);
                let mut scratch = board.clone();
                scratch.set(to.0, to.1, piece);
                scratch.set(from.0, from.1, Cell::Empty);
                proof {
                    assert(scratch@ == scratch_board(b, kk.0, kk.1, ti.0, ti.1));
                }
                keep = !is_square_attacked(to, &scratch, enpassat, player);
            } else {
                keep = false;
            }
            proof {
                assert(keep == king_move_allowed(b, ep, player, kk, ti));
            }
        } else {
            if !in_chk {
                keep = true;
            } else if dbl {
                keep = false;
            } else {
                let a0 = attackers[0];
                if to.0 == a0.0 && to.1 == a0.1 {
                    keep = true;
                } else {
                    keep = contains_sq(&paths[0], to);
                    proof {
                        assert(paths@[0]@.contains(to) == check_path(
                            b,
                            ep,
                            (attackers@[0].0 as int, attackers@[0].1 as int),
                            kk,
                            ti.0,
                            ti.1,
                        ));
                    }
                }
            }
            proof {
                assert(fi != kk);
                assert(keep == check_response_allowed(b, ep, player, kk, ti));
            }
        }
        let ghost old_res = res@;
        if keep {
            res.push(m);
        }
        proof {
            broadcast use vstd::seq_lib::lemma_seq_contains_after_push;
            assert(keep == if fi == kk {
                king_move_allowed(b, ep, player, kk, ti)
            } else {
                check_response_allowed(b, ep, player, kk, ti)
            });
            assert(legal_move(b, ep, castling, player, fi, ti) == keep);
            assert forall|mm: ((u8, u8), (u8, u8))| #[trigger] res@.contains(mm) implies ((exists|
                q: int,
            | 0 <= q < p + 1 && positions@[q] == mm) && legal_move(
                b,
                ep,
                castling,
                player,
                (mm.0.0 as int, mm.0.1 as int),
                (mm.1.0 as int, mm.1.1 as int),
            )) by {
                if old_res.contains(mm) {
                    let q = choose|q: int| 0 <= q < p && positions@[q] == mm;
                    assert(0 <= q < p + 1 && positions@[q] == mm);
                } else {
                    assert(mm == m);
                    assert(positions@[p as int] == mm);
                }
            }
            assert forall|mm: ((u8, u8), (u8, u8))|
                ((exists|q: int| 0 <= q < p + 1 && positions@[q] == mm) && legal_move(
                    b,
                    ep,
                    castling,
                    player,
                    (mm.0.0 as int, mm.0.1 as int),
                    (mm.1.0 as int, mm.1.1 as int),
                )) implies #[trigger] res@.contains(mm) by {
                let q = choose|q: int| 0 <= q < p + 1 && positions@[q] == mm;
                if q < p {
                    assert(old_res.contains(mm));
                } else {
                    assert(mm == m);
                }
            }
        }
        p = p + 1;
    }
    proof {
        assert forall|m: ((u8, u8), (u8, u8))| #[trigger] res@.contains(m) implies legal_move(
            b,
            ep,
            castling,
            player,
            (m.0.0 as int, m.0.1 as int),
            (m.1.0 as int, m.1.1 as int),
        ) by {}
        assert forall|m: ((u8, u8), (u8, u8))|
            legal_move(
                b,
                ep,
                castling,
                player,
                (m.0.0 as int, m.0.1 as int),
                (m.1.0 as int, m.1.1 as int),
            ) implies #[trigger] res@.contains(m) by {
            assert(positions@.contains(m));
            let q = choose|q: int| 0 <= q < positions@.len() && positions@[q] == m;
        }
    }
    res
}

/// Some legal move exists for the side to move.
pub open spec fn any_legal_move(
    b: Seq<Cell>,
    ep: (int, int),
    cr: CastlingRights,
    us: Color,
) -> bool {
    exists|from: (int, int), to: (int, int)| #[trigger] legal_move(b, ep, cr, us, from, to)
}

/// The status of the position for the side to move: with no legal move it
/// is checkmate when the king is attacked and stalemate otherwise; with
/// legal moves it is check when the king is attacked and ongoing
/// otherwise.
pub open spec fn game_status_spec(
    b: Seq<Cell>,
    ep: (int, int),
    cr: CastlingRights,
    us: Color,
) -> GameStatus {
    let k = king_square(b, us);
    let checked = square_attacked(b, ep, us, k.0, k.1);
    if !any_legal_move(b, ep, cr, us) {
        if checked {
            GameStatus::Checkmate
        } else {
            GameStatus::Stalemate
        }
    } else if checked {
        GameStatus::Check
    } else {
        GameStatus::Ongoing
    }
}

/// Classify the position for the side to move.
pub fn get_game_status(
    board: &Board,
    enpassat: (u8, u8),
    castling: CastlingRights,
    player: Color,
) -> (r: GameStatus)
    requires
        board.wf(),
        unique_king(board@, player),
    ensures
        r == game_status_spec(
            board@,
            (enpassat.0 as int, enpassat.1 as int),
            castling,
            player,
        ),
{
    let ghost b = board@;
    let ghost ep = (enpassat.0 as int, enpassat.1 as int);
    let legal_moves = get_legal_moves(board, enpassat, castling, player);
    let in_chk = is_in_check(board, enpassat, castling, player);
    proof {
        if legal_moves@.len() > 0 {
            let m = legal_moves@[0];
            assert(legal_moves@.contains(m));
            assert(any_legal_move(b, ep, castling, player)) by {
                assert(legal_move(
                    b,
                    ep,
                    castling,
                    player,
                    (m.0.0 as int, m.0.1 as int),
                    (m.1.0 as int, m.1.1 as int),
                ));
            }
        } else {
            if any_legal_move(b, ep, castling, player) {
                let (from, to) = choose|from: (int, int), to: (int, int)|
                    #[trigger] legal_move(b, ep, castling, player, from, to);
                lemma_piece_dest_on_board(b, ep, castling, from.0, from.1, to.0, to.1);
                let m = (
                    ((from.0 as u8, from.1 as u8)),
                    ((to.0 as u8, to.1 as u8)),
                );
                assert(legal_move(
                    b,
                    ep,
                    castling,
                    player,
                    (m.0.0 as int, m.0.1 as int),
                    (m.1.0 as int, m.1.1 as int),
                ));
                assert(legal_moves@.contains(m));
                assert(false);
            }
        }
    }
    if legal_moves.len() == 0 {
        if in_chk {
            GameStatus::Checkmate
        } else {
            GameStatus::Stalemate
        }
    } else if in_chk {
        GameStatus::Check
    } else {
        GameStatus::Ongoing
    }
}

} // verus!
