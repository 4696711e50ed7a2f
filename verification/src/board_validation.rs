//! Structural board validation, independent of move generation.
//!
//! A board passes when no pawn stands on the first or last rank, each
//! color has exactly one king, at most eight pawns, and no more promoted
//! pieces — rooks, knights or bishops beyond two, queens beyond one —
//! than that color's missing pawns could account for.  The first violated
//! invariant, in that order, names the failure.

use vstd::prelude::*;

use crate::board::Board;
use crate::board::Cell;
use crate::board::Color;
use crate::board::PieceKind;
use crate::board::sq_idx;
use crate::possible_moves::king_at;
use crate::possible_moves::unique_king;

verus! {

/// A structural invariant a board can break, with the data that names it.
#[derive(Clone, Copy, Debug, PartialEq, Eq, Structural)]
pub enum BoardViolation {
    IllegalPawnPosition { rank: u8, file: u8 },
    InvalidKingCount { white: u8, black: u8 },
    InvalidPawnCount { white: u8, black: u8 },
    TooManyPromotedPieces { color: Color },
}

/// How many pieces of this color and kind stand among the first `n` cells.
pub open spec fn count_upto(b: Seq<Cell>, c: Color, k: PieceKind, n: int) -> int
    decreases n,
{
    if n <= 0 {
        0
    } else {
        count_upto(b, c, k, n - 1) + if b[n - 1] == (Cell::Piece { color: c, kind: k }) {
            1 as int
        } else {
            0 as int
        }
    }
}

/// How many pieces of this color and kind stand on the board.
pub open spec fn piece_count(b: Seq<Cell>, c: Color, k: PieceKind) -> int {
    count_upto(b, c, k, 64)
}

/// A pawn of either color stands on cell index `j`, which lies on the
/// first or last rank.
pub open spec fn bad_pawn_at(b: Seq<Cell>, j: int) -> bool {
    &&& 0 <= j < 64
    &&& (j / 8 == 0 || j / 8 == 7)
    &&& (b[j] matches Cell::Piece { kind: PieceKind::Pawn, .. })
}

pub open spec fn has_bad_pawn(b: Seq<Cell>) -> bool {
    exists|j: int| #[trigger] bad_pawn_at(b, j)
}

/// The first back-rank pawn in scan order.
pub open spec fn first_bad_pawn(b: Seq<Cell>) -> int {
    choose|j: int| bad_pawn_at(b, j) && forall|j2: int| #[trigger] bad_pawn_at(b, j2) ==> j <= j2
}

pub open spec fn max0(x: int) -> int {
    if x > 0 {
        x
    } else {
        0
    }
}

/// How many pieces of this color exceed the natural caps — two rooks,
/// two knights, two bishops, one queen — and so consume promotion slots.
pub open spec fn promo_excess(b: Seq<Cell>, c: Color) -> int {
    max0(piece_count(b, c, PieceKind::Rook) - 2) + max0(
        piece_count(b, c, PieceKind::Knight) - 2,
    ) + max0(piece_count(b, c, PieceKind::Bishop) - 2) + max0(
        piece_count(b, c, PieceKind::Queen) - 1,
    )
}

/// The validation outcome: the first violated invariant, or none.
pub open spec fn validate_spec(b: Seq<Cell>) -> Result<(), BoardViolation> {
    if has_bad_pawn(b) {
        Err(
            BoardViolation::IllegalPawnPosition {
                rank: (first_bad_pawn(b) / 8) as u8,
                file: (first_bad_pawn(b) % 8) as u8,
            },
        )
    } else if piece_count(b, Color::White, PieceKind::King) != 1 || piece_count(
        b,
        Color::Black,
        PieceKind::King,
    ) != 1 {
        Err(
            BoardViolation::InvalidKingCount {
                white: piece_count(b, Color::White, PieceKind::King) as u8,
                black: piece_count(b, Color::Black, PieceKind::King) as u8,
            },
        )
    } else if piece_count(b, Color::White, PieceKind::Pawn) > 8 || piece_count(
        b,
        Color::Black,
        PieceKind::Pawn,
    ) > 8 {
        Err(
            BoardViolation::InvalidPawnCount {
                white: piece_count(b, Color::White, PieceKind::Pawn) as u8,
                black: piece_count(b, Color::Black, PieceKind::Pawn) as u8,
            },
        )
    } else if promo_excess(b, Color::White) > 8 - piece_count(b, Color::White, PieceKind::Pawn) {
        Err(BoardViolation::TooManyPromotedPieces { color: Color::White })
    } else if promo_excess(b, Color::Black) > 8 - piece_count(b, Color::Black, PieceKind::Pawn) {
        Err(BoardViolation::TooManyPromotedPieces { color: Color::Black })
    } else {
        Ok(())
    }
}

/// A count is never negative.
proof fn lemma_count_nonneg(b: Seq<Cell>, c: Color, k: PieceKind, n: int)
    ensures
        count_upto(b, c, k, n) >= 0,
    decreases n,
{
    if n > 0 {
        lemma_count_nonneg(b, c, k, n - 1);
    }
}

/// Counting over a prefix never decreases as the prefix grows.
proof fn lemma_count_monotone(b: Seq<Cell>, c: Color, k: PieceKind, m: int, n: int)
    requires
        0 <= m <= n,
    ensures
        count_upto(b, c, k, m) <= count_upto(b, c, k, n),
    decreases n - m,
{
    if m < n {
        lemma_count_monotone(b, c, k, m, n - 1);
    }
}

/// A positive count yields a witness index.
proof fn lemma_count_exists(b: Seq<Cell>, c: Color, k: PieceKind, n: int)
    requires
        count_upto(b, c, k, n) >= 1,
    ensures
        exists|j: int| 0 <= j < n && b[j] == (Cell::Piece { color: c, kind: k }),
    decreases n,
{
    if n > 0 {
        if b[n - 1] == (Cell::Piece { color: c, kind: k }) {
            assert(0 <= n - 1 < n && b[n - 1] == (Cell::Piece { color: c, kind: k }));
        } else {
            lemma_count_exists(b, c, k, n - 1);
        }
    }
}

/// Two distinct occurrences force a count of at least two.
proof fn lemma_count_two(b: Seq<Cell>, c: Color, k: PieceKind, j1: int, j2: int)
    requires
        0 <= j1 < j2 < 64,
        b[j1] == (Cell::Piece { color: c, kind: k }),
        b[j2] == (Cell::Piece { color: c, kind: k }),
    ensures
        piece_count(b, c, k) >= 2,
{
    lemma_count_nonneg(b, c, k, j1);
    assert(count_upto(b, c, k, j1 + 1) >= 1);
    lemma_count_monotone(b, c, k, j1 + 1, j2);
    assert(count_upto(b, c, k, j2 + 1) >= 2);
    lemma_count_monotone(b, c, k, j2 + 1, 64);
}

/// A color with exactly one king on a well formed board has a unique
/// king square, as the legality queries require.
pub proof fn lemma_king_count_unique(b: Seq<Cell>, c: Color)
    requires
        b.len() == 64,
        piece_count(b, c, PieceKind::King) == 1,
    ensures
        unique_king(b, c),
{
    lemma_count_exists(b, c, PieceKind::King, 64);
    let j = choose|j: int| 0 <= j < 64 && b[j] == (Cell::Piece { color: c, kind: PieceKind::King });
    assert(king_at(b, c, (j / 8, j % 8))) by {
        assert((j / 8) * 8 + j % 8 == j) by (nonlinear_arith)
            requires
                0 <= j < 64,
        ;
        assert(sq_idx(j / 8, j % 8) == j);
    }
    assert forall|s1: (int, int), s2: (int, int)|
        #[trigger] king_at(b, c, s1) && #[trigger] king_at(b, c, s2) implies s1 == s2 by {
        if s1 != s2 {
            let i1 = sq_idx(s1.0, s1.1);
            let i2 = sq_idx(s2.0, s2.1);
            assert(i1 != i2);
            assert(b[i1] == (Cell::Piece { color: c, kind: PieceKind::King }));
            assert(b[i2] == (Cell::Piece { color: c, kind: PieceKind::King }));
            if i1 < i2 {
                lemma_count_two(b, c, PieceKind::King, i1, i2);
            } else {
                lemma_count_two(b, c, PieceKind::King, i2, i1);
            }
            assert(false);
        }
    }
}

/// Check the structural invariants, reporting the first violated one.
pub fn validate_board(board: &Board) -> (r: Result<(), BoardViolation>)
    requires
        board.wf(),
    ensures
        r == validate_spec(board@),
        r is Ok ==> unique_king(board@, Color::White) && unique_king(board@, Color::Black),
{
    let ghost b = board@;
    let mut kings_w: u8 = 0;
    let mut kings_b: u8 = 0;
    let mut pawns_w: u8 = 0;
    let mut pawns_b: u8 = 0;
    let mut rooks_w: u8 = 0;
    let mut rooks_b: u8 = 0;
    let mut knights_w: u8 = 0;
    let mut knights_b: u8 = 0;
    let mut bishops_w: u8 = 0;
    let mut bishops_b: u8 = 0;
    let mut queens_w: u8 = 0;
    let mut queens_b: u8 = 0;
    let mut i: usize = 0;
    while i < 64
        invariant
            board.wf(),
            b == board@,
            i <= 64,
            forall|j: int| 0 <= j < i ==> !bad_pawn_at(b, j),
            kings_w as int == count_upto(b, Color::White, PieceKind::King, i as int),
            kings_b as int == count_upto(b, Color::Black, PieceKind::King, i as int),
            pawns_w as int == count_upto(b, Color::White, PieceKind::Pawn, i as int),
            pawns_b as int == count_upto(b, Color::Black, PieceKind::Pawn, i as int),
            rooks_w as int == count_upto(b, Color::White, PieceKind::Rook, i as int),
            rooks_b as int == count_upto(b, Color::Black, PieceKind::Rook, i as int),
            knights_w as int == count_upto(b, Color::White, PieceKind::Knight, i as int),
            knights_b as int == count_upto(b, Color::Black, PieceKind::Knight, i as int),
            bishops_w as int == count_upto(b, Color::White, PieceKind::Bishop, i as int),
            bishops_b as int == count_upto(b, Color::Black, PieceKind::Bishop, i as int),
            queens_w as int == count_upto(b, Color::White, PieceKind::Queen, i as int),
            queens_b as int == count_upto(b, Color::Black, PieceKind::Queen, i as int),
            kings_w <= i && kings_b <= i && pawns_w <= i && pawns_b <= i,
            rooks_w <= i && rooks_b <= i && knights_w <= i && knights_b <= i,
            bishops_w <= i && bishops_b <= i && queens_w <= i && queens_b <= i,
        decreases 64 - i,
    {
        let r = (i / 8) as u8;
        let f = (i % 8) as u8;
        proof {
            assert(sq_idx(r as int, f as int) == i);
            assert(count_upto(b, Color::White, PieceKind::King, i + 1) == count_upto(
                b,
                Color::White,
                PieceKind::King,
                i as int,
            ) + if b[i as int] == (Cell::Piece { color: Color::White, kind: PieceKind::King }) {
                1 as int
            } else {
                0 as int
            });
        }
        match board.at(r, f) {
            Cell::Empty => {},
            Cell::Piece { color, kind } => {
                if kind == PieceKind::Pawn && (r == 0 || r == 7) {
                    proof {
                        assert(bad_pawn_at(b, i as int));
                        let jm = first_bad_pawn(b);
                        assert(bad_pawn_at(b, jm) && forall|j2: int|
                            #[trigger] bad_pawn_at(b, j2) ==> jm <= j2) by {
                            assert(bad_pawn_at(b, i as int) && forall|j2: int|
                                #[trigger] bad_pawn_at(b, j2) ==> i as int <= j2);
                        }
                        assert(jm == i as int);
                    }
                    return Err(BoardViolation::IllegalPawnPosition { rank: r, file: f });
                }
                match (color, kind) {
                    (Color::White, PieceKind::King) => kings_w = kings_w + 1,
                    (Color::Black, PieceKind::King) => kings_b = kings_b + 1,
                    (Color::White, PieceKind::Pawn) => pawns_w = pawns_w + 1,
                    (Color::Black, PieceKind::Pawn) => pawns_b = pawns_b + 1,
                    (Color::White, PieceKind::Rook) => rooks_w = rooks_w + 1,
                    (Color::Black, PieceKind::Rook) => rooks_b = rooks_b + 1,
                    (Color::White, PieceKind::Knight) => knights_w = knights_w + 1,
                    (Color::Black, PieceKind::Knight) => knights_b = knights_b + 1,
                    (Color::White, PieceKind::Bishop) => bishops_w = bishops_w + 1,
                    (Color::Black, PieceKind::Bishop) => bishops_b = bishops_b + 1,
                    (Color::White, PieceKind::Queen) => queens_w = queens_w + 1,
                    (Color::Black, PieceKind::Queen) => queens_b = queens_b + 1,
                }
            },
        }
        i = i + 1;
    }
    proof {
        assert(!has_bad_pawn(b)) by {
            if has_bad_pawn(b) {
                let j = choose|j: int| #[trigger] bad_pawn_at(b, j);
            }
        }
    }
    if !(kings_w == 1 && kings_b == 1) {
        return Err(BoardViolation::InvalidKingCount { white: kings_w, black: kings_b });
    }
    if pawns_w > 8 || pawns_b > 8 {
        return Err(BoardViolation::InvalidPawnCount { white: pawns_w, black: pawns_b });
    }
    let mut excess_w: u8 = 0;
    if rooks_w > 2 {
        excess_w = excess_w + (rooks_w - 2);
    }
    if knights_w > 2 {
        excess_w = excess_w + (knights_w - 2);
    }
    if bishops_w > 2 {
        excess_w = excess_w + (bishops_w - 2);
    }
    if queens_w > 1 {
        excess_w = excess_w + (queens_w - 1);
    }
    if excess_w > 8 - pawns_w {
        return Err(BoardViolation::TooManyPromotedPieces { color: Color::White });
    }
    let mut excess_b: u8 = 0;
    if rooks_b > 2 {
        excess_b = excess_b + (rooks_b - 2);
    }
    if knights_b > 2 {
        excess_b = excess_b + (knights_b - 2);
    }
    if bishops_b > 2 {
        excess_b = excess_b + (bishops_b - 2);
    }
    if queens_b > 1 {
        excess_b = excess_b + (queens_b - 1);
    }
    if excess_b > 8 - pawns_b {
        return Err(BoardViolation::TooManyPromotedPieces { color: Color::Black });
    }
    proof {
        lemma_king_count_unique(b, Color::White);
        lemma_king_count_unique(b, Color::Black);
    }
    Ok(())
}

} // verus!
