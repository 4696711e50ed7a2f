//! The game state and its FEN text form.
//!
//! A `Gamestate` is a board snapshot plus side to move, castling rights,
//! en-passant target, halfmove clock and fullmove number — everything a
//! FEN record carries.  `to_fen` renders a state as a record and
//! `from_fen` decodes one, rejecting malformed fields.

use vstd::prelude::*;

use crate::board::Board;
use crate::board::CastlingRights;
use crate::board::Cell;
use crate::board::Color;
use crate::board::PieceKind;
use crate::board::cell_at;
use crate::board::sq_idx;
use crate::text::digit_char;
use crate::text::digits_value;
use crate::text::dec_rep;
use crate::text::is_ascii_digit;
use crate::text::parse_num;
use crate::text::parse_num_spec;
use crate::text::push_decimal;
use crate::text::split_ws;
use crate::text::split_ws_spec;

verus! {

/// A way a FEN record can be malformed.
#[derive(Clone, Copy, Debug, PartialEq, Eq, Structural)]
pub enum FenError {
    InvalidFormat,
    InvalidBoardFormat,
    TooManyPiecesInRow,
    InvalidCharacterInBoard,
    InvalidRowLength,
    InvalidEnPassantSquare,
    InvalidEnPassantRank,
    EnPassantOutOfBounds,
    InvalidHalfmove,
    InvalidFullmove,
}

/// The FEN letter of a piece: uppercase for white, lowercase for black.
pub open spec fn piece_char(c: Cell) -> char
    recommends
        c is Piece,
{
    match c {
        Cell::Piece { color: Color::White, kind: PieceKind::Pawn } => 'P',
        Cell::Piece { color: Color::White, kind: PieceKind::Rook } => 'R',
        Cell::Piece { color: Color::White, kind: PieceKind::Knight } => 'N',
        Cell::Piece { color: Color::White, kind: PieceKind::Bishop } => 'B',
        Cell::Piece { color: Color::White, kind: PieceKind::Queen } => 'Q',
        Cell::Piece { color: Color::White, kind: PieceKind::King } => 'K',
        Cell::Piece { color: Color::Black, kind: PieceKind::Pawn } => 'p',
        Cell::Piece { color: Color::Black, kind: PieceKind::Rook } => 'r',
        Cell::Piece { color: Color::Black, kind: PieceKind::Knight } => 'n',
        Cell::Piece { color: Color::Black, kind: PieceKind::Bishop } => 'b',
        Cell::Piece { color: Color::Black, kind: PieceKind::Queen } => 'q',
        Cell::Piece { color: Color::Black, kind: PieceKind::King } => 'k',
        Cell::Empty => ' ',
    }
}

/// The cell a FEN letter denotes, if it denotes one.
pub open spec fn char_piece(c: char) -> Option<Cell> {
    if c == 'P' {
        Some(Cell::Piece { color: Color::White, kind: PieceKind::Pawn })
    } else if c == 'R' {
        Some(Cell::Piece { color: Color::White, kind: PieceKind::Rook })
    } else if c == 'N' {
        Some(Cell::Piece { color: Color::White, kind: PieceKind::Knight })
    } else if c == 'B' {
        Some(Cell::Piece { color: Color::White, kind: PieceKind::Bishop })
    } else if c == 'Q' {
        Some(Cell::Piece { color: Color::White, kind: PieceKind::Queen })
    } else if c == 'K' {
        Some(Cell::Piece { color: Color::White, kind: PieceKind::King })
    } else if c == 'p' {
        Some(Cell::Piece { color: Color::Black, kind: PieceKind::Pawn })
    } else if c == 'r' {
        Some(Cell::Piece { color: Color::Black, kind: PieceKind::Rook })
    } else if c == 'n' {
        Some(Cell::Piece { color: Color::Black, kind: PieceKind::Knight })
    } else if c == 'b' {
        Some(Cell::Piece { color: Color::Black, kind: PieceKind::Bishop })
    } else if c == 'q' {
        Some(Cell::Piece { color: Color::Black, kind: PieceKind::Queen })
    } else if c == 'k' {
        Some(Cell::Piece { color: Color::Black, kind: PieceKind::King })
    } else {
        None
    }
}

/// The FEN text of one rank from file `f` on, with `empty` pending
/// empty squares to flush before the next piece or the rank's end.
pub open spec fn row_fen(b: Seq<Cell>, r: int, f: int, empty: int) -> Seq<char>
    decreases 8 - f,
{
    if f >= 8 {
        if empty > 0 {
            seq![digit_char(empty)]
        } else {
            Seq::<char>::empty()
        }
    } else if cell_at(b, r, f) == Cell::Empty {
        row_fen(b, r, f + 1, empty + 1)
    } else {
        (if empty > 0 {
            seq![digit_char(empty)]
        } else {
            Seq::<char>::empty()
        }) + seq![piece_char(cell_at(b, r, f))] + row_fen(b, r, f + 1, 0)
    }
}

/// The FEN board field from rank `r` on, ranks separated by slashes.
pub open spec fn board_fen(b: Seq<Cell>, r: int) -> Seq<char>
    decreases 8 - r,
{
    if r >= 8 {
        Seq::<char>::empty()
    } else if r < 7 {
        row_fen(b, r, 0, 0) + seq!['/'] + board_fen(b, r + 1)
    } else {
        row_fen(b, r, 0, 0)
    }
}

/// The FEN castling field: the set flags in KQkq order, or a dash.
pub open spec fn castling_fen(cr: CastlingRights) -> Seq<char> {
    let flags = (if cr.white_kingside {
        seq!['K']
    } else {
        Seq::<char>::empty()
    }) + (if cr.white_queenside {
        seq!['Q']
    } else {
        Seq::<char>::empty()
    }) + (if cr.black_kingside {
        seq!['k']
    } else {
        Seq::<char>::empty()
    }) + (if cr.black_queenside {
        seq!['q']
    } else {
        Seq::<char>::empty()
    });
    if flags.len() == 0 {
        seq!['-']
    } else {
        flags
    }
}

/// The FEN en-passant field: the target square's name, or a dash.
pub open spec fn ep_fen(ep: Option<(u8, u8)>) -> Seq<char> {
    match ep {
        Some(e) => seq![(97 + e.1 as int) as char, digit_char(8 - e.0 as int)],
        None => seq!['-'],
    }
}

/// The player field letter.
pub open spec fn player_char(c: Color) -> char {
    match c {
        Color::White => 'w',
        Color::Black => 'b',
    }
}

/// The full FEN record of a state.
pub open spec fn fen_spec(g: Gamestate) -> Seq<char> {
    board_fen(g.board@, 0) + seq![' ', player_char(g.player), ' '] + castling_fen(g.castling)
        + seq![' '] + ep_fen(g.enpassat) + seq![' '] + dec_rep(g.halfmove as int) + seq![' ']
        + dec_rep(g.fullmove as int)
}
/// One full position: board, side to move, castling rights, en-passant
/// target, halfmove clock and fullmove number.
pub struct Gamestate {
    pub board: Board,
    pub player: Color,
    pub castling: CastlingRights,
    pub enpassat: Option<(u8, u8)>,
    pub halfmove: u8,
    pub fullmove: u16,
}

impl Gamestate {
    /// The state is well formed: the board has its 64 cells and the
    /// en-passant target, if any, is a board square.
    pub open spec fn wf(&self) -> bool {
        &&& self.board.wf()
        &&& (self.enpassat matches Some(e) ==> e.0 < 8 && e.1 < 8)
    }

    /// The en-passant square handed to move generation: the target if
    /// one is set, else the (0, 0) sentinel the protocol loop uses.
    pub open spec fn ep_square(&self) -> (int, int) {
        match self.enpassat {
            Some(e) => (e.0 as int, e.1 as int),
            None => (0, 0),
        }
    }

    /// An empty state: empty board, white to move, no rights, no target.
    pub fn new() -> (g: Gamestate)
        ensures
            g.wf(),
            forall|i: int| 0 <= i < 64 ==> g.board@[i] == crate::board::Cell::Empty,
            g.player == Color::White,
            g.castling == CastlingRights::spec_none(),
            g.enpassat is None,
            g.halfmove == 0,
            g.fullmove == 1,
    {
        Gamestate {
            board: Board::new(),
            player: Color::White,
            castling: CastlingRights::none(),
            enpassat: None,
            halfmove: 0,
            fullmove: 1,
        }
    }

    /// Render the state as a FEN record.
    #[verifier::rlimit(100)]
    pub fn to_fen(self: &Self) -> (r: String)
        requires
            self.wf(),
        ensures
            r@ == fen_spec(*self),
    {
        let mut fen = String::new();
        push_board_fen(&mut fen, &self.board, 0);
        fen.push(' ');
        match self.player {
            Color::White => fen.push('w'),
            Color::Black => fen.push('b'),
        }
        fen.push(' ');
        let cr = self.castling;
        if cr.white_kingside {
            fen.push('K');
        }
        if cr.white_queenside {
            fen.push('Q');
        }
        if cr.black_kingside {
            fen.push('k');
        }
        if cr.black_queenside {
            fen.push('q');
        }
        if !(cr.white_kingside || cr.white_queenside || cr.black_kingside || cr.black_queenside) {
            fen.push('-');
        }
        fen.push(' ');
        match self.enpassat {
            Some(e) => {
                fen.push((97 + e.1) as char);
                fen.push((48 + (8 - e.0)) as char);
            },
            None => {
                fen.push('-');
            },
        }
        fen.push(' ');
        push_decimal(&mut fen, self.halfmove as u64);
        fen.push(' ');
        push_decimal(&mut fen, self.fullmove as u64);
        proof {
            assert(fen@ =~= fen_spec(*self));
        }
        fen
    }
}




/// Executable FEN letter of an occupied cell.
fn piece_char_exec(c: Cell) -> (r: char)
    requires
        c is Piece,
    ensures
        r == piece_char(c),
{
    match c {
        Cell::Piece { color: Color::White, kind: PieceKind::Pawn } => 'P',
        Cell::Piece { color: Color::White, kind: PieceKind::Rook } => 'R',
        Cell::Piece { color: Color::White, kind: PieceKind::Knight } => 'N',
        Cell::Piece { color: Color::White, kind: PieceKind::Bishop } => 'B',
        Cell::Piece { color: Color::White, kind: PieceKind::Queen } => 'Q',
        Cell::Piece { color: Color::White, kind: PieceKind::King } => 'K',
        Cell::Piece { color: Color::Black, kind: PieceKind::Pawn } => 'p',
        Cell::Piece { color: Color::Black, kind: PieceKind::Rook } => 'r',
        Cell::Piece { color: Color::Black, kind: PieceKind::Knight } => 'n',
        Cell::Piece { color: Color::Black, kind: PieceKind::Bishop } => 'b',
        Cell::Piece { color: Color::Black, kind: PieceKind::Queen } => 'q',
        Cell::Piece { color: Color::Black, kind: PieceKind::King } => 'k',
        Cell::Empty => ' ',
    }
}

/// Append the FEN text of one rank from file `f` on.
fn push_row_fen(s: &mut String, board: &Board, r: u8, f: u8, empty: u8)
    requires
        board.wf(),
        r < 8,
        f <= 8,
        empty <= f,
    ensures
        final (s)@ == old(s)@ + row_fen(board@, r as int, f as int, empty as int),
    decreases 8 - f,
{
    if f >= 8 {
        if empty > 0 {
            s.push((48 + empty) as char);
        }
        proof {
            assert(final (s)@ =~= old(s)@ + row_fen(board@, r as int, f as int, empty as int));
        }
    } else {
        let c = board.at(r, f);
        if c == Cell::Empty {
            push_row_fen(s, board, r, f + 1, empty + 1);
        } else {
            if empty > 0 {
                s.push((48 + empty) as char);
            }
            s.push(piece_char_exec(c));
            push_row_fen(s, board, r, f + 1, 0);
            proof {
                assert(final (s)@ =~= old(s)@ + row_fen(board@, r as int, f as int, empty as int));
            }
        }
    }
}

/// Append the FEN board field from rank `r` on.
fn push_board_fen(s: &mut String, board: &Board, r: u8)
    requires
        board.wf(),
        r <= 8,
    ensures
        final (s)@ == old(s)@ + board_fen(board@, r as int),
    decreases 8 - r,
{
    if r >= 8 {
        proof {
            assert(final (s)@ =~= old(s)@ + board_fen(board@, r as int));
        }
    } else {
        push_row_fen(s, board, r, 0, 0);
        if r < 7 {
            s.push('/');
        }
        push_board_fen(s, board, r + 1);
        proof {
            assert(final (s)@ =~= old(s)@ + board_fen(board@, r as int));
        }
    }
}


/// The all-empty board contents.
pub open spec fn empty64() -> Seq<Cell> {
    Seq::new(64, |i: int| Cell::Empty)
}

/// How many slashes appear among the first `i` characters.
pub open spec fn count_slash(s: Seq<char>, i: int) -> int
    decreases i,
{
    if i <= 0 {
        0
    } else {
        count_slash(s, i - 1) + if s[i - 1] == '/' {
            1 as int
        } else {
            0 as int
        }
    }
}

proof fn lemma_count_slash_mono(s: Seq<char>, m: int, n: int)
    requires
        0 <= m <= n,
    ensures
        count_slash(s, m) <= count_slash(s, n),
    decreases n - m,
{
    if m < n {
        lemma_count_slash_mono(s, m, n - 1);
    }
}

/// The board-field reader state after the first `i` characters: the
/// cells filled so far, the current rank and file, and the first error
/// met, if any.  A digit advances the file, saturated at 64; a slash
/// ends a rank, which must then hold exactly eight files; a piece letter
/// fills the next cell of the rank.
pub open spec fn board_fold(s: Seq<char>, i: int) -> (Seq<Cell>, int, int, Option<FenError>)
    decreases i,
{
    if i <= 0 {
        (empty64(), 0, 0, None)
    } else {
        let st = board_fold(s, i - 1);
        if st.3 is Some {
            st
        } else {
            let c = s[i - 1];
            if c == '/' {
                if st.2 != 8 {
                    (st.0, st.1, st.2, Some(FenError::InvalidRowLength))
                } else {
                    (st.0, st.1 + 1, 0, None)
                }
            } else if is_ascii_digit(c) {
                let nc = st.2 + (c as int - 48);
                (st.0, st.1, if nc > 64 {
                    64 as int
                } else {
                    nc
                }, None)
            } else {
                match char_piece(c) {
                    Some(p) => if st.2 >= 8 {
                        (st.0, st.1, st.2, Some(FenError::TooManyPiecesInRow))
                    } else {
                        (st.0.update(st.1 * 8 + st.2, p), st.1, st.2 + 1, None)
                    },
                    None => (st.0, st.1, st.2, Some(FenError::InvalidCharacterInBoard)),
                }
            }
        }
    }
}

/// The decoded board field: eight slash-separated ranks of eight files.
pub open spec fn parse_board_spec(s: Seq<char>) -> Result<Seq<Cell>, FenError> {
    if count_slash(s, s.len() as int) != 7 {
        Err(FenError::InvalidBoardFormat)
    } else {
        let st = board_fold(s, s.len() as int);
        match st.3 {
            Some(e) => Err(e),
            None => if st.2 != 8 {
                Err(FenError::InvalidRowLength)
            } else {
                Ok(st.0)
            },
        }
    }
}

/// Executable cell of a FEN letter.
fn char_piece_exec(c: char) -> (r: Option<Cell>)
    ensures
        r == char_piece(c),
{
    match c {
        'P' => Some(Cell::Piece { color: Color::White, kind: PieceKind::Pawn }),
        'R' => Some(Cell::Piece { color: Color::White, kind: PieceKind::Rook }),
        'N' => Some(Cell::Piece { color: Color::White, kind: PieceKind::Knight }),
        'B' => Some(Cell::Piece { color: Color::White, kind: PieceKind::Bishop }),
        'Q' => Some(Cell::Piece { color: Color::White, kind: PieceKind::Queen }),
        'K' => Some(Cell::Piece { color: Color::White, kind: PieceKind::King }),
        'p' => Some(Cell::Piece { color: Color::Black, kind: PieceKind::Pawn }),
        'r' => Some(Cell::Piece { color: Color::Black, kind: PieceKind::Rook }),
        'n' => Some(Cell::Piece { color: Color::Black, kind: PieceKind::Knight }),
        'b' => Some(Cell::Piece { color: Color::Black, kind: PieceKind::Bishop }),
        'q' => Some(Cell::Piece { color: Color::Black, kind: PieceKind::Queen }),
        'k' => Some(Cell::Piece { color: Color::Black, kind: PieceKind::King }),
        _ => None,
    }
}

/// Decode the board field of a FEN record.
#[verifier::rlimit(100)]
pub fn parse_board(board_str: &str) -> (r: Result<Board, FenError>)
    ensures
        match r {
            Ok(bd) => bd.wf() && parse_board_spec(board_str@) == Ok::<Seq<Cell>, FenError>(bd@),
            Err(e) => parse_board_spec(board_str@) == Err::<Seq<Cell>, FenError>(e),
        },
{
    let ghost sv = board_str@;
    let n = board_str.unicode_len();
    let mut slashes: usize = 0;
    let mut i: usize = 0;
    while i < n
        invariant
            n == sv.len(),
            sv == board_str@,
            i <= n,
            slashes <= i,
            slashes as int == count_slash(sv, i as int),
        decreases n - i,
    {
        if board_str.get_char(i) == '/' {
            slashes = slashes + 1;
        }
        i = i + 1;
    }
    if slashes != 7 {
        return Err(FenError::InvalidBoardFormat);
    }
    let mut bd = Board::new();
    proof {
        assert(bd@ =~= empty64());
    }
    let mut row: u8 = 0;
    let mut col: u8 = 0;
    let mut err: Option<FenError> = None;
    let mut i: usize = 0;
    while i < n
        invariant
            n == sv.len(),
            sv == board_str@,
            count_slash(sv, n as int) == 7,
            i <= n,
            bd.wf(),
            err == board_fold(sv, i as int).3,
            err is None ==> bd@ == board_fold(sv, i as int).0 && row as int == board_fold(
                sv,
                i as int,
            ).1 && col as int == board_fold(sv, i as int).2 && row as int == count_slash(
                sv,
                i as int,
            ) && col <= 64,
        decreases n - i,
    {
        let c = board_str.get_char(i);
        if err.is_none() {
            proof {
                lemma_count_slash_mono(sv, i + 1, n as int);
            }
            if c == '/' {
                if col != 8 {
                    err = Some(FenError::InvalidRowLength);
                } else {
                    row = row + 1;
                    col = 0;
                }
            } else if {
                let cb = c as u32;
                48 <= cb && cb <= 57
            } {
                let d = (c as u32 - 48) as u8;
                if col + d > 64 {
                    col = 64;
                } else {
                    col = col + d;
                }
            } else {
                match char_piece_exec(c) {
                    Some(p) => {
                        if col >= 8 {
                            err = Some(FenError::TooManyPiecesInRow);
                        } else {
                            bd.set(row, col, p);
                            col = col + 1;
                        }
                    },
                    None => {
                        err = Some(FenError::InvalidCharacterInBoard);
                    },
                }
            }
        }
        i = i + 1;
    }
    match err {
        Some(e) => Err(e),
        None => {
            if col != 8 {
                Err(FenError::InvalidRowLength)
            } else {
                Ok(bd)
            }
        },
    }
}

/// The castling field's flags: each letter sets its right.
pub open spec fn parse_castling_spec(s: Seq<char>) -> CastlingRights {
    CastlingRights {
        white_kingside: s.contains('K'),
        white_queenside: s.contains('Q'),
        black_kingside: s.contains('k'),
        black_queenside: s.contains('q'),
    }
}

/// Does the string hold the character?
fn str_has_char(s: &str, c: char) -> (r: bool)
    ensures
        r == s@.contains(c),
{
    let n = s.unicode_len();
    let mut i: usize = 0;
    while i < n
        invariant
            n == s@.len(),
            i <= n,
            forall|j: int| 0 <= j < i ==> s@[j] != c,
        decreases n - i,
    {
        if s.get_char(i) == c {
            assert(s@[i as int] == c);
            return true;
        }
        i = i + 1;
    }
    proof {
        if s@.contains(c) {
            let j = choose|j: int| 0 <= j < s@.len() && s@[j] == c;
        }
    }
    false
}

/// Decode the castling field of a FEN record.
pub fn parse_castling(castling_str: &str) -> (r: CastlingRights)
    ensures
        r == parse_castling_spec(castling_str@),
{
    CastlingRights {
        white_kingside: str_has_char(castling_str, 'K'),
        white_queenside: str_has_char(castling_str, 'Q'),
        black_kingside: str_has_char(castling_str, 'k'),
        black_queenside: str_has_char(castling_str, 'q'),
    }
}

/// The decoded en-passant field: a dash for none, else a file letter in
/// a..h and a rank digit in 1..8.
pub open spec fn parse_ep_spec(s: Seq<char>) -> Result<Option<(u8, u8)>, FenError> {
    if s.len() == 1 && s[0] == '-' {
        Ok(None)
    } else if s.len() != 2 {
        Err(FenError::InvalidEnPassantSquare)
    } else if !is_ascii_digit(s[1]) {
        Err(FenError::InvalidEnPassantRank)
    } else if !(97 <= s[0] as int && s[0] as int <= 104) || s[1] as int - 48 < 1 || s[1] as int - 48
        > 8 {
        Err(FenError::EnPassantOutOfBounds)
    } else {
        Ok(Some(((8 - (s[1] as int - 48)) as u8, (s[0] as int - 97) as u8)))
    }
}

/// Decode the en-passant field of a FEN record.
pub fn parse_enpassant(ep_str: &str) -> (r: Result<Option<(u8, u8)>, FenError>)
    ensures
        r == parse_ep_spec(ep_str@),
{
    let n = ep_str.unicode_len();
    if n == 1 && ep_str.get_char(0) == '-' {
        return Ok(None);
    }
    if n != 2 {
        return Err(FenError::InvalidEnPassantSquare);
    }
    let fc = ep_str.get_char(0) as u32;
    let rc = ep_str.get_char(1) as u32;
    if rc < 48 || rc > 57 {
        return Err(FenError::InvalidEnPassantRank);
    }
    let rank = rc - 48;
    if fc < 97 || fc > 104 || rank < 1 || rank > 8 {
        return Err(FenError::EnPassantOutOfBounds);
    }
    Ok(Some(((8 - rank) as u8, (fc - 97) as u8)))
}

/// The first error in a FEN record, checked field by field.
pub open spec fn from_fen_err(s: Seq<char>) -> Option<FenError> {
    let toks = split_ws_spec(s);
    if toks.len() != 6 {
        Some(FenError::InvalidFormat)
    } else if parse_board_spec(toks[0]) is Err {
        Some(parse_board_spec(toks[0])->Err_0)
    } else if parse_ep_spec(toks[3]) is Err {
        Some(parse_ep_spec(toks[3])->Err_0)
    } else if parse_num_spec(toks[4]) is None || parse_num_spec(toks[4])->0 > 255 {
        Some(FenError::InvalidHalfmove)
    } else if parse_num_spec(toks[5]) is None || parse_num_spec(toks[5])->0 > 65535 {
        Some(FenError::InvalidFullmove)
    } else {
        None
    }
}

/// Decode a whole FEN record into a game state.
pub fn from_fen(fen: &str) -> (r: Result<Gamestate, FenError>)
    ensures
        r is Err <==> from_fen_err(fen@) is Some,
        r matches Err(e) ==> from_fen_err(fen@) == Some(e),
        r matches Ok(g) ==> {
            let toks = split_ws_spec(fen@);
            &&& g.wf()
            &&& parse_board_spec(toks[0]) == Ok::<Seq<Cell>, FenError>(g.board@)
            &&& g.player == (if toks[1].len() > 0 && toks[1][0] == 'w' {
                Color::White
            } else {
                Color::Black
            })
            &&& g.castling == parse_castling_spec(toks[2])
            &&& parse_ep_spec(toks[3]) == Ok::<Option<(u8, u8)>, FenError>(g.enpassat)
            &&& parse_num_spec(toks[4]) == Some(g.halfmove as int)
            &&& parse_num_spec(toks[5]) == Some(g.fullmove as int)
        },
{
    let tokens = split_ws(fen);
    proof {
        assert(tokens@.map_values(|t: String| t@).len() == tokens@.len());
    }
    if tokens.len() != 6 {
        return Err(FenError::InvalidFormat);
    }
    proof {
        assert forall|j: int| 0 <= j < 6 implies tokens@[j]@ == split_ws_spec(fen@)[j] by {
            assert(tokens@.map_values(|t: String| t@)[j] == tokens@[j]@);
        }
    }
    let board = match parse_board(tokens[0].as_str()) {
        Ok(bd) => bd,
        Err(e) => {
            return Err(e);
        },
    };
    let ptok = tokens[1].as_str();
    let player = if ptok.unicode_len() > 0 && ptok.get_char(0) == 'w' {
        Color::White
    } else {
        Color::Black
    };
    let castling = parse_castling(tokens[2].as_str());
    let enpassant = match parse_enpassant(tokens[3].as_str()) {
        Ok(e) => e,
        Err(e) => {
            return Err(e);
        },
    };
    let halfmove: u8 = match parse_num(tokens[4].as_str()) {
        Some(v) => {
            proof {
                assert(tokens@[4]@ == split_ws_spec(fen@)[4]);
                crate::text::lemma_digits_value_bound(split_ws_spec(fen@)[4], split_ws_spec(fen@)[4].len() as int);
                crate::text::lemma_digits_value_bound(split_ws_spec(fen@)[4].skip(1), split_ws_spec(fen@)[4].len() - 1);
                assert(parse_num_spec(split_ws_spec(fen@)[4]) matches Some(vi) && vi == v as int);
            }
            if v > 255 {
                return Err(FenError::InvalidHalfmove);
            }
            v as u8
        },
        None => {
            proof {
                assert(tokens@[4]@ == split_ws_spec(fen@)[4]);
                assert(parse_num_spec(split_ws_spec(fen@)[4]) is None);
            }
            return Err(FenError::InvalidHalfmove);
        },
    };
    let fullmove: u16 = match parse_num(tokens[5].as_str()) {
        Some(v) => {
            proof {
                assert(tokens@[5]@ == split_ws_spec(fen@)[5]);
                crate::text::lemma_digits_value_bound(split_ws_spec(fen@)[5], split_ws_spec(fen@)[5].len() as int);
                crate::text::lemma_digits_value_bound(split_ws_spec(fen@)[5].skip(1), split_ws_spec(fen@)[5].len() - 1);
                assert(parse_num_spec(split_ws_spec(fen@)[5]) matches Some(vi) && vi == v as int);
            }
            if v > 65535 {
                return Err(FenError::InvalidFullmove);
            }
            v as u16
        },
        None => {
            proof {
                assert(tokens@[5]@ == split_ws_spec(fen@)[5]);
                assert(parse_num_spec(split_ws_spec(fen@)[5]) is None);
            }
            return Err(FenError::InvalidFullmove);
        },
    };
    let g = Gamestate { board, player, castling, enpassat: enpassant, halfmove, fullmove };
    proof {
        assert(g.wf()) by {
            match g.enpassat {
                Some(e) => {
                    assert(parse_ep_spec(split_ws_spec(fen@)[3]) == Ok::<
                        Option<(u8, u8)>,
                        FenError,
                    >(g.enpassat));
                },
                None => {},
            }
        }
    }
    Ok(g)
}

} // verus!
