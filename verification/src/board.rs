//! The board model: colors, piece kinds, cells and the 8x8 board.
//!
//! Ranks and files are numbered 0 through 7; rank 0 is the eighth rank
//! (black's home side) and file 0 is the a-file.  A board is a vector of
//! 64 cells indexed rank-major: the cell on (rank, file) sits at
//! `rank * 8 + file`.

use vstd::prelude::*;

verus! {

/// The two sides.
#[derive(Clone, Copy, Debug, PartialEq, Eq, Structural)]
pub enum Color {
    White,
    Black,
}

/// The six piece kinds.
#[derive(Clone, Copy, Debug, PartialEq, Eq, Structural)]
pub enum PieceKind {
    Pawn,
    Rook,
    Knight,
    Bishop,
    Queen,
    King,
}

/// One square's content: empty, or a piece of some color and kind.
#[derive(Clone, Copy, Debug, PartialEq, Eq, Structural)]
pub enum Cell {
    Empty,
    Piece { color: Color, kind: PieceKind },
}

/// The four castling flags.  Each flag is monotonic over a game: once a
/// side loses a right it never regains it, but that is the caller's
/// bookkeeping; the engine only reads the flags.
#[derive(Clone, Copy, Debug, PartialEq, Eq, Structural)]
pub struct CastlingRights {
    pub white_kingside: bool,
    pub white_queenside: bool,
    pub black_kingside: bool,
    pub black_queenside: bool,
}

impl CastlingRights {
    /// Rights with every flag cleared, as the attack oracle uses:
    /// castle destinations never count as attacks.
    pub fn none() -> (r: CastlingRights)
        ensures
            r == CastlingRights::spec_none(),
    {
        CastlingRights {
            white_kingside: false,
            white_queenside: false,
            black_kingside: false,
            black_queenside: false,
        }
    }

    pub open spec fn spec_none() -> CastlingRights {
        CastlingRights {
            white_kingside: false,
            white_queenside: false,
            black_kingside: false,
            black_queenside: false,
        }
    }
}

pub open spec fn opposite(c: Color) -> Color {
    match c {
        Color::White => Color::Black,
        Color::Black => Color::White,
    }
}

/// Executable counterpart of `opposite`.
pub fn other_color(c: Color) -> (r: Color)
    ensures
        r == opposite(c),
{
    match c {
        Color::White => Color::Black,
        Color::Black => Color::White,
    }
}

/// The 8x8 board.
pub struct Board {
    pub cells: Vec<Cell>,
}

impl View for Board {
    type V = Seq<Cell>;

    open spec fn view(&self) -> Seq<Cell> {
        self.cells@
    }
}

/// Is (rank, file) one of the 64 squares?
pub open spec fn on_board(r: int, f: int) -> bool {
    0 <= r < 8 && 0 <= f < 8
}

/// Rank-major cell index.
pub open spec fn sq_idx(r: int, f: int) -> int {
    r * 8 + f
}

/// The cell on (rank, file).
pub open spec fn cell_at(b: Seq<Cell>, r: int, f: int) -> Cell {
    b[sq_idx(r, f)]
}

pub open spec fn is_empty_at(b: Seq<Cell>, r: int, f: int) -> bool {
    cell_at(b, r, f) == Cell::Empty
}

pub open spec fn has_color_at(b: Seq<Cell>, r: int, f: int, c: Color) -> bool {
    cell_at(b, r, f) matches Cell::Piece { color, .. } && color == c
}

pub open spec fn has_piece_at(b: Seq<Cell>, r: int, f: int, c: Color, k: PieceKind) -> bool {
    cell_at(b, r, f) == (Cell::Piece { color: c, kind: k })
}

/// A piece of color `us` may move onto (r, f): the square is on the board
/// and does not hold a piece of its own color.
pub open spec fn free_for(b: Seq<Cell>, us: Color, r: int, f: int) -> bool {
    on_board(r, f) && !has_color_at(b, r, f, us)
}

impl Board {
    /// A board is well formed when it has exactly 64 cells.
    pub open spec fn wf(&self) -> bool {
        self@.len() == 64
    }

    /// The empty board.
    pub fn new() -> (b: Board)
        ensures
            b.wf(),
            forall|i: int| 0 <= i < 64 ==> b@[i] == Cell::Empty,
    {
        let mut cells: Vec<Cell> = Vec::new();
        let mut i: usize = 0;
        while i < 64
            invariant
                i <= 64,
                cells@.len() == i,
                forall|j: int| 0 <= j < i ==> cells@[j] == Cell::Empty,
            decreases 64 - i,
        {
            cells.push(Cell::Empty);
            i = i + 1;
        }
        Board { cells }
    }

    /// Read the cell on (rank, file).
    pub fn at(&self, r: u8, f: u8) -> (c: Cell)
        requires
            self.wf(),
            r < 8,
            f < 8,
        ensures
            c == cell_at(self@, r as int, f as int),
    {
        self.cells[(r as usize) * 8 + (f as usize)]
    }

    /// Overwrite the cell on (rank, file).
    pub fn set(&mut self, r: u8, f: u8, c: Cell)
        requires
            old(self).wf(),
            r < 8,
            f < 8,
        ensures
            final(self).wf(),
            final(self)@ == old(self)@.update(sq_idx(r as int, f as int), c),
    {
        self.cells[(r as usize) * 8 + (f as usize)] = c;
    }
}

impl Clone for Board {
    /// An element-wise copy with the same cells.
    fn clone(&self) -> (r: Board)
        ensures
            r@ == self@,
    {
        let mut cells: Vec<Cell> = Vec::new();
        let mut i: usize = 0;
        while i < self.cells.len()
            invariant
                i <= self.cells@.len(),
                cells@.len() == i,
                forall|j: int| 0 <= j < i ==> cells@[j] == self.cells@[j],
            decreases self.cells@.len() - i,
        {
            cells.push(self.cells[i]);
            i = i + 1;
        }
        let r = Board { cells };
        proof {
            assert(r@ =~= self@);
        }
        r
    }
}

} // verus!
