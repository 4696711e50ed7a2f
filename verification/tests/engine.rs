use chess_backend::apply::apply_move;
use chess_backend::board::{Board, CastlingRights, Cell, Color, PieceKind};
use chess_backend::board_validation::{validate_board, BoardViolation};
use chess_backend::fen_parser::Gamestate;
use chess_backend::possible_moves::{
    get_game_status, get_legal_moves, is_in_check, is_square_attacked, GameStatus,
};

fn piece(color: Color, kind: PieceKind) -> Cell {
    Cell::Piece { color, kind }
}

fn no_rights() -> CastlingRights {
    CastlingRights::none()
}

fn state_of(board: &Board, player: Color, castling: CastlingRights) -> Gamestate {
    let mut g = Gamestate::new();
    g.board = board.clone();
    g.player = player;
    g.castling = castling;
    g
}

#[test]
fn test_kingside_castle_executes() {
    // Empty board, white king e1, white rook h1, kingside right only.
    let mut board = Board::new();
    board.set(7, 4, piece(Color::White, PieceKind::King));
    board.set(7, 7, piece(Color::White, PieceKind::Rook));
    let mut rights = CastlingRights::none();
    rights.white_kingside = true;

    assert!(!is_in_check(&board, (0, 0), rights, Color::White));
    let moves = get_legal_moves(&board, (0, 0), rights, Color::White);
    assert!(moves.contains(&((7, 4), (7, 6))));

    let g = state_of(&board, Color::White, rights);
    let after = apply_move(&g, (7, 4), (7, 6));
    assert_eq!(after.board.at(7, 6), piece(Color::White, PieceKind::King));
    assert_eq!(after.board.at(7, 5), piece(Color::White, PieceKind::Rook));
    assert_eq!(after.board.at(7, 7), Cell::Empty);
    assert_eq!(after.board.at(7, 4), Cell::Empty);
    assert!(!after.castling.white_kingside);
    assert!(!after.castling.white_queenside);
}

#[test]
fn test_castle_removed_without_right() {
    let mut board = Board::new();
    board.set(7, 4, piece(Color::White, PieceKind::King));
    board.set(7, 7, piece(Color::White, PieceKind::Rook));

    let moves = get_legal_moves(&board, (0, 0), no_rights(), Color::White);
    assert!(!moves.contains(&((7, 4), (7, 6))));
}

#[test]
fn test_castle_removed_when_transit_attacked() {
    // A black rook on the f-file guards the square the king crosses.
    let mut board = Board::new();
    board.set(7, 4, piece(Color::White, PieceKind::King));
    board.set(7, 7, piece(Color::White, PieceKind::Rook));
    board.set(0, 5, piece(Color::Black, PieceKind::Rook));
    let mut rights = CastlingRights::none();
    rights.white_kingside = true;

    let moves = get_legal_moves(&board, (0, 0), rights, Color::White);
    assert!(!moves.contains(&((7, 4), (7, 6))));
}

#[test]
fn test_back_rank_checkmate() {
    // White king e1 against black rooks on d8, e8 and f8: mate.
    let mut board = Board::new();
    board.set(7, 4, piece(Color::White, PieceKind::King));
    board.set(0, 3, piece(Color::Black, PieceKind::Rook));
    board.set(0, 4, piece(Color::Black, PieceKind::Rook));
    board.set(0, 5, piece(Color::Black, PieceKind::Rook));

    let moves = get_legal_moves(&board, (0, 0), no_rights(), Color::White);
    assert!(moves.is_empty());
    assert!(matches!(
        get_game_status(&board, (0, 0), no_rights(), Color::White),
        GameStatus::Checkmate
    ));
}

#[test]
fn test_classic_stalemate() {
    // Lone black king a8, white king c6, white queen b6, black to move.
    let mut board = Board::new();
    board.set(0, 0, piece(Color::Black, PieceKind::King));
    board.set(2, 2, piece(Color::White, PieceKind::King));
    board.set(2, 1, piece(Color::White, PieceKind::Queen));

    assert!(!is_in_check(&board, (0, 0), no_rights(), Color::Black));
    let moves = get_legal_moves(&board, (0, 0), no_rights(), Color::Black);
    assert!(moves.is_empty());
    assert!(matches!(
        get_game_status(&board, (0, 0), no_rights(), Color::Black),
        GameStatus::Stalemate
    ));
}

#[test]
fn test_two_kings_rejected() {
    // Two white kings: the validator names the king count, before any
    // move generation runs.
    let mut board = Board::new();
    board.set(7, 4, piece(Color::White, PieceKind::King));
    board.set(5, 4, piece(Color::White, PieceKind::King));
    board.set(0, 4, piece(Color::Black, PieceKind::King));

    assert_eq!(
        validate_board(&board),
        Err(BoardViolation::InvalidKingCount { white: 2, black: 1 })
    );
}

#[test]
fn test_pawn_on_back_rank_rejected() {
    let mut board = Board::new();
    board.set(7, 4, piece(Color::White, PieceKind::King));
    board.set(0, 4, piece(Color::Black, PieceKind::King));
    board.set(0, 2, piece(Color::White, PieceKind::Pawn));

    assert_eq!(
        validate_board(&board),
        Err(BoardViolation::IllegalPawnPosition { rank: 0, file: 2 })
    );
}

#[test]
fn test_too_many_promoted_rejected() {
    // Eight white pawns and two white queens leave no promotion slot.
    let mut board = Board::new();
    board.set(7, 4, piece(Color::White, PieceKind::King));
    board.set(0, 4, piece(Color::Black, PieceKind::King));
    for f in 0..8 {
        board.set(6, f, piece(Color::White, PieceKind::Pawn));
    }
    board.set(4, 0, piece(Color::White, PieceKind::Queen));
    board.set(4, 1, piece(Color::White, PieceKind::Queen));

    assert_eq!(
        validate_board(&board),
        Err(BoardViolation::TooManyPromotedPieces { color: Color::White })
    );
}

#[test]
fn test_valid_board_accepted() {
    let mut board = Board::new();
    board.set(7, 4, piece(Color::White, PieceKind::King));
    board.set(0, 4, piece(Color::Black, PieceKind::King));
    board.set(6, 0, piece(Color::White, PieceKind::Pawn));
    assert_eq!(validate_board(&board), Ok(()));
}

#[test]
fn test_en_passant_capture_executes() {
    // A black pawn just double-advanced past the white pawn on e5; the
    // capture lands on the passed-over square and removes the passed
    // pawn, not the piece landing there.
    let mut board = Board::new();
    board.set(7, 4, piece(Color::White, PieceKind::King));
    board.set(0, 4, piece(Color::Black, PieceKind::King));
    board.set(3, 4, piece(Color::White, PieceKind::Pawn));
    board.set(3, 3, piece(Color::Black, PieceKind::Pawn));

    let moves = get_legal_moves(&board, (2, 3), no_rights(), Color::White);
    assert!(moves.contains(&((3, 4), (2, 3))));

    let mut g = state_of(&board, Color::White, no_rights());
    g.enpassat = Some((2, 3));
    let after = apply_move(&g, (3, 4), (2, 3));
    assert_eq!(after.board.at(2, 3), piece(Color::White, PieceKind::Pawn));
    assert_eq!(after.board.at(3, 3), Cell::Empty);
    assert_eq!(after.board.at(3, 4), Cell::Empty);
}

#[test]
fn test_double_advance_sets_target() {
    let mut board = Board::new();
    board.set(7, 4, piece(Color::White, PieceKind::King));
    board.set(0, 4, piece(Color::Black, PieceKind::King));
    board.set(6, 2, piece(Color::White, PieceKind::Pawn));

    let g = state_of(&board, Color::White, no_rights());
    let after = apply_move(&g, (6, 2), (4, 2));
    assert_eq!(after.enpassat, Some((5, 2)));
    assert_eq!(after.player, Color::Black);
    assert_eq!(after.halfmove, 0);
}

#[test]
fn test_no_legal_move_leaves_king_attacked() {
    // In a pin-free position every legal move leaves the mover's own
    // king unattacked afterwards.
    let mut board = Board::new();
    board.set(7, 4, piece(Color::White, PieceKind::King));
    board.set(0, 0, piece(Color::Black, PieceKind::King));
    board.set(4, 4, piece(Color::White, PieceKind::Rook));
    board.set(2, 6, piece(Color::Black, PieceKind::Knight));

    let g = state_of(&board, Color::White, no_rights());
    let moves = get_legal_moves(&board, (0, 0), no_rights(), Color::White);
    assert!(!moves.is_empty());
    for (from, to) in moves {
        let after = apply_move(&g, from, to);
        assert!(!is_in_check(&after.board, (0, 0), no_rights(), Color::White));
    }
}

#[test]
fn test_legal_moves_idempotent() {
    let mut board = Board::new();
    board.set(7, 4, piece(Color::White, PieceKind::King));
    board.set(0, 4, piece(Color::Black, PieceKind::King));
    board.set(6, 3, piece(Color::White, PieceKind::Pawn));
    board.set(5, 6, piece(Color::White, PieceKind::Knight));

    let mut a = get_legal_moves(&board, (0, 0), no_rights(), Color::White);
    let mut b = get_legal_moves(&board, (0, 0), no_rights(), Color::White);
    a.sort();
    b.sort();
    assert_eq!(a, b);
}

#[test]
fn test_mirror_symmetry_sample() {
    // Color-swapping and reflecting the board reflects the legal moves.
    let mut white_board = Board::new();
    white_board.set(7, 4, piece(Color::White, PieceKind::King));
    white_board.set(0, 4, piece(Color::Black, PieceKind::King));
    white_board.set(6, 1, piece(Color::White, PieceKind::Pawn));
    white_board.set(4, 6, piece(Color::Black, PieceKind::Rook));

    let mut black_board = Board::new();
    black_board.set(0, 4, piece(Color::Black, PieceKind::King));
    black_board.set(7, 4, piece(Color::White, PieceKind::King));
    black_board.set(1, 1, piece(Color::Black, PieceKind::Pawn));
    black_board.set(3, 6, piece(Color::White, PieceKind::Rook));

    let mut wm = get_legal_moves(&white_board, (0, 0), no_rights(), Color::White);
    let mut bm: Vec<((u8, u8), (u8, u8))> =
        get_legal_moves(&black_board, (7, 0), no_rights(), Color::Black)
            .into_iter()
            .map(|(f, t)| ((7 - f.0, f.1), (7 - t.0, t.1)))
            .collect();
    wm.sort();
    bm.sort();
    assert_eq!(wm, bm);
}

#[test]
fn test_double_check_forces_king_move() {
    // Both a rook and a bishop attack the white king: only king moves
    // survive.
    let mut board = Board::new();
    board.set(7, 4, piece(Color::White, PieceKind::King));
    board.set(0, 0, piece(Color::Black, PieceKind::King));
    board.set(0, 4, piece(Color::Black, PieceKind::Rook));
    board.set(4, 7, piece(Color::Black, PieceKind::Bishop));
    board.set(4, 0, piece(Color::White, PieceKind::Queen));

    let moves = get_legal_moves(&board, (0, 0), no_rights(), Color::White);
    assert!(!moves.is_empty());
    for (from, _to) in moves {
        assert_eq!(from, (7, 4));
    }
}

#[test]
fn test_block_or_capture_under_single_check() {
    // A rook checks along the e-file; the white queen may capture the
    // attacker or interpose, but may not wander off.
    let mut board = Board::new();
    board.set(7, 4, piece(Color::White, PieceKind::King));
    board.set(0, 0, piece(Color::Black, PieceKind::King));
    board.set(0, 4, piece(Color::Black, PieceKind::Rook));
    board.set(3, 0, piece(Color::White, PieceKind::Queen));

    let moves = get_legal_moves(&board, (0, 0), no_rights(), Color::White);
    // Interposing on the file is in.
    assert!(moves.contains(&((3, 0), (3, 4))));
    // A queen move that neither captures nor blocks is out.
    assert!(!moves.contains(&((3, 0), (3, 1))));
}

#[test]
fn test_pin_not_filtered() {
    // Inherited behavior: a piece pinned against its own king is not
    // filtered while the king is not yet in check.  The rook on e2 may
    // leave the e-file even though that exposes the king to the rook
    // on e8.
    let mut board = Board::new();
    board.set(7, 4, piece(Color::White, PieceKind::King));
    board.set(6, 4, piece(Color::White, PieceKind::Rook));
    board.set(0, 4, piece(Color::Black, PieceKind::Rook));
    board.set(0, 0, piece(Color::Black, PieceKind::King));

    let moves = get_legal_moves(&board, (0, 0), no_rights(), Color::White);
    assert!(moves.contains(&((6, 4), (6, 0))));
}

#[test]
fn test_attack_oracle_pawn_forward() {
    // This engine counts a pawn's forward square as attacked.
    let mut board = Board::new();
    board.set(3, 3, piece(Color::Black, PieceKind::Pawn));
    assert!(is_square_attacked((4, 3), &board, (0, 0), Color::White));
    assert!(!is_square_attacked((5, 3), &board, (0, 0), Color::White));
}
