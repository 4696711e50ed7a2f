use chess_backend::board::{Board, CastlingRights, Cell, Color, PieceKind};
use chess_backend::{bishop, king, knight, pawn, rook};

fn piece(color: Color, kind: PieceKind) -> Cell {
    Cell::Piece { color, kind }
}

fn flat(moves: Vec<Vec<(u8, u8)>>) -> Vec<(u8, u8)> {
    moves.into_iter().flatten().collect()
}

fn no_rights() -> CastlingRights {
    CastlingRights::none()
}

#[test]
fn test_bishop_moves_center() {
    let mut board = Board::new();
    board.set(4, 4, piece(Color::White, PieceKind::Bishop));

    let moves = bishop::get_possible_moves((4, 4), &board);
    let all_moves = flat(moves);

    assert_eq!(all_moves.len(), 13);
}

#[test]
fn test_bishop_blocked_by_own_piece() {
    let mut board = Board::new();
    board.set(4, 4, piece(Color::White, PieceKind::Bishop));
    board.set(6, 6, piece(Color::White, PieceKind::Pawn));

    let moves = bishop::get_possible_moves((4, 4), &board);
    let all_moves = flat(moves);

    assert!(!all_moves.contains(&(6, 6)));
    assert!(!all_moves.contains(&(7, 7)));
    assert!(all_moves.contains(&(5, 5)));
}

#[test]
fn test_bishop_captures_enemy() {
    let mut board = Board::new();
    board.set(4, 4, piece(Color::White, PieceKind::Bishop));
    board.set(6, 6, piece(Color::Black, PieceKind::Pawn));

    let moves = bishop::get_possible_moves((4, 4), &board);
    let all_moves = flat(moves);

    assert!(all_moves.contains(&(6, 6)));
    assert!(!all_moves.contains(&(7, 7)));
}

#[test]
fn test_king_moves_center() {
    let mut board = Board::new();
    board.set(4, 4, piece(Color::White, PieceKind::King));

    let moves = king::get_possible_moves((4, 4), &board, no_rights());
    let all_moves = flat(moves);

    assert_eq!(all_moves.len(), 8);
}

#[test]
fn test_king_moves_corner() {
    let mut board = Board::new();
    board.set(0, 0, piece(Color::White, PieceKind::King));

    let moves = king::get_possible_moves((0, 0), &board, no_rights());
    let all_moves = flat(moves);

    assert_eq!(all_moves.len(), 3);
}

#[test]
fn test_king_castling_kingside() {
    let mut board = Board::new();
    board.set(7, 4, piece(Color::White, PieceKind::King));
    board.set(7, 7, piece(Color::White, PieceKind::Rook));

    let mut rights = CastlingRights::none();
    rights.white_kingside = true;
    let moves = king::get_possible_moves((7, 4), &board, rights);
    let all_moves = flat(moves);

    assert!(all_moves.contains(&(7, 6)));
}

#[test]
fn test_king_no_castling_blocked() {
    let mut board = Board::new();
    board.set(7, 4, piece(Color::White, PieceKind::King));
    board.set(7, 7, piece(Color::White, PieceKind::Rook));
    board.set(7, 6, piece(Color::White, PieceKind::Knight));

    let mut rights = CastlingRights::none();
    rights.white_kingside = true;
    let moves = king::get_possible_moves((7, 4), &board, rights);
    let all_moves = flat(moves);

    assert!(!all_moves.contains(&(7, 6)));
}

#[test]
fn test_knight_moves_center() {
    let mut board = Board::new();
    board.set(4, 4, piece(Color::White, PieceKind::Knight));

    let moves = knight::get_possible_moves((4, 4), &board);
    let all_moves = flat(moves);

    assert_eq!(all_moves.len(), 8);
}

#[test]
fn test_knight_moves_corner() {
    let mut board = Board::new();
    board.set(0, 0, piece(Color::White, PieceKind::Knight));

    let moves = knight::get_possible_moves((0, 0), &board);
    let all_moves = flat(moves);

    assert_eq!(all_moves.len(), 2);
    assert!(all_moves.contains(&(1, 2)));
    assert!(all_moves.contains(&(2, 1)));
}

#[test]
fn test_knight_blocked_by_own_piece() {
    let mut board = Board::new();
    board.set(4, 4, piece(Color::White, PieceKind::Knight));
    board.set(6, 5, piece(Color::White, PieceKind::Pawn));

    let moves = knight::get_possible_moves((4, 4), &board);
    let all_moves = flat(moves);

    assert!(!all_moves.contains(&(6, 5)));
    assert_eq!(all_moves.len(), 7);
}

#[test]
fn test_knight_captures_enemy() {
    let mut board = Board::new();
    board.set(4, 4, piece(Color::White, PieceKind::Knight));
    board.set(6, 5, piece(Color::Black, PieceKind::Pawn));

    let moves = knight::get_possible_moves((4, 4), &board);
    let all_moves = flat(moves);

    assert!(all_moves.contains(&(6, 5)));
    assert_eq!(all_moves.len(), 8);
}

#[test]
fn test_white_pawn_start() {
    let mut board = Board::new();
    board.set(6, 4, piece(Color::White, PieceKind::Pawn));

    let moves = pawn::get_possible_moves((6, 4), &board, (0, 0));
    let all_moves = flat(moves);

    assert!(all_moves.contains(&(5, 4)));
    assert!(all_moves.contains(&(4, 4)));
}

#[test]
fn test_pawn_capture() {
    let mut board = Board::new();
    board.set(4, 4, piece(Color::White, PieceKind::Pawn));
    board.set(3, 3, piece(Color::Black, PieceKind::Pawn));
    board.set(3, 5, piece(Color::Black, PieceKind::Pawn));

    let moves = pawn::get_possible_moves((4, 4), &board, (0, 0));
    let all_moves = flat(moves);

    assert!(all_moves.contains(&(3, 3)));
    assert!(all_moves.contains(&(3, 5)));
}

#[test]
fn test_en_passant() {
    let mut board = Board::new();
    board.set(3, 4, piece(Color::White, PieceKind::Pawn));

    let moves = pawn::get_possible_moves((3, 4), &board, (2, 5));
    let all_moves = flat(moves);

    assert!(all_moves.contains(&(2, 5)));
}

#[test]
fn test_rook_moves_center() {
    let mut board = Board::new();
    board.set(4, 4, piece(Color::White, PieceKind::Rook));

    let moves = rook::get_possible_moves((4, 4), &board);
    let all_moves = flat(moves);

    assert_eq!(all_moves.len(), 14);
}

#[test]
fn test_rook_blocked_by_own_piece() {
    let mut board = Board::new();
    board.set(4, 4, piece(Color::White, PieceKind::Rook));
    board.set(4, 6, piece(Color::White, PieceKind::Pawn));

    let moves = rook::get_possible_moves((4, 4), &board);
    let all_moves = flat(moves);

    assert!(!all_moves.contains(&(4, 6)));
    assert!(!all_moves.contains(&(4, 7)));
    assert!(all_moves.contains(&(4, 5)));
}

#[test]
fn test_rook_captures_enemy() {
    let mut board = Board::new();
    board.set(4, 4, piece(Color::White, PieceKind::Rook));
    board.set(4, 6, piece(Color::Black, PieceKind::Pawn));

    let moves = rook::get_possible_moves((4, 4), &board);
    let all_moves = flat(moves);

    assert!(all_moves.contains(&(4, 6)));
    assert!(!all_moves.contains(&(4, 7)));
}
