use chess_backend::board::{Cell, Color, PieceKind};
use chess_backend::fen_parser::{from_fen, FenError, Gamestate};
use chess_backend::notation::{chess_notation_to_index, index_to_chess_notation};

#[test]
fn test_notation_round_trip() {
    assert_eq!(chess_notation_to_index("e2"), Some((6, 4)));
    assert_eq!(chess_notation_to_index("a8"), Some((0, 0)));
    assert_eq!(chess_notation_to_index("h1"), Some((7, 7)));
    assert_eq!(chess_notation_to_index("i1"), None);
    assert_eq!(chess_notation_to_index("e9"), None);
    assert_eq!(chess_notation_to_index("e22"), None);
    assert_eq!(index_to_chess_notation((6, 4)).as_deref(), Some("e2"));
    assert_eq!(index_to_chess_notation((0, 0)).as_deref(), Some("a8"));
    assert_eq!(index_to_chess_notation((8, 0)), None);
}

#[test]
fn test_fen_round_trip_start_position() {
    let fen = "rnbqkbnr/pppppppp/8/8/8/8/PPPPPPPP/RNBQKBNR w KQkq - 0 1";
    let g = from_fen(fen).unwrap();
    assert_eq!(g.player, Color::White);
    assert!(g.castling.white_kingside && g.castling.black_queenside);
    assert_eq!(g.enpassat, None);
    assert_eq!(
        g.board.at(0, 0),
        Cell::Piece { color: Color::Black, kind: PieceKind::Rook }
    );
    assert_eq!(
        g.board.at(7, 4),
        Cell::Piece { color: Color::White, kind: PieceKind::King }
    );
    assert_eq!(g.to_fen(), fen);
}

#[test]
fn test_fen_en_passant_field() {
    let g = from_fen("8/8/8/8/8/8/8/4K2k b - e3 12 34").unwrap();
    assert_eq!(g.enpassat, Some((5, 4)));
    assert_eq!(g.player, Color::Black);
    assert_eq!(g.halfmove, 12);
    assert_eq!(g.fullmove, 34);
    assert_eq!(g.to_fen(), "8/8/8/8/8/8/8/4K2k b - e3 12 34");
}

#[test]
fn test_fen_errors() {
    assert_eq!(from_fen("not a fen").err(), Some(FenError::InvalidFormat));
    assert_eq!(
        from_fen("8/8/8/8/8/8/8 w - - 0 1").err(),
        Some(FenError::InvalidBoardFormat)
    );
    assert_eq!(
        from_fen("9/8/8/8/8/8/8/8 w - - 0 1").err(),
        Some(FenError::InvalidRowLength)
    );
    assert_eq!(
        from_fen("x7/8/8/8/8/8/8/8 w - - 0 1").err(),
        Some(FenError::InvalidCharacterInBoard)
    );
    assert_eq!(
        from_fen("8/8/8/8/8/8/8/8 w - e9 0 1").err(),
        Some(FenError::EnPassantOutOfBounds)
    );
    assert_eq!(
        from_fen("8/8/8/8/8/8/8/8 w - ee 0 1").err(),
        Some(FenError::InvalidEnPassantRank)
    );
    assert_eq!(
        from_fen("8/8/8/8/8/8/8/8 w - e3e 0 1").err(),
        Some(FenError::InvalidEnPassantSquare)
    );
    assert_eq!(
        from_fen("8/8/8/8/8/8/8/8 w - - 999 1").err(),
        Some(FenError::InvalidHalfmove)
    );
    assert_eq!(
        from_fen("8/8/8/8/8/8/8/8 w - - 0 x").err(),
        Some(FenError::InvalidFullmove)
    );
}

#[test]
fn test_empty_state_fen() {
    let g = Gamestate::new();
    assert_eq!(g.to_fen(), "8/8/8/8/8/8/8/8 w - - 0 1");
}
