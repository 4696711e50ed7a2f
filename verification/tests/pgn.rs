use chess_backend::pgn_parser::PgnGame;

#[test]
fn test_parse_pgn() {
    let pgn_str = "\n[Event \"Test Game\"]\n[Site \"Online\"]\n[Date \"2026.02.08\"]\n[Round \"1\"]\n[White \"Player1\"]\n[Black \"Player2\"]\n[Result \"1-0\"]\n\n1. e4 e5 2. Nf3 Nc6 3. Bb5 a6 1-0\n";

    let game = PgnGame::from_pgn(pgn_str).unwrap();
    assert_eq!(game.get_header("Event"), Some(&"Test Game".to_string()));
    assert_eq!(game.get_header("White"), Some(&"Player1".to_string()));
    assert_eq!(game.result, "1-0");
    assert!(game.moves.len() > 0);
}

#[test]
fn test_to_pgn() {
    let mut game = PgnGame::new();
    game.set_header("Event".to_string(), "Test".to_string());
    game.set_header("White".to_string(), "Player1".to_string());
    game.set_header("Black".to_string(), "Player2".to_string());
    game.set_header("Result".to_string(), "1-0".to_string());
    game.add_move("e4".to_string());
    game.add_move("e5".to_string());
    game.result = "1-0".to_string();

    let pgn = game.to_pgn();
    assert!(pgn.contains("[Event \"Test\"]"));
    assert!(pgn.contains("1. e4 e5"));
}

#[test]
fn test_pgn_moves_parsed() {
    let game = PgnGame::from_pgn("1. e4 e5 2. Nf3 Nc6 1/2-1/2").unwrap();
    assert_eq!(game.moves, vec!["e4", "e5", "Nf3", "Nc6"]);
    assert_eq!(game.result, "1/2-1/2");
}

#[test]
fn test_pgn_annotations_stripped() {
    let game = PgnGame::from_pgn("1. e4!! e5?? 2. Nf3!? *").unwrap();
    assert_eq!(game.moves, vec!["e4", "e5", "Nf3"]);
    assert_eq!(game.result, "*");
}

#[test]
fn test_pgn_set_header_replaces() {
    let mut game = PgnGame::new();
    game.set_header("Site".to_string(), "Here".to_string());
    game.set_header("Site".to_string(), "There".to_string());
    assert_eq!(game.get_header("Site"), Some(&"There".to_string()));
    assert_eq!(game.get_header("Event"), None);
}

#[test]
fn test_pgn_other_headers_sorted() {
    let mut game = PgnGame::new();
    game.set_header("Zebra".to_string(), "z".to_string());
    game.set_header("Alpha".to_string(), "a".to_string());
    let pgn = game.to_pgn();
    let zi = pgn.find("Zebra").unwrap();
    let ai = pgn.find("Alpha").unwrap();
    assert!(ai < zi);
}

#[test]
fn test_pgn_castling_token_kept() {
    let game = PgnGame::from_pgn("1. O-O O-O-O 1-0").unwrap();
    assert_eq!(game.moves, vec!["O-O", "O-O-O"]);
}
