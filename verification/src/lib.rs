//! A headless chess rules engine.
//!
//! Given a board position the engine enumerates every legal move for the
//! side to move and classifies the position as ongoing, check, checkmate or
//! stalemate.  Move generation, the attack oracle, the legality filter, the
//! status classifier and the structural board validator are all verified;
//! the surrounding request/response loop lives outside this crate.

pub mod apply;
pub mod board;
pub mod board_validation;
pub mod fen_parser;
pub mod motion;
pub mod notation;
pub mod parse_error;
pub mod parse_input;
pub mod parse_output;
pub mod pawn;
pub mod pgn_parser;
pub mod possible_moves;
pub mod bishop;
pub mod king;
pub mod laws;
pub mod mirror;
pub mod knight;
pub mod queen;
pub mod rook;
pub mod text;
