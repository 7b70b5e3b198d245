//! Chess rules, evaluation, search and self-play, with machine-checked
//! contracts.

pub mod alphabeta;
pub mod arith;
pub mod aspiration;
pub mod attack_laws;
pub mod attacks;
pub mod bits;
pub mod board;
pub mod board_laws;
pub mod datagen;
pub mod deepening;
pub mod display;
pub mod engine;
pub mod eval;
pub mod eval_base;
pub mod eval_laws;
pub mod eval_mirror;
pub mod eval_params;
pub mod eval_pawns;
pub mod eval_pieces;
pub mod eval_terms;
pub mod fen;
pub mod fen_laws;
pub mod game_laws;
pub mod history;
pub mod iterative;
pub mod lines;
pub mod magics;
pub mod movegen;
pub mod movegen_laws;
pub mod moves;
pub mod nnue;
pub mod notation_laws;
pub mod openings;
pub mod ordering;
pub mod ordering_laws;
pub mod params;
pub mod pgn;
pub mod pgn_laws;
pub mod platform;
pub mod quiescence;
pub mod root;
pub mod root_laws;
pub mod san;
pub mod search;
pub mod search_laws;
pub mod see;
pub mod syzygy;
mod tables;
pub mod text;
pub mod threads;
pub mod timing;
pub mod tt;
pub mod types;
pub mod validate;
pub mod validity_laws;
pub mod zobrist;

pub use attacks::is_in_check;
pub use board::Board;
pub use engine::Engine;
pub use movegen::{generate_legal_moves, generate_pseudo_legal_captures, generate_pseudo_legal_moves, generate_pseudo_legal_quiets};
pub use moves::{Move, MoveFlag, MoveList};
pub use params::{SearchInfo, SearchParams, SearchResult, TuneParams};
pub use types::{Bitboard, CastlingRights, Color, Piece, PieceKind, Score, Square};
pub use validate::is_legal_move;
