//! Bitboard-based move-generation core of a chess engine.
//!
//! The crate has three layers:
//!
//! - [`bitboard`]: 64-bit square sets with least-significant-bit extraction,
//!   square iteration, and edge-safe directional shifts;
//! - [`board`]: per-side and per-piece-type occupancy bitboards plus a
//!   precomputed knight-attack table, with pawn and knight candidate-move
//!   generation;
//! - [`engine`]: sides, piece types, moves, and an [`engine::Engine`] that
//!   keeps a piece-per-square index consistent with the board's bitboards.

pub mod bitboard;
pub mod board;
pub mod engine;

pub use bitboard::Bitboard;
pub use bitboard::BitboardIterator;
pub use bitboard::BitboardOps;
pub use bitboard::CheckIndex;
pub use bitboard::Direction;

pub use board::double_pawn_push;
pub use board::pawn_east_attacks;
pub use board::pawn_west_attacks;
pub use board::single_pawn_push;
pub use board::Board;

pub use engine::Engine;
pub use engine::InvalidMove;
pub use engine::Move;
pub use engine::PieceType;
pub use engine::Side;
