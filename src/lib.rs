//! Grid-based sentence puzzles: glyph classification, rigid fragments on a
//! board, and a finite-state grammar that decides which glyphs form sentences.

pub mod coord;
pub mod hashed;
pub mod flood;
pub mod text;
pub mod symbols;
pub mod grammar;
pub mod board;
pub mod levels;
pub mod session;
