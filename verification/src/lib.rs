//! A chess rules engine with a fixed-depth alpha-beta search.
//!
//! The board is an array of 64 squares in row-major order; move generation,
//! check and pin tracking, reversible move application and the search are
//! verified against a mathematical model of the position.

pub mod ai;
pub mod attacks;
pub mod chess;
pub mod model;
pub mod bitboard;
pub mod geometry;
pub mod piece;
