//! Incremental beam search over a reversible puzzle state, with two puzzles:
//! a pyramid of balls that the engine solves, and a container terminal with
//! a search of its own.

pub mod alike;
pub mod beam;
pub mod clock;
pub mod crane;
pub mod cut;
pub mod domain;
pub mod driver;
pub mod hasher;
pub mod inverse;
pub mod mcg;
pub mod nth;
pub mod order;
pub mod ops;
pub mod plan;
pub mod pyramid;
pub mod rnd;
pub mod tables;
pub mod terminal;
pub mod walker;
pub mod yard;
pub mod zobrist;
