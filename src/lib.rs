//! A falling-block chain-reaction puzzle engine: the board with its removal,
//! gravity and feed rules, the bomb placement generators, a small frame
//! scheduler that turns board transitions into timed animation, and the
//! normal, hard and two-player games built on them.
use vstd::prelude::*;

pub mod animation;
pub mod board;
pub mod clock;
pub mod column;
pub mod effects;
pub mod game;
pub mod generator;
pub mod hard;
pub mod model;
pub mod online;

verus! {

/// Number of columns of the playing field.
pub const WIDTH: usize = 8;

/// Number of rows of the playing field.
pub const HEIGHT: usize = 9;

} // verus!
