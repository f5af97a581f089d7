use vstd::prelude::*;

pub mod cells;
pub mod coords;
pub mod game;
pub mod grid;
pub mod movement;
pub mod random;
pub mod simple;
pub mod vec2;

verus! {
} // verus!
