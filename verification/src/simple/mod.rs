pub mod playfield;
pub mod position;
pub mod figure;
pub mod player;
