pub mod player;
pub mod game_logic;
pub mod computer;
pub mod eval;
pub mod human;
