pub mod block;
pub mod matrix2;
pub mod matrix3;
pub mod position;
pub mod vec3;
pub mod playfield;
pub mod count;
pub mod figure;
pub mod figure_pos;
pub mod find_placement;
