pub mod block;
pub mod matrix2;
pub mod pos_dir;
pub mod position;
pub mod vec3;
pub mod playfield;
pub mod figure;
pub mod find_placement;
pub mod matrix3;
pub mod matrix_2d;
pub mod matrix_3d;
pub mod figure_face;
pub mod figure_pos;
pub mod figure_dir;
pub mod find;
pub mod find_path;
