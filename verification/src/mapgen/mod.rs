pub mod data_square;
pub mod torus;
pub mod lanczos_doubler;
