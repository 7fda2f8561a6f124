pub mod materials;
pub mod surface;
