pub mod specs;
pub mod decimal;
pub mod mapgen;
pub mod manager;
pub mod chunk;
pub mod rost_west;
pub mod rustlantis;
