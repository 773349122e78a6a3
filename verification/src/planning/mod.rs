pub mod symbols;
pub mod utils;
pub mod chronicles;
pub mod classical;
