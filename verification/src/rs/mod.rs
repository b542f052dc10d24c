//! Erasure algebra: generator rows and small dense systems.

pub mod generator;
pub mod recovery;
pub mod solve;

pub use generator::generator_row;
pub use solve::{inverse_scratch_elements, invert_square_into};
