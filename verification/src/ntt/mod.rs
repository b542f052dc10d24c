//! Multiplicative transforms.

mod arith;
pub mod accept;
pub mod convolution;
pub mod dft;
pub mod field;
pub mod fourstep;
pub mod generator;
pub mod laws;
pub mod modular;
pub mod plan;
pub mod prime;
pub mod reserve;
pub mod ring;
pub mod rows;
pub mod stages;
pub mod transpose;

pub use crate::error::NttError;
pub use field::NttField;
pub use fourstep::{FourStepPlan, FourStepScratch};
pub use plan::{NttPlan, NttScratch};
pub use prime::{Goldilocks, Mersenne31, Quad, QuadMersenne31};
