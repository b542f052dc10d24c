//! Verified additive and multiplicative transforms over finite fields.

pub mod agreements;
pub mod basis;
pub mod calls;
pub mod error;
pub mod field;
pub mod grid;
pub mod internals;
pub mod kernel;
pub mod ntt;
pub mod pack;
pub mod payload;
pub mod poly;
pub mod rs;
pub mod shifted;
pub mod span;
pub mod subspace;
pub mod tables;
pub mod text;
pub mod transform;
pub mod tuning;
pub mod words;

pub use error::{NttError, PlanError, TransformError};
pub use ntt::plan::NttPlan;
pub use transform::plan::TransformPlan;
