//! Additive transforms.

pub mod accept;
pub mod cosets;
pub mod derivative;
pub mod factors;
pub mod lanes;
pub mod laws;
pub mod model;
pub mod novel;
pub mod plan;
pub(crate) mod walk;

pub use factors::FactorTable;
pub use plan::{PlanCache, TransformPlan, MAX_LOG_SIZE};
