//! Inspection and tuning of plans; nothing here is meant to be stable.

pub use crate::ntt::fourstep::{FourStepPlan, FourStepScratch};
pub use crate::transform::factors::FactorTable;
pub use crate::tuning::{
    derivative_into_bytes_gather, derivative_into_bytes_overwrite, derivative_into_bytes_sweep,
    ntt_forward_batched, ntt_forward_fused, ntt_forward_packed, plan_table,
};
