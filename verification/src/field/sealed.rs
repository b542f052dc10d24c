//! The seal on the field trait.

use vstd::prelude::*;

verus! {

/// Implemented only for the field markers of this crate.
pub trait Sealed {

}

} // verus!
