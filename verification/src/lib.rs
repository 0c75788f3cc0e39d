//! Vendoring of external source trees: filter matching, per-dependency
//! install/update planning, and lock-store reconciliation.

use vstd::prelude::*;

pub mod codec;
pub mod deps;
pub mod errors;
pub mod filters;
pub mod lock;
pub mod manager;
pub mod orchestrator;
pub mod preset;
pub mod text;
pub mod vendor_spec;

verus! {

/// Version string written into newly created lock stores.
pub const VERSION: &'static str = "0.1.0";

} // verus!
