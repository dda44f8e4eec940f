//! Reporting engine of a double-entry bookkeeping framework: a calculated
//! report model, a dependency graph of reporting steps with its scheduler and
//! executor, and the balance computations of the generic builder steps.

use vstd::prelude::*;

pub mod accounts;
pub mod balances;
pub mod engine;
pub mod graph;
pub mod products;
pub mod report;
pub mod types;

verus! {

/// Signed quantity in the smallest unit of a commodity
pub type QuantityInt = i64;

/// Whether a mathematical integer can be held in an i64
pub open spec fn fits_i64(x: int) -> bool {
    i64::MIN <= x <= i64::MAX
}

} // verus!
