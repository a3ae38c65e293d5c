//! Fixed-point weighted-pool pricing math.
//!
//! All quantities are unsigned 256-bit integers interpreted as decimals
//! scaled by `10^18` (so the integer `10^18` stands for `1.0`).  The crate
//! provides the fixed-point primitives, deterministic exponentiation, the
//! weighted-product invariant, two-token swap pricing, and multi-token
//! join/exit pricing with proportional fee taxation.
use vstd::prelude::*;

mod u256;
pub mod fixed;
pub mod weighted_math;
pub mod pool;
pub mod laws;

pub use u256::U256;

verus! {

/// Failure cases of the pricing math.  Every operation that can abort
/// reports which precondition of the pricing formulas was violated
/// instead of wrapping around or panicking.
#[derive(Clone, Copy, Debug, PartialEq, Eq, Structural)]
pub enum MathError {
    /// Index-aligned vectors of different lengths were supplied.
    LengthMismatch,
    /// An intermediate value exceeded the 256-bit range.
    Overflow,
    /// An amount larger than the backing balance was requested.
    InsufficientBalance,
    /// A pricing ratio left its meaningful domain (for example a power
    /// below one where an input amount is being solved for).
    InvalidTrade,
}

} // verus!
