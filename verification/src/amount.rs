//! Exact decimal amounts with four fractional digits.

use vstd::prelude::*;

verus! {

/// A signed decimal amount with exactly four fractional digits, stored as a
/// count of ten-thousandths.  `Amount { units: 1 }` is 0.0001 and
/// `Amount { units: 1_000_000 }` is 100.  Arithmetic on units is ordinary
/// integer arithmetic, so sums of amounts are exact: ten deposits of 0.0001
/// are precisely 0.0010.
///
/// Amounts carried by single transaction records may be negative (such
/// records are rejected by the account operations); account balances are
/// kept separately as `i128` unit counts and never go negative.
#[derive(Clone, Copy, Debug, PartialEq, Eq, Structural)]
pub struct Amount {
    /// The value in ten-thousandths of one currency unit.
    pub units: i64,
}

impl Amount {
    /// The amount holding `units` ten-thousandths.
    pub fn from_units(units: i64) -> (a: Amount)
        ensures
            a.units == units,
    {
        Amount { units }
    }

    /// The zero amount.
    pub fn zero() -> (a: Amount)
        ensures
            a.units == 0,
    {
        Amount { units: 0 }
    }
}

} // verus!
