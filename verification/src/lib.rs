//! A single-instrument limit order book with price-time priority matching.
//!
//! Prices and quantities are fixed-point values: an integer number of
//! ten-thousandths of the quoted unit, so `457_000_000` stands for a price
//! of 45700.0 and `6_000` for a quantity of 0.6.

use vstd::prelude::*;

pub mod book;
pub mod laws;
pub mod price;
pub mod gen;

verus! {

/// Number of fixed-point units per whole quoted unit.
pub const PRICE_SCALE: u64 = 10_000;

/// Reference price used when no usable quote is available: 45700.0 in
/// fixed-point units.
pub const DEFAULT_REFERENCE_PRICE: u64 = 457_000_000;

} // verus!
