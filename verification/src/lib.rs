//! A linear-price bonding curve for swapping a collateral token A against a
//! bonded token B, priced by `price(b) = slope * b + initial_price`.
//!
//! The numeric core is a fixed-point type over a 256-bit unsigned integer,
//! an integer square root, and a quadratic solver; the swap engine composes
//! them and rounds every step so that rounding never favours the trader.

pub mod inner_uint;
pub mod precise_number;
pub mod linear_price;
