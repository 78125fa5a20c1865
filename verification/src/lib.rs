//! Accounting core of a token store: who owns a token, which fractions of a
//! sale go to whom, what a sale pays out, and what minting costs in storage.

pub mod costs;
pub mod errors;
pub mod fractions;
pub mod payout;
pub mod owner;
pub mod store;
