//! The core of a spot exchange for one market, BTC against USDC: a ledger of
//! what each user has available and locked, a limit order book with
//! price-time priority, and an engine that takes in and cancels orders and
//! settles the trades in the ledger.
//!
//! Amounts of BTC are in satoshis, amounts of USDC in micro-USDC, and prices
//! in micro-USDC per BTC.

pub mod decimal;
pub mod engine;
pub mod ids;
pub mod math;
pub mod sums;
pub mod text;
