//! Capital-gains accounting over a brokerage account's trade history.
//!
//! The crate has two verified components. The fetch planner slices the time
//! span between an account's start and "now" into bounded windows suitable
//! for a range-limited history endpoint, and collects the trade records that
//! each window returns, keeping only buys and sells. The ledger consumes the
//! collected records in order, tracks one adjusted-cost-base position per
//! symbol, and accumulates the realized gain of every sale under the calendar
//! year of its settlement date.
//!
//! Network transport and credential handling live outside the crate; callers
//! hand in plain values (an epoch timestamp for "now", decoded pages of
//! records) and receive plain values back.

pub mod dates;
pub mod fetch;
pub mod ledger;
pub mod records;
