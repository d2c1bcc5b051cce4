//! A crowdfunding ledger: campaigns ("fundings") collect escrowed
//! contributions from investors until an expiry tick, are swept at expiry to
//! either hand the raised funds to the campaign manager or refund the
//! investors, and, after success, let investors gate the manager's spending
//! through majority-vote requests.
//!
//! The crate is a deterministic state machine over plain values. The host
//! environment is expected to serialize calls and to trigger the two sweeps
//! once per tick; the current tick is always passed in explicitly.

pub mod errors;
pub mod funding;
pub mod laws;
pub mod ledger;
pub mod platform;
pub mod request;
pub mod sweep;
