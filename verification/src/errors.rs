use vstd::prelude::*;

verus! {

/// Why a call was rejected. Every rejection is synchronous and leaves the
/// whole state untouched; the caller may retry with corrected input.
#[derive(Clone, Copy, PartialEq, Eq, Structural, Debug)]
pub enum Error {
    /// A freshly generated identifier is already taken.
    DuplicateId,
    /// The initial support offered at creation exceeds the target amount.
    InvalidAmount,
    /// An expiry tick not strictly ahead of the current tick, or further
    /// ahead than the allowed horizon.
    InvalidExpiry,
    /// The schedule bucket for the requested expiry tick is at capacity.
    ScheduleFull,
    /// The named funding does not exist.
    FundingNotFound,
    /// The manager of a funding may not invest in it directly.
    SelfInvestmentForbidden,
    /// The funding is no longer raising funds.
    FundingExpired,
    /// Not enough free balance to cover a reservation.
    InsufficientBalance,
    /// Spending requests may only be raised against a successful funding.
    FundingNotSuccessful,
    /// Only the funding's manager may raise a spending request.
    NotOwner,
    /// The funding's remaining escrow does not cover the request's cost.
    InsufficientRemaining,
    /// The named request does not exist.
    RequestNotFound,
    /// Only investors of the underlying funding may vote.
    NotInvestor,
    /// Each investor votes at most once per request.
    AlreadyVoted,
    /// The request has already been approved or rejected.
    RequestOver,
    /// The request's expiry tick has passed.
    RequestExpired,
    /// A counter or balance would exceed its machine bound.
    Overflow,
}

} // verus!
