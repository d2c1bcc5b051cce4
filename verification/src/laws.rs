//! Laws of the state machine: properties that relate several operations or
//! hold of every reachable state, stated over the same spec functions the
//! operations' contracts use.

use vstd::prelude::*;

use crate::funding::{inv_amount_of, inv_sum};
use crate::platform::{invest_applied, Platform};

verus! {

/// Repeated investment accumulates: two accepted investments by the same
/// investor into the same funding leave a single record holding `a + b`,
/// and grow the funding's total raised by `a + b`.
pub proof fn lemma_invest_accumulates(
    s0: Platform,
    s1: Platform,
    s2: Platform,
    investor: u64,
    funding_id: u64,
    a: u64,
    b: u64,
)
    requires
        invest_applied(s0, s1, investor, funding_id, a),
        invest_applied(s1, s2, investor, funding_id, b),
    ensures
        inv_amount_of(
            s2.fundings@[funding_id as int].investments@,
            investor,
        ) == inv_amount_of(
            s0.fundings@[funding_id as int].investments@,
            investor,
        ) + a + b,
        s2.fundings@[funding_id as int].total_raised
            == s0.fundings@[funding_id as int].total_raised + a + b,
        free_of_delta_is(s0, s2, investor, (a + b) as int),
{
}

/// Both investments came out of the investor's free balance.
pub open spec fn free_of_delta_is(
    pre: Platform,
    post: Platform,
    a: u64,
    delta: int,
) -> bool {
    crate::ledger::free_of(post.ledger.accounts@, a) == crate::ledger::free_of(
        pre.ledger.accounts@,
        a,
    ) - delta
}

/// In every well-formed state, no funding has drawn more out of its escrow
/// than it raised.
pub proof fn lemma_used_within_raised(s: Platform, i: int)
    requires
        s.wf(),
        0 <= i < s.fundings@.len(),
    ensures
        s.fundings@[i].used_balance <= s.fundings@[i].total_raised,
{
}

/// In every well-formed state, the recorded contributions of a funding sum
/// to exactly its total raised — so a full refund returns, investor by
/// investor, exactly what was contributed, and together exactly the total.
pub proof fn lemma_refunds_sum_to_raised(s: Platform, i: int)
    requires
        s.wf(),
        0 <= i < s.fundings@.len(),
    ensures
        inv_sum(s.fundings@[i].investments@)
            == s.fundings@[i].total_raised,
{
}

} // verus!
