//! The maturity sweep: tick-triggered finalization of fundings.
//!
//! At its expiry tick a raising funding transitions exactly once: to
//! `Successful` when it raised at least its target, otherwise to `Failed`.
//! On success every investor's escrow is released and forwarded to the
//! manager, who re-reserves the whole raised amount as the campaign's
//! spendable escrow; on failure every investor is refunded in full. The
//! escrow invariant guarantees each release and transfer is covered, so the
//! payout loop cannot fail partway through.

use vstd::prelude::*;

use crate::funding::{
    escrow_sum, inv_amount_of, inv_sum, lemma_funding_update, lemma_inv_at_index,
    lemma_inv_prefix_absent, lemma_inv_push_fresh, lemma_inv_sum_nonneg,
    lemma_oblig_term_le_sum, oblig_sum, Funding, FundingStatus,
};
use crate::ledger::{
    free_of, free_sum, lemma_entries_nonneg, reserved_of, reserved_sum,
};
use crate::platform::Platform;
use crate::request::voters_distinct;

verus! {

/// What the sweep decided for one funding: the notification the host
/// environment forwards to its sink.
#[derive(Clone, Copy, PartialEq, Eq, Structural, Debug)]
pub struct FinalizedFunding {
    pub funding_id: u64,
    /// The total the funding had raised when it was finalized.
    pub amount: u64,
    pub success: bool,
}

/// Whether the sweep at tick `t` picks this funding up.
pub open spec fn swept_at(f: Funding, t: u64) -> bool {
    f.expiry == t && f.status is Raising
}

/// A funding right after its transition.
pub open spec fn finalized(f: Funding) -> Funding {
    Funding {
        status: if f.total_raised >= f.target_money {
            FundingStatus::Successful
        } else {
            FundingStatus::Failed
        },
        ..f
    }
}

/// What the refund path of the sweep at tick `t` hands back to account
/// `a`'s free balance: its full contribution to every failing funding.
pub open spec fn refund_gain(s: Seq<Funding>, t: u64, a: u64) -> int
    decreases s.len(),
{
    if s.len() == 0 {
        0
    } else {
        refund_gain(s.drop_last(), t, a) + if swept_at(s.last(), t)
            && s.last().total_raised < s.last().target_money {
            inv_amount_of(s.last().investments@, a)
        } else {
            0
        }
    }
}

/// How much escrow the sweep at tick `t` releases from account `a`: its
/// full contribution to every swept funding.
pub open spec fn release_total(s: Seq<Funding>, t: u64, a: u64) -> int
    decreases s.len(),
{
    if s.len() == 0 {
        0
    } else {
        release_total(s.drop_last(), t, a) + if swept_at(s.last(), t) {
            inv_amount_of(s.last().investments@, a)
        } else {
            0
        }
    }
}

/// How much new escrow the sweep at tick `t` reserves under `a`: the whole
/// raised amount of every successful funding `a` manages.
pub open spec fn escrow_gain(s: Seq<Funding>, t: u64, a: u64) -> int
    decreases s.len(),
{
    if s.len() == 0 {
        0
    } else {
        escrow_gain(s.drop_last(), t, a) + if swept_at(s.last(), t)
            && s.last().total_raised >= s.last().target_money
            && s.last().manager == a {
            s.last().total_raised as int
        } else {
            0
        }
    }
}

/// The outcomes the sweep at tick `t` reports, in bucket order.
pub open spec fn sweep_outcomes(s: Seq<Funding>, t: u64) -> Seq<
    FinalizedFunding,
>
    decreases s.len(),
{
    if s.len() == 0 {
        Seq::empty()
    } else if swept_at(s.last(), t) {
        sweep_outcomes(s.drop_last(), t).push(FinalizedFunding {
            funding_id: s.last().funding_id,
            amount: s.last().total_raised,
            success: s.last().total_raised >= s.last().target_money,
        })
    } else {
        sweep_outcomes(s.drop_last(), t)
    }
}

/// All four sweep aggregates grow prefix by prefix.
pub proof fn lemma_sweep_prefix_step(s: Seq<Funding>, k: int, t: u64, a: u64)
    requires
        0 <= k < s.len(),
    ensures
        refund_gain(s.subrange(0, k + 1), t, a) == refund_gain(
            s.subrange(0, k),
            t,
            a,
        ) + if swept_at(s[k], t) && s[k].total_raised < s[k].target_money {
            inv_amount_of(s[k].investments@, a)
        } else {
            0
        },
        release_total(s.subrange(0, k + 1), t, a) == release_total(
            s.subrange(0, k),
            t,
            a,
        ) + if swept_at(s[k], t) {
            inv_amount_of(s[k].investments@, a)
        } else {
            0
        },
        escrow_gain(s.subrange(0, k + 1), t, a) == escrow_gain(
            s.subrange(0, k),
            t,
            a,
        ) + if swept_at(s[k], t) && s[k].total_raised >= s[k].target_money
            && s[k].manager == a {
            s[k].total_raised as int
        } else {
            0
        },
        sweep_outcomes(s.subrange(0, k + 1), t) == if swept_at(s[k], t) {
            sweep_outcomes(s.subrange(0, k), t).push(FinalizedFunding {
                funding_id: s[k].funding_id,
                amount: s[k].total_raised,
                success: s[k].total_raised >= s[k].target_money,
            })
        } else {
            sweep_outcomes(s.subrange(0, k), t)
        },
{
    assert(s.subrange(0, k + 1).drop_last() =~= s.subrange(0, k));
    assert(s.subrange(0, k + 1).last() == s[k]);
}

impl Platform {
    /// Finalize one raising funding: decide success or failure, release
    /// every investor's escrow and, on success, forward the contributions
    /// to the manager and re-reserve the raised total under the manager's
    /// identity. On failure every investor is refunded in full, so the
    /// funding ends with zero residual escrow.
    fn finalize_funding(&mut self, fi: usize) -> (out: FinalizedFunding)
        requires
            old(self).wf(),
            fi < old(self).fundings@.len(),
            old(self).fundings@[fi as int].status is Raising,
        ensures
            final(self).wf(),
            ({
                let f0 = old(self).fundings@[fi as int];
                let success = f0.total_raised >= f0.target_money;
                &&& final(self).fundings@ == old(self).fundings@.update(
                    fi as int,
                    finalized(f0),
                )
                &&& out == (FinalizedFunding {
                    funding_id: f0.funding_id,
                    amount: f0.total_raised,
                    success,
                })
                &&& forall|a: u64|
                    free_of(final(self).ledger.accounts@, a) == free_of(
                        old(self).ledger.accounts@,
                        a,
                    ) + if success {
                        0int
                    } else {
                        inv_amount_of(f0.investments@, a)
                    }
                &&& forall|a: u64|
                    reserved_of(final(self).ledger.accounts@, a)
                        == reserved_of(old(self).ledger.accounts@, a)
                        - inv_amount_of(f0.investments@, a) + if success && a
                        == f0.manager {
                        f0.total_raised as int
                    } else {
                        0int
                    }
                &&& free_sum(final(self).ledger.accounts@) == free_sum(
                    old(self).ledger.accounts@,
                ) + if success {
                    0int
                } else {
                    f0.total_raised as int
                }
                &&& reserved_sum(final(self).ledger.accounts@)
                    == reserved_sum(old(self).ledger.accounts@) - if success {
                    0int
                } else {
                    f0.total_raised as int
                }
            }),
            final(self).ledger.total_issuance
                == old(self).ledger.total_issuance,
            final(self).requests@ == old(self).requests@,
    {
        let ghost pre = *self;
        let ghost f0 = pre.fundings@[fi as int];
        let total = self.fundings[fi].total_raised;
        let target = self.fundings[fi].target_money;
        let manager = self.fundings[fi].manager;
        let funding_id = self.fundings[fi].funding_id;
        let success = total >= target;
        // The outcome is recorded before any money moves.
        self.fundings[fi].status = if success {
            FundingStatus::Successful
        } else {
            FundingStatus::Failed
        };
        let ghost f1 = finalized(f0);
        proof {
            assert(self.fundings@ =~= pre.fundings@.update(fi as int, f1));
            assert(f0.wf());
            assert(forall|j: int|
                0 <= j < pre.fundings@.len() ==> (
                #[trigger] pre.fundings@[j]).used_balance
                    <= pre.fundings@[j].total_raised);
            lemma_funding_update(pre.fundings@, fi as int, f1);
            lemma_inv_sum_nonneg(f0.investments@);
        }
        let ghost iv = f0.investments@;
        let m = self.fundings[fi].investments.len();
        let mut k: usize = 0;
        while k < m
            invariant
                pre.wf(),
                fi < pre.fundings@.len(),
                f0 == pre.fundings@[fi as int],
                f0.status is Raising,
                f0.wf(),
                iv == f0.investments@,
                f1 == finalized(f0),
                m == iv.len(),
                k <= m,
                total == f0.total_raised,
                manager == f0.manager,
                success == (f0.total_raised >= f0.target_money),
                self.fundings@ == pre.fundings@.update(fi as int, f1),
                self.requests@ == pre.requests@,
                self.ledger.wf(),
                self.ledger.total_issuance == pre.ledger.total_issuance,
                forall|a: u64|
                    #[trigger] reserved_of(self.ledger.accounts@, a)
                        == reserved_of(pre.ledger.accounts@, a)
                        - inv_amount_of(iv.subrange(0, k as int), a),
                forall|a: u64|
                    #[trigger] free_of(self.ledger.accounts@, a) == free_of(
                        pre.ledger.accounts@,
                        a,
                    ) + if success {
                        if a == manager {
                            inv_sum(iv.subrange(0, k as int))
                        } else {
                            0int
                        }
                    } else {
                        inv_amount_of(iv.subrange(0, k as int), a)
                    },
                free_sum(self.ledger.accounts@) == free_sum(
                    pre.ledger.accounts@,
                ) + inv_sum(iv.subrange(0, k as int)),
                reserved_sum(self.ledger.accounts@) == reserved_sum(
                    pre.ledger.accounts@,
                ) - inv_sum(iv.subrange(0, k as int)),
            decreases m - k,
        {
            let investor = self.fundings[fi].investments[k].investor;
            let c = self.fundings[fi].investments[k].amount;
            proof {
                assert(iv[k as int].investor == investor
                    && iv[k as int].amount == c);
                lemma_inv_at_index(iv, k as int);
                lemma_inv_prefix_absent(iv, k as int);
                lemma_inv_push_fresh(
                    iv.subrange(0, k as int),
                    iv[k as int],
                );
                assert(iv.subrange(0, k as int + 1) =~= iv.subrange(
                    0,
                    k as int,
                ).push(iv[k as int]));
                // The escrow invariant covers this investor's release.
                lemma_oblig_term_le_sum(pre.fundings@, fi as int, investor);
                assert(f0.oblig_for(investor) >= c);
                assert(reserved_of(self.ledger.accounts@, investor) >= c);
                lemma_entries_nonneg(self.ledger.accounts@, investor);
            }
            self.ledger.unreserve(investor, c);
            if success && investor != manager {
                self.ledger.transfer(investor, manager, c);
            }
            k = k + 1;
        }
        proof {
            assert(iv.subrange(0, m as int) =~= iv);
        }
        if success {
            proof {
                lemma_entries_nonneg(pre.ledger.accounts@, manager);
            }
            self.ledger.reserve(manager, total);
        }
        proof {
            self.lemma_after_finalize(pre, fi as int);
        }
        FinalizedFunding { funding_id, amount: total, success }
    }

    /// After the payout loop and the manager's re-reservation, the escrow
    /// invariant holds again.
    proof fn lemma_after_finalize(self, pre: Platform, fi: int)
        requires
            pre.wf(),
            0 <= fi < pre.fundings@.len(),
            pre.fundings@[fi].status is Raising,
            self.fundings@ == pre.fundings@.update(
                fi,
                finalized(pre.fundings@[fi]),
            ),
            self.requests@ == pre.requests@,
            self.ledger.wf(),
            ({
                let f0 = pre.fundings@[fi];
                let success = f0.total_raised >= f0.target_money;
                &&& forall|a: u64|
                    #[trigger] reserved_of(self.ledger.accounts@, a)
                        == reserved_of(pre.ledger.accounts@, a)
                        - inv_amount_of(f0.investments@, a) + if success && a
                        == f0.manager {
                        f0.total_raised as int
                    } else {
                        0int
                    }
                &&& forall|a: u64|
                    #[trigger] free_of(self.ledger.accounts@, a) == free_of(
                        pre.ledger.accounts@,
                        a,
                    ) + if success {
                        0int
                    } else {
                        inv_amount_of(f0.investments@, a)
                    }
                &&& reserved_sum(self.ledger.accounts@) == reserved_sum(
                    pre.ledger.accounts@,
                ) - if success {
                    0int
                } else {
                    f0.total_raised as int
                }
            }),
        ensures
            self.wf(),
    {
        let f0 = pre.fundings@[fi];
        let f1 = finalized(f0);
        let success = f0.total_raised >= f0.target_money;
        assert(f0.wf());
        lemma_funding_update(pre.fundings@, fi, f1);
        assert(f1.escrow() == if success {
            f0.total_raised as int
        } else {
            0int
        });
        assert forall|a: u64| #[trigger] reserved_of(self.ledger.accounts@, a)
            == oblig_sum(self.fundings@, a) by {
            assert(reserved_of(pre.ledger.accounts@, a) == oblig_sum(
                pre.fundings@,
                a,
            ));
            assert(f1.oblig_for(a) == f0.oblig_for(a) - inv_amount_of(
                f0.investments@,
                a,
            ) + if success && a == f0.manager {
                f0.total_raised as int
            } else {
                0int
            });
        }
        assert(escrow_sum(self.fundings@)
            == reserved_sum(self.ledger.accounts@));
        assert forall|i: int| 0 <= i < self.fundings@.len() implies (
        #[trigger] self.fundings@[i]).funding_id as int == i
            && self.fundings@[i].wf() by {
            assert(pre.fundings@[i].funding_id as int == i
                && pre.fundings@[i].wf());
        }
        assert forall|i: int| 0 <= i < self.requests@.len() implies {
            let r = #[trigger] self.requests@[i];
            &&& r.request_id as int == i
            &&& (r.funding_id as int) < self.fundings@.len()
            &&& self.fundings@[r.funding_id as int].status is Successful
            &&& voters_distinct(r.voters@)
        } by {
            assert(pre.requests_wf());
            assert(pre.requests@[i].request_id as int == i);
            let r = self.requests@[i];
            assert(pre.fundings@[r.funding_id as int].status is Successful);
            assert(r.funding_id as int != fi);
        }
    }

    /// The maturity sweep for tick `now`: finalize, in creation order,
    /// every funding still raising whose expiry is `now`. Returns the
    /// outcome notifications in the same order.
    pub fn finalize_fundings(&mut self, now: u64) -> (out: Vec<
        FinalizedFunding,
    >)
        requires
            old(self).wf(),
        ensures
            final(self).wf(),
            final(self).fundings@.len() == old(self).fundings@.len(),
            forall|i: int|
                0 <= i < old(self).fundings@.len() ==> final(self).fundings@[i]
                    == if swept_at(#[trigger] old(self).fundings@[i], now) {
                    finalized(old(self).fundings@[i])
                } else {
                    old(self).fundings@[i]
                },
            forall|a: u64|
                #[trigger] free_of(final(self).ledger.accounts@, a) == free_of(
                    old(self).ledger.accounts@,
                    a,
                ) + refund_gain(old(self).fundings@, now, a),
            forall|a: u64|
                #[trigger] reserved_of(final(self).ledger.accounts@, a)
                    == reserved_of(old(self).ledger.accounts@, a)
                    - release_total(old(self).fundings@, now, a) + escrow_gain(
                    old(self).fundings@,
                    now,
                    a,
                ),
            final(self).ledger.total_issuance
                == old(self).ledger.total_issuance,
            final(self).requests@ == old(self).requests@,
            out@ == sweep_outcomes(old(self).fundings@, now),
    {
        let ghost pre = *self;
        let n = self.fundings.len();
        let mut out: Vec<FinalizedFunding> = Vec::new();
        let mut k: usize = 0;
        while k < n
            invariant
                pre.wf(),
                n == pre.fundings@.len(),
                k <= n,
                self.wf(),
                self.fundings@.len() == n,
                forall|i: int|
                    k <= i < n ==> self.fundings@[i] == pre.fundings@[i],
                forall|i: int|
                    0 <= i < k ==> self.fundings@[i] == if swept_at(
                        #[trigger] pre.fundings@[i],
                        now,
                    ) {
                        finalized(pre.fundings@[i])
                    } else {
                        pre.fundings@[i]
                    },
                forall|a: u64|
                    #[trigger] free_of(self.ledger.accounts@, a) == free_of(
                        pre.ledger.accounts@,
                        a,
                    ) + refund_gain(pre.fundings@.subrange(0, k as int), now, a),
                forall|a: u64|
                    #[trigger] reserved_of(self.ledger.accounts@, a)
                        == reserved_of(pre.ledger.accounts@, a)
                        - release_total(
                        pre.fundings@.subrange(0, k as int),
                        now,
                        a,
                    ) + escrow_gain(
                        pre.fundings@.subrange(0, k as int),
                        now,
                        a,
                    ),
                self.ledger.total_issuance == pre.ledger.total_issuance,
                self.requests@ == pre.requests@,
                out@ == sweep_outcomes(
                    pre.fundings@.subrange(0, k as int),
                    now,
                ),
            decreases n - k,
        {
            let expiry = self.fundings[k].expiry;
            let is_raising = self.fundings[k].status
                == FundingStatus::Raising;
            if expiry == now && is_raising {
                let o = self.finalize_funding(k);
                out.push(o);
            }
            proof {
                lemma_sweep_prefix_step(pre.fundings@, k as int, now, 0);
                assert forall|a: u64| #[trigger] free_of(
                    self.ledger.accounts@,
                    a,
                ) == free_of(pre.ledger.accounts@, a) + refund_gain(
                    pre.fundings@.subrange(0, k as int + 1),
                    now,
                    a,
                ) by {
                    lemma_sweep_prefix_step(pre.fundings@, k as int, now, a);
                }
                assert forall|a: u64| #[trigger] reserved_of(
                    self.ledger.accounts@,
                    a,
                ) == reserved_of(pre.ledger.accounts@, a) - release_total(
                    pre.fundings@.subrange(0, k as int + 1),
                    now,
                    a,
                ) + escrow_gain(
                    pre.fundings@.subrange(0, k as int + 1),
                    now,
                    a,
                ) by {
                    lemma_sweep_prefix_step(pre.fundings@, k as int, now, a);
                }
            }
            k = k + 1;
        }
        proof {
            assert(pre.fundings@.subrange(0, n as int) =~= pre.fundings@);
        }
        out
    }
}

} // verus!
