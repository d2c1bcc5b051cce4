//! The funding registry and investment ledger.
//!
//! `Platform` owns the whole state of the machine: the balance ledger, the
//! registry of fundings (position in the registry doubles as the funding's
//! identifier) and the registry of spending requests. Its invariant `wf` ties
//! the ledger to the campaign accounting: every account's reserved balance is
//! exactly what the registry claims from it, and the registry's total escrow
//! equals the ledger's total reserves.
//!
//! The schedule index is kept implicitly: the fundings (or requests) expiring
//! at a tick are those whose `expiry` field names it, in creation order, and
//! creation refuses an expiry tick whose bucket is already at capacity.

use vstd::prelude::*;

use crate::errors::Error;
use crate::funding::{
    escrow_sum, has_investor, inv_amount_of, inv_sum, investors_distinct,
    lemma_escrow_term_le_sum, lemma_funding_push, lemma_funding_update,
    lemma_inv_absent, lemma_inv_at_index, lemma_inv_le_sum,
    lemma_inv_push_fresh, lemma_inv_update, oblig_sum,
    Funding, FundingStatus, Investment,
};
use crate::ledger::{
    free_of, free_sum, lemma_entry_le_sum, reserved_of, reserved_sum, Ledger,
};
use crate::request::{voters_distinct, Request};

verus! {

/// A funding may be scheduled at most this many ticks ahead.
pub const FUNDING_PERIOD_LIMIT: u64 = 777600;

/// At most this many fundings may expire at any one tick.
pub const MAX_FUNDINGS_PER_TICK: u64 = 3;

/// The whole state of the crowdfunding machine.
pub struct Platform {
    pub ledger: Ledger,
    pub fundings: Vec<Funding>,
    pub requests: Vec<Request>,
}

/// How many fundings `a` manages.
pub open spec fn count_by_manager(s: Seq<Funding>, a: u64) -> int
    decreases s.len(),
{
    if s.len() == 0 {
        0
    } else {
        count_by_manager(s.drop_last(), a)
            + if s.last().manager == a { 1int } else { 0int }
    }
}

/// How many fundings expire at tick `t`: the size of `t`'s schedule bucket.
pub open spec fn count_expiring(s: Seq<Funding>, t: u64) -> int
    decreases s.len(),
{
    if s.len() == 0 {
        0
    } else {
        count_expiring(s.drop_last(), t)
            + if s.last().expiry == t { 1int } else { 0int }
    }
}

/// The identifier of the `k`-th funding (in creation order) managed by
/// `a`; 0 if `a` manages at most `k` fundings.
pub open spec fn nth_owned(s: Seq<Funding>, a: u64, k: int) -> u64
    decreases s.len(),
{
    if s.len() == 0 {
        0
    } else if s.last().manager == a && count_by_manager(s.drop_last(), a) == k {
        s.last().funding_id
    } else {
        nth_owned(s.drop_last(), a, k)
    }
}

/// The identifiers of the fundings expiring at tick `t`, in creation order.
pub open spec fn expiring_ids(s: Seq<Funding>, t: u64) -> Seq<u64>
    decreases s.len(),
{
    if s.len() == 0 {
        Seq::empty()
    } else if s.last().expiry == t {
        expiring_ids(s.drop_last(), t).push(s.last().funding_id)
    } else {
        expiring_ids(s.drop_last(), t)
    }
}

impl Platform {
    /// Every funding sits at the position its identifier names and keeps
    /// its own accounting coherent.
    pub open spec fn fundings_wf(self) -> bool {
        forall|i: int|
            0 <= i < self.fundings@.len() ==> (#[trigger] self.fundings@[i])
                .funding_id as int == i && self.fundings@[i].wf()
    }

    /// Every request sits at the position its identifier names, points at a
    /// successful funding, and records each voter at most once.
    pub open spec fn requests_wf(self) -> bool {
        forall|i: int|
            0 <= i < self.requests@.len() ==> {
                let r = #[trigger] self.requests@[i];
                &&& r.request_id as int == i
                &&& (r.funding_id as int) < self.fundings@.len()
                &&& self.fundings@[r.funding_id as int].status
                    is Successful
                &&& voters_distinct(r.voters@)
            }
    }

    /// The ledger's escrow agrees with the registry's claims, account by
    /// account and in total.
    pub open spec fn escrow_coherent(self) -> bool {
        &&& forall|a: u64|
            #[trigger] reserved_of(self.ledger.accounts@, a)
                == oblig_sum(self.fundings@, a)
        &&& escrow_sum(self.fundings@)
            == reserved_sum(self.ledger.accounts@)
    }

    /// The machine's invariant, established by `new` and preserved by every
    /// operation.
    pub open spec fn wf(self) -> bool {
        &&& self.ledger.wf()
        &&& self.fundings_wf()
        &&& self.requests_wf()
        &&& self.escrow_coherent()
    }

    /// A fresh machine: no accounts, no fundings, no requests.
    pub fn new() -> (r: Platform)
        ensures
            r.wf(),
            r.fundings@.len() == 0,
            r.requests@.len() == 0,
            r.ledger.accounts@.len() == 0,
            r.ledger.total_issuance == 0,
    {
        Platform {
            ledger: Ledger::new(),
            fundings: Vec::new(),
            requests: Vec::new(),
        }
    }

    /// Issue `amount` new units of money to `a`'s free balance.
    pub fn deposit(&mut self, a: u64, amount: u64) -> (r: Result<(), Error>)
        requires
            old(self).wf(),
        ensures
            final(self).wf(),
            final(self).fundings@ == old(self).fundings@,
            final(self).requests@ == old(self).requests@,
            r is Ok <==> old(self).ledger.total_issuance + amount
                <= u64::MAX,
            r is Err ==> *final(self) == *old(self)
                && r == Err::<(), Error>(Error::Overflow),
            r is Ok ==> free_of(final(self).ledger.accounts@, a)
                == free_of(old(self).ledger.accounts@, a) + amount,
            r is Ok ==> forall|b: u64|
                b != a ==> free_of(final(self).ledger.accounts@, b)
                    == free_of(old(self).ledger.accounts@, b),
            forall|b: u64|
                reserved_of(final(self).ledger.accounts@, b)
                    == reserved_of(old(self).ledger.accounts@, b),
    {
        self.ledger.deposit(a, amount)
    }

    /// The spendable balance of `a`.
    pub fn free_balance(&self, a: u64) -> (r: u64)
        requires
            self.wf(),
        ensures
            r as int == free_of(self.ledger.accounts@, a),
    {
        self.ledger.free_balance(a)
    }

    /// The escrowed balance of `a`.
    pub fn reserved_balance(&self, a: u64) -> (r: u64)
        requires
            self.wf(),
        ensures
            r as int == reserved_of(self.ledger.accounts@, a),
    {
        self.ledger.reserved_balance(a)
    }

    /// Whether a funding with this identifier exists.
    pub fn is_funding_exists(&self, funding_id: u64) -> (r: bool)
        ensures
            r <==> (funding_id as int) < self.fundings@.len(),
    {
        funding_id < self.fundings.len() as u64
    }

    /// The status code of a funding: 0 while raising, 1 after success,
    /// 2 after failure; 0 if the funding does not exist.
    pub fn is_funding_success(&self, funding_id: u64) -> (r: u64)
        ensures
            r == if (funding_id as int) < self.fundings@.len() {
                match self.fundings@[funding_id as int].status {
                    FundingStatus::Raising => 0u64,
                    FundingStatus::Successful => 1u64,
                    FundingStatus::Failed => 2u64,
                }
            } else {
                0u64
            },
    {
        if funding_id < self.fundings.len() as u64 {
            match self.fundings[funding_id as usize].status {
                FundingStatus::Raising => 0,
                FundingStatus::Successful => 1,
                FundingStatus::Failed => 2,
            }
        } else {
            0
        }
    }

    /// The manager of a funding, if it exists.
    pub fn get_funding_owner(&self, funding_id: u64) -> (r: Option<u64>)
        ensures
            r == if (funding_id as int) < self.fundings@.len() {
                Some(self.fundings@[funding_id as int].manager)
            } else {
                None::<u64>
            },
    {
        if funding_id < self.fundings.len() as u64 {
            Some(self.fundings[funding_id as usize].manager)
        } else {
            None
        }
    }

    /// The manager of a funding, if it exists.
    pub fn owner_of(&self, funding_id: u64) -> (r: Option<u64>)
        ensures
            r == if (funding_id as int) < self.fundings@.len() {
                Some(self.fundings@[funding_id as int].manager)
            } else {
                None::<u64>
            },
    {
        self.get_funding_owner(funding_id)
    }

    /// The total amount a funding has raised; 0 if it does not exist.
    pub fn get_funding_total_balance(&self, funding_id: u64) -> (r: u64)
        ensures
            r == if (funding_id as int) < self.fundings@.len() {
                self.fundings@[funding_id as int].total_raised
            } else {
                0u64
            },
    {
        if funding_id < self.fundings.len() as u64 {
            self.fundings[funding_id as usize].total_raised
        } else {
            0
        }
    }

    /// Whether `from` has ever invested in the funding.
    pub fn is_investor(&self, funding_id: u64, from: u64) -> (r: bool)
        ensures
            r <==> (funding_id as int) < self.fundings@.len()
                && has_investor(
                self.fundings@[funding_id as int].investments@,
                from,
            ),
    {
        if funding_id >= self.fundings.len() as u64 {
            return false;
        }
        match find_investment(&self.fundings[funding_id as usize].investments, from) {
            Some(_) => true,
            None => false,
        }
    }

    /// How many distinct investors the funding has; 0 if it does not exist.
    pub fn get_invested_number(&self, funding_id: u64) -> (r: u64)
        ensures
            r as int == if (funding_id as int) < self.fundings@.len() {
                self.fundings@[funding_id as int].investments@.len() as int
            } else {
                0int
            },
    {
        if funding_id < self.fundings.len() as u64 {
            self.fundings[funding_id as usize].investments.len() as u64
        } else {
            0
        }
    }

    /// The cumulative contribution of `key.1` to funding `key.0`; 0 if
    /// there is none.
    pub fn invest_amount_of(&self, key: (u64, u64)) -> (r: u64)
        requires
            self.wf(),
        ensures
            r as int == if (key.0 as int) < self.fundings@.len() {
                inv_amount_of(self.fundings@[key.0 as int].investments@, key.1)
            } else {
                0int
            },
    {
        let (funding_id, investor) = key;
        if funding_id >= self.fundings.len() as u64 {
            return 0;
        }
        let invs = &self.fundings[funding_id as usize].investments;
        match find_investment(invs, investor) {
            Some(k) => {
                proof {
                    assert(self.fundings@[funding_id as int].wf());
                    lemma_inv_at_index(invs@, k as int);
                }
                invs[k].amount
            },
            None => {
                proof {
                    lemma_inv_absent(invs@, investor);
                }
                0
            },
        }
    }

    /// The funding's investor set, in order of first contribution; empty
    /// if the funding does not exist.
    pub fn invest_accounts(&self, funding_id: u64) -> (r: Vec<u64>)
        ensures
            r@ == if (funding_id as int) < self.fundings@.len() {
                self.fundings@[funding_id as int].investments@.map_values(
                    |v: Investment| v.investor,
                )
            } else {
                Seq::<u64>::empty()
            },
    {
        let mut out: Vec<u64> = Vec::new();
        if funding_id >= self.fundings.len() as u64 {
            proof {
                assert(out@ =~= Seq::<u64>::empty());
            }
            return out;
        }
        let invs = &self.fundings[funding_id as usize].investments;
        let n = invs.len();
        let mut k: usize = 0;
        while k < n
            invariant
                n == invs@.len(),
                k <= n,
                out@ =~= invs@.subrange(0, k as int).map_values(
                    |v: Investment| v.investor,
                ),
            decreases n - k,
        {
            out.push(invs[k].investor);
            proof {
                assert(out@ =~= invs@.subrange(0, k as int + 1).map_values(
                    |v: Investment| v.investor,
                ));
            }
            k = k + 1;
        }
        proof {
            assert(invs@.subrange(0, n as int) =~= invs@);
        }
        out
    }

    /// How many fundings have ever been created.
    pub fn all_funding_count(&self) -> (r: u64)
        ensures
            r == self.fundings@.len(),
    {
        self.fundings.len() as u64
    }

    /// How many fundings `owner` manages.
    pub fn owned_funding_count(&self, owner: u64) -> (r: u64)
        ensures
            r as int == count_by_manager(self.fundings@, owner),
    {
        let n = self.fundings.len();
        let mut count: u64 = 0;
        let mut k: usize = 0;
        while k < n
            invariant
                n == self.fundings@.len(),
                k <= n,
                count as int
                    == count_by_manager(self.fundings@.subrange(0, k as int), owner),
                count <= k,
            decreases n - k,
        {
            proof {
                lemma_count_by_manager_step(self.fundings@, k as int, owner);
            }
            if self.fundings[k].manager == owner {
                count = count + 1;
            }
            k = k + 1;
        }
        proof {
            assert(self.fundings@.subrange(0, n as int) =~= self.fundings@);
        }
        count
    }

    /// The identifier of the funding created `index`-th; 0 if there is no
    /// such funding.
    pub fn funding_by_index(&self, index: u64) -> (r: u64)
        ensures
            r == if (index as int) < self.fundings@.len() {
                self.fundings@[index as int].funding_id
            } else {
                0u64
            },
    {
        if index < self.fundings.len() as u64 {
            self.fundings[index as usize].funding_id
        } else {
            0
        }
    }

    /// The identifier of the `key.1`-th funding (in creation order) managed
    /// by `key.0`; 0 if that account manages fewer fundings.
    pub fn funding_of_owner_by_index(&self, key: (u64, u64)) -> (r: u64)
        ensures
            r == nth_owned(self.fundings@, key.0, key.1 as int),
    {
        let (owner, index) = key;
        let n = self.fundings.len();
        let mut count: u64 = 0;
        let mut k: usize = 0;
        while k < n
            invariant
                n == self.fundings@.len(),
                k <= n,
                owner == key.0,
                index == key.1,
                count as int
                    == count_by_manager(self.fundings@.subrange(0, k as int), owner),
                count <= index,
            decreases n - k,
        {
            proof {
                lemma_count_by_manager_step(self.fundings@, k as int, owner);
            }
            if self.fundings[k].manager == owner {
                if count == index {
                    proof {
                        lemma_nth_owned_at(
                            self.fundings@,
                            owner,
                            k as int,
                        );
                    }
                    return self.fundings[k].funding_id;
                }
                count = count + 1;
            }
            k = k + 1;
        }
        proof {
            assert(self.fundings@.subrange(0, n as int) =~= self.fundings@);
            lemma_nth_owned_missing(self.fundings@, owner, index as int);
        }
        0
    }

    /// The schedule bucket for tick `t`: the identifiers of the fundings
    /// expiring at `t`, in creation order.
    pub fn funding_expire_at(&self, t: u64) -> (r: Vec<u64>)
        ensures
            r@ == expiring_ids(self.fundings@, t),
    {
        let n = self.fundings.len();
        let mut out: Vec<u64> = Vec::new();
        let mut k: usize = 0;
        while k < n
            invariant
                n == self.fundings@.len(),
                k <= n,
                out@ == expiring_ids(self.fundings@.subrange(0, k as int), t),
            decreases n - k,
        {
            proof {
                lemma_expiring_ids_step(self.fundings@, k as int, t);
            }
            if self.fundings[k].expiry == t {
                out.push(self.fundings[k].funding_id);
            }
            k = k + 1;
        }
        proof {
            assert(self.fundings@.subrange(0, n as int) =~= self.fundings@);
        }
        out
    }

    /// The size of the schedule bucket for tick `t`.
    fn count_expiring_fundings(&self, t: u64) -> (r: u64)
        ensures
            r as int == count_expiring(self.fundings@, t),
    {
        let n = self.fundings.len();
        let mut count: u64 = 0;
        let mut k: usize = 0;
        while k < n
            invariant
                n == self.fundings@.len(),
                k <= n,
                count as int
                    == count_expiring(self.fundings@.subrange(0, k as int), t),
                count <= k,
            decreases n - k,
        {
            proof {
                lemma_count_expiring_step(self.fundings@, k as int, t);
            }
            if self.fundings[k].expiry == t {
                count = count + 1;
            }
            k = k + 1;
        }
        proof {
            assert(self.fundings@.subrange(0, n as int) =~= self.fundings@);
        }
        count
    }
}

/// Rejection precedence of one investment step, checked after existence and
/// self-investment: first the investor's funds, then the funding's window.
pub open spec fn invest_step_err(
    s: Platform,
    sender: u64,
    funding_id: u64,
    amount: u64,
    now: u64,
) -> Option<Error> {
    let f = s.fundings@[funding_id as int];
    if free_of(s.ledger.accounts@, sender) < amount {
        Some(Error::InsufficientBalance)
    } else if !(f.status is Raising) || now >= f.expiry {
        Some(Error::FundingExpired)
    } else {
        None
    }
}

/// The full rejection precedence of `invest`.
pub open spec fn invest_err(
    s: Platform,
    sender: u64,
    funding_id: u64,
    amount: u64,
    now: u64,
) -> Option<Error> {
    if s.fundings@.len() <= funding_id as int {
        Some(Error::FundingNotFound)
    } else if s.fundings@[funding_id as int].manager == sender {
        Some(Error::SelfInvestmentForbidden)
    } else {
        invest_step_err(s, sender, funding_id, amount, now)
    }
}

/// What one accepted investment of `amount` by `sender` does to the state:
/// the investor's record and the funding's total grow by `amount`, the same
/// amount moves from the investor's free balance into escrow, and nothing
/// else changes.
pub open spec fn invest_applied(
    pre: Platform,
    post: Platform,
    sender: u64,
    funding_id: u64,
    amount: u64,
) -> bool {
    let fid = funding_id as int;
    let f0 = pre.fundings@[fid];
    let f1 = post.fundings@[fid];
    &&& 0 <= fid < pre.fundings@.len()
    &&& post.fundings@.len() == pre.fundings@.len()
    &&& forall|i: int|
        0 <= i < pre.fundings@.len() && i != fid
            ==> post.fundings@[i] == pre.fundings@[i]
    &&& f1.funding_id == f0.funding_id
    &&& f1.manager == f0.manager
    &&& f1.project_name@ == f0.project_name@
    &&& f1.target_money == f0.target_money
    &&& f1.expiry == f0.expiry
    &&& f1.status == f0.status
    &&& f1.used_balance == f0.used_balance
    &&& f1.total_raised == f0.total_raised + amount
    &&& inv_amount_of(f1.investments@, sender)
        == inv_amount_of(f0.investments@, sender) + amount
    &&& forall|b: u64|
        b != sender ==> inv_amount_of(f1.investments@, b) == inv_amount_of(
            f0.investments@,
            b,
        )
    &&& forall|b: u64|
        has_investor(f1.investments@, b) <==> (b == sender || has_investor(
            f0.investments@,
            b,
        ))
    &&& f1.investments@.len() == f0.investments@.len() + (
    if has_investor(f0.investments@, sender) {
        0int
    } else {
        1int
    })
    &&& free_of(post.ledger.accounts@, sender)
        == free_of(pre.ledger.accounts@, sender) - amount
    &&& reserved_of(post.ledger.accounts@, sender)
        == reserved_of(pre.ledger.accounts@, sender) + amount
    &&& forall|b: u64|
        b != sender ==> free_of(post.ledger.accounts@, b) == free_of(
            pre.ledger.accounts@,
            b,
        ) && reserved_of(post.ledger.accounts@, b) == reserved_of(
            pre.ledger.accounts@,
            b,
        )
    &&& post.ledger.total_issuance == pre.ledger.total_issuance
    &&& post.requests@ == pre.requests@
}

/// The shape of a funding fresh out of `create_funding`.
pub open spec fn created_funding(
    f: Funding,
    funding_id: u64,
    sender: u64,
    project_name: Seq<u8>,
    target_money: u64,
    support_money: u64,
    expiry: u64,
) -> bool {
    &&& f.funding_id == funding_id
    &&& f.manager == sender
    &&& f.project_name@ == project_name
    &&& f.target_money == target_money
    &&& f.expiry == expiry
    &&& f.status is Raising
    &&& f.total_raised == support_money
    &&& f.used_balance == 0
    &&& inv_amount_of(f.investments@, sender) == support_money
    &&& forall|b: u64|
        has_investor(f.investments@, b) <==> (b == sender && support_money
            > 0)
    &&& f.investments@.len() == if support_money > 0 {
        1int
    } else {
        0int
    }
}

/// The rejection precedence of `create_funding`.
pub open spec fn create_funding_err(
    s: Platform,
    sender: u64,
    target_money: u64,
    support_money: u64,
    expiry: u64,
    now: u64,
) -> Option<Error> {
    if support_money > target_money {
        Some(Error::InvalidAmount)
    } else if expiry <= now {
        Some(Error::InvalidExpiry)
    } else if expiry - now > FUNDING_PERIOD_LIMIT {
        Some(Error::InvalidExpiry)
    } else if count_expiring(s.fundings@, expiry) >= MAX_FUNDINGS_PER_TICK {
        Some(Error::ScheduleFull)
    } else if support_money > 0 && free_of(s.ledger.accounts@, sender)
        < support_money {
        Some(Error::InsufficientBalance)
    } else {
        None
    }
}

impl Platform {
    /// Record a further contribution by an investor the funding already
    /// knows: the existing record accumulates.
    fn invest_before(
        &mut self,
        sender: u64,
        funding_id: u64,
        amount: u64,
        now: u64,
    ) -> (r: Result<(), Error>)
        requires
            old(self).wf(),
            (funding_id as int) < old(self).fundings@.len(),
            has_investor(
                old(self).fundings@[funding_id as int].investments@,
                sender,
            ),
        ensures
            final(self).wf(),
            match r {
                Ok(_) => invest_step_err(
                    *old(self),
                    sender,
                    funding_id,
                    amount,
                    now,
                ) is None && invest_applied(
                    *old(self),
                    *final(self),
                    sender,
                    funding_id,
                    amount,
                ),
                Err(e) => invest_step_err(
                    *old(self),
                    sender,
                    funding_id,
                    amount,
                    now,
                ) == Some(e) && *final(self) == *old(self),
            },
    {
        let n = self.fundings.len();
        proof {
            assert((funding_id as int) < (n as int));
        }
        let fi = funding_id as usize;
        let fb = self.ledger.free_balance(sender);
        if fb < amount {
            return Err(Error::InsufficientBalance);
        }
        let is_raising = self.fundings[fi].status == FundingStatus::Raising;
        if !is_raising || now >= self.fundings[fi].expiry {
            return Err(Error::FundingExpired);
        }
        let ghost pre = *self;
        proof {
            assert(pre.fundings@[fi as int].wf());
            assert(forall|j: int|
                0 <= j < pre.fundings@.len() ==> (
                #[trigger] pre.fundings@[j]).used_balance
                    <= pre.fundings@[j].total_raised);
            lemma_escrow_term_le_sum(pre.fundings@, fi as int);
            lemma_entry_le_sum(pre.ledger.accounts@, sender);
            lemma_inv_le_sum(pre.fundings@[fi as int].investments@, sender);
        }
        let k = match find_investment(&self.fundings[fi].investments, sender) {
            Some(k) => k,
            None => {
                proof {
                    assert(false);
                }
                return Err(Error::FundingNotFound);
            },
        };
        proof {
            lemma_inv_at_index(pre.fundings@[fi as int].investments@, k as int);
            lemma_inv_update(
                pre.fundings@[fi as int].investments@,
                k as int,
                Investment {
                    investor: sender,
                    amount: (pre.fundings@[fi as int].investments@[k as int]
                        .amount + amount) as u64,
                },
            );
        }
        self.ledger.reserve(sender, amount);
        let prev = self.fundings[fi].investments[k].amount;
        self.fundings[fi].investments[k] = Investment {
            investor: sender,
            amount: prev + amount,
        };
        let t = self.fundings[fi].total_raised;
        self.fundings[fi].total_raised = t + amount;
        proof {
            self.lemma_after_invest_record(pre, sender, funding_id, amount);
        }
        Ok(())
    }

    /// Record a first contribution: the investor joins the funding's
    /// investor set.
    fn not_invest_before(
        &mut self,
        sender: u64,
        funding_id: u64,
        amount: u64,
        now: u64,
    ) -> (r: Result<(), Error>)
        requires
            old(self).wf(),
            (funding_id as int) < old(self).fundings@.len(),
            !has_investor(
                old(self).fundings@[funding_id as int].investments@,
                sender,
            ),
        ensures
            final(self).wf(),
            match r {
                Ok(_) => invest_step_err(
                    *old(self),
                    sender,
                    funding_id,
                    amount,
                    now,
                ) is None && invest_applied(
                    *old(self),
                    *final(self),
                    sender,
                    funding_id,
                    amount,
                ),
                Err(e) => invest_step_err(
                    *old(self),
                    sender,
                    funding_id,
                    amount,
                    now,
                ) == Some(e) && *final(self) == *old(self),
            },
    {
        let n = self.fundings.len();
        proof {
            assert((funding_id as int) < (n as int));
        }
        let fi = funding_id as usize;
        let fb = self.ledger.free_balance(sender);
        if fb < amount {
            return Err(Error::InsufficientBalance);
        }
        let is_raising = self.fundings[fi].status == FundingStatus::Raising;
        if !is_raising || now >= self.fundings[fi].expiry {
            return Err(Error::FundingExpired);
        }
        let ghost pre = *self;
        proof {
            assert(pre.fundings@[fi as int].wf());
            assert(forall|j: int|
                0 <= j < pre.fundings@.len() ==> (
                #[trigger] pre.fundings@[j]).used_balance
                    <= pre.fundings@[j].total_raised);
            lemma_escrow_term_le_sum(pre.fundings@, fi as int);
            lemma_entry_le_sum(pre.ledger.accounts@, sender);
            lemma_inv_absent(pre.fundings@[fi as int].investments@, sender);
            lemma_inv_push_fresh(
                pre.fundings@[fi as int].investments@,
                Investment { investor: sender, amount: amount },
            );
        }
        self.ledger.reserve(sender, amount);
        self.fundings[fi].investments.push(Investment {
            investor: sender,
            amount: amount,
        });
        let t = self.fundings[fi].total_raised;
        self.fundings[fi].total_raised = t + amount;
        proof {
            self.lemma_after_invest_record(pre, sender, funding_id, amount);
        }
        Ok(())
    }

    /// After a reservation and a matching record update, the machine's
    /// invariant is restored and the step is exactly `invest_applied`.
    proof fn lemma_after_invest_record(
        self,
        pre: Platform,
        sender: u64,
        funding_id: u64,
        amount: u64,
    )
        requires
            pre.wf(),
            (funding_id as int) < pre.fundings@.len(),
            ({
                let fid = funding_id as int;
                let f0 = pre.fundings@[fid];
                let f1 = self.fundings@[fid];
                &&& self.fundings@.len() == pre.fundings@.len()
                &&& forall|i: int|
                    0 <= i < pre.fundings@.len() && i != fid
                        ==> self.fundings@[i] == pre.fundings@[i]
                &&& f1.funding_id == f0.funding_id
                &&& f1.manager == f0.manager
                &&& f1.project_name@ == f0.project_name@
                &&& f1.target_money == f0.target_money
                &&& f1.expiry == f0.expiry
                &&& f1.status == f0.status
                &&& f1.status is Raising
                &&& f1.used_balance == f0.used_balance
                &&& f1.total_raised == f0.total_raised + amount
                &&& investors_distinct(f1.investments@)
                &&& inv_sum(f1.investments@) == inv_sum(f0.investments@)
                    + amount
                &&& inv_amount_of(f1.investments@, sender) == inv_amount_of(
                    f0.investments@,
                    sender,
                ) + amount
                &&& forall|b: u64|
                    b != sender ==> inv_amount_of(f1.investments@, b)
                        == inv_amount_of(f0.investments@, b)
                &&& forall|b: u64|
                    has_investor(f1.investments@, b) <==> (b == sender
                        || has_investor(f0.investments@, b))
                &&& f1.investments@.len() == f0.investments@.len() + (
                if has_investor(f0.investments@, sender) {
                    0int
                } else {
                    1int
                })
            }),
            self.ledger.wf(),
            self.ledger.total_issuance == pre.ledger.total_issuance,
            free_of(self.ledger.accounts@, sender)
                == free_of(pre.ledger.accounts@, sender) - amount,
            reserved_of(self.ledger.accounts@, sender)
                == reserved_of(pre.ledger.accounts@, sender) + amount,
            forall|b: u64|
                b != sender ==> free_of(self.ledger.accounts@, b) == free_of(
                    pre.ledger.accounts@,
                    b,
                ) && reserved_of(self.ledger.accounts@, b) == reserved_of(
                    pre.ledger.accounts@,
                    b,
                ),
            free_sum(self.ledger.accounts@)
                == free_sum(pre.ledger.accounts@) - amount,
            reserved_sum(self.ledger.accounts@)
                == reserved_sum(pre.ledger.accounts@) + amount,
            self.requests@ == pre.requests@,
        ensures
            self.wf(),
            invest_applied(pre, self, sender, funding_id, amount),
    {
        let fid = funding_id as int;
        let f0 = pre.fundings@[fid];
        let f1 = self.fundings@[fid];
        assert(self.fundings@ =~= pre.fundings@.update(fid, f1));
        lemma_funding_update(pre.fundings@, fid, f1);
        assert(f1.oblig_for(sender) == f0.oblig_for(sender) + amount);
        assert(f1.escrow() == f0.escrow() + amount);
        assert forall|a: u64| #[trigger] reserved_of(self.ledger.accounts@, a)
            == oblig_sum(self.fundings@, a) by {
            if a == sender {
                assert(oblig_sum(self.fundings@, a) == oblig_sum(
                    pre.fundings@,
                    a,
                ) + amount);
            } else {
                assert(f1.oblig_for(a) == f0.oblig_for(a));
            }
        }
        assert(escrow_sum(self.fundings@)
            == reserved_sum(self.ledger.accounts@));
        assert forall|i: int| 0 <= i < self.fundings@.len() implies (
        #[trigger] self.fundings@[i]).funding_id as int == i
            && self.fundings@[i].wf() by {
            assert(pre.fundings@[i].funding_id as int == i
                && pre.fundings@[i].wf());
        }
        assert forall|i: int| 0 <= i < self.requests@.len() implies {
            let r = #[trigger] self.requests@[i];
            &&& r.request_id as int == i
            &&& (r.funding_id as int) < self.fundings@.len()
            &&& self.fundings@[r.funding_id as int].status is Successful
            &&& voters_distinct(r.voters@)
        } by {
            assert(pre.requests_wf());
            assert(pre.requests@[i].request_id as int == i);
            let r = self.requests@[i];
            if r.funding_id as int == fid {
                assert(f1.status == f0.status);
            }
        }
    }

    /// Register a freshly validated funding and book the creator's initial
    /// support. The caller has validated everything, so nothing can fail
    /// and no rollback is needed.
    fn mint(
        &mut self,
        sender: u64,
        funding_id: u64,
        project_name: Vec<u8>,
        target_money: u64,
        support_money: u64,
        expiry: u64,
        now: u64,
    )
        requires
            old(self).wf(),
            funding_id as int == old(self).fundings@.len(),
            support_money <= target_money,
            now < expiry,
            support_money > 0 ==> free_of(
                old(self).ledger.accounts@,
                sender,
            ) >= support_money,
        ensures
            final(self).wf(),
            final(self).fundings@.len() == old(self).fundings@.len() + 1,
            forall|i: int|
                0 <= i < old(self).fundings@.len() ==> final(self).fundings@[i]
                    == old(self).fundings@[i],
            created_funding(
                final(self).fundings@[funding_id as int],
                funding_id,
                sender,
                project_name@,
                target_money,
                support_money,
                expiry,
            ),
            count_by_manager(final(self).fundings@, sender)
                == count_by_manager(old(self).fundings@, sender) + 1,
            free_of(final(self).ledger.accounts@, sender)
                == free_of(old(self).ledger.accounts@, sender) - support_money,
            reserved_of(final(self).ledger.accounts@, sender)
                == reserved_of(old(self).ledger.accounts@, sender)
                    + support_money,
            forall|b: u64|
                b != sender ==> free_of(final(self).ledger.accounts@, b)
                    == free_of(old(self).ledger.accounts@, b) && reserved_of(
                    final(self).ledger.accounts@,
                    b,
                ) == reserved_of(old(self).ledger.accounts@, b),
            final(self).ledger.total_issuance
                == old(self).ledger.total_issuance,
            final(self).requests@ == old(self).requests@,
    {
        let ghost pre = *self;
        let investments: Vec<Investment> = Vec::new();
        let f = Funding {
            funding_id,
            manager: sender,
            project_name,
            target_money,
            expiry,
            status: FundingStatus::Raising,
            investments,
            total_raised: 0,
            used_balance: 0,
        };
        proof {
            lemma_funding_push(pre.fundings@, f);
            lemma_count_by_manager_push(pre.fundings@, f, sender);
        }
        self.fundings.push(f);
        proof {
            assert forall|a: u64| #[trigger] reserved_of(
                self.ledger.accounts@,
                a,
            ) == oblig_sum(self.fundings@, a) by {
                assert(reserved_of(pre.ledger.accounts@, a) == oblig_sum(
                    pre.fundings@,
                    a,
                ));
            }
            assert forall|i: int| 0 <= i < self.fundings@.len() implies (
            #[trigger] self.fundings@[i]).funding_id as int == i
                && self.fundings@[i].wf() by {
                if i < pre.fundings@.len() {
                    assert(pre.fundings@[i].funding_id as int == i
                        && pre.fundings@[i].wf());
                }
            }
            assert forall|i: int| 0 <= i < self.requests@.len() implies {
                let r = #[trigger] self.requests@[i];
                &&& r.request_id as int == i
                &&& (r.funding_id as int) < self.fundings@.len()
                &&& self.fundings@[r.funding_id as int].status is Successful
                &&& voters_distinct(r.voters@)
            } by {
                assert(pre.requests_wf());
                assert(pre.requests@[i].request_id as int == i);
            }
            assert(self.wf());
        }
        if support_money > 0 {
            let ghost mid = *self;
            let booked = self.not_invest_before(
                sender,
                funding_id,
                support_money,
                now,
            );
            proof {
                assert(invest_step_err(
                    mid,
                    sender,
                    funding_id,
                    support_money,
                    now,
                ) is None);
                if booked is Err {
                    assert(false);
                }
                lemma_count_by_manager_managers(mid.fundings@, self.fundings@, sender);
            }
        }
    }

    /// Create a funding: validate the request, assign the next identifier,
    /// register the campaign and book the creator's initial support as a
    /// self-investment. Validation precedes every mutation, so a rejected
    /// call leaves the state untouched.
    pub fn create_funding(
        &mut self,
        sender: u64,
        project_name: Vec<u8>,
        target_money: u64,
        support_money: u64,
        expiry: u64,
        now: u64,
    ) -> (r: Result<u64, Error>)
        requires
            old(self).wf(),
        ensures
            final(self).wf(),
            match r {
                Ok(id) => {
                    &&& create_funding_err(
                        *old(self),
                        sender,
                        target_money,
                        support_money,
                        expiry,
                        now,
                    ) is None
                    &&& id as int == old(self).fundings@.len()
                    &&& final(self).fundings@.len() == old(self).fundings@.len() + 1
                    &&& forall|i: int|
                        0 <= i < old(self).fundings@.len() ==> final(self).fundings@[i] == old(self).fundings@[i]
                    &&& created_funding(
                        final(self).fundings@[id as int],
                        id,
                        sender,
                        project_name@,
                        target_money,
                        support_money,
                        expiry,
                    )
                    &&& count_by_manager(final(self).fundings@, sender)
                        == count_by_manager(old(self).fundings@, sender) + 1
                    &&& nth_owned(
                        final(self).fundings@,
                        sender,
                        count_by_manager(old(self).fundings@, sender),
                    ) == id
                    &&& free_of(final(self).ledger.accounts@, sender)
                        == free_of(old(self).ledger.accounts@, sender)
                            - support_money
                    &&& reserved_of(final(self).ledger.accounts@, sender)
                        == reserved_of(old(self).ledger.accounts@, sender)
                            + support_money
                    &&& forall|b: u64|
                        b != sender ==> free_of(final(self).ledger.accounts@, b)
                            == free_of(old(self).ledger.accounts@, b)
                            && reserved_of(final(self).ledger.accounts@, b)
                                == reserved_of(old(self).ledger.accounts@, b)
                    &&& final(self).ledger.total_issuance
                        == old(self).ledger.total_issuance
                    &&& final(self).requests@ == old(self).requests@
                },
                Err(e) => Some(e) == create_funding_err(
                    *old(self),
                    sender,
                    target_money,
                    support_money,
                    expiry,
                    now,
                ) && *final(self) == *old(self),
            },
    {
        if support_money > target_money {
            return Err(Error::InvalidAmount);
        }
        if expiry <= now {
            return Err(Error::InvalidExpiry);
        }
        if expiry - now > FUNDING_PERIOD_LIMIT {
            return Err(Error::InvalidExpiry);
        }
        let bucket = self.count_expiring_fundings(expiry);
        if bucket >= MAX_FUNDINGS_PER_TICK {
            return Err(Error::ScheduleFull);
        }
        if support_money > 0 {
            let fb = self.ledger.free_balance(sender);
            if fb < support_money {
                return Err(Error::InsufficientBalance);
            }
        }
        let funding_id = self.fundings.len() as u64;
        // Identifiers are registry positions, so a fresh one can never
        // collide; the check mirrors the defensive contract of creation.
        if self.is_funding_exists(funding_id) {
            return Err(Error::DuplicateId);
        }
        self.mint(
            sender,
            funding_id,
            project_name,
            target_money,
            support_money,
            expiry,
            now,
        );
        proof {
            let n0 = old(self).fundings@.len() as int;
            assert(self.fundings@.subrange(0, n0) =~= old(self).fundings@);
            lemma_nth_owned_at(self.fundings@, sender, n0);
        }
        Ok(funding_id)
    }

    /// Invest `amount` into a funding: the amount is reserved from the
    /// investor's free balance and recorded; repeated investments
    /// accumulate. The funding's manager may not invest directly.
    pub fn invest(
        &mut self,
        sender: u64,
        funding_id: u64,
        amount: u64,
        now: u64,
    ) -> (r: Result<(), Error>)
        requires
            old(self).wf(),
        ensures
            final(self).wf(),
            match r {
                Ok(_) => invest_err(
                    *old(self),
                    sender,
                    funding_id,
                    amount,
                    now,
                ) is None && invest_applied(
                    *old(self),
                    *final(self),
                    sender,
                    funding_id,
                    amount,
                ),
                Err(e) => invest_err(
                    *old(self),
                    sender,
                    funding_id,
                    amount,
                    now,
                ) == Some(e) && *final(self) == *old(self),
            },
    {
        if funding_id >= self.fundings.len() as u64 {
            return Err(Error::FundingNotFound);
        }
        if self.fundings[funding_id as usize].manager == sender {
            return Err(Error::SelfInvestmentForbidden);
        }
        if self.is_investor(funding_id, sender) {
            self.invest_before(sender, funding_id, amount, now)
        } else {
            self.not_invest_before(sender, funding_id, amount, now)
        }
    }
}

/// Registering one more funding grows its manager's count by one.
pub proof fn lemma_count_by_manager_push(s: Seq<Funding>, f: Funding, a: u64)
    ensures
        count_by_manager(s.push(f), a) == count_by_manager(s, a)
            + if f.manager == a { 1int } else { 0int },
{
    assert(s.push(f).drop_last() =~= s);
    assert(s.push(f).last() == f);
}

/// The count by manager depends on the managers alone.
pub proof fn lemma_count_by_manager_managers(
    s1: Seq<Funding>,
    s2: Seq<Funding>,
    a: u64,
)
    requires
        s1.len() == s2.len(),
        forall|i: int| 0 <= i < s1.len() ==> s1[i].manager == s2[i].manager,
    ensures
        count_by_manager(s1, a) == count_by_manager(s2, a),
    decreases s1.len(),
{
    if s1.len() > 0 {
        assert(forall|i: int|
            0 <= i < s1.len() - 1 ==> s1.drop_last()[i] == s1[i]
                && s2.drop_last()[i] == s2[i]);
        lemma_count_by_manager_managers(s1.drop_last(), s2.drop_last(), a);
        assert(s1.last().manager == s2.last().manager);
    }
}

/// The index of `a`'s investment record, if there is one.
pub(crate) fn find_investment(invs: &Vec<Investment>, a: u64) -> (r: Option<
    usize,
>)
    ensures
        match r {
            Some(i) => i < invs@.len() && invs@[i as int].investor == a,
            None => !has_investor(invs@, a),
        },
{
    let n = invs.len();
    let mut k: usize = 0;
    while k < n
        invariant
            n == invs@.len(),
            k <= n,
            forall|j: int| 0 <= j < k ==> invs@[j].investor != a,
        decreases n - k,
    {
        if invs[k].investor == a {
            return Some(k);
        }
        k = k + 1;
    }
    None
}

/// Prefix counts grow one entry at a time.
pub proof fn lemma_count_by_manager_step(s: Seq<Funding>, k: int, a: u64)
    requires
        0 <= k < s.len(),
    ensures
        count_by_manager(s.subrange(0, k + 1), a)
            == count_by_manager(s.subrange(0, k), a)
                + if s[k].manager == a { 1int } else { 0int },
{
    assert(s.subrange(0, k + 1).drop_last() =~= s.subrange(0, k));
    assert(s.subrange(0, k + 1).last() == s[k]);
}

/// A prefix never counts more than the whole sequence.
pub proof fn lemma_count_by_manager_prefix_le(s: Seq<Funding>, m: int, a: u64)
    requires
        0 <= m <= s.len(),
    ensures
        count_by_manager(s.subrange(0, m), a) <= count_by_manager(s, a),
    decreases s.len(),
{
    if m == s.len() {
        assert(s.subrange(0, m) =~= s);
    } else {
        assert(s.subrange(0, m) =~= s.drop_last().subrange(0, m));
        lemma_count_by_manager_prefix_le(s.drop_last(), m, a);
    }
}

/// The funding at index `i` is the `k`-th of its manager, where `k` is the
/// number of that manager's fundings created before it.
pub proof fn lemma_nth_owned_at(s: Seq<Funding>, a: u64, i: int)
    requires
        0 <= i < s.len(),
        s[i].manager == a,
    ensures
        nth_owned(s, a, count_by_manager(s.subrange(0, i), a))
            == s[i].funding_id,
    decreases s.len(),
{
    let k = count_by_manager(s.subrange(0, i), a);
    if i == s.len() - 1 {
        assert(s.subrange(0, i) =~= s.drop_last());
    } else {
        assert(forall|j: int| 0 <= j < s.len() - 1 ==> s.drop_last()[j] == s[j]);
        assert(s.subrange(0, i) =~= s.drop_last().subrange(0, i));
        lemma_nth_owned_at(s.drop_last(), a, i);
        if s.last().manager == a && count_by_manager(s.drop_last(), a) == k {
            lemma_count_by_manager_step(s, i, a);
            lemma_count_by_manager_prefix_le(s.drop_last(), i + 1, a);
            assert(s.subrange(0, i + 1) =~= s.drop_last().subrange(0, i + 1));
            assert(false);
        }
    }
}

/// There is no `k`-th funding of `a` beyond `a`'s count.
pub proof fn lemma_nth_owned_missing(s: Seq<Funding>, a: u64, k: int)
    requires
        k >= count_by_manager(s, a),
    ensures
        nth_owned(s, a, k) == 0,
    decreases s.len(),
{
    if s.len() > 0 {
        lemma_count_by_manager_nonneg(s.drop_last(), a);
        lemma_nth_owned_missing(s.drop_last(), a, k);
    }
}

pub proof fn lemma_count_by_manager_nonneg(s: Seq<Funding>, a: u64)
    ensures
        count_by_manager(s, a) >= 0,
    decreases s.len(),
{
    if s.len() > 0 {
        lemma_count_by_manager_nonneg(s.drop_last(), a);
    }
}

pub proof fn lemma_count_expiring_step(s: Seq<Funding>, k: int, t: u64)
    requires
        0 <= k < s.len(),
    ensures
        count_expiring(s.subrange(0, k + 1), t)
            == count_expiring(s.subrange(0, k), t)
                + if s[k].expiry == t { 1int } else { 0int },
{
    assert(s.subrange(0, k + 1).drop_last() =~= s.subrange(0, k));
    assert(s.subrange(0, k + 1).last() == s[k]);
}

pub proof fn lemma_expiring_ids_step(s: Seq<Funding>, k: int, t: u64)
    requires
        0 <= k < s.len(),
    ensures
        expiring_ids(s.subrange(0, k + 1), t)
            == if s[k].expiry == t {
                expiring_ids(s.subrange(0, k), t).push(s[k].funding_id)
            } else {
                expiring_ids(s.subrange(0, k), t)
            },
{
    assert(s.subrange(0, k + 1).drop_last() =~= s.subrange(0, k));
    assert(s.subrange(0, k + 1).last() == s[k]);
}

} // verus!
