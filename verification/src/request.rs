//! Spending requests: owner-initiated partial spends of a successful
//! funding's escrow, gated by an investor majority vote.
//!
//! A request is created `Pending` by the funding's manager for a cost the
//! remaining escrow covers. Investors of the funding vote at most once
//! each; the vote that makes the count strictly exceed half of the investor
//! count approves the request immediately, releasing the cost from the
//! manager's escrow and adding it to the funding's drawn-down total. A
//! request still pending at its expiry tick is rejected by the request
//! sweep; an approved one is left untouched.

use vstd::prelude::*;

use crate::errors::Error;
use crate::funding::{
    has_investor, lemma_funding_update, lemma_oblig_term_le_sum, oblig_sum,
    Funding, FundingStatus,
};
use crate::ledger::{free_of, reserved_of};
use crate::platform::Platform;

verus! {

/// A request may be scheduled at most this many ticks ahead.
pub const REQUEST_PERIOD_LIMIT: u64 = 60480;

/// At most this many requests may expire at any one tick.
pub const MAX_REQUESTS_PER_TICK: u64 = 3;

/// Lifecycle of a spending request: created `Pending`, approved early once
/// enough votes arrive, or rejected at its expiry tick if still pending.
/// It never transitions again.
#[derive(Clone, Copy, PartialEq, Eq, Structural, Debug)]
pub enum RequestStatus {
    Pending,
    Approved,
    Rejected,
}

/// A spending request against a successful funding's escrow.
pub struct Request {
    /// Unique identifier: its position in the request registry.
    pub request_id: u64,
    /// The successful funding whose escrow the request draws on.
    pub funding_id: u64,
    pub purpose: Vec<u8>,
    /// The amount to release to the manager on approval.
    pub cost: u64,
    /// The tick at which a still-pending request is rejected.
    pub expiry: u64,
    pub status: RequestStatus,
    /// The distinct investors who have voted for the request, in voting
    /// order.
    pub voters: Vec<u64>,
}

pub open spec fn voters_distinct(s: Seq<u64>) -> bool {
    forall|i: int, j: int| 0 <= i < j < s.len() ==> s[i] != s[j]
}

/// What the request sweep reports for one rejected request.
#[derive(Clone, Copy, PartialEq, Eq, Structural, Debug)]
pub struct FinalizedRequest {
    pub request_id: u64,
    /// How many votes the request had gathered when it was rejected.
    pub supported: u64,
}

/// How many requests expire at tick `t`: the size of `t`'s schedule bucket.
pub open spec fn count_requests_expiring(s: Seq<Request>, t: u64) -> int
    decreases s.len(),
{
    if s.len() == 0 {
        0
    } else {
        count_requests_expiring(s.drop_last(), t)
            + if s.last().expiry == t { 1int } else { 0int }
    }
}

/// The identifiers of the requests expiring at tick `t`, in creation order.
pub open spec fn expiring_request_ids(s: Seq<Request>, t: u64) -> Seq<u64>
    decreases s.len(),
{
    if s.len() == 0 {
        Seq::empty()
    } else if s.last().expiry == t {
        expiring_request_ids(s.drop_last(), t).push(s.last().request_id)
    } else {
        expiring_request_ids(s.drop_last(), t)
    }
}

/// How many requests have been raised against funding `fid`.
pub open spec fn count_by_funding(s: Seq<Request>, fid: u64) -> int
    decreases s.len(),
{
    if s.len() == 0 {
        0
    } else {
        count_by_funding(s.drop_last(), fid)
            + if s.last().funding_id == fid { 1int } else { 0int }
    }
}

/// The identifier of the `k`-th request (in creation order) against
/// funding `fid`; 0 if there are at most `k` of them.
pub open spec fn nth_of_funding(s: Seq<Request>, fid: u64, k: int) -> u64
    decreases s.len(),
{
    if s.len() == 0 {
        0
    } else if s.last().funding_id == fid && count_by_funding(
        s.drop_last(),
        fid,
    ) == k {
        s.last().request_id
    } else {
        nth_of_funding(s.drop_last(), fid, k)
    }
}

pub proof fn lemma_count_by_funding_step(s: Seq<Request>, k: int, fid: u64)
    requires
        0 <= k < s.len(),
    ensures
        count_by_funding(s.subrange(0, k + 1), fid)
            == count_by_funding(s.subrange(0, k), fid)
                + if s[k].funding_id == fid { 1int } else { 0int },
{
    assert(s.subrange(0, k + 1).drop_last() =~= s.subrange(0, k));
    assert(s.subrange(0, k + 1).last() == s[k]);
}

pub proof fn lemma_count_by_funding_prefix_le(
    s: Seq<Request>,
    m: int,
    fid: u64,
)
    requires
        0 <= m <= s.len(),
    ensures
        count_by_funding(s.subrange(0, m), fid) <= count_by_funding(s, fid),
    decreases s.len(),
{
    if m == s.len() {
        assert(s.subrange(0, m) =~= s);
    } else {
        assert(s.subrange(0, m) =~= s.drop_last().subrange(0, m));
        lemma_count_by_funding_prefix_le(s.drop_last(), m, fid);
    }
}

/// The request at index `i` is the `k`-th of its funding, where `k` counts
/// that funding's requests created before it.
pub proof fn lemma_nth_of_funding_at(s: Seq<Request>, fid: u64, i: int)
    requires
        0 <= i < s.len(),
        s[i].funding_id == fid,
    ensures
        nth_of_funding(s, fid, count_by_funding(s.subrange(0, i), fid))
            == s[i].request_id,
    decreases s.len(),
{
    let k = count_by_funding(s.subrange(0, i), fid);
    if i == s.len() - 1 {
        assert(s.subrange(0, i) =~= s.drop_last());
    } else {
        assert(forall|j: int| 0 <= j < s.len() - 1 ==> s.drop_last()[j] == s[j]);
        assert(s.subrange(0, i) =~= s.drop_last().subrange(0, i));
        lemma_nth_of_funding_at(s.drop_last(), fid, i);
        if s.last().funding_id == fid && count_by_funding(s.drop_last(), fid)
            == k {
            lemma_count_by_funding_step(s, i, fid);
            lemma_count_by_funding_prefix_le(s.drop_last(), i + 1, fid);
            assert(s.subrange(0, i + 1) =~= s.drop_last().subrange(0, i + 1));
            assert(false);
        }
    }
}

/// There is no `k`-th request of a funding beyond its count.
pub proof fn lemma_nth_of_funding_missing(s: Seq<Request>, fid: u64, k: int)
    requires
        k >= count_by_funding(s, fid),
    ensures
        nth_of_funding(s, fid, k) == 0,
    decreases s.len(),
{
    if s.len() > 0 {
        lemma_count_by_funding_nonneg(s.drop_last(), fid);
        lemma_nth_of_funding_missing(s.drop_last(), fid, k);
    }
}

pub proof fn lemma_count_by_funding_nonneg(s: Seq<Request>, fid: u64)
    ensures
        count_by_funding(s, fid) >= 0,
    decreases s.len(),
{
    if s.len() > 0 {
        lemma_count_by_funding_nonneg(s.drop_last(), fid);
    }
}

/// Whether the request sweep at tick `t` rejects this request.
pub open spec fn rejected_at(r: Request, t: u64) -> bool {
    r.expiry == t && r.status is Pending
}

/// The outcomes the request sweep at tick `t` reports, in bucket order.
pub open spec fn reject_outcomes(s: Seq<Request>, t: u64) -> Seq<
    FinalizedRequest,
>
    decreases s.len(),
{
    if s.len() == 0 {
        Seq::empty()
    } else if rejected_at(s.last(), t) {
        reject_outcomes(s.drop_last(), t).push(FinalizedRequest {
            request_id: s.last().request_id,
            supported: s.last().voters@.len() as u64,
        })
    } else {
        reject_outcomes(s.drop_last(), t)
    }
}

pub proof fn lemma_request_prefix_step(s: Seq<Request>, k: int, t: u64)
    requires
        0 <= k < s.len(),
    ensures
        count_requests_expiring(s.subrange(0, k + 1), t)
            == count_requests_expiring(s.subrange(0, k), t)
                + if s[k].expiry == t { 1int } else { 0int },
        expiring_request_ids(s.subrange(0, k + 1), t) == if s[k].expiry == t {
            expiring_request_ids(s.subrange(0, k), t).push(s[k].request_id)
        } else {
            expiring_request_ids(s.subrange(0, k), t)
        },
        reject_outcomes(s.subrange(0, k + 1), t) == if rejected_at(s[k], t) {
            reject_outcomes(s.subrange(0, k), t).push(FinalizedRequest {
                request_id: s[k].request_id,
                supported: s[k].voters@.len() as u64,
            })
        } else {
            reject_outcomes(s.subrange(0, k), t)
        },
{
    assert(s.subrange(0, k + 1).drop_last() =~= s.subrange(0, k));
    assert(s.subrange(0, k + 1).last() == s[k]);
}

/// A new voter keeps the voter list duplicate-free.
pub proof fn lemma_voters_push_fresh(s: Seq<u64>, v: u64)
    requires
        voters_distinct(s),
        !s.contains(v),
    ensures
        voters_distinct(s.push(v)),
{
    let t = s.push(v);
    assert forall|i: int, j: int| 0 <= i < j < t.len() implies t[i]
        != t[j] by {
        if j == s.len() {
            assert(t[i] == s[i]);
            assert(s.contains(s[i]));
        }
    }
}

/// The rejection precedence of `create_request`.
pub open spec fn create_request_err(
    s: Platform,
    sender: u64,
    funding_id: u64,
    cost: u64,
    expiry: u64,
    now: u64,
) -> Option<Error> {
    let f = s.fundings@[funding_id as int];
    if s.fundings@.len() <= funding_id as int {
        Some(Error::FundingNotFound)
    } else if !(f.status is Successful) {
        Some(Error::FundingNotSuccessful)
    } else if f.manager != sender {
        Some(Error::NotOwner)
    } else if expiry <= now {
        Some(Error::InvalidExpiry)
    } else if expiry - now > REQUEST_PERIOD_LIMIT {
        Some(Error::InvalidExpiry)
    } else if f.total_raised - f.used_balance < cost {
        Some(Error::InsufficientRemaining)
    } else if count_requests_expiring(s.requests@, expiry)
        >= MAX_REQUESTS_PER_TICK {
        Some(Error::ScheduleFull)
    } else {
        None
    }
}

/// The rejection precedence of `support_request`.
pub open spec fn vote_err(
    s: Platform,
    sender: u64,
    request_id: u64,
    now: u64,
) -> Option<Error> {
    let r = s.requests@[request_id as int];
    if s.requests@.len() <= request_id as int {
        Some(Error::RequestNotFound)
    } else if !has_investor(
        s.fundings@[r.funding_id as int].investments@,
        sender,
    ) {
        Some(Error::NotInvestor)
    } else if r.voters@.contains(sender) {
        Some(Error::AlreadyVoted)
    } else if !(r.status is Pending) {
        Some(Error::RequestOver)
    } else if now >= r.expiry {
        Some(Error::RequestExpired)
    } else if r.voters@.len() + 1 > u64::MAX {
        Some(Error::Overflow)
    } else {
        None
    }
}

/// The vote count an accepted vote reaches, and the quorum it must
/// strictly exceed to approve the request: half the funding's investor
/// count, rounded down.
pub open spec fn vote_reaches_quorum(s: Platform, request_id: u64) -> bool {
    let r = s.requests@[request_id as int];
    let investors = s.fundings@[r.funding_id as int].investments@.len();
    r.voters@.len() + 1 > investors / 2
}

/// Whether the funding's remaining escrow still covers the request's cost
/// at approval time.
pub open spec fn approval_covered(s: Platform, request_id: u64) -> bool {
    let r = s.requests@[request_id as int];
    let f = s.fundings@[r.funding_id as int];
    f.total_raised - f.used_balance >= r.cost
}

/// What one accepted vote does to the state. The vote is always recorded;
/// the request is approved — the cost moves from the manager's escrow to
/// the manager's free balance and the funding's drawn-down total grows —
/// exactly when the new count strictly exceeds the quorum and the
/// remaining escrow covers the cost.
pub open spec fn vote_applied(
    pre: Platform,
    post: Platform,
    sender: u64,
    request_id: u64,
) -> bool {
    let rid = request_id as int;
    let r0 = pre.requests@[rid];
    let r1 = post.requests@[rid];
    let fid = r0.funding_id as int;
    let f0 = pre.fundings@[fid];
    let f1 = post.fundings@[fid];
    let approved = vote_reaches_quorum(pre, request_id) && approval_covered(
        pre,
        request_id,
    );
    &&& 0 <= rid < pre.requests@.len()
    &&& post.requests@.len() == pre.requests@.len()
    &&& forall|i: int|
        0 <= i < pre.requests@.len() && i != rid ==> post.requests@[i]
            == pre.requests@[i]
    &&& r1.request_id == r0.request_id
    &&& r1.funding_id == r0.funding_id
    &&& r1.purpose@ == r0.purpose@
    &&& r1.cost == r0.cost
    &&& r1.expiry == r0.expiry
    &&& r1.voters@ == r0.voters@.push(sender)
    &&& r1.status == if approved {
        RequestStatus::Approved
    } else {
        RequestStatus::Pending
    }
    &&& post.fundings@.len() == pre.fundings@.len()
    &&& forall|i: int|
        0 <= i < pre.fundings@.len() && i != fid ==> post.fundings@[i]
            == pre.fundings@[i]
    &&& f1 == Funding {
        used_balance: if approved {
            (f0.used_balance + r0.cost) as u64
        } else {
            f0.used_balance
        },
        ..f0
    }
    &&& if approved {
        &&& free_of(post.ledger.accounts@, f0.manager) == free_of(
            pre.ledger.accounts@,
            f0.manager,
        ) + r0.cost
        &&& reserved_of(post.ledger.accounts@, f0.manager) == reserved_of(
            pre.ledger.accounts@,
            f0.manager,
        ) - r0.cost
        &&& forall|b: u64|
            b != f0.manager ==> free_of(post.ledger.accounts@, b) == free_of(
                pre.ledger.accounts@,
                b,
            ) && reserved_of(post.ledger.accounts@, b) == reserved_of(
                pre.ledger.accounts@,
                b,
            )
    } else {
        post.ledger == pre.ledger
    }
    &&& post.ledger.total_issuance == pre.ledger.total_issuance
}

impl Platform {
    /// How many requests have ever been created.
    pub fn all_request_count(&self) -> (r: u64)
        ensures
            r == self.requests@.len(),
    {
        self.requests.len() as u64
    }

    /// How much of the funding's escrow has been drawn down through
    /// approved requests; 0 if the funding does not exist.
    pub fn used_money_of_funding(&self, funding_id: u64) -> (r: u64)
        ensures
            r == if (funding_id as int) < self.fundings@.len() {
                self.fundings@[funding_id as int].used_balance
            } else {
                0u64
            },
    {
        if funding_id < self.fundings.len() as u64 {
            self.fundings[funding_id as usize].used_balance
        } else {
            0
        }
    }

    /// How many requests have been raised against the funding.
    pub fn request_of_funding_count(&self, funding_id: u64) -> (r: u64)
        ensures
            r as int == count_by_funding(self.requests@, funding_id),
    {
        let n = self.requests.len();
        let mut count: u64 = 0;
        let mut k: usize = 0;
        while k < n
            invariant
                n == self.requests@.len(),
                k <= n,
                count as int == count_by_funding(
                    self.requests@.subrange(0, k as int),
                    funding_id,
                ),
                count <= k,
            decreases n - k,
        {
            proof {
                lemma_count_by_funding_step(
                    self.requests@,
                    k as int,
                    funding_id,
                );
            }
            if self.requests[k].funding_id == funding_id {
                count = count + 1;
            }
            k = k + 1;
        }
        proof {
            assert(self.requests@.subrange(0, n as int) =~= self.requests@);
        }
        count
    }

    /// The identifier of the `key.1`-th request (in creation order) raised
    /// against funding `key.0`; 0 if that funding has fewer requests.
    pub fn request_of_funding_by_index(&self, key: (u64, u64)) -> (r: u64)
        ensures
            r == nth_of_funding(self.requests@, key.0, key.1 as int),
    {
        let (funding_id, index) = key;
        let n = self.requests.len();
        let mut count: u64 = 0;
        let mut k: usize = 0;
        while k < n
            invariant
                n == self.requests@.len(),
                k <= n,
                funding_id == key.0,
                index == key.1,
                count as int == count_by_funding(
                    self.requests@.subrange(0, k as int),
                    funding_id,
                ),
                count <= index,
            decreases n - k,
        {
            proof {
                lemma_count_by_funding_step(
                    self.requests@,
                    k as int,
                    funding_id,
                );
            }
            if self.requests[k].funding_id == funding_id {
                if count == index {
                    proof {
                        lemma_nth_of_funding_at(
                            self.requests@,
                            funding_id,
                            k as int,
                        );
                    }
                    return self.requests[k].request_id;
                }
                count = count + 1;
            }
            k = k + 1;
        }
        proof {
            assert(self.requests@.subrange(0, n as int) =~= self.requests@);
            lemma_nth_of_funding_missing(
                self.requests@,
                funding_id,
                index as int,
            );
        }
        0
    }

    /// How many votes the request has gathered; 0 if it does not exist.
    pub fn supported_of_request(&self, request_id: u64) -> (r: u64)
        ensures
            r as int == if (request_id as int) < self.requests@.len() {
                self.requests@[request_id as int].voters@.len() as int
            } else {
                0int
            },
    {
        if request_id < self.requests.len() as u64 {
            self.requests[request_id as usize].voters.len() as u64
        } else {
            0
        }
    }

    /// Whether `key.0` has already voted on request `key.1`.
    pub fn voted_before(&self, key: (u64, u64)) -> (r: bool)
        ensures
            r <==> (key.1 as int) < self.requests@.len()
                && self.requests@[key.1 as int].voters@.contains(key.0),
    {
        let (sender, request_id) = key;
        if request_id >= self.requests.len() as u64 {
            return false;
        }
        contains_voter(&self.requests[request_id as usize].voters, sender)
    }

    /// The status code of a request: 0 while pending, 1 after approval,
    /// 2 after rejection; 0 if the request does not exist.
    pub fn request_status(&self, request_id: u64) -> (r: u64)
        ensures
            r == if (request_id as int) < self.requests@.len() {
                match self.requests@[request_id as int].status {
                    RequestStatus::Pending => 0u64,
                    RequestStatus::Approved => 1u64,
                    RequestStatus::Rejected => 2u64,
                }
            } else {
                0u64
            },
    {
        if request_id < self.requests.len() as u64 {
            match self.requests[request_id as usize].status {
                RequestStatus::Pending => 0,
                RequestStatus::Approved => 1,
                RequestStatus::Rejected => 2,
            }
        } else {
            0
        }
    }

    /// The schedule bucket for tick `t`: the identifiers of the requests
    /// expiring at `t`, in creation order.
    pub fn request_expire_at(&self, t: u64) -> (r: Vec<u64>)
        ensures
            r@ == expiring_request_ids(self.requests@, t),
    {
        let n = self.requests.len();
        let mut out: Vec<u64> = Vec::new();
        let mut k: usize = 0;
        while k < n
            invariant
                n == self.requests@.len(),
                k <= n,
                out@ == expiring_request_ids(
                    self.requests@.subrange(0, k as int),
                    t,
                ),
            decreases n - k,
        {
            proof {
                lemma_request_prefix_step(self.requests@, k as int, t);
            }
            if self.requests[k].expiry == t {
                out.push(self.requests[k].request_id);
            }
            k = k + 1;
        }
        proof {
            assert(self.requests@.subrange(0, n as int) =~= self.requests@);
        }
        out
    }

    /// The size of the request schedule bucket for tick `t`.
    fn count_expiring_requests(&self, t: u64) -> (r: u64)
        ensures
            r as int == count_requests_expiring(self.requests@, t),
    {
        let n = self.requests.len();
        let mut count: u64 = 0;
        let mut k: usize = 0;
        while k < n
            invariant
                n == self.requests@.len(),
                k <= n,
                count as int == count_requests_expiring(
                    self.requests@.subrange(0, k as int),
                    t,
                ),
                count <= k,
            decreases n - k,
        {
            proof {
                lemma_request_prefix_step(self.requests@, k as int, t);
            }
            if self.requests[k].expiry == t {
                count = count + 1;
            }
            k = k + 1;
        }
        proof {
            assert(self.requests@.subrange(0, n as int) =~= self.requests@);
        }
        count
    }

    /// Raise a spending request against a successful funding's escrow.
    /// Only the funding's manager may do so, for a cost the remaining
    /// escrow covers; no money moves yet.
    pub fn create_request(
        &mut self,
        sender: u64,
        funding_id: u64,
        purpose: Vec<u8>,
        cost: u64,
        expiry: u64,
        now: u64,
    ) -> (r: Result<u64, Error>)
        requires
            old(self).wf(),
        ensures
            final(self).wf(),
            match r {
                Ok(id) => {
                    &&& create_request_err(
                        *old(self),
                        sender,
                        funding_id,
                        cost,
                        expiry,
                        now,
                    ) is None
                    &&& id as int == old(self).requests@.len()
                    &&& final(self).requests@.len() == old(self).requests@.len() + 1
                    &&& forall|i: int|
                        0 <= i < old(self).requests@.len() ==> final(self).requests@[i] == old(self).requests@[i]
                    &&& ({
                        let q = final(self).requests@[id as int];
                        &&& q.request_id == id
                        &&& q.funding_id == funding_id
                        &&& q.purpose@ == purpose@
                        &&& q.cost == cost
                        &&& q.expiry == expiry
                        &&& q.status is Pending
                        &&& q.voters@.len() == 0
                    })
                    &&& count_by_funding(final(self).requests@, funding_id)
                        == count_by_funding(old(self).requests@, funding_id)
                            + 1
                    &&& nth_of_funding(
                        final(self).requests@,
                        funding_id,
                        count_by_funding(old(self).requests@, funding_id),
                    ) == id
                    &&& final(self).fundings@ == old(self).fundings@
                    &&& final(self).ledger == old(self).ledger
                },
                Err(e) => Some(e) == create_request_err(
                    *old(self),
                    sender,
                    funding_id,
                    cost,
                    expiry,
                    now,
                ) && *final(self) == *old(self),
            },
    {
        if funding_id >= self.fundings.len() as u64 {
            return Err(Error::FundingNotFound);
        }
        let status = self.is_funding_success(funding_id);
        if status != 1 {
            return Err(Error::FundingNotSuccessful);
        }
        if self.fundings[funding_id as usize].manager != sender {
            return Err(Error::NotOwner);
        }
        if expiry <= now {
            return Err(Error::InvalidExpiry);
        }
        if expiry - now > REQUEST_PERIOD_LIMIT {
            return Err(Error::InvalidExpiry);
        }
        let total = self.fundings[funding_id as usize].total_raised;
        let used = self.fundings[funding_id as usize].used_balance;
        proof {
            assert(self.fundings@[funding_id as int].wf());
        }
        if total - used < cost {
            return Err(Error::InsufficientRemaining);
        }
        let bucket = self.count_expiring_requests(expiry);
        if bucket >= MAX_REQUESTS_PER_TICK {
            return Err(Error::ScheduleFull);
        }
        let request_id = self.requests.len() as u64;
        // Identifiers are registry positions, so a fresh one can never
        // collide; the check mirrors the defensive contract of creation.
        if request_id < self.requests.len() as u64 {
            return Err(Error::DuplicateId);
        }
        let ghost pre = *self;
        let voters: Vec<u64> = Vec::new();
        self.requests.push(Request {
            request_id,
            funding_id,
            purpose,
            cost,
            expiry,
            status: RequestStatus::Pending,
            voters,
        });
        proof {
            assert forall|i: int| 0 <= i < self.requests@.len() implies {
                let q = #[trigger] self.requests@[i];
                &&& q.request_id as int == i
                &&& (q.funding_id as int) < self.fundings@.len()
                &&& self.fundings@[q.funding_id as int].status is Successful
                &&& voters_distinct(q.voters@)
            } by {
                if i < pre.requests@.len() {
                    assert(pre.requests_wf());
                    assert(pre.requests@[i].request_id as int == i);
                }
            }
            let n0 = pre.requests@.len() as int;
            assert(self.requests@.subrange(0, n0) =~= pre.requests@);
            lemma_nth_of_funding_at(self.requests@, funding_id, n0);
            lemma_count_by_funding_step(self.requests@, n0, funding_id);
            assert(self.requests@.subrange(0, n0 + 1) =~= self.requests@);
        }
        Ok(request_id)
    }

    /// Approve a pending request if its cost is still covered: release the
    /// cost from the manager's escrow to the manager's free balance and
    /// add it to the funding's drawn-down total.
    fn can_use_balance(&mut self, request_id: u64) -> (r: Result<(), Error>)
        requires
            old(self).wf(),
            (request_id as int) < old(self).requests@.len(),
            old(self).requests@[request_id as int].status is Pending,
        ensures
            final(self).wf(),
            ({
                let rid = request_id as int;
                let r0 = old(self).requests@[rid];
                let fid = r0.funding_id as int;
                let f0 = old(self).fundings@[fid];
                match r {
                    Ok(_) => {
                        &&& approval_covered(*old(self), request_id)
                        &&& final(self).requests@ == old(self).requests@.update(
                            rid,
                            Request {
                                status: RequestStatus::Approved,
                                ..r0
                            },
                        )
                        &&& final(self).fundings@ == old(self).fundings@.update(
                            fid,
                            Funding {
                                used_balance: (f0.used_balance
                                    + r0.cost) as u64,
                                ..f0
                            },
                        )
                        &&& free_of(final(self).ledger.accounts@, f0.manager)
                            == free_of(old(self).ledger.accounts@, f0.manager)
                                + r0.cost
                        &&& reserved_of(
                            final(self).ledger.accounts@,
                            f0.manager,
                        ) == reserved_of(
                            old(self).ledger.accounts@,
                            f0.manager,
                        ) - r0.cost
                        &&& forall|b: u64|
                            b != f0.manager ==> free_of(
                                final(self).ledger.accounts@,
                                b,
                            ) == free_of(old(self).ledger.accounts@, b)
                                && reserved_of(final(self).ledger.accounts@, b)
                                    == reserved_of(
                                    old(self).ledger.accounts@,
                                    b,
                                )
                        &&& final(self).ledger.total_issuance
                            == old(self).ledger.total_issuance
                    },
                    Err(e) => {
                        &&& e == Error::InsufficientRemaining
                        &&& !approval_covered(*old(self), request_id)
                        &&& *final(self) == *old(self)
                    },
                }
            }),
    {
        let rid = request_id as usize;
        proof {
            assert((request_id as int) < self.requests@.len());
        }
        let n = self.requests.len();
        proof {
            assert((request_id as int) < n as int);
        }
        let funding_id = self.requests[rid].funding_id;
        let cost = self.requests[rid].cost;
        proof {
            assert(self.requests_wf());
            assert(self.requests@[rid as int].request_id as int
                == rid as int);
        }
        let n_fundings = self.fundings.len();
        proof {
            assert((funding_id as int) < n_fundings as int);
        }
        let fi = funding_id as usize;
        let total = self.fundings[fi].total_raised;
        let used = self.fundings[fi].used_balance;
        proof {
            assert(self.fundings@[fi as int].wf());
        }
        if total - used < cost {
            return Err(Error::InsufficientRemaining);
        }
        let manager = self.fundings[fi].manager;
        let ghost pre = *self;
        proof {
            assert(forall|j: int|
                0 <= j < pre.fundings@.len() ==> (
                #[trigger] pre.fundings@[j]).used_balance
                    <= pre.fundings@[j].total_raised);
            lemma_oblig_term_le_sum(pre.fundings@, fi as int, manager);
            assert(pre.fundings@[fi as int].oblig_for(manager)
                >= total - used);
            assert(reserved_of(pre.ledger.accounts@, manager) >= cost);
        }
        self.ledger.unreserve(manager, cost);
        self.fundings[fi].used_balance = used + cost;
        self.requests[rid].status = RequestStatus::Approved;
        proof {
            let f0 = pre.fundings@[fi as int];
            let f1 = Funding {
                used_balance: (f0.used_balance + cost) as u64,
                ..f0
            };
            assert(self.fundings@ =~= pre.fundings@.update(fi as int, f1));
            assert(self.requests@ =~= pre.requests@.update(
                request_id as int,
                Request {
                    status: RequestStatus::Approved,
                    ..pre.requests@[request_id as int]
                },
            ));
            lemma_funding_update(pre.fundings@, fi as int, f1);
            assert(f1.oblig_for(manager) == f0.oblig_for(manager) - cost);
            assert forall|a: u64| #[trigger] reserved_of(
                self.ledger.accounts@,
                a,
            ) == oblig_sum(self.fundings@, a) by {
                assert(reserved_of(pre.ledger.accounts@, a) == oblig_sum(
                    pre.fundings@,
                    a,
                ));
                if a != manager {
                    assert(f1.oblig_for(a) == f0.oblig_for(a));
                }
            }
            assert forall|i: int| 0 <= i < self.fundings@.len() implies (
            #[trigger] self.fundings@[i]).funding_id as int == i
                && self.fundings@[i].wf() by {
                assert(pre.fundings@[i].funding_id as int == i
                    && pre.fundings@[i].wf());
            }
            assert forall|i: int| 0 <= i < self.requests@.len() implies {
                let q = #[trigger] self.requests@[i];
                &&& q.request_id as int == i
                &&& (q.funding_id as int) < self.fundings@.len()
                &&& self.fundings@[q.funding_id as int].status is Successful
                &&& voters_distinct(q.voters@)
            } by {
                assert(pre.requests_wf());
                assert(pre.requests@[i].request_id as int == i);
            }
        }
        Ok(())
    }

    /// Vote for a pending request. The vote is always recorded; if the new
    /// count strictly exceeds half the funding's investor count and the
    /// remaining escrow still covers the cost, the request is approved
    /// immediately.
    pub fn support_request(
        &mut self,
        sender: u64,
        request_id: u64,
        now: u64,
    ) -> (r: Result<(), Error>)
        requires
            old(self).wf(),
        ensures
            final(self).wf(),
            match r {
                Ok(_) => vote_err(*old(self), sender, request_id, now) is None
                    && vote_applied(
                    *old(self),
                    *final(self),
                    sender,
                    request_id,
                ),
                Err(e) => vote_err(*old(self), sender, request_id, now)
                    == Some(e) && *final(self) == *old(self),
            },
    {
        if request_id >= self.requests.len() as u64 {
            return Err(Error::RequestNotFound);
        }
        let rid = request_id as usize;
        let funding_id = self.requests[rid].funding_id;
        proof {
            assert(self.requests_wf());
            assert(self.requests@[rid as int].request_id as int
                == rid as int);
        }
        if !self.is_investor(funding_id, sender) {
            return Err(Error::NotInvestor);
        }
        if contains_voter(&self.requests[rid].voters, sender) {
            return Err(Error::AlreadyVoted);
        }
        let pending = self.requests[rid].status == RequestStatus::Pending;
        if !pending {
            return Err(Error::RequestOver);
        }
        if now >= self.requests[rid].expiry {
            return Err(Error::RequestExpired);
        }
        let supported = self.requests[rid].voters.len() as u64;
        if supported > u64::MAX - 1 {
            return Err(Error::Overflow);
        }
        let new_supported = supported + 1;
        let ghost pre = *self;
        proof {
            lemma_voters_push_fresh(
                pre.requests@[rid as int].voters@,
                sender,
            );
        }
        self.requests[rid].voters.push(sender);
        proof {
            assert(self.requests@ =~= pre.requests@.update(
                rid as int,
                Request {
                    voters: self.requests@[rid as int].voters,
                    ..pre.requests@[rid as int]
                },
            ));
            assert forall|i: int| 0 <= i < self.requests@.len() implies {
                let q = #[trigger] self.requests@[i];
                &&& q.request_id as int == i
                &&& (q.funding_id as int) < self.fundings@.len()
                &&& self.fundings@[q.funding_id as int].status is Successful
                &&& voters_distinct(q.voters@)
            } by {
                assert(pre.requests_wf());
                assert(pre.requests@[i].request_id as int == i);
            }
            assert(self.wf());
        }
        let investors = self.get_invested_number(funding_id);
        let half = investors / 2;
        if new_supported > half {
            let ghost mid = *self;
            let approved = self.can_use_balance(request_id);
            proof {
                assert(approval_covered(mid, request_id) == approval_covered(
                    pre,
                    request_id,
                ));
                if approved is Ok {
                    assert(vote_applied(pre, *self, sender, request_id));
                } else {
                    assert(*self == mid);
                    assert(vote_applied(pre, *self, sender, request_id));
                }
            }
        } else {
            proof {
                assert(!vote_reaches_quorum(pre, request_id));
                assert(vote_applied(pre, *self, sender, request_id));
            }
        }
        Ok(())
    }

    /// The request sweep for tick `now`: reject, in creation order, every
    /// request still pending whose expiry is `now`. A request already
    /// approved is left untouched. No money moves. Returns the rejection
    /// notifications in order.
    pub fn finalize_requests(&mut self, now: u64) -> (out: Vec<
        FinalizedRequest,
    >)
        requires
            old(self).wf(),
        ensures
            final(self).wf(),
            final(self).requests@.len() == old(self).requests@.len(),
            forall|i: int|
                0 <= i < old(self).requests@.len() ==> final(self).requests@[i]
                    == if rejected_at(#[trigger] old(self).requests@[i], now) {
                    Request {
                        status: RequestStatus::Rejected,
                        ..old(self).requests@[i]
                    }
                } else {
                    old(self).requests@[i]
                },
            final(self).fundings@ == old(self).fundings@,
            final(self).ledger == old(self).ledger,
            out@ == reject_outcomes(old(self).requests@, now),
    {
        let ghost pre = *self;
        let n = self.requests.len();
        let mut out: Vec<FinalizedRequest> = Vec::new();
        let mut k: usize = 0;
        while k < n
            invariant
                pre.wf(),
                n == pre.requests@.len(),
                k <= n,
                self.requests@.len() == n,
                forall|i: int|
                    k <= i < n ==> self.requests@[i] == pre.requests@[i],
                forall|i: int|
                    0 <= i < k ==> self.requests@[i] == if rejected_at(
                        #[trigger] pre.requests@[i],
                        now,
                    ) {
                        Request {
                            status: RequestStatus::Rejected,
                            ..pre.requests@[i]
                        }
                    } else {
                        pre.requests@[i]
                    },
                self.fundings@ == pre.fundings@,
                self.ledger == pre.ledger,
                out@ == reject_outcomes(
                    pre.requests@.subrange(0, k as int),
                    now,
                ),
            decreases n - k,
        {
            let ghost cur = *self;
            proof {
                lemma_request_prefix_step(pre.requests@, k as int, now);
            }
            let pending = self.requests[k].status == RequestStatus::Pending;
            if self.requests[k].expiry == now && pending {
                let id = self.requests[k].request_id;
                let supported = self.requests[k].voters.len() as u64;
                self.requests[k].status = RequestStatus::Rejected;
                out.push(FinalizedRequest {
                    request_id: id,
                    supported,
                });
                proof {
                    assert(self.requests@ =~= cur.requests@.update(
                        k as int,
                        Request {
                            status: RequestStatus::Rejected,
                            ..pre.requests@[k as int]
                        },
                    ));
                }
            }
            k = k + 1;
        }
        proof {
            assert(pre.requests@.subrange(0, n as int) =~= pre.requests@);
            assert forall|i: int| 0 <= i < self.requests@.len() implies {
                let q = #[trigger] self.requests@[i];
                &&& q.request_id as int == i
                &&& (q.funding_id as int) < self.fundings@.len()
                &&& self.fundings@[q.funding_id as int].status is Successful
                &&& voters_distinct(q.voters@)
            } by {
                assert(pre.requests_wf());
                assert(pre.requests@[i].request_id as int == i);
            }
        }
        out
    }
}

/// Whether `a` stands in the voter list.
fn contains_voter(voters: &Vec<u64>, a: u64) -> (r: bool)
    ensures
        r <==> voters@.contains(a),
{
    let n = voters.len();
    let mut k: usize = 0;
    while k < n
        invariant
            n == voters@.len(),
            k <= n,
            forall|j: int| 0 <= j < k ==> voters@[j] != a,
        decreases n - k,
    {
        if voters[k] == a {
            return true;
        }
        k = k + 1;
    }
    false
}

} // verus!
