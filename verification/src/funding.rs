//! Campaigns and their per-campaign accounting.
//!
//! A funding records its target, expiry tick and lifecycle status, together
//! with the ordered list of distinct investors and the amount each has
//! contributed. `total_raised` is always the sum of the recorded
//! contributions, and `used_balance` — the amount already drawn down through
//! approved spending requests — never exceeds it.

use vstd::prelude::*;

verus! {

/// Lifecycle of a funding: it is created `Raising`, transitions exactly once
/// at its expiry tick, and never transitions again.
#[derive(Clone, Copy, PartialEq, Eq, Structural, Debug)]
pub enum FundingStatus {
    Raising,
    Successful,
    Failed,
}

/// One investor's cumulative contribution to one funding.
#[derive(Clone, Copy, PartialEq, Eq, Structural, Debug)]
pub struct Investment {
    pub investor: u64,
    pub amount: u64,
}

/// A crowdfunding campaign.
pub struct Funding {
    /// Unique identifier: its position in the registry.
    pub funding_id: u64,
    /// The account that created the funding and receives the raised money.
    pub manager: u64,
    pub project_name: Vec<u8>,
    pub target_money: u64,
    /// The tick at which the funding is swept.
    pub expiry: u64,
    pub status: FundingStatus,
    /// Distinct investors in order of first contribution.
    pub investments: Vec<Investment>,
    /// Sum of all recorded contributions.
    pub total_raised: u64,
    /// Amount drawn down from the escrow through approved requests.
    pub used_balance: u64,
}

/// The sum of all recorded contributions.
pub open spec fn inv_sum(s: Seq<Investment>) -> int
    decreases s.len(),
{
    if s.len() == 0 {
        0
    } else {
        inv_sum(s.drop_last()) + s.last().amount
    }
}

/// The contribution recorded for investor `a`, 0 if there is none.
pub open spec fn inv_amount_of(s: Seq<Investment>, a: u64) -> int
    decreases s.len(),
{
    if s.len() == 0 {
        0
    } else if s.last().investor == a {
        s.last().amount as int
    } else {
        inv_amount_of(s.drop_last(), a)
    }
}

pub open spec fn has_investor(s: Seq<Investment>, a: u64) -> bool {
    exists|i: int| 0 <= i < s.len() && s[i].investor == a
}

pub open spec fn investors_distinct(s: Seq<Investment>) -> bool {
    forall|i: int, j: int| 0 <= i < j < s.len() ==> s[i].investor != s[j].investor
}

impl Funding {
    /// Internal coherence of one funding's accounting.
    pub open spec fn wf(self) -> bool {
        &&& investors_distinct(self.investments@)
        &&& inv_sum(self.investments@) == self.total_raised
        &&& self.used_balance <= self.total_raised
        &&& self.status is Successful || self.used_balance == 0
    }

    /// How much money the ledger holds in escrow on this funding's behalf:
    /// while raising, everything contributed; once successful, what the
    /// manager has not yet drawn down; nothing after failure.
    pub open spec fn escrow(self) -> int {
        if self.status is Raising {
            self.total_raised as int
        } else if self.status is Successful {
            self.total_raised - self.used_balance
        } else {
            0
        }
    }

    /// The part of account `a`'s reserved balance that this funding claims:
    /// `a`'s contribution while the funding is raising, and the undrawn
    /// escrow if `a` manages a successful funding.
    pub open spec fn oblig_for(self, a: u64) -> int {
        (if self.status is Raising {
            inv_amount_of(self.investments@, a)
        } else {
            0
        }) + (if self.status is Successful && self.manager == a {
            self.total_raised - self.used_balance
        } else {
            0
        })
    }
}

pub proof fn lemma_inv_entries_nonneg(s: Seq<Investment>, a: u64)
    ensures
        inv_amount_of(s, a) >= 0,
    decreases s.len(),
{
    if s.len() > 0 {
        lemma_inv_entries_nonneg(s.drop_last(), a);
    }
}

pub proof fn lemma_inv_sum_nonneg(s: Seq<Investment>)
    ensures
        inv_sum(s) >= 0,
    decreases s.len(),
{
    if s.len() > 0 {
        lemma_inv_sum_nonneg(s.drop_last());
    }
}

/// With distinct investors, the entry at any index carrying `a` is the one
/// entry for `a`.
pub proof fn lemma_inv_at_index(s: Seq<Investment>, i: int)
    requires
        investors_distinct(s),
        0 <= i < s.len(),
    ensures
        inv_amount_of(s, s[i].investor) == s[i].amount,
    decreases s.len(),
{
    if i < s.len() - 1 {
        assert(s.last().investor != s[i].investor);
        assert(investors_distinct(s.drop_last()));
        lemma_inv_at_index(s.drop_last(), i);
    }
}

/// An account that never invested has no recorded contribution.
pub proof fn lemma_inv_absent(s: Seq<Investment>, a: u64)
    requires
        !has_investor(s, a),
    ensures
        inv_amount_of(s, a) == 0,
    decreases s.len(),
{
    if s.len() > 0 {
        assert(s.last().investor != a);
        assert(!has_investor(s.drop_last(), a)) by {
            assert(forall|i: int| 0 <= i < s.len() - 1 ==> s.drop_last()[i] == s[i]);
        }
        lemma_inv_absent(s.drop_last(), a);
    }
}

/// Replacing the entry at index `i` (keeping its investor) changes only that
/// investor's recorded contribution, and shifts the sum by the difference.
pub proof fn lemma_inv_update(s: Seq<Investment>, i: int, v: Investment)
    requires
        investors_distinct(s),
        0 <= i < s.len(),
        v.investor == s[i].investor,
    ensures
        investors_distinct(s.update(i, v)),
        inv_amount_of(s.update(i, v), v.investor) == v.amount,
        forall|b: u64|
            b != v.investor ==> inv_amount_of(s.update(i, v), b)
                == inv_amount_of(s, b),
        inv_sum(s.update(i, v)) == inv_sum(s) - s[i].amount + v.amount,
        forall|b: u64| has_investor(s.update(i, v), b) <==> has_investor(s, b),
    decreases s.len(),
{
    assert forall|b: u64| has_investor(s.update(i, v), b) <==> has_investor(
        s,
        b,
    ) by {
        let t = s.update(i, v);
        if has_investor(s, b) {
            let w = choose|w: int| 0 <= w < s.len() && s[w].investor == b;
            assert(t[w].investor == b);
        }
        if has_investor(t, b) {
            let w = choose|w: int| 0 <= w < t.len() && t[w].investor == b;
            assert(s[w].investor == b);
        }
    }
    let t = s.update(i, v);
    assert(investors_distinct(t));
    lemma_inv_at_index(t, i);
    if i == s.len() - 1 {
        assert(t.drop_last() =~= s.drop_last());
        assert forall|b: u64| b != v.investor implies inv_amount_of(t, b)
            == inv_amount_of(s, b) by {
            assert(t.last() == v);
            assert(s.last().investor == v.investor);
        }
    } else {
        assert(t.drop_last() =~= s.drop_last().update(i, v));
        assert(investors_distinct(s.drop_last()));
        lemma_inv_update(s.drop_last(), i, v);
        assert(t.last() == s.last());
        assert forall|b: u64| b != v.investor implies inv_amount_of(t, b)
            == inv_amount_of(s, b) by {
            assert(inv_amount_of(s.drop_last().update(i, v), b)
                == inv_amount_of(s.drop_last(), b));
        }
    }
}

/// Appending a first contribution by a new investor leaves every other
/// recorded contribution alone and grows the sum by the new amount.
pub proof fn lemma_inv_push_fresh(s: Seq<Investment>, v: Investment)
    requires
        investors_distinct(s),
        !has_investor(s, v.investor),
    ensures
        investors_distinct(s.push(v)),
        inv_amount_of(s.push(v), v.investor) == v.amount,
        forall|b: u64|
            b != v.investor ==> inv_amount_of(s.push(v), b)
                == inv_amount_of(s, b),
        inv_sum(s.push(v)) == inv_sum(s) + v.amount,
        forall|b: u64|
            has_investor(s.push(v), b) <==> (b == v.investor
                || has_investor(s, b)),
{
    assert forall|b: u64| has_investor(s.push(v), b) <==> (b == v.investor
        || has_investor(s, b)) by {
        let t = s.push(v);
        if has_investor(s, b) {
            let w = choose|w: int| 0 <= w < s.len() && s[w].investor == b;
            assert(t[w].investor == b);
        }
        if b == v.investor {
            assert(t[s.len() as int].investor == b);
        }
        if has_investor(t, b) {
            let w = choose|w: int| 0 <= w < t.len() && t[w].investor == b;
            if w < s.len() {
                assert(s[w].investor == b);
            }
        }
    }
    let t = s.push(v);
    assert(t.drop_last() =~= s);
    assert(t.last() == v);
    assert forall|i: int, j: int| 0 <= i < j < t.len() implies t[i].investor
        != t[j].investor by {
        if j == s.len() {
            assert(t[i] == s[i]);
        }
    }
}

/// One recorded contribution never exceeds the sum of all of them.
pub proof fn lemma_inv_le_sum(s: Seq<Investment>, a: u64)
    ensures
        inv_amount_of(s, a) <= inv_sum(s),
    decreases s.len(),
{
    if s.len() > 0 {
        lemma_inv_le_sum(s.drop_last(), a);
        lemma_inv_sum_nonneg(s.drop_last());
        lemma_inv_entries_nonneg(s.drop_last(), a);
    }
}

/// The escrow the whole registry claims from the ledger.
pub open spec fn escrow_sum(s: Seq<Funding>) -> int
    decreases s.len(),
{
    if s.len() == 0 {
        0
    } else {
        escrow_sum(s.drop_last()) + s.last().escrow()
    }
}

/// The part of account `a`'s reserved balance that the whole registry
/// claims.
pub open spec fn oblig_sum(s: Seq<Funding>, a: u64) -> int
    decreases s.len(),
{
    if s.len() == 0 {
        0
    } else {
        oblig_sum(s.drop_last(), a) + s.last().oblig_for(a)
    }
}

/// Escrow bookkeeping is pointwise: replacing one funding shifts the sums
/// by the difference of its terms.
pub proof fn lemma_funding_update(s: Seq<Funding>, i: int, f: Funding)
    requires
        0 <= i < s.len(),
    ensures
        escrow_sum(s.update(i, f)) == escrow_sum(s) - s[i].escrow() + f.escrow(),
        forall|a: u64|
            oblig_sum(s.update(i, f), a) == oblig_sum(s, a)
                - s[i].oblig_for(a) + f.oblig_for(a),
    decreases s.len(),
{
    let t = s.update(i, f);
    if i == s.len() - 1 {
        assert(t.drop_last() =~= s.drop_last());
        assert(t.last() == f);
    } else {
        assert(t.drop_last() =~= s.drop_last().update(i, f));
        lemma_funding_update(s.drop_last(), i, f);
        assert(t.last() == s.last());
        assert forall|a: u64| oblig_sum(t, a) == oblig_sum(s, a)
            - s[i].oblig_for(a) + f.oblig_for(a) by {
            assert(oblig_sum(s.drop_last().update(i, f), a)
                == oblig_sum(s.drop_last(), a) - s[i].oblig_for(a)
                    + f.oblig_for(a));
        }
    }
}

/// Registering one more funding grows the sums by its terms.
pub proof fn lemma_funding_push(s: Seq<Funding>, f: Funding)
    ensures
        escrow_sum(s.push(f)) == escrow_sum(s) + f.escrow(),
        forall|a: u64|
            oblig_sum(s.push(f), a) == oblig_sum(s, a) + f.oblig_for(a),
{
    assert(s.push(f).drop_last() =~= s);
    assert(s.push(f).last() == f);
}

/// As long as no funding has overdrawn its escrow, every term of the two
/// sums is nonnegative, so one term never exceeds the sum.
pub proof fn lemma_escrow_term_le_sum(s: Seq<Funding>, i: int)
    requires
        forall|j: int| 0 <= j < s.len() ==> s[j].used_balance <= s[j].total_raised,
        0 <= i < s.len(),
    ensures
        s[i].escrow() <= escrow_sum(s),
        escrow_sum(s) >= 0,
    decreases s.len(),
{
    assert(forall|j: int| 0 <= j < s.len() - 1 ==> s.drop_last()[j] == s[j]);
    lemma_escrow_sum_nonneg(s.drop_last());
    if i < s.len() - 1 {
        lemma_escrow_term_le_sum(s.drop_last(), i);
    }
}

pub proof fn lemma_escrow_sum_nonneg(s: Seq<Funding>)
    requires
        forall|j: int| 0 <= j < s.len() ==> s[j].used_balance <= s[j].total_raised,
    ensures
        escrow_sum(s) >= 0,
    decreases s.len(),
{
    if s.len() > 0 {
        assert(forall|j: int|
            0 <= j < s.len() - 1 ==> s.drop_last()[j] == s[j]);
        lemma_escrow_sum_nonneg(s.drop_last());
    }
}

pub proof fn lemma_oblig_sum_nonneg(s: Seq<Funding>, a: u64)
    requires
        forall|j: int| 0 <= j < s.len() ==> s[j].used_balance <= s[j].total_raised,
    ensures
        oblig_sum(s, a) >= 0,
    decreases s.len(),
{
    if s.len() > 0 {
        assert(forall|j: int|
            0 <= j < s.len() - 1 ==> s.drop_last()[j] == s[j]);
        lemma_oblig_sum_nonneg(s.drop_last(), a);
        lemma_inv_entries_nonneg(s.last().investments@, a);
    }
}

/// One funding's claim on `a` never exceeds the registry's whole claim.
pub proof fn lemma_oblig_term_le_sum(s: Seq<Funding>, i: int, a: u64)
    requires
        forall|j: int| 0 <= j < s.len() ==> s[j].used_balance <= s[j].total_raised,
        0 <= i < s.len(),
    ensures
        s[i].oblig_for(a) <= oblig_sum(s, a),
    decreases s.len(),
{
    assert(forall|j: int| 0 <= j < s.len() - 1 ==> s.drop_last()[j] == s[j]);
    lemma_oblig_sum_nonneg(s.drop_last(), a);
    lemma_inv_entries_nonneg(s.last().investments@, a);
    if i < s.len() - 1 {
        lemma_oblig_term_le_sum(s.drop_last(), i, a);
    }
}

/// With distinct investors, the investor at index `k` has no contribution
/// recorded in the prefix before `k`.
pub proof fn lemma_inv_prefix_absent(s: Seq<Investment>, k: int)
    requires
        investors_distinct(s),
        0 <= k < s.len(),
    ensures
        inv_amount_of(s.subrange(0, k), s[k].investor) == 0,
{
    let p = s.subrange(0, k);
    assert(!has_investor(p, s[k].investor)) by {
        assert(forall|i: int| 0 <= i < k ==> p[i] == s[i]);
    }
    lemma_inv_absent(p, s[k].investor);
}

} // verus!
