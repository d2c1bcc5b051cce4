//! The balance ledger: per-account free and reserved (escrowed) funds.
//!
//! This is the collaborator that owns raw balance storage. Reserving moves
//! funds from an account's free balance into its escrow, unreserving moves
//! them back, and transfers move free funds between accounts. The ledger
//! conserves money: the sum of all free and reserved balances always equals
//! the total issuance, so no balance operation can overflow.

use vstd::prelude::*;

use crate::errors::Error;

verus! {

/// One account: its spendable (`free`) and escrowed (`reserved`) funds.
#[derive(Clone, Copy, PartialEq, Eq, Structural, Debug)]
pub struct Account {
    pub account_id: u64,
    pub free: u64,
    pub reserved: u64,
}

/// The balance ledger. Accounts are created lazily, the first time money
/// reaches them.
pub struct Ledger {
    pub accounts: Vec<Account>,
    /// The total amount of money ever deposited: the invariant ties it to
    /// the sum of all account balances.
    pub total_issuance: u64,
}

/// The free balance of account `a`, 0 if the account does not exist.
pub open spec fn free_of(s: Seq<Account>, a: u64) -> int
    decreases s.len(),
{
    if s.len() == 0 {
        0
    } else if s.last().account_id == a {
        s.last().free as int
    } else {
        free_of(s.drop_last(), a)
    }
}

/// The reserved balance of account `a`, 0 if the account does not exist.
pub open spec fn reserved_of(s: Seq<Account>, a: u64) -> int
    decreases s.len(),
{
    if s.len() == 0 {
        0
    } else if s.last().account_id == a {
        s.last().reserved as int
    } else {
        reserved_of(s.drop_last(), a)
    }
}

/// The sum of all free balances.
pub open spec fn free_sum(s: Seq<Account>) -> int
    decreases s.len(),
{
    if s.len() == 0 {
        0
    } else {
        free_sum(s.drop_last()) + s.last().free
    }
}

/// The sum of all reserved balances.
pub open spec fn reserved_sum(s: Seq<Account>) -> int
    decreases s.len(),
{
    if s.len() == 0 {
        0
    } else {
        reserved_sum(s.drop_last()) + s.last().reserved
    }
}

pub open spec fn has_account(s: Seq<Account>, a: u64) -> bool {
    exists|i: int| 0 <= i < s.len() && s[i].account_id == a
}

pub open spec fn accounts_distinct(s: Seq<Account>) -> bool {
    forall|i: int, j: int|
        0 <= i < j < s.len() ==> s[i].account_id != s[j].account_id
}

impl Ledger {
    /// Account identifiers are unique and money is conserved.
    pub open spec fn wf(self) -> bool {
        &&& accounts_distinct(self.accounts@)
        &&& free_sum(self.accounts@) + reserved_sum(self.accounts@)
            == self.total_issuance
    }
}

pub proof fn lemma_entries_nonneg(s: Seq<Account>, a: u64)
    ensures
        free_of(s, a) >= 0,
        reserved_of(s, a) >= 0,
    decreases s.len(),
{
    if s.len() > 0 {
        lemma_entries_nonneg(s.drop_last(), a);
    }
}

pub proof fn lemma_sums_nonneg(s: Seq<Account>)
    ensures
        free_sum(s) >= 0,
        reserved_sum(s) >= 0,
    decreases s.len(),
{
    if s.len() > 0 {
        lemma_sums_nonneg(s.drop_last());
    }
}

/// With distinct identifiers, the entry at any index carrying `a` is the
/// ledger's one entry for `a`.
pub proof fn lemma_entry_at_index(s: Seq<Account>, i: int)
    requires
        accounts_distinct(s),
        0 <= i < s.len(),
    ensures
        free_of(s, s[i].account_id) == s[i].free,
        reserved_of(s, s[i].account_id) == s[i].reserved,
    decreases s.len(),
{
    let a = s[i].account_id;
    if i == s.len() - 1 {
    } else {
        assert(s.last().account_id != a);
        assert(accounts_distinct(s.drop_last()));
        lemma_entry_at_index(s.drop_last(), i);
    }
}

/// An absent account has zero balances.
pub proof fn lemma_entry_absent(s: Seq<Account>, a: u64)
    requires
        !has_account(s, a),
    ensures
        free_of(s, a) == 0,
        reserved_of(s, a) == 0,
    decreases s.len(),
{
    if s.len() > 0 {
        assert(s.last().account_id != a);
        assert(!has_account(s.drop_last(), a)) by {
            assert(forall|i: int|
                0 <= i < s.len() - 1 ==> s.drop_last()[i] == s[i]);
        }
        lemma_entry_absent(s.drop_last(), a);
    }
}

/// Replacing the entry at index `i` (keeping its identifier) changes only
/// that account's balances, and shifts the two sums by the difference.
pub proof fn lemma_update(s: Seq<Account>, i: int, acc: Account)
    requires
        accounts_distinct(s),
        0 <= i < s.len(),
        acc.account_id == s[i].account_id,
    ensures
        accounts_distinct(s.update(i, acc)),
        free_of(s.update(i, acc), acc.account_id) == acc.free,
        reserved_of(s.update(i, acc), acc.account_id) == acc.reserved,
        forall|b: u64|
            b != acc.account_id ==> free_of(s.update(i, acc), b) == free_of(s, b)
                && reserved_of(s.update(i, acc), b) == reserved_of(s, b),
        free_sum(s.update(i, acc)) == free_sum(s) - s[i].free + acc.free,
        reserved_sum(s.update(i, acc)) == reserved_sum(s) - s[i].reserved
            + acc.reserved,
    decreases s.len(),
{
    let t = s.update(i, acc);
    assert(accounts_distinct(t));
    lemma_entry_at_index(t, i);
    if i == s.len() - 1 {
        assert(t.drop_last() =~= s.drop_last());
        assert forall|b: u64| b != acc.account_id implies free_of(t, b)
            == free_of(s, b) && reserved_of(t, b) == reserved_of(s, b) by {
            assert(t.last() == acc);
            assert(s.last().account_id == acc.account_id);
        }
    } else {
        assert(t.drop_last() =~= s.drop_last().update(i, acc));
        assert(accounts_distinct(s.drop_last()));
        lemma_update(s.drop_last(), i, acc);
        assert(t.last() == s.last());
        assert forall|b: u64| b != acc.account_id implies free_of(t, b)
            == free_of(s, b) && reserved_of(t, b) == reserved_of(s, b) by {
            assert(free_of(s.drop_last().update(i, acc), b)
                == free_of(s.drop_last(), b));
        }
    }
}

/// Appending an account with a fresh identifier leaves every other
/// account's balances alone and grows the sums by the new balances.
pub proof fn lemma_push_fresh(s: Seq<Account>, acc: Account)
    requires
        accounts_distinct(s),
        !has_account(s, acc.account_id),
    ensures
        accounts_distinct(s.push(acc)),
        free_of(s.push(acc), acc.account_id) == acc.free,
        reserved_of(s.push(acc), acc.account_id) == acc.reserved,
        forall|b: u64|
            b != acc.account_id ==> free_of(s.push(acc), b) == free_of(s, b)
                && reserved_of(s.push(acc), b) == reserved_of(s, b),
        free_sum(s.push(acc)) == free_sum(s) + acc.free,
        reserved_sum(s.push(acc)) == reserved_sum(s) + acc.reserved,
{
    let t = s.push(acc);
    assert(t.drop_last() =~= s);
    assert(t.last() == acc);
    assert forall|i: int, j: int| 0 <= i < j < t.len() implies t[i].account_id
        != t[j].account_id by {
        if j == s.len() {
            assert(t[i] == s[i]);
        }
    }
}

/// A single account's balance never exceeds the corresponding sum.
pub proof fn lemma_entry_le_sum(s: Seq<Account>, a: u64)
    ensures
        free_of(s, a) <= free_sum(s),
        reserved_of(s, a) <= reserved_sum(s),
    decreases s.len(),
{
    if s.len() > 0 {
        lemma_entry_le_sum(s.drop_last(), a);
        lemma_sums_nonneg(s.drop_last());
        lemma_entries_nonneg(s.drop_last(), a);
    }
}

impl Ledger {
    /// An empty ledger: no accounts, nothing issued.
    pub fn new() -> (r: Ledger)
        ensures
            r.wf(),
            r.accounts@.len() == 0,
            r.total_issuance == 0,
    {
        Ledger { accounts: Vec::new(), total_issuance: 0 }
    }

    /// The index of account `a`, if it exists.
    fn find(&self, a: u64) -> (r: Option<usize>)
        ensures
            match r {
                Some(i) => i < self.accounts@.len()
                    && self.accounts@[i as int].account_id == a,
                None => !has_account(self.accounts@, a),
            },
    {
        let n = self.accounts.len();
        let mut k: usize = 0;
        while k < n
            invariant
                n == self.accounts@.len(),
                k <= n,
                forall|j: int| 0 <= j < k ==> self.accounts@[j].account_id != a,
            decreases n - k,
        {
            if self.accounts[k].account_id == a {
                return Some(k);
            }
            k = k + 1;
        }
        None
    }

    /// The spendable balance of `a`; 0 if the account does not exist.
    pub fn free_balance(&self, a: u64) -> (r: u64)
        requires
            self.wf(),
        ensures
            r as int == free_of(self.accounts@, a),
    {
        match self.find(a) {
            Some(i) => {
                proof {
                    lemma_entry_at_index(self.accounts@, i as int);
                }
                self.accounts[i].free
            },
            None => {
                proof {
                    lemma_entry_absent(self.accounts@, a);
                }
                0
            },
        }
    }

    /// The escrowed balance of `a`; 0 if the account does not exist.
    pub fn reserved_balance(&self, a: u64) -> (r: u64)
        requires
            self.wf(),
        ensures
            r as int == reserved_of(self.accounts@, a),
    {
        match self.find(a) {
            Some(i) => {
                proof {
                    lemma_entry_at_index(self.accounts@, i as int);
                }
                self.accounts[i].reserved
            },
            None => {
                proof {
                    lemma_entry_absent(self.accounts@, a);
                }
                0
            },
        }
    }

    /// Issue `amount` new units of money to `a`'s free balance.
    pub fn deposit(&mut self, a: u64, amount: u64) -> (r: Result<(), Error>)
        requires
            old(self).wf(),
        ensures
            final(self).wf(),
            r is Ok <==> old(self).total_issuance + amount <= u64::MAX,
            r is Err ==> *final(self) == *old(self)
                && r == Err::<(), Error>(Error::Overflow),
            r is Ok ==> {
                &&& final(self).total_issuance == old(self).total_issuance
                    + amount
                &&& free_of(final(self).accounts@, a)
                    == free_of(old(self).accounts@, a) + amount
                &&& forall|b: u64|
                    b != a ==> free_of(final(self).accounts@, b)
                        == free_of(old(self).accounts@, b)
                &&& forall|b: u64|
                    reserved_of(final(self).accounts@, b)
                        == reserved_of(old(self).accounts@, b)
                &&& free_sum(final(self).accounts@)
                    == free_sum(old(self).accounts@) + amount
                &&& reserved_sum(final(self).accounts@)
                    == reserved_sum(old(self).accounts@)
            },
    {
        if amount > u64::MAX - self.total_issuance {
            return Err(Error::Overflow);
        }
        proof {
            lemma_sums_nonneg(self.accounts@);
            lemma_entry_le_sum(self.accounts@, a);
            lemma_entries_nonneg(self.accounts@, a);
        }
        match self.find(a) {
            Some(i) => {
                proof {
                    lemma_entry_at_index(self.accounts@, i as int);
                    lemma_update(
                        self.accounts@,
                        i as int,
                        Account {
                            free: (self.accounts@[i as int].free + amount) as u64,
                            ..self.accounts@[i as int]
                        },
                    );
                }
                let acc = self.accounts[i];
                self.accounts[i] = Account {
                    account_id: acc.account_id,
                    free: acc.free + amount,
                    reserved: acc.reserved,
                };
            },
            None => {
                proof {
                    lemma_entry_absent(self.accounts@, a);
                    lemma_push_fresh(
                        self.accounts@,
                        Account { account_id: a, free: amount, reserved: 0 },
                    );
                }
                self.accounts.push(Account {
                    account_id: a,
                    free: amount,
                    reserved: 0,
                });
            },
        }
        self.total_issuance = self.total_issuance + amount;
        Ok(())
    }

    /// Move `amount` of `a`'s free balance into its escrow. The caller must
    /// have checked that the free balance covers the amount.
    pub fn reserve(&mut self, a: u64, amount: u64)
        requires
            old(self).wf(),
            free_of(old(self).accounts@, a) >= amount,
        ensures
            final(self).wf(),
            final(self).total_issuance == old(self).total_issuance,
            free_of(final(self).accounts@, a)
                == free_of(old(self).accounts@, a) - amount,
            reserved_of(final(self).accounts@, a)
                == reserved_of(old(self).accounts@, a) + amount,
            forall|b: u64|
                b != a ==> free_of(final(self).accounts@, b)
                    == free_of(old(self).accounts@, b)
                    && reserved_of(final(self).accounts@, b)
                        == reserved_of(old(self).accounts@, b),
            free_sum(final(self).accounts@)
                == free_sum(old(self).accounts@) - amount,
            reserved_sum(final(self).accounts@)
                == reserved_sum(old(self).accounts@) + amount,
    {
        if amount == 0 {
            return;
        }
        proof {
            lemma_sums_nonneg(self.accounts@);
            lemma_entry_le_sum(self.accounts@, a);
            lemma_entries_nonneg(self.accounts@, a);
        }
        match self.find(a) {
            Some(i) => {
                proof {
                    lemma_entry_at_index(self.accounts@, i as int);
                    lemma_update(
                        self.accounts@,
                        i as int,
                        Account {
                            free: (self.accounts@[i as int].free - amount) as u64,
                            reserved: (self.accounts@[i as int].reserved
                                + amount) as u64,
                            ..self.accounts@[i as int]
                        },
                    );
                }
                let acc = self.accounts[i];
                self.accounts[i] = Account {
                    account_id: acc.account_id,
                    free: acc.free - amount,
                    reserved: acc.reserved + amount,
                };
            },
            None => {
                proof {
                    lemma_entry_absent(self.accounts@, a);
                }
            },
        }
    }

    /// Move `amount` of `a`'s escrow back to its free balance. The caller
    /// must know that the escrow covers the amount.
    pub fn unreserve(&mut self, a: u64, amount: u64)
        requires
            old(self).wf(),
            reserved_of(old(self).accounts@, a) >= amount,
        ensures
            final(self).wf(),
            final(self).total_issuance == old(self).total_issuance,
            free_of(final(self).accounts@, a)
                == free_of(old(self).accounts@, a) + amount,
            reserved_of(final(self).accounts@, a)
                == reserved_of(old(self).accounts@, a) - amount,
            forall|b: u64|
                b != a ==> free_of(final(self).accounts@, b)
                    == free_of(old(self).accounts@, b)
                    && reserved_of(final(self).accounts@, b)
                        == reserved_of(old(self).accounts@, b),
            free_sum(final(self).accounts@)
                == free_sum(old(self).accounts@) + amount,
            reserved_sum(final(self).accounts@)
                == reserved_sum(old(self).accounts@) - amount,
    {
        if amount == 0 {
            return;
        }
        proof {
            lemma_sums_nonneg(self.accounts@);
            lemma_entry_le_sum(self.accounts@, a);
            lemma_entries_nonneg(self.accounts@, a);
        }
        match self.find(a) {
            Some(i) => {
                proof {
                    lemma_entry_at_index(self.accounts@, i as int);
                    lemma_update(
                        self.accounts@,
                        i as int,
                        Account {
                            free: (self.accounts@[i as int].free + amount) as u64,
                            reserved: (self.accounts@[i as int].reserved
                                - amount) as u64,
                            ..self.accounts@[i as int]
                        },
                    );
                }
                let acc = self.accounts[i];
                self.accounts[i] = Account {
                    account_id: acc.account_id,
                    free: acc.free + amount,
                    reserved: acc.reserved - amount,
                };
            },
            None => {
                proof {
                    lemma_entry_absent(self.accounts@, a);
                }
            },
        }
    }

    /// Move `amount` of free balance from `from` to `to`. The caller must
    /// have checked that `from`'s free balance covers the amount.
    pub fn transfer(&mut self, from: u64, to: u64, amount: u64)
        requires
            old(self).wf(),
            from != to,
            free_of(old(self).accounts@, from) >= amount,
        ensures
            final(self).wf(),
            final(self).total_issuance == old(self).total_issuance,
            free_of(final(self).accounts@, from)
                == free_of(old(self).accounts@, from) - amount,
            free_of(final(self).accounts@, to)
                == free_of(old(self).accounts@, to) + amount,
            forall|b: u64|
                b != from && b != to ==> free_of(final(self).accounts@, b)
                    == free_of(old(self).accounts@, b),
            forall|b: u64|
                reserved_of(final(self).accounts@, b)
                    == reserved_of(old(self).accounts@, b),
            free_sum(final(self).accounts@) == free_sum(old(self).accounts@),
            reserved_sum(final(self).accounts@)
                == reserved_sum(old(self).accounts@),
    {
        if amount == 0 {
            return;
        }
        match self.find(from) {
            Some(i) => {
                proof {
                    lemma_entry_at_index(self.accounts@, i as int);
                    lemma_update(
                        self.accounts@,
                        i as int,
                        Account {
                            free: (self.accounts@[i as int].free - amount) as u64,
                            ..self.accounts@[i as int]
                        },
                    );
                }
                let acc = self.accounts[i];
                self.accounts[i] = Account {
                    account_id: acc.account_id,
                    free: acc.free - amount,
                    reserved: acc.reserved,
                };
            },
            None => {
                proof {
                    lemma_entry_absent(self.accounts@, from);
                }
            },
        }
        proof {
            lemma_sums_nonneg(self.accounts@);
            lemma_entry_le_sum(self.accounts@, to);
            lemma_entries_nonneg(self.accounts@, to);
        }
        match self.find(to) {
            Some(i) => {
                proof {
                    lemma_entry_at_index(self.accounts@, i as int);
                    lemma_update(
                        self.accounts@,
                        i as int,
                        Account {
                            free: (self.accounts@[i as int].free + amount) as u64,
                            ..self.accounts@[i as int]
                        },
                    );
                }
                let acc = self.accounts[i];
                self.accounts[i] = Account {
                    account_id: acc.account_id,
                    free: acc.free + amount,
                    reserved: acc.reserved,
                };
            },
            None => {
                proof {
                    lemma_entry_absent(self.accounts@, to);
                    lemma_push_fresh(
                        self.accounts@,
                        Account { account_id: to, free: amount, reserved: 0 },
                    );
                }
                self.accounts.push(Account {
                    account_id: to,
                    free: amount,
                    reserved: 0,
                });
            },
        }
    }
}

} // verus!
