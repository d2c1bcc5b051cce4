use crowdfund::errors::Error;
use crowdfund::platform::Platform;

#[test]
fn create_funding_should_work() {
    let mut p = Platform::new();
    // create a funding with account #6.
    assert!(p.create_funding(6, vec![12, 56], 20000, 0, 1000, 0).is_ok());

    // check that there is now 1 funding in storage
    assert_eq!(p.all_funding_count(), 1);

    // check that account #6 owns 1 funding
    assert_eq!(p.owned_funding_count(6), 1);

    // check that some random account #5 does not own a funding
    assert_eq!(p.owned_funding_count(5), 0);

    // check that this funding is specifically owned by account #6
    let hash = p.funding_by_index(0);
    assert_eq!(p.owner_of(hash), Some(6));

    let other_hash = p.funding_of_owner_by_index((6, 0));
    assert_eq!(hash, other_hash);
}

#[test]
fn create_funding_assigns_sequential_ids() {
    let mut p = Platform::new();
    let a = p.create_funding(1, vec![1], 100, 0, 10, 0).unwrap();
    let b = p.create_funding(2, vec![2], 100, 0, 11, 0).unwrap();
    assert_eq!(a, 0);
    assert_eq!(b, 1);
    assert_eq!(p.all_funding_count(), 2);
    assert_eq!(p.funding_by_index(0), a);
    assert_eq!(p.funding_by_index(1), b);
    assert_eq!(p.funding_of_owner_by_index((2, 0)), b);
    assert!(p.is_funding_exists(a));
    assert!(!p.is_funding_exists(2));
}

#[test]
fn create_funding_rejects_support_above_target() {
    let mut p = Platform::new();
    p.deposit(1, 1000).unwrap();
    let r = p.create_funding(1, vec![7], 100, 101, 10, 0);
    assert_eq!(r, Err(Error::InvalidAmount));
    // no state mutation: no funding, no index entry, no money moved
    assert_eq!(p.all_funding_count(), 0);
    assert_eq!(p.owned_funding_count(1), 0);
    assert_eq!(p.free_balance(1), 1000);
    assert_eq!(p.reserved_balance(1), 0);
}

#[test]
fn create_funding_rejects_bad_expiry() {
    let mut p = Platform::new();
    assert_eq!(
        p.create_funding(1, vec![], 100, 0, 5, 5),
        Err(Error::InvalidExpiry)
    );
    assert_eq!(
        p.create_funding(1, vec![], 100, 0, 4, 5),
        Err(Error::InvalidExpiry)
    );
    // just beyond the horizon of 777600 ticks
    assert_eq!(
        p.create_funding(1, vec![], 100, 0, 5 + 777601, 5),
        Err(Error::InvalidExpiry)
    );
    // the horizon itself is accepted
    assert!(p.create_funding(1, vec![], 100, 0, 5 + 777600, 5).is_ok());
}

#[test]
fn create_funding_rejects_full_schedule_bucket() {
    let mut p = Platform::new();
    assert!(p.create_funding(1, vec![], 100, 0, 50, 0).is_ok());
    assert!(p.create_funding(2, vec![], 100, 0, 50, 0).is_ok());
    assert!(p.create_funding(3, vec![], 100, 0, 50, 0).is_ok());
    assert_eq!(
        p.create_funding(4, vec![], 100, 0, 50, 0),
        Err(Error::ScheduleFull)
    );
    // another tick's bucket is still open
    assert!(p.create_funding(4, vec![], 100, 0, 51, 0).is_ok());
    assert_eq!(p.funding_expire_at(50), vec![0, 1, 2]);
    assert_eq!(p.funding_expire_at(51), vec![3]);
}

#[test]
fn create_funding_books_initial_support() {
    let mut p = Platform::new();
    p.deposit(1, 80).unwrap();
    let fid = p.create_funding(1, vec![9], 200, 50, 10, 0).unwrap();
    // the creator's support is booked as a self-investment
    assert!(p.is_investor(fid, 1));
    assert_eq!(p.invest_amount_of((fid, 1)), 50);
    assert_eq!(p.get_funding_total_balance(fid), 50);
    assert_eq!(p.get_invested_number(fid), 1);
    assert_eq!(p.free_balance(1), 30);
    assert_eq!(p.reserved_balance(1), 50);
}

#[test]
fn create_funding_rejects_unfunded_support() {
    let mut p = Platform::new();
    p.deposit(1, 49).unwrap();
    let r = p.create_funding(1, vec![9], 200, 50, 10, 0);
    assert_eq!(r, Err(Error::InsufficientBalance));
    // the rejected creation left nothing behind
    assert_eq!(p.all_funding_count(), 0);
    assert_eq!(p.free_balance(1), 49);
    assert_eq!(p.reserved_balance(1), 0);
}

#[test]
fn invest_accumulates_per_investor() {
    let mut p = Platform::new();
    let fid = p.create_funding(1, vec![], 1000, 0, 10, 0).unwrap();
    p.deposit(2, 500).unwrap();
    p.invest(2, fid, 120, 1).unwrap();
    p.invest(2, fid, 80, 2).unwrap();
    assert_eq!(p.invest_amount_of((fid, 2)), 200);
    assert_eq!(p.get_funding_total_balance(fid), 200);
    // still a single investor-set entry
    assert_eq!(p.get_invested_number(fid), 1);
    assert_eq!(p.invest_accounts(fid), vec![2]);
    assert_eq!(p.free_balance(2), 300);
    assert_eq!(p.reserved_balance(2), 200);
}

#[test]
fn invest_rejections() {
    let mut p = Platform::new();
    let fid = p.create_funding(1, vec![], 1000, 0, 10, 0).unwrap();
    p.deposit(2, 50).unwrap();
    // no such funding
    assert_eq!(p.invest(2, 99, 10, 1), Err(Error::FundingNotFound));
    // the manager may not invest directly
    assert_eq!(p.invest(1, fid, 10, 1), Err(Error::SelfInvestmentForbidden));
    // not enough free balance
    assert_eq!(p.invest(2, fid, 51, 1), Err(Error::InsufficientBalance));
    // the funding's window is over at its expiry tick
    assert_eq!(p.invest(2, fid, 10, 10), Err(Error::FundingExpired));
    // a rejected call leaves the record untouched
    assert_eq!(p.invest_amount_of((fid, 2)), 0);
    assert!(!p.is_investor(fid, 2));
}

#[test]
fn sweep_marks_reached_target_successful() {
    let mut p = Platform::new();
    let fid = p.create_funding(1, vec![], 1000, 0, 10, 0).unwrap();
    p.deposit(2, 600).unwrap();
    p.deposit(3, 500).unwrap();
    p.invest(2, fid, 600, 1).unwrap();
    p.invest(3, fid, 500, 1).unwrap();
    let out = p.finalize_fundings(10);
    assert_eq!(p.is_funding_success(fid), 1);
    assert_eq!(out.len(), 1);
    assert_eq!(out[0].funding_id, fid);
    assert_eq!(out[0].amount, 1100);
    assert!(out[0].success);
    // the investors' escrow moved to the manager, re-reserved in full
    assert_eq!(p.reserved_balance(2), 0);
    assert_eq!(p.reserved_balance(3), 0);
    assert_eq!(p.free_balance(2), 0);
    assert_eq!(p.free_balance(3), 0);
    assert_eq!(p.free_balance(1), 0);
    assert_eq!(p.reserved_balance(1), 1100);
}

#[test]
fn sweep_refunds_missed_target_in_full() {
    let mut p = Platform::new();
    let fid = p.create_funding(1, vec![], 1000, 0, 10, 0).unwrap();
    p.deposit(2, 300).unwrap();
    p.deposit(3, 200).unwrap();
    p.invest(2, fid, 300, 1).unwrap();
    p.invest(3, fid, 200, 1).unwrap();
    let out = p.finalize_fundings(10);
    assert_eq!(p.is_funding_success(fid), 2);
    assert_eq!(out.len(), 1);
    assert_eq!(out[0].amount, 500);
    assert!(!out[0].success);
    // each investor got back exactly what they contributed
    assert_eq!(p.free_balance(2), 300);
    assert_eq!(p.free_balance(3), 200);
    // zero residual escrow for the funding
    assert_eq!(p.reserved_balance(2), 0);
    assert_eq!(p.reserved_balance(3), 0);
    assert_eq!(p.reserved_balance(1), 0);
    assert_eq!(p.free_balance(1), 0);
}

#[test]
fn sweep_refunds_creator_support_too() {
    let mut p = Platform::new();
    p.deposit(1, 70).unwrap();
    let fid = p.create_funding(1, vec![], 1000, 70, 10, 0).unwrap();
    p.finalize_fundings(10);
    assert_eq!(p.is_funding_success(fid), 2);
    assert_eq!(p.free_balance(1), 70);
    assert_eq!(p.reserved_balance(1), 0);
}

#[test]
fn sweep_touches_only_its_tick() {
    let mut p = Platform::new();
    let early = p.create_funding(1, vec![], 0, 0, 10, 0).unwrap();
    let late = p.create_funding(1, vec![], 0, 0, 11, 0).unwrap();
    let out = p.finalize_fundings(10);
    assert_eq!(out.len(), 1);
    assert_eq!(p.is_funding_success(early), 1);
    // the later funding is still raising
    assert_eq!(p.is_funding_success(late), 0);
    // a repeated sweep of the same tick finds nothing left to do
    let again = p.finalize_fundings(10);
    assert_eq!(again.len(), 0);
}

#[test]
fn deposit_reports_issuance_overflow() {
    let mut p = Platform::new();
    p.deposit(1, u64::MAX).unwrap();
    assert_eq!(p.deposit(2, 1), Err(Error::Overflow));
    assert_eq!(p.free_balance(2), 0);
    assert_eq!(p.free_balance(1), u64::MAX);
}

#[test]
fn sweep_composes_over_a_shared_bucket() {
    let mut p = Platform::new();
    // two fundings expiring at the same tick, one succeeding, one failing,
    // with an investor in both
    let win = p.create_funding(1, vec![], 100, 0, 10, 0).unwrap();
    let lose = p.create_funding(8, vec![], 500, 0, 10, 0).unwrap();
    p.deposit(2, 300).unwrap();
    p.invest(2, win, 100, 1).unwrap();
    p.invest(2, lose, 150, 1).unwrap();
    let out = p.finalize_fundings(10);
    assert_eq!(out.len(), 2);
    assert!(out[0].success);
    assert!(!out[1].success);
    assert_eq!(p.is_funding_success(win), 1);
    assert_eq!(p.is_funding_success(lose), 2);
    // the contribution to `win` went to its manager, the one to `lose`
    // came back
    assert_eq!(p.free_balance(2), 200);
    assert_eq!(p.reserved_balance(2), 0);
    assert_eq!(p.reserved_balance(1), 100);
    assert_eq!(p.reserved_balance(8), 0);
}

#[test]
fn queries_on_missing_entities_are_defaults() {
    let p = Platform::new();
    assert!(!p.is_funding_exists(0));
    assert_eq!(p.is_funding_success(0), 0);
    assert_eq!(p.get_funding_owner(0), None);
    assert_eq!(p.owner_of(0), None);
    assert_eq!(p.get_funding_total_balance(0), 0);
    assert!(!p.is_investor(0, 1));
    assert_eq!(p.get_invested_number(0), 0);
    assert_eq!(p.invest_amount_of((0, 1)), 0);
    assert_eq!(p.funding_by_index(0), 0);
    assert_eq!(p.funding_of_owner_by_index((1, 0)), 0);
    assert_eq!(p.funding_expire_at(10), Vec::<u64>::new());
    assert_eq!(p.invest_accounts(0), Vec::<u64>::new());
    assert_eq!(p.free_balance(1), 0);
    assert_eq!(p.reserved_balance(1), 0);
}
