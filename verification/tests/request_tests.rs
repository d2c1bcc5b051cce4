use crowdfund::errors::Error;
use crowdfund::platform::Platform;

/// A successful funding managed by account 1 with five investors
/// (accounts 2..=6) of 20 each, finalized at tick 10.
fn successful_funding(p: &mut Platform) -> u64 {
    let fid = p.create_funding(1, vec![1], 100, 0, 10, 0).unwrap();
    for investor in 2..=6u64 {
        p.deposit(investor, 20).unwrap();
        p.invest(investor, fid, 20, 1).unwrap();
    }
    p.finalize_fundings(10);
    assert_eq!(p.is_funding_success(fid), 1);
    assert_eq!(p.invest_accounts(fid), vec![2, 3, 4, 5, 6]);
    fid
}

#[test]
fn create_request_registers_pending_request() {
    let mut p = Platform::new();
    let fid = successful_funding(&mut p);
    let rid = p.create_request(1, fid, vec![3, 4], 40, 20, 11).unwrap();
    assert_eq!(rid, 0);
    assert_eq!(p.all_request_count(), 1);
    assert_eq!(p.request_status(rid), 0);
    assert_eq!(p.supported_of_request(rid), 0);
    assert_eq!(p.request_expire_at(20), vec![rid]);
    // no money moves at creation
    assert_eq!(p.reserved_balance(1), 100);
    assert_eq!(p.used_money_of_funding(fid), 0);
}

#[test]
fn create_request_rejections() {
    let mut p = Platform::new();
    let fid = successful_funding(&mut p);
    assert_eq!(
        p.create_request(1, 9, vec![], 10, 20, 11),
        Err(Error::FundingNotFound)
    );
    // only the manager may raise a request
    assert_eq!(
        p.create_request(2, fid, vec![], 10, 20, 11),
        Err(Error::NotOwner)
    );
    // the expiry must be ahead of the current tick, within the horizon
    assert_eq!(
        p.create_request(1, fid, vec![], 10, 11, 11),
        Err(Error::InvalidExpiry)
    );
    assert_eq!(
        p.create_request(1, fid, vec![], 10, 11 + 60481, 11),
        Err(Error::InvalidExpiry)
    );
    // the remaining escrow must cover the cost
    assert_eq!(
        p.create_request(1, fid, vec![], 101, 20, 11),
        Err(Error::InsufficientRemaining)
    );
    // a still-raising funding takes no requests
    let raising = p.create_funding(1, vec![], 50, 0, 99, 11).unwrap();
    assert_eq!(
        p.create_request(1, raising, vec![], 10, 20, 11),
        Err(Error::FundingNotSuccessful)
    );
    assert_eq!(p.all_request_count(), 0);
}

#[test]
fn create_request_schedule_bucket_cap() {
    let mut p = Platform::new();
    let fid = successful_funding(&mut p);
    assert!(p.create_request(1, fid, vec![], 10, 20, 11).is_ok());
    assert!(p.create_request(1, fid, vec![], 10, 20, 11).is_ok());
    assert!(p.create_request(1, fid, vec![], 10, 20, 11).is_ok());
    assert_eq!(
        p.create_request(1, fid, vec![], 10, 20, 11),
        Err(Error::ScheduleFull)
    );
    assert!(p.create_request(1, fid, vec![], 10, 21, 11).is_ok());
}

#[test]
fn third_vote_of_five_investors_approves() {
    let mut p = Platform::new();
    let fid = successful_funding(&mut p);
    let rid = p.create_request(1, fid, vec![], 40, 20, 11).unwrap();
    // quorum = floor(5 / 2) = 2: the count must strictly exceed it
    p.support_request(2, rid, 12).unwrap();
    assert_eq!(p.request_status(rid), 0);
    p.support_request(3, rid, 12).unwrap();
    // 2 votes is not > 2: still pending
    assert_eq!(p.request_status(rid), 0);
    assert_eq!(p.supported_of_request(rid), 2);
    p.support_request(4, rid, 12).unwrap();
    // 3 votes is > 2: approved immediately, before the request's expiry
    assert_eq!(p.request_status(rid), 1);
    assert_eq!(p.supported_of_request(rid), 3);
    assert_eq!(p.used_money_of_funding(fid), 40);
    assert_eq!(p.free_balance(1), 40);
    assert_eq!(p.reserved_balance(1), 60);
}

#[test]
fn vote_rejections() {
    let mut p = Platform::new();
    let fid = successful_funding(&mut p);
    let rid = p.create_request(1, fid, vec![], 40, 20, 11).unwrap();
    assert_eq!(p.support_request(2, 9, 12), Err(Error::RequestNotFound));
    // the manager never joined the investor set
    assert_eq!(p.support_request(1, rid, 12), Err(Error::NotInvestor));
    assert_eq!(p.support_request(7, rid, 12), Err(Error::NotInvestor));
    p.support_request(2, rid, 12).unwrap();
    assert_eq!(p.support_request(2, rid, 12), Err(Error::AlreadyVoted));
    assert!(p.voted_before((2, rid)));
    assert!(!p.voted_before((3, rid)));
    // a vote at or past the request's expiry tick comes too late
    assert_eq!(p.support_request(3, rid, 20), Err(Error::RequestExpired));
    assert_eq!(p.supported_of_request(rid), 1);
}

#[test]
fn used_balance_stays_within_total_raised() {
    let mut p = Platform::new();
    let fid = successful_funding(&mut p);
    let first = p.create_request(1, fid, vec![], 40, 20, 11).unwrap();
    for voter in 2..=4u64 {
        p.support_request(voter, first, 12).unwrap();
        assert!(p.used_money_of_funding(fid) <= p.get_funding_total_balance(fid));
    }
    assert_eq!(p.used_money_of_funding(fid), 40);
    // a request the remaining 60 cannot cover is refused outright
    assert_eq!(
        p.create_request(1, fid, vec![], 61, 20, 12),
        Err(Error::InsufficientRemaining)
    );
    let second = p.create_request(1, fid, vec![], 60, 20, 12).unwrap();
    for voter in 2..=4u64 {
        p.support_request(voter, second, 13).unwrap();
    }
    assert_eq!(p.used_money_of_funding(fid), 100);
    assert!(p.used_money_of_funding(fid) <= p.get_funding_total_balance(fid));
    assert_eq!(p.reserved_balance(1), 0);
    assert_eq!(p.free_balance(1), 100);
}

#[test]
fn threshold_vote_without_cover_keeps_request_pending() {
    let mut p = Platform::new();
    let fid = successful_funding(&mut p);
    // both requests fit the escrow when created
    let big = p.create_request(1, fid, vec![], 80, 20, 11).unwrap();
    let small = p.create_request(1, fid, vec![], 30, 20, 11).unwrap();
    for voter in 2..=4u64 {
        p.support_request(voter, big, 12).unwrap();
    }
    assert_eq!(p.request_status(big), 1);
    // the approval of `big` left only 20: `small` can no longer be covered
    for voter in 2..=4u64 {
        p.support_request(voter, small, 12).unwrap();
    }
    // the votes were still recorded, but no approval happened
    assert_eq!(p.supported_of_request(small), 3);
    assert_eq!(p.request_status(small), 0);
    assert_eq!(p.used_money_of_funding(fid), 80);
}

#[test]
fn request_sweep_rejects_pending_and_skips_approved() {
    let mut p = Platform::new();
    let fid = successful_funding(&mut p);
    let approved = p.create_request(1, fid, vec![], 40, 20, 11).unwrap();
    let pending = p.create_request(1, fid, vec![], 10, 20, 11).unwrap();
    for voter in 2..=4u64 {
        p.support_request(voter, approved, 12).unwrap();
    }
    assert_eq!(p.request_status(approved), 1);
    let out = p.finalize_requests(20);
    // the approved request is left untouched, the pending one is rejected
    assert_eq!(p.request_status(approved), 1);
    assert_eq!(p.request_status(pending), 2);
    assert_eq!(out.len(), 1);
    assert_eq!(out[0].request_id, pending);
    assert_eq!(out[0].supported, 0);
    // rejection moves no money
    assert_eq!(p.used_money_of_funding(fid), 40);
    assert_eq!(p.reserved_balance(1), 60);
    // a vote on a rejected request is refused
    assert_eq!(p.support_request(5, pending, 21), Err(Error::RequestOver));
}

#[test]
fn request_queries_on_missing_entities_are_defaults() {
    let p = Platform::new();
    assert_eq!(p.all_request_count(), 0);
    assert_eq!(p.used_money_of_funding(0), 0);
    assert_eq!(p.supported_of_request(0), 0);
    assert!(!p.voted_before((1, 0)));
    assert_eq!(p.request_status(0), 0);
    assert_eq!(p.request_expire_at(10), Vec::<u64>::new());
}

#[test]
fn request_enumeration_by_funding() {
    let mut p = Platform::new();
    let fid = successful_funding(&mut p);
    assert_eq!(p.request_of_funding_count(fid), 0);
    let first = p.create_request(1, fid, vec![], 10, 20, 11).unwrap();
    let second = p.create_request(1, fid, vec![], 10, 21, 11).unwrap();
    assert_eq!(p.request_of_funding_count(fid), 2);
    assert_eq!(p.request_of_funding_by_index((fid, 0)), first);
    assert_eq!(p.request_of_funding_by_index((fid, 1)), second);
    assert_eq!(p.request_of_funding_by_index((fid, 2)), 0);
    assert_eq!(p.request_of_funding_count(9), 0);
}
