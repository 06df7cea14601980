use windmill::auction::Auction;
use windmill::ranid::{encode_token, RanIDs};
use windmill::types::{AuctionResult, Bid, BidResult, WindmillError};

fn make_bid(id: &str, quantity: u64, price: u64, timestamp: i64) -> Bid {
    Bid { id: id.to_string(), quantity, price, timestamp }
}

fn result_of(auction: &Auction, token: &str) -> AuctionResult {
    *auction.check_result(&token.to_string()).expect("bidder joined")
}

#[test]
fn marginal_bid_is_clamped_and_sets_price() {
    let mut auction = Auction::new(100, 1000);
    let a = auction.join().unwrap();
    let b = auction.join().unwrap();
    let c = auction.join().unwrap();
    // unit prices 0.02, 0.015 and 0.01, in cents
    assert_eq!(auction.bid(make_bid(&a, 600, 1200, 1)), Ok(BidResult::Submitted));
    assert_eq!(auction.bid(make_bid(&b, 500, 750, 2)), Ok(BidResult::Submitted));
    assert_eq!(auction.bid(make_bid(&c, 600, 600, 3)), Ok(BidResult::Submitted));
    assert!(auction.tabulate());
    assert_eq!(result_of(&auction, &a), AuctionResult::Success { quantity: 600, price: 900 });
    assert_eq!(result_of(&auction, &b), AuctionResult::Success { quantity: 400, price: 600 });
    assert_eq!(result_of(&auction, &c), AuctionResult::Failure);
}

#[test]
fn undersubscribed_auction_fails_everyone() {
    let mut auction = Auction::new(100, 1000);
    let a = auction.join().unwrap();
    let b = auction.join().unwrap();
    let idle = auction.join().unwrap();
    auction.bid(make_bid(&a, 400, 4000, 1)).unwrap();
    auction.bid(make_bid(&b, 300, 9000, 2)).unwrap();
    assert!(auction.tabulate());
    for token in [&a, &b, &idle] {
        assert_eq!(result_of(&auction, token), AuctionResult::Failure);
    }
}

#[test]
fn late_bid_is_refused_and_settles() {
    let mut auction = Auction::new(100, 10);
    let early = auction.join().unwrap();
    let late = auction.join().unwrap();
    auction.bid(make_bid(&early, 10, 50, 5)).unwrap();
    assert_eq!(auction.bid(make_bid(&late, 10, 900, 100)), Ok(BidResult::PastTime));
    assert!(auction.check_bid(&late).is_none());
    assert_eq!(result_of(&auction, &late), AuctionResult::Failure);
    assert_eq!(result_of(&auction, &early), AuctionResult::Success { quantity: 10, price: 50 });
    // settled: later bids are refused too
    assert_eq!(auction.bid(make_bid(&late, 10, 900, 1)), Ok(BidResult::PastTime));
    assert_eq!(result_of(&auction, &late), AuctionResult::Failure);
}

#[test]
fn unknown_bidder_is_refused() {
    let mut auction = Auction::new(100, 10);
    auction.join().unwrap();
    assert_eq!(auction.bid(make_bid("!!!!!", 1, 1, 1)), Err(WindmillError::BadRequest));
    assert!(auction.check_result(&"!!!!!".to_string()).is_none());
    assert!(auction.check_bid(&"!!!!!".to_string()).is_none());
}

#[test]
fn tokens_are_distinct_base36() {
    let mut auction = Auction::new(100, 10);
    let mut tokens: Vec<String> = Vec::new();
    for _ in 0..200 {
        let t = auction.join().unwrap();
        assert_eq!(t.len(), 5);
        assert!(t.chars().all(|c| c.is_ascii_digit() || c.is_ascii_lowercase()));
        assert!(!tokens.contains(&t));
        tokens.push(t);
    }
    assert_eq!(auction.standings().len(), 200);
}

#[test]
fn generator_issues_fresh_values() {
    let mut ids = RanIDs::new();
    let first = ids.get().unwrap();
    let second = ids.get().unwrap();
    assert_ne!(first, second);
    assert!(ids.contains(1) || ids.claim(1).is_some());
    assert!(ids.claim(1).is_none());
    assert!(ids.claim(0).is_none());
    assert!(ids.claim(60466176).is_none());
    let mut fresh = RanIDs::new();
    assert_eq!(fresh.claim(60466175), Some("zzzzz".to_string()));
    assert!(fresh.contains(60466175));
    assert_eq!(fresh.claim(60466175), None);
}

#[test]
fn token_spelling() {
    assert_eq!(encode_token(1), "00001");
    assert_eq!(encode_token(35), "0000z");
    assert_eq!(encode_token(36), "00010");
    assert_eq!(encode_token(1679616), "10000");
    assert_eq!(encode_token(60466175), "zzzzz");
}

#[test]
fn last_bid_stands() {
    let mut auction = Auction::new(100, 10);
    let a = auction.join().unwrap();
    auction.bid(make_bid(&a, 5, 10, 1)).unwrap();
    auction.bid(make_bid(&a, 7, 30, 2)).unwrap();
    let standing = auction.check_bid(&a).unwrap();
    assert_eq!((standing.quantity, standing.price, standing.timestamp), (7, 30, 2));
}

#[test]
fn tabulate_is_idempotent() {
    let mut auction = Auction::new(100, 5);
    let a = auction.join().unwrap();
    let b = auction.join().unwrap();
    auction.bid(make_bid(&a, 3, 9, 1)).unwrap();
    auction.bid(make_bid(&b, 4, 8, 2)).unwrap();
    assert!(auction.tabulate());
    let once = auction.standings();
    assert!(auction.tabulate());
    assert_eq!(auction.standings(), once);
    assert_eq!(result_of(&auction, &a), AuctionResult::Success { quantity: 3, price: 6 });
    assert_eq!(result_of(&auction, &b), AuctionResult::Success { quantity: 2, price: 4 });
}

#[test]
fn equal_rank_goes_to_earlier_bid_then_earlier_bidder() {
    let mut auction = Auction::new(100, 10);
    let a = auction.join().unwrap();
    let b = auction.join().unwrap();
    let c = auction.join().unwrap();
    auction.bid(make_bid(&a, 10, 20, 5)).unwrap();
    auction.bid(make_bid(&b, 10, 20, 4)).unwrap();
    auction.bid(make_bid(&c, 5, 10, 4)).unwrap();
    auction.tabulate();
    // b and c tie on unit price and time; b joined first
    assert_eq!(result_of(&auction, &b), AuctionResult::Success { quantity: 10, price: 20 });
    assert_eq!(result_of(&auction, &c), AuctionResult::Failure);
    assert_eq!(result_of(&auction, &a), AuctionResult::Failure);
}

#[test]
fn winners_stay_within_bids_and_supply() {
    let mut auction = Auction::new(1000, 1000);
    let mut tokens: Vec<String> = Vec::new();
    for k in 0..10u64 {
        let t = auction.join().unwrap();
        let q = 100 + (k * 137) % 400;
        let p = 300 + (k * 251) % 700;
        auction.bid(make_bid(&t, q, p, k as i64)).unwrap();
        tokens.push(t);
    }
    auction.tabulate();
    let mut total = 0u64;
    for t in &tokens {
        let bid = auction.check_bid(t).unwrap();
        if let AuctionResult::Success { quantity, price } = result_of(&auction, t) {
            assert!(quantity <= bid.quantity);
            assert!(price <= bid.price);
            total += quantity;
        }
    }
    assert_eq!(total, 1000);
}

#[test]
fn zero_shares_offered() {
    let mut auction = Auction::new(100, 0);
    let a = auction.join().unwrap();
    auction.bid(make_bid(&a, 3, 9, 1)).unwrap();
    auction.tabulate();
    assert_eq!(result_of(&auction, &a), AuctionResult::Failure);
}

#[test]
fn exact_fill_has_no_clamp() {
    let mut auction = Auction::new(100, 10);
    let a = auction.join().unwrap();
    let b = auction.join().unwrap();
    auction.bid(make_bid(&a, 4, 40, 1)).unwrap();
    auction.bid(make_bid(&b, 6, 30, 1)).unwrap();
    auction.tabulate();
    assert_eq!(result_of(&auction, &a), AuctionResult::Success { quantity: 4, price: 20 });
    assert_eq!(result_of(&auction, &b), AuctionResult::Success { quantity: 6, price: 30 });
}

#[test]
fn payment_rounds_down() {
    let mut auction = Auction::new(100, 3);
    let a = auction.join().unwrap();
    let b = auction.join().unwrap();
    auction.bid(make_bid(&a, 1, 5, 1)).unwrap();
    auction.bid(make_bid(&b, 3, 10, 2)).unwrap();
    auction.tabulate();
    // clearing unit price 10/3: one share costs 3, two cost 6
    assert_eq!(result_of(&auction, &a), AuctionResult::Success { quantity: 1, price: 3 });
    assert_eq!(result_of(&auction, &b), AuctionResult::Success { quantity: 2, price: 6 });
}

#[test]
fn ranking_rule() {
    let hi = make_bid("a", 10, 30, 5);
    let lo = make_bid("b", 10, 20, 1);
    let same = make_bid("c", 20, 60, 5);
    assert!(hi.outranks(&lo));
    assert!(!lo.outranks(&hi));
    assert!(hi.same_rank(&same));
    assert!(!hi.outranks(&same));
    let earlier = make_bid("d", 20, 60, 4);
    assert!(earlier.outranks(&same));
}

#[test]
fn error_descriptions() {
    assert_eq!(WindmillError::Incomplete.description(), "Incomplete user profile.");
    assert_eq!(WindmillError::BadRequest.description(), "Bad Request.");
    assert_eq!(WindmillError::ClosedAuction.description(), "Auction is closed.");
}

#[test]
fn bids_compare_by_rank() {
    let hi = make_bid("a", 10, 30, 5);
    let lo = make_bid("b", 10, 20, 1);
    let same = make_bid("c", 20, 60, 5);
    assert!(hi == same);
    assert!(hi != lo);
    assert!(hi > lo);
    assert!(lo < hi);
    assert_eq!(hi.partial_cmp(&same), Some(std::cmp::Ordering::Equal));
    let earlier = make_bid("d", 20, 60, 4);
    assert!(earlier > same);
}

#[test]
fn late_bid_without_settling_policy() {
    let mut auction = Auction::new(100, 10);
    auction.set_settle_on_late_bid(false);
    let early = auction.join().unwrap();
    let late = auction.join().unwrap();
    auction.bid(make_bid(&early, 10, 50, 5)).unwrap();
    assert_eq!(auction.bid(make_bid(&late, 10, 900, 100)), Ok(BidResult::PastTime));
    assert!(auction.check_bid(&late).is_none());
    assert_eq!(result_of(&auction, &early), AuctionResult::InProgress);
    assert_eq!(result_of(&auction, &late), AuctionResult::InProgress);
    assert!(auction.tabulate());
    assert_eq!(result_of(&auction, &early), AuctionResult::Success { quantity: 10, price: 50 });
    assert_eq!(result_of(&auction, &late), AuctionResult::Failure);
}

#[test]
fn interleaved_bids_keep_latest_per_bidder() {
    let mut auction = Auction::new(100, 10);
    let a = auction.join().unwrap();
    let b = auction.join().unwrap();
    auction.bid(make_bid(&a, 5, 10, 1)).unwrap();
    auction.bid(make_bid(&b, 2, 9, 2)).unwrap();
    auction.bid(make_bid(&a, 3, 12, 3)).unwrap();
    auction.bid(make_bid(&b, 4, 4, 4)).unwrap();
    let sa = auction.check_bid(&a).unwrap();
    let sb = auction.check_bid(&b).unwrap();
    assert_eq!((sa.quantity, sa.price, sa.timestamp), (3, 12, 3));
    assert_eq!((sb.quantity, sb.price, sb.timestamp), (4, 4, 4));
}

#[test]
fn generator_never_reissues_claimed_values() {
    let mut ids = RanIDs::new();
    for x in 1..=50u32 {
        assert!(ids.claim(x).is_some());
    }
    for _ in 0..20 {
        let t = ids.get().unwrap();
        assert_eq!(t.len(), 5);
        assert!(t.as_str() > "0001e");
    }
}
