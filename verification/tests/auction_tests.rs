use distributed_legder::auctions::action_handler::{AuctionHandler, WaitingBid};
use distributed_legder::auctions::auction::Auction;
use distributed_legder::auctions::bid::Bid;
use distributed_legder::network::key::Key;

#[test]
fn bid_is_identified_by_sha3_of_its_fields() {
    let bid = Bid::new("a".to_string(), "c".to_string(), "".to_string(), "b".to_string());
    assert_eq!(bid.get_bid_id(), "3a985da74fe225b2045c172d6bd390bd855f086e3e9d525b46bfe24511431532");
    assert_eq!(bid.get_bid_id().len(), 64);
    assert_eq!(bid.get_user_node_id(), "a");
    assert_eq!(bid.get_auction_id(), "b");
}

#[test]
fn auction_is_identified_by_name_and_start() {
    let auction = Auction::new(
        "house".to_string(),
        "node".to_string(),
        12.5f32.to_bits(),
        1_700_000_000,
        60,
        "pk".to_string(),
        "sig".to_string(),
    );
    assert!(Key(auction.auction_id()) == Key::new("house:1700000000".to_string()));
    assert_eq!(auction.auction_name(), "house");
    assert_eq!(f32::from_bits(auction.minimum_bid_bits()), 12.5);
    assert_eq!(auction.initial_ts(), 1_700_000_000);
    assert_eq!(auction.get_final_ts(), 1_700_000_060);
}

#[test]
fn auction_with_defaults_starts_now() {
    let auction = Auction::with_defaults("car".to_string(), "node".to_string(), 0, 10, "pk".to_string());
    let expected = Key::new(format!("car:{}", auction.initial_ts()));
    assert!(Key(auction.auction_id()) == expected);
    assert!(auction.initial_ts() > 0);
}

#[test]
fn started_auction_is_active_and_listed_for_requests() {
    let mut handler = AuctionHandler::new();
    let auction = Auction::new(
        "house".to_string(),
        "node".to_string(),
        0,
        1_700_000_000,
        60,
        "pk".to_string(),
        "sig".to_string(),
    );
    let expected = Key::new("house:1700000000".to_string()).0.to_vec();
    let id = handler.start_new_auction(auction);
    assert_eq!(id, expected);
    assert_eq!(handler.handle_request_active_auctions(), vec![expected.clone()]);
    assert_eq!(handler.active_auction_ids(), &vec![expected]);
}

#[test]
fn announced_auctions_are_active_but_not_ours() {
    let mut handler = AuctionHandler::new();
    handler.handle_new_auction_started(vec![1, 2]);
    handler.handle_new_auction_started(vec![3]);
    assert_eq!(handler.active_auction_ids(), &vec![vec![1, 2], vec![3]]);
    assert!(handler.handle_request_active_auctions().is_empty());
}

#[test]
fn found_bid_is_listed_under_its_own_identifier() {
    let mut handler = AuctionHandler::new();
    handler.handle_new_bid(vec![9]);
    handler.handle_new_bid(vec![9]);
    assert_eq!(handler.bids_on(&vec![9]), Some(&vec![vec![9], vec![9]]));
    assert!(handler.bids_on(&vec![8]).is_none());
}

#[test]
fn published_bid_is_deleted_when_its_auction_ends() {
    let bid = Bid::new("user".to_string(), "pk".to_string(), "enc".to_string(), "auc".to_string());
    let auction = b"auc".to_vec();
    let mut handler = AuctionHandler::new();
    handler.handle_new_auction_started(auction.clone());
    let id = handler.publish_bid(&bid);
    assert_eq!(id, bid.get_bid_id().as_bytes().to_vec());
    assert_eq!(handler.bids_on(&auction), Some(&vec![id.clone()]));
    let deleted = handler.auction_ended(&auction);
    assert_eq!(deleted, vec![id]);
    assert!(handler.bids_on(&auction).is_none());
    assert!(handler.active_auction_ids().is_empty());
}

#[test]
fn ending_an_auction_drops_only_its_first_entry() {
    let mut handler = AuctionHandler::new();
    handler.handle_new_auction_started(vec![1]);
    handler.handle_new_auction_started(vec![2]);
    handler.handle_new_auction_started(vec![1]);
    assert!(handler.auction_ended(&vec![1]).is_empty());
    assert_eq!(handler.active_auction_ids(), &vec![vec![2], vec![1]]);
    assert!(handler.auction_ended(&vec![7]).is_empty());
    assert_eq!(handler.active_auction_ids(), &vec![vec![2], vec![1]]);
}

#[test]
fn auctions_without_bids_are_finished() {
    let bid = Bid::new("user".to_string(), "pk".to_string(), "enc".to_string(), "auc".to_string());
    let mut handler = AuctionHandler::new();
    handler.handle_new_auction_started(b"auc".to_vec());
    handler.handle_new_auction_started(b"quiet".to_vec());
    handler.handle_new_auction_started(b"quiet".to_vec());
    handler.publish_bid(&bid);
    handler.handle_finished_auctions();
    assert_eq!(handler.active_auction_ids(), &vec![b"auc".to_vec()]);
}

#[test]
fn confirmed_payments_are_handed_back_in_order() {
    let mut handler = AuctionHandler::new();
    handler.add_pending_payment(b"t1".to_vec(), 10, b"a1".to_vec());
    handler.add_pending_payment(b"t2".to_vec(), 15, b"a2".to_vec());
    handler.add_pending_payment(b"t3".to_vec(), 12, b"a3".to_vec());
    let done = handler.handle_pending_payments(16, 5);
    assert_eq!(done.len(), 1);
    assert_eq!(done[0].tx_id, b"t1".to_vec());
    assert_eq!(done[0].block_number, 10);
    assert_eq!(done[0].auction_id, b"a1".to_vec());
    let done = handler.handle_pending_payments(17, 5);
    assert_eq!(done.len(), 1);
    assert_eq!(done[0].tx_id, b"t3".to_vec());
    let done = handler.handle_pending_payments(20, 5);
    assert_eq!(done.len(), 1);
    assert_eq!(done[0].tx_id, b"t2".to_vec());
    assert!(handler.handle_pending_payments(u64::MAX, 0).is_empty());
}

#[test]
fn payment_at_the_last_block_number_waits_without_overflow() {
    let mut handler = AuctionHandler::new();
    handler.add_pending_payment(b"t".to_vec(), u64::MAX, b"a".to_vec());
    assert!(handler.handle_pending_payments(u64::MAX, 1).is_empty());
    let done = handler.handle_pending_payments(u64::MAX, 0);
    assert_eq!(done.len(), 1);
    assert_eq!(done[0].tx_id, b"t".to_vec());
}

#[test]
fn settled_payment_drops_its_waiting_bids() {
    let bid = Bid::new("user".to_string(), "pk".to_string(), "enc".to_string(), "auc".to_string());
    let other = Bid::new("user2".to_string(), "pk2".to_string(), "enc2".to_string(), "auc".to_string());
    let auction = b"auc".to_vec();
    let mut handler = AuctionHandler::new();
    let id = handler.publish_bid(&bid);
    let kept = handler.publish_bid(&other);
    let payment = b"pay".to_vec();
    assert!(!handler.has_payment_key(&payment));
    handler.wait_for_payment(
        payment.clone(),
        vec![WaitingBid { auction_id: auction.clone(), bid_id: id.clone() }],
    );
    assert!(handler.has_payment_key(&payment));
    handler.handle_payment_confirmation(&payment);
    assert_eq!(handler.bids_on(&auction), Some(&vec![kept.clone()]));
    assert_eq!(handler.auction_ended(&auction), vec![kept]);
}

#[test]
fn failed_payment_settles_like_a_confirmed_one() {
    let bid = Bid::new("user".to_string(), "pk".to_string(), "enc".to_string(), "auc".to_string());
    let auction = b"auc".to_vec();
    let mut handler = AuctionHandler::new();
    let id = handler.publish_bid(&bid);
    let payment = b"pay".to_vec();
    handler.wait_for_payment(
        payment.clone(),
        vec![
            WaitingBid { auction_id: auction.clone(), bid_id: id.clone() },
            WaitingBid { auction_id: b"none".to_vec(), bid_id: id.clone() },
        ],
    );
    handler.handle_payment_failure(&payment);
    assert_eq!(handler.bids_on(&auction), Some(&Vec::<Vec<u8>>::new()));
    handler.handle_payment_failure(&payment);
    assert_eq!(handler.bids_on(&auction), Some(&Vec::<Vec<u8>>::new()));
}
