use simple_stock_matcher_experiment::bids::{Bid, BidProcessingType, BuyingBid, SellingBid};
use simple_stock_matcher_experiment::events::{DropReason, Event};
use simple_stock_matcher_experiment::key::PoolKey;
use simple_stock_matcher_experiment::range::MatchingRange;
use simple_stock_matcher_experiment::Pool;

fn ids_and_bids<K>(entries: Vec<(PoolKey<K>, Bid<K>)>) -> Vec<(usize, Bid<K>)> {
    entries.into_iter().map(|(key, value)| (key.id, value)).collect()
}

#[test]
fn test_sorting_buy() {
    let pool: Pool<BuyingBid> = Pool::from_bids(vec![
        Bid::empty().price(100).amount(4).user_id(1),
        Bid::empty().price(150).amount(2).user_id(1),
        Bid::empty().price(90).amount(5).user_id(1),
        Bid::empty().price(100).amount(5).user_id(0),
        Bid::empty().price(100).amount(6).user_id(1),
        Bid::empty().price(101).amount(5).user_id(1),
        Bid::empty().price(100).amount(2).user_id(1),
    ]);
    let sorted = vec![
        (1, Bid::empty().price(150).amount(2).user_id(1)),
        (5, Bid::empty().price(101).amount(5).user_id(1)),
        (0, Bid::empty().price(100).amount(4).user_id(1)),
        (3, Bid::empty().price(100).amount(5).user_id(0)),
        (4, Bid::empty().price(100).amount(6).user_id(1)),
        (6, Bid::empty().price(100).amount(2).user_id(1)),
        (2, Bid::empty().price(90).amount(5).user_id(1)),
    ];
    assert_eq!(sorted, ids_and_bids(pool.view_entries()));
}

#[test]
fn range_test_buying_pool() {
    let selling_bid: Bid<SellingBid> = Bid::empty().price(100).amount(15).user_id(0);
    let pool: Pool<BuyingBid> = Pool::from_bids(vec![
        Bid::empty().price(100).amount(4).user_id(1),
        Bid::empty().price(150).amount(2).user_id(1),
        Bid::empty().price(90).amount(5).user_id(1),
        Bid::empty().price(100).amount(5).user_id(0),
        Bid::empty().price(100).amount(6).user_id(1),
        Bid::empty().price(101).amount(5).user_id(1),
        Bid::empty().price(99).amount(2).user_id(1),
    ]);
    let rng = selling_bid.what_matches();
    let reference = vec![
        (1, Bid::empty().price(150).amount(2).user_id(1)),
        (5, Bid::empty().price(101).amount(5).user_id(1)),
        (0, Bid::empty().price(100).amount(4).user_id(1)),
        (3, Bid::empty().price(100).amount(5).user_id(0)),
        (4, Bid::empty().price(100).amount(6).user_id(1)),
    ];
    let matched = ids_and_bids(pool.view_range(&rng));
    assert_eq!(reference, matched);
}

#[test]
fn test_sorting_sell() {
    let pool: Pool<SellingBid> = Pool::from_bids(vec![
        Bid::empty().price(100).amount(4).user_id(1),
        Bid::empty().price(150).amount(2).user_id(1),
        Bid::empty().price(90).amount(5).user_id(1),
        Bid::empty().price(70).amount(5).user_id(0),
        Bid::empty().price(100).amount(6).user_id(1),
        Bid::empty().price(101).amount(5).user_id(1),
        Bid::empty().price(99).amount(2).user_id(1),
    ]);
    let sorted = vec![
        (3, Bid::empty().price(70).amount(5).user_id(0)),
        (2, Bid::empty().price(90).amount(5).user_id(1)),
        (6, Bid::empty().price(99).amount(2).user_id(1)),
        (0, Bid::empty().price(100).amount(4).user_id(1)),
        (4, Bid::empty().price(100).amount(6).user_id(1)),
        (5, Bid::empty().price(101).amount(5).user_id(1)),
        (1, Bid::empty().price(150).amount(2).user_id(1)),
    ];
    assert_eq!(sorted, ids_and_bids(pool.view_entries()));
}

#[test]
fn range_test_selling_pool() {
    let buying_bid: Bid<BuyingBid> = Bid::empty().price(100).amount(15).user_id(0);
    let pool: Pool<SellingBid> = Pool::from_bids(vec![
        Bid::empty().price(100).amount(4).user_id(1),
        Bid::empty().price(150).amount(2).user_id(1),
        Bid::empty().price(90).amount(5).user_id(1),
        Bid::empty().price(70).amount(5).user_id(0),
        Bid::empty().price(100).amount(6).user_id(1),
        Bid::empty().price(101).amount(5).user_id(1),
        Bid::empty().price(100).amount(2).user_id(1),
    ]);
    let rng = buying_bid.what_matches();
    let reference = vec![
        (3, Bid::empty().price(70).amount(5).user_id(0)),
        (2, Bid::empty().price(90).amount(5).user_id(1)),
        (0, Bid::empty().price(100).amount(4).user_id(1)),
        (4, Bid::empty().price(100).amount(6).user_id(1)),
        (6, Bid::empty().price(100).amount(2).user_id(1)),
    ];
    let matched = ids_and_bids(pool.view_range(&rng));
    assert_eq!(reference, matched);
}

#[test]
fn test_suitable_buying_pool() {
    let selling_bid: Bid<SellingBid> = Bid::empty().price(100).amount(15).user_id(0);
    let pool: Pool<BuyingBid> = Pool::from_bids(vec![
        Bid::empty().price(100).amount(4).user_id(1),
        Bid::empty().price(150).amount(2).user_id(1),
        Bid::empty().price(90).amount(5).user_id(1),
        Bid::empty().price(100).amount(5).user_id(0),
        Bid::empty().price(100).amount(6).user_id(1),
        Bid::empty().price(101).amount(5).user_id(1),
        Bid::empty().price(100).amount(2).user_id(1),
    ]);
    let check = ids_and_bids(pool.get_suitable(&selling_bid));
    let expected = vec![
        (1, Bid::empty().price(150).amount(2).user_id(1)),
        (5, Bid::empty().price(101).amount(5).user_id(1)),
        (0, Bid::empty().price(100).amount(4).user_id(1)),
        (4, Bid::empty().price(100).amount(6).user_id(1)),
    ];
    assert_eq!(expected, check);
}

#[test]
fn test_suitable_selling_pool() {
    let buying_bid: Bid<BuyingBid> = Bid::empty().price(100).amount(15).user_id(0);
    let pool: Pool<SellingBid> = Pool::from_bids(vec![
        Bid::empty().price(100).amount(4).user_id(1),
        Bid::empty().price(150).amount(2).user_id(1),
        Bid::empty().price(90).amount(5).user_id(1),
        Bid::empty().price(70).amount(5).user_id(0),
        Bid::empty().price(100).amount(6).user_id(1),
        Bid::empty().price(101).amount(5).user_id(1),
        Bid::empty().price(100).amount(2).user_id(1),
    ]);
    let reference = vec![
        (2, Bid::empty().price(90).amount(5).user_id(1)),
        (0, Bid::empty().price(100).amount(4).user_id(1)),
        (4, Bid::empty().price(100).amount(6).user_id(1)),
    ];
    let check = ids_and_bids(pool.get_suitable(&buying_bid));
    assert_eq!(reference, check);
}

#[test]
fn push_gives_growing_arrival_numbers() {
    let mut pool: Pool<BuyingBid> = Pool::new();
    pool.push(Bid::empty().price(100).amount(3).user_id(1));
    pool.push(Bid::empty().price(100).amount(3).user_id(2));
    pool.push(Bid::empty().price(120).amount(1).user_id(3));
    let ids: Vec<usize> = pool.view_entries().into_iter().map(|(key, _)| key.id).collect();
    assert_eq!(ids, vec![3, 1, 2]);
    let prices: Vec<u64> = pool.view_bids().into_iter().map(|b| b.price).collect();
    assert_eq!(prices, vec![120, 100, 100]);
}

#[test]
fn process_bid_limit_leaves_remainder() {
    let mut pool: Pool<SellingBid> = Pool::from_bids(vec![
        Bid::empty().price(10).amount(2).user_id(1),
        Bid::empty().price(11).amount(2).user_id(2),
        Bid::empty().price(12).amount(2).user_id(3),
    ]);
    let buy: Bid<BuyingBid> = Bid::empty().price(11).amount(5).user_id(9);
    let (rest, events) = pool.process_bid(buy, BidProcessingType::Limit);
    assert_eq!(rest, Some(Bid::empty().price(11).amount(1).user_id(9)));
    assert_eq!(events.len(), 2);
    assert_eq!(pool.view_bids(), vec![Bid::empty().price(12).amount(2).user_id(3)]);
}

#[test]
fn process_bid_fill_or_kill_shortfall_drops() {
    let mut pool: Pool<SellingBid> = Pool::from_bids(vec![Bid::empty().price(10).amount(2).user_id(1)]);
    let buy: Bid<BuyingBid> = Bid::empty().price(10).amount(3).user_id(9);
    let (rest, events) = pool.process_bid(buy, BidProcessingType::FillOrKill);
    assert_eq!(rest, None);
    assert!(matches!(
        events.as_slice(),
        [Event::Drop { user_id: 9, price: 10, amount: 3, reason: DropReason::FillOrKillShortfall, .. }]
    ));
    assert_eq!(pool.view_bids(), vec![Bid::empty().price(10).amount(2).user_id(1)]);
}
