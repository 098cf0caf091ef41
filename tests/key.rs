use simple_stock_matcher_experiment::bids::{Bid, BuyingBid, SellingBid};
use simple_stock_matcher_experiment::key::PoolKey;
use simple_stock_matcher_experiment::range::MatchingRange;

#[test]
fn buying_keys_prefer_higher_prices() {
    let a: PoolKey<BuyingBid> = PoolKey::new(5, 101);
    let b: PoolKey<BuyingBid> = PoolKey::new(1, 100);
    assert!(a.precedes(&b));
    assert!(!b.precedes(&a));
    let c: PoolKey<BuyingBid> = PoolKey::new(2, 100);
    assert!(b.precedes(&c));
    assert!(!c.precedes(&b));
}

#[test]
fn selling_keys_prefer_lower_prices() {
    let a: PoolKey<SellingBid> = PoolKey::new(5, 99);
    let b: PoolKey<SellingBid> = PoolKey::new(1, 100);
    assert!(a.precedes(&b));
    assert!(!b.precedes(&a));
    let c: PoolKey<SellingBid> = PoolKey::new(2, 100);
    assert!(b.precedes(&c));
}

#[test]
fn matching_range_ends_after_every_arrival() {
    let b: Bid<BuyingBid> = Bid::empty().price(42).amount(1).user_id(3);
    let end = b.what_matches();
    assert_eq!(end.id, usize::MAX);
    assert_eq!(end.price, 42);
    let s: Bid<SellingBid> = Bid::empty().price(7);
    let end = s.what_matches();
    assert_eq!(end.price, 7);
    assert!(PoolKey::<BuyingBid>::new(9, 7).precedes(&end));
    assert!(!PoolKey::<BuyingBid>::new(9, 6).precedes(&end));
}

#[test]
fn builders_set_fields() {
    let b: Bid<SellingBid> = Bid::empty();
    assert_eq!((b.price, b.amount, b.user_id), (0, 0, 0));
    let b = b.price(3).amount(4).user_id(5);
    assert_eq!((b.price, b.amount, b.user_id), (3, 4, 5));
}
