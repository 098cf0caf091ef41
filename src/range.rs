//! The range of keys that a bid can be matched against.
use crate::bids::{Bid, BuyingBid, SellingBid};
use crate::key::PoolKey;
use vstd::prelude::*;

verus! {

/// A bid that can be matched against a pool of `Against` bids.
pub trait MatchingRange<Against>: Sized {
    /// The limit price of `self`.
    spec fn limit_price(&self) -> u64;

    /// The key before which (exclusively) every key of a pool matches `self` by price.
    fn what_matches(&self) -> (r: PoolKey<Against>)
        ensures
            r.id == usize::MAX,
            r.price == self.limit_price(),
    ;
}

impl MatchingRange<SellingBid> for Bid<BuyingBid> {
    open spec fn limit_price(&self) -> u64 {
        self.price
    }

    fn what_matches(&self) -> (r: PoolKey<SellingBid>) {
        let maximum_buying_price = self.price;
        PoolKey::new(usize::MAX, maximum_buying_price)
    }
}

impl MatchingRange<BuyingBid> for Bid<SellingBid> {
    open spec fn limit_price(&self) -> u64 {
        self.price
    }

    fn what_matches(&self) -> (r: PoolKey<BuyingBid>) {
        let minimum_selling_price = self.price;
        PoolKey::new(usize::MAX, minimum_selling_price)
    }
}

} // verus!
