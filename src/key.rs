//! Keys of the bids pools: a price and an arrival number.
use crate::bids::{GenericBid, Side};
use std::marker::PhantomData;
use vstd::prelude::*;

verus! {

/// Whether the key `(a_price, a_id)` comes strictly before `(b_price, b_id)` in a book of the
/// given side: the better price first, and among equal prices the earlier arrival.
pub open spec fn key_precedes(side: Side, a_price: u64, a_id: usize, b_price: u64, b_id: usize) -> bool {
    if a_price == b_price {
        a_id < b_id
    } else if side == Side::Buy {
        a_price > b_price
    } else {
        a_price < b_price
    }
}

/// Executable form of [`key_precedes`].
pub fn precedes_in(side: Side, a_price: u64, a_id: usize, b_price: u64, b_id: usize) -> (r: bool)
    ensures
        r == key_precedes(side, a_price, a_id, b_price, b_id),
{
    if a_price == b_price {
        a_id < b_id
    } else {
        match side {
            Side::Buy => a_price > b_price,
            Side::Sell => a_price < b_price,
        }
    }
}

/// The key of a bid resting in a pool of `BidKind` bids.
#[derive(PartialEq, Eq, Debug)]
pub struct PoolKey<BidKind> {
    /// Arrival number of the bid in its pool.
    pub id: usize,
    /// Price of the bid.
    pub price: u64,
    /// The kind of the pool, as a type.
    pub kind: PhantomData<BidKind>,
}

impl<BidKind> Clone for PoolKey<BidKind> {
    fn clone(&self) -> (r: Self)
        ensures
            r == *self,
    {
        *self
    }
}

impl<BidKind> Copy for PoolKey<BidKind> {}

impl<BidKind> PoolKey<BidKind> {
    /// A key from an arrival number and a price.
    pub fn new(id: usize, price: u64) -> (r: Self)
        ensures
            r.id == id,
            r.price == price,
    {
        PoolKey { id, price, kind: PhantomData }
    }
}

impl<BidKind: GenericBid> PoolKey<BidKind> {
    pub open spec fn spec_precedes(&self, other: &Self) -> bool {
        key_precedes(BidKind::spec_side(), self.price, self.id, other.price, other.id)
    }

    /// Whether `self` has priority over `other` in a pool of `BidKind` bids.
    pub fn precedes(&self, other: &Self) -> (r: bool)
        ensures
            r == self.spec_precedes(other),
    {
        precedes_in(BidKind::side(), self.price, self.id, other.price, other.id)
    }
}

} // verus!
