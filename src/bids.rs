//! Bids-related types and traits.
use std::marker::PhantomData;
use vstd::prelude::*;

verus! {

/// Processing type of a bid.
#[derive(Debug, Clone, Copy, PartialEq, Eq, Structural)]
pub enum BidProcessingType {
    /// The bid might be executed partially. The part that can not be executed immediately is
    /// put on the book.
    Limit,
    /// The bid is executed either completely or not at all.
    FillOrKill,
    /// The bid might be executed partially. The part that can not be executed immediately is
    /// dropped.
    ImmediateOrCancel,
}

/// Side of the book an order belongs to.
#[derive(Debug, Clone, Copy, PartialEq, Eq, Structural)]
pub enum Side {
    Sell,
    Buy,
}

impl Side {
    pub open spec fn spec_opposite(self) -> Side {
        match self {
            Side::Sell => Side::Buy,
            Side::Buy => Side::Sell,
        }
    }

    /// The other side.
    pub fn opposite(self) -> (r: Side)
        ensures
            r == self.spec_opposite(),
    {
        match self {
            Side::Sell => Side::Buy,
            Side::Buy => Side::Sell,
        }
    }
}

/// A helper trait that matches selling and buying bids at compile time.
pub trait GenericBid: Sized {
    /// The opposite kind of bid.
    type Opposite;

    spec fn spec_side() -> Side;

    /// The side this kind of bid rests on.
    fn side() -> (r: Side)
        ensures
            r == Self::spec_side(),
    ;

    /// Verb ("bought"/"sold") and direction ("from"/"to") of the deal.
    fn deal_verb_direction() -> (&'static str, &'static str);

    /// Literal name of the bid's kind.
    fn kind_name() -> &'static str;
}

/// A marker type that marks a `Bid` as a *selling* bid.
#[derive(Debug, PartialEq, Eq, Clone, Copy)]
pub struct SellingBid;

/// A marker type that marks a `Bid` as a *buying* bid.
#[derive(Debug, PartialEq, Eq, Clone, Copy)]
pub struct BuyingBid;

impl GenericBid for BuyingBid {
    type Opposite = SellingBid;

    open spec fn spec_side() -> Side {
        Side::Buy
    }

    fn side() -> (r: Side) {
        Side::Buy
    }

    fn deal_verb_direction() -> (&'static str, &'static str) {
        ("bought", "from")
    }

    fn kind_name() -> &'static str {
        "buying bid"
    }
}

impl GenericBid for SellingBid {
    type Opposite = BuyingBid;

    open spec fn spec_side() -> Side {
        Side::Sell
    }

    fn side() -> (r: Side) {
        Side::Sell
    }

    fn deal_verb_direction() -> (&'static str, &'static str) {
        ("sold", "to")
    }

    fn kind_name() -> &'static str {
        "selling bid"
    }
}

/// A selling or a buying bid; its kind is the `BidKind` argument.
#[derive(Debug, PartialEq, Eq)]
pub struct Bid<BidKind> {
    /// The highest price for a buying bid, the lowest for a selling bid.
    pub price: u64,
    /// Amount of items to trade.
    pub amount: u64,
    /// Bid's user id.
    pub user_id: u64,
    /// The kind of the bid, as a type.
    pub kind: PhantomData<BidKind>,
}

impl<BidKind> Clone for Bid<BidKind> {
    fn clone(&self) -> (r: Self)
        ensures
            r == *self,
    {
        *self
    }
}

impl<BidKind> Copy for Bid<BidKind> {}

impl<BidKind> Bid<BidKind> {
    /// An empty bid (zero price, zero amount and zero user id).
    pub fn empty() -> (r: Self)
        ensures
            r.price == 0,
            r.amount == 0,
            r.user_id == 0,
    {
        Bid { price: 0, amount: 0, user_id: 0, kind: PhantomData }
    }

    /// Updates the price.
    pub fn price(self, price: u64) -> (r: Self)
        ensures
            r.price == price,
            r.amount == self.amount,
            r.user_id == self.user_id,
    {
        Bid { price: price, ..self }
    }

    /// Updates the amount.
    pub fn amount(self, amount: u64) -> (r: Self)
        ensures
            r.price == self.price,
            r.amount == amount,
            r.user_id == self.user_id,
    {
        Bid { amount: amount, ..self }
    }

    /// Updates the user id.
    pub fn user_id(self, user_id: u64) -> (r: Self)
        ensures
            r.price == self.price,
            r.amount == self.amount,
            r.user_id == user_id,
    {
        Bid { user_id: user_id, ..self }
    }
}

} // verus!
