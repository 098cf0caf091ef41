//! An order book: a pool of selling bids and a pool of buying bids.
use crate::bids::{Bid, BidProcessingType, BuyingBid, SellingBid, Side};
use crate::events::Event;
use crate::pool::{outcome, Pool, Resting};
use vstd::prelude::*;

verus! {

/// One incoming order, as plain values.
#[derive(Debug, Clone, Copy, PartialEq, Eq, Structural)]
pub struct Submission {
    pub side: Side,
    pub price: u64,
    pub amount: u64,
    pub user_id: u64,
    pub processing_type: BidProcessingType,
}

/// Whether `post` (with last arrival number `post_last`) is `pre` (with `pre_last`) after
/// putting on it `remainder` items of `user` at `price`, where a zero remainder puts nothing.
pub open spec fn rested(
    pre: Seq<Resting>,
    pre_last: usize,
    post: Seq<Resting>,
    post_last: usize,
    price: u64,
    remainder: nat,
    user: u64,
) -> bool {
    if remainder == 0 {
        post == pre && post_last == pre_last
    } else {
        &&& post_last == pre_last + 1
        &&& exists|p: int|
            0 <= p <= pre.len() && post == #[trigger] pre.insert(
                p,
                Resting { id: post_last, price, amount: remainder as u64, user_id: user },
            )
    }
}

/// The events of a taker bid: those of the matching, then the adding of its remainder.
pub open spec fn with_add(events: Seq<Event>, remainder: nat, user: u64, price: u64, side: Side) -> Seq<Event> {
    if remainder == 0 {
        events
    } else {
        events.push(Event::Add { user_id: user, price, amount: remainder as u64, side })
    }
}

/// Bids queues.
pub struct OrderBook {
    pub(crate) sellers: Pool<SellingBid>,
    pub(crate) buyers: Pool<BuyingBid>,
}

impl OrderBook {
    pub closed spec fn spec_sellers(&self) -> Pool<SellingBid> {
        self.sellers
    }

    pub closed spec fn spec_buyers(&self) -> Pool<BuyingBid> {
        self.buyers
    }

    pub open spec fn wf(&self) -> bool {
        self.spec_sellers().wf() && self.spec_buyers().wf()
    }

    /// Whether a bid of `side` can still be put on its pool.
    pub open spec fn has_room(&self, side: Side) -> bool {
        match side {
            Side::Sell => self.spec_sellers().has_room(),
            Side::Buy => self.spec_buyers().has_room(),
        }
    }

    /// Whether `post` is `pre` after processing a taker of `side` (limit `price`, `amount`
    /// items, user `user`, type `ty`) with the events `events`.
    pub open spec fn submitted(
        pre: OrderBook,
        post: OrderBook,
        side: Side,
        price: u64,
        amount: u64,
        user: u64,
        ty: BidProcessingType,
        events: Seq<Event>,
    ) -> bool {
        match side {
            Side::Sell => {
                let o = outcome(Side::Buy, pre.spec_buyers()@, price, amount, user, ty);
                &&& post.spec_buyers()@ == o.0
                &&& post.spec_buyers().last_id() == pre.spec_buyers().last_id()
                &&& rested(pre.spec_sellers()@, pre.spec_sellers().last_id(), post.spec_sellers()@, post.spec_sellers().last_id(), price, o.2, user)
                &&& events == with_add(o.1, o.2, user, price, Side::Sell)
            },
            Side::Buy => {
                let o = outcome(Side::Sell, pre.spec_sellers()@, price, amount, user, ty);
                &&& post.spec_sellers()@ == o.0
                &&& post.spec_sellers().last_id() == pre.spec_sellers().last_id()
                &&& rested(pre.spec_buyers()@, pre.spec_buyers().last_id(), post.spec_buyers()@, post.spec_buyers().last_id(), price, o.2, user)
                &&& events == with_add(o.1, o.2, user, price, Side::Buy)
            },
        }
    }

    /// An empty order book.
    pub fn empty() -> (r: Self)
        ensures
            r.wf(),
            r.spec_sellers()@ == Seq::<Resting>::empty(),
            r.spec_buyers()@ == Seq::<Resting>::empty(),
            r.spec_sellers().last_id() == 0,
            r.spec_buyers().last_id() == 0,
    {
        OrderBook { sellers: Pool::new(), buyers: Pool::new() }
    }

    /// Whether a bid of `side` can still be put on its pool.
    pub fn can_rest(&self, side: Side) -> (r: bool)
        ensures
            r == self.has_room(side),
    {
        match side {
            Side::Sell => self.sellers.can_push(),
            Side::Buy => self.buyers.can_push(),
        }
    }

    /// Processes a selling bid: matches it against the buying bids and puts what `ty` lets
    /// rest on the selling bids.
    pub fn process_selling(&mut self, bid: Bid<SellingBid>, bid_type: BidProcessingType) -> (events: Vec<Event>)
        requires
            old(self).wf(),
            old(self).has_room(Side::Sell),
        ensures
            final(self).wf(),
            OrderBook::submitted(*old(self), *final(self), Side::Sell, bid.price, bid.amount, bid.user_id, bid_type, events@),
    {
        let (rest, mut events) = self.buyers.process_bid(bid, bid_type);
        if let Some(rest_of_the_bid) = rest {
            self.sellers.push(rest_of_the_bid);
            events.push(
                Event::Add {
                    user_id: rest_of_the_bid.user_id,
                    price: rest_of_the_bid.price,
                    amount: rest_of_the_bid.amount,
                    side: Side::Sell,
                },
            );
        }
        events
    }

    /// Processes a buying bid: matches it against the selling bids and puts what `ty` lets
    /// rest on the buying bids.
    pub fn process_buying(&mut self, bid: Bid<BuyingBid>, bid_type: BidProcessingType) -> (events: Vec<Event>)
        requires
            old(self).wf(),
            old(self).has_room(Side::Buy),
        ensures
            final(self).wf(),
            OrderBook::submitted(*old(self), *final(self), Side::Buy, bid.price, bid.amount, bid.user_id, bid_type, events@),
    {
        let (rest, mut events) = self.sellers.process_bid(bid, bid_type);
        if let Some(rest_of_the_bid) = rest {
            self.buyers.push(rest_of_the_bid);
            events.push(
                Event::Add {
                    user_id: rest_of_the_bid.user_id,
                    price: rest_of_the_bid.price,
                    amount: rest_of_the_bid.amount,
                    side: Side::Buy,
                },
            );
        }
        events
    }

    /// Processes one submission on the side it names.
    pub fn process(&mut self, order: Submission) -> (events: Vec<Event>)
        requires
            old(self).wf(),
            old(self).has_room(order.side),
        ensures
            final(self).wf(),
            OrderBook::submitted(
                *old(self),
                *final(self),
                order.side,
                order.price,
                order.amount,
                order.user_id,
                order.processing_type,
                events@,
            ),
    {
        match order.side {
            Side::Sell => {
                let bid = Bid::empty().price(order.price).amount(order.amount).user_id(order.user_id);
                self.process_selling(bid, order.processing_type)
            },
            Side::Buy => {
                let bid = Bid::empty().price(order.price).amount(order.amount).user_id(order.user_id);
                self.process_buying(bid, order.processing_type)
            },
        }
    }

    /// The selling bids in priority order.
    pub fn sellers_view(&self) -> (r: Vec<Bid<SellingBid>>)
        ensures
            r@.len() == self.spec_sellers()@.len(),
            forall|i: int| 0 <= i < r@.len() ==> crate::pool::describes(#[trigger] r@[i], self.spec_sellers()@[i]),
    {
        self.sellers.view_bids()
    }

    /// The buying bids in priority order.
    pub fn buyers_view(&self) -> (r: Vec<Bid<BuyingBid>>)
        ensures
            r@.len() == self.spec_buyers()@.len(),
            forall|i: int| 0 <= i < r@.len() ==> crate::pool::describes(#[trigger] r@[i], self.spec_buyers()@[i]),
    {
        self.buyers.view_bids()
    }
}

} // verus!
