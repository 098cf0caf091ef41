use simple_stock_matcher_experiment::bids::{Bid, BidProcessingType, BuyingBid, GenericBid, SellingBid, Side};
use simple_stock_matcher_experiment::events::{DropReason, Event};
use simple_stock_matcher_experiment::{OrderBook, Submission};

fn sell(price: u64, amount: u64, user_id: u64) -> Bid<SellingBid> {
    Bid::empty().price(price).amount(amount).user_id(user_id)
}

fn buy(price: u64, amount: u64, user_id: u64) -> Bid<BuyingBid> {
    Bid::empty().price(price).amount(amount).user_id(user_id)
}

fn trade(taker_user: u64, maker_user: u64, amount: u64, price: u64, taker_side: Side) -> Event {
    Event::Trade { taker_user, maker_user, amount, price, taker_side }
}

fn traded(events: &[Event]) -> u64 {
    events
        .iter()
        .map(|e| match e {
            Event::Trade { amount, .. } => *amount,
            _ => 0,
        })
        .sum()
}

fn resting_total_sell(book: &OrderBook) -> u64 {
    book.sellers_view().iter().map(|b| b.amount).sum()
}

fn resting_total_buy(book: &OrderBook) -> u64 {
    book.buyers_view().iter().map(|b| b.amount).sum()
}

#[test]
fn test_process() {
    let mut order_book = OrderBook::empty();
    order_book.process(Submission {
        side: Side::Sell,
        price: 10,
        amount: 99,
        user_id: 15,
        processing_type: BidProcessingType::Limit,
    });
    order_book.process(Submission {
        side: Side::Buy,
        price: 100_500,
        amount: 104,
        user_id: 16,
        processing_type: BidProcessingType::Limit,
    });
    let selling_bids = order_book.sellers_view();
    let buying_bids = order_book.buyers_view();
    let expected_buying = vec![Bid::empty().price(100_500).amount(5).user_id(16)];
    assert!(selling_bids.is_empty(), "{:?}", selling_bids);
    assert_eq!(buying_bids, expected_buying);
}

#[test]
fn limit_buy_crosses_two_sells() {
    let mut book = OrderBook::empty();
    assert!(book.process_selling(sell(10, 5, 1), BidProcessingType::Limit).len() == 1);
    book.process_selling(sell(10, 5, 2), BidProcessingType::Limit);
    let events = book.process_buying(buy(10, 7, 3), BidProcessingType::Limit);
    assert_eq!(events, vec![trade(3, 1, 5, 10, Side::Buy), trade(3, 2, 2, 10, Side::Buy)]);
    assert_eq!(book.sellers_view(), vec![sell(10, 3, 2)]);
    assert!(book.buyers_view().is_empty());
}

#[test]
fn fill_or_kill_is_killed() {
    let mut book = OrderBook::empty();
    book.process_selling(sell(100, 10, 1), BidProcessingType::Limit);
    let events = book.process_buying(buy(100, 15, 2), BidProcessingType::FillOrKill);
    assert_eq!(
        events,
        vec![Event::Drop {
            user_id: 2,
            price: 100,
            amount: 15,
            side: Side::Buy,
            reason: DropReason::FillOrKillShortfall
        }]
    );
    assert_eq!(book.sellers_view(), vec![sell(100, 10, 1)]);
    assert!(book.buyers_view().is_empty());
}

#[test]
fn fill_or_kill_is_filled() {
    let mut book = OrderBook::empty();
    book.process_selling(sell(10, 5, 1), BidProcessingType::Limit);
    book.process_selling(sell(10, 5, 2), BidProcessingType::Limit);
    let events = book.process_buying(buy(10, 7, 3), BidProcessingType::FillOrKill);
    assert_eq!(events, vec![trade(3, 1, 5, 10, Side::Buy), trade(3, 2, 2, 10, Side::Buy)]);
    assert_eq!(book.sellers_view(), vec![sell(10, 3, 2)]);
    assert!(book.buyers_view().is_empty());
}

#[test]
fn immediate_or_cancel_partial() {
    let mut book = OrderBook::empty();
    book.process_selling(sell(10, 3, 1), BidProcessingType::Limit);
    let events = book.process_buying(buy(10, 10, 2), BidProcessingType::ImmediateOrCancel);
    assert_eq!(events, vec![trade(2, 1, 3, 10, Side::Buy)]);
    assert!(book.sellers_view().is_empty());
    assert!(book.buyers_view().is_empty());
}

#[test]
fn immediate_or_cancel_without_fill_is_dropped() {
    let mut book = OrderBook::empty();
    let events = book.process_selling(sell(10, 4, 1), BidProcessingType::ImmediateOrCancel);
    assert_eq!(
        events,
        vec![Event::Drop {
            user_id: 1,
            price: 10,
            amount: 4,
            side: Side::Sell,
            reason: DropReason::NothingFilled
        }]
    );
    assert!(book.sellers_view().is_empty());
}

#[test]
fn self_trade_is_skipped() {
    let mut book = OrderBook::empty();
    book.process_buying(buy(100, 5, 1), BidProcessingType::Limit);
    let events = book.process_selling(sell(100, 5, 1), BidProcessingType::Limit);
    assert_eq!(
        events,
        vec![Event::Add { user_id: 1, price: 100, amount: 5, side: Side::Sell }]
    );
    assert_eq!(book.sellers_view(), vec![sell(100, 5, 1)]);
    let events = book.process_buying(buy(100, 5, 2), BidProcessingType::Limit);
    assert_eq!(events, vec![trade(2, 1, 5, 100, Side::Buy)]);
    assert!(book.sellers_view().is_empty());
    assert_eq!(book.buyers_view(), vec![buy(100, 5, 1)]);
}

#[test]
fn time_priority_among_equal_prices() {
    let mut book = OrderBook::empty();
    book.process_buying(buy(100, 3, 10), BidProcessingType::Limit);
    book.process_buying(buy(100, 3, 11), BidProcessingType::Limit);
    let events = book.process_selling(sell(100, 4, 12), BidProcessingType::Limit);
    assert_eq!(events, vec![trade(12, 10, 3, 100, Side::Sell), trade(12, 11, 1, 100, Side::Sell)]);
    assert_eq!(book.buyers_view(), vec![buy(100, 2, 11)]);
    assert!(book.sellers_view().is_empty());
}

#[test]
fn zero_amount_bid_does_nothing() {
    let mut book = OrderBook::empty();
    book.process_selling(sell(10, 3, 1), BidProcessingType::Limit);
    for ty in [BidProcessingType::Limit, BidProcessingType::FillOrKill, BidProcessingType::ImmediateOrCancel] {
        let events = book.process_buying(buy(10, 0, 2), ty);
        assert!(events.is_empty());
    }
    assert_eq!(book.sellers_view(), vec![sell(10, 3, 1)]);
    assert!(book.buyers_view().is_empty());
}

#[test]
fn empty_book_outcomes() {
    let mut book = OrderBook::empty();
    let events = book.process_buying(buy(10, 4, 1), BidProcessingType::FillOrKill);
    assert_eq!(events.len(), 1);
    let events = book.process_buying(buy(10, 0, 1), BidProcessingType::FillOrKill);
    assert!(events.is_empty());
    let events = book.process_buying(buy(10, 4, 1), BidProcessingType::Limit);
    assert_eq!(events, vec![Event::Add { user_id: 1, price: 10, amount: 4, side: Side::Buy }]);
    assert_eq!(book.buyers_view(), vec![buy(10, 4, 1)]);
}

#[test]
fn price_priority_and_limit_bound() {
    let mut book = OrderBook::empty();
    book.process_selling(sell(12, 1, 1), BidProcessingType::Limit);
    book.process_selling(sell(9, 1, 2), BidProcessingType::Limit);
    book.process_selling(sell(11, 1, 3), BidProcessingType::Limit);
    let prices: Vec<u64> = book.sellers_view().iter().map(|b| b.price).collect();
    assert_eq!(prices, vec![9, 11, 12]);
    let events = book.process_buying(buy(11, 5, 4), BidProcessingType::Limit);
    assert_eq!(events[0], trade(4, 2, 1, 9, Side::Buy));
    assert_eq!(events[1], trade(4, 3, 1, 11, Side::Buy));
    assert_eq!(events[2], Event::Add { user_id: 4, price: 11, amount: 3, side: Side::Buy });
    assert_eq!(book.sellers_view(), vec![sell(12, 1, 1)]);
    for e in &events {
        if let Event::Trade { price, .. } = e {
            assert!(*price <= 11);
        }
    }
}

#[test]
fn buy_book_orders_by_descending_price() {
    let mut book = OrderBook::empty();
    book.process_buying(buy(5, 1, 1), BidProcessingType::Limit);
    book.process_buying(buy(7, 1, 2), BidProcessingType::Limit);
    book.process_buying(buy(5, 1, 3), BidProcessingType::Limit);
    book.process_buying(buy(6, 1, 4), BidProcessingType::Limit);
    let order: Vec<(u64, u64)> = book.buyers_view().iter().map(|b| (b.price, b.user_id)).collect();
    assert_eq!(order, vec![(7, 2), (6, 4), (5, 1), (5, 3)]);
    let events = book.process_selling(sell(6, 3, 9), BidProcessingType::ImmediateOrCancel);
    assert_eq!(events, vec![trade(9, 2, 1, 7, Side::Sell), trade(9, 4, 1, 6, Side::Sell)]);
    assert!(book.sellers_view().is_empty());
}

#[test]
fn units_are_conserved() {
    let mut book = OrderBook::empty();
    book.process_selling(sell(10, 5, 1), BidProcessingType::Limit);
    book.process_selling(sell(11, 4, 2), BidProcessingType::Limit);
    book.process_selling(sell(12, 6, 3), BidProcessingType::Limit);
    let before = resting_total_sell(&book);
    let events = book.process_buying(buy(11, 12, 4), BidProcessingType::Limit);
    let t = traded(&events);
    assert_eq!(t, 9);
    assert_eq!(before, resting_total_sell(&book) + t);
    assert_eq!(12, t + resting_total_buy(&book));
    let events = book.process_buying(buy(12, 10, 5), BidProcessingType::ImmediateOrCancel);
    assert_eq!(traded(&events), 6);
    assert_eq!(resting_total_sell(&book), 0);
}

#[test]
fn fill_or_kill_skips_own_bids_when_counting() {
    let mut book = OrderBook::empty();
    book.process_selling(sell(10, 5, 1), BidProcessingType::Limit);
    book.process_selling(sell(10, 5, 2), BidProcessingType::Limit);
    let events = book.process_buying(buy(10, 7, 1), BidProcessingType::FillOrKill);
    assert_eq!(events.len(), 1);
    assert!(matches!(events[0], Event::Drop { reason: DropReason::FillOrKillShortfall, .. }));
    assert_eq!(book.sellers_view(), vec![sell(10, 5, 1), sell(10, 5, 2)]);
    let events = book.process_buying(buy(10, 5, 1), BidProcessingType::FillOrKill);
    assert_eq!(events, vec![trade(1, 2, 5, 10, Side::Buy)]);
    assert_eq!(book.sellers_view(), vec![sell(10, 5, 1)]);
}

#[test]
fn room_and_kind_names() {
    let book = OrderBook::empty();
    assert!(book.can_rest(Side::Sell));
    assert!(book.can_rest(Side::Buy));
    assert_eq!(BuyingBid::deal_verb_direction(), ("bought", "from"));
    assert_eq!(SellingBid::deal_verb_direction(), ("sold", "to"));
    assert_eq!(BuyingBid::kind_name(), "buying bid");
    assert_eq!(SellingBid::kind_name(), "selling bid");
    assert_eq!(Side::Buy.opposite(), Side::Sell);
}
