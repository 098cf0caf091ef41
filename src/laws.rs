//! Laws of the matcher, stated over the models of the pools and the order book.
use crate::bids::{BidProcessingType, GenericBid, Side};
use crate::events::{DropReason, Event};
use crate::order_book::OrderBook;
use crate::pool::{liquidity, outcome, price_matches, walk, Pool, Resting};
use vstd::prelude::*;

verus! {

/// The items of user `u` resting in `s`.
pub open spec fn units_of(s: Seq<Resting>, u: u64) -> nat
    decreases s.len(),
{
    if s.len() == 0 {
        0
    } else {
        (if s[0].user_id == u {
            s[0].amount as nat
        } else {
            0
        }) + units_of(s.drop_first(), u)
    }
}

/// All the items resting in `s`.
pub open spec fn total_units(s: Seq<Resting>) -> nat
    decreases s.len(),
{
    if s.len() == 0 {
        0
    } else {
        s[0].amount as nat + total_units(s.drop_first())
    }
}

/// The items traded in the trades of `events`.
pub open spec fn traded_units(events: Seq<Event>) -> nat
    decreases events.len(),
{
    if events.len() == 0 {
        0
    } else {
        (match events[0] {
            Event::Trade { amount, .. } => amount as nat,
            _ => 0,
        }) + traded_units(events.drop_first())
    }
}

/// The items that user `u` gave up as the resting side of the trades of `events`.
pub open spec fn maker_units(events: Seq<Event>, u: u64) -> nat
    decreases events.len(),
{
    if events.len() == 0 {
        0
    } else {
        (match events[0] {
            Event::Trade { amount, maker_user, .. } => if maker_user == u {
                amount as nat
            } else {
                0
            },
            _ => 0,
        }) + maker_units(events.drop_first(), u)
    }
}

/// The items that user `u` put to rest according to the additions of `events`.
pub open spec fn added_units(events: Seq<Event>, u: u64) -> nat
    decreases events.len(),
{
    if events.len() == 0 {
        0
    } else {
        (match events[0] {
            Event::Add { amount, user_id, .. } => if user_id == u {
                amount as nat
            } else {
                0
            },
            _ => 0,
        }) + added_units(events.drop_first(), u)
    }
}

/// Whether `e` is a trade of the taker `user` (limit `limit`) with a bid resting on `side`
/// of another user at a price that matches the limit.
pub open spec fn fair_trade(side: Side, user: u64, limit: u64, e: Event) -> bool {
    &&& e matches Event::Trade { taker_user, maker_user, price, taker_side, .. }
    &&& taker_user == user
    &&& maker_user != user
    &&& taker_side == side.spec_opposite()
    &&& price_matches(side, price, limit)
}

proof fn lemma_walk_units(side: Side, s: Seq<Resting>, limit: u64, user: u64, need: nat, u: u64)
    ensures
        units_of(s, u) == units_of(walk(side, s, limit, user, need).0, u) + maker_units(
            walk(side, s, limit, user, need).1,
            u,
        ),
        total_units(s) == total_units(walk(side, s, limit, user, need).0) + traded_units(
            walk(side, s, limit, user, need).1,
        ),
        traded_units(walk(side, s, limit, user, need).1) + walk(side, s, limit, user, need).2 == need,
        forall|i: int|
            0 <= i < walk(side, s, limit, user, need).1.len() ==> fair_trade(
                side,
                user,
                limit,
                #[trigger] walk(side, s, limit, user, need).1[i],
            ),
    decreases s.len(),
{
    if s.len() == 0 || need == 0 {
        assert(traded_units(Seq::<Event>::empty()) == 0);
    } else {
        let r = s[0];
        let t = s.drop_first();
        if !crate::pool::eligible(side, r, limit, user) {
            lemma_walk_units(side, t, limit, user, need, u);
            let w = walk(side, t, limit, user, need);
            assert((seq![r] + w.0).drop_first() =~= w.0);
        } else if r.amount <= need {
            let rest_need = (need - r.amount) as nat;
            lemma_walk_units(side, t, limit, user, rest_need, u);
            let w = walk(side, t, limit, user, rest_need);
            let e = crate::pool::trade(side, user, r, r.amount);
            let q = seq![e] + w.1;
            assert(q.drop_first() =~= w.1);
            assert forall|i: int| 0 <= i < q.len() implies fair_trade(side, user, limit, #[trigger] q[i]) by {
                if i > 0 {
                    assert(q[i] == w.1[i - 1]);
                }
            }
        } else {
            let part = crate::pool::with_amount(r, (r.amount - need) as u64);
            let q = seq![part] + t;
            assert(q.drop_first() =~= t);
            let ev = seq![crate::pool::trade(side, user, r, need as u64)];
            assert(ev.drop_first() =~= Seq::<Event>::empty());
            assert(traded_units(Seq::<Event>::empty()) == 0);
            assert(maker_units(Seq::<Event>::empty(), u) == 0);
        }
    }
}

/// Price-time priority: in a pool of buying bids prices never increase along the priority
/// order, in a pool of selling bids they never decrease, and bids of equal price come in the
/// order of their arrival numbers.
pub proof fn lemma_price_time_priority<BidKind: GenericBid>(pool: Pool<BidKind>)
    requires
        pool.wf(),
    ensures
        forall|i: int, j: int|
            0 <= i < j < pool@.len() ==> {
                &&& BidKind::spec_side() == Side::Buy ==> pool@[i].price >= pool@[j].price
                &&& BidKind::spec_side() == Side::Sell ==> pool@[i].price <= pool@[j].price
                &&& pool@[i].price == pool@[j].price ==> pool@[i].id < pool@[j].id
            },
{
    assert forall|i: int, j: int| 0 <= i < j < pool@.len() implies {
        &&& BidKind::spec_side() == Side::Buy ==> pool@[i].price >= pool@[j].price
        &&& BidKind::spec_side() == Side::Sell ==> pool@[i].price <= pool@[j].price
        &&& pool@[i].price == pool@[j].price ==> pool@[i].id < pool@[j].id
    } by {
        assert(crate::pool::before(BidKind::spec_side(), pool@[i], pool@[j]));
    }
}

/// Conservation: processing a taker against the entries `s` of a pool takes from each user
/// exactly what that user gave up in trades, and from the pool in all exactly what was
/// traded; the taker's items are traded, put to rest (limit bids only) or dropped.
pub proof fn lemma_conservation(
    side: Side,
    s: Seq<Resting>,
    price: u64,
    amount: u64,
    user: u64,
    ty: BidProcessingType,
    u: u64,
)
    ensures
        units_of(s, u) == units_of(outcome(side, s, price, amount, user, ty).0, u) + maker_units(
            outcome(side, s, price, amount, user, ty).1,
            u,
        ),
        total_units(s) == total_units(outcome(side, s, price, amount, user, ty).0) + traded_units(
            outcome(side, s, price, amount, user, ty).1,
        ),
        ty == BidProcessingType::Limit ==> traded_units(outcome(side, s, price, amount, user, ty).1)
            + outcome(side, s, price, amount, user, ty).2 == amount,
        ty != BidProcessingType::Limit ==> outcome(side, s, price, amount, user, ty).2 == 0
            && traded_units(outcome(side, s, price, amount, user, ty).1) <= amount,
{
    lemma_walk_units(side, s, price, user, amount as nat, u);
    let w = walk(side, s, price, user, amount as nat);
    let d = seq![crate::pool::drop_event(side.spec_opposite(), user, price, amount, DropReason::FillOrKillShortfall)];
    assert(d.drop_first() =~= Seq::<Event>::empty());
    assert(traded_units(Seq::<Event>::empty()) == 0);
    assert(maker_units(Seq::<Event>::empty(), u) == 0);
    let d2 = seq![crate::pool::drop_event(side.spec_opposite(), user, price, amount, DropReason::NothingFilled)];
    assert(d2.drop_first() =~= Seq::<Event>::empty());
    if w.1.len() == 0 {
        assert(w.1 =~= Seq::<Event>::empty());
    }
}

/// No trade is between two bids of the same user.
pub proof fn lemma_no_self_trade(
    side: Side,
    s: Seq<Resting>,
    price: u64,
    amount: u64,
    user: u64,
    ty: BidProcessingType,
)
    ensures
        forall|i: int|
            0 <= i < outcome(side, s, price, amount, user, ty).1.len() ==> (#[trigger] outcome(
                side,
                s,
                price,
                amount,
                user,
                ty,
            ).1[i] matches Event::Trade { taker_user, maker_user, .. } ==> taker_user == user
                && maker_user != taker_user),
{
    lemma_walk_units(side, s, price, user, amount as nat, 0);
}

/// Fill-or-kill is atomic: a fill-or-kill taker trades either all its items or none, and in
/// the latter case leaves the pool as it was.
pub proof fn lemma_fill_or_kill_atomic(side: Side, s: Seq<Resting>, price: u64, amount: u64, user: u64)
    ensures
        traded_units(outcome(side, s, price, amount, user, BidProcessingType::FillOrKill).1) == amount || (
        traded_units(outcome(side, s, price, amount, user, BidProcessingType::FillOrKill).1) == 0
            && outcome(side, s, price, amount, user, BidProcessingType::FillOrKill).0 == s),
{
    lemma_walk_units(side, s, price, user, amount as nat, 0);
    crate::pool::lemma_walk_left(side, s, price, user, amount as nat);
    let d = seq![crate::pool::drop_event(side.spec_opposite(), user, price, amount, DropReason::FillOrKillShortfall)];
    assert(d.drop_first() =~= Seq::<Event>::empty());
    assert(traded_units(Seq::<Event>::empty()) == 0);
    if liquidity(side, s, price, user) >= amount {
    }
}

/// Only limit bids rest: processing a fill-or-kill or immediate-or-cancel taker leaves the
/// pool of its own side as it was and adds nothing.
pub proof fn lemma_only_limit_rests(
    pre: OrderBook,
    post: OrderBook,
    side: Side,
    price: u64,
    amount: u64,
    user: u64,
    ty: BidProcessingType,
    events: Seq<Event>,
)
    requires
        OrderBook::submitted(pre, post, side, price, amount, user, ty, events),
        ty != BidProcessingType::Limit,
    ensures
        side == Side::Sell ==> post.spec_sellers()@ == pre.spec_sellers()@,
        side == Side::Buy ==> post.spec_buyers()@ == pre.spec_buyers()@,
        forall|i: int| 0 <= i < events.len() ==> !(#[trigger] events[i] is Add),
{
    let book = if side == Side::Sell { Side::Buy } else { Side::Sell };
    let s = if side == Side::Sell { pre.spec_buyers()@ } else { pre.spec_sellers()@ };
    let o = outcome(book, s, price, amount, user, ty);
    lemma_walk_units(book, s, price, user, amount as nat, 0);
    assert forall|i: int| 0 <= i < events.len() implies !(#[trigger] events[i] is Add) by {
        assert(events[i] == o.1[i]);
        let w = walk(book, s, price, user, amount as nat);
        if o.1 != w.1 {
            assert(o.1.len() == 1);
        } else {
            assert(fair_trade(book, user, price, w.1[i]));
        }
    }
}

/// Price compatibility: a taker that sells trades at prices not below its limit, one that
/// buys at prices not above it.
pub proof fn lemma_price_compatible(
    side: Side,
    s: Seq<Resting>,
    price: u64,
    amount: u64,
    user: u64,
    ty: BidProcessingType,
)
    ensures
        forall|i: int|
            0 <= i < outcome(side, s, price, amount, user, ty).1.len() ==> (#[trigger] outcome(
                side,
                s,
                price,
                amount,
                user,
                ty,
            ).1[i] matches Event::Trade { price: maker_price, taker_side, .. } ==> {
                &&& taker_side == Side::Sell ==> maker_price >= price
                &&& taker_side == Side::Buy ==> maker_price <= price
            }),
{
    lemma_walk_units(side, s, price, user, amount as nat, 0);
}

/// Arrival numbers grow: a bid put to rest gets an arrival number above that of every bid
/// already on its pool.
pub proof fn lemma_arrival_numbers_grow(
    pre: OrderBook,
    post: OrderBook,
    side: Side,
    price: u64,
    amount: u64,
    user: u64,
    ty: BidProcessingType,
    events: Seq<Event>,
)
    requires
        pre.wf(),
        OrderBook::submitted(pre, post, side, price, amount, user, ty, events),
    ensures
        side == Side::Sell ==> post.spec_sellers().last_id() >= pre.spec_sellers().last_id(),
        side == Side::Buy ==> post.spec_buyers().last_id() >= pre.spec_buyers().last_id(),
        side == Side::Sell ==> forall|i: int|
            0 <= i < post.spec_sellers()@.len() && !pre.spec_sellers()@.contains(#[trigger] post.spec_sellers()@[i])
                ==> post.spec_sellers()@[i].id == post.spec_sellers().last_id()
                && forall|j: int| 0 <= j < pre.spec_sellers()@.len() ==> (#[trigger] pre.spec_sellers()@[j]).id < post.spec_sellers()@[i].id,
        side == Side::Buy ==> forall|i: int|
            0 <= i < post.spec_buyers()@.len() && !pre.spec_buyers()@.contains(#[trigger] post.spec_buyers()@[i])
                ==> post.spec_buyers()@[i].id == post.spec_buyers().last_id()
                && forall|j: int| 0 <= j < pre.spec_buyers()@.len() ==> (#[trigger] pre.spec_buyers()@[j]).id < post.spec_buyers()@[i].id,
{
    if side == Side::Sell {
        let o = outcome(Side::Buy, pre.spec_buyers()@, price, amount, user, ty);
        if o.2 > 0 {
            let a = pre.spec_sellers()@;
            let r = Resting { id: post.spec_sellers().last_id(), price, amount: o.2 as u64, user_id: user };
            let p = choose|p: int| 0 <= p <= a.len() && post.spec_sellers()@ == #[trigger] a.insert(p, r);
            a.insert_ensures(p, r);
            assert forall|i: int|
                0 <= i < post.spec_sellers()@.len() && !a.contains(#[trigger] post.spec_sellers()@[i])
                implies post.spec_sellers()@[i].id == post.spec_sellers().last_id() by {
                if i < p {
                    assert(a[i] == post.spec_sellers()@[i]);
                } else if i > p {
                    assert(a[i - 1] == post.spec_sellers()@[i]);
                }
            }
        }
    } else {
        let o = outcome(Side::Sell, pre.spec_sellers()@, price, amount, user, ty);
        if o.2 > 0 {
            let a = pre.spec_buyers()@;
            let r = Resting { id: post.spec_buyers().last_id(), price, amount: o.2 as u64, user_id: user };
            let p = choose|p: int| 0 <= p <= a.len() && post.spec_buyers()@ == #[trigger] a.insert(p, r);
            a.insert_ensures(p, r);
            assert forall|i: int|
                0 <= i < post.spec_buyers()@.len() && !a.contains(#[trigger] post.spec_buyers()@[i])
                implies post.spec_buyers()@[i].id == post.spec_buyers().last_id() by {
                if i < p {
                    assert(a[i] == post.spec_buyers()@[i]);
                } else if i > p {
                    assert(a[i - 1] == post.spec_buyers()@[i]);
                }
            }
        }
    }
}

proof fn lemma_units_insert(s: Seq<Resting>, p: int, r: Resting, u: u64)
    requires
        0 <= p <= s.len(),
    ensures
        units_of(s.insert(p, r), u) == units_of(s, u) + (if r.user_id == u {
            r.amount as nat
        } else {
            0
        }),
    decreases p,
{
    if p == 0 {
        assert(s.insert(0, r).drop_first() =~= s);
    } else {
        assert(s.insert(p, r).drop_first() =~= s.drop_first().insert(p - 1, r));
        assert(s.insert(p, r)[0] == s[0]);
        lemma_units_insert(s.drop_first(), p - 1, r, u);
    }
}

proof fn lemma_event_units_push(events: Seq<Event>, e: Event, u: u64)
    ensures
        maker_units(events.push(e), u) == maker_units(events, u) + maker_units(seq![e], u),
        traded_units(events.push(e)) == traded_units(events) + traded_units(seq![e]),
        added_units(events.push(e), u) == added_units(events, u) + added_units(seq![e], u),
    decreases events.len(),
{
    assert(seq![e].drop_first() =~= Seq::<Event>::empty());
    if events.len() == 0 {
        assert(events.push(e) =~= seq![e]);
    } else {
        assert(events.push(e).drop_first() =~= events.drop_first().push(e));
        assert(events.push(e)[0] == events[0]);
        lemma_event_units_push(events.drop_first(), e, u);
    }
}

proof fn lemma_no_additions(events: Seq<Event>, u: u64)
    requires
        forall|i: int| 0 <= i < events.len() ==> !(#[trigger] events[i] is Add),
    ensures
        added_units(events, u) == 0,
    decreases events.len(),
{
    if events.len() > 0 {
        let t = events.drop_first();
        assert forall|i: int| 0 <= i < t.len() implies !(#[trigger] t[i] is Add) by {
            assert(t[i] == events[i + 1]);
        }
        assert(!(events[0] is Add));
        lemma_no_additions(t, u);
    }
}

/// Conservation on the whole book: after a submission each user holds on the opposite pool
/// exactly what that user held before less what the user gave up in trades, and on the
/// taker's pool exactly what the user held before plus what was added for the user; the
/// taker's own items are traded, added (limit bids only) or dropped.
pub proof fn lemma_book_conservation(
    pre: OrderBook,
    post: OrderBook,
    side: Side,
    price: u64,
    amount: u64,
    user: u64,
    ty: BidProcessingType,
    events: Seq<Event>,
    u: u64,
)
    requires
        OrderBook::submitted(pre, post, side, price, amount, user, ty, events),
    ensures
        side == Side::Sell ==> units_of(pre.spec_buyers()@, u) == units_of(post.spec_buyers()@, u)
            + maker_units(events, u),
        side == Side::Sell ==> units_of(post.spec_sellers()@, u) == units_of(pre.spec_sellers()@, u)
            + added_units(events, u),
        side == Side::Buy ==> units_of(pre.spec_sellers()@, u) == units_of(post.spec_sellers()@, u)
            + maker_units(events, u),
        side == Side::Buy ==> units_of(post.spec_buyers()@, u) == units_of(pre.spec_buyers()@, u)
            + added_units(events, u),
        ty == BidProcessingType::Limit ==> traded_units(events) + added_units(events, user) == amount,
        ty != BidProcessingType::Limit ==> added_units(events, user) == 0 && traded_units(events) <= amount,
{
    if side == Side::Sell {
        assert(side.spec_opposite() == Side::Buy);
    } else {
        assert(side.spec_opposite() == Side::Sell);
    }
    let book = side.spec_opposite();
    let opp = if side == Side::Sell { pre.spec_buyers()@ } else { pre.spec_sellers()@ };
    let same = if side == Side::Sell { pre.spec_sellers()@ } else { pre.spec_buyers()@ };
    let same_post = if side == Side::Sell { post.spec_sellers()@ } else { post.spec_buyers()@ };
    let o = outcome(book, opp, price, amount, user, ty);
    lemma_conservation(book, opp, price, amount, user, ty, u);
    lemma_conservation(book, opp, price, amount, user, ty, user);
    lemma_walk_units(book, opp, price, user, amount as nat, u);
    let w = walk(book, opp, price, user, amount as nat);
    assert forall|i: int| 0 <= i < o.1.len() implies !(#[trigger] o.1[i] is Add) by {
        if o.1 != w.1 {
            assert(o.1.len() == 1);
        } else {
            assert(fair_trade(book, user, price, w.1[i]));
        }
    }
    lemma_no_additions(o.1, u);
    lemma_no_additions(o.1, user);
    if o.2 > 0 {
        let add = Event::Add { user_id: user, price, amount: o.2 as u64, side };
        lemma_event_units_push(o.1, add, u);
        lemma_event_units_push(o.1, add, user);
        assert(seq![add].drop_first() =~= Seq::<Event>::empty());
        assert(seq![add][0] == add);
        assert(maker_units(Seq::<Event>::empty(), u) == 0);
        assert(traded_units(Seq::<Event>::empty()) == 0);
        assert(added_units(Seq::<Event>::empty(), u) == 0);
        assert(added_units(Seq::<Event>::empty(), user) == 0);
        assert(maker_units(seq![add], u) == 0);
        assert(traded_units(seq![add]) == 0);
        assert(added_units(seq![add], u) == (if user == u { o.2 } else { 0 }));
        assert(added_units(seq![add], user) == o.2);
        let last = if side == Side::Sell { post.spec_sellers().last_id() } else { post.spec_buyers().last_id() };
        let r = Resting { id: last, price, amount: o.2 as u64, user_id: user };
        let p = choose|p: int| 0 <= p <= same.len() && same_post == #[trigger] same.insert(p, r);
        lemma_units_insert(same, p, r, u);
    }
}

} // verus!
