//! A pool of resting bids of one kind, kept in priority order.
use crate::bids::{Bid, BidProcessingType, GenericBid, Side};
use crate::events::{DropReason, Event};
use crate::key::{key_precedes, precedes_in, PoolKey};
use std::collections::VecDeque;
use std::marker::PhantomData;
use vstd::prelude::*;

verus! {

/// A bid resting in a pool: its arrival number, price, remaining amount and user.
#[derive(Debug, Clone, Copy, PartialEq, Eq, Structural)]
pub struct Resting {
    pub id: usize,
    pub price: u64,
    pub amount: u64,
    pub user_id: u64,
}

/// Whether `a` has priority over `b` in a pool of the given side.
pub open spec fn before(side: Side, a: Resting, b: Resting) -> bool {
    key_precedes(side, a.price, a.id, b.price, b.id)
}

/// Whether `s` is strictly increasing in priority order.
pub open spec fn in_priority_order(side: Side, s: Seq<Resting>) -> bool {
    forall|i: int, j: int| 0 <= i < j < s.len() ==> #[trigger] before(side, s[i], s[j])
}

/// The invariant of the entries of a pool whose last arrival number is `last_id`.
pub open spec fn entries_wf(side: Side, s: Seq<Resting>, last_id: usize) -> bool {
    &&& in_priority_order(side, s)
    &&& forall|i: int| 0 <= i < s.len() ==> (#[trigger] s[i]).amount >= 1 && s[i].id <= last_id
}

/// Whether a bid resting on `side` at `price` can trade with a taker whose limit is `limit`.
pub open spec fn price_matches(side: Side, price: u64, limit: u64) -> bool {
    if side == Side::Buy {
        price >= limit
    } else {
        price <= limit
    }
}

/// Whether the resting bid `r` can trade with a taker of user `user` and limit `limit`.
pub open spec fn eligible(side: Side, r: Resting, limit: u64, user: u64) -> bool {
    price_matches(side, r.price, limit) && r.user_id != user
}

/// The trade of `amount` items between the taker `user` and the resting bid `r`.
pub open spec fn trade(side: Side, user: u64, r: Resting, amount: u64) -> Event {
    Event::Trade {
        taker_user: user,
        maker_user: r.user_id,
        amount,
        price: r.price,
        taker_side: side.spec_opposite(),
    }
}

/// `r` with its amount replaced.
pub open spec fn with_amount(r: Resting, amount: u64) -> Resting {
    Resting { id: r.id, price: r.price, amount, user_id: r.user_id }
}

/// The priority walk of a taker (limit `limit`, user `user`, `need` items) over the pool entries
/// `s` of side `side`: the entries left afterwards, the trades in the order they happen, and
/// the amount that was not filled. Bids of the taker's own user are skipped.
pub open spec fn walk(side: Side, s: Seq<Resting>, limit: u64, user: u64, need: nat) -> (Seq<Resting>, Seq<Event>, nat)
    decreases s.len(),
{
    if s.len() == 0 || need == 0 {
        (s, seq![], need)
    } else {
        let r = s[0];
        if !eligible(side, r, limit, user) {
            let w = walk(side, s.drop_first(), limit, user, need);
            (seq![r] + w.0, w.1, w.2)
        } else if r.amount <= need {
            let w = walk(side, s.drop_first(), limit, user, (need - r.amount) as nat);
            (w.0, seq![trade(side, user, r, r.amount)] + w.1, w.2)
        } else {
            (
                seq![with_amount(r, (r.amount - need) as u64)] + s.drop_first(),
                seq![trade(side, user, r, need as u64)],
                0,
            )
        }
    }
}

/// The total amount that a taker of user `user` and limit `limit` can trade with in `s`.
pub open spec fn liquidity(side: Side, s: Seq<Resting>, limit: u64, user: u64) -> nat
    decreases s.len(),
{
    if s.len() == 0 {
        0
    } else {
        (if eligible(side, s[0], limit, user) {
            s[0].amount as nat
        } else {
            0
        }) + liquidity(side, s.drop_first(), limit, user)
    }
}

/// The entries of `s` that a taker of user `user`, limit `limit` and `left` items would trade
/// with, in priority order.
pub open spec fn suitable(side: Side, s: Seq<Resting>, limit: u64, user: u64, left: nat) -> Seq<Resting>
    decreases s.len(),
{
    if s.len() == 0 || left == 0 {
        seq![]
    } else if !eligible(side, s[0], limit, user) {
        suitable(side, s.drop_first(), limit, user, left)
    } else if s[0].amount >= left {
        seq![s[0]]
    } else {
        seq![s[0]] + suitable(side, s.drop_first(), limit, user, (left - s[0].amount) as nat)
    }
}

/// The entries of `s` whose keys come strictly before the key `(price, id)`, in order.
pub open spec fn before_key(side: Side, s: Seq<Resting>, price: u64, id: usize) -> Seq<Resting>
    decreases s.len(),
{
    if s.len() == 0 {
        seq![]
    } else if key_precedes(side, s[0].price, s[0].id, price, id) {
        seq![s[0]] + before_key(side, s.drop_first(), price, id)
    } else {
        before_key(side, s.drop_first(), price, id)
    }
}

/// The event of dropping a taker bid of side `side`.
pub open spec fn drop_event(side: Side, user: u64, price: u64, amount: u64, reason: DropReason) -> Event {
    Event::Drop { user_id: user, price, amount, side, reason }
}

/// What processing a taker (limit `price`, `amount` items, user `user`, processing type `ty`)
/// against the entries `s` of a pool of side `side` gives: the entries left, the events, and
/// the amount that should rest on the taker's side (zero for none).
pub open spec fn outcome(side: Side, s: Seq<Resting>, price: u64, amount: u64, user: u64, ty: BidProcessingType) -> (Seq<Resting>, Seq<Event>, nat) {
    let w = walk(side, s, price, user, amount as nat);
    let taker_side = side.spec_opposite();
    match ty {
        BidProcessingType::Limit => w,
        BidProcessingType::FillOrKill => {
            if liquidity(side, s, price, user) >= amount {
                (w.0, w.1, 0)
            } else {
                (s, seq![drop_event(taker_side, user, price, amount, DropReason::FillOrKillShortfall)], 0)
            }
        },
        BidProcessingType::ImmediateOrCancel => {
            if w.1.len() == 0 && amount > 0 {
                (w.0, seq![drop_event(taker_side, user, price, amount, DropReason::NothingFilled)], 0)
            } else {
                (w.0, w.1, 0)
            }
        },
    }
}

/// Whether `p` is the key and the bid of the entry `r`.
pub open spec fn shows<BidKind>(p: (PoolKey<BidKind>, Bid<BidKind>), r: Resting) -> bool {
    &&& p.0.id == r.id
    &&& p.0.price == r.price
    &&& p.1.price == r.price
    &&& p.1.amount == r.amount
    &&& p.1.user_id == r.user_id
}

/// Whether the bid `b` holds the price, amount and user of the entry `r`.
pub open spec fn describes<BidKind>(b: Bid<BidKind>, r: Resting) -> bool {
    b.price == r.price && b.amount == r.amount && b.user_id == r.user_id
}


/// Every entry left by the walk has the arrival number and price of an entry of `s`; so a
/// property of keys that holds of all of `s` holds of all that is left.
pub proof fn lemma_walk_keeps_keys(
    side: Side,
    s: Seq<Resting>,
    limit: u64,
    user: u64,
    need: nat,
    p: spec_fn(usize, u64) -> bool,
)
    requires
        forall|i: int| 0 <= i < s.len() ==> p((#[trigger] s[i]).id, s[i].price),
    ensures
        forall|i: int|
            0 <= i < walk(side, s, limit, user, need).0.len() ==> p(
                (#[trigger] walk(side, s, limit, user, need).0[i]).id,
                walk(side, s, limit, user, need).0[i].price,
            ),
    decreases s.len(),
{
    if s.len() == 0 || need == 0 {
    } else {
        let r = s[0];
        let t = s.drop_first();
        assert forall|i: int| 0 <= i < t.len() implies p((#[trigger] t[i]).id, t[i].price) by {
            assert(t[i] == s[i + 1]);
        }
        if !eligible(side, r, limit, user) {
            lemma_walk_keeps_keys(side, t, limit, user, need, p);
            let w = walk(side, t, limit, user, need);
            assert(walk(side, s, limit, user, need).0 == seq![r] + w.0);
            assert forall|i: int| 0 <= i < (seq![r] + w.0).len() implies p(
                (#[trigger] (seq![r] + w.0)[i]).id,
                (seq![r] + w.0)[i].price,
            ) by {
                if i > 0 {
                    assert((seq![r] + w.0)[i] == w.0[i - 1]);
                }
            }
        } else if r.amount <= need {
            lemma_walk_keeps_keys(side, t, limit, user, (need - r.amount) as nat, p);
            assert(walk(side, s, limit, user, need).0 == walk(side, t, limit, user, (need - r.amount) as nat).0);
        } else {
            let q = seq![with_amount(r, (r.amount - need) as u64)] + t;
            assert(walk(side, s, limit, user, need).0 == q);
            assert forall|i: int| 0 <= i < q.len() implies p((#[trigger] q[i]).id, q[i].price) by {
                if i > 0 {
                    assert(q[i] == t[i - 1]);
                } else {
                    assert(p(s[0].id, s[0].price));
                }
            }
        }
    }
}

/// The walk keeps the entries in priority order, each with a positive amount.
pub proof fn lemma_walk_wf(side: Side, s: Seq<Resting>, limit: u64, user: u64, need: nat)
    requires
        in_priority_order(side, s),
        forall|i: int| 0 <= i < s.len() ==> (#[trigger] s[i]).amount >= 1,
    ensures
        in_priority_order(side, walk(side, s, limit, user, need).0),
        forall|i: int|
            0 <= i < walk(side, s, limit, user, need).0.len() ==> (#[trigger] walk(
                side,
                s,
                limit,
                user,
                need,
            ).0[i]).amount >= 1,
    decreases s.len(),
{
    if s.len() == 0 || need == 0 {
    } else {
        let r = s[0];
        let t = s.drop_first();
        assert forall|i: int, j: int| 0 <= i < j < t.len() implies #[trigger] before(side, t[i], t[j]) by {
            assert(before(side, s[i + 1], s[j + 1]));
        }
        assert forall|i: int| 0 <= i < t.len() implies (#[trigger] t[i]).amount >= 1 by {
            assert(t[i] == s[i + 1]);
        }
        if !eligible(side, r, limit, user) {
            lemma_walk_wf(side, t, limit, user, need);
            let p = |id: usize, price: u64| key_precedes(side, r.price, r.id, price, id);
            assert forall|i: int| 0 <= i < t.len() implies p((#[trigger] t[i]).id, t[i].price) by {
                assert(before(side, s[0], s[i + 1]));
            }
            lemma_walk_keeps_keys(side, t, limit, user, need, p);
            let w = walk(side, t, limit, user, need);
            let q = seq![r] + w.0;
            assert forall|i: int, j: int| 0 <= i < j < q.len() implies #[trigger] before(side, q[i], q[j]) by {
                assert(q[j] == w.0[j - 1]);
                if i > 0 {
                    assert(q[i] == w.0[i - 1]);
                } else {
                    assert(p(w.0[j - 1].id, w.0[j - 1].price));
                }
            }
            assert forall|i: int| 0 <= i < q.len() implies (#[trigger] q[i]).amount >= 1 by {
                if i > 0 {
                    assert(q[i] == w.0[i - 1]);
                }
            }
        } else if r.amount <= need {
            lemma_walk_wf(side, t, limit, user, (need - r.amount) as nat);
        } else {
            let q = seq![with_amount(r, (r.amount - need) as u64)] + t;
            assert forall|i: int, j: int| 0 <= i < j < q.len() implies #[trigger] before(side, q[i], q[j]) by {
                assert(q[j] == s[j]);
                assert(before(side, s[i], s[j]));
                if i > 0 {
                    assert(q[i] == s[i]);
                }
            }
            assert forall|i: int| 0 <= i < q.len() implies (#[trigger] q[i]).amount >= 1 by {
                if i > 0 {
                    assert(q[i] == s[i]);
                }
            }
        }
    }
}

/// The walk fills all it needs exactly when the liquidity suffices; otherwise it leaves
/// unfilled what the liquidity lacks.
pub proof fn lemma_walk_left(side: Side, s: Seq<Resting>, limit: u64, user: u64, need: nat)
    ensures
        walk(side, s, limit, user, need).2 == (if liquidity(side, s, limit, user) >= need {
            0
        } else {
            (need - liquidity(side, s, limit, user)) as nat
        }),
    decreases s.len(),
{
    if s.len() == 0 || need == 0 {
    } else {
        let r = s[0];
        let t = s.drop_first();
        if !eligible(side, r, limit, user) {
            lemma_walk_left(side, t, limit, user, need);
        } else if r.amount <= need {
            lemma_walk_left(side, t, limit, user, (need - r.amount) as nat);
        } else {
        }
    }
}

/// In a pool in priority order whose best bid does not match the limit by price, no bid
/// does, and the walk leaves everything as it was.
pub proof fn lemma_walk_stops(side: Side, s: Seq<Resting>, limit: u64, user: u64, need: nat)
    requires
        in_priority_order(side, s),
        s.len() > 0,
        !price_matches(side, s[0].price, limit),
    ensures
        walk(side, s, limit, user, need) == (s, Seq::<Event>::empty(), need),
    decreases s.len(),
{
    if need == 0 {
    } else {
        let t = s.drop_first();
        if t.len() > 0 {
            assert(before(side, s[0], s[1]));
            assert forall|a: int, b: int| 0 <= a < b < t.len() implies #[trigger] before(side, t[a], t[b]) by {
                assert(before(side, s[a + 1], s[b + 1]));
            }
            lemma_walk_stops(side, t, limit, user, need);
        }
        assert(seq![s[0]] + t =~= s);
    }
}

/// In a pool in priority order whose best bid does not match the limit by price, no bid
/// does: there is nothing to trade with.
pub proof fn lemma_nothing_matches(side: Side, s: Seq<Resting>, limit: u64, user: u64, left: nat)
    requires
        in_priority_order(side, s),
        s.len() > 0,
        !price_matches(side, s[0].price, limit),
    ensures
        liquidity(side, s, limit, user) == 0,
        suitable(side, s, limit, user, left) == Seq::<Resting>::empty(),
    decreases s.len(),
{
    let t = s.drop_first();
    if t.len() > 0 {
        assert(before(side, s[0], s[1]));
        assert forall|a: int, b: int| 0 <= a < b < t.len() implies #[trigger] before(side, t[a], t[b]) by {
            assert(before(side, s[a + 1], s[b + 1]));
        }
        lemma_nothing_matches(side, t, limit, user, left);
    }
    assert(suitable(side, t, limit, user, left) =~= Seq::<Resting>::empty());
    assert(liquidity(side, t, limit, user) == 0);
    assert(!eligible(side, s[0], limit, user));
    assert(liquidity(side, s, limit, user) == 0);
    assert(suitable(side, s, limit, user, left) =~= Seq::<Resting>::empty());
}

/// In a pool in priority order whose first key does not come before `(price, id)`, no key
/// does.
pub proof fn lemma_nothing_before(side: Side, s: Seq<Resting>, price: u64, id: usize)
    requires
        in_priority_order(side, s),
        s.len() > 0,
        !key_precedes(side, s[0].price, s[0].id, price, id),
    ensures
        before_key(side, s, price, id) == Seq::<Resting>::empty(),
    decreases s.len(),
{
    let t = s.drop_first();
    if t.len() > 0 {
        assert(before(side, s[0], s[1]));
        assert forall|a: int, b: int| 0 <= a < b < t.len() implies #[trigger] before(side, t[a], t[b]) by {
            assert(before(side, s[a + 1], s[b + 1]));
        }
        lemma_nothing_before(side, t, price, id);
    }
    assert(before_key(side, t, price, id) =~= Seq::<Resting>::empty());
    assert(before_key(side, s, price, id) =~= Seq::<Resting>::empty());
}

/// A suffix of a sequence in priority order is in priority order.
pub proof fn lemma_skip_in_order(side: Side, s: Seq<Resting>, i: int)
    requires
        in_priority_order(side, s),
        0 <= i <= s.len(),
    ensures
        in_priority_order(side, s.skip(i)),
{
    let t = s.skip(i);
    assert forall|a: int, b: int| 0 <= a < b < t.len() implies #[trigger] before(side, t[a], t[b]) by {
        assert(before(side, s[i + a], s[i + b]));
    }
}

/// Resting bids of one kind in priority order, with the last arrival number given out.
pub struct Pool<BidKind> {
    entries: VecDeque<Resting>,
    last_id: usize,
    kind: PhantomData<BidKind>,
}

impl<BidKind> View for Pool<BidKind> {
    type V = Seq<Resting>;

    closed spec fn view(&self) -> Seq<Resting> {
        self.entries@
    }
}

fn price_ok(side: Side, price: u64, limit: u64) -> (r: bool)
    ensures
        r == price_matches(side, price, limit),
{
    match side {
        Side::Buy => price >= limit,
        Side::Sell => price <= limit,
    }
}

fn entry_pair<BidKind>(r: Resting) -> (p: (PoolKey<BidKind>, Bid<BidKind>))
    ensures
        shows(p, r),
{
    (PoolKey::new(r.id, r.price), Bid::empty().price(r.price).amount(r.amount).user_id(r.user_id))
}

impl<BidKind: GenericBid> Pool<BidKind> {
    /// The last arrival number given out.
    pub closed spec fn last_id(&self) -> usize {
        self.last_id
    }

    pub open spec fn wf(&self) -> bool {
        entries_wf(BidKind::spec_side(), self@, self.last_id())
    }

    /// Whether one more bid can be given an arrival number.
    pub open spec fn has_room(&self) -> bool {
        self.last_id() < usize::MAX
    }

    /// Whether one more bid can be given an arrival number.
    pub fn can_push(&self) -> (r: bool)
        ensures
            r == self.has_room(),
    {
        self.last_id < usize::MAX
    }

    /// An empty pool.
    pub fn new() -> (r: Self)
        ensures
            r.wf(),
            r@ == Seq::<Resting>::empty(),
            r.last_id() == 0,
    {
        Pool { entries: VecDeque::new(), last_id: 0, kind: PhantomData }
    }

    /// Inserts `r` at its place in priority order and returns that place.
    fn insert_resting(&mut self, r: Resting) -> (pos: usize)
        requires
            in_priority_order(BidKind::spec_side(), old(self)@),
            forall|i: int| 0 <= i < old(self)@.len() ==> (#[trigger] old(self)@[i]).id < r.id,
        ensures
            final(self).last_id == old(self).last_id,
            pos <= old(self)@.len(),
            final(self)@ == old(self)@.insert(pos as int, r),
            in_priority_order(BidKind::spec_side(), final(self)@),
    {
        let side = BidKind::side();
        let n = self.entries.len();
        let mut lo: usize = 0;
        let mut hi: usize = n;
        while lo < hi
            invariant
                n == self.entries.len(),
                lo <= hi <= n,
                self.entries@ == old(self)@,
                in_priority_order(side, self.entries@),
                forall|i: int| 0 <= i < lo ==> before(side, #[trigger] self.entries@[i], r),
                forall|i: int| hi <= i < n ==> !before(side, #[trigger] self.entries@[i], r),
            decreases hi - lo,
        {
            let mid = lo + (hi - lo) / 2;
            let e = self.entries[mid];
            if precedes_in(side, e.price, e.id, r.price, r.id) {
                proof {
                    assert forall|i: int| 0 <= i <= mid implies before(side, #[trigger] self.entries@[i], r) by {
                        if i < mid {
                            assert(before(side, self.entries@[i], self.entries@[mid as int]));
                        }
                    }
                }
                lo = mid + 1;
            } else {
                proof {
                    assert forall|i: int| mid <= i < n implies !before(side, #[trigger] self.entries@[i], r) by {
                        if i > mid {
                            assert(before(side, self.entries@[mid as int], self.entries@[i]));
                        }
                    }
                }
                hi = mid;
            }
        }
        let pos = lo;
        proof {
            let s = old(self)@;
            let t = s.insert(pos as int, r);
            s.insert_ensures(pos as int, r);
            assert forall|i: int, j: int| 0 <= i < j < t.len() implies #[trigger] before(side, t[i], t[j]) by {
                if j < pos {
                } else if j == pos {
                } else {
                    assert(t[j] == s[j - 1]);
                    assert(!before(side, s[j - 1], r));
                    if i < pos {
                    } else if i == pos {
                    } else {
                        assert(t[i] == s[i - 1]);
                    }
                }
            }
        }
        self.entries.insert(pos, r);
        pos
    }

    /// Puts `bid` on the pool under a fresh arrival number.
    pub fn push(&mut self, bid: Bid<BidKind>)
        requires
            old(self).wf(),
            old(self).has_room(),
            bid.amount >= 1,
        ensures
            final(self).wf(),
            final(self).last_id() == old(self).last_id() + 1,
            forall|i: int| 0 <= i < old(self)@.len() ==> (#[trigger] old(self)@[i]).id < final(self).last_id(),
            exists|p: int|
                0 <= p <= old(self)@.len() && final(self)@ == old(self)@.insert(
                    p,
                    Resting { id: final(self).last_id(), price: bid.price, amount: bid.amount, user_id: bid.user_id },
                ),
    {
        self.last_id = self.last_id + 1;
        let r = Resting { id: self.last_id, price: bid.price, amount: bid.amount, user_id: bid.user_id };
        let pos = self.insert_resting(r);
        proof {
            old(self)@.insert_ensures(pos as int, r);
            assert forall|i: int| 0 <= i < self@.len() implies (#[trigger] self@[i]).amount >= 1 && self@[i].id <= self.last_id by {
                if i > pos {
                    assert(self@[i] == old(self)@[i - 1]);
                }
            }
        }
    }


    /// Walks the pool in priority order against `active_bid`, trading with every bid of
    /// another user whose price matches, until the active bid is filled. Fully consumed bids
    /// leave the pool; a partly consumed one keeps its place with the rest of its amount.
    /// Only the visited front of the pool is touched: the walk stops at the first bid whose
    /// price does not match. Returns the amount left unfilled and the trades in the order
    /// they happened.
    fn process_items(&mut self, active_bid: &Bid<BidKind::Opposite>) -> (res: (u64, Vec<Event>))
        requires
            old(self).wf(),
        ensures
            final(self).wf(),
            final(self).last_id() == old(self).last_id(),
            final(self)@ == walk(BidKind::spec_side(), old(self)@, active_bid.price, active_bid.user_id, active_bid.amount as nat).0,
            res.1@ == walk(BidKind::spec_side(), old(self)@, active_bid.price, active_bid.user_id, active_bid.amount as nat).1,
            res.0 as nat == walk(BidKind::spec_side(), old(self)@, active_bid.price, active_bid.user_id, active_bid.amount as nat).2,
    {
        let side = BidKind::side();
        let taker_side = side.opposite();
        let limit = active_bid.price;
        let user = active_bid.user_id;
        let ghost s = self@;
        let ghost need = active_bid.amount as nat;
        let mut kept: Vec<Resting> = Vec::new();
        let mut events: Vec<Event> = Vec::new();
        let mut left: u64 = active_bid.amount;
        let ghost mut i: int = 0;
        let mut walking = true;
        proof {
            let w = walk(side, s, limit, user, need);
            assert(s.skip(0) =~= s);
            assert(kept@ + w.0 =~= w.0);
            assert(events@ + w.1 =~= w.1);
        }
        while walking
            invariant
                0 <= i <= s.len(),
                self.entries@ == s.skip(i),
                self.last_id == old(self).last_id,
                in_priority_order(side, s),
                taker_side == side.spec_opposite(),
                walk(side, s, limit, user, need).0 == kept@ + walk(side, s.skip(i), limit, user, left as nat).0,
                walk(side, s, limit, user, need).1 == events@ + walk(side, s.skip(i), limit, user, left as nat).1,
                walk(side, s, limit, user, need).2 == walk(side, s.skip(i), limit, user, left as nat).2,
                !walking ==> walk(side, s.skip(i), limit, user, left as nat) == (s.skip(i), Seq::<Event>::empty(), left as nat),
            decreases s.len() - i + (if walking { 1int } else { 0 }),
        {
            if left == 0 || self.entries.len() == 0 {
                walking = false;
            } else {
                let e = self.entries[0];
                let ghost rest = s.skip(i);
                proof {
                    assert(rest[0] == e);
                    assert(rest.drop_first() =~= s.skip(i + 1));
                }
                if !price_ok(side, e.price, limit) {
                    walking = false;
                    proof {
                        lemma_skip_in_order(side, s, i);
                        lemma_walk_stops(side, rest, limit, user, left as nat);
                    }
                } else {
                    let _ = self.entries.pop_front();
                    proof {
                        i = i + 1;
                    }
                    if e.user_id == user {
                        proof {
                            let w = walk(side, s.skip(i), limit, user, left as nat);
                            assert(kept@.push(e) + w.0 =~= kept@ + (seq![e] + w.0));
                        }
                        kept.push(e);
                    } else if e.amount <= left {
                        let ghost ev0 = events@;
                        left = left - e.amount;
                        events.push(
                            Event::Trade {
                                taker_user: user,
                                maker_user: e.user_id,
                                amount: e.amount,
                                price: e.price,
                                taker_side,
                            },
                        );
                        proof {
                            let w = walk(side, s.skip(i), limit, user, left as nat);
                            assert(events@ + w.1 =~= ev0 + (seq![trade(side, user, e, e.amount)] + w.1));
                        }
                    } else {
                        let part = Resting { id: e.id, price: e.price, amount: e.amount - left, user_id: e.user_id };
                        let ghost ev0 = events@;
                        let ghost l0 = left;
                        events.push(
                            Event::Trade {
                                taker_user: user,
                                maker_user: e.user_id,
                                amount: left,
                                price: e.price,
                                taker_side,
                            },
                        );
                        left = 0;
                        proof {
                            assert(kept@.push(part) + s.skip(i) =~= kept@ + (seq![part] + s.skip(i)));
                            assert(events@ + Seq::<Event>::empty() =~= ev0 + seq![trade(side, user, e, l0)]);
                        }
                        kept.push(part);
                    }
                }
            }
        }
        proof {
            assert(events@ + Seq::<Event>::empty() =~= events@);
        }
        let ghost tail = s.skip(i);
        let mut j: usize = kept.len();
        proof {
            assert(kept@.skip(j as int) + tail =~= tail);
        }
        while j > 0
            invariant
                j <= kept.len(),
                self.entries@ == kept@.skip(j as int) + tail,
                self.last_id == old(self).last_id,
            decreases j,
        {
            j = j - 1;
            let ghost before_push = self.entries@;
            self.entries.push_front(kept[j]);
            proof {
                assert(seq![kept@[j as int]] + before_push =~= kept@.skip(j as int) + tail);
            }
        }
        proof {
            assert(kept@.skip(0) =~= kept@);
            lemma_walk_wf(side, s, limit, user, need);
            let last = self.last_id;
            lemma_walk_keeps_keys(side, s, limit, user, need, |id: usize, price: u64| id <= last);
        }
        (left, events)
    }

    /// Whether the bids of other users that match `active_bid` by price hold at least its
    /// amount in all.
    fn has_liquidity(&self, active_bid: &Bid<BidKind::Opposite>) -> (r: bool)
        requires
            self.wf(),
        ensures
            r == (liquidity(BidKind::spec_side(), self@, active_bid.price, active_bid.user_id) >= active_bid.amount),
    {
        let side = BidKind::side();
        let limit = active_bid.price;
        let user = active_bid.user_id;
        let need = active_bid.amount;
        let ghost s = self@;
        let n = self.entries.len();
        let mut found: u64 = 0;
        let mut enough = need == 0;
        let mut i: usize = 0;
        proof {
            assert(s.skip(0) =~= s);
        }
        while i < n && !enough
            invariant
                n == self.entries.len(),
                self@ == s,
                in_priority_order(side, s),
                i <= n,
                !enough ==> found < need && liquidity(side, s, limit, user) == found + liquidity(side, s.skip(i as int), limit, user),
                enough ==> liquidity(side, s, limit, user) >= need,
            decreases n - i,
        {
            let e = self.entries[i];
            proof {
                let rest = s.skip(i as int);
                assert(rest.drop_first() =~= s.skip(i + 1));
                assert(rest[0] == e);
            }
            if !price_ok(side, e.price, limit) {
                proof {
                    lemma_skip_in_order(side, s, i as int);
                    lemma_nothing_matches(side, s.skip(i as int), limit, user, 0);
                    assert(s.skip(n as int) =~= Seq::<Resting>::empty());
                }
                i = n;
            } else {
                if e.user_id != user {
                    if e.amount >= need - found {
                        enough = true;
                    } else {
                        found = found + e.amount;
                    }
                }
                i = i + 1;
            }
        }
        proof {
            if !enough {
                assert(s.skip(n as int) =~= Seq::<Resting>::empty());
            }
        }
        enough
    }

    /// The bids of other users that match `active_bid` by price, in priority order, up to the
    /// first at which their amounts together reach the amount of `active_bid`.
    pub fn get_suitable(&self, active_bid: &Bid<BidKind::Opposite>) -> (r: Vec<(PoolKey<BidKind>, Bid<BidKind>)>)
        requires
            self.wf(),
        ensures
            r@.len() == suitable(BidKind::spec_side(), self@, active_bid.price, active_bid.user_id, active_bid.amount as nat).len(),
            forall|i: int|
                0 <= i < r@.len() ==> shows(
                    #[trigger] r@[i],
                    suitable(BidKind::spec_side(), self@, active_bid.price, active_bid.user_id, active_bid.amount as nat)[i],
                ),
    {
        let side = BidKind::side();
        let limit = active_bid.price;
        let user = active_bid.user_id;
        let ghost s = self@;
        let ghost whole = suitable(side, s, limit, user, active_bid.amount as nat);
        let n = self.entries.len();
        let mut r: Vec<(PoolKey<BidKind>, Bid<BidKind>)> = Vec::new();
        let ghost mut taken: Seq<Resting> = seq![];
        let mut left: u64 = active_bid.amount;
        let mut i: usize = 0;
        proof {
            assert(s.skip(0) =~= s);
            assert(taken + whole =~= whole);
        }
        while i < n && left > 0
            invariant
                n == self.entries.len(),
                self@ == s,
                in_priority_order(side, s),
                i <= n,
                whole == taken + suitable(side, s.skip(i as int), limit, user, left as nat),
                r@.len() == taken.len(),
                forall|k: int| 0 <= k < r@.len() ==> shows(#[trigger] r@[k], taken[k]),
            decreases n - i,
        {
            let e = self.entries[i];
            proof {
                let rest = s.skip(i as int);
                assert(rest.drop_first() =~= s.skip(i + 1));
                assert(rest[0] == e);
            }
            if !price_ok(side, e.price, limit) {
                proof {
                    lemma_skip_in_order(side, s, i as int);
                    lemma_nothing_matches(side, s.skip(i as int), limit, user, left as nat);
                    assert(s.skip(n as int) =~= Seq::<Resting>::empty());
                }
                i = n;
            } else if e.user_id != user {
                let ghost t0 = taken;
                r.push(entry_pair(e));
                proof {
                    taken = taken.push(e);
                }
                if e.amount >= left {
                    left = 0;
                    proof {
                        assert(taken + Seq::<Resting>::empty() =~= t0 + seq![e]);
                    }
                } else {
                    left = left - e.amount;
                    proof {
                        let w = suitable(side, s.skip(i + 1), limit, user, left as nat);
                        assert(taken + w =~= t0 + (seq![e] + w));
                    }
                }
                i = i + 1;
            } else {
                i = i + 1;
            }
        }
        proof {
            if left > 0 {
                assert(s.skip(n as int) =~= Seq::<Resting>::empty());
            }
            assert(taken + Seq::<Resting>::empty() =~= taken);
        }
        r
    }

    /// The entries whose keys come strictly before `end`, in priority order.
    pub fn view_range(&self, end: &PoolKey<BidKind>) -> (r: Vec<(PoolKey<BidKind>, Bid<BidKind>)>)
        requires
            self.wf(),
        ensures
            r@.len() == before_key(BidKind::spec_side(), self@, end.price, end.id).len(),
            forall|i: int|
                0 <= i < r@.len() ==> shows(#[trigger] r@[i], before_key(BidKind::spec_side(), self@, end.price, end.id)[i]),
    {
        let side = BidKind::side();
        let ghost s = self@;
        let ghost whole = before_key(side, s, end.price, end.id);
        let n = self.entries.len();
        let mut r: Vec<(PoolKey<BidKind>, Bid<BidKind>)> = Vec::new();
        let ghost mut taken: Seq<Resting> = seq![];
        let mut i: usize = 0;
        proof {
            assert(s.skip(0) =~= s);
            assert(taken + whole =~= whole);
        }
        while i < n
            invariant
                n == self.entries.len(),
                self@ == s,
                in_priority_order(side, s),
                i <= n,
                whole == taken + before_key(side, s.skip(i as int), end.price, end.id),
                r@.len() == taken.len(),
                forall|k: int| 0 <= k < r@.len() ==> shows(#[trigger] r@[k], taken[k]),
            decreases n - i,
        {
            let e = self.entries[i];
            proof {
                let rest = s.skip(i as int);
                assert(rest.drop_first() =~= s.skip(i + 1));
                assert(rest[0] == e);
            }
            if precedes_in(side, e.price, e.id, end.price, end.id) {
                let ghost t0 = taken;
                r.push(entry_pair(e));
                proof {
                    taken = taken.push(e);
                    let w = before_key(side, s.skip(i + 1), end.price, end.id);
                    assert(taken + w =~= t0 + (seq![e] + w));
                }
                i = i + 1;
            } else {
                proof {
                    lemma_skip_in_order(side, s, i as int);
                    lemma_nothing_before(side, s.skip(i as int), end.price, end.id);
                    assert(s.skip(n as int) =~= Seq::<Resting>::empty());
                }
                i = n;
            }
        }
        proof {
            assert(s.skip(n as int) =~= Seq::<Resting>::empty());
            assert(taken + Seq::<Resting>::empty() =~= taken);
        }
        r
    }


    /// A pool that holds `bids`, the `i`-th of them under the arrival number `i`.
    pub fn from_bids(bids: Vec<Bid<BidKind>>) -> (r: Self)
        requires
            bids@.len() < usize::MAX,
            forall|i: int| 0 <= i < bids@.len() ==> (#[trigger] bids@[i]).amount >= 1,
        ensures
            r.wf(),
            r.last_id() == bids@.len(),
            r@.len() == bids@.len(),
            forall|i: int|
                0 <= i < bids@.len() ==> r@.contains(
                    Resting { id: i as usize, price: (#[trigger] bids@[i]).price, amount: bids@[i].amount, user_id: bids@[i].user_id },
                ),
    {
        let mut pool = Pool { entries: VecDeque::new(), last_id: 0, kind: PhantomData };
        let n = bids.len();
        let mut i: usize = 0;
        while i < n
            invariant
                n == bids@.len(),
                n < usize::MAX,
                i <= n,
                pool.last_id == 0,
                pool@.len() == i,
                in_priority_order(BidKind::spec_side(), pool@),
                forall|k: int| 0 <= k < pool@.len() ==> (#[trigger] pool@[k]).amount >= 1 && pool@[k].id < i,
                forall|k: int| 0 <= k < bids@.len() ==> (#[trigger] bids@[k]).amount >= 1,
                forall|k: int|
                    0 <= k < i ==> pool@.contains(
                        Resting { id: k as usize, price: (#[trigger] bids@[k]).price, amount: bids@[k].amount, user_id: bids@[k].user_id },
                    ),
            decreases n - i,
        {
            let b = bids[i];
            let e = Resting { id: i, price: b.price, amount: b.amount, user_id: b.user_id };
            let ghost s0 = pool@;
            let pos = pool.insert_resting(e);
            proof {
                s0.insert_ensures(pos as int, e);
                assert forall|k: int| 0 <= k < pool@.len() implies (#[trigger] pool@[k]).amount >= 1 && pool@[k].id < i + 1 by {
                    if k > pos {
                        assert(pool@[k] == s0[k - 1]);
                    }
                }
                assert forall|k: int| 0 <= k < i + 1 implies pool@.contains(
                    Resting { id: k as usize, price: (#[trigger] bids@[k]).price, amount: bids@[k].amount, user_id: bids@[k].user_id },
                ) by {
                    let x = Resting { id: k as usize, price: bids@[k].price, amount: bids@[k].amount, user_id: bids@[k].user_id };
                    if k < i {
                        let j = choose|j: int| 0 <= j < s0.len() && s0[j] == x;
                        if j < pos {
                            assert(pool@[j] == x);
                        } else {
                            assert(pool@[j + 1] == x);
                        }
                    } else {
                        assert(pool@[pos as int] == x);
                    }
                }
            }
            i = i + 1;
        }
        pool.last_id = n;
        pool
    }

    /// Processes `active_bid`, a bid of the opposite kind, against this pool according to
    /// `ty`. Returns what should rest on the opposite pool, if anything, and the events.
    pub fn process_bid(&mut self, active_bid: Bid<BidKind::Opposite>, ty: BidProcessingType) -> (res: (
        Option<Bid<BidKind::Opposite>>,
        Vec<Event>,
    ))
        requires
            old(self).wf(),
        ensures
            final(self).wf(),
            final(self).last_id() == old(self).last_id(),
            final(self)@ == outcome(BidKind::spec_side(), old(self)@, active_bid.price, active_bid.amount, active_bid.user_id, ty).0,
            res.1@ == outcome(BidKind::spec_side(), old(self)@, active_bid.price, active_bid.amount, active_bid.user_id, ty).1,
            res.0 is Some <==> outcome(BidKind::spec_side(), old(self)@, active_bid.price, active_bid.amount, active_bid.user_id, ty).2 > 0,
            res.0 is Some ==> {
                let rest = res.0.unwrap();
                &&& rest.amount == outcome(BidKind::spec_side(), old(self)@, active_bid.price, active_bid.amount, active_bid.user_id, ty).2
                &&& rest.price == active_bid.price
                &&& rest.user_id == active_bid.user_id
            },
    {
        let taker_side = BidKind::side().opposite();
        match ty {
            BidProcessingType::Limit => {
                let (left, events) = self.process_items(&active_bid);
                if left == 0 {
                    (None, events)
                } else {
                    (Some(active_bid.amount(left)), events)
                }
            },
            BidProcessingType::FillOrKill => {
                if self.has_liquidity(&active_bid) {
                    let (_left, events) = self.process_items(&active_bid);
                    (None, events)
                } else {
                    let drop = Event::Drop {
                        user_id: active_bid.user_id,
                        price: active_bid.price,
                        amount: active_bid.amount,
                        side: taker_side,
                        reason: DropReason::FillOrKillShortfall,
                    };
                    (None, vec![drop])
                }
            },
            BidProcessingType::ImmediateOrCancel => {
                let (_left, events) = self.process_items(&active_bid);
                if events.len() == 0 && active_bid.amount > 0 {
                    let drop = Event::Drop {
                        user_id: active_bid.user_id,
                        price: active_bid.price,
                        amount: active_bid.amount,
                        side: taker_side,
                        reason: DropReason::NothingFilled,
                    };
                    (None, vec![drop])
                } else {
                    (None, events)
                }
            },
        }
    }

    /// The keys and bids of the pool in priority order.
    pub fn view_entries(&self) -> (r: Vec<(PoolKey<BidKind>, Bid<BidKind>)>)
        ensures
            r@.len() == self@.len(),
            forall|i: int| 0 <= i < r@.len() ==> shows(#[trigger] r@[i], self@[i]),
    {
        let mut r: Vec<(PoolKey<BidKind>, Bid<BidKind>)> = Vec::new();
        let mut i: usize = 0;
        while i < self.entries.len()
            invariant
                i <= self.entries.len(),
                r@.len() == i,
                forall|k: int| 0 <= k < i ==> shows(#[trigger] r@[k], self@[k]),
            decreases self.entries.len() - i,
        {
            r.push(entry_pair(self.entries[i]));
            i = i + 1;
        }
        r
    }

    /// The bids of the pool in priority order.
    pub fn view_bids(&self) -> (r: Vec<Bid<BidKind>>)
        ensures
            r@.len() == self@.len(),
            forall|i: int| 0 <= i < r@.len() ==> describes(#[trigger] r@[i], self@[i]),
    {
        let mut r: Vec<Bid<BidKind>> = Vec::new();
        let mut i: usize = 0;
        while i < self.entries.len()
            invariant
                i <= self.entries.len(),
                r@.len() == i,
                forall|k: int| 0 <= k < i ==> describes(#[trigger] r@[k], self@[k]),
            decreases self.entries.len() - i,
        {
            let e = self.entries[i];
            r.push(Bid::empty().price(e.price).amount(e.amount).user_id(e.user_id));
            i = i + 1;
        }
        r
    }
}

} // verus!
