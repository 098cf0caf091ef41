//! What the matcher reports: trades, bids put on the book, dropped bids.
use crate::bids::Side;
use vstd::prelude::*;

verus! {

/// Why an incoming bid was dropped.
#[derive(Debug, Clone, Copy, PartialEq, Eq, Structural)]
pub enum DropReason {
    /// A fill-or-kill bid found less than its amount on the opposite side.
    FillOrKillShortfall,
    /// An immediate-or-cancel bid found nothing to trade with.
    NothingFilled,
}

/// One event of processing an incoming (taker) bid against the book.
#[derive(Debug, Clone, Copy, PartialEq, Eq, Structural)]
pub enum Event {
    /// The taker traded `amount` items at the resting (maker) bid's `price`.
    Trade { taker_user: u64, maker_user: u64, amount: u64, price: u64, taker_side: Side },
    /// What was left of a limit bid was put on the book of its side.
    Add { user_id: u64, price: u64, amount: u64, side: Side },
    /// The bid was dropped without trading.
    Drop { user_id: u64, price: u64, amount: u64, side: Side, reason: DropReason },
}

} // verus!
