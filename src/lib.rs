//! A continuous limit order book matcher for a single instrument.
//!
//! Two pools of resting bids, one of selling and one of buying bids, each in price-time
//! priority. An incoming bid is matched against the opposite pool as its processing type
//! says (limit, fill-or-kill, immediate-or-cancel), never against bids of its own user, and
//! what a limit bid leaves unfilled rests on its own pool.
pub mod bids;
pub mod events;
pub mod key;
pub mod laws;
pub mod order_book;
pub mod pool;
pub mod range;

pub use crate::order_book::{OrderBook, Submission};
pub use crate::pool::Pool;
