//! Order-book construction and clearing-price bounds for a trading pool.
//!
//! Given the resting bids and asks of a pool and an optional snapshot of the
//! pool's liquidity curve, the crate builds a book whose sides are ranked by a
//! stable, deterministic policy and reports the interval inside which any
//! uniform clearing price has to lie.
pub mod book;
pub mod encoding;
pub mod price;
pub mod primitive;
pub mod ranking;
pub mod snapshot;
