//! A central-limit order book matching engine: two crit-bit trees of resting
//! orders in price-time priority, a matching loop with self-trade policies,
//! and a ring of fill and out events for the host to settle.

pub mod critbit;
pub mod error;
pub mod event_queue;
pub mod fp32;
pub mod histbuf;
pub mod market;
pub mod order_id;
pub mod orderbook;
pub mod params;
pub mod state;
