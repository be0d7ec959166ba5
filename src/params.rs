use vstd::prelude::*;

use crate::state::{SelfTradeBehavior, Side};

verus! {

/// Arguments of `create_market`.
#[derive(Clone, Copy, Debug)]
pub struct CreateMarketParams {
    /// The signer required for every market operation.
    pub caller_authority: [u8; 32],
    /// Length of the callback information attached to each order (at most 32).
    pub callback_info_len: u64,
    /// Length of the prefix of the callback information that identifies an
    /// owner, for self-trade detection.
    pub callback_id_len: u64,
    /// Orders left with this base quantity or less after matching leave the book.
    pub min_base_order_size: u64,
    /// The price tick, in 32.32 fixed point.
    pub tick_size: u64,
    /// The fee paid on each new order, towards cranking.
    pub cranker_reward: u64,
}

/// Arguments of `new_order`.
#[derive(Clone, Debug)]
pub struct NewOrderParams {
    /// The most base to trade.
    pub max_base_qty: u64,
    /// The most quote to trade.
    pub max_quote_qty: u64,
    /// The limit price, in 32.32 fixed point.
    pub limit_price: u64,
    pub side: Side,
    /// The most resting orders to match against.
    pub match_limit: u64,
    /// Exactly the market's callback information length.
    pub callback_info: Vec<u8>,
    /// Never match; post only if the order does not cross.
    pub post_only: bool,
    /// Whether what is left after matching may rest in the book.
    pub post_allowed: bool,
    pub self_trade_behavior: SelfTradeBehavior,
}

/// Arguments of `cancel_order`.
#[derive(Clone, Copy, Debug)]
pub struct CancelOrderParams {
    pub order_id: u128,
}

/// Arguments of `consume_events`.
#[derive(Clone, Copy, Debug)]
pub struct ConsumeEventsParams {
    pub number_of_entries_to_consume: u64,
}

/// Arguments of `close_market`.
#[derive(Clone, Copy, Debug)]
pub struct CloseMarketParams {}

} // verus!
