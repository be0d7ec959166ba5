use vstd::prelude::*;

verus! {

/// The side of an order.
#[derive(Clone, Copy, Debug, PartialEq, Eq, Structural)]
pub enum Side {
    Bid,
    Ask,
}

impl Side {
    /// The other side of the book.
    pub open spec fn opposite_spec(self) -> Side {
        match self {
            Side::Bid => Side::Ask,
            Side::Ask => Side::Bid,
        }
    }

    /// Returns the other side of the book.
    pub fn opposite(&self) -> (r: Side)
        ensures
            r == self.opposite_spec(),
            r != *self,
    {
        match self {
            Side::Bid => Side::Ask,
            Side::Ask => Side::Bid,
        }
    }

    /// Decodes a side from its one-byte code (0 for a bid, 1 for an ask).
    pub fn from_u8(v: u8) -> (r: Option<Side>)
        ensures
            v == 0 ==> r == Some(Side::Bid),
            v == 1 ==> r == Some(Side::Ask),
            v > 1 ==> r is None,
    {
        if v == 0 {
            Some(Side::Bid)
        } else if v == 1 {
            Some(Side::Ask)
        } else {
            None
        }
    }
}

/// What happens when an incoming order meets a resting order with the same
/// callback identifier.
#[derive(Clone, Copy, Debug, PartialEq, Eq, Structural)]
pub enum SelfTradeBehavior {
    /// The orders are matched together.
    DecrementTake,
    /// The resting order is cancelled and matching goes on past it.
    CancelProvide,
    /// The whole call fails.
    AbortTransaction,
}

impl SelfTradeBehavior {
    /// Decodes a policy from its one-byte code.
    pub fn from_u8(v: u8) -> (r: Option<SelfTradeBehavior>)
        ensures
            v == 0 ==> r == Some(SelfTradeBehavior::DecrementTake),
            v == 1 ==> r == Some(SelfTradeBehavior::CancelProvide),
            v == 2 ==> r == Some(SelfTradeBehavior::AbortTransaction),
            v > 2 ==> r is None,
    {
        if v == 0 {
            Some(SelfTradeBehavior::DecrementTake)
        } else if v == 1 {
            Some(SelfTradeBehavior::CancelProvide)
        } else if v == 2 {
            Some(SelfTradeBehavior::AbortTransaction)
        } else {
            None
        }
    }
}

/// Identifies what a buffer holds.
#[derive(Clone, Copy, Debug, PartialEq, Eq, Structural)]
pub enum AccountTag {
    Uninitialized,
    Market,
    EventQueue,
    Bids,
    Asks,
}

impl AccountTag {
    /// The tag's numeric code, as stored in a buffer header.
    pub fn code(&self) -> (r: u64)
        ensures
            *self == AccountTag::Uninitialized ==> r == 0,
            *self == AccountTag::Market ==> r == 1,
            *self == AccountTag::EventQueue ==> r == 2,
            *self == AccountTag::Bids ==> r == 3,
            *self == AccountTag::Asks ==> r == 4,
    {
        match self {
            AccountTag::Uninitialized => 0,
            AccountTag::Market => 1,
            AccountTag::EventQueue => 2,
            AccountTag::Bids => 3,
            AccountTag::Asks => 4,
        }
    }
}

impl Default for AccountTag {
    fn default() -> (r: AccountTag)
        ensures
            r == AccountTag::Uninitialized,
    {
        AccountTag::Uninitialized
    }
}

/// Events are the engine's output: what matched and what left the book.
#[derive(Clone, Copy, Debug)]
pub enum Event {
    /// Padding for an unused slot.
    Empty,
    /// A match between the incoming (taker) order and a resting (maker) order.
    Fill {
        taker_side: Side,
        maker_order_id: u128,
        quote_size: u64,
        base_size: u64,
        maker_callback_info: [u8; 32],
        taker_callback_info: [u8; 32],
    },
    /// An order, or part of one, taken out of the book.
    Out { side: Side, order_id: u128, base_size: u64, delete: bool, callback_info: [u8; 32] },
}

impl Default for Event {
    fn default() -> (r: Event)
        ensures
            r == Event::Empty,
    {
        Event::Empty
    }
}


/// The market's header record.
#[derive(Clone, Copy, Debug)]
pub struct MarketState {
    /// Identifies the record: `AccountTag::Market`'s code while the market lives.
    pub tag: u64,
    /// The signer required for every market operation.
    pub caller_authority: [u8; 32],
    /// The handle of the event queue.
    pub event_queue: [u8; 32],
    /// The handle of the bids tree.
    pub bids: [u8; 32],
    /// The handle of the asks tree.
    pub asks: [u8; 32],
    /// Length of the owner-identifying prefix of callback information.
    pub callback_id_len: u64,
    /// Length of each order's callback information.
    pub callback_info_len: u64,
    /// Fees collected and not yet paid out to crankers.
    pub fee_budget: u64,
    /// The lamports the market was created with.
    pub initial_lamports: u64,
    /// Orders left with this base quantity or less after matching leave the book.
    pub min_base_order_size: u64,
    /// Price tick, in 32.32 fixed point.
    pub tick_size: u64,
    /// Fee due on each new order.
    pub cranker_reward: u64,
}

impl MarketState {
    /// The record, if it holds a live market.
    pub fn get(&self) -> (r: Result<&MarketState, crate::error::ErrorCode>)
        ensures
            self.tag == 1 ==> r == Ok::<&MarketState, crate::error::ErrorCode>(self),
            self.tag != 1 ==> r == Err::<&MarketState, crate::error::ErrorCode>(
                crate::error::ErrorCode::WrongAccountTag,
            ),
    {
        if self.tag != 1 {
            return Err(crate::error::ErrorCode::WrongAccountTag);
        }
        Ok(self)
    }

    /// A record that holds no market.
    pub fn uninitialized() -> (r: MarketState)
        ensures
            r.tag == 0,
    {
        MarketState {
            tag: 0,
            caller_authority: [0u8; 32],
            event_queue: [0u8; 32],
            bids: [0u8; 32],
            asks: [0u8; 32],
            callback_id_len: 0,
            callback_info_len: 0,
            fee_budget: 0,
            initial_lamports: 0,
            min_base_order_size: 0,
            tick_size: 0,
            cranker_reward: 0,
        }
    }
}

} // verus!
