use vstd::prelude::*;

verus! {

/// Why a call failed.
#[derive(Clone, Copy, Debug, PartialEq, Eq, Structural)]
pub enum ErrorCode {
    AlreadyInitialized,
    WrongBidsAccount,
    WrongAsksAccount,
    WrongEventQueueAccount,
    WrongCallerAuthority,
    EventQueueFull,
    OrderNotFound,
    WouldSelfTrade,
    SlabOutOfSpace,
    FeeNotPayed,
    NoOperations,
    MarketStillActive,
    InvalidBaseQuantity,
    WrongEventQueueOwner,
    WrongBidsOwner,
    WrongAsksOwner,
    WrongMarketOwner,
    WrongMsrmOwner,
    WrongMsrmMint,
    WrongMsrmBalance,
    IllegalMsrmOwner,
    WrongAccountTag,
    FailedToDeserialize,
    /// An argument does not fit the market: callback information of the wrong
    /// length, or a price that cannot be put on the tick grid.
    InvalidArgument,
}

} // verus!
