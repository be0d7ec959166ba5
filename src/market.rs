use vstd::prelude::*;

use crate::critbit::{Slab, NIL};
use crate::error::ErrorCode;
use crate::event_queue::EventQueue;
use crate::fp32::{fp32_mul, fp32_mul_spec, round_price, round_price_fits, round_price_spec};
use crate::order_id::{price_of, side_of};
use crate::orderbook::{
    above_min, keys_fresh, lemma_min_size_kept, order_outcome, order_result, pad_info, valid_run,
    order_input, initial_state, MatchState, OrderBookState, OrderSummary,
};
use crate::params::{CreateMarketParams, NewOrderParams};
use crate::state::{AccountTag, MarketState, Side};

verus! {

/// The handles a caller presents with a call, and the signer.
#[derive(Clone, Copy, Debug)]
pub struct Accounts {
    pub event_queue: [u8; 32],
    pub bids: [u8; 32],
    pub asks: [u8; 32],
    pub authority: [u8; 32],
}

/// A live market's header, book and queue fit together.
pub open spec fn market_wf(market: MarketState, book: OrderBookState, eq: EventQueue) -> bool {
    &&& book.wf()
    &&& eq.wf()
    &&& keys_fresh(book.book(Side::Bid), Side::Bid, eq.seq_num_spec())
    &&& keys_fresh(book.book(Side::Ask), Side::Ask, eq.seq_num_spec())
    &&& book.callback_info_len_spec() == market.callback_info_len
    &&& book.callback_id_len_spec() == market.callback_id_len
    &&& above_min(book.book(Side::Bid), market.min_base_order_size)
    &&& above_min(book.book(Side::Ask), market.min_base_order_size)
}

/// The first check a call fails, if any: the record must hold a market, the
/// handles must be the market's, and the signer its authority.
pub open spec fn check_error(market: MarketState, keys: Accounts) -> Option<ErrorCode> {
    if market.tag != 1 {
        Some(ErrorCode::WrongAccountTag)
    } else if keys.event_queue@ != market.event_queue@ {
        Some(ErrorCode::WrongEventQueueAccount)
    } else if keys.bids@ != market.bids@ {
        Some(ErrorCode::WrongBidsAccount)
    } else if keys.asks@ != market.asks@ {
        Some(ErrorCode::WrongAsksAccount)
    } else if keys.authority@ != market.caller_authority@ {
        Some(ErrorCode::WrongCallerAuthority)
    } else {
        None
    }
}

/// Compares two 32-byte handles.
pub fn same_key(a: &[u8; 32], b: &[u8; 32]) -> (r: bool)
    ensures
        r == (a@ == b@),
{
    let mut i: usize = 0;
    while i < 32
        invariant
            i <= 32,
            forall|j: int| 0 <= j < i ==> #[trigger] a@[j] == b@[j],
        decreases 32 - i,
    {
        if a[i] != b[i] {
            return false;
        }
        i = i + 1;
    }
    assert(a@ =~= b@);
    true
}

/// Runs the checks of `check_error`.
pub fn check_accounts(market: &MarketState, keys: &Accounts) -> (r: Result<(), ErrorCode>)
    ensures
        r is Ok <==> check_error(*market, *keys) is None,
        r matches Err(e) ==> check_error(*market, *keys) == Some(e),
{
    if market.tag != 1 {
        return Err(ErrorCode::WrongAccountTag);
    }
    if !same_key(&keys.event_queue, &market.event_queue) {
        return Err(ErrorCode::WrongEventQueueAccount);
    }
    if !same_key(&keys.bids, &market.bids) {
        return Err(ErrorCode::WrongBidsAccount);
    }
    if !same_key(&keys.asks, &market.asks) {
        return Err(ErrorCode::WrongAsksAccount);
    }
    if !same_key(&keys.authority, &market.caller_authority) {
        return Err(ErrorCode::WrongCallerAuthority);
    }
    Ok(())
}

/// Sets up a market: its header, an empty queue of `event_capacity` slots and
/// two empty trees of `slab_capacity` slots.
pub fn create_market(
    market: &mut MarketState,
    keys: &Accounts,
    params: CreateMarketParams,
    initial_lamports: u64,
    event_capacity: u64,
    slab_capacity: u32,
) -> (r: Result<(OrderBookState, EventQueue), ErrorCode>)
    requires
        slab_capacity < NIL,
    ensures
        old(market).tag != 0 ==> r == Err::<(OrderBookState, EventQueue), ErrorCode>(
            ErrorCode::AlreadyInitialized,
        ),
        old(market).tag == 0 && !(params.callback_id_len <= params.callback_info_len
            && params.callback_info_len <= 32) ==> r == Err::<(OrderBookState, EventQueue), ErrorCode>(
            ErrorCode::InvalidArgument,
        ),
        r is Err ==> *final(market) == *old(market),
        old(market).tag == 0 && params.callback_id_len <= params.callback_info_len
            && params.callback_info_len <= 32 ==> r is Ok,
        r matches Ok((book, eq)) ==> {
            &&& market_wf(*final(market), book, eq)
            &&& *final(market) == (MarketState {
                tag: 1,
                caller_authority: params.caller_authority,
                event_queue: keys.event_queue,
                bids: keys.bids,
                asks: keys.asks,
                callback_id_len: params.callback_id_len,
                callback_info_len: params.callback_info_len,
                fee_budget: 0,
                initial_lamports,
                min_base_order_size: params.min_base_order_size,
                tick_size: params.tick_size,
                cranker_reward: params.cranker_reward,
            })
            &&& book.book(Side::Bid).len() == 0
            &&& book.book(Side::Ask).len() == 0
            &&& book.slab(Side::Bid).capacity_spec() == slab_capacity
            &&& book.slab(Side::Ask).capacity_spec() == slab_capacity
            &&& eq@.len() == 0
            &&& eq.seq_num_spec() == 0
            &&& eq.capacity_spec() == event_capacity
            &&& eq.register_spec() is None
        },
{
    if market.tag != 0 {
        return Err(ErrorCode::AlreadyInitialized);
    }
    if params.callback_id_len > params.callback_info_len || params.callback_info_len > 32 {
        return Err(ErrorCode::InvalidArgument);
    }
    let bids = Slab::new(slab_capacity, AccountTag::Bids);
    let asks = Slab::new(slab_capacity, AccountTag::Asks);
    let eq = EventQueue::new(event_capacity, params.callback_info_len);
    let book = match OrderBookState::new(bids, asks, params.callback_info_len, params.callback_id_len) {
        Ok(b) => b,
        Err(e) => {
            return Err(e);
        },
    };
    *market = MarketState {
        tag: 1,
        caller_authority: params.caller_authority,
        event_queue: keys.event_queue,
        bids: keys.bids,
        asks: keys.asks,
        callback_id_len: params.callback_id_len,
        callback_info_len: params.callback_info_len,
        fee_budget: 0,
        initial_lamports,
        min_base_order_size: params.min_base_order_size,
        tick_size: params.tick_size,
        cranker_reward: params.cranker_reward,
    };
    Ok((book, eq))
}

/// The fee due on a new order has been paid: the market holds at least its
/// fee budget plus the cranker reward above what it was created with.
pub open spec fn fee_paid(market: MarketState, lamports: u64) -> bool {
    lamports >= market.initial_lamports && lamports - market.initial_lamports >= market.fee_budget
        + market.cranker_reward
}

/// Checks that the fee for a new order was paid.
pub fn check_fee(market: &MarketState, lamports: u64) -> (r: bool)
    ensures
        r == fee_paid(*market, lamports),
{
    if lamports < market.initial_lamports {
        return false;
    }
    let held = (lamports - market.initial_lamports) as u128;
    held >= market.fee_budget as u128 + market.cranker_reward as u128
}

/// `params` with its limit price put on the market's tick grid.
pub open spec fn rounded(params: NewOrderParams, tick: u64) -> NewOrderParams {
    NewOrderParams {
        limit_price: round_price_spec(tick, params.limit_price, params.side) as u64,
        ..params
    }
}


/// Places a new order: checks the call, puts the limit price on the tick grid,
/// matches and posts (see `order_result`), writes the summary to the queue's
/// register and takes the fee into the budget. A failed call changes nothing.
#[verifier::rlimit(60)]
pub fn new_order(
    market: &mut MarketState,
    book: &mut OrderBookState,
    event_queue: &mut EventQueue,
    keys: &Accounts,
    params: NewOrderParams,
    market_lamports: u64,
) -> (r: Result<OrderSummary, ErrorCode>)
    requires
        market_wf(*old(market), *old(book), *old(event_queue)),
    ensures
        market_wf(*final(market), *final(book), *final(event_queue)),
        r is Err ==> *final(market) == *old(market) && final(book).same(old(book))
            && final(event_queue).same(old(event_queue)),
        check_error(*old(market), *keys) matches Some(e) ==> r == Err::<OrderSummary, ErrorCode>(e),
        check_error(*old(market), *keys) is None && !round_price_fits(
            old(market).tick_size,
            params.limit_price,
            params.side,
        ) ==> r == Err::<OrderSummary, ErrorCode>(ErrorCode::InvalidArgument),
        r matches Ok(s) ==> {
            &&& check_error(*old(market), *keys) is None
            &&& round_price_fits(old(market).tick_size, params.limit_price, params.side)
            &&& exists|eq_mid: EventQueue|
                {
                    &&& #[trigger] order_result(
                        rounded(params, old(market).tick_size),
                        old(market).min_base_order_size,
                        *old(book),
                        *old(event_queue),
                        r,
                        *final(book),
                        eq_mid,
                    )
                    &&& final(event_queue)@ == eq_mid@
                    &&& final(event_queue).seq_num_spec() == eq_mid.seq_num_spec()
                    &&& final(event_queue).capacity_spec() == eq_mid.capacity_spec()
                }
            &&& final(event_queue).register_spec() == Some(s)
            &&& fee_paid(*old(market), market_lamports)
            &&& *final(market) == (MarketState {
                fee_budget: (market_lamports - old(market).initial_lamports) as u64,
                ..*old(market)
            })
        },
        r matches Err(e) ==> check_error(*old(market), *keys) is Some || !round_price_fits(
            old(market).tick_size,
            params.limit_price,
            params.side,
        ) || (e == ErrorCode::FeeNotPayed && !fee_paid(*old(market), market_lamports) && exists|
            s: OrderSummary,
            book_mid: OrderBookState,
            eq_mid: EventQueue,
        |
            #[trigger] order_result(
                rounded(params, old(market).tick_size),
                old(market).min_base_order_size,
                *old(book),
                *old(event_queue),
                Ok::<OrderSummary, ErrorCode>(s),
                book_mid,
                eq_mid,
            )) || exists|book_mid: OrderBookState, eq_mid: EventQueue|
            #[trigger] order_result(
                rounded(params, old(market).tick_size),
                old(market).min_base_order_size,
                *old(book),
                *old(event_queue),
                r,
                book_mid,
                eq_mid,
            ),
{
    match check_accounts(market, keys) {
        Ok(()) => {},
        Err(e) => {
            proof {
                book.lemma_same_refl();
                event_queue.lemma_same_refl();
            }
            return Err(e);
        },
    }
    proof {
        book.lemma_same_refl();
        event_queue.lemma_same_refl();
    }
    if market.tick_size == 0 {
        return Err(ErrorCode::InvalidArgument);
    }
    if params.side == Side::Ask {
        let t = market.tick_size as u128;
        let c = params.limit_price as u128 + t - 1;
        let qq = c / t;
        proof {
            assert(qq * t <= c) by (nonlinear_arith)
                requires
                    t > 0,
                    qq == c / t,
            ;
        }
        let up = qq * t;
        if up > u64::MAX as u128 {
            return Err(ErrorCode::InvalidArgument);
        }
    }
    let mut p = params;
    p.limit_price = round_price(market.tick_size, p.limit_price, p.side);
    let ghost snapped = p;
    assert(snapped == rounded(params, market.tick_size));
    let book_snapshot = book.duplicate();
    let queue_snapshot = event_queue.duplicate();
    let ghost book0 = *book;
    let ghost eq0 = *event_queue;
    let result = book.new_order(p, event_queue, market.min_base_order_size);
    let ghost book_mid = *book;
    let ghost eq_mid = *event_queue;
    match result {
        Err(e) => {
            *book = book_snapshot;
            *event_queue = queue_snapshot;
            proof {
                book.lemma_same(&book0);
                event_queue.lemma_same(&eq0);
                assert(order_result(snapped, market.min_base_order_size, book0, eq0, result, book_mid, eq_mid));
            }
            Err(e)
        },
        Ok(summary) => {
            if !check_fee(market, market_lamports) {
                *book = book_snapshot;
                *event_queue = queue_snapshot;
                proof {
                    book.lemma_same(&book0);
                    event_queue.lemma_same(&eq0);
                    assert(order_result(
                        snapped,
                        market.min_base_order_size,
                        book0,
                        eq0,
                        Ok::<OrderSummary, ErrorCode>(summary),
                        book_mid,
                        eq_mid,
                    ));
                }
                return Err(ErrorCode::FeeNotPayed);
            }
            event_queue.write_to_register(summary);
            market.fee_budget = market_lamports - market.initial_lamports;
            proof {
                let min = market.min_base_order_size;
                assert(order_result(snapped, min, book0, eq0, result, *book, eq_mid));
                book0.lemma_finite();
                let (info, trace) = choose|info: [u8; 32], trace: Seq<MatchState>|
                    {
                        &&& info@ == pad_info(snapped.callback_info@)
                        &&& #[trigger] valid_run(
                            order_input(snapped, info, book0, eq0, min),
                            initial_state(snapped, book0),
                            trace,
                        )
                        &&& trace.last().done
                        &&& result == order_outcome(snapped, info, book0, eq0, min, trace).result
                        &&& result is Ok ==> crate::orderbook::order_applied(
                            snapped,
                            trace,
                            order_outcome(snapped, info, book0, eq0, min, trace),
                            book0,
                            book_mid,
                            eq0,
                            eq_mid,
                        )
                    };
                lemma_min_size_kept(snapped, info, book0, eq0, min, trace);
                match snapped.side {
                    Side::Bid => {},
                    Side::Ask => {},
                }
            }
            Ok(summary)
        },
    }
}

/// Cancels a resting order: removes it from the side its id names and reports
/// what was left of it.
pub fn cancel_order(
    market: &mut MarketState,
    book: &mut OrderBookState,
    event_queue: &mut EventQueue,
    keys: &Accounts,
    order_id: u128,
) -> (r: Result<OrderSummary, ErrorCode>)
    requires
        market_wf(*old(market), *old(book), *old(event_queue)),
    ensures
        market_wf(*final(market), *final(book), *final(event_queue)),
        *final(market) == *old(market),
        check_error(*old(market), *keys) matches Some(e) ==> r == Err::<OrderSummary, ErrorCode>(e),
        ({
            let side = side_of(order_id);
            check_error(*old(market), *keys) is None ==> {
                &&& !old(book).book(side).contains_key(order_id) ==> r == Err::<OrderSummary, ErrorCode>(
                    ErrorCode::OrderNotFound,
                )
                &&& old(book).book(side).contains_key(order_id) ==> {
                    let leaf = old(book).book(side)[order_id];
                    &&& r == Ok::<OrderSummary, ErrorCode>(
                        OrderSummary {
                            posted_order_id: None,
                            total_base_qty: leaf.base_quantity,
                            total_quote_qty: fp32_mul_spec(leaf.base_quantity, price_of(order_id)) as u64,
                            total_base_qty_posted: 0,
                        },
                    )
                    &&& final(book).book(side) == old(book).book(side).remove(order_id)
                    &&& final(book).book(side.opposite_spec()) == old(book).book(side.opposite_spec())
                    &&& final(event_queue)@ == old(event_queue)@
                    &&& final(event_queue).seq_num_spec() == old(event_queue).seq_num_spec()
                    &&& final(event_queue).register_spec() == Some(r->Ok_0)
                }
            }
        }),
        r is Err ==> final(book).same(old(book)) && final(event_queue).same(old(event_queue)),
{
    proof {
        book.lemma_same_refl();
        event_queue.lemma_same_refl();
    }
    match check_accounts(market, keys) {
        Ok(()) => {},
        Err(e) => {
            return Err(e);
        },
    }
    let removed = book.cancel(order_id);
    let leaf = match removed {
        Some(l) => l,
        None => {
            return Err(ErrorCode::OrderNotFound);
        },
    };
    let price = crate::order_id::price_from_key(leaf.key);
    let summary = OrderSummary {
        posted_order_id: None,
        total_base_qty: leaf.base_quantity,
        total_quote_qty: fp32_mul(leaf.base_quantity, price),
        total_base_qty_posted: 0,
    };
    event_queue.write_to_register(summary);
    Ok(summary)
}

/// The share of the fee budget paid for consuming `n` of `count` queued
/// events, rounded down.
pub open spec fn reward_spec(fee_budget: u64, n: u64, count: u64) -> int {
    (fee_budget as int * n as int) / count as int
}

/// Pops up to `n` events for a cranker. Returns how many were popped and the
/// reward taken out of the fee budget for them; fails with `NoOperations` on
/// an empty queue.
pub fn consume_events(
    market: &mut MarketState,
    book: &OrderBookState,
    event_queue: &mut EventQueue,
    keys: &Accounts,
    n: u64,
) -> (r: Result<(u64, u64), ErrorCode>)
    requires
        market_wf(*old(market), *book, *old(event_queue)),
    ensures
        market_wf(*final(market), *book, *final(event_queue)),
        check_error(*old(market), *keys) matches Some(e) ==> r == Err::<(u64, u64), ErrorCode>(e),
        check_error(*old(market), *keys) is None && old(event_queue)@.len() == 0 ==> r == Err::<
            (u64, u64),
            ErrorCode,
        >(ErrorCode::NoOperations),
        r is Err ==> *final(market) == *old(market) && *final(event_queue) == *old(event_queue),
        check_error(*old(market), *keys) is None && old(event_queue)@.len() > 0 ==> r is Ok,
        r matches Ok((popped, reward)) ==> {
            let count = old(event_queue)@.len() as u64;
            &&& check_error(*old(market), *keys) is None
            &&& count > 0
            &&& popped == if n < count { n } else { count }
            &&& reward == reward_spec(old(market).fee_budget, popped, count)
            &&& reward <= old(market).fee_budget
            &&& final(event_queue)@ == old(event_queue)@.skip(popped as int)
            &&& final(event_queue).seq_num_spec() == old(event_queue).seq_num_spec()
            &&& *final(market) == (MarketState {
                fee_budget: (old(market).fee_budget - reward) as u64,
                ..*old(market)
            })
        },
{
    match check_accounts(market, keys) {
        Ok(()) => {},
        Err(e) => {
            return Err(e);
        },
    }
    let count = event_queue.len();
    if count == 0 {
        return Err(ErrorCode::NoOperations);
    }
    let capped = if n < count {
        n
    } else {
        count
    };
    proof {
        let f = market.fee_budget as int;
        assert(f * capped as int <= f * count as int) by (nonlinear_arith)
            requires
                f >= 0,
                capped <= count,
        ;
        assert((f * capped as int) / count as int <= (f * count as int) / count as int) by (nonlinear_arith)
            requires
                f * capped as int <= f * count as int,
                count > 0,
                f * capped as int >= 0,
        ;
        assert((f * count as int) / count as int == f) by (nonlinear_arith)
            requires
                count > 0,
        ;
        assert(f * capped as int <= 18446744073709551615 * 18446744073709551615) by (nonlinear_arith)
            requires
                0 <= f <= 18446744073709551615,
                capped <= 18446744073709551615,
        ;
    }
    let reward = ((market.fee_budget as u128 * capped as u128) / count as u128) as u64;
    let popped = event_queue.pop_n(n);
    market.fee_budget = market.fee_budget - reward;
    Ok((popped, reward))
}

/// Closes a market whose book and event queue are empty: the record no longer
/// holds a market.
pub fn close_market(
    market: &mut MarketState,
    book: &OrderBookState,
    event_queue: &EventQueue,
    keys: &Accounts,
) -> (r: Result<(), ErrorCode>)
    requires
        market_wf(*old(market), *book, *event_queue),
    ensures
        check_error(*old(market), *keys) matches Some(e) ==> r == Err::<(), ErrorCode>(e),
        check_error(*old(market), *keys) is None ==> (r is Ok <==> (book.book(Side::Bid).len() == 0
            && book.book(Side::Ask).len() == 0 && event_queue@.len() == 0)),
        r matches Err(e) ==> *final(market) == *old(market) && (check_error(*old(market), *keys)
            is Some || e == ErrorCode::MarketStillActive),
        r is Ok ==> *final(market) == (MarketState { tag: 0, ..*old(market) }),
{
    match check_accounts(market, keys) {
        Ok(()) => {},
        Err(e) => {
            return Err(e);
        },
    }
    if !book.is_empty() {
        return Err(ErrorCode::MarketStillActive);
    }
    if !event_queue.empty() {
        return Err(ErrorCode::MarketStillActive);
    }
    market.tag = 0;
    Ok(())
}

} // verus!
