use agnostic_orderbook::error::ErrorCode;
use agnostic_orderbook::event_queue::EventQueue;
use agnostic_orderbook::market::{
    cancel_order, close_market, consume_events, create_market, new_order, Accounts,
};
use agnostic_orderbook::order_id::gen_order_id;
use agnostic_orderbook::orderbook::{OrderBookState, OrderSummary};
use agnostic_orderbook::params::{CreateMarketParams, NewOrderParams};
use agnostic_orderbook::state::{Event, MarketState, SelfTradeBehavior, Side};

const AUTHORITY: [u8; 32] = [7u8; 32];
const OWNER_A: [u8; 32] = [0xAAu8; 32];
const OWNER_B: [u8; 32] = [0xBBu8; 32];

fn fp(p: u64) -> u64 {
    p << 32
}

fn keys() -> Accounts {
    Accounts { event_queue: [1u8; 32], bids: [2u8; 32], asks: [3u8; 32], authority: AUTHORITY }
}

struct Setup {
    market: MarketState,
    book: OrderBookState,
    queue: EventQueue,
}

fn setup_with(event_capacity: u64, slab_capacity: u32) -> Setup {
    let mut market = MarketState::uninitialized();
    let params = CreateMarketParams {
        caller_authority: AUTHORITY,
        callback_info_len: 32,
        callback_id_len: 8,
        min_base_order_size: 1,
        tick_size: 1,
        cranker_reward: 0,
    };
    let (book, queue) =
        create_market(&mut market, &keys(), params, 0, event_capacity, slab_capacity).unwrap();
    Setup { market, book, queue }
}

fn setup() -> Setup {
    setup_with(32, 64)
}

fn order(
    side: Side,
    owner: [u8; 32],
    base: u64,
    quote: u64,
    price: u64,
    post_only: bool,
    stb: SelfTradeBehavior,
) -> NewOrderParams {
    NewOrderParams {
        max_base_qty: base,
        max_quote_qty: quote,
        limit_price: price,
        side,
        match_limit: 10,
        callback_info: owner.to_vec(),
        post_only,
        post_allowed: true,
        self_trade_behavior: stb,
    }
}

fn place(s: &mut Setup, p: NewOrderParams) -> Result<OrderSummary, ErrorCode> {
    new_order(&mut s.market, &mut s.book, &mut s.queue, &keys(), p, 0)
}

fn drain(q: &mut EventQueue) -> Vec<Event> {
    let mut v = Vec::new();
    while let Some(e) = q.pop_front() {
        v.push(e);
    }
    v
}

fn post_first_bid(s: &mut Setup) -> OrderSummary {
    place(
        s,
        order(Side::Bid, OWNER_A, 10, 1000, fp(100), true, SelfTradeBehavior::DecrementTake),
    )
    .unwrap()
}

#[test]
fn post_only_bid_rests() {
    let mut s = setup();
    let r = post_first_bid(&mut s);
    assert!(r.posted_order_id.is_some());
    assert_eq!(r.total_base_qty, 10);
    assert_eq!(r.total_quote_qty, 1000);
    assert_eq!(r.total_base_qty_posted, 10);
    assert_eq!(s.queue.len(), 0);
    assert_eq!(s.queue.read_register(), Some(r));
    assert_eq!(s.book.get_tree(Side::Bid).leaf_count(), 1);
}

#[test]
fn partial_fill_of_resting_bid() {
    let mut s = setup();
    let first = post_first_bid(&mut s);
    let id = first.posted_order_id.unwrap();
    let r = place(
        &mut s,
        order(Side::Ask, OWNER_B, 4, u64::MAX, fp(100), false, SelfTradeBehavior::DecrementTake),
    )
    .unwrap();
    assert_eq!(r.total_base_qty, 4);
    assert_eq!(r.total_quote_qty, 400);
    assert_eq!(r.posted_order_id, None);
    let events = drain(&mut s.queue);
    assert_eq!(events.len(), 1);
    match events[0] {
        Event::Fill { taker_side, maker_order_id, quote_size, base_size, maker_callback_info, taker_callback_info } => {
            assert_eq!(taker_side, Side::Ask);
            assert_eq!(maker_order_id, id);
            assert_eq!(base_size, 4);
            assert_eq!(quote_size, 400);
            assert_eq!(maker_callback_info, OWNER_A);
            assert_eq!(taker_callback_info, OWNER_B);
        },
        _ => panic!("expected a fill"),
    }
    let tree = s.book.get_tree(Side::Bid);
    let h = tree.find_by_key(id).unwrap();
    assert_eq!(tree.get_leaf(h).base_quantity, 6);
}

#[test]
fn full_fill_removes_resting_bid() {
    let mut s = setup();
    let id = post_first_bid(&mut s).posted_order_id.unwrap();
    let r = place(
        &mut s,
        order(Side::Ask, OWNER_B, 10, u64::MAX, fp(100), false, SelfTradeBehavior::DecrementTake),
    )
    .unwrap();
    assert_eq!(r.total_base_qty, 10);
    assert_eq!(r.total_quote_qty, 1000);
    let events = drain(&mut s.queue);
    assert_eq!(events.len(), 2);
    assert!(matches!(events[0], Event::Fill { base_size: 10, quote_size: 1000, .. }));
    match events[1] {
        Event::Out { side, order_id, base_size, delete, .. } => {
            assert_eq!(side, Side::Bid);
            assert_eq!(order_id, id);
            assert_eq!(base_size, 0);
            assert!(delete);
        },
        _ => panic!("expected an out event"),
    }
    assert_eq!(s.book.get_tree(Side::Bid).leaf_count(), 0);
    assert!(s.book.is_empty());
}

#[test]
fn abort_transaction_on_self_trade() {
    let mut s = setup();
    let id = post_first_bid(&mut s).posted_order_id.unwrap();
    let seq_before = s.queue.seq_num();
    let r = place(
        &mut s,
        order(Side::Ask, OWNER_A, 5, u64::MAX, fp(100), false, SelfTradeBehavior::AbortTransaction),
    );
    assert_eq!(r, Err(ErrorCode::WouldSelfTrade));
    let tree = s.book.get_tree(Side::Bid);
    assert_eq!(tree.leaf_count(), 1);
    assert_eq!(tree.get_leaf(tree.find_by_key(id).unwrap()).base_quantity, 10);
    assert_eq!(s.book.get_tree(Side::Ask).leaf_count(), 0);
    assert_eq!(s.queue.len(), 0);
    assert_eq!(s.queue.seq_num(), seq_before);
}

#[test]
fn abort_transaction_rolls_back_earlier_fills() {
    let mut s = setup();
    let b = place(
        &mut s,
        order(Side::Bid, OWNER_B, 3, 1000, fp(101), true, SelfTradeBehavior::DecrementTake),
    )
    .unwrap();
    post_first_bid(&mut s);
    let r = place(
        &mut s,
        order(Side::Ask, OWNER_A, 8, u64::MAX, fp(100), false, SelfTradeBehavior::AbortTransaction),
    );
    assert_eq!(r, Err(ErrorCode::WouldSelfTrade));
    let tree = s.book.get_tree(Side::Bid);
    assert_eq!(tree.leaf_count(), 2);
    let h = tree.find_by_key(b.posted_order_id.unwrap()).unwrap();
    assert_eq!(tree.get_leaf(h).base_quantity, 3);
    assert_eq!(s.queue.len(), 0);
}

#[test]
fn cancel_provide_on_self_trade() {
    let mut s = setup();
    let id = post_first_bid(&mut s).posted_order_id.unwrap();
    let mut p = order(Side::Ask, OWNER_A, 20, u64::MAX, fp(100), false, SelfTradeBehavior::CancelProvide);
    p.post_allowed = false;
    let r = place(&mut s, p).unwrap();
    assert_eq!(r.total_base_qty, 0);
    assert_eq!(r.total_quote_qty, 0);
    assert_eq!(r.posted_order_id, None);
    let events = drain(&mut s.queue);
    assert_eq!(events.len(), 1);
    match events[0] {
        Event::Out { side, order_id, base_size, delete, callback_info } => {
            assert_eq!(side, Side::Bid);
            assert_eq!(order_id, id);
            assert_eq!(base_size, 10);
            assert!(delete);
            assert_eq!(callback_info, OWNER_A);
        },
        _ => panic!("expected an out event"),
    }
    assert!(s.book.is_empty());
}

#[test]
fn cancel_provide_then_residual_posts() {
    let mut s = setup();
    post_first_bid(&mut s);
    let r = place(
        &mut s,
        order(Side::Ask, OWNER_A, 20, u64::MAX, fp(100), false, SelfTradeBehavior::CancelProvide),
    )
    .unwrap();
    assert!(r.posted_order_id.is_some());
    assert_eq!(r.total_base_qty_posted, 20);
    assert_eq!(s.book.get_tree(Side::Bid).leaf_count(), 0);
    assert_eq!(s.book.get_tree(Side::Ask).leaf_count(), 1);
    let events = drain(&mut s.queue);
    assert_eq!(events.len(), 1);
    assert!(matches!(events[0], Event::Out { side: Side::Bid, delete: true, .. }));
}

#[test]
fn full_bid_tree_evicts_lowest_bid() {
    // Seven slots hold four leaves and their three branches.
    let mut s = setup_with(32, 7);
    let mut ids = Vec::new();
    for p in 10..14u64 {
        let r = place(
            &mut s,
            order(Side::Bid, OWNER_B, 10, 10_000, fp(p), true, SelfTradeBehavior::DecrementTake),
        )
        .unwrap();
        ids.push(r.posted_order_id.unwrap());
    }
    assert_eq!(s.book.get_tree(Side::Bid).leaf_count(), 4);
    // A bid below every resting bid: nothing posted, nothing evicted.
    let r = place(
        &mut s,
        order(Side::Bid, OWNER_B, 10, 10_000, fp(1), false, SelfTradeBehavior::DecrementTake),
    )
    .unwrap();
    assert_eq!(r.posted_order_id, None);
    assert_eq!(r.total_base_qty, 0);
    assert_eq!(r.total_base_qty_posted, 0);
    assert_eq!(s.queue.len(), 0);
    {
        let tree = s.book.get_tree(Side::Bid);
        assert_eq!(tree.leaf_count(), 4);
        for id in &ids {
            assert_eq!(tree.get_leaf(tree.find_by_key(*id).unwrap()).base_quantity, 10);
        }
    }
    // The most aggressive bid pushes out the lowest one.
    let r = place(
        &mut s,
        order(Side::Bid, OWNER_B, 10, 10_000, fp(20), true, SelfTradeBehavior::DecrementTake),
    )
    .unwrap();
    assert!(r.posted_order_id.is_some());
    let events = drain(&mut s.queue);
    assert_eq!(events.len(), 1);
    match events[0] {
        Event::Out { side, order_id, delete, base_size, .. } => {
            assert_eq!(side, Side::Bid);
            assert_eq!(order_id, ids[0]);
            assert!(delete);
            assert_eq!(base_size, 10);
        },
        _ => panic!("expected an out event"),
    }
    let tree = s.book.get_tree(Side::Bid);
    assert_eq!(tree.leaf_count(), 4);
    assert!(tree.find_by_key(ids[0]).is_none());
    assert_eq!(tree.get_leaf(tree.find_max().unwrap()).key, r.posted_order_id.unwrap());
}

#[test]
fn full_ask_tree_evicts_highest_ask() {
    let mut s = setup_with(32, 3);
    let low = place(&mut s, order(Side::Ask, OWNER_B, 5, u64::MAX, fp(50), true, SelfTradeBehavior::DecrementTake)).unwrap();
    let high = place(&mut s, order(Side::Ask, OWNER_B, 5, u64::MAX, fp(60), true, SelfTradeBehavior::DecrementTake)).unwrap();
    let r = place(&mut s, order(Side::Ask, OWNER_B, 5, u64::MAX, fp(40), true, SelfTradeBehavior::DecrementTake)).unwrap();
    assert!(r.posted_order_id.is_some());
    let events = drain(&mut s.queue);
    assert_eq!(events.len(), 1);
    assert!(matches!(events[0], Event::Out { side: Side::Ask, order_id, .. } if order_id == high.posted_order_id.unwrap()));
    let tree = s.book.get_tree(Side::Ask);
    assert!(tree.find_by_key(low.posted_order_id.unwrap()).is_some());
    assert_eq!(tree.get_leaf(tree.find_min().unwrap()).key, r.posted_order_id.unwrap());
}

#[test]
fn cancel_twice_reports_not_found() {
    let mut s = setup();
    let id = post_first_bid(&mut s).posted_order_id.unwrap();
    let r = cancel_order(&mut s.market, &mut s.book, &mut s.queue, &keys(), id).unwrap();
    assert_eq!(r.total_base_qty, 10);
    assert_eq!(r.total_quote_qty, 1000);
    assert_eq!(r.total_base_qty_posted, 0);
    assert_eq!(r.posted_order_id, None);
    assert_eq!(s.queue.len(), 0);
    let again = cancel_order(&mut s.market, &mut s.book, &mut s.queue, &keys(), id);
    assert_eq!(again, Err(ErrorCode::OrderNotFound));
}

#[test]
fn wrong_authority_is_refused() {
    let mut s = setup();
    let mut k = keys();
    k.authority = [9u8; 32];
    let p = order(Side::Bid, OWNER_A, 10, 1000, fp(100), true, SelfTradeBehavior::DecrementTake);
    let r = new_order(&mut s.market, &mut s.book, &mut s.queue, &k, p, 0);
    assert_eq!(r, Err(ErrorCode::WrongCallerAuthority));
    let mut k2 = keys();
    k2.bids = [9u8; 32];
    assert_eq!(cancel_order(&mut s.market, &mut s.book, &mut s.queue, &k2, 5), Err(ErrorCode::WrongBidsAccount));
}

#[test]
fn zero_base_quantity_is_refused() {
    let mut s = setup();
    let r = place(&mut s, order(Side::Bid, OWNER_A, 0, 1000, fp(100), false, SelfTradeBehavior::DecrementTake));
    assert_eq!(r, Err(ErrorCode::InvalidBaseQuantity));
}

#[test]
fn wrong_callback_length_is_refused() {
    let mut s = setup();
    let mut p = order(Side::Bid, OWNER_A, 10, 1000, fp(100), false, SelfTradeBehavior::DecrementTake);
    p.callback_info = vec![1u8; 5];
    assert_eq!(place(&mut s, p), Err(ErrorCode::InvalidArgument));
}

#[test]
fn full_event_queue_fails_and_rolls_back() {
    let mut s = setup_with(1, 64);
    let id = post_first_bid(&mut s).posted_order_id.unwrap();
    let r = place(
        &mut s,
        order(Side::Ask, OWNER_B, 10, u64::MAX, fp(100), false, SelfTradeBehavior::DecrementTake),
    );
    assert_eq!(r, Err(ErrorCode::EventQueueFull));
    let tree = s.book.get_tree(Side::Bid);
    assert_eq!(tree.get_leaf(tree.find_by_key(id).unwrap()).base_quantity, 10);
    assert_eq!(s.queue.len(), 0);
}

#[test]
fn unpaid_fee_is_refused() {
    let mut market = MarketState::uninitialized();
    let params = CreateMarketParams {
        caller_authority: AUTHORITY,
        callback_info_len: 32,
        callback_id_len: 8,
        min_base_order_size: 1,
        tick_size: 1,
        cranker_reward: 100,
    };
    let (mut book, mut queue) = create_market(&mut market, &keys(), params, 1000, 8, 16).unwrap();
    let p = order(Side::Bid, OWNER_A, 10, 1000, fp(100), true, SelfTradeBehavior::DecrementTake);
    assert_eq!(new_order(&mut market, &mut book, &mut queue, &keys(), p.clone(), 1050), Err(ErrorCode::FeeNotPayed));
    assert!(book.is_empty());
    assert!(new_order(&mut market, &mut book, &mut queue, &keys(), p, 1100).is_ok());
    assert_eq!(market.fee_budget, 100);
}

#[test]
fn consume_events_pays_proportional_reward() {
    let mut market = MarketState::uninitialized();
    let params = CreateMarketParams {
        caller_authority: AUTHORITY,
        callback_info_len: 32,
        callback_id_len: 8,
        min_base_order_size: 1,
        tick_size: 1,
        cranker_reward: 10,
    };
    let (mut book, mut queue) = create_market(&mut market, &keys(), params, 0, 8, 16).unwrap();
    let p = order(Side::Bid, OWNER_A, 10, 1000, fp(100), true, SelfTradeBehavior::DecrementTake);
    new_order(&mut market, &mut book, &mut queue, &keys(), p, 10).unwrap();
    let p = order(Side::Ask, OWNER_B, 10, u64::MAX, fp(100), false, SelfTradeBehavior::DecrementTake);
    new_order(&mut market, &mut book, &mut queue, &keys(), p, 30).unwrap();
    assert_eq!(market.fee_budget, 30);
    assert_eq!(queue.len(), 2);
    let (popped, reward) = consume_events(&mut market, &book, &mut queue, &keys(), 1).unwrap();
    assert_eq!(popped, 1);
    assert_eq!(reward, 15);
    assert_eq!(market.fee_budget, 15);
    assert_eq!(queue.len(), 1);
    let (popped, reward) = consume_events(&mut market, &book, &mut queue, &keys(), 5).unwrap();
    assert_eq!(popped, 1);
    assert_eq!(reward, 15);
    assert_eq!(consume_events(&mut market, &book, &mut queue, &keys(), 5), Err(ErrorCode::NoOperations));
}

#[test]
fn close_market_needs_empty_book_and_queue() {
    let mut s = setup();
    let id = post_first_bid(&mut s).posted_order_id.unwrap();
    assert_eq!(close_market(&mut s.market, &s.book, &s.queue, &keys()), Err(ErrorCode::MarketStillActive));
    cancel_order(&mut s.market, &mut s.book, &mut s.queue, &keys(), id).unwrap();
    assert_eq!(close_market(&mut s.market, &s.book, &s.queue, &keys()), Ok(()));
    assert_eq!(s.market.tag, 0);
    let p = order(Side::Bid, OWNER_A, 10, 1000, fp(100), true, SelfTradeBehavior::DecrementTake);
    assert_eq!(place(&mut s, p), Err(ErrorCode::WrongAccountTag));
}

#[test]
fn create_market_twice_is_refused() {
    let mut s = setup();
    let params = CreateMarketParams {
        caller_authority: AUTHORITY,
        callback_info_len: 32,
        callback_id_len: 8,
        min_base_order_size: 1,
        tick_size: 1,
        cranker_reward: 0,
    };
    assert!(matches!(create_market(&mut s.market, &keys(), params, 0, 8, 8), Err(ErrorCode::AlreadyInitialized)));
    let mut m = MarketState::uninitialized();
    let bad = CreateMarketParams { callback_id_len: 33, ..params };
    assert!(matches!(create_market(&mut m, &keys(), bad, 0, 8, 8), Err(ErrorCode::InvalidArgument)));
}

#[test]
fn price_time_priority_on_bbo() {
    let mut s = setup();
    let first = place(&mut s, order(Side::Bid, OWNER_B, 5, 10_000, fp(100), true, SelfTradeBehavior::DecrementTake)).unwrap();
    let second = place(&mut s, order(Side::Bid, OWNER_B, 5, 10_000, fp(100), true, SelfTradeBehavior::DecrementTake)).unwrap();
    place(&mut s, order(Side::Bid, OWNER_B, 5, 10_000, fp(99), true, SelfTradeBehavior::DecrementTake)).unwrap();
    let best = s.book.find_bbo(Side::Bid).unwrap();
    assert_eq!(s.book.get_tree(Side::Bid).get_leaf(best).key, first.posted_order_id.unwrap());
    assert!(first.posted_order_id.unwrap() > second.posted_order_id.unwrap());
    let r = place(&mut s, order(Side::Ask, OWNER_A, 7, u64::MAX, fp(90), false, SelfTradeBehavior::DecrementTake)).unwrap();
    assert_eq!(r.total_base_qty, 7);
    assert_eq!(r.total_quote_qty, 700);
    let events = drain(&mut s.queue);
    assert!(matches!(events[0], Event::Fill { maker_order_id, base_size: 5, .. } if maker_order_id == first.posted_order_id.unwrap()));
    assert!(matches!(events[2], Event::Fill { maker_order_id, base_size: 2, .. } if maker_order_id == second.posted_order_id.unwrap()));
    assert_eq!(s.book.get_spread(), (Some(fp(100)), None));
}

#[test]
fn conservation_over_several_makers() {
    let mut s = setup();
    for p in [100u64, 101, 102] {
        place(&mut s, order(Side::Ask, OWNER_B, 4, u64::MAX, fp(p), true, SelfTradeBehavior::DecrementTake)).unwrap();
    }
    let r = place(&mut s, order(Side::Bid, OWNER_A, 20, 100_000, fp(101), false, SelfTradeBehavior::DecrementTake)).unwrap();
    let events = drain(&mut s.queue);
    let mut base = 0u64;
    let mut quote = 0u64;
    for e in &events {
        if let Event::Fill { base_size, quote_size, .. } = e {
            base += base_size;
            quote += quote_size;
        }
    }
    assert_eq!(r.total_base_qty - r.total_base_qty_posted, base);
    assert_eq!(base, 8);
    assert_eq!(quote, 400 + 404);
    assert_eq!(r.total_base_qty_posted, 12);
    let tree = s.book.get_tree(Side::Bid);
    let h = tree.find_by_key(r.posted_order_id.unwrap()).unwrap();
    assert_eq!(tree.get_leaf(h).base_quantity, 12);
    assert_eq!(r.total_quote_qty, quote + 12 * 101);
}

#[test]
fn match_limit_stops_matching_without_posting() {
    let mut s = setup();
    for _ in 0..3 {
        place(&mut s, order(Side::Ask, OWNER_B, 2, u64::MAX, fp(100), true, SelfTradeBehavior::DecrementTake)).unwrap();
    }
    let mut p = order(Side::Bid, OWNER_A, 10, 100_000, fp(100), false, SelfTradeBehavior::DecrementTake);
    p.match_limit = 2;
    let r = place(&mut s, p).unwrap();
    assert_eq!(r.total_base_qty, 4);
    assert_eq!(r.posted_order_id, None);
    assert_eq!(s.book.get_tree(Side::Ask).leaf_count(), 1);
}

#[test]
fn post_only_crossing_order_does_nothing() {
    let mut s = setup();
    place(&mut s, order(Side::Ask, OWNER_B, 5, u64::MAX, fp(100), true, SelfTradeBehavior::DecrementTake)).unwrap();
    let r = place(&mut s, order(Side::Bid, OWNER_A, 5, 100_000, fp(100), true, SelfTradeBehavior::DecrementTake)).unwrap();
    assert_eq!(r, OrderSummary { posted_order_id: None, total_base_qty: 0, total_quote_qty: 0, total_base_qty_posted: 0 });
    assert_eq!(s.queue.len(), 0);
}

#[test]
fn ask_limit_price_rounds_up_to_tick() {
    let mut market = MarketState::uninitialized();
    let params = CreateMarketParams {
        caller_authority: AUTHORITY,
        callback_info_len: 8,
        callback_id_len: 8,
        min_base_order_size: 0,
        tick_size: 10,
        cranker_reward: 0,
    };
    let (mut book, mut queue) = create_market(&mut market, &keys(), params, 0, 8, 16).unwrap();
    let mut p = order(Side::Ask, OWNER_A, 1, u64::MAX, 95, true, SelfTradeBehavior::DecrementTake);
    p.callback_info = vec![1u8; 8];
    let r = new_order(&mut market, &mut book, &mut queue, &keys(), p, 0).unwrap();
    let id = r.posted_order_id.unwrap();
    assert_eq!(agnostic_orderbook::order_id::price_from_key(id), 100);
    let mut p = order(Side::Ask, OWNER_A, 1, u64::MAX, u64::MAX, true, SelfTradeBehavior::DecrementTake);
    p.callback_info = vec![1u8; 8];
    assert_eq!(new_order(&mut market, &mut book, &mut queue, &keys(), p, 0), Err(ErrorCode::InvalidArgument));
    assert_eq!(gen_order_id(100, Side::Ask, 1), id);
}

#[test]
fn small_remainder_leaves_the_book() {
    let mut s = setup();
    let id = post_first_bid(&mut s).posted_order_id.unwrap();
    let r = place(
        &mut s,
        order(Side::Ask, OWNER_B, 9, u64::MAX, fp(100), false, SelfTradeBehavior::DecrementTake),
    )
    .unwrap();
    assert_eq!(r.total_base_qty, 9);
    let events = drain(&mut s.queue);
    assert_eq!(events.len(), 2);
    assert!(matches!(events[1], Event::Out { side: Side::Bid, base_size: 1, delete: true, order_id, .. } if order_id == id));
    assert!(s.book.is_empty());
}

#[test]
fn cancel_provide_cancels_larger_maker_in_steps() {
    let mut s = setup();
    let id = post_first_bid(&mut s).posted_order_id.unwrap();
    let r = place(
        &mut s,
        order(Side::Ask, OWNER_A, 4, u64::MAX, fp(100), false, SelfTradeBehavior::CancelProvide),
    )
    .unwrap();
    let events = drain(&mut s.queue);
    assert_eq!(events.len(), 3);
    assert!(matches!(events[0], Event::Out { base_size: 4, delete: false, order_id, .. } if order_id == id));
    assert!(matches!(events[1], Event::Out { base_size: 4, delete: false, order_id, .. } if order_id == id));
    assert!(matches!(events[2], Event::Out { base_size: 2, delete: true, order_id, .. } if order_id == id));
    assert_eq!(s.book.get_tree(Side::Bid).leaf_count(), 0);
    assert_eq!(r.total_base_qty_posted, 4);
    assert_eq!(s.book.get_tree(Side::Ask).leaf_count(), 1);
}

#[test]
fn full_ask_tree_keeps_orders_below_a_higher_ask() {
    let mut s = setup_with(32, 3);
    let low = place(&mut s, order(Side::Ask, OWNER_B, 5, u64::MAX, fp(50), true, SelfTradeBehavior::DecrementTake)).unwrap();
    let high = place(&mut s, order(Side::Ask, OWNER_B, 5, u64::MAX, fp(60), true, SelfTradeBehavior::DecrementTake)).unwrap();
    let r = place(&mut s, order(Side::Ask, OWNER_B, 5, u64::MAX, fp(70), true, SelfTradeBehavior::DecrementTake)).unwrap();
    assert_eq!(r.posted_order_id, None);
    assert_eq!(s.queue.len(), 0);
    let tree = s.book.get_tree(Side::Ask);
    assert_eq!(tree.leaf_count(), 2);
    assert!(tree.find_by_key(low.posted_order_id.unwrap()).is_some());
    assert!(tree.find_by_key(high.posted_order_id.unwrap()).is_some());
}

#[test]
fn consume_events_succeeds_on_non_empty_queue() {
    let mut s = setup();
    post_first_bid(&mut s);
    place(&mut s, order(Side::Ask, OWNER_B, 10, u64::MAX, fp(100), false, SelfTradeBehavior::DecrementTake)).unwrap();
    assert_eq!(s.queue.len(), 2);
    let (popped, reward) = consume_events(&mut s.market, &s.book, &mut s.queue, &keys(), 1).unwrap();
    assert_eq!((popped, reward), (1, 0));
    assert!(matches!(s.queue.pop_front(), Some(Event::Out { delete: true, .. })));
}
