use agnostic_orderbook::critbit::{LeafNode, Slab};
use agnostic_orderbook::error::ErrorCode;
use agnostic_orderbook::event_queue::EventQueue;
use agnostic_orderbook::fp32::{fp32_div, fp32_mul, round_price};
use agnostic_orderbook::histbuf::HistoryBuffer;
use agnostic_orderbook::order_id::{gen_order_id, get_side_from_order_id, price_from_key, ORDER_ID_SIDE_FLAG};
use agnostic_orderbook::orderbook::OrderSummary;
use agnostic_orderbook::state::{AccountTag, Event, SelfTradeBehavior, Side};

fn leaf(key: u128, qty: u64) -> LeafNode {
    LeafNode { key, callback_info: [0u8; 32], base_quantity: qty }
}

fn out(id: u128) -> Event {
    Event::Out { side: Side::Bid, order_id: id, base_size: 1, delete: true, callback_info: [0u8; 32] }
}

#[test]
fn fp32_mul_values() {
    assert_eq!(fp32_mul(10, 100 << 32), 1000);
    assert_eq!(fp32_mul(3, 1 << 31), 1);
    assert_eq!(fp32_mul(u64::MAX, u64::MAX), u64::MAX);
    assert_eq!(fp32_mul(0, 5), 0);
}

#[test]
fn fp32_div_values() {
    assert_eq!(fp32_div(1000, 100 << 32), 10);
    assert_eq!(fp32_div(1, 1 << 31), 2);
    assert_eq!(fp32_div(7, 0), 0);
    assert_eq!(fp32_div(u64::MAX, 1), u64::MAX);
}

#[test]
fn round_price_values() {
    assert_eq!(round_price(10, 95, Side::Bid), 90);
    assert_eq!(round_price(10, 95, Side::Ask), 100);
    assert_eq!(round_price(10, 90, Side::Ask), 90);
    assert_eq!(round_price(10, 90, Side::Bid), 90);
    assert_eq!(round_price(1, 12345, Side::Ask), 12345);
}

#[test]
fn order_id_round_trip() {
    let bid = gen_order_id(100, Side::Bid, 5);
    let ask = gen_order_id(100, Side::Ask, 5);
    assert_eq!(bid, (100u128 << 64) | (!5u64) as u128);
    assert_eq!(ask, (100u128 << 64) | 5);
    assert_eq!(price_from_key(bid), 100);
    assert_eq!(price_from_key(ask), 100);
    assert_eq!(get_side_from_order_id(bid), Side::Bid);
    assert_eq!(get_side_from_order_id(ask), Side::Ask);
    assert_eq!(ORDER_ID_SIDE_FLAG, 1u128 << 63);
    assert!(gen_order_id(100, Side::Bid, 1) > gen_order_id(100, Side::Bid, 2));
    assert!(gen_order_id(100, Side::Ask, 1) < gen_order_id(100, Side::Ask, 2));
    assert!(gen_order_id(101, Side::Bid, 9) > gen_order_id(100, Side::Bid, 1));
}

#[test]
fn side_and_policy_codes() {
    assert_eq!(Side::Bid.opposite(), Side::Ask);
    assert_eq!(Side::Ask.opposite(), Side::Bid);
    assert_eq!(Side::from_u8(0), Some(Side::Bid));
    assert_eq!(Side::from_u8(1), Some(Side::Ask));
    assert_eq!(Side::from_u8(2), None);
    assert_eq!(SelfTradeBehavior::from_u8(2), Some(SelfTradeBehavior::AbortTransaction));
    assert_eq!(SelfTradeBehavior::from_u8(3), None);
    assert_eq!(AccountTag::Asks.code(), 4);
    assert_eq!(AccountTag::default(), AccountTag::Uninitialized);
}

#[test]
fn slab_orders_and_removes() {
    let mut s = Slab::new(16, AccountTag::Bids);
    assert!(s.find_max().is_none());
    assert!(s.root().is_none());
    for k in [5u128, 1, 9, 3, 7, 1u128 << 100] {
        assert_eq!(s.insert_leaf(leaf(k, k as u64 + 1)), Ok(()));
    }
    assert_eq!(s.leaf_count(), 6);
    assert_eq!(s.get_leaf(s.find_min().unwrap()).key, 1);
    assert_eq!(s.get_leaf(s.find_max().unwrap()).key, 1u128 << 100);
    let h = s.find_by_key(7).unwrap();
    assert_eq!(s.get_leaf(h).base_quantity, 8);
    s.write_leaf(h, leaf(7, 42));
    assert_eq!(s.get_leaf(s.find_by_key(7).unwrap()).base_quantity, 42);
    assert_eq!(s.remove_by_key(9).unwrap().key, 9);
    assert!(s.remove_by_key(9).is_none());
    assert!(s.find_by_key(9).is_none());
    assert_eq!(s.remove_min().unwrap().key, 1);
    assert_eq!(s.remove_max().unwrap().key, 1u128 << 100);
    assert_eq!(s.leaf_count(), 3);
    assert_eq!(s.remove_min().unwrap().key, 3);
    assert_eq!(s.remove_min().unwrap().key, 5);
    assert_eq!(s.remove_min().unwrap().key, 7);
    assert!(s.remove_min().is_none());
    assert_eq!(s.leaf_count(), 0);
}

#[test]
fn slab_runs_out_of_space_and_reuses_slots() {
    let mut s = Slab::new(3, AccountTag::Asks);
    assert_eq!(s.insert_leaf(leaf(10, 1)), Ok(()));
    assert_eq!(s.insert_leaf(leaf(20, 1)), Ok(()));
    assert_eq!(s.insert_leaf(leaf(30, 1)), Err(ErrorCode::SlabOutOfSpace));
    assert_eq!(s.leaf_count(), 2);
    assert!(s.remove_by_key(10).is_some());
    assert_eq!(s.insert_leaf(leaf(30, 1)), Ok(()));
    assert_eq!(s.get_leaf(s.find_max().unwrap()).key, 30);
    assert_eq!(s.capacity(), 3);
    let mut empty = Slab::new(0, AccountTag::Bids);
    assert_eq!(empty.insert_leaf(leaf(1, 1)), Err(ErrorCode::SlabOutOfSpace));
}

#[test]
fn slab_keys_differing_in_top_bit() {
    let mut s = Slab::new(8, AccountTag::Bids);
    let top = 1u128 << 127;
    assert_eq!(s.insert_leaf(leaf(top, 1)), Ok(()));
    assert_eq!(s.insert_leaf(leaf(0, 1)), Ok(()));
    assert_eq!(s.insert_leaf(leaf(top | 1, 1)), Ok(()));
    assert_eq!(s.get_leaf(s.find_max().unwrap()).key, top | 1);
    assert_eq!(s.get_leaf(s.find_min().unwrap()).key, 0);
}

#[test]
fn event_queue_is_fifo() {
    let mut q = EventQueue::new(3, 32);
    assert!(q.empty());
    assert!(q.push_back(out(1)).is_ok());
    assert!(q.push_back(out(2)).is_ok());
    assert!(q.push_back(out(3)).is_ok());
    assert!(q.full());
    assert!(q.push_back(out(4)).is_err());
    assert_eq!(q.seq_num(), 3);
    assert!(matches!(q.pop_front(), Some(Event::Out { order_id: 1, .. })));
    assert!(q.push_back(out(4)).is_ok());
    assert!(matches!(q.peek_at(2), Some(Event::Out { order_id: 4, .. })));
    assert!(q.peek_at(3).is_none());
    assert_eq!(q.pop_n(2), 2);
    assert!(matches!(q.pop_front(), Some(Event::Out { order_id: 4, .. })));
    assert!(q.pop_front().is_none());
    assert_eq!(q.pop_n(5), 0);
    assert_eq!(q.seq_num(), 4);
}

#[test]
fn event_queue_register_and_ids() {
    let mut q = EventQueue::new(2, 32);
    assert_eq!(q.read_register(), None);
    let s = OrderSummary { posted_order_id: Some(9), total_base_qty: 1, total_quote_qty: 2, total_base_qty_posted: 3 };
    q.write_to_register(s);
    assert_eq!(q.read_register(), Some(s));
    q.clear_register();
    assert_eq!(q.read_register(), None);
    let id = q.gen_order_id(7, Side::Ask);
    assert_eq!(id, (7u128 << 64) | 1);
    assert_eq!(q.seq_num(), 1);
    assert_eq!(q.capacity(), 2);
    assert_eq!(q.callback_info_len(), 32);
}

#[test]
fn history_buffer_keeps_recent() {
    let mut h: HistoryBuffer<u64, 3> = HistoryBuffer::new(0);
    assert_eq!(h.recent(), None);
    h.write(1);
    assert_eq!(h.recent(), Some(1));
    h.write(2);
    h.write(3);
    assert_eq!(h.recent(), Some(3));
    h.write(4);
    assert_eq!(h.recent(), Some(4));
}

#[test]
fn circular_buffer_alias() {
    let mut c: agnostic_orderbook::histbuf::CircularBuffer<u8, 2> = agnostic_orderbook::histbuf::CircularBuffer::new(0);
    c.write(5);
    c.write(6);
    c.write(7);
    assert_eq!(c.recent(), Some(7));
}
