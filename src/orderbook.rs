use vstd::prelude::*;

use crate::critbit::{LeafNode, Slab};
use crate::event_queue::{EventQueue, MAX_SEQ_NUM};
use crate::error::ErrorCode;
use crate::fp32::{fp32_div_spec, fp32_mul_spec, FP32_ONE};
use crate::order_id::{order_id_spec, price_of};
use crate::state::{AccountTag, Event, SelfTradeBehavior, Side};
use crate::params::NewOrderParams;

verus! {

/// What a `new_order` or `cancel_order` call did, also written to the event
/// queue's register.
#[derive(Clone, Copy, Debug, PartialEq, Eq, Structural)]
pub struct OrderSummary {
    /// The id of the order left resting in the book, if any.
    pub posted_order_id: Option<u128>,
    pub total_base_qty: u64,
    pub total_quote_qty: u64,
    pub total_base_qty_posted: u64,
}

/// Callback information padded with zeros to the 32 bytes an event carries.
pub open spec fn pad_info(v: Seq<u8>) -> Seq<u8> {
    Seq::new(32, |i: int| if i < v.len() { v[i] } else { 0u8 })
}

/// Two pieces of callback information name the same owner: their first `n`
/// bytes agree.
pub open spec fn same_id(a: Seq<u8>, b: Seq<u8>, n: nat) -> bool {
    forall|i: int| 0 <= i < n ==> #[trigger] a[i] == b[i]
}

/// `k` is the most aggressive key of a book: the largest for bids, the
/// smallest for asks.
pub open spec fn is_best(m: Map<u128, LeafNode>, book_side: Side, k: u128) -> bool {
    &&& m.contains_key(k)
    &&& forall|k2: u128| #[trigger]
        m.contains_key(k2) ==> match book_side {
            Side::Bid => k2 <= k,
            Side::Ask => k <= k2,
        }
}

/// `k` is the least aggressive key of a book: the smallest for bids, the
/// largest for asks.
pub open spec fn is_worst(m: Map<u128, LeafNode>, book_side: Side, k: u128) -> bool {
    is_best(m, book_side.opposite_spec(), k)
}

/// The most aggressive key of a non-empty book.
pub open spec fn best_key(m: Map<u128, LeafNode>, book_side: Side) -> u128 {
    choose|k: u128| is_best(m, book_side, k)
}

pub proof fn lemma_best_unique(m: Map<u128, LeafNode>, book_side: Side, k: u128)
    requires
        is_best(m, book_side, k),
    ensures
        best_key(m, book_side) == k,
{
    let c = best_key(m, book_side);
    assert(is_best(m, book_side, c));
    assert(m.contains_key(c));
    assert(m.contains_key(k));
}

/// An order on `side` with limit `limit` can trade at `price`.
pub open spec fn crosses(side: Side, limit: u64, price: u64) -> bool {
    match side {
        Side::Bid => limit >= price,
        Side::Ask => limit <= price,
    }
}

pub open spec fn min3(a: int, b: int, c: int) -> int {
    if a <= b && a <= c {
        a
    } else if b <= c {
        b
    } else {
        c
    }
}

/// The fixed inputs of a matching run.
pub struct MatchInput {
    pub side: Side,
    pub limit_price: u64,
    pub post_only: bool,
    pub self_trade_behavior: SelfTradeBehavior,
    /// The taker's callback information, padded to 32 bytes.
    pub taker_info: [u8; 32],
    pub callback_id_len: nat,
    pub min_base_order_size: u64,
    /// How many more events fit in the queue's free slots.
    pub cap_room: nat,
    /// How many more sequence numbers the queue can hand out.
    pub seq_room: nat,
}

/// The state of a matching run between two steps.
pub struct MatchState {
    /// The opposite side's book.
    pub book: Map<u128, LeafNode>,
    pub base_rem: u64,
    pub quote_rem: u64,
    pub match_limit: u64,
    pub crossed: bool,
    pub done: bool,
    pub error: Option<ErrorCode>,
    /// The events emitted so far.
    pub events: Seq<Event>,
}

impl MatchState {
    pub open spec fn stop(self) -> MatchState {
        MatchState { done: true, ..self }
    }

    pub open spec fn fail(self, e: ErrorCode) -> MatchState {
        MatchState { done: true, error: Some(e), ..self }
    }
}

/// The queue still takes an event after `n` events of this run.
pub open spec fn can_emit(inp: MatchInput, n: nat) -> bool {
    n < inp.cap_room && n < inp.seq_room
}

/// One step of the matching loop against the best opposite order.
#[verifier::opaque]
pub open spec fn match_step(inp: MatchInput, s: MatchState) -> MatchState {
    let opp = inp.side.opposite_spec();
    if s.match_limit == 0 {
        s.stop()
    } else if s.book.len() == 0 {
        MatchState { crossed: false, ..s.stop() }
    } else {
        let k = best_key(s.book, opp);
        let maker = s.book[k];
        let price = price_of(k);
        let crossed = crosses(inp.side, inp.limit_price, price);
        let s = MatchState { crossed, ..s };
        let base_trade = min3(
            maker.base_quantity as int,
            s.base_rem as int,
            fp32_div_spec(s.quote_rem, price),
        );
        if !crossed || inp.post_only {
            s.stop()
        } else if base_trade == 0 {
            s.stop()
        } else if inp.self_trade_behavior != SelfTradeBehavior::DecrementTake && same_id(
            inp.taker_info@,
            maker.callback_info@,
            inp.callback_id_len,
        ) {
            if inp.self_trade_behavior == SelfTradeBehavior::AbortTransaction {
                s.fail(ErrorCode::WouldSelfTrade)
            } else {
                let cancelled = if s.base_rem <= maker.base_quantity {
                    s.base_rem
                } else {
                    maker.base_quantity
                };
                let remaining = (maker.base_quantity - cancelled) as u64;
                let out = Event::Out {
                    side: opp,
                    order_id: k,
                    base_size: cancelled,
                    delete: remaining == 0,
                    callback_info: maker.callback_info,
                };
                if !can_emit(inp, s.events.len()) {
                    s.fail(ErrorCode::EventQueueFull)
                } else {
                    MatchState {
                        book: if remaining == 0 {
                            s.book.remove(k)
                        } else {
                            s.book.insert(k, LeafNode { base_quantity: remaining, ..maker })
                        },
                        events: s.events.push(out),
                        ..s
                    }
                }
            }
        } else {
            let quote_trade = fp32_mul_spec(base_trade as u64, price);
            let fill = Event::Fill {
                taker_side: inp.side,
                maker_order_id: k,
                quote_size: quote_trade as u64,
                base_size: base_trade as u64,
                maker_callback_info: maker.callback_info,
                taker_callback_info: inp.taker_info,
            };
            let left = (maker.base_quantity - base_trade) as u64;
            let after_fill = MatchState {
                base_rem: (s.base_rem - base_trade) as u64,
                quote_rem: (s.quote_rem - quote_trade) as u64,
                match_limit: (s.match_limit - 1) as u64,
                ..s
            };
            if !can_emit(inp, s.events.len()) {
                s.fail(ErrorCode::EventQueueFull)
            } else if left <= inp.min_base_order_size {
                let out = Event::Out {
                    side: opp,
                    order_id: k,
                    base_size: left,
                    delete: true,
                    callback_info: maker.callback_info,
                };
                if !can_emit(inp, s.events.len() + 1) {
                    s.fail(ErrorCode::EventQueueFull)
                } else {
                    MatchState { book: s.book.remove(k), events: s.events.push(fill).push(out), ..after_fill }
                }
            } else {
                MatchState {
                    book: s.book.insert(k, LeafNode { base_quantity: left, ..maker }),
                    events: s.events.push(fill),
                    ..after_fill
                }
            }
        }
    }
}


/// `trace` is a run of the matching loop from `init`: each state is the step
/// of the one before, and only the last may be final.
pub open spec fn valid_run(inp: MatchInput, init: MatchState, trace: Seq<MatchState>) -> bool {
    &&& trace.len() >= 1
    &&& trace[0] == init
    &&& forall|i: int|
        0 <= i < trace.len() - 1 ==> !(#[trigger] trace[i]).done && trace[i + 1] == match_step(
            inp,
            trace[i],
        )
}

/// How a `new_order` call ends after matching.
pub struct OrderOutcome {
    pub result: Result<OrderSummary, ErrorCode>,
    /// The taker side's book.
    pub own: Map<u128, LeafNode>,
    /// Every event of the call.
    pub events: Seq<Event>,
    /// Whether an order id was handed out.
    pub id_taken: bool,
}

/// The base quantity left to post after matching.
pub open spec fn base_to_post(inp: MatchInput, last: MatchState) -> int {
    let q = fp32_div_spec(last.quote_rem, inp.limit_price);
    if last.base_rem as int <= q {
        last.base_rem as int
    } else {
        q
    }
}

/// Key `a` ranks below key `b` on `side`: a lower bid, or a higher ask.
pub open spec fn less_aggressive(side: Side, a: u128, b: u128) -> bool {
    match side {
        Side::Bid => a < b,
        Side::Ask => a > b,
    }
}

/// Posting what is left after matching ended in `last`, into the taker side's
/// book `own` with `own_free` free slots, the queue's counter at `seq0` before the call.
///
/// When the side is full, its least aggressive order makes room, unless the new
/// order would itself be the least aggressive: then nothing is evicted and
/// nothing is posted.
#[verifier::opaque]
pub open spec fn post_outcome(
    inp: MatchInput,
    last: MatchState,
    post_allowed: bool,
    own: Map<u128, LeafNode>,
    own_free: nat,
    seq0: u64,
    max_base: u64,
    max_quote: u64,
) -> OrderOutcome {
    let post = base_to_post(inp, last);
    let n = last.events.len();
    if last.error is Some {
        OrderOutcome { result: Err(last.error->Some_0), own, events: last.events, id_taken: false }
    } else if last.crossed || !post_allowed || post <= inp.min_base_order_size {
        OrderOutcome {
            result: Ok(
                OrderSummary {
                    posted_order_id: None,
                    total_base_qty: (max_base - last.base_rem) as u64,
                    total_quote_qty: (max_quote - last.quote_rem) as u64,
                    total_base_qty_posted: 0,
                },
            ),
            own,
            events: last.events,
            id_taken: false,
        }
    } else if n >= inp.seq_room {
        OrderOutcome { result: Err(ErrorCode::EventQueueFull), own, events: last.events, id_taken: false }
    } else {
        let key = order_id_spec(inp.limit_price, inp.side, (seq0 + n + 1) as u64) as u128;
        let leaf = LeafNode { key, callback_info: inp.taker_info, base_quantity: post as u64 };
        let summary = OrderSummary {
            posted_order_id: Some(key),
            total_base_qty: (max_base - (last.base_rem - post)) as u64,
            total_quote_qty: (max_quote - (last.quote_rem - fp32_mul_spec(post as u64, inp.limit_price))) as u64,
            total_base_qty_posted: post as u64,
        };
        let needed: nat = if own.len() == 0 { 1 } else { 2 };
        if own_free >= needed {
            OrderOutcome { result: Ok(summary), own: own.insert(key, leaf), events: last.events, id_taken: true }
        } else if own.len() == 0 {
            OrderOutcome { result: Err(ErrorCode::SlabOutOfSpace), own, events: last.events, id_taken: true }
        } else {
            let ek = best_key(own, inp.side.opposite_spec());
            let evicted = own[ek];
            let out = Event::Out {
                side: inp.side,
                order_id: ek,
                base_size: evicted.base_quantity,
                delete: true,
                callback_info: evicted.callback_info,
            };
            if less_aggressive(inp.side, key, ek) {
                OrderOutcome {
                    result: Ok(
                        OrderSummary {
                            posted_order_id: None,
                            total_base_qty: (max_base - last.base_rem) as u64,
                            total_quote_qty: (max_quote - last.quote_rem) as u64,
                            total_base_qty_posted: 0,
                        },
                    ),
                    own,
                    events: last.events,
                    id_taken: true,
                }
            } else if !(n < inp.cap_room && n + 1 < inp.seq_room) {
                OrderOutcome { result: Err(ErrorCode::EventQueueFull), own, events: last.events, id_taken: true }
            } else {
                OrderOutcome {
                    result: Ok(summary),
                    own: own.remove(ek).insert(key, leaf),
                    events: last.events.push(out),
                    id_taken: true,
                }
            }
        }
    }
}

/// Every key of a book is an order id of that side whose sequence number is
/// at most `seq`.
pub open spec fn keys_fresh(book: Map<u128, LeafNode>, book_side: Side, seq: u64) -> bool {
    forall|k: u128| #[trigger]
        book.contains_key(k) ==> crate::order_id::side_of(k) == book_side && seq_of_key(k) <= seq
}

/// The sequence number an order id was made with.
pub open spec fn seq_of_key(k: u128) -> int {
    let low = k as int % 18446744073709551616;
    if crate::order_id::side_of(k) == Side::Bid {
        18446744073709551615 - low
    } else {
        low
    }
}

/// The two trees of a market.
pub struct OrderBookState {
    bids: Slab,
    asks: Slab,
    callback_info_len: u64,
    callback_id_len: u64,
}

impl OrderBookState {
    pub closed spec fn wf(&self) -> bool {
        &&& self.bids.wf()
        &&& self.asks.wf()
        &&& self.bids.tag() == AccountTag::Bids
        &&& self.asks.tag() == AccountTag::Asks
        &&& self.callback_id_len <= self.callback_info_len
        &&& self.callback_info_len <= 32
    }

    /// The tree of one side.
    pub closed spec fn slab(&self, side: Side) -> Slab {
        match side {
            Side::Bid => self.bids,
            Side::Ask => self.asks,
        }
    }

    /// The resting orders of one side.
    pub open spec fn book(&self, side: Side) -> Map<u128, LeafNode> {
        self.slab(side)@
    }

    pub closed spec fn callback_info_len_spec(&self) -> u64 {
        self.callback_info_len
    }

    pub closed spec fn callback_id_len_spec(&self) -> u64 {
        self.callback_id_len
    }

    /// Builds a book over two slabs, checking what each holds.
    pub fn new(bids: Slab, asks: Slab, callback_info_len: u64, callback_id_len: u64) -> (r: Result<
        OrderBookState,
        ErrorCode,
    >)
        requires
            bids.wf(),
            asks.wf(),
        ensures
            (bids.tag() == AccountTag::Bids && asks.tag() == AccountTag::Asks && callback_id_len
                <= callback_info_len && callback_info_len <= 32) <==> r is Ok,
            r matches Ok(b) ==> b.wf() && b.slab(Side::Bid) == bids && b.slab(Side::Ask) == asks
                && b.callback_info_len_spec() == callback_info_len && b.callback_id_len_spec()
                == callback_id_len,
            !(bids.tag() == AccountTag::Bids && asks.tag() == AccountTag::Asks) ==> r == Err::<
                OrderBookState,
                ErrorCode,
            >(ErrorCode::WrongAccountTag),
            bids.tag() == AccountTag::Bids && asks.tag() == AccountTag::Asks && !(callback_id_len
                <= callback_info_len && callback_info_len <= 32) ==> r == Err::<
                OrderBookState,
                ErrorCode,
            >(ErrorCode::InvalidArgument),
    {
        if bids.account_tag() != AccountTag::Bids || asks.account_tag() != AccountTag::Asks {
            return Err(ErrorCode::WrongAccountTag);
        }
        if callback_id_len > callback_info_len || callback_info_len > 32 {
            return Err(ErrorCode::InvalidArgument);
        }
        Ok(OrderBookState { bids, asks, callback_info_len, callback_id_len })
    }

    /// Hands the two slabs back.
    pub fn release(self) -> (r: (Slab, Slab))
        ensures
            r.0 == self.slab(Side::Bid),
            r.1 == self.slab(Side::Ask),
    {
        (self.bids, self.asks)
    }

    /// The tree of one side.
    pub fn get_tree(&self, side: Side) -> (r: &Slab)
        ensures
            *r == self.slab(side),
    {
        match side {
            Side::Bid => &self.bids,
            Side::Ask => &self.asks,
        }
    }

    /// The slot of the best order of one side: the highest bid or the lowest ask.
    pub fn find_bbo(&self, side: Side) -> (r: Option<u32>)
        requires
            self.wf(),
        ensures
            r is None <==> self.book(side).len() == 0,
            r matches Some(h) ==> self.slab(side).holds_leaf(h) && is_best(
                self.book(side),
                side,
                self.slab(side).key_at(h),
            ),
    {
        match side {
            Side::Bid => self.bids.find_max(),
            Side::Ask => self.asks.find_min(),
        }
    }

    /// Whether both sides are empty.
    pub fn is_empty(&self) -> (r: bool)
        requires
            self.wf(),
        ensures
            r <==> self.book(Side::Bid).len() == 0 && self.book(Side::Ask).len() == 0,
    {
        self.asks.root().is_none() && self.bids.root().is_none()
    }

    /// The prices of the best bid and the best ask, when there are any.
    pub fn get_spread(&self) -> (r: (Option<u64>, Option<u64>))
        requires
            self.wf(),
        ensures
            r.0 is None <==> self.book(Side::Bid).len() == 0,
            r.0 matches Some(p) ==> exists|k: u128| is_best(self.book(Side::Bid), Side::Bid, k) && p == price_of(k),
            r.1 is None <==> self.book(Side::Ask).len() == 0,
            r.1 matches Some(p) ==> exists|k: u128| is_best(self.book(Side::Ask), Side::Ask, k) && p == price_of(k),
    {
        let best_bid = match self.find_bbo(Side::Bid) {
            Some(h) => Some(crate::order_id::price_from_key(self.bids.get_leaf(h).key)),
            None => None,
        };
        let best_ask = match self.find_bbo(Side::Ask) {
            Some(h) => Some(crate::order_id::price_from_key(self.asks.get_leaf(h).key)),
            None => None,
        };
        (best_bid, best_ask)
    }

    /// Headers are held in the slabs themselves, so there is nothing to write back.
    pub fn commit_changes(&mut self)
        ensures
            *final(self) == *old(self),
    {
    }
}


/// Copies callback information into the 32 bytes an event carries, zero-padded.
pub fn pad_callback_info(v: &Vec<u8>) -> (r: [u8; 32])
    requires
        v@.len() <= 32,
    ensures
        r@ == pad_info(v@),
{
    let mut a: [u8; 32] = [0u8; 32];
    let mut i: usize = 0;
    while i < v.len()
        invariant
            v@.len() <= 32,
            i <= v@.len(),
            a@.len() == 32,
            forall|j: int| 0 <= j < i ==> #[trigger] a@[j] == v@[j],
            forall|j: int| i <= j < 32 ==> #[trigger] a@[j] == 0u8,
        decreases v@.len() - i,
    {
        a[i] = v[i];
        i = i + 1;
    }
    assert(a@ =~= pad_info(v@));
    a
}

/// Whether two pieces of callback information agree on their first `n` bytes.
pub fn same_callback_id(a: &[u8; 32], b: &[u8; 32], n: usize) -> (r: bool)
    requires
        n <= 32,
    ensures
        r == same_id(a@, b@, n as nat),
{
    let mut i: usize = 0;
    while i < n
        invariant
            n <= 32,
            i <= n,
            forall|j: int| 0 <= j < i ==> #[trigger] a@[j] == b@[j],
        decreases n - i,
    {
        if a[i] != b[i] {
            return false;
        }
        i = i + 1;
    }
    true
}

/// The fixed inputs of the matching run of a `new_order` call.
pub open spec fn order_input(
    params: NewOrderParams,
    info: [u8; 32],
    book: OrderBookState,
    eq: EventQueue,
    min_base_order_size: u64,
) -> MatchInput {
    MatchInput {
        side: params.side,
        limit_price: params.limit_price,
        post_only: params.post_only,
        self_trade_behavior: params.self_trade_behavior,
        taker_info: info,
        callback_id_len: book.callback_id_len_spec() as nat,
        min_base_order_size,
        cap_room: (eq.capacity_spec() - eq@.len()) as nat,
        seq_room: (MAX_SEQ_NUM - eq.seq_num_spec()) as nat,
    }
}

/// The state a matching run starts from.
pub open spec fn initial_state(params: NewOrderParams, book: OrderBookState) -> MatchState {
    MatchState {
        book: book.book(params.side.opposite_spec()),
        base_rem: params.max_base_qty,
        quote_rem: params.max_quote_qty,
        match_limit: params.match_limit,
        crossed: true,
        done: false,
        error: None,
        events: Seq::empty(),
    }
}

/// The outcome of a `new_order` call whose matching ran through `trace`.
pub open spec fn order_outcome(
    params: NewOrderParams,
    info: [u8; 32],
    book: OrderBookState,
    eq: EventQueue,
    min_base_order_size: u64,
    trace: Seq<MatchState>,
) -> OrderOutcome {
    post_outcome(
        order_input(params, info, book, eq, min_base_order_size),
        trace.last(),
        params.post_allowed,
        book.book(params.side),
        book.slab(params.side).free_slots(),
        eq.seq_num_spec(),
        params.max_base_qty,
        params.max_quote_qty,
    )
}

/// The state after a successful `new_order` call is the one its outcome describes.
pub open spec fn order_applied(
    params: NewOrderParams,
    trace: Seq<MatchState>,
    out: OrderOutcome,
    book0: OrderBookState,
    book1: OrderBookState,
    eq0: EventQueue,
    eq1: EventQueue,
) -> bool {
    &&& book1.wf()
    &&& eq1.wf()
    &&& book1.book(params.side) == out.own
    &&& book1.book(params.side.opposite_spec()) == trace.last().book
    &&& eq1@ == eq0@ + out.events
    &&& eq1.seq_num_spec() == eq0.seq_num_spec() + out.events.len() + if out.id_taken { 1int } else { 0 }
    &&& eq1.capacity_spec() == eq0.capacity_spec()
    &&& eq1.register_spec() == eq0.register_spec()
    &&& eq1.callback_info_len_spec() == eq0.callback_info_len_spec()
    &&& book1.callback_info_len_spec() == book0.callback_info_len_spec()
    &&& book1.callback_id_len_spec() == book0.callback_id_len_spec()
    &&& keys_fresh(book1.book(Side::Bid), Side::Bid, eq1.seq_num_spec())
    &&& keys_fresh(book1.book(Side::Ask), Side::Ask, eq1.seq_num_spec())
}

impl OrderBookState {
    pub open spec fn other_side_kept(&self, old: &OrderBookState, side: Side) -> bool {
        &&& self.slab(side.opposite_spec()) == old.slab(side.opposite_spec())
        &&& self.callback_info_len_spec() == old.callback_info_len_spec()
        &&& self.callback_id_len_spec() == old.callback_id_len_spec()
    }

    fn write_leaf_of(&mut self, side: Side, h: u32, leaf: LeafNode)
        requires
            old(self).wf(),
            old(self).slab(side).holds_leaf(h),
            leaf.key == old(self).slab(side).key_at(h),
        ensures
            final(self).wf(),
            final(self).book(side) == old(self).book(side).insert(leaf.key, leaf),
            final(self).slab(side).free_slots() == old(self).slab(side).free_slots(),
            final(self).other_side_kept(old(self), side),
    {
        match side {
            Side::Bid => self.bids.write_leaf(h, leaf),
            Side::Ask => self.asks.write_leaf(h, leaf),
        }
    }

    fn remove_of(&mut self, side: Side, key: u128) -> (r: Option<LeafNode>)
        requires
            old(self).wf(),
        ensures
            final(self).wf(),
            r is Some <==> old(self).book(side).contains_key(key),
            r matches Some(l) ==> l == old(self).book(side)[key] && final(self).book(side) == old(
                self,
            ).book(side).remove(key),
            r is None ==> *final(self) == *old(self),
            final(self).other_side_kept(old(self), side),
    {
        match side {
            Side::Bid => self.bids.remove_by_key(key),
            Side::Ask => self.asks.remove_by_key(key),
        }
    }

    fn insert_of(&mut self, side: Side, leaf: LeafNode) -> (r: Result<(), ErrorCode>)
        requires
            old(self).wf(),
            !old(self).book(side).contains_key(leaf.key),
        ensures
            final(self).wf(),
            r is Ok <==> old(self).slab(side).free_slots() >= (if old(self).book(side).len() == 0 {
                1nat
            } else {
                2nat
            }),
            r is Ok ==> final(self).book(side) == old(self).book(side).insert(leaf.key, leaf),
            r is Err ==> final(self).book(side) == old(self).book(side) && final(self).slab(side).free_slots()
                == old(self).slab(side).free_slots(),
            final(self).other_side_kept(old(self), side),
    {
        match side {
            Side::Bid => self.bids.insert_leaf(leaf),
            Side::Ask => self.asks.insert_leaf(leaf),
        }
    }

    /// The slot of the least aggressive order of one side: the lowest bid or the highest ask.
    fn find_worst(&self, side: Side) -> (r: Option<u32>)
        requires
            self.wf(),
        ensures
            r is None <==> self.book(side).len() == 0,
            r matches Some(h) ==> self.slab(side).holds_leaf(h) && is_worst(
                self.book(side),
                side,
                self.slab(side).key_at(h),
            ),
    {
        match side {
            Side::Bid => self.bids.find_min(),
            Side::Ask => self.asks.find_max(),
        }
    }

    /// Removes the least aggressive order of one side: the lowest bid or the highest ask.
    fn remove_worst(&mut self, side: Side) -> (r: Option<LeafNode>)
        requires
            old(self).wf(),
        ensures
            final(self).wf(),
            r is None <==> old(self).book(side).len() == 0,
            r matches Some(l) ==> {
                &&& is_worst(old(self).book(side), side, l.key)
                &&& l == old(self).book(side)[l.key]
                &&& final(self).book(side) == old(self).book(side).remove(l.key)
                &&& final(self).slab(side).free_slots() == old(self).slab(side).free_slots() + (
                if old(self).book(side).len() == 1 {
                    1nat
                } else {
                    2nat
                })
            },
            final(self).other_side_kept(old(self), side),
    {
        match side {
            Side::Bid => self.bids.remove_min(),
            Side::Ask => self.asks.remove_max(),
        }
    }
}


/// The running quantities of a matching loop.
#[derive(Clone, Copy, Debug)]
pub struct MatchVars {
    pub base_rem: u64,
    pub quote_rem: u64,
    pub match_limit: u64,
    pub crossed: bool,
}

/// The event queue holds what it held before the call plus `events`.
pub open spec fn queue_tracks(eq: EventQueue, eq0: EventQueue, events: Seq<Event>) -> bool {
    &&& eq.wf()
    &&& eq@ == eq0@ + events
    &&& eq.seq_num_spec() == eq0.seq_num_spec() + events.len()
    &&& eq.capacity_spec() == eq0.capacity_spec()
    &&& eq.register_spec() == eq0.register_spec()
    &&& eq.callback_info_len_spec() == eq0.callback_info_len_spec()
}

/// The queue room a run from `eq0` starts with.
pub open spec fn room_of(inp: MatchInput, eq0: EventQueue) -> bool {
    &&& eq0.wf()
    &&& inp.cap_room == eq0.capacity_spec() - eq0@.len()
    &&& inp.seq_room == MAX_SEQ_NUM - eq0.seq_num_spec()
}

impl OrderBookState {
    /// The measure the matching loop decreases after a partial self-trade cancel:
    /// the size of the best opposite order.
    pub open spec fn best_size(&self, side: Side) -> nat {
        if self.book(side).len() == 0 {
            0
        } else {
            self.book(side)[best_key(self.book(side), side)].base_quantity as nat
        }
    }

    /// One step of matching. `Ok(true)`: go on; `Ok(false)`: matching is over.
    #[verifier::rlimit(100)]
    fn match_once(
        &mut self,
        event_queue: &mut EventQueue,
        Ghost(inp): Ghost<MatchInput>,
        Ghost(cur): Ghost<MatchState>,
        Ghost(eq0): Ghost<EventQueue>,
        info: &[u8; 32],
        v: MatchVars,
        side: Side,
        limit_price: u64,
        post_only: bool,
        self_trade_behavior: SelfTradeBehavior,
        min_base_order_size: u64,
    ) -> (r: (MatchVars, Result<bool, ErrorCode>))
        requires
            old(self).wf(),
            old(self).callback_id_len_spec() <= 32,
            inp.side == side,
            inp.limit_price == limit_price,
            inp.post_only == post_only,
            inp.self_trade_behavior == self_trade_behavior,
            inp.taker_info == *info,
            inp.callback_id_len == old(self).callback_id_len_spec(),
            inp.min_base_order_size == min_base_order_size,
            room_of(inp, eq0),
            queue_tracks(*old(event_queue), eq0, cur.events),
            cur == (MatchState {
                book: old(self).book(side.opposite_spec()),
                base_rem: v.base_rem,
                quote_rem: v.quote_rem,
                match_limit: v.match_limit,
                crossed: v.crossed,
                done: false,
                error: None,
                events: cur.events,
            }),
        ensures
            ({
                let next = match_step(inp, cur);
                &&& r.1 matches Err(e) ==> next.error == Some(e) && next.done
                &&& r.1 matches Ok(go) ==> {
                    &&& next.error is None
                    &&& next.done == !go
                    &&& next == (MatchState {
                        book: final(self).book(side.opposite_spec()),
                        base_rem: r.0.base_rem,
                        quote_rem: r.0.quote_rem,
                        match_limit: r.0.match_limit,
                        crossed: r.0.crossed,
                        done: !go,
                        error: None,
                        events: next.events,
                    })
                    &&& queue_tracks(*final(event_queue), eq0, next.events)
                    &&& final(self).wf()
                    &&& r.0.base_rem <= v.base_rem
                    &&& r.0.quote_rem <= v.quote_rem
                    &&& final(self).slab(side) == old(self).slab(side)
                    &&& final(self).callback_info_len_spec() == old(self).callback_info_len_spec()
                    &&& final(self).callback_id_len_spec() == old(self).callback_id_len_spec()
                    &&& final(self).book(side.opposite_spec()).dom().subset_of(
                        old(self).book(side.opposite_spec()).dom(),
                    )
                    &&& go ==> (r.0.match_limit < v.match_limit || (r.0.match_limit == v.match_limit
                        && (final(self).book(side.opposite_spec()).len() < old(self).book(
                        side.opposite_spec(),
                    ).len() || (final(self).book(side.opposite_spec()).len() == old(self).book(
                        side.opposite_spec(),
                    ).len() && final(self).best_size(side.opposite_spec()) < old(self).best_size(
                        side.opposite_spec(),
                    )))))
                }
            }),
    {
        let opp = side.opposite();
        let ghost next = match_step(inp, cur);
        proof {
            reveal(match_step);
            self.slab(opp).lemma_wf();
        }
        let mut v = v;
        if v.match_limit == 0 {
            return (v, Ok(false));
        }
        let best_h = match self.find_bbo(opp) {
            None => {
                v.crossed = false;
                return (v, Ok(false));
            },
            Some(h) => h,
        };
        let maker = self.get_tree(opp).get_leaf(best_h);
        proof {
            lemma_best_unique(self.book(opp), opp, maker.key);
        }
        let trade_price = crate::order_id::price_from_key(maker.key);
        v.crossed = match side {
            Side::Bid => limit_price >= trade_price,
            Side::Ask => limit_price <= trade_price,
        };
        if post_only || !v.crossed {
            return (v, Ok(false));
        }
        let q = crate::fp32::fp32_div(v.quote_rem, trade_price);
        let mut base_trade = maker.base_quantity;
        if v.base_rem < base_trade {
            base_trade = v.base_rem;
        }
        if q < base_trade {
            base_trade = q;
        }
        if base_trade == 0 {
            return (v, Ok(false));
        }
        if self_trade_behavior != SelfTradeBehavior::DecrementTake && same_callback_id(
            info,
            &maker.callback_info,
            self.callback_id_len as usize,
        ) {
            if self_trade_behavior == SelfTradeBehavior::AbortTransaction {
                return (v, Err(ErrorCode::WouldSelfTrade));
            }
            let cancelled = if v.base_rem <= maker.base_quantity {
                v.base_rem
            } else {
                maker.base_quantity
            };
            let remaining = maker.base_quantity - cancelled;
            let out = Event::Out {
                side: opp,
                order_id: maker.key,
                base_size: cancelled,
                delete: remaining == 0,
                callback_info: maker.callback_info,
            };
            if event_queue.push_back(out).is_err() {
                return (v, Err(ErrorCode::EventQueueFull));
            }
            let ghost book_before = self.book(opp);
            if remaining == 0 {
                self.remove_of(opp, maker.key);
            } else {
                self.write_leaf_of(opp, best_h, LeafNode { base_quantity: remaining, ..maker });
                proof {
                    assert(self.book(opp).dom() =~= book_before.dom());
                    assert(is_best(self.book(opp), opp, maker.key));
                    lemma_best_unique(self.book(opp), opp, maker.key);
                    self.slab(opp).lemma_wf();
                }
            }
            proof {
                assert(event_queue@ =~= eq0@ + next.events);
                self.slab(opp).lemma_wf();
            }
            return (v, Ok(true));
        }
        let quote_trade = crate::fp32::fp32_mul(base_trade, trade_price);
        proof {
            crate::fp32::lemma_mul_div_bound(base_trade, v.quote_rem, trade_price);
        }
        let fill = Event::Fill {
            taker_side: side,
            maker_order_id: maker.key,
            quote_size: quote_trade,
            base_size: base_trade,
            maker_callback_info: maker.callback_info,
            taker_callback_info: *info,
        };
        if event_queue.push_back(fill).is_err() {
            return (v, Err(ErrorCode::EventQueueFull));
        }
        let left = maker.base_quantity - base_trade;
        v.base_rem = v.base_rem - base_trade;
        v.quote_rem = v.quote_rem - quote_trade;
        v.match_limit = v.match_limit - 1;
        if left <= min_base_order_size {
            let out = Event::Out {
                side: opp,
                order_id: maker.key,
                base_size: left,
                delete: true,
                callback_info: maker.callback_info,
            };
            self.remove_of(opp, maker.key);
            if event_queue.push_back(out).is_err() {
                return (v, Err(ErrorCode::EventQueueFull));
            }
        } else {
            self.write_leaf_of(opp, best_h, LeafNode { base_quantity: left, ..maker });
        }
        proof {
            assert(event_queue@ =~= eq0@ + next.events);
        }
        (v, Ok(true))
    }
}


/// A run extends by one step from a state that is not final.
pub proof fn lemma_run_extend(inp: MatchInput, init: MatchState, trace: Seq<MatchState>)
    requires
        valid_run(inp, init, trace),
        !trace.last().done,
    ensures
        valid_run(inp, init, trace.push(match_step(inp, trace.last()))),
        trace.push(match_step(inp, trace.last())).last() == match_step(inp, trace.last()),
{
    let t2 = trace.push(match_step(inp, trace.last()));
    assert forall|i: int| 0 <= i < t2.len() - 1 implies !(#[trigger] t2[i]).done && t2[i + 1]
        == match_step(inp, t2[i]) by {
        if i < trace.len() - 1 {
            assert(t2[i] == trace[i]);
            assert(t2[i + 1] == trace[i + 1]);
        }
    }
}

/// A run that ended in an error makes the call fail with it.
pub proof fn lemma_post_error(
    inp: MatchInput,
    last: MatchState,
    post_allowed: bool,
    own: Map<u128, LeafNode>,
    own_free: nat,
    seq0: u64,
    max_base: u64,
    max_quote: u64,
)
    requires
        last.error is Some,
    ensures
        post_outcome(inp, last, post_allowed, own, own_free, seq0, max_base, max_quote).result == Err::<
            OrderSummary,
            ErrorCode,
        >(last.error->Some_0),
{
    reveal(post_outcome);
}

/// Raising the counter keeps every key fresh.
pub proof fn lemma_fresh_mono(book: Map<u128, LeafNode>, book_side: Side, a: u64, b: u64)
    requires
        keys_fresh(book, book_side, a),
        a <= b,
    ensures
        keys_fresh(book, book_side, b),
{
}

impl OrderBookState {
    /// Posts what is left of the order after matching ended in `last`.
    #[verifier::rlimit(100)]
    fn post_residual(
        &mut self,
        event_queue: &mut EventQueue,
        Ghost(inp): Ghost<MatchInput>,
        Ghost(last): Ghost<MatchState>,
        Ghost(eq0): Ghost<EventQueue>,
        info: &[u8; 32],
        v: MatchVars,
        side: Side,
        limit_price: u64,
        post_allowed: bool,
        min_base_order_size: u64,
        max_base: u64,
        max_quote: u64,
    ) -> (r: Result<OrderSummary, ErrorCode>)
        requires
            old(self).wf(),
            inp.side == side,
            inp.limit_price == limit_price,
            inp.taker_info == *info,
            inp.min_base_order_size == min_base_order_size,
            room_of(inp, eq0),
            queue_tracks(*old(event_queue), eq0, last.events),
            last.done,
            last.error is None,
            last.base_rem == v.base_rem,
            last.quote_rem == v.quote_rem,
            last.crossed == v.crossed,
            v.base_rem <= max_base,
            v.quote_rem <= max_quote,
            keys_fresh(old(self).book(side), side, eq0.seq_num_spec()),
            keys_fresh(old(self).book(side.opposite_spec()), side.opposite_spec(), eq0.seq_num_spec()),
        ensures
            ({
                let out = post_outcome(
                    inp,
                    last,
                    post_allowed,
                    old(self).book(side),
                    old(self).slab(side).free_slots(),
                    eq0.seq_num_spec(),
                    max_base,
                    max_quote,
                );
                &&& r == out.result
                &&& r is Ok ==> {
                    &&& final(self).wf()
                    &&& final(self).book(side) == out.own
                    &&& final(self).slab(side.opposite_spec()) == old(self).slab(side.opposite_spec())
                    &&& final(self).callback_info_len_spec() == old(self).callback_info_len_spec()
                    &&& final(self).callback_id_len_spec() == old(self).callback_id_len_spec()
                    &&& final(event_queue).wf()
                    &&& final(event_queue)@ == eq0@ + out.events
                    &&& final(event_queue).capacity_spec() == eq0.capacity_spec()
                    &&& final(event_queue).register_spec() == eq0.register_spec()
                    &&& final(event_queue).callback_info_len_spec() == eq0.callback_info_len_spec()
                    &&& keys_fresh(final(self).book(side), side, final(event_queue).seq_num_spec())
                    &&& keys_fresh(
                        final(self).book(side.opposite_spec()),
                        side.opposite_spec(),
                        final(event_queue).seq_num_spec(),
                    )
                    &&& final(event_queue).seq_num_spec() == eq0.seq_num_spec() + out.events.len() + if out.id_taken { 1int } else { 0 }
                }
            }),
    {
        let ghost own0 = self.book(side);
        let ghost opp = side.opposite_spec();
        proof {
            reveal(post_outcome);
            self.slab(side).lemma_wf();
        }
        let q = crate::fp32::fp32_div(v.quote_rem, limit_price);
        let base_to_post = if v.base_rem <= q {
            v.base_rem
        } else {
            q
        };
        if v.crossed || !post_allowed || base_to_post <= min_base_order_size {
            proof {
                lemma_fresh_mono(own0, side, eq0.seq_num_spec(), event_queue.seq_num_spec());
                lemma_fresh_mono(self.book(opp), opp, eq0.seq_num_spec(), event_queue.seq_num_spec());
            }
            return Ok(
                OrderSummary {
                    posted_order_id: None,
                    total_base_qty: max_base - v.base_rem,
                    total_quote_qty: max_quote - v.quote_rem,
                    total_base_qty_posted: 0,
                },
            );
        }
        if event_queue.seq_num() >= MAX_SEQ_NUM {
            return Err(ErrorCode::EventQueueFull);
        }
        let order_id = event_queue.gen_order_id(limit_price, side);
        let ghost seq1 = event_queue.seq_num_spec();
        proof {
            crate::order_id::lemma_order_id_round_trip(limit_price, side, seq1);
            assert(seq_of_key(order_id) == seq1);
            if own0.contains_key(order_id) {
                assert(seq_of_key(order_id) <= eq0.seq_num_spec());
            }
            crate::fp32::lemma_mul_div_bound(base_to_post, v.quote_rem, limit_price);
        }
        let new_leaf = LeafNode { key: order_id, callback_info: *info, base_quantity: base_to_post };
        match self.insert_of(side, new_leaf) {
            Ok(()) => {
                proof {
                    assert(event_queue@ =~= eq0@ + last.events);
                }
            },
            Err(_) => {
                let worst_h = match self.find_worst(side) {
                    Some(h) => h,
                    None => {
                        return Err(ErrorCode::SlabOutOfSpace);
                    },
                };
                let worst_key = self.get_tree(side).get_leaf(worst_h).key;
                proof {
                    lemma_best_unique(own0, side.opposite_spec(), worst_key);
                }
                let ranks_below = match side {
                    Side::Bid => order_id < worst_key,
                    Side::Ask => order_id > worst_key,
                };
                if ranks_below {
                    proof {
                        assert(event_queue@ =~= eq0@ + last.events);
                        lemma_fresh_mono(own0, side, eq0.seq_num_spec(), event_queue.seq_num_spec());
                        lemma_fresh_mono(self.book(opp), opp, eq0.seq_num_spec(), event_queue.seq_num_spec());
                    }
                    return Ok(
                        OrderSummary {
                            posted_order_id: None,
                            total_base_qty: max_base - v.base_rem,
                            total_quote_qty: max_quote - v.quote_rem,
                            total_base_qty_posted: 0,
                        },
                    );
                }
                let evicted = match self.remove_worst(side) {
                    Some(l) => l,
                    None => {
                        return Err(ErrorCode::SlabOutOfSpace);
                    },
                };
                proof {
                    lemma_best_unique(own0, side.opposite_spec(), evicted.key);
                }
                let out = Event::Out {
                    side,
                    order_id: evicted.key,
                    base_size: evicted.base_quantity,
                    delete: true,
                    callback_info: evicted.callback_info,
                };
                if event_queue.push_back(out).is_err() {
                    return Err(ErrorCode::EventQueueFull);
                }
                proof {
                    assert(event_queue@ =~= eq0@ + last.events.push(out));
                    self.slab(side).lemma_wf();
                }
                match self.insert_of(side, new_leaf) {
                    Ok(()) => {},
                    Err(e) => {
                        return Err(e);
                    },
                }
            },
        }
        proof {
            lemma_fresh_mono(own0, side, eq0.seq_num_spec(), event_queue.seq_num_spec());
            lemma_fresh_mono(self.book(opp), opp, eq0.seq_num_spec(), event_queue.seq_num_spec());
        }
        let quote_posted = crate::fp32::fp32_mul(base_to_post, limit_price);
        Ok(
            OrderSummary {
                posted_order_id: Some(order_id),
                total_base_qty: max_base - (v.base_rem - base_to_post),
                total_quote_qty: max_quote - (v.quote_rem - quote_posted),
                total_base_qty_posted: base_to_post,
            },
        )
    }
}


/// What `new_order` on `book0` and `eq0` does: the argument checks, then a
/// matching run and the posting of what is left.
pub open spec fn order_result(
    params: NewOrderParams,
    min_base_order_size: u64,
    book0: OrderBookState,
    eq0: EventQueue,
    r: Result<OrderSummary, ErrorCode>,
    book1: OrderBookState,
    eq1: EventQueue,
) -> bool {
    &&& params.max_base_qty == 0 ==> r == Err::<OrderSummary, ErrorCode>(
        ErrorCode::InvalidBaseQuantity,
    )
    &&& params.max_base_qty > 0 && params.callback_info@.len() != book0.callback_info_len_spec()
        ==> r == Err::<OrderSummary, ErrorCode>(ErrorCode::InvalidArgument)
    &&& params.max_base_qty > 0 && params.callback_info@.len() == book0.callback_info_len_spec()
        ==> exists|info: [u8; 32], trace: Seq<MatchState>|
        {
                &&& info@ == pad_info(params.callback_info@)
                &&& #[trigger] valid_run(
                    order_input(params, info, book0, eq0, min_base_order_size),
                    initial_state(params, book0),
                    trace,
                )
                &&& trace.last().done
                &&& r == order_outcome(
                    params,
                    info,
                    book0,
                    eq0,
                    min_base_order_size,
                    trace,
                ).result
                &&& r is Ok ==> order_applied(
                    params,
                    trace,
                    order_outcome(
                        params,
                        info,
                        book0,
                        eq0,
                        min_base_order_size,
                        trace,
                    ),
                    book0,
                    book1,
                    eq0,
                    eq1,
                )
            }
}

impl OrderBookState {
    /// Matches a new order against the opposite side, then posts what is left
    /// if the call allows it.
    ///
    /// Matching follows `match_step` from `initial_state` until a step is final;
    /// posting follows `post_outcome`. On `Ok`, books and queue are as
    /// `order_applied` says; on `Err` both are as they were before the call.
    pub fn new_order(
        &mut self,
        params: NewOrderParams,
        event_queue: &mut EventQueue,
        min_base_order_size: u64,
    ) -> (r: Result<OrderSummary, ErrorCode>)
        requires
            old(self).wf(),
            old(event_queue).wf(),
            keys_fresh(old(self).book(Side::Bid), Side::Bid, old(event_queue).seq_num_spec()),
            keys_fresh(old(self).book(Side::Ask), Side::Ask, old(event_queue).seq_num_spec()),
        ensures
            order_result(
                params,
                min_base_order_size,
                *old(self),
                *old(event_queue),
                r,
                *final(self),
                *final(event_queue),
            ),
            r is Err ==> final(self).same(old(self)) && final(event_queue).same(old(event_queue)),
    {
        let book_copy = self.duplicate();
        let queue_copy = event_queue.duplicate();
        let ghost book0 = *self;
        let ghost eq0 = *event_queue;
        let ghost gp = params;
        let r = self.run_order(params, event_queue, min_base_order_size);
        let ghost book1 = *self;
        let ghost eq1 = *event_queue;
        match r {
            Ok(_) => {},
            Err(_) => {
                *self = book_copy;
                *event_queue = queue_copy;
                proof {
                    if gp.max_base_qty > 0 && gp.callback_info@.len() == book0.callback_info_len_spec() {
                        let (info, trace) = choose|info: [u8; 32], trace: Seq<MatchState>|
                            {
                                &&& info@ == pad_info(gp.callback_info@)
                                &&& #[trigger] valid_run(
                                    order_input(gp, info, book0, eq0, min_base_order_size),
                                    initial_state(gp, book0),
                                    trace,
                                )
                                &&& trace.last().done
                                &&& r == order_outcome(
                                    gp,
                                    info,
                                    book0,
                                    eq0,
                                    min_base_order_size,
                                    trace,
                                ).result
                                &&& r is Ok ==> order_applied(
                                    gp,
                                    trace,
                                    order_outcome(gp, info, book0, eq0, min_base_order_size, trace),
                                    book0,
                                    book1,
                                    eq0,
                                    eq1,
                                )
                            };
                        assert(valid_run(
                            order_input(gp, info, book0, eq0, min_base_order_size),
                            initial_state(gp, book0),
                            trace,
                        ));
                    }
                }
            },
        }
        r
    }

    #[verifier::rlimit(100)]
    fn run_order(
        &mut self,
        params: NewOrderParams,
        event_queue: &mut EventQueue,
        min_base_order_size: u64,
    ) -> (r: Result<OrderSummary, ErrorCode>)
        requires
            old(self).wf(),
            old(event_queue).wf(),
            keys_fresh(old(self).book(Side::Bid), Side::Bid, old(event_queue).seq_num_spec()),
            keys_fresh(old(self).book(Side::Ask), Side::Ask, old(event_queue).seq_num_spec()),
        ensures
            order_result(
                params,
                min_base_order_size,
                *old(self),
                *old(event_queue),
                r,
                *final(self),
                *final(event_queue),
            ),
    {
        if params.max_base_qty == 0 {
            return Err(ErrorCode::InvalidBaseQuantity);
        }
        if params.callback_info.len() != self.callback_info_len as usize {
            return Err(ErrorCode::InvalidArgument);
        }
        let info = pad_callback_info(&params.callback_info);
        let side = params.side;
        let mut v = MatchVars {
            base_rem: params.max_base_qty,
            quote_rem: params.max_quote_qty,
            match_limit: params.match_limit,
            crossed: true,
        };
        let ghost self0 = *self;
        let ghost eq0 = *event_queue;
        let ghost opp = side.opposite_spec();
        let ghost inp = order_input(params, info, self0, eq0, min_base_order_size);
        let ghost init = initial_state(params, self0);
        let ghost mut trace: Seq<MatchState> = seq![init];
        proof {
            event_queue.lemma_seqs_increasing();
            assert(event_queue@ =~= eq0@ + Seq::<Event>::empty());
            assert(valid_run(inp, init, trace));
        }
        loop
            invariant_except_break
                !trace.last().done,
            invariant
                self.wf(),
                self0.wf(),
                self0 == *old(self),
                eq0 == *old(event_queue),
                params.max_base_qty > 0,
                params.callback_info@.len() == self0.callback_info_len_spec(),
                self.slab(side) == self0.slab(side),
                self.callback_info_len_spec() == self0.callback_info_len_spec(),
                self.callback_id_len_spec() == self0.callback_id_len_spec(),
                self.callback_id_len_spec() <= 32,
                side == params.side,
                opp == side.opposite_spec(),
                info@ == pad_info(params.callback_info@),
                inp == order_input(params, info, self0, eq0, min_base_order_size),
                init == initial_state(params, self0),
                room_of(inp, eq0),
                valid_run(inp, init, trace),
                queue_tracks(*event_queue, eq0, trace.last().events),
                trace.last() == (MatchState {
                    book: self.book(opp),
                    base_rem: v.base_rem,
                    quote_rem: v.quote_rem,
                    match_limit: v.match_limit,
                    crossed: v.crossed,
                    done: trace.last().done,
                    error: None,
                    events: trace.last().events,
                }),
                self.book(opp).dom().subset_of(self0.book(opp).dom()),
                v.base_rem <= params.max_base_qty,
                v.quote_rem <= params.max_quote_qty,
            ensures
                trace.last().done,
            decreases v.match_limit, self.book(opp).len(), self.best_size(opp),
        {
            let ghost cur = trace.last();
            let (v2, step) = self.match_once(
                event_queue,
                Ghost(inp),
                Ghost(cur),
                Ghost(eq0),
                &info,
                v,
                side,
                params.limit_price,
                params.post_only,
                params.self_trade_behavior,
                min_base_order_size,
            );
            proof {
                lemma_run_extend(inp, init, trace);
                trace = trace.push(match_step(inp, cur));
            }
            match step {
                Err(e) => {
                    proof {
                        lemma_post_error(
                            inp,
                            trace.last(),
                            params.post_allowed,
                            self0.book(side),
                            self0.slab(side).free_slots(),
                            eq0.seq_num_spec(),
                            params.max_base_qty,
                            params.max_quote_qty,
                        );
                        let r: Result<OrderSummary, ErrorCode> = Err(e);
                        assert(info@ == pad_info(params.callback_info@) && valid_run(inp, init, trace) && trace.last().done
                            && r == order_outcome(params, info, self0, eq0, min_base_order_size, trace).result);
                    }
                    return Err(e);
                },
                Ok(go) => {
                    v = v2;
                    if !go {
                        break;
                    }
                },
            }
        }
        let ghost last = trace.last();
        proof {
            assert(keys_fresh(self.book(opp), opp, eq0.seq_num_spec())) by {
                assert forall|k: u128| #[trigger] self.book(opp).contains_key(k) implies crate::order_id::side_of(k) == opp
                    && seq_of_key(k) <= eq0.seq_num_spec() by {
                    assert(self0.book(opp).contains_key(k));
                }
            }
        }
        let r = self.post_residual(
            event_queue,
            Ghost(inp),
            Ghost(last),
            Ghost(eq0),
            &info,
            v,
            side,
            params.limit_price,
            params.post_allowed,
            min_base_order_size,
            params.max_base_qty,
            params.max_quote_qty,
        );
        proof {
            assert(info@ == pad_info(params.callback_info@) && valid_run(inp, init, trace) && trace.last().done
                && r == order_outcome(params, info, self0, eq0, min_base_order_size, trace).result);
            if r is Ok {
                assert(order_applied(params, trace, order_outcome(params, info, self0, eq0, min_base_order_size, trace), self0, *self, eq0, *event_queue));
            }
        }
        r
    }
}


impl OrderBookState {
    /// Both sides and the callback lengths are the same.
    pub open spec fn same(&self, other: &OrderBookState) -> bool {
        &&& self.slab(Side::Bid).same(&other.slab(Side::Bid))
        &&& self.slab(Side::Ask).same(&other.slab(Side::Ask))
        &&& self.callback_info_len_spec() == other.callback_info_len_spec()
        &&& self.callback_id_len_spec() == other.callback_id_len_spec()
    }

    pub proof fn lemma_same_refl(&self)
        ensures
            self.same(self),
    {
        self.slab(Side::Bid).lemma_same_refl();
        self.slab(Side::Ask).lemma_same_refl();
    }

    /// A well-formed book holds a well-formed bids slab and asks slab.
    pub proof fn lemma_wf_slabs(&self)
        requires
            self.wf(),
        ensures
            self.slab(Side::Bid).wf(),
            self.slab(Side::Ask).wf(),
            self.slab(Side::Bid).tag() == AccountTag::Bids,
            self.slab(Side::Ask).tag() == AccountTag::Asks,
    {
    }

    /// Both books of a well-formed state are finite.
    pub proof fn lemma_finite(&self)
        requires
            self.wf(),
        ensures
            self.book(Side::Bid).dom().finite(),
            self.book(Side::Ask).dom().finite(),
    {
        self.slab(Side::Bid).lemma_wf();
        self.slab(Side::Ask).lemma_wf();
    }

    /// Books holding the same state look the same through every accessor.
    pub proof fn lemma_same(&self, other: &OrderBookState)
        requires
            self.same(other),
        ensures
            self.wf() == other.wf(),
            self.book(Side::Bid) == other.book(Side::Bid),
            self.book(Side::Ask) == other.book(Side::Ask),
            self.slab(Side::Bid).free_slots() == other.slab(Side::Bid).free_slots(),
            self.slab(Side::Ask).free_slots() == other.slab(Side::Ask).free_slots(),
    {
        self.slab(Side::Bid).lemma_same(&other.slab(Side::Bid));
        self.slab(Side::Ask).lemma_same(&other.slab(Side::Ask));
    }

    /// A slot-for-slot copy.
    pub fn duplicate(&self) -> (r: OrderBookState)
        ensures
            r.same(self),
    {
        OrderBookState {
            bids: self.bids.duplicate(),
            asks: self.asks.duplicate(),
            callback_info_len: self.callback_info_len,
            callback_id_len: self.callback_id_len,
        }
    }

    /// Removes a resting order by its id, on the side its id names.
    pub fn cancel(&mut self, order_id: u128) -> (r: Option<LeafNode>)
        requires
            old(self).wf(),
        ensures
            final(self).wf(),
            ({
                let side = crate::order_id::side_of(order_id);
                &&& r is Some <==> old(self).book(side).contains_key(order_id)
                &&& r matches Some(l) ==> l == old(self).book(side)[order_id] && l.key == order_id
                    && final(self).book(side) == old(self).book(side).remove(order_id)
                &&& r is None ==> *final(self) == *old(self)
                &&& final(self).other_side_kept(old(self), side)
            }),
    {
        let side = crate::order_id::get_side_from_order_id(order_id);
        proof {
            self.slab(side).lemma_wf();
        }
        self.remove_of(side, order_id)
    }
}


/// Order ids sort by price first.
pub proof fn lemma_price_monotone(k1: u128, k2: u128)
    requires
        k1 <= k2,
    ensures
        price_of(k1) <= price_of(k2),
        price_of(k1) == price_of(k2) ==> k1 as int % 18446744073709551616 <= k2 as int
            % 18446744073709551616,
{
    let s = 18446744073709551616int;
    vstd::arithmetic::div_mod::lemma_fundamental_div_mod(k1 as int, s);
    vstd::arithmetic::div_mod::lemma_fundamental_div_mod(k2 as int, s);
    vstd::arithmetic::div_mod::lemma_div_is_ordered(k1 as int, k2 as int, s);
    assert(k1 as int / s < 18446744073709551616) by {
        vstd::arithmetic::div_mod::lemma_div_is_ordered(k1 as int, 340282366920938463463374607431768211455int, s);
    }
    assert(k2 as int / s < 18446744073709551616) by {
        vstd::arithmetic::div_mod::lemma_div_is_ordered(k2 as int, 340282366920938463463374607431768211455int, s);
    }
}

/// Price-time priority: the best order of a side has the most aggressive
/// price (highest bid, lowest ask) and, among orders at that price, the
/// lowest sequence number.
pub proof fn lemma_price_time_priority(book: Map<u128, LeafNode>, side: Side, k: u128)
    requires
        is_best(book, side, k),
        keys_fresh(book, side, MAX_SEQ_NUM),
    ensures
        forall|k2: u128| #[trigger]
            book.contains_key(k2) ==> match side {
                Side::Bid => price_of(k2) <= price_of(k) && (price_of(k2) == price_of(k)
                    ==> seq_of_key(k) <= seq_of_key(k2)),
                Side::Ask => price_of(k) <= price_of(k2) && (price_of(k2) == price_of(k)
                    ==> seq_of_key(k) <= seq_of_key(k2)),
            },
{
    assert forall|k2: u128| #[trigger] book.contains_key(k2) implies match side {
        Side::Bid => price_of(k2) <= price_of(k) && (price_of(k2) == price_of(k) ==> seq_of_key(k)
            <= seq_of_key(k2)),
        Side::Ask => price_of(k) <= price_of(k2) && (price_of(k2) == price_of(k) ==> seq_of_key(k)
            <= seq_of_key(k2)),
    } by {
        match side {
            Side::Bid => lemma_price_monotone(k2, k),
            Side::Ask => lemma_price_monotone(k, k2),
        }
    }
}

/// Eviction takes the least aggressive order: the lowest-priced bid, or the
/// highest-priced ask.
pub proof fn lemma_eviction_least_aggressive(own: Map<u128, LeafNode>, side: Side, ek: u128)
    requires
        is_worst(own, side, ek),
    ensures
        forall|k: u128| #[trigger]
            own.contains_key(k) ==> match side {
                Side::Bid => price_of(ek) <= price_of(k),
                Side::Ask => price_of(k) <= price_of(ek),
            },
{
    assert forall|k: u128| #[trigger] own.contains_key(k) implies match side {
        Side::Bid => price_of(ek) <= price_of(k),
        Side::Ask => price_of(k) <= price_of(ek),
    } by {
        match side {
            Side::Bid => lemma_price_monotone(ek, k),
            Side::Ask => lemma_price_monotone(k, ek),
        }
    }
}

/// Eviction: when a successful call posts into a side with no room, the least
/// aggressive order of that side (the lowest bid, or the highest ask) leaves it
/// with one `Out` event on that side, and the new order takes its place.
pub proof fn lemma_post_evicts_least_aggressive(
    inp: MatchInput,
    last: MatchState,
    post_allowed: bool,
    own: Map<u128, LeafNode>,
    own_free: nat,
    seq0: u64,
    max_base: u64,
    max_quote: u64,
)
    requires
        own.dom().finite(),
    ensures
        ({
            let out = post_outcome(inp, last, post_allowed, own, own_free, seq0, max_base, max_quote);
            let needed: nat = if own.len() == 0 { 1 } else { 2 };
            let ek = best_key(own, inp.side.opposite_spec());
            out.result is Ok && out.result->Ok_0.posted_order_id is Some && own_free < needed ==> {
                let id = out.result->Ok_0.posted_order_id->Some_0;
                &&& own.len() > 0
                &&& is_worst(own, inp.side, ek)
                &&& forall|k: u128| #[trigger]
                    own.contains_key(k) ==> match inp.side {
                        Side::Bid => price_of(ek) <= price_of(k),
                        Side::Ask => price_of(k) <= price_of(ek),
                    }
                &&& out.events == last.events.push(
                    Event::Out {
                        side: inp.side,
                        order_id: ek,
                        base_size: own[ek].base_quantity,
                        delete: true,
                        callback_info: own[ek].callback_info,
                    },
                )
                &&& out.own == own.remove(ek).insert(id, out.own[id])
            }
        }),
{
    reveal(post_outcome);
    let out = post_outcome(inp, last, post_allowed, own, own_free, seq0, max_base, max_quote);
    let needed: nat = if own.len() == 0 { 1 } else { 2 };
    if out.result is Ok && out.result->Ok_0.posted_order_id is Some && own_free < needed {
        let ek = best_key(own, inp.side.opposite_spec());
        assert(own.len() > 0);
        lemma_best_exists(own, inp.side.opposite_spec());
        assert(is_worst(own, inp.side, ek));
        lemma_eviction_least_aggressive(own, inp.side, ek);
    }
}

/// A finite non-empty book has a best key.
pub proof fn lemma_best_exists(m: Map<u128, LeafNode>, side: Side)
    requires
        m.dom().finite(),
        m.len() > 0,
    ensures
        exists|k: u128| is_best(m, side, k),
    decreases m.len(),
{
    let k0 = m.dom().choose();
    assert(m.dom().contains(k0)) by {
        assert(m.dom().len() > 0);
    }
    let rest = m.remove(k0);
    if rest.len() == 0 {
        assert(is_best(m, side, k0)) by {
            assert forall|k2: u128| #[trigger] m.contains_key(k2) implies k2 == k0 by {
                if k2 != k0 {
                    assert(rest.dom().contains(k2));
                }
            }
        }
    } else {
        lemma_best_exists(rest, side);
        let kb = choose|k: u128| is_best(rest, side, k);
        let better = match side {
            Side::Bid => k0 > kb,
            Side::Ask => k0 < kb,
        };
        if better {
            assert(is_best(m, side, k0)) by {
                assert forall|k2: u128| #[trigger] m.contains_key(k2) implies match side {
                    Side::Bid => k2 <= k0,
                    Side::Ask => k0 <= k2,
                } by {
                    if k2 != k0 {
                        assert(rest.contains_key(k2));
                    }
                }
            }
        } else {
            assert(is_best(m, side, kb)) by {
                assert forall|k2: u128| #[trigger] m.contains_key(k2) implies match side {
                    Side::Bid => k2 <= kb,
                    Side::Ask => kb <= k2,
                } by {
                    if k2 != k0 {
                        assert(rest.contains_key(k2));
                    }
                }
            }
        }
    }
}

/// Cancelling twice: once an order id has been cancelled, its side's book no
/// longer holds it, so a second cancel finds nothing.
pub proof fn lemma_cancel_twice(book0: OrderBookState, book1: OrderBookState, order_id: u128)
    requires
        book1.book(crate::order_id::side_of(order_id)) == book0.book(
            crate::order_id::side_of(order_id),
        ).remove(order_id),
    ensures
        !book1.book(crate::order_id::side_of(order_id)).contains_key(order_id),
{
}

/// Under `AbortTransaction`, meeting one's own resting order fails the call.
pub proof fn lemma_abort_on_self_trade(inp: MatchInput, s: MatchState)
    requires
        inp.self_trade_behavior == SelfTradeBehavior::AbortTransaction,
        s.match_limit > 0,
        s.book.len() > 0,
        !inp.post_only,
        crosses(inp.side, inp.limit_price, price_of(best_key(s.book, inp.side.opposite_spec()))),
        min3(
            s.book[best_key(s.book, inp.side.opposite_spec())].base_quantity as int,
            s.base_rem as int,
            fp32_div_spec(s.quote_rem, price_of(best_key(s.book, inp.side.opposite_spec()))),
        ) > 0,
        same_id(
            inp.taker_info@,
            s.book[best_key(s.book, inp.side.opposite_spec())].callback_info@,
            inp.callback_id_len,
        ),
    ensures
        match_step(inp, s).error == Some(ErrorCode::WouldSelfTrade),
        match_step(inp, s).done,
{
    reveal(match_step);
}

/// Under `CancelProvide`, meeting one's own resting order emits no fill: the
/// step adds at most one `Out` event for that order and trades nothing.
pub proof fn lemma_cancel_provide_no_fill(inp: MatchInput, s: MatchState)
    requires
        inp.self_trade_behavior == SelfTradeBehavior::CancelProvide,
        s.book.len() > 0,
        same_id(
            inp.taker_info@,
            s.book[best_key(s.book, inp.side.opposite_spec())].callback_info@,
            inp.callback_id_len,
        ),
    ensures
        match_step(inp, s).base_rem == s.base_rem,
        match_step(inp, s).quote_rem == s.quote_rem,
        match_step(inp, s).events == s.events || (match_step(inp, s).events.len() == s.events.len() + 1
            && match_step(inp, s).events.drop_last() == s.events && match_step(
            inp,
            s,
        ).events.last() is Out),
{
    reveal(match_step);
    let n = match_step(inp, s);
    if n.events.len() == s.events.len() + 1 {
        assert(n.events.drop_last() =~= s.events);
    }
}


/// The base traded by the `Fill` events of `events`.
pub open spec fn fill_base_total(events: Seq<Event>) -> int
    decreases events.len(),
{
    if events.len() == 0 {
        0
    } else {
        fill_base_total(events.drop_last()) + match events.last() {
            Event::Fill { base_size, .. } => base_size as int,
            _ => 0,
        }
    }
}

/// The quote traded by the `Fill` events of `events`.
pub open spec fn fill_quote_total(events: Seq<Event>) -> int
    decreases events.len(),
{
    if events.len() == 0 {
        0
    } else {
        fill_quote_total(events.drop_last()) + match events.last() {
            Event::Fill { quote_size, .. } => quote_size as int,
            _ => 0,
        }
    }
}

proof fn lemma_totals_nonneg(events: Seq<Event>)
    ensures
        fill_base_total(events) >= 0,
        fill_quote_total(events) >= 0,
    decreases events.len(),
{
    if events.len() > 0 {
        lemma_totals_nonneg(events.drop_last());
    }
}

proof fn lemma_totals_push(events: Seq<Event>, e: Event)
    ensures
        fill_base_total(events.push(e)) == fill_base_total(events) + match e {
            Event::Fill { base_size, .. } => base_size as int,
            _ => 0,
        },
        fill_quote_total(events.push(e)) == fill_quote_total(events) + match e {
            Event::Fill { quote_size, .. } => quote_size as int,
            _ => 0,
        },
{
    assert(events.push(e).drop_last() =~= events);
}

/// One step moves exactly the filled amounts out of what remains to trade.
proof fn lemma_step_conserves(inp: MatchInput, s: MatchState)
    requires
        s.error is None,
    ensures
        match_step(inp, s).error is Some ==> match_step(inp, s).done,
        match_step(inp, s).error is None ==> {
            let n = match_step(inp, s);
            &&& s.base_rem - n.base_rem == fill_base_total(n.events) - fill_base_total(s.events)
            &&& s.quote_rem - n.quote_rem == fill_quote_total(n.events) - fill_quote_total(s.events)
        },
{
    reveal(match_step);
    let n = match_step(inp, s);
    if n.events.len() > s.events.len() && n.error is None {
        let opp = inp.side.opposite_spec();
        let k = best_key(s.book, opp);
        let maker = s.book[k];
        let price = price_of(k);
        let base_trade = min3(maker.base_quantity as int, s.base_rem as int, fp32_div_spec(s.quote_rem, price));
        if inp.self_trade_behavior != SelfTradeBehavior::DecrementTake && same_id(
            inp.taker_info@,
            maker.callback_info@,
            inp.callback_id_len,
        ) {
            lemma_totals_push(s.events, n.events.last());
            assert(n.events == s.events.push(n.events.last()));
        } else {
            crate::fp32::lemma_mul_div_bound(base_trade as u64, s.quote_rem, price);
            let quote_trade = fp32_mul_spec(base_trade as u64, price);
            let fill = Event::Fill {
                taker_side: inp.side,
                maker_order_id: k,
                quote_size: quote_trade as u64,
                base_size: base_trade as u64,
                maker_callback_info: maker.callback_info,
                taker_callback_info: inp.taker_info,
            };
            lemma_totals_push(s.events, fill);
            if n.events.len() == s.events.len() + 2 {
                lemma_totals_push(s.events.push(fill), n.events.last());
            }
        }
    }
}

/// Along a run, a state with an error is final, and what was traded equals
/// what the fills record.
proof fn lemma_run_conserves(inp: MatchInput, init: MatchState, trace: Seq<MatchState>)
    requires
        valid_run(inp, init, trace),
        init.error is None,
    ensures
        trace.last().error is Some ==> trace.last().done,
        trace.last().error is None ==> init.base_rem - trace.last().base_rem == fill_base_total(
            trace.last().events,
        ) - fill_base_total(init.events),
        trace.last().error is None ==> init.quote_rem - trace.last().quote_rem == fill_quote_total(
            trace.last().events,
        ) - fill_quote_total(init.events),
    decreases trace.len(),
{
    if trace.len() > 1 {
        let t0 = trace.drop_last();
        assert(valid_run(inp, init, t0)) by {
            assert forall|i: int| 0 <= i < t0.len() - 1 implies !(#[trigger] t0[i]).done && t0[i + 1]
                == match_step(inp, t0[i]) by {
                assert(t0[i] == trace[i]);
                assert(!trace[i].done);
            }
        }
        lemma_run_conserves(inp, init, t0);
        let prev = t0.last();
        assert(prev == trace[trace.len() - 2]);
        assert(!prev.done);
        assert(trace.last() == match_step(inp, prev));
        lemma_step_conserves(inp, prev);
    }
}

/// Conservation: after a successful `new_order`, the base taken by matching
/// (total less what was posted) is the base of the `Fill` events; the quote
/// total is the quote of the `Fill` events, plus the quote of what was posted
/// at the limit price; and what was posted is the size of the new resting order.
#[verifier::rlimit(100)]
pub proof fn lemma_conservation(
    params: NewOrderParams,
    info: [u8; 32],
    book0: OrderBookState,
    eq0: EventQueue,
    min_base_order_size: u64,
    trace: Seq<MatchState>,
)
    requires
        valid_run(
            order_input(params, info, book0, eq0, min_base_order_size),
            initial_state(params, book0),
            trace,
        ),
        trace.last().done,
        order_outcome(params, info, book0, eq0, min_base_order_size, trace).result is Ok,
    ensures
        ({
            let out = order_outcome(params, info, book0, eq0, min_base_order_size, trace);
            let s = out.result->Ok_0;
            &&& s.total_base_qty - s.total_base_qty_posted == fill_base_total(out.events)
            &&& s.posted_order_id is None ==> s.total_quote_qty == fill_quote_total(out.events)
                && s.total_base_qty_posted == 0
            &&& s.posted_order_id matches Some(id) ==> out.own.contains_key(id)
                && out.own[id].base_quantity == s.total_base_qty_posted
            &&& s.posted_order_id is Some ==> s.total_quote_qty == fill_quote_total(out.events)
                + fp32_mul_spec(s.total_base_qty_posted, params.limit_price)
        }),
{
    reveal(post_outcome);
    let inp = order_input(params, info, book0, eq0, min_base_order_size);
    let init = initial_state(params, book0);
    let last = trace.last();
    let out = order_outcome(params, info, book0, eq0, min_base_order_size, trace);
    lemma_run_conserves(inp, init, trace);
    assert(last.error is None);
    lemma_totals_nonneg(last.events);
    assert(last.base_rem <= params.max_base_qty);
    assert(last.quote_rem <= params.max_quote_qty);
    assert(fill_base_total(Seq::<Event>::empty()) == 0);
    assert(fill_quote_total(Seq::<Event>::empty()) == 0);
    if out.events.len() == last.events.len() + 1 {
        lemma_totals_push(last.events, out.events.last());
        assert(out.events == last.events.push(out.events.last()));
    }
    let post = base_to_post(inp, last);
    if out.result->Ok_0.posted_order_id is Some {
        crate::fp32::lemma_mul_div_bound(post as u64, last.quote_rem, inp.limit_price);
    }
}


/// Every resting order of `book` is larger than `min`.
pub open spec fn above_min(book: Map<u128, LeafNode>, min: u64) -> bool {
    forall|k: u128| #[trigger] book.contains_key(k) ==> book[k].base_quantity > min
}

/// A `CancelProvide` run is in the middle of cancelling the best opposite
/// order, which is the taker's own: the next step cancels more of it, and
/// every other order is larger than the minimum.
pub open spec fn pending_cancel(inp: MatchInput, s: MatchState) -> bool {
    let opp = inp.side.opposite_spec();
    let k = best_key(s.book, opp);
    let maker = s.book[k];
    &&& s.book.len() > 0
    &&& is_best(s.book, opp, k)
    &&& s.match_limit > 0
    &&& !inp.post_only
    &&& inp.self_trade_behavior == SelfTradeBehavior::CancelProvide
    &&& crosses(inp.side, inp.limit_price, price_of(k))
    &&& maker.base_quantity > 0
    &&& s.base_rem > 0
    &&& fp32_div_spec(s.quote_rem, price_of(k)) > 0
    &&& same_id(inp.taker_info@, maker.callback_info@, inp.callback_id_len)
    &&& forall|k2: u128| #[trigger]
        s.book.contains_key(k2) && k2 != k ==> s.book[k2].base_quantity > inp.min_base_order_size
}

proof fn lemma_step_min_size(inp: MatchInput, s: MatchState)
    requires
        s.book.dom().finite(),
        s.error is None,
        !s.done,
        above_min(s.book, inp.min_base_order_size) || pending_cancel(inp, s),
    ensures
        ({
            let n = match_step(inp, s);
            &&& n.book.dom().finite()
            &&& n.error is None ==> {
                &&& above_min(n.book, inp.min_base_order_size) || pending_cancel(inp, n)
                &&& n.done ==> above_min(n.book, inp.min_base_order_size)
            }
        }),
{
    reveal(match_step);
    let n = match_step(inp, s);
    let opp = inp.side.opposite_spec();
    let min = inp.min_base_order_size;
    if n.error is None && s.match_limit > 0 && s.book.len() > 0 {
        let k = best_key(s.book, opp);
        lemma_best_exists(s.book, opp);
        assert(is_best(s.book, opp, k));
        let maker = s.book[k];
        let price = price_of(k);
        if n.book != s.book {
            let base_trade = min3(maker.base_quantity as int, s.base_rem as int, fp32_div_spec(s.quote_rem, price));
            if inp.self_trade_behavior != SelfTradeBehavior::DecrementTake && same_id(
                inp.taker_info@,
                maker.callback_info@,
                inp.callback_id_len,
            ) {
                let cancelled = if s.base_rem <= maker.base_quantity {
                    s.base_rem
                } else {
                    maker.base_quantity
                };
                let remaining = (maker.base_quantity - cancelled) as u64;
                if remaining == 0 {
                    assert forall|k2: u128| #[trigger] n.book.contains_key(k2) implies n.book[k2].base_quantity > min by {
                        assert(s.book.contains_key(k2) && k2 != k);
                        if !above_min(s.book, min) {
                            assert(pending_cancel(inp, s));
                        }
                    }
                } else {
                    assert(n.book.dom() =~= s.book.dom());
                    assert(is_best(n.book, opp, k));
                    lemma_best_unique(n.book, opp, k);
                    assert forall|k2: u128| #[trigger] n.book.contains_key(k2) && k2 != k implies n.book[k2].base_quantity > min by {
                        if !above_min(s.book, min) {
                            assert(pending_cancel(inp, s));
                        }
                    }
                    assert(n.book.len() == s.book.len());
                    assert(pending_cancel(inp, n));
                }
            } else {
                assert forall|k2: u128| #[trigger] n.book.contains_key(k2) implies n.book[k2].base_quantity > min by {
                    if k2 != k {
                        if !above_min(s.book, min) {
                            assert(pending_cancel(inp, s));
                            assert(false);
                        }
                    }
                }
            }
        } else {
            if pending_cancel(inp, s) {
                assert(false);
            }
        }
    }
}


proof fn lemma_run_min_size(inp: MatchInput, init: MatchState, trace: Seq<MatchState>)
    requires
        valid_run(inp, init, trace),
        init.error is None,
        init.book.dom().finite(),
        above_min(init.book, inp.min_base_order_size),
    ensures
        trace.last().book.dom().finite(),
        trace.last().error is Some ==> trace.last().done,
        trace.last().error is None ==> (above_min(trace.last().book, inp.min_base_order_size)
            || pending_cancel(inp, trace.last())),
        trace.last().error is None && trace.last().done ==> above_min(
            trace.last().book,
            inp.min_base_order_size,
        ),
    decreases trace.len(),
{
    if trace.len() > 1 {
        let t0 = trace.drop_last();
        assert(valid_run(inp, init, t0)) by {
            assert forall|i: int| 0 <= i < t0.len() - 1 implies !(#[trigger] t0[i]).done && t0[i + 1]
                == match_step(inp, t0[i]) by {
                assert(t0[i] == trace[i]);
                assert(!trace[i].done);
            }
        }
        lemma_run_min_size(inp, init, t0);
        lemma_run_conserves(inp, init, t0);
        let prev = t0.last();
        assert(prev == trace[trace.len() - 2]);
        assert(!prev.done);
        assert(trace.last() == match_step(inp, prev));
        lemma_step_conserves(inp, prev);
        lemma_step_min_size(inp, prev);
    }
}

/// Minimum order size: if every resting order of the book was larger than the
/// market's minimum before a successful `new_order`, every resting order on
/// both sides is larger than it afterwards.
#[verifier::rlimit(100)]
pub proof fn lemma_min_size_kept(
    params: NewOrderParams,
    info: [u8; 32],
    book0: OrderBookState,
    eq0: EventQueue,
    min_base_order_size: u64,
    trace: Seq<MatchState>,
)
    requires
        book0.book(Side::Bid).dom().finite(),
        book0.book(Side::Ask).dom().finite(),
        above_min(book0.book(Side::Bid), min_base_order_size),
        above_min(book0.book(Side::Ask), min_base_order_size),
        valid_run(
            order_input(params, info, book0, eq0, min_base_order_size),
            initial_state(params, book0),
            trace,
        ),
        trace.last().done,
        order_outcome(params, info, book0, eq0, min_base_order_size, trace).result is Ok,
    ensures
        above_min(
            order_outcome(params, info, book0, eq0, min_base_order_size, trace).own,
            min_base_order_size,
        ),
        above_min(trace.last().book, min_base_order_size),
{
    reveal(post_outcome);
    let inp = order_input(params, info, book0, eq0, min_base_order_size);
    let init = initial_state(params, book0);
    lemma_run_min_size(inp, init, trace);
    let out = order_outcome(params, info, book0, eq0, min_base_order_size, trace);
    let own = book0.book(params.side);
    assert(above_min(own, min_base_order_size)) by {
        match params.side {
            Side::Bid => {},
            Side::Ask => {},
        }
    }
    assert forall|k: u128| #[trigger] out.own.contains_key(k) implies out.own[k].base_quantity
        > min_base_order_size by {
        if !own.contains_key(k) {
            assert(out.own[k].base_quantity == base_to_post(inp, trace.last()) as u64);
        }
    }
}


/// Allocator soundness for both trees of a well-formed book.
pub proof fn lemma_book_allocator_soundness(book: OrderBookState, side: Side)
    requires
        book.wf(),
    ensures
        book.slab(side).leaf_count_spec() == book.slab(side).allocated() - book.slab(side).free_list_len()
            - book.slab(side).inner_count(),
        book.slab(side).free_list_distinct(),
{
    book.lemma_wf_slabs();
    crate::critbit::lemma_allocator_soundness(&book.slab(side));
}

/// No `Fill` of `events` pairs the taker with a resting order of the same owner.
pub open spec fn no_self_fill(inp: MatchInput, events: Seq<Event>) -> bool {
    forall|i: int|
        0 <= i < events.len() && (#[trigger] events[i]) is Fill ==> !same_id(
            inp.taker_info@,
            events[i]->maker_callback_info@,
            inp.callback_id_len,
        )
}

proof fn lemma_step_no_self_fill(inp: MatchInput, s: MatchState)
    requires
        inp.self_trade_behavior != SelfTradeBehavior::DecrementTake,
        no_self_fill(inp, s.events),
    ensures
        no_self_fill(inp, match_step(inp, s).events),
{
    reveal(match_step);
    let n = match_step(inp, s);
    assert forall|i: int| 0 <= i < n.events.len() && (#[trigger] n.events[i]) is Fill implies !same_id(
        inp.taker_info@,
        n.events[i]->maker_callback_info@,
        inp.callback_id_len,
    ) by {
        if i < s.events.len() {
            assert(n.events[i] == s.events[i]);
        }
    }
}

proof fn lemma_run_no_self_fill(inp: MatchInput, init: MatchState, trace: Seq<MatchState>)
    requires
        valid_run(inp, init, trace),
        inp.self_trade_behavior != SelfTradeBehavior::DecrementTake,
        no_self_fill(inp, init.events),
    ensures
        no_self_fill(inp, trace.last().events),
    decreases trace.len(),
{
    if trace.len() > 1 {
        let t0 = trace.drop_last();
        assert(valid_run(inp, init, t0)) by {
            assert forall|i: int| 0 <= i < t0.len() - 1 implies !(#[trigger] t0[i]).done && t0[i + 1]
                == match_step(inp, t0[i]) by {
                assert(t0[i] == trace[i]);
                assert(!trace[i].done);
            }
        }
        lemma_run_no_self_fill(inp, init, t0);
        assert(trace.last() == match_step(inp, trace[trace.len() - 2]));
        assert(t0.last() == trace[trace.len() - 2]);
        lemma_step_no_self_fill(inp, t0.last());
    }
}

/// Self-trade policies: under `CancelProvide` or `AbortTransaction`, no `Fill`
/// event of a `new_order` call matches the taker against a resting order whose
/// callback identifier is the taker's; such orders are only cancelled (or the
/// call fails).
pub proof fn lemma_no_self_fill(
    params: NewOrderParams,
    info: [u8; 32],
    book0: OrderBookState,
    eq0: EventQueue,
    min_base_order_size: u64,
    trace: Seq<MatchState>,
)
    requires
        params.self_trade_behavior != SelfTradeBehavior::DecrementTake,
        valid_run(
            order_input(params, info, book0, eq0, min_base_order_size),
            initial_state(params, book0),
            trace,
        ),
    ensures
        no_self_fill(
            order_input(params, info, book0, eq0, min_base_order_size),
            order_outcome(params, info, book0, eq0, min_base_order_size, trace).events,
        ),
{
    reveal(post_outcome);
    let inp = order_input(params, info, book0, eq0, min_base_order_size);
    lemma_run_no_self_fill(inp, initial_state(params, book0), trace);
    let out = order_outcome(params, info, book0, eq0, min_base_order_size, trace);
    let last = trace.last();
    assert forall|i: int| 0 <= i < out.events.len() && (#[trigger] out.events[i]) is Fill implies !same_id(
        inp.taker_info@,
        out.events[i]->maker_callback_info@,
        inp.callback_id_len,
    ) by {
        if i < last.events.len() {
            assert(out.events[i] == last.events[i]);
        }
    }
}

} // verus!
