use vstd::prelude::*;

use crate::order_id::{gen_order_id, order_id_spec};
use crate::orderbook::OrderSummary;
use crate::state::{Event, Side};

verus! {

/// Sequence numbers stay below this bound, so that bit 63 of an order id
/// always tells the side.
pub const MAX_SEQ_NUM: u64 = 9223372036854775807;

/// Position `i` after `head` in a ring of `cap` slots.
pub open spec fn ring_index(head: int, i: int, cap: int) -> int {
    if head + i < cap {
        head + i
    } else {
        head + i - cap
    }
}

/// A fixed-capacity FIFO of events, with a one-summary register.
///
/// Every event pushed gets the next sequence number; `seq_num` also counts the
/// order ids handed out, so it only grows.
pub struct EventQueue {
    head: u64,
    count: u64,
    seq_num: u64,
    callback_info_len: u64,
    buffer: Vec<Event>,
    register: Option<OrderSummary>,
    seqs: Ghost<Seq<u64>>,
}

impl View for EventQueue {
    type V = Seq<Event>;

    /// The queued events, oldest first.
    closed spec fn view(&self) -> Seq<Event> {
        Seq::new(
            self.count as nat,
            |i: int| self.buffer@[ring_index(self.head as int, i, self.buffer@.len() as int)],
        )
    }
}

impl EventQueue {
    pub closed spec fn wf(&self) -> bool {
        &&& self.buffer@.len() <= u64::MAX
        &&& self.count <= self.buffer@.len()
        &&& (self.buffer@.len() == 0 || self.head < self.buffer@.len())
        &&& (self.buffer@.len() == 0 ==> self.head == 0)
        &&& self.seqs@.len() == self.count
        &&& self.seq_num <= MAX_SEQ_NUM
        &&& forall|i: int, j: int|
            0 <= i < j < self.seqs@.len() ==> #[trigger] self.seqs@[i] < #[trigger] self.seqs@[j]
        &&& forall|i: int| 0 <= i < self.seqs@.len() ==> #[trigger] self.seqs@[i] <= self.seq_num
    }

    /// Number of event slots.
    pub closed spec fn capacity_spec(&self) -> nat {
        self.buffer@.len()
    }

    /// The sequence counter.
    pub closed spec fn seq_num_spec(&self) -> u64 {
        self.seq_num
    }

    /// The sequence number each queued event was pushed with, oldest first.
    pub closed spec fn event_seqs(&self) -> Seq<u64> {
        self.seqs@
    }

    /// The summary register.
    pub closed spec fn register_spec(&self) -> Option<OrderSummary> {
        self.register
    }

    pub closed spec fn callback_info_len_spec(&self) -> u64 {
        self.callback_info_len
    }

    /// Events are queued with strictly increasing sequence numbers, none above
    /// the counter.
    pub proof fn lemma_seqs_increasing(&self)
        requires
            self.wf(),
        ensures
            self.event_seqs().len() == self@.len(),
            forall|i: int, j: int|
                0 <= i < j < self@.len() ==> #[trigger] self.event_seqs()[i]
                    < #[trigger] self.event_seqs()[j],
            forall|i: int| 0 <= i < self@.len() ==> #[trigger] self.event_seqs()[i] <= self.seq_num_spec(),
            self@.len() <= self.capacity_spec(),
            self.seq_num_spec() <= MAX_SEQ_NUM,
    {
    }

    /// An empty queue of `capacity` slots.
    pub fn new(capacity: u64, callback_info_len: u64) -> (r: EventQueue)
        ensures
            r.wf(),
            r@ == Seq::<Event>::empty(),
            r.capacity_spec() == capacity,
            r.seq_num_spec() == 0,
            r.register_spec() is None,
            r.callback_info_len_spec() == callback_info_len,
    {
        let mut buffer: Vec<Event> = Vec::new();
        let mut i: u64 = 0;
        while i < capacity
            invariant
                i <= capacity,
                buffer@.len() == i,
            decreases capacity - i,
        {
            buffer.push(Event::Empty);
            i = i + 1;
        }
        let r = EventQueue {
            head: 0,
            count: 0,
            seq_num: 0,
            callback_info_len,
            buffer,
            register: None,
            seqs: Ghost(Seq::empty()),
        };
        assert(r@ =~= Seq::<Event>::empty());
        r
    }

    /// Number of event slots.
    pub fn capacity(&self) -> (r: u64)
        requires
            self.wf(),
        ensures
            r == self.capacity_spec(),
    {
        self.buffer.len() as u64
    }

    /// Number of queued events.
    pub fn len(&self) -> (r: u64)
        ensures
            r == self@.len(),
    {
        self.count
    }

    /// The sequence counter.
    pub fn seq_num(&self) -> (r: u64)
        ensures
            r == self.seq_num_spec(),
    {
        self.seq_num
    }

    /// The callback information length the queue was made for.
    pub fn callback_info_len(&self) -> (r: u64)
        ensures
            r == self.callback_info_len_spec(),
    {
        self.callback_info_len
    }

    pub fn empty(&self) -> (r: bool)
        ensures
            r <==> self@.len() == 0,
    {
        self.count == 0
    }

    pub fn full(&self) -> (r: bool)
        requires
            self.wf(),
        ensures
            r <==> self@.len() == self.capacity_spec(),
    {
        self.count == self.buffer.len() as u64
    }

    /// Whether a push would succeed: there is a free slot and the sequence
    /// counter has room.
    pub open spec fn can_push(&self) -> bool {
        self@.len() < self.capacity_spec() && self.seq_num_spec() < MAX_SEQ_NUM
    }

    /// Appends an event at the back. Hands the event back if the queue is full
    /// or the sequence numbers are exhausted.
    pub fn push_back(&mut self, event: Event) -> (r: Result<(), Event>)
        requires
            old(self).wf(),
        ensures
            final(self).wf(),
            r is Ok <==> old(self).can_push(),
            r is Ok ==> final(self)@ == old(self)@.push(event) && final(self).seq_num_spec()
                == old(self).seq_num_spec() + 1 && final(self).event_seqs() == old(
                self,
            ).event_seqs().push(final(self).seq_num_spec()),
            r is Err ==> *final(self) == *old(self) && r == Err::<(), Event>(event),
            final(self).capacity_spec() == old(self).capacity_spec(),
            final(self).register_spec() == old(self).register_spec(),
            final(self).callback_info_len_spec() == old(self).callback_info_len_spec(),
    {
        let cap = self.buffer.len() as u64;
        if self.count == cap || self.seq_num >= MAX_SEQ_NUM {
            return Err(event);
        }
        let slot = if self.head >= cap - self.count {
            self.head - (cap - self.count)
        } else {
            self.head + self.count
        };
        let ghost old_view = self@;
        self.buffer.set(slot as usize, event);
        self.count = self.count + 1;
        self.seq_num = self.seq_num + 1;
        self.seqs = Ghost(self.seqs@.push(self.seq_num));
        proof {
            assert forall|i: int| 0 <= i < old_view.len() implies #[trigger] self@[i] == old_view[i] by {
                assert(ring_index(self.head as int, i, cap as int) != slot);
            }
            assert(self@ =~= old_view.push(event));
        }
        Ok(())
    }

    /// Takes the oldest event off the front, if there is one.
    pub fn pop_front(&mut self) -> (r: Option<Event>)
        requires
            old(self).wf(),
        ensures
            final(self).wf(),
            r is None <==> old(self)@.len() == 0,
            r is None ==> *final(self) == *old(self),
            r matches Some(e) ==> e == old(self)@[0] && final(self)@ == old(self)@.drop_first()
                && final(self).event_seqs() == old(self).event_seqs().drop_first(),
            final(self).seq_num_spec() == old(self).seq_num_spec(),
            final(self).capacity_spec() == old(self).capacity_spec(),
            final(self).register_spec() == old(self).register_spec(),
            final(self).callback_info_len_spec() == old(self).callback_info_len_spec(),
    {
        if self.count == 0 {
            return None;
        }
        let ghost old_view = self@;
        let value = self.buffer[self.head as usize];
        let cap = self.buffer.len() as u64;
        let next = self.head + 1;
        self.head = if next >= cap {
            next - cap
        } else {
            next
        };
        self.count = self.count - 1;
        self.seqs = Ghost(self.seqs@.drop_first());
        proof {
            assert(self@ =~= old_view.drop_first());
        }
        Some(value)
    }

    /// Takes up to `n` events off the front; returns how many were taken.
    pub fn pop_n(&mut self, n: u64) -> (r: u64)
        requires
            old(self).wf(),
        ensures
            final(self).wf(),
            r == if n < old(self)@.len() { n as int } else { old(self)@.len() as int },
            final(self)@ == old(self)@.skip(r as int),
            final(self).event_seqs() == old(self).event_seqs().skip(r as int),
            final(self).seq_num_spec() == old(self).seq_num_spec(),
            final(self).capacity_spec() == old(self).capacity_spec(),
            final(self).register_spec() == old(self).register_spec(),
            final(self).callback_info_len_spec() == old(self).callback_info_len_spec(),
    {
        let k = if n < self.count {
            n
        } else {
            self.count
        };
        if k == 0 {
            assert(self@.skip(0) =~= self@);
            assert(self.seqs@.skip(0) =~= self.seqs@);
            return 0;
        }
        let ghost old_view = self@;
        let cap = self.buffer.len() as u64;
        self.head = if self.head >= cap - k {
            self.head - (cap - k)
        } else {
            self.head + k
        };
        self.count = self.count - k;
        self.seqs = Ghost(self.seqs@.skip(k as int));
        proof {
            assert(self@ =~= old_view.skip(k as int));
        }
        k
    }

    /// The event at position `index` from the front, if there is one.
    pub fn peek_at(&self, index: u64) -> (r: Option<Event>)
        requires
            self.wf(),
        ensures
            index < self@.len() ==> r == Some(self@[index as int]),
            index >= self@.len() ==> r is None,
    {
        if index >= self.count {
            return None;
        }
        let cap = self.buffer.len() as u64;
        let slot = if self.head >= cap - index {
            self.head - (cap - index)
        } else {
            self.head + index
        };
        Some(self.buffer[slot as usize])
    }

    /// Takes the next sequence number and builds the order id of an order at
    /// `limit_price` on `side` with it.
    pub fn gen_order_id(&mut self, limit_price: u64, side: Side) -> (r: u128)
        requires
            old(self).wf(),
            old(self).seq_num_spec() < MAX_SEQ_NUM,
        ensures
            final(self).wf(),
            final(self).seq_num_spec() == old(self).seq_num_spec() + 1,
            r as int == order_id_spec(limit_price, side, final(self).seq_num_spec()),
            final(self)@ == old(self)@,
            final(self).event_seqs() == old(self).event_seqs(),
            final(self).capacity_spec() == old(self).capacity_spec(),
            final(self).register_spec() == old(self).register_spec(),
            final(self).callback_info_len_spec() == old(self).callback_info_len_spec(),
    {
        self.seq_num = self.seq_num + 1;
        gen_order_id(limit_price, side, self.seq_num)
    }

    /// Overwrites the register with `summary`.
    pub fn write_to_register(&mut self, summary: OrderSummary)
        ensures
            final(self).register_spec() == Some(summary),
            final(self)@ == old(self)@,
            final(self).event_seqs() == old(self).event_seqs(),
            final(self).seq_num_spec() == old(self).seq_num_spec(),
            final(self).capacity_spec() == old(self).capacity_spec(),
            final(self).callback_info_len_spec() == old(self).callback_info_len_spec(),
            old(self).wf() ==> final(self).wf(),
    {
        self.register = Some(summary);
    }

    /// Empties the register.
    pub fn clear_register(&mut self)
        ensures
            final(self).register_spec() is None,
            final(self)@ == old(self)@,
            final(self).event_seqs() == old(self).event_seqs(),
            final(self).seq_num_spec() == old(self).seq_num_spec(),
            final(self).capacity_spec() == old(self).capacity_spec(),
            final(self).callback_info_len_spec() == old(self).callback_info_len_spec(),
            old(self).wf() ==> final(self).wf(),
    {
        self.register = None;
    }

    /// Reads the register.
    pub fn read_register(&self) -> (r: Option<OrderSummary>)
        ensures
            r == self.register_spec(),
    {
        self.register
    }
}

impl EventQueue {
    /// `self` and `other` hold the same events, counters and register.
    pub closed spec fn same(&self, other: &EventQueue) -> bool {
        &&& self.head == other.head
        &&& self.count == other.count
        &&& self.seq_num == other.seq_num
        &&& self.callback_info_len == other.callback_info_len
        &&& self.buffer@ == other.buffer@
        &&& self.register == other.register
        &&& self.seqs == other.seqs
    }

    /// Queues holding the same state look the same through every accessor.
    pub proof fn lemma_same(&self, other: &EventQueue)
        requires
            self.same(other),
        ensures
            self.wf() == other.wf(),
            self@ == other@,
            self.seq_num_spec() == other.seq_num_spec(),
            self.event_seqs() == other.event_seqs(),
            self.capacity_spec() == other.capacity_spec(),
            self.register_spec() == other.register_spec(),
            self.callback_info_len_spec() == other.callback_info_len_spec(),
    {
        assert(self@ =~= other@);
    }

    pub proof fn lemma_same_refl(&self)
        ensures
            self.same(self),
    {
    }

    /// A slot-for-slot copy.
    pub fn duplicate(&self) -> (r: EventQueue)
        ensures
            r.same(self),
    {
        let mut buffer: Vec<Event> = Vec::new();
        let mut i: usize = 0;
        while i < self.buffer.len()
            invariant
                i <= self.buffer@.len(),
                buffer@ == self.buffer@.subrange(0, i as int),
            decreases self.buffer@.len() - i,
        {
            buffer.push(self.buffer[i]);
            i = i + 1;
        }
        assert(buffer@ =~= self.buffer@);
        EventQueue {
            head: self.head,
            count: self.count,
            seq_num: self.seq_num,
            callback_info_len: self.callback_info_len,
            buffer,
            register: self.register,
            seqs: self.seqs,
        }
    }
}

/// What comes out of the queue is what went in, in the same order: pushing an
/// event onto a queue of `n` events and then popping `n + 1` yields that event last.
pub proof fn lemma_fifo(q: Seq<Event>, e: Event)
    ensures
        q.push(e)[q.len() as int] == e,
        forall|i: int| 0 <= i < q.len() ==> #[trigger] q.push(e)[i] == q[i],
        q.push(e).drop_first() == if q.len() == 0 { Seq::<Event>::empty() } else { q.drop_first().push(e) },
        q.push(e).skip(q.len() as int) == seq![e],
{
    assert(q.push(e).skip(q.len() as int) =~= seq![e]);
    if q.len() == 0 {
        assert(q.push(e).drop_first() =~= Seq::<Event>::empty());
    } else {
        assert(q.push(e).drop_first() =~= q.drop_first().push(e));
    }
}

} // verus!
