//! Single-producer/single-consumer ring buffer: the cheapest protocol of the
//! family.  One `head` counter is advanced only by the consumer, one `tail`
//! counter only by the producer; no reservation step is needed because each
//! counter has a single writer.
//!
//! Counters count logical positions and never wrap; position `p` lives in
//! slot `p % capacity`.  The ghost history records every value ever sent, so
//! the contracts can speak of the sent sequence, the received prefix and the
//! in-flight window (`view`) directly.

use vstd::prelude::*;

verus! {

use crate::ring::{empty_cells, lemma_slot_injective, take_cell};
use vstd::seq_lib::lemma_multiset_commutative;

/// One channel core: the slot array plus the two coordination counters.
pub struct RingCore<T> {
    buf: Vec<Option<T>>,
    head: usize,
    tail: usize,
    hist: Ghost<Seq<T>>,
}

impl<T> RingCore<T> {
    /// Number of slots; fixed at construction.
    pub closed spec fn capacity(&self) -> nat {
        self.buf@.len()
    }

    /// Every value ever sent, in the order it was sent.
    pub closed spec fn sent(&self) -> Seq<T> {
        self.hist@
    }

    /// Every value already received, in the order it was received.
    pub closed spec fn received(&self) -> Seq<T> {
        self.hist@.take(self.head as int)
    }

    /// Counters stay within one lap of each other, the history matches the
    /// tail, and each in-flight position's slot holds exactly its value.
    pub closed spec fn wf(&self) -> bool {
        let cap = self.buf@.len() as int;
        &&& self.buf@.len() >= 1
        &&& self.head <= self.tail
        &&& self.tail - self.head <= cap
        &&& self.hist@.len() == self.tail
        &&& forall|p: int|
            self.head <= p < self.tail ==> #[trigger] self.buf@[p % cap] == Some(self.hist@[p])
        &&& forall|p: int|
            self.tail <= p < self.head + cap ==> #[trigger] self.buf@[p % cap] is None
    }

    /// Machine limit: room for the counters to advance one more lap.
    pub open spec fn headroom(&self) -> bool {
        self.received().len() + self.capacity() < usize::MAX
    }
}

impl<T> View for RingCore<T> {
    type V = Seq<T>;

    /// The values in flight: sent but not yet received, oldest first.
    closed spec fn view(&self) -> Seq<T> {
        self.hist@.subrange(self.head as int, self.tail as int)
    }
}

impl<T> RingCore<T> {
    /// A fresh, empty core of `capacity` slots.
    pub fn with_size(capacity: usize) -> (q: Self)
        requires
            capacity >= 1,
            capacity < usize::MAX,
        ensures
            q.wf(),
            q.headroom(),
            q.capacity() == capacity,
            q@ == Seq::<T>::empty(),
            q.sent() == Seq::<T>::empty(),
            q.received() == Seq::<T>::empty(),
    {
        let q = RingCore {
            buf: empty_cells(capacity),
            head: 0,
            tail: 0,
            hist: Ghost(Seq::empty()),
        };
        proof {
            assert(q@ =~= Seq::<T>::empty());
            assert(q.received() =~= Seq::<T>::empty());
        }
        q
    }

    /// How many values are in flight.
    pub fn len(&self) -> (n: usize)
        requires
            self.wf(),
        ensures
            n == self@.len(),
    {
        self.tail - self.head
    }

    /// Writes `value` into the producer's slot and publishes it by advancing
    /// `tail`.  The free slot a concurrent producer would spin for is a
    /// precondition here.
    pub fn send(&mut self, value: T)
        requires
            old(self).wf(),
            old(self).headroom(),
            old(self)@.len() < old(self).capacity(),
        ensures
            final(self).wf(),
            final(self).headroom() == old(self).headroom(),
            final(self).capacity() == old(self).capacity(),
            final(self)@ == old(self)@.push(value),
            final(self).sent() == old(self).sent().push(value),
            final(self).received() == old(self).received(),
    {
        let cap = self.buf.len();
        let slot = self.tail % cap;
        self.buf[slot] = Some(value);
        self.hist = Ghost(self.hist@.push(value));
        self.tail = self.tail + 1;
        proof {
            let capi = cap as int;
            let h = old(self).head as int;
            let t = old(self).tail as int;
            assert forall|p: int| h <= p < t + 1 implies #[trigger] self.buf@[p % capi]
                == Some(self.hist@[p]) by {
                if p < t {
                    if p % capi == t % capi {
                        lemma_slot_injective(p, t, h, capi);
                    }
                    assert(old(self).buf@[p % capi] == Some(old(self).hist@[p]));
                }
            }
            assert forall|p: int| t + 1 <= p < h + capi implies #[trigger] self.buf@[p % capi]
                is None by {
                if p % capi == t % capi {
                    lemma_slot_injective(p, t, h, capi);
                }
                assert(old(self).buf@[p % capi] is None);
            }
            assert(self@ =~= old(self)@.push(value));
            assert(self.received() =~= old(self).received());
        }
    }

    /// Non-blocking send: on a full core the value comes straight back and
    /// nothing changes.
    pub fn try_send(&mut self, value: T) -> (r: Result<(), T>)
        requires
            old(self).wf(),
            old(self).headroom(),
        ensures
            final(self).wf(),
            final(self).headroom() == old(self).headroom(),
            final(self).capacity() == old(self).capacity(),
            old(self)@.len() < old(self).capacity() ==> {
                &&& r == Ok::<(), T>(())
                &&& final(self)@ == old(self)@.push(value)
                &&& final(self).sent() == old(self).sent().push(value)
                &&& final(self).received() == old(self).received()
            },
            old(self)@.len() == old(self).capacity() ==> {
                &&& r == Err::<(), T>(value)
                &&& *final(self) == *old(self)
            },
    {
        if self.tail - self.head == self.buf.len() {
            return Err(value);
        }
        self.send(value);
        Ok(())
    }

    /// Takes the oldest in-flight value and frees its slot by advancing
    /// `head`.  The pending value a concurrent consumer would spin for is a
    /// precondition here.
    pub fn recv(&mut self) -> (r: T)
        requires
            old(self).wf(),
            old(self)@.len() > 0,
        ensures
            final(self).wf(),
            final(self).capacity() == old(self).capacity(),
            r == old(self)@[0],
            final(self)@ == old(self)@.drop_first(),
            final(self).sent() == old(self).sent(),
            final(self).received() == old(self).received().push(r),
    {
        let cap = self.buf.len();
        let slot = self.head % cap;
        proof {
            let capi = cap as int;
            let h = old(self).head as int;
            assert(old(self).buf@[h % capi] == Some(old(self).hist@[h]));
        }
        let taken = take_cell(&mut self.buf, slot);
        let r = match taken {
            Some(v) => v,
            None => vstd::pervasive::unreached(),
        };
        self.head = self.head + 1;
        proof {
            let capi = cap as int;
            let h = old(self).head as int;
            let t = old(self).tail as int;
            assert forall|p: int| h + 1 <= p < t implies #[trigger] self.buf@[p % capi]
                == Some(self.hist@[p]) by {
                if p % capi == h % capi {
                    lemma_slot_injective(p, h, h, capi);
                }
                assert(old(self).buf@[p % capi] == Some(old(self).hist@[p]));
            }
            assert forall|p: int| t <= p < h + 1 + capi implies #[trigger] self.buf@[p % capi]
                is None by {
                if p < h + capi {
                    if p % capi == h % capi {
                        lemma_slot_injective(p, h, h, capi);
                    }
                    assert(old(self).buf@[p % capi] is None);
                } else {
                    vstd::arithmetic::div_mod::lemma_mod_multiples_vanish(1, h, capi);
                    assert(p == h + capi);
                    assert(p % capi == h % capi);
                }
            }
            assert(self@ =~= old(self)@.drop_first());
            assert(self.received() =~= old(self).received().push(r));
        }
        r
    }

    /// Non-blocking receive: on an empty core the answer is `None` and
    /// nothing changes, however often it is asked.
    pub fn try_recv(&mut self) -> (r: Option<T>)
        requires
            old(self).wf(),
        ensures
            final(self).wf(),
            final(self).capacity() == old(self).capacity(),
            old(self)@.len() == 0 ==> r is None && *final(self) == *old(self),
            old(self)@.len() > 0 ==> {
                &&& r == Some(old(self)@[0])
                &&& final(self)@ == old(self)@.drop_first()
                &&& final(self).sent() == old(self).sent()
                &&& final(self).received() == old(self).received().push(old(self)@[0])
            },
    {
        if self.head == self.tail {
            return None;
        }
        Some(self.recv())
    }
}

/// No loss, no duplication: the sent history is exactly the received prefix
/// followed by the in-flight window, so as a multiset nothing is lost and
/// nothing is delivered twice.
pub proof fn lemma_conservation<T>(q: RingCore<T>)
    requires
        q.wf(),
    ensures
        q.sent() == q.received() + q@,
        q.sent().to_multiset() == q.received().to_multiset().add(q@.to_multiset()),
{
    assert(q.sent() =~= q.received() + q@);
    lemma_multiset_commutative(q.received(), q@);
}

/// First-in, first-out: what has been received is exactly the oldest prefix
/// of what was sent, in sending order.
pub proof fn lemma_fifo<T>(q: RingCore<T>)
    requires
        q.wf(),
    ensures
        q.received().len() <= q.sent().len(),
        q.received() == q.sent().take(q.received().len() as int),
{
    assert(q.received() =~= q.sent().take(q.received().len() as int));
}

/// Bounded capacity: at no observable point are more than `capacity` values
/// in flight.
pub proof fn lemma_bounded_capacity<T>(q: RingCore<T>)
    requires
        q.wf(),
    ensures
        q@.len() == q.sent().len() - q.received().len(),
        q@.len() <= q.capacity(),
{
}

} // verus!
