//! Multi-producer/single-consumer ring buffer.
//!
//! Producers coordinate through a reservation/publication split: a producer
//! first claims a slot by advancing `reserved` (a compare-and-swap in the
//! concurrent protocol, whose failure witness refreshes the producer's local
//! cache), writes the claimed cell — claims are disjoint, so writes never
//! race — and only then advances the published `tail`, once every smaller
//! position is complete.  The consumer side is the plain single-reader
//! algorithm: it owns `head` outright and caches the last `tail` it loaded.
//!
//! At every observable point the two producer counters agree; the split is
//! visible inside a `send`, between the claim and the publication.

use vstd::prelude::*;

verus! {

use crate::ring::{empty_cells, lemma_slot_injective, take_cell};
use vstd::seq_lib::lemma_multiset_commutative;

/// The shared core: slot array, consumer counter and producer counter pair.
pub struct RingCore<T> {
    buf: Vec<Option<T>>,
    head: usize,
    tail: usize,
    reserved: usize,
    hist: Ghost<Seq<T>>,
}

impl<T> RingCore<T> {
    /// Number of slots; fixed at construction.
    pub closed spec fn capacity(&self) -> nat {
        self.buf@.len()
    }

    /// Every value ever sent, in publication order.
    pub closed spec fn sent(&self) -> Seq<T> {
        self.hist@
    }

    /// Every value already received, in the order it was received.
    pub closed spec fn received(&self) -> Seq<T> {
        self.hist@.take(self.head as int)
    }

    /// Counters stay within one lap, every published claim is complete
    /// (`reserved == tail` between operations), and each in-flight
    /// position's slot holds exactly its value.
    pub closed spec fn wf(&self) -> bool {
        let cap = self.buf@.len() as int;
        &&& self.buf@.len() >= 1
        &&& self.head <= self.tail
        &&& self.tail - self.head <= cap
        &&& self.reserved == self.tail
        &&& self.hist@.len() == self.tail
        &&& forall|p: int|
            self.head <= p < self.tail ==> #[trigger] self.buf@[p % cap] == Some(self.hist@[p])
        &&& forall|p: int|
            self.tail <= p < self.head + cap ==> #[trigger] self.buf@[p % cap] is None
    }

    /// Machine limit: room for the counters to advance one more lap.
    pub open spec fn headroom(&self) -> bool {
        self.received().len() + self.capacity() < usize::MAX
    }
}

impl<T> View for RingCore<T> {
    type V = Seq<T>;

    /// The values in flight: sent but not yet received, oldest first.
    closed spec fn view(&self) -> Seq<T> {
        self.hist@.subrange(self.head as int, self.tail as int)
    }
}

/// A producer handle.  Any number of clones may feed one core; each carries
/// its own cached view of the producer counters.
#[derive(Clone, Copy)]
pub struct Sender {
    local_reserved: usize,
    local_tail: usize,
}

/// The consumer handle.  Exactly one drains the core; it owns `head` (its
/// cache of it is exact) and caches the last published `tail` it loaded.
pub struct Receiver {
    local_tail: usize,
    local_head: usize,
}

impl Sender {
    /// The caches never run ahead of the shared counters.
    pub closed spec fn wf_for<T>(&self, q: RingCore<T>) -> bool {
        &&& self.local_reserved <= q.sent().len()
        &&& self.local_tail <= q.sent().len()
    }

    fn new() -> (s: Self)
        ensures
            s.local_reserved == 0,
            s.local_tail == 0,
    {
        Sender { local_reserved: 0, local_tail: 0 }
    }

    /// Claims a slot, writes it, and publishes it.  The free slot a
    /// concurrent producer would spin for is a precondition here.
    pub fn send<T>(&mut self, q: &mut RingCore<T>, value: T)
        requires
            old(q).wf(),
            old(q).headroom(),
            old(q)@.len() < old(q).capacity(),
            old(self).wf_for(*old(q)),
        ensures
            final(q).wf(),
            final(q).headroom() == old(q).headroom(),
            final(q).capacity() == old(q).capacity(),
            final(q)@ == old(q)@.push(value),
            final(q).sent() == old(q).sent().push(value),
            final(q).received() == old(q).received(),
            final(self).wf_for(*final(q)),
            forall|s: Sender| s.wf_for(*old(q)) ==> #[trigger] s.wf_for(*final(q)),
            forall|rx: Receiver| rx.wf_for(*old(q)) ==> #[trigger] rx.wf_for(*final(q)),
    {
        // Reconcile the local reservation cache; in the concurrent protocol
        // a failed compare-and-swap hands back this witness value.
        if self.local_reserved != q.reserved {
            self.local_reserved = q.reserved;
        }
        // Claim: advancing `reserved` grants this producer the exclusive
        // right to write slot `local_reserved % capacity`.
        let new_tail = self.local_reserved + 1;
        q.reserved = new_tail;
        // Write the claimed cell; claims are disjoint, so nothing races.
        let cap = q.buf.len();
        let slot = (new_tail - 1) % cap;
        q.buf[slot] = Some(value);
        q.hist = Ghost(q.hist@.push(value));
        // Publish: `tail` may only pass positions that are fully written;
        // here the claim just made is the only outstanding one.
        q.tail = new_tail;
        self.local_reserved = new_tail;
        self.local_tail = new_tail;
        proof {
            let capi = cap as int;
            let h = old(q).head as int;
            let t = old(q).tail as int;
            assert forall|p: int| h <= p < t + 1 implies #[trigger] q.buf@[p % capi]
                == Some(q.hist@[p]) by {
                if p < t {
                    if p % capi == t % capi {
                        lemma_slot_injective(p, t, h, capi);
                    }
                    assert(old(q).buf@[p % capi] == Some(old(q).hist@[p]));
                }
            }
            assert forall|p: int| t + 1 <= p < h + capi implies #[trigger] q.buf@[p % capi]
                is None by {
                if p % capi == t % capi {
                    lemma_slot_injective(p, t, h, capi);
                }
                assert(old(q).buf@[p % capi] is None);
            }
            assert(q@ =~= old(q)@.push(value));
            assert(q.received() =~= old(q).received());
        }
    }

    /// Non-blocking send: on a full core the value comes straight back and
    /// the core is left unchanged (only this handle's cache may refresh).
    pub fn try_send<T>(&mut self, q: &mut RingCore<T>, value: T) -> (r: Result<(), T>)
        requires
            old(q).wf(),
            old(q).headroom(),
            old(self).wf_for(*old(q)),
        ensures
            final(q).wf(),
            final(q).headroom() == old(q).headroom(),
            final(q).capacity() == old(q).capacity(),
            final(self).wf_for(*final(q)),
            old(q)@.len() < old(q).capacity() ==> {
                &&& r == Ok::<(), T>(())
                &&& final(q)@ == old(q)@.push(value)
                &&& final(q).sent() == old(q).sent().push(value)
                &&& final(q).received() == old(q).received()
            },
            old(q)@.len() == old(q).capacity() ==> {
                &&& r == Err::<(), T>(value)
                &&& *final(q) == *old(q)
            },
            forall|s: Sender| s.wf_for(*old(q)) ==> #[trigger] s.wf_for(*final(q)),
            forall|rx: Receiver| rx.wf_for(*old(q)) ==> #[trigger] rx.wf_for(*final(q)),
    {
        // Reconcile the cache, then test for room; a full core fails fast
        // and returns the value to the caller.
        if self.local_reserved != q.reserved {
            self.local_reserved = q.reserved;
        }
        let new_tail = self.local_reserved + 1;
        let cap = q.buf.len();
        if new_tail > q.head + cap {
            return Err(value);
        }
        self.send(q, value);
        Ok(())
    }
}

impl Receiver {
    /// The `head` cache is exact (this is its only writer); the `tail`
    /// cache never runs ahead of the shared counter.
    pub closed spec fn wf_for<T>(&self, q: RingCore<T>) -> bool {
        &&& self.local_head == q.received().len()
        &&& self.local_tail <= q.sent().len()
        &&& self.local_head <= self.local_tail
    }

    fn new() -> (rx: Self)
        ensures
            rx.local_tail == 0,
            rx.local_head == 0,
    {
        Receiver { local_tail: 0, local_head: 0 }
    }

    /// Takes the oldest in-flight value.  The pending value a concurrent
    /// consumer would spin for is a precondition here.
    pub fn recv<T>(&mut self, q: &mut RingCore<T>) -> (r: T)
        requires
            old(q).wf(),
            old(q)@.len() > 0,
            old(self).wf_for(*old(q)),
        ensures
            final(q).wf(),
            final(q).capacity() == old(q).capacity(),
            r == old(q)@[0],
            final(q)@ == old(q)@.drop_first(),
            final(q).sent() == old(q).sent(),
            final(q).received() == old(q).received().push(r),
            final(self).wf_for(*final(q)),
            forall|s: Sender| s.wf_for(*old(q)) ==> #[trigger] s.wf_for(*final(q)),
    {
        // An exhausted `tail` cache is refreshed from the shared counter;
        // with a value pending, the reload is enough.
        if self.local_head == self.local_tail {
            self.load_tail(q);
        }
        let cap = q.buf.len();
        let slot = self.local_head % cap;
        proof {
            let capi = cap as int;
            let h = old(q).head as int;
            assert(old(q).buf@[h % capi] == Some(old(q).hist@[h]));
        }
        let taken = take_cell(&mut q.buf, slot);
        let r = match taken {
            Some(v) => v,
            None => vstd::pervasive::unreached(),
        };
        let new_head = self.local_head + 1;
        self.store_head(q, new_head);
        self.local_head = new_head;
        proof {
            let capi = cap as int;
            let h = old(q).head as int;
            let t = old(q).tail as int;
            assert forall|p: int| h + 1 <= p < t implies #[trigger] q.buf@[p % capi]
                == Some(q.hist@[p]) by {
                if p % capi == h % capi {
                    lemma_slot_injective(p, h, h, capi);
                }
                assert(old(q).buf@[p % capi] == Some(old(q).hist@[p]));
            }
            assert forall|p: int| t <= p < h + 1 + capi implies #[trigger] q.buf@[p % capi]
                is None by {
                if p < h + capi {
                    if p % capi == h % capi {
                        lemma_slot_injective(p, h, h, capi);
                    }
                    assert(old(q).buf@[p % capi] is None);
                } else {
                    vstd::arithmetic::div_mod::lemma_mod_multiples_vanish(1, h, capi);
                    assert(p == h + capi);
                    assert(p % capi == h % capi);
                }
            }
            assert(q@ =~= old(q)@.drop_first());
            assert(q.received() =~= old(q).received().push(r));
        }
        r
    }

    /// Non-blocking receive: on an empty core the answer is `None` and the
    /// core is left unchanged, however often it is asked.
    pub fn try_recv<T>(&mut self, q: &mut RingCore<T>) -> (r: Option<T>)
        requires
            old(q).wf(),
            old(self).wf_for(*old(q)),
        ensures
            final(q).wf(),
            final(q).capacity() == old(q).capacity(),
            final(self).wf_for(*final(q)),
            old(q)@.len() == 0 ==> r is None && *final(q) == *old(q),
            old(q)@.len() > 0 ==> {
                &&& r == Some(old(q)@[0])
                &&& final(q)@ == old(q)@.drop_first()
                &&& final(q).sent() == old(q).sent()
                &&& final(q).received() == old(q).received().push(old(q)@[0])
            },
            forall|s: Sender| s.wf_for(*old(q)) ==> #[trigger] s.wf_for(*final(q)),
    {
        if self.local_head == self.local_tail {
            self.load_tail(q);
            if self.local_head == self.local_tail {
                return None;
            }
        }
        Some(self.recv(q))
    }

    /// Publishes the new consumer position (a release store on `head` in
    /// the concurrent protocol).
    fn store_head<T>(&self, q: &mut RingCore<T>, value: usize)
        ensures
            final(q).head == value,
            final(q).buf == old(q).buf,
            final(q).tail == old(q).tail,
            final(q).reserved == old(q).reserved,
            final(q).hist == old(q).hist,
    {
        q.head = value;
    }

    /// Refreshes the cached `tail` (an acquire load in the concurrent
    /// protocol).
    fn load_tail<T>(&mut self, q: &RingCore<T>)
        ensures
            final(self).local_tail == q.tail,
            final(self).local_head == old(self).local_head,
    {
        self.local_tail = q.tail;
    }
}

/// One multi-producer/single-consumer channel: a producer handle, the
/// consumer handle, and the core they share.
pub fn channel<T>(capacity: usize) -> (r: (Sender, Receiver, RingCore<T>))
    requires
        capacity >= 1,
        capacity < usize::MAX,
    ensures
        r.2.wf(),
        r.2.headroom(),
        r.2.capacity() == capacity,
        r.2@ == Seq::<T>::empty(),
        r.2.sent() == Seq::<T>::empty(),
        r.2.received() == Seq::<T>::empty(),
        r.0.wf_for(r.2),
        r.1.wf_for(r.2),
{
    let q = RingCore {
        buf: empty_cells(capacity),
        head: 0,
        tail: 0,
        reserved: 0,
        hist: Ghost(Seq::empty()),
    };
    proof {
        assert(q@ =~= Seq::<T>::empty());
        assert(q.received() =~= Seq::<T>::empty());
    }
    (Sender::new(), Receiver::new(), q)
}

/// No loss, no duplication: the sent history is exactly the received prefix
/// followed by the in-flight window, so as a multiset nothing is lost and
/// nothing is delivered twice.
pub proof fn lemma_conservation<T>(q: RingCore<T>)
    requires
        q.wf(),
    ensures
        q.sent() == q.received() + q@,
        q.sent().to_multiset() == q.received().to_multiset().add(q@.to_multiset()),
{
    assert(q.sent() =~= q.received() + q@);
    lemma_multiset_commutative(q.received(), q@);
}

/// First-in, first-out: what has been received is exactly the oldest prefix
/// of what was published, in publication order.
pub proof fn lemma_fifo<T>(q: RingCore<T>)
    requires
        q.wf(),
    ensures
        q.received().len() <= q.sent().len(),
        q.received() == q.sent().take(q.received().len() as int),
{
    assert(q.received() =~= q.sent().take(q.received().len() as int));
}

/// Bounded capacity: at no observable point are more than `capacity` values
/// in flight.
pub proof fn lemma_bounded_capacity<T>(q: RingCore<T>)
    requires
        q.wf(),
    ensures
        q@.len() == q.sent().len() - q.received().len(),
        q@.len() <= q.capacity(),
{
}

} // verus!
