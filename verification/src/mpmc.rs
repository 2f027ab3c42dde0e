//! Multi-producer/multi-consumer ring buffer.
//!
//! With many writers on both ends, a plain head/tail boundary cannot say
//! "this cell is safely readable" across laps.  Instead both counters are
//! claim tickets (fetch-and-increment in the concurrent protocol): each call
//! claims a unique, monotonically increasing position, and a per-cell
//! **epoch** carries the hand-off.  A producer that claimed position `p`
//! finds the cell at `p % capacity` carrying epoch `p` (the previous lap has
//! drained it), writes the value, and stores epoch `p + 1` — consumable.  A
//! consumer that claimed `p` finds epoch `p + 1`, takes the value, and
//! stores epoch `p + capacity` — free for the lap that will claim this slot
//! next.  The non-blocking calls probe the epoch of the next position once
//! and give up without claiming when the expected marker is absent.

use vstd::prelude::*;

verus! {

use crate::ring::{empty_cells, lemma_slot_injective, take_cell};
use vstd::arithmetic::div_mod::{lemma_mod_multiples_vanish, lemma_small_mod};
use vstd::seq_lib::lemma_multiset_commutative;

/// The shared core: slot array, per-cell epochs, and the two claim counters.
pub struct RingCore<T> {
    buf: Vec<Option<T>>,
    epochs: Vec<usize>,
    head: usize,
    tail: usize,
    hist: Ghost<Seq<T>>,
}

impl<T> RingCore<T> {
    /// Number of slots; fixed at construction.
    pub closed spec fn capacity(&self) -> nat {
        self.buf@.len()
    }

    /// Every value ever sent, in claim order.
    pub closed spec fn sent(&self) -> Seq<T> {
        self.hist@
    }

    /// Every value already received, in claim order.
    pub closed spec fn received(&self) -> Seq<T> {
        self.hist@.take(self.head as int)
    }

    /// Counters stay within one lap of each other, the history matches the
    /// tail, and each cell's epoch records exactly the hand-off state of the
    /// one position of the current lap window that maps to it.
    pub closed spec fn wf(&self) -> bool {
        let cap = self.buf@.len() as int;
        &&& self.buf@.len() >= 1
        &&& self.epochs@.len() == self.buf@.len()
        &&& self.head <= self.tail
        &&& self.tail - self.head <= cap
        &&& self.hist@.len() == self.tail
        &&& forall|p: int|
            self.head <= p < self.tail ==> #[trigger] self.buf@[p % cap] == Some(self.hist@[p])
        &&& forall|p: int|
            self.head <= p < self.tail ==> #[trigger] self.epochs@[p % cap] == p + 1
        &&& forall|p: int|
            self.tail <= p < self.head + cap ==> #[trigger] self.buf@[p % cap] is None
        &&& forall|p: int|
            self.tail <= p < self.head + cap ==> #[trigger] self.epochs@[p % cap] == p
    }

    /// Machine limit: room for the counters and epochs to advance one more
    /// lap.
    pub open spec fn headroom(&self) -> bool {
        self.received().len() + self.capacity() < usize::MAX
    }
}

impl<T> View for RingCore<T> {
    type V = Seq<T>;

    /// The values in flight: sent but not yet received, oldest first.
    closed spec fn view(&self) -> Seq<T> {
        self.hist@.subrange(self.head as int, self.tail as int)
    }
}

/// A producer handle; clones freely, one per producing party.
#[derive(Clone, Copy)]
pub struct Sender {
    local_tail: usize,
}

/// A consumer handle; clones freely, one per consuming party.
#[derive(Clone, Copy)]
pub struct Receiver {
    local_head: usize,
}

impl Sender {
    /// The position this handle last claimed plus one; a write-only cache
    /// kept for the next call's fast path.
    pub closed spec fn cached_tail(&self) -> nat {
        self.local_tail as nat
    }

    fn new() -> (s: Self)
        ensures
            s.local_tail == 0,
    {
        Sender { local_tail: 0 }
    }

    /// Claims the next position, writes its cell, and publishes it by
    /// bumping the cell's epoch to the consumable marker.  The drained cell
    /// a concurrent producer would spin for is a precondition here.
    pub fn send<T>(&mut self, q: &mut RingCore<T>, value: T)
        requires
            old(q).wf(),
            old(q).headroom(),
            old(q)@.len() < old(q).capacity(),
        ensures
            final(q).wf(),
            final(q).headroom() == old(q).headroom(),
            final(q).capacity() == old(q).capacity(),
            final(q)@ == old(q)@.push(value),
            final(q).sent() == old(q).sent().push(value),
            final(q).received() == old(q).received(),
            final(self).cached_tail() == old(q).sent().len() + 1,
    {
        let cap = q.buf.len();
        // Claim a unique position.
        let p = q.tail;
        q.tail = p + 1;
        self.local_tail = p + 1;
        let slot = p % cap;
        // The cell's epoch equals the claimed position: the previous lap
        // has fully drained this slot.
        proof {
            let capi = cap as int;
            assert(old(q).epochs@[(old(q).tail as int) % capi] == old(q).tail);
        }
        q.buf[slot] = Some(value);
        // Publish: consumable at lap boundary `p + 1`.
        q.epochs[slot] = p + 1;
        q.hist = Ghost(q.hist@.push(value));
        proof {
            let capi = cap as int;
            let h = old(q).head as int;
            let t = old(q).tail as int;
            assert forall|p2: int| h <= p2 < t + 1 implies #[trigger] q.buf@[p2 % capi]
                == Some(q.hist@[p2]) by {
                if p2 < t {
                    if p2 % capi == t % capi {
                        lemma_slot_injective(p2, t, h, capi);
                    }
                    assert(old(q).buf@[p2 % capi] == Some(old(q).hist@[p2]));
                }
            }
            assert forall|p2: int| h <= p2 < t + 1 implies #[trigger] q.epochs@[p2 % capi]
                == p2 + 1 by {
                if p2 < t {
                    if p2 % capi == t % capi {
                        lemma_slot_injective(p2, t, h, capi);
                    }
                    assert(old(q).epochs@[p2 % capi] == p2 + 1);
                }
            }
            assert forall|p2: int| t + 1 <= p2 < h + capi implies #[trigger] q.buf@[p2 % capi]
                is None by {
                if p2 % capi == t % capi {
                    lemma_slot_injective(p2, t, h, capi);
                }
                assert(old(q).buf@[p2 % capi] is None);
            }
            assert forall|p2: int| t + 1 <= p2 < h + capi implies #[trigger] q.epochs@[p2 % capi]
                == p2 by {
                if p2 % capi == t % capi {
                    lemma_slot_injective(p2, t, h, capi);
                }
                assert(old(q).epochs@[p2 % capi] == p2);
            }
            assert(q@ =~= old(q)@.push(value));
            assert(q.received() =~= old(q).received());
        }
    }

    /// Non-blocking send.  It probes the epoch of the next position once:
    /// when the previous lap has not drained that cell — the ring is full —
    /// the value comes straight back and nothing changes.
    ///
    /// The probe can only tell a full ring from a drained cell when the
    /// freed marker of the previous lap (`p + capacity`) differs from the
    /// consumable marker (`p + 1`), hence at least two slots.
    pub fn try_send<T>(&mut self, q: &mut RingCore<T>, value: T) -> (r: Result<(), T>)
        requires
            old(q).wf(),
            old(q).headroom(),
            old(q).capacity() >= 2,
        ensures
            final(q).wf(),
            final(q).headroom() == old(q).headroom(),
            final(q).capacity() == old(q).capacity(),
            old(q)@.len() < old(q).capacity() ==> {
                &&& r == Ok::<(), T>(())
                &&& final(q)@ == old(q)@.push(value)
                &&& final(q).sent() == old(q).sent().push(value)
                &&& final(q).received() == old(q).received()
            },
            old(q)@.len() == old(q).capacity() ==> {
                &&& r == Err::<(), T>(value)
                &&& *final(q) == *old(q)
                &&& *final(self) == *old(self)
            },
    {
        let cap = q.buf.len();
        let p = q.tail;
        let slot = p % cap;
        proof {
            let capi = cap as int;
            let h = old(q).head as int;
            let t = old(q).tail as int;
            if t - h == capi {
                lemma_mod_multiples_vanish(1, h, capi);
                assert(t % capi == h % capi);
                assert(old(q).epochs@[h % capi] == h + 1);
            } else {
                assert(old(q).epochs@[t % capi] == t);
            }
        }
        if q.epochs[slot] != p {
            return Err(value);
        }
        self.send(q, value);
        Ok(())
    }
}

impl Receiver {
    /// The position this handle last claimed plus one; a write-only cache
    /// kept for the next call's fast path.
    pub closed spec fn cached_head(&self) -> nat {
        self.local_head as nat
    }

    fn new() -> (rx: Self)
        ensures
            rx.local_head == 0,
    {
        Receiver { local_head: 0 }
    }

    /// Claims the next position, takes its value, and frees the cell by
    /// bumping its epoch to the marker of the lap that will claim it next.
    /// The consumable cell a concurrent consumer would spin for is a
    /// precondition here.
    pub fn recv<T>(&mut self, q: &mut RingCore<T>) -> (r: T)
        requires
            old(q).wf(),
            old(q).headroom(),
            old(q)@.len() > 0,
        ensures
            final(q).wf(),
            final(q).capacity() == old(q).capacity(),
            r == old(q)@[0],
            final(q)@ == old(q)@.drop_first(),
            final(q).sent() == old(q).sent(),
            final(q).received() == old(q).received().push(r),
            final(self).cached_head() == old(q).received().len() + 1,
    {
        let cap = q.buf.len();
        // Claim a unique position.
        let p = q.head;
        q.head = p + 1;
        self.local_head = p + 1;
        let slot = p % cap;
        // The cell's epoch carries the consumable marker for this claim.
        proof {
            let capi = cap as int;
            let h = old(q).head as int;
            assert(old(q).epochs@[h % capi] == h + 1);
            assert(old(q).buf@[h % capi] == Some(old(q).hist@[h]));
        }
        let taken = take_cell(&mut q.buf, slot);
        let r = match taken {
            Some(v) => v,
            None => vstd::pervasive::unreached(),
        };
        // Free: the lap that claims this slot again does so at position
        // `p + capacity`.
        q.epochs[slot] = p + cap;
        proof {
            let capi = cap as int;
            let h = old(q).head as int;
            let t = old(q).tail as int;
            assert forall|p2: int| h + 1 <= p2 < t implies #[trigger] q.buf@[p2 % capi]
                == Some(q.hist@[p2]) by {
                if p2 % capi == h % capi {
                    lemma_slot_injective(p2, h, h, capi);
                }
                assert(old(q).buf@[p2 % capi] == Some(old(q).hist@[p2]));
            }
            assert forall|p2: int| h + 1 <= p2 < t implies #[trigger] q.epochs@[p2 % capi]
                == p2 + 1 by {
                if p2 % capi == h % capi {
                    lemma_slot_injective(p2, h, h, capi);
                }
                assert(old(q).epochs@[p2 % capi] == p2 + 1);
            }
            assert forall|p2: int| t <= p2 < h + 1 + capi implies #[trigger] q.buf@[p2 % capi]
                is None by {
                if p2 < h + capi {
                    if p2 % capi == h % capi {
                        lemma_slot_injective(p2, h, h, capi);
                    }
                    assert(old(q).buf@[p2 % capi] is None);
                } else {
                    lemma_mod_multiples_vanish(1, h, capi);
                    assert(p2 == h + capi);
                    assert(p2 % capi == h % capi);
                }
            }
            assert forall|p2: int| t <= p2 < h + 1 + capi implies #[trigger] q.epochs@[p2 % capi]
                == p2 by {
                if p2 < h + capi {
                    if p2 % capi == h % capi {
                        lemma_slot_injective(p2, h, h, capi);
                    }
                    assert(old(q).epochs@[p2 % capi] == p2);
                } else {
                    lemma_mod_multiples_vanish(1, h, capi);
                    assert(p2 == h + capi);
                    assert(p2 % capi == h % capi);
                }
            }
            assert(q@ =~= old(q)@.drop_first());
            assert(q.received() =~= old(q).received().push(r));
        }
        r
    }

    /// Non-blocking receive.  It probes the epoch of the next position
    /// once: when the consumable marker is absent — the ring is empty — the
    /// answer is `None` and nothing changes, however often it is asked.
    pub fn try_recv<T>(&mut self, q: &mut RingCore<T>) -> (r: Option<T>)
        requires
            old(q).wf(),
            old(q).headroom(),
        ensures
            final(q).wf(),
            final(q).capacity() == old(q).capacity(),
            old(q)@.len() == 0 ==> {
                &&& r is None
                &&& *final(q) == *old(q)
                &&& *final(self) == *old(self)
            },
            old(q)@.len() > 0 ==> {
                &&& r == Some(old(q)@[0])
                &&& final(q)@ == old(q)@.drop_first()
                &&& final(q).sent() == old(q).sent()
                &&& final(q).received() == old(q).received().push(old(q)@[0])
            },
    {
        let cap = q.buf.len();
        let p = q.head;
        let slot = p % cap;
        proof {
            let capi = cap as int;
            let h = old(q).head as int;
            let t = old(q).tail as int;
            if h == t {
                assert(old(q).epochs@[h % capi] == h);
            } else {
                assert(old(q).epochs@[h % capi] == h + 1);
            }
        }
        if q.epochs[slot] != p + 1 {
            return None;
        }
        Some(self.recv(q))
    }
}

/// One multi-producer/multi-consumer channel: a producer handle, a consumer
/// handle, and the core they share.  Further handles of either end are
/// clones of these.
pub fn channel<T>(capacity: usize) -> (r: (Sender, Receiver, RingCore<T>))
    requires
        capacity >= 1,
        capacity < usize::MAX,
    ensures
        r.2.wf(),
        r.2.headroom(),
        r.2.capacity() == capacity,
        r.2@ == Seq::<T>::empty(),
        r.2.sent() == Seq::<T>::empty(),
        r.2.received() == Seq::<T>::empty(),
{
    let mut epochs: Vec<usize> = Vec::new();
    let mut j: usize = 0;
    while j < capacity
        invariant
            j <= capacity,
            epochs@.len() == j,
            forall|i: int| 0 <= i < j ==> epochs@[i] == i,
        decreases capacity - j,
    {
        // At creation every cell is fresh: slot `j` awaits the producer
        // that will claim position `j` of the first lap.
        epochs.push(j);
        j = j + 1;
    }
    let q = RingCore {
        buf: empty_cells(capacity),
        epochs,
        head: 0,
        tail: 0,
        hist: Ghost(Seq::empty()),
    };
    proof {
        let capi = capacity as int;
        assert forall|p: int| 0 <= p < capi implies #[trigger] q.epochs@[p % capi] == p by {
            lemma_small_mod(p as nat, capacity as nat);
        }
        assert forall|p: int| 0 <= p < capi implies #[trigger] q.buf@[p % capi] is None by {
            lemma_small_mod(p as nat, capacity as nat);
        }
        assert(q@ =~= Seq::<T>::empty());
        assert(q.received() =~= Seq::<T>::empty());
    }
    (Sender::new(), Receiver::new(), q)
}

/// No loss, no duplication: the sent history is exactly the received prefix
/// followed by the in-flight window, so as a multiset every value claimed
/// by a producer is delivered to exactly one consumer claim.
pub proof fn lemma_conservation<T>(q: RingCore<T>)
    requires
        q.wf(),
    ensures
        q.sent() == q.received() + q@,
        q.sent().to_multiset() == q.received().to_multiset().add(q@.to_multiset()),
{
    assert(q.sent() =~= q.received() + q@);
    lemma_multiset_commutative(q.received(), q@);
}

/// Bounded capacity: at no observable point are more than `capacity` values
/// in flight.
pub proof fn lemma_bounded_capacity<T>(q: RingCore<T>)
    requires
        q.wf(),
    ensures
        q@.len() == q.sent().len() - q.received().len(),
        q@.len() <= q.capacity(),
{
}

} // verus!
