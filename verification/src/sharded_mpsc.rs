//! Sharded multi-producer/single-consumer channel.
//!
//! Instead of making producers coordinate on one ring, this variant gives
//! each producer its own single-producer lane: a fixed pool of independent
//! `spsc` cores ("shards").  Every `Sender` is bound at creation to exactly
//! one shard — its sends touch no shared producer state at all — and new
//! senders are minted by `clone`, which hands out the next free shard until
//! the pool is exhausted.  The single `Receiver` drains the shards in
//! round-robin rotation.

use vstd::prelude::*;

verus! {

use crate::ring::is_pow2;
use crate::spsc;

/// The fixed pool of single-producer lanes, plus the count of shards
/// already handed out to senders.
pub struct Shards<T> {
    shards: Vec<spsc::RingCore<T>>,
    next_shard: usize,
}

impl<T> Shards<T> {
    /// Number of lanes; fixed at construction, a power of two.
    pub closed spec fn num_shards(&self) -> nat {
        self.shards@.len()
    }

    /// Capacity of each lane; fixed at construction.
    pub closed spec fn cap_per_shard(&self) -> nat {
        self.shards@[0].capacity()
    }

    /// How many lanes have been handed out to senders so far.
    pub closed spec fn assigned(&self) -> nat {
        self.next_shard as nat
    }

    /// Everything shard `k`'s producer ever sent, in order.
    pub closed spec fn shard_sent(&self, k: int) -> Seq<T> {
        self.shards@[k].sent()
    }

    /// Everything received out of shard `k`, in order.
    pub closed spec fn shard_received(&self, k: int) -> Seq<T> {
        self.shards@[k].received()
    }

    /// Machine limit on shard `k`'s counters.
    pub open spec fn shard_headroom(&self, k: int) -> bool {
        self.shard_received(k).len() + self.cap_per_shard() < usize::MAX
    }

    /// A positive power-of-two pool of equally sized, well-formed lanes.
    pub closed spec fn wf(&self) -> bool {
        &&& self.shards@.len() >= 1
        &&& is_pow2(self.shards@.len() as nat)
        &&& self.next_shard <= self.shards@.len()
        &&& forall|k: int|
            0 <= k < self.shards@.len() ==> (#[trigger] self.shards@[k]).wf()
                && self.shards@[k].capacity() == self.cap_per_shard()
    }
}

impl<T> View for Shards<T> {
    type V = Seq<Seq<T>>;

    /// The in-flight values of each shard, oldest first, shard by shard.
    closed spec fn view(&self) -> Seq<Seq<T>> {
        Seq::new(self.shards@.len(), |k: int| self.shards@[k]@)
    }
}

/// A producer handle, permanently bound to one shard.
#[derive(Clone, Copy)]
pub struct Sender {
    shard: usize,
}

/// The single consumer handle; remembers where its rotation stopped.
pub struct Receiver {
    rotation: usize,
}

/// The index scanned `j` steps after `start`, wrapping at `n`.
pub open spec fn rotated(start: int, j: int, n: int) -> int {
    if start + j < n {
        start + j
    } else {
        start + j - n
    }
}

/// How many steps a scan from `start` takes to reach index `k`, wrapping
/// at `n`; the inverse of `rotated`.
pub open spec fn offset_of(start: int, k: int, n: int) -> int {
    if k >= start {
        k - start
    } else {
        k + n - start
    }
}

/// The first `off` shards scanned from `start` in rotation order are all
/// empty.
pub open spec fn prefix_clear<T>(pool: Shards<T>, start: int, off: int) -> bool {
    forall|j: int|
        0 <= j < off ==> pool@[#[trigger] rotated(start, j, pool@.len() as int)].len() == 0
}

/// Index of the first shard, in rotation order from `start`, that holds a
/// value; `None` when every shard is empty.
fn first_nonempty<T>(pool: &Shards<T>, start: usize) -> (r: Option<usize>)
    requires
        pool.wf(),
        start < pool.num_shards(),
    ensures
        r is Some ==> r.unwrap() < pool.num_shards() && pool@[r.unwrap() as int].len() > 0,
        r is Some ==> prefix_clear(
            *pool,
            start as int,
            offset_of(start as int, r.unwrap() as int, pool@.len() as int),
        ),
        r is None ==> forall|k: int| 0 <= k < pool.num_shards() ==> pool@[k].len() == 0,
{
    let n = pool.shards.len();
    let mut i: usize = 0;
    while i < n
        invariant
            pool.wf(),
            n == pool.num_shards(),
            start < n,
            i <= n,
            forall|j: int|
                0 <= j < i ==> pool@[#[trigger] rotated(start as int, j, n as int)].len() == 0,
        decreases n - i,
    {
        let idx = if i < n - start {
            start + i
        } else {
            i - (n - start)
        };
        proof {
            assert(idx as int == rotated(start as int, i as int, n as int));
        }
        if pool.shards[idx].len() > 0 {
            proof {
                assert(offset_of(start as int, idx as int, pool@.len() as int) == i as int);
                assert(prefix_clear(*pool, start as int, i as int));
            }
            return Some(idx);
        }
        i = i + 1;
    }
    proof {
        assert forall|k: int| 0 <= k < pool.num_shards() implies pool@[k].len() == 0 by {
            let j = if k >= start { k - start } else { k + n - start };
            assert(rotated(start as int, j, n as int) == k);
            assert(pool@[rotated(start as int, j, n as int)].len() == 0);
        }
    }
    None
}

impl Sender {
    /// The shard this handle is bound to.
    pub closed spec fn shard_id(&self) -> nat {
        self.shard as nat
    }

    /// Bound to a lane that has really been handed out.
    pub closed spec fn wf_for<T>(&self, pool: Shards<T>) -> bool {
        self.shard < pool.assigned()
    }

    /// Binds a further producer to the next free shard; `None` once the
    /// pool is exhausted — adding producers beyond the configured maximum
    /// is a configuration error the caller must handle.
    pub fn clone<T>(&self, pool: &mut Shards<T>) -> (r: Option<Sender>)
        requires
            old(pool).wf(),
        ensures
            final(pool).wf(),
            final(pool)@ == old(pool)@,
            final(pool)@.len() == old(pool)@.len(),
            final(pool).num_shards() == old(pool).num_shards(),
            final(pool).cap_per_shard() == old(pool).cap_per_shard(),
            forall|k: int|
                0 <= k < old(pool).num_shards() ==> final(pool).shard_sent(k) == old(pool).shard_sent(k) && final(pool).shard_received(k) == old(pool).shard_received(k)
                    && (final(pool).shard_headroom(k) == old(pool).shard_headroom(k)),
            old(pool).assigned() < old(pool).num_shards() ==> {
                &&& r is Some
                &&& r.unwrap().shard_id() == old(pool).assigned()
                &&& r.unwrap().wf_for(*final(pool))
                &&& final(pool).assigned() == old(pool).assigned() + 1
            },
            old(pool).assigned() == old(pool).num_shards() ==> {
                &&& r is None
                &&& *final(pool) == *old(pool)
            },
            forall|s: Sender| s.wf_for(*old(pool)) ==> #[trigger] s.wf_for(*final(pool)),
            forall|c: Receiver| c.wf_for(*old(pool)) ==> #[trigger] c.wf_for(*final(pool)),
    {
        if pool.next_shard < pool.shards.len() {
            let s = Sender { shard: pool.next_shard };
            pool.next_shard = pool.next_shard + 1;
            Some(s)
        } else {
            None
        }
    }

    /// Delegates to the bound shard's single-producer `send`; no other
    /// shard is touched.  The free slot a concurrent producer would spin
    /// for is a precondition here.
    pub fn send<T>(&self, pool: &mut Shards<T>, value: T)
        requires
            old(pool).wf(),
            self.wf_for(*old(pool)),
            old(pool).shard_headroom(self.shard_id() as int),
            old(pool)@[self.shard_id() as int].len() < old(pool).cap_per_shard(),
        ensures
            final(pool).wf(),
            final(pool)@.len() == old(pool)@.len(),
            old(pool)@.len() == old(pool).num_shards(),
            final(pool).num_shards() == old(pool).num_shards(),
            final(pool).cap_per_shard() == old(pool).cap_per_shard(),
            final(pool).assigned() == old(pool).assigned(),
            final(pool)@ == old(pool)@.update(
                self.shard_id() as int,
                old(pool)@[self.shard_id() as int].push(value),
            ),
            final(pool).shard_sent(self.shard_id() as int) == old(pool).shard_sent(
                self.shard_id() as int,
            ).push(value),
            final(pool).shard_received(self.shard_id() as int) == old(pool).shard_received(
                self.shard_id() as int,
            ),
            forall|k: int|
                0 <= k < old(pool).num_shards() && k != self.shard_id() as int ==> final(pool).shard_sent(k) == old(pool).shard_sent(k) && final(pool).shard_received(k) == old(pool).shard_received(k),
            forall|k: int|
                0 <= k < old(pool).num_shards() ==> final(pool).shard_headroom(k) == old(pool).shard_headroom(k),
            forall|s: Sender| s.wf_for(*old(pool)) ==> #[trigger] s.wf_for(*final(pool)),
            forall|c: Receiver| c.wf_for(*old(pool)) ==> #[trigger] c.wf_for(*final(pool)),
    {
        let k = self.shard;
        let mut shard = pool.shards.remove(k);
        shard.send(value);
        pool.shards.insert(k, shard);
        proof {
            assert(pool.shards@ =~= old(pool).shards@.update(k as int, pool.shards@[k as int]));
            assert(pool@ =~= old(pool)@.update(k as int, old(pool)@[k as int].push(value)));
        }
    }

    /// Non-blocking send on the bound shard: when that shard is full the
    /// value comes straight back and no shard changes.
    pub fn try_send<T>(&self, pool: &mut Shards<T>, value: T) -> (r: Result<(), T>)
        requires
            old(pool).wf(),
            self.wf_for(*old(pool)),
            old(pool).shard_headroom(self.shard_id() as int),
        ensures
            final(pool).wf(),
            final(pool)@.len() == old(pool)@.len(),
            old(pool)@.len() == old(pool).num_shards(),
            final(pool).num_shards() == old(pool).num_shards(),
            final(pool).cap_per_shard() == old(pool).cap_per_shard(),
            final(pool).assigned() == old(pool).assigned(),
            old(pool)@[self.shard_id() as int].len() < old(pool).cap_per_shard() ==> {
                &&& r == Ok::<(), T>(())
                &&& final(pool)@ == old(pool)@.update(
                    self.shard_id() as int,
                    old(pool)@[self.shard_id() as int].push(value),
                )
                &&& final(pool).shard_sent(self.shard_id() as int) == old(pool).shard_sent(
                    self.shard_id() as int,
                ).push(value)
                &&& final(pool).shard_received(self.shard_id() as int) == old(pool).shard_received(self.shard_id() as int)
            },
            old(pool)@[self.shard_id() as int].len() == old(pool).cap_per_shard() ==> {
                &&& r == Err::<(), T>(value)
                &&& final(pool)@ == old(pool)@
            },
            forall|k: int|
                0 <= k < old(pool).num_shards() && k != self.shard_id() as int ==> final(pool).shard_sent(k) == old(pool).shard_sent(k) && final(pool).shard_received(k) == old(pool).shard_received(k),
            forall|k: int|
                0 <= k < old(pool).num_shards() ==> final(pool).shard_headroom(k) == old(pool).shard_headroom(k),
            forall|s: Sender| s.wf_for(*old(pool)) ==> #[trigger] s.wf_for(*final(pool)),
            forall|c: Receiver| c.wf_for(*old(pool)) ==> #[trigger] c.wf_for(*final(pool)),
    {
        let k = self.shard;
        let mut shard = pool.shards.remove(k);
        let r = shard.try_send(value);
        pool.shards.insert(k, shard);
        proof {
            assert(pool.shards@ =~= old(pool).shards@.update(k as int, pool.shards@[k as int]));
            if old(pool)@[k as int].len() < old(pool).cap_per_shard() {
                assert(pool@ =~= old(pool)@.update(k as int, old(pool)@[k as int].push(value)));
            } else {
                assert(old(pool).shards@[k as int].wf());
                crate::spsc::lemma_bounded_capacity(old(pool).shards@[k as int]);
                assert(old(pool)@[k as int].len() == old(pool).cap_per_shard());
                assert(shard == old(pool).shards@[k as int]);
                assert(pool.shards@ =~= old(pool).shards@);
                assert(pool@ =~= old(pool)@);
            }
        }
        r
    }
}

impl Receiver {
    /// Where the rotation will begin on the next receive.
    pub closed spec fn rotation_pos(&self) -> nat {
        self.rotation as nat
    }

    /// The rotation pointer stays inside the pool.
    pub closed spec fn wf_for<T>(&self, pool: Shards<T>) -> bool {
        self.rotation < pool.num_shards()
    }

    /// Takes the oldest value of the first non-empty shard in rotation
    /// order and advances the rotation past it.  The pending value a
    /// concurrent consumer would keep re-scanning for is a precondition
    /// here.
    pub fn recv<T>(&mut self, pool: &mut Shards<T>) -> (r: T)
        requires
            old(pool).wf(),
            old(self).wf_for(*old(pool)),
            exists|k: int| 0 <= k < old(pool).num_shards() && old(pool)@[k].len() > 0,
        ensures
            final(pool).wf(),
            final(pool)@.len() == old(pool)@.len(),
            old(pool)@.len() == old(pool).num_shards(),
            final(pool).num_shards() == old(pool).num_shards(),
            final(pool).cap_per_shard() == old(pool).cap_per_shard(),
            final(pool).assigned() == old(pool).assigned(),
            final(self).wf_for(*final(pool)),
            exists|k: int|
                {
                    &&& 0 <= k < old(pool).num_shards()
                    &&& old(pool)@[k].len() > 0
                    &&& r == old(pool)@[k][0]
                    &&& final(pool)@ == old(pool)@.update(k, old(pool)@[k].drop_first())
                    &&& final(pool).shard_sent(k) == old(pool).shard_sent(k)
                    &&& final(pool).shard_received(k) == old(pool).shard_received(k).push(r)
                    &&& prefix_clear(
                        *old(pool),
                        old(self).rotation_pos() as int,
                        offset_of(old(self).rotation_pos() as int, k, old(pool)@.len() as int),
                    )
                    &&& final(self).rotation_pos() == (if k + 1 == old(pool)@.len() {
                        0int
                    } else {
                        k + 1
                    })
                    &&& forall|j: int|
                        0 <= j < old(pool).num_shards() && j != k ==> final(pool).shard_sent(j)
                            == old(pool).shard_sent(j) && final(pool).shard_received(j) == old(pool).shard_received(j)
                },
            forall|s: Sender| s.wf_for(*old(pool)) ==> #[trigger] s.wf_for(*final(pool)),
            forall|c: Receiver| c.wf_for(*old(pool)) ==> #[trigger] c.wf_for(*final(pool)),
    {
        let n = pool.shards.len();
        match first_nonempty(pool, self.rotation) {
            Some(k) => {
                let mut shard = pool.shards.remove(k);
                let v = shard.recv();
                pool.shards.insert(k, shard);
                self.rotation = if k + 1 == n {
                    0
                } else {
                    k + 1
                };
                proof {
                    let ki = k as int;
                    assert(pool.shards@ =~= old(pool).shards@.update(ki, pool.shards@[ki]));
                    assert(pool@ =~= old(pool)@.update(ki, old(pool)@[ki].drop_first()));
                    assert({
                        &&& 0 <= ki < old(pool).num_shards()
                        &&& old(pool)@[ki].len() > 0
                        &&& v == old(pool)@[ki][0]
                        &&& pool@ == old(pool)@.update(ki, old(pool)@[ki].drop_first())
                        &&& pool.shard_sent(ki) == old(pool).shard_sent(ki)
                        &&& pool.shard_received(ki) == old(pool).shard_received(ki).push(v)
                        &&& prefix_clear(
                            *old(pool),
                            old(self).rotation_pos() as int,
                            offset_of(old(self).rotation_pos() as int, ki, old(pool)@.len() as int),
                        )
                        &&& self.rotation_pos() as int == (if ki + 1 == old(pool)@.len() {
                            0int
                        } else {
                            ki + 1
                        })
                        &&& forall|j: int|
                            0 <= j < old(pool).num_shards() && j != ki ==> pool.shard_sent(j)
                                == old(pool).shard_sent(j) && pool.shard_received(j) == old(pool).shard_received(j)
                    });
                }
                v
            },
            None => {
                proof {
                    let k = choose|k: int|
                        0 <= k < old(pool).num_shards() && old(pool)@[k].len() > 0;
                    assert(pool@[k].len() == 0);
                    assert(false);
                }
                vstd::pervasive::unreached()
            },
        }
    }

    /// Non-blocking receive: one pass over all shards from the rotation
    /// point, yielding the first value found; `None`, with no shard
    /// touched, when every shard is empty.
    pub fn try_recv<T>(&mut self, pool: &mut Shards<T>) -> (r: Option<T>)
        requires
            old(pool).wf(),
            old(self).wf_for(*old(pool)),
        ensures
            final(pool).wf(),
            final(pool)@.len() == old(pool)@.len(),
            old(pool)@.len() == old(pool).num_shards(),
            final(pool).num_shards() == old(pool).num_shards(),
            final(pool).cap_per_shard() == old(pool).cap_per_shard(),
            final(pool).assigned() == old(pool).assigned(),
            final(self).wf_for(*final(pool)),
            (forall|k: int| 0 <= k < old(pool).num_shards() ==> old(pool)@[k].len() == 0) ==> {
                &&& r is None
                &&& *final(pool) == *old(pool)
                &&& *final(self) == *old(self)
            },
            (exists|k: int| 0 <= k < old(pool).num_shards() && old(pool)@[k].len() > 0) ==> {
                &&& r is Some
                &&& exists|k: int|
                    {
                        &&& 0 <= k < old(pool).num_shards()
                        &&& old(pool)@[k].len() > 0
                        &&& r == Some(old(pool)@[k][0])
                        &&& final(pool)@ == old(pool)@.update(k, old(pool)@[k].drop_first())
                        &&& final(pool).shard_sent(k) == old(pool).shard_sent(k)
                        &&& final(pool).shard_received(k) == old(pool).shard_received(k).push(
                            old(pool)@[k][0],
                        )
                        &&& prefix_clear(
                            *old(pool),
                            old(self).rotation_pos() as int,
                            offset_of(old(self).rotation_pos() as int, k, old(pool)@.len() as int),
                        )
                        &&& final(self).rotation_pos() == (if k + 1 == old(pool)@.len() {
                            0int
                        } else {
                            k + 1
                        })
                        &&& forall|j: int|
                            0 <= j < old(pool).num_shards() && j != k ==> final(pool).shard_sent(j)
                                == old(pool).shard_sent(j) && final(pool).shard_received(j) == old(pool).shard_received(j)
                    }
            },
            forall|s: Sender| s.wf_for(*old(pool)) ==> #[trigger] s.wf_for(*final(pool)),
            forall|c: Receiver| c.wf_for(*old(pool)) ==> #[trigger] c.wf_for(*final(pool)),
    {
        let n = pool.shards.len();
        match first_nonempty(pool, self.rotation) {
            Some(k) => {
                let mut shard = pool.shards.remove(k);
                let v = shard.recv();
                pool.shards.insert(k, shard);
                self.rotation = if k + 1 == n {
                    0
                } else {
                    k + 1
                };
                proof {
                    let ki = k as int;
                    assert(pool.shards@ =~= old(pool).shards@.update(ki, pool.shards@[ki]));
                    assert(pool@ =~= old(pool)@.update(ki, old(pool)@[ki].drop_first()));
                    assert({
                        &&& 0 <= ki < old(pool).num_shards()
                        &&& old(pool)@[ki].len() > 0
                        &&& Some(v) == Some(old(pool)@[ki][0])
                        &&& pool@ == old(pool)@.update(ki, old(pool)@[ki].drop_first())
                        &&& pool.shard_sent(ki) == old(pool).shard_sent(ki)
                        &&& pool.shard_received(ki) == old(pool).shard_received(ki).push(old(pool)@[ki][0])
                        &&& prefix_clear(
                            *old(pool),
                            old(self).rotation_pos() as int,
                            offset_of(old(self).rotation_pos() as int, ki, old(pool)@.len() as int),
                        )
                        &&& self.rotation_pos() as int == (if ki + 1 == old(pool)@.len() {
                            0int
                        } else {
                            ki + 1
                        })
                        &&& forall|j: int|
                            0 <= j < old(pool).num_shards() && j != ki ==> pool.shard_sent(j)
                                == old(pool).shard_sent(j) && pool.shard_received(j) == old(pool).shard_received(j)
                    });
                }
                Some(v)
            },
            None => None,
        }
    }
}

/// One sharded channel: the first producer handle (bound to shard 0), the
/// single consumer handle, and the shard pool they share.  Further
/// producers come from `Sender::clone`.
pub fn channel<T>(max_shards: usize, capacity_per_shard: usize) -> (r: (
    Sender,
    Receiver,
    Shards<T>,
))
    requires
        max_shards >= 1,
        is_pow2(max_shards as nat),
        capacity_per_shard >= 1,
        capacity_per_shard < usize::MAX,
    ensures
        r.2.wf(),
        r.2@.len() == max_shards,
        r.2.num_shards() == max_shards,
        r.2.cap_per_shard() == capacity_per_shard,
        r.2.assigned() == 1,
        forall|k: int| 0 <= k < max_shards ==> #[trigger] r.2@[k] == Seq::<T>::empty(),
        forall|k: int| 0 <= k < max_shards ==> #[trigger] r.2.shard_sent(k) == Seq::<T>::empty(),
        forall|k: int|
            0 <= k < max_shards ==> #[trigger] r.2.shard_received(k) == Seq::<T>::empty(),
        r.0.wf_for(r.2),
        r.0.shard_id() == 0,
        r.1.wf_for(r.2),
        r.1.rotation_pos() == 0,
{
    let mut shards: Vec<spsc::RingCore<T>> = Vec::new();
    let mut i: usize = 0;
    while i < max_shards
        invariant
            i <= max_shards,
            capacity_per_shard >= 1,
            capacity_per_shard < usize::MAX,
            shards@.len() == i,
            forall|k: int|
                0 <= k < i ==> (#[trigger] shards@[k]).wf() && shards@[k].capacity()
                    == capacity_per_shard && shards@[k]@ == Seq::<T>::empty() && shards@[k].sent()
                    == Seq::<T>::empty() && shards@[k].received() == Seq::<T>::empty()
                    && shards@[k].headroom(),
        decreases max_shards - i,
    {
        shards.push(spsc::RingCore::with_size(capacity_per_shard));
        i = i + 1;
    }
    let pool = Shards { shards, next_shard: 1 };
    (Sender { shard: 0 }, Receiver { rotation: 0 }, pool)
}

/// No loss, no duplication, shard by shard: each lane's sent history is
/// exactly its received prefix followed by its in-flight window, so as a
/// multiset nothing is lost and nothing is delivered twice.
pub proof fn lemma_shard_conservation<T>(pool: Shards<T>, k: int)
    requires
        pool.wf(),
        0 <= k < pool.num_shards(),
    ensures
        pool.shard_sent(k) == pool.shard_received(k) + pool@[k],
        pool.shard_sent(k).to_multiset() == pool.shard_received(k).to_multiset().add(
            pool@[k].to_multiset(),
        ),
{
    crate::spsc::lemma_conservation(pool.shards@[k]);
}

/// First-in, first-out per producer: each producer is bound to one shard,
/// and what has been received out of that shard is exactly the oldest
/// prefix of what its producer sent, in sending order.
pub proof fn lemma_fifo_per_producer<T>(pool: Shards<T>, k: int)
    requires
        pool.wf(),
        0 <= k < pool.num_shards(),
    ensures
        pool.shard_received(k).len() <= pool.shard_sent(k).len(),
        pool.shard_received(k) == pool.shard_sent(k).take(pool.shard_received(k).len() as int),
{
    crate::spsc::lemma_fifo(pool.shards@[k]);
}

/// Bounded capacity, shard by shard: no lane ever holds more than its
/// capacity in flight.
pub proof fn lemma_bounded_capacity<T>(pool: Shards<T>, k: int)
    requires
        pool.wf(),
        0 <= k < pool.num_shards(),
    ensures
        pool@[k].len() == pool.shard_sent(k).len() - pool.shard_received(k).len(),
        pool@[k].len() <= pool.cap_per_shard(),
{
    crate::spsc::lemma_bounded_capacity(pool.shards@[k]);
}

} // verus!
