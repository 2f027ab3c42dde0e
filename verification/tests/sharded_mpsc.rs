use std::sync::atomic::{AtomicUsize, Ordering};
use std::sync::Arc;

use ring_channels::sharded_mpsc::channel;

#[test]
fn mod_basic() {
    const THREADS: u32 = 8;
    const ITER: u32 = 10;

    let (tx, mut rx, mut pool) = channel::<(u32, u32)>(THREADS as usize, 4);

    let mut senders = vec![tx];
    for _ in 0..THREADS - 1 {
        let fresh = tx.clone(&mut pool).unwrap();
        senders.push(fresh);
    }

    let mut sum = 0;
    for i in 0..ITER {
        for (thread_id, tx) in (0u32..).zip(senders.iter()) {
            tx.send(&mut pool, (thread_id, i));
        }
        for _ in 0..THREADS {
            let (_thread_id, i) = rx.recv(&mut pool);
            sum += i;
        }
    }

    assert_eq!(sum, (ITER * (ITER - 1)) / 2 * THREADS);
}

#[test]
fn test_valid_try_sends() {
    let (tx, mut rx, mut pool) = channel::<usize>(1, 4);
    for _ in 0..4 {
        assert!(rx.try_recv(&mut pool).is_none());
    }
    for i in 0..4 {
        tx.try_send(&mut pool, i).unwrap();
    }
    assert!(tx.try_send(&mut pool, 5).is_err());

    for i in 0..4 {
        assert_eq!(rx.try_recv(&mut pool), Some(i));
    }
    assert!(rx.try_recv(&mut pool).is_none());
    for i in 0..4 {
        tx.try_send(&mut pool, i).unwrap();
    }
}

struct DropCounter(Arc<AtomicUsize>);

impl Drop for DropCounter {
    fn drop(&mut self) {
        self.0.fetch_add(1, Ordering::SeqCst);
    }
}

#[test]
fn test_drop_full_capacity() {
    let dropped_count = Arc::new(AtomicUsize::new(0));

    {
        let (tx, _rx, mut pool) = channel::<DropCounter>(1, 4);

        for _ in 0..4 {
            tx.send(&mut pool, DropCounter(dropped_count.clone()));
        }
    }

    let count = dropped_count.load(Ordering::SeqCst);
    assert_eq!(count, 4, "Expected 4 items to be dropped, but got {}", count);
}

#[test]
fn clone_beyond_pool_is_refused() {
    let (tx, _rx, mut pool) = channel::<u8>(2, 1);
    // The factory hands out shard 0; one further producer fits.
    let extra = tx.clone(&mut pool);
    assert!(extra.is_some());
    assert!(tx.clone(&mut pool).is_none());
}

#[test]
fn round_robin_drains_every_shard() {
    let (tx0, mut rx, mut pool) = channel::<u32>(4, 2);
    let tx1 = tx0.clone(&mut pool).unwrap();
    let tx2 = tx0.clone(&mut pool).unwrap();
    let tx3 = tx0.clone(&mut pool).unwrap();

    tx2.send(&mut pool, 22);
    tx0.send(&mut pool, 20);
    tx3.send(&mut pool, 23);
    tx1.send(&mut pool, 21);

    // The receiver scans from its rotation point, so the values come back
    // in shard order no matter the order the producers wrote them.
    let mut got = Vec::new();
    for _ in 0..4 {
        got.push(rx.recv(&mut pool));
    }
    assert_eq!(got, vec![20, 21, 22, 23]);
    assert!(rx.try_recv(&mut pool).is_none());
}
