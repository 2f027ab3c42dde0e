use ring_channels::mpsc::channel;

#[test]
fn basic() {
    const THREADS: u32 = 3;
    const ITER: u32 = 5;

    let (tx, mut rx, mut q) = channel::<(u32, u32)>(8);

    let senders = [tx, tx.clone(), tx.clone()];

    let mut sum = 0;
    for i in 0..ITER {
        for (thread_id, tx) in (0u32..).zip(senders.iter()) {
            let mut tx = *tx;
            println!("{thread_id}: sending {i}");
            tx.send(&mut q, (thread_id, i));
            println!("{thread_id}: sent {i}");
        }
        for _ in 0..THREADS {
            let (thread_id, i) = rx.recv(&mut q);
            sum += i;
            println!("recved: ({thread_id}:{i})");
        }
    }

    assert_eq!(sum, (0..ITER).sum::<u32>() * THREADS);
}

#[test]
fn fifo_per_producer() {
    let (mut tx, mut rx, mut q) = channel::<(u32, u32)>(8);
    let mut tx2 = tx.clone();

    tx.send(&mut q, (1, 10));
    tx2.send(&mut q, (2, 20));
    tx.send(&mut q, (1, 11));
    tx2.send(&mut q, (2, 21));
    tx.send(&mut q, (1, 12));

    let mut from_1 = Vec::new();
    let mut from_2 = Vec::new();
    for _ in 0..5 {
        let (who, v) = rx.recv(&mut q);
        if who == 1 {
            from_1.push(v);
        } else {
            from_2.push(v);
        }
    }
    assert_eq!(from_1, vec![10, 11, 12]);
    assert_eq!(from_2, vec![20, 21]);
}

#[test]
fn try_send_full_returns_value_unchanged() {
    let (mut tx, mut rx, mut q) = channel::<u64>(3);
    for i in 0..3 {
        tx.try_send(&mut q, i).unwrap();
    }
    // The core is full: the value comes back and the state is untouched.
    assert_eq!(tx.try_send(&mut q, 99), Err(99));
    assert_eq!(tx.try_send(&mut q, 100), Err(100));
    for i in 0..3 {
        assert_eq!(rx.try_recv(&mut q), Some(i));
    }
    assert_eq!(rx.try_recv(&mut q), None);
}

#[test]
fn try_recv_empty_never_blocks() {
    let (_tx, mut rx, mut q) = channel::<String>(4);
    for _ in 0..10 {
        assert!(rx.try_recv(&mut q).is_none());
    }
}

#[test]
fn no_loss_no_duplication_multiset() {
    let (mut tx_a, mut rx, mut q) = channel::<u32>(4);
    let mut tx_b = tx_a.clone();

    let mut received = Vec::new();
    // Two producers, each sending three distinct values, with the consumer
    // draining in between; the received multiset must equal the sent one.
    for round in 0..3 {
        tx_a.send(&mut q, 100 + round);
        tx_b.send(&mut q, 200 + round);
        received.push(rx.recv(&mut q));
        received.push(rx.recv(&mut q));
    }
    received.sort();
    assert_eq!(received, vec![100, 101, 102, 200, 201, 202]);
}
