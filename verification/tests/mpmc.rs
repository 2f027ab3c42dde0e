use ring_channels::mpmc::channel;

#[test]
fn epochs_carry_values_across_laps() {
    let (mut tx, mut rx, mut q) = channel::<u32>(2);
    tx.send(&mut q, 1);
    tx.send(&mut q, 2);
    // Full: the probe finds the previous lap not yet drained.
    assert_eq!(tx.try_send(&mut q, 3), Err(3));
    assert_eq!(rx.recv(&mut q), 1);
    tx.try_send(&mut q, 3).unwrap();
    assert_eq!(rx.recv(&mut q), 2);
    assert_eq!(rx.recv(&mut q), 3);
    assert_eq!(rx.try_recv(&mut q), None);
}

#[test]
fn many_handles_one_core() {
    let (mut tx, mut rx, mut q) = channel::<(u32, u32)>(4);
    let mut tx2 = tx;
    let mut rx2 = rx;

    let mut received = Vec::new();
    for round in 0..4 {
        tx.send(&mut q, (1, round));
        tx2.send(&mut q, (2, round));
        received.push(rx.recv(&mut q));
        received.push(rx2.recv(&mut q));
    }
    received.sort();
    assert_eq!(
        received,
        vec![(1, 0), (1, 1), (1, 2), (1, 3), (2, 0), (2, 1), (2, 2), (2, 3)]
    );
}

#[test]
fn fresh_core_yields_nothing() {
    let (_tx, mut rx, mut q) = channel::<u8>(3);
    for _ in 0..10 {
        assert!(rx.try_recv(&mut q).is_none());
    }
}

#[test]
fn laps_preserve_claim_order() {
    let (mut tx, mut rx, mut q) = channel::<usize>(2);
    for i in 0..15 {
        tx.send(&mut q, i);
        assert_eq!(rx.recv(&mut q), i);
    }
}
