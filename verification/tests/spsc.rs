use ring_channels::spsc::RingCore;

#[test]
fn fifo_single_lane() {
    let mut q = RingCore::<u32>::with_size(4);
    q.send(1);
    q.send(2);
    assert_eq!(q.recv(), 1);
    q.send(3);
    assert_eq!(q.recv(), 2);
    assert_eq!(q.recv(), 3);
    assert_eq!(q.try_recv(), None);
}

#[test]
fn full_lane_rejects_and_keeps_state() {
    let mut q = RingCore::<u64>::with_size(2);
    q.try_send(7).unwrap();
    q.try_send(8).unwrap();
    assert_eq!(q.try_send(9), Err(9));
    assert_eq!(q.recv(), 7);
    assert_eq!(q.recv(), 8);
    assert_eq!(q.try_recv(), None);
}

#[test]
fn fresh_lane_is_empty() {
    let mut q = RingCore::<String>::with_size(3);
    for _ in 0..10 {
        assert!(q.try_recv().is_none());
    }
    assert_eq!(q.len(), 0);
}

#[test]
fn wraps_around_many_laps() {
    let mut q = RingCore::<usize>::with_size(2);
    for i in 0..20 {
        q.send(i);
        assert_eq!(q.recv(), i);
    }
}
