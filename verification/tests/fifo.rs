use soundtouch::SampleFifo;

#[test]
fn fifo_refuses_zero_channels() {
    assert!(SampleFifo::new(0).is_none());
    assert!(SampleFifo::new(2).is_some());
}

#[test]
fn fifo_hands_out_in_order() {
    let mut q = SampleFifo::new(2).unwrap();
    assert!(q.put(&[1, 2, 3, 4]));
    assert!(q.put(&[5, 6]));
    assert_eq!(q.available(), 3);
    assert_eq!(q.peek(2), &[1, 2, 3, 4]);
    let mut dst = [0i16; 4];
    assert_eq!(q.receive(&mut dst, 2), 2);
    assert_eq!(dst, [1, 2, 3, 4]);
    assert_eq!(q.available(), 1);
    assert_eq!(q.receive(&mut dst, 5), 1);
    assert_eq!(dst, [5, 6, 3, 4]);
    assert_eq!(q.receive(&mut dst, 5), 0);
    assert!(q.is_empty());
}

#[test]
fn fifo_refuses_a_broken_frame() {
    let mut q = SampleFifo::new(2).unwrap();
    assert!(!q.put(&[1, 2, 3]));
    assert_eq!(q.available(), 0);
}
