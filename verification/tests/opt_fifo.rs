use maskmatch::OptFifo;

#[test]
fn test_lifecycle() {
    let mut fifo = OptFifo::new();

    // Starts empty
    assert_eq!(fifo.get(), None);

    fifo.set(vec![2, 3]);

    assert_eq!(fifo.get(), Some(2));
    assert_eq!(fifo.get(), Some(3));
    assert_eq!(fifo.get(), None);

    // Make sure None is returned repeatedly
    assert_eq!(fifo.get(), None);
}

#[test]
fn empty_sequence_drains_to_nothing() {
    let mut fifo = OptFifo::<u8>::new();
    fifo.set(Vec::new());
    // an installed empty sequence yields nothing and frees the slot
    assert_eq!(fifo.get(), None);
    assert_eq!(fifo.get(), None);
    assert_eq!(fifo.get(), None);
    // the slot can be armed again afterwards
    fifo.set(vec![7]);
    assert_eq!(fifo.get(), Some(7));
    assert_eq!(fifo.get(), None);
}
