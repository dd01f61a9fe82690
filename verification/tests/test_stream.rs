use haunted_server::test_stream::{StreamBuilder, TestStream};

#[test]
fn unchunked_reads_everything() {
    let mut s = TestStream::new(vec![1, 2, 3]);
    assert_eq!(s.read_chunk(), vec![1, 2, 3]);
    assert_eq!(s.read_count(), 3);
    assert!(s.read_chunk().is_empty());
}

#[test]
fn chunked_reads() {
    let mut b = StreamBuilder::new(vec![1, 2, 3, 4, 5]);
    b.chunked(2);
    let mut s = b.build();
    assert_eq!(s.chunk_size, Some(2));
    assert_eq!(s.read_chunk(), vec![1, 2]);
    assert_eq!(s.read_chunk(), vec![3, 4]);
    assert_eq!(s.remaining(), &[5]);
    assert_eq!(s.read_chunk(), vec![5]);
    assert_eq!(s.read_count(), 5);
}

#[test]
fn writes_are_recorded() {
    let mut s = TestStream::new(vec![]);
    assert_eq!(s.write(&[9, 8]), 2);
    assert_eq!(s.write(&[7]), 1);
    assert_eq!(s.written, vec![9, 8, 7]);
}
