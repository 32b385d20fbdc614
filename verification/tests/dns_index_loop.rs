use lolb::dns::index_loop::IndexLoop;

#[test]
fn test_index_loop() {
    let mut index_loop = IndexLoop::new(3, 0);
    assert_eq!(index_loop.next(), 0);
    assert_eq!(index_loop.next(), 1);
    assert_eq!(index_loop.next(), 2);
    assert_eq!(index_loop.next(), 0);
    assert_eq!(index_loop.next(), 1);
    assert_eq!(index_loop.next(), 2);
    assert_eq!(index_loop.next(), 0);
}
