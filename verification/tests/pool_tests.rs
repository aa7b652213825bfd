use apaseh::memory_pool::MemoryPool;

#[test]
fn fresh_buffer_has_capacity() {
    let mut p = MemoryPool::init();
    let b = p.get_buffer();
    assert!(b.is_empty());
    assert!(b.capacity() >= 8192);
}

#[test]
fn returned_buffer_is_reused_empty() {
    let mut p = MemoryPool::init();
    let mut b = Vec::with_capacity(16);
    b.extend_from_slice(b"leftover");
    p.return_buffer(b);
    let again = p.get_buffer();
    assert!(again.is_empty());
}

#[test]
fn pool_keeps_at_most_1000() {
    let mut p = MemoryPool::init();
    for _ in 0..1005 {
        p.return_buffer(vec![1u8; 4]);
    }
    for _ in 0..1000 {
        let b = p.get_buffer();
        assert!(b.is_empty());
        assert!(b.capacity() <= 8192);
    }
    let fresh = p.get_buffer();
    assert!(fresh.capacity() >= 8192);
}

#[test]
fn oversized_buffer_is_shrunk_on_return() {
    let mut p = MemoryPool::init();
    let mut big: Vec<u8> = Vec::with_capacity(100_000);
    big.extend_from_slice(&[7u8; 64]);
    p.return_buffer(big);
    let again = p.get_buffer();
    assert!(again.is_empty());
    assert!(again.capacity() < 100_000);
}
