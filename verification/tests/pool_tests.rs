use ytproxy::buffer_pool::{BufferPool, ChunkDataPool};

#[test]
fn medium_request_gets_medium_buffer() {
    // 6 MiB falls in the medium tier: a 20 MiB buffer, served from the two
    // pre-allocated ones, so it counts as a hit
    let mut pool = ChunkDataPool::new(true);
    let buf = pool.get_buffer_for_size(6 * 1024 * 1024).unwrap();
    assert_eq!(buf.len(), 20 * 1024 * 1024);
    assert!(buf.capacity() >= 20 * 1024 * 1024);
    let (_, medium, _) = pool.tier_stats();
    assert_eq!(medium, (1, 0));
}

#[test]
fn small_and_large_requests_get_tier_sizes() {
    let mut pool = ChunkDataPool::new(true);
    let small = pool.get_buffer_for_size(1).unwrap();
    assert_eq!(small.len(), 5 * 1024 * 1024);
    let boundary = pool.get_buffer_for_size(5 * 1024 * 1024).unwrap();
    assert_eq!(boundary.len(), 5 * 1024 * 1024);
    let large = pool.get_buffer_for_size(21 * 1024 * 1024).unwrap();
    assert_eq!(large.len(), 50 * 1024 * 1024);
    let (small_stats, _, large_stats) = pool.tier_stats();
    assert_eq!(small_stats, (2, 0));
    assert_eq!(large_stats, (1, 0));
}

#[test]
fn disabled_pool_allocates_exact_size() {
    let mut pool = ChunkDataPool::new(false);
    let buf = pool.get_buffer_for_size(123).unwrap();
    assert_eq!(buf.len(), 123);
    assert!(buf.iter().all(|b| *b == 0));
    pool.return_buffer(buf);
    let (small, medium, large) = pool.tier_stats();
    assert_eq!((small, medium, large), ((0, 0), (0, 0), (0, 0)));
}

#[test]
fn exhausted_tier_reports_none() {
    // cap of 2 buffers, none pre-allocated: two misses, then exhaustion
    let mut pool = BufferPool::new(1024, 0, 2);
    let a = pool.get_buffer().unwrap();
    let b = pool.get_buffer().unwrap();
    assert_eq!(a.len(), 1024);
    assert_eq!(b.len(), 1024);
    assert_eq!(pool.get_buffer(), None);
    assert_eq!(pool.get_stats(), (0, 2));
}

#[test]
fn returned_buffer_is_reused_as_hit() {
    let mut pool = BufferPool::new(1024, 0, 4);
    let buf = pool.get_buffer().unwrap();
    pool.return_buffer(buf);
    let again = pool.get_buffer().unwrap();
    assert_eq!(again.len(), 1024);
    assert_eq!(pool.get_stats(), (1, 1));
}

#[test]
fn stated_capacity_routes_release_to_its_tier() {
    // returning under an explicitly stated capacity pins the tier: the
    // 20 MiB buffer goes back to the medium free list and is reused
    let mut pool = ChunkDataPool::new(true);
    let buf = pool.get_buffer_for_size(6 * 1024 * 1024).unwrap();
    let len = buf.len();
    pool.return_buffer_with_capacity(buf, len);
    let again = pool.get_buffer_for_size(7 * 1024 * 1024).unwrap();
    assert_eq!(again.len(), 20 * 1024 * 1024);
    let (_, medium, _) = pool.tier_stats();
    assert_eq!(medium, (2, 0)); // both acquisitions served from the free list
}

#[test]
fn release_then_acquire_keeps_capacity() {
    // same size class after a round trip: the same fixed tier size comes back
    let mut pool = ChunkDataPool::new(true);
    let buf = pool.get_buffer_for_size(6 * 1024 * 1024).unwrap();
    let cap = buf.capacity();
    pool.return_buffer(buf);
    let again = pool.get_buffer_for_size(7 * 1024 * 1024).unwrap();
    assert_eq!(again.len(), 20 * 1024 * 1024);
    assert_eq!(again.capacity(), cap);
}

#[test]
fn free_list_is_bounded_to_half_the_cap() {
    // max_buffers = 2, so at most one buffer is retained on the free list
    let mut pool = BufferPool::new(64, 0, 2);
    let a = pool.get_buffer().unwrap();
    let b = pool.get_buffer().unwrap();
    pool.return_buffer(a);
    pool.return_buffer(b); // dropped: the list already holds max_buffers / 2
    let first = pool.get_buffer().unwrap(); // the one retained buffer
    assert_eq!(first.len(), 64);
    assert_eq!(pool.get_stats(), (1, 2));
    assert_eq!(pool.get_buffer(), None); // cap of 2 still allocated
}

#[test]
fn undersized_buffer_is_not_retained() {
    let mut pool = BufferPool::new(1024, 0, 8);
    let _ = pool.get_buffer().unwrap();
    pool.return_buffer(Vec::new()); // capacity below the tier size: dropped
    let next = pool.get_buffer().unwrap();
    assert_eq!(next.len(), 1024);
    assert_eq!(pool.get_stats(), (0, 2)); // both were misses
}

#[test]
fn allocation_cap_holds_across_many_cycles() {
    // repeated acquire/release cycles never allocate beyond the cap: after
    // the warm-up misses, every acquire is a hit from the free list
    let mut pool = BufferPool::new(256, 0, 4);
    for _ in 0..100 {
        let buf = pool.get_buffer().unwrap();
        pool.return_buffer(buf);
    }
    let (hits, misses) = pool.get_stats();
    assert_eq!(hits + misses, 100);
    assert!(misses <= 4);
    // fill the tier completely: exactly the cap can be outstanding at once
    let mut held = Vec::new();
    while let Some(buf) = pool.get_buffer() {
        held.push(buf);
    }
    assert_eq!(held.len(), 4);
}

#[test]
fn fresh_buffers_are_zeroed() {
    let mut pool = BufferPool::new(1024, 1, 4);
    let mut buf = pool.get_buffer().unwrap();
    assert!(buf.iter().all(|b| *b == 0));
    // dirty the buffer, return it, and get it back cleared
    buf[0] = 0xFF;
    pool.return_buffer(buf);
    let again = pool.get_buffer().unwrap();
    assert_eq!(again.len(), 1024);
    assert!(again.iter().all(|b| *b == 0));
}
