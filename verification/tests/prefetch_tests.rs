use ytproxy::prefetch::ParallelDownloadManager;

#[test]
fn disabled_prefetch_emits_nothing() {
    let mut mgr = ParallelDownloadManager::new(2, 20 * 1024 * 1024, false, false);
    let ranges = mgr.should_prefetch("https://example.test/v", 0, 10 * 1024 * 1024);
    assert_eq!(ranges, vec![]);
}

#[test]
fn budget_limits_emitted_ranges() {
    // prefetch budget of 20 bytes at chunk size 10 allows two chunks, and
    // three concurrency slots leave room for both
    let mut mgr = ParallelDownloadManager::new(3, 20, true, false);
    let ranges = mgr.should_prefetch("u", 0, 10);
    assert_eq!(ranges, vec![(10, 19), (20, 29)]);
}

#[test]
fn concurrency_slots_limit_emitted_ranges() {
    // the byte budget would allow ten chunks, but one of the two slots stays
    // with the range being served
    let mut mgr = ParallelDownloadManager::new(2, 100, true, false);
    let ranges = mgr.should_prefetch("u", 0, 10);
    assert_eq!(ranges, vec![(10, 19)]);
}

#[test]
fn identical_second_call_emits_nothing() {
    let mut mgr = ParallelDownloadManager::new(3, 20, true, false);
    let first = mgr.should_prefetch("u", 0, 10);
    assert_eq!(first.len(), 2);
    let second = mgr.should_prefetch("u", 0, 10);
    assert_eq!(second, vec![]);
}

#[test]
fn tracked_ranges_are_not_emitted_again() {
    // the first call tracks [10,19]; a later call whose candidate starts
    // inside a tracked range skips it
    let mut mgr = ParallelDownloadManager::new(2, 10, true, false);
    assert_eq!(mgr.should_prefetch("u", 0, 10), vec![(10, 19)]);
    assert_eq!(mgr.should_prefetch("u", 5, 10), vec![]);
}

#[test]
fn resources_are_tracked_separately() {
    let mut mgr = ParallelDownloadManager::new(2, 10, true, false);
    assert_eq!(mgr.should_prefetch("u", 0, 10), vec![(10, 19)]);
    assert_eq!(mgr.should_prefetch("v", 0, 10), vec![(10, 19)]);
}

#[test]
fn far_jump_prunes_old_ranges() {
    let mut mgr = ParallelDownloadManager::new(2, 10, true, false);
    assert_eq!(mgr.should_prefetch("u", 0, 10), vec![(10, 19)]);
    // a request far ahead evicts everything tracked so far...
    assert_eq!(mgr.should_prefetch("u", 1000, 10), vec![(1010, 1019)]);
    // ...so the range near zero can be prefetched (and tracked) anew
    assert_eq!(mgr.should_prefetch("u", 0, 10), vec![(10, 19)]);
}

#[test]
fn stats_emission_is_rate_limited() {
    let mut mgr = ParallelDownloadManager::new(2, 10, true, true);
    let buf = mgr.get_download_buffer("u", 100).unwrap();
    assert!(mgr.return_download_buffer(buf, 100)); // first release: due
    let buf = mgr.get_download_buffer("u", 100).unwrap();
    assert!(!mgr.return_download_buffer(buf, 110)); // ten seconds: not yet
    let buf = mgr.get_download_buffer("u", 100).unwrap();
    assert!(mgr.return_download_buffer(buf, 130)); // thirty seconds: due
}

#[test]
fn stated_capacity_release_reaches_the_pool() {
    let mut mgr = ParallelDownloadManager::new(2, 10, true, true);
    let buf = mgr.get_download_buffer("u", 6 * 1024 * 1024).unwrap();
    let len = buf.len();
    assert!(mgr.return_download_buffer_with_capacity(buf, len, 0));
    let again = mgr.get_download_buffer("u", 6 * 1024 * 1024).unwrap();
    assert_eq!(again.len(), 20 * 1024 * 1024);
    let (_, medium, _) = mgr.pool_stats();
    assert_eq!(medium, (2, 0));
}

#[test]
fn download_buffers_come_from_the_tiers() {
    let mut mgr = ParallelDownloadManager::new(2, 10, true, true);
    let buf = mgr.get_download_buffer("u", 6 * 1024 * 1024).unwrap();
    assert_eq!(buf.len(), 20 * 1024 * 1024);
    mgr.return_download_buffer(buf, 0);
    let (_, medium, _) = mgr.pool_stats();
    assert_eq!(medium, (1, 0));
}
