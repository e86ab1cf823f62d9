use can_parser::memory_pool::{InternalPoolStats, MemoryPool, BUFFER_BYTES, STRING_BYTES};

#[test]
fn pool_starts_full() {
    let pool = MemoryPool::new(3);
    let s = pool.stats();
    assert_eq!(s.available_buffers, 6);
    assert_eq!(s.total_pool_size, 6);
    assert_eq!(s.total_allocated, 0);
    assert_eq!(s.total_freed, 0);
    assert_eq!(s.current_usage, 0);
    assert_eq!(s.peak_usage, 0);
}

#[test]
fn pool_buffer_round_trip() {
    let mut pool = MemoryPool::new(2);
    let mut b = pool.get_buffer().unwrap();
    assert!(b.is_empty());
    b.extend_from_slice(&[1, 2, 3]);
    let s = pool.stats();
    assert_eq!(s.available_buffers, 3);
    assert_eq!(s.current_usage, BUFFER_BYTES);
    assert_eq!(s.peak_usage, BUFFER_BYTES);
    pool.return_buffer(b);
    let s = pool.stats();
    assert_eq!(s.available_buffers, 4);
    assert_eq!(s.current_usage, 0);
    assert_eq!(s.total_allocated, BUFFER_BYTES);
    assert_eq!(s.total_freed, BUFFER_BYTES);
    assert_eq!(s.peak_usage, BUFFER_BYTES);
    let again = pool.get_buffer().unwrap();
    assert!(again.is_empty());
}

#[test]
fn pool_runs_dry() {
    let mut pool = MemoryPool::new(1);
    assert!(pool.get_buffer().is_some());
    assert!(pool.get_buffer().is_some());
    assert!(pool.get_buffer().is_none());
    let s = pool.stats();
    assert_eq!(s.available_buffers, 0);
    assert_eq!(s.current_usage, 2 * BUFFER_BYTES);
}

#[test]
fn pool_full_pool_drops_returned_buffer() {
    let mut pool = MemoryPool::new(1);
    pool.return_buffer(vec![1, 2, 3]);
    let s = pool.stats();
    assert_eq!(s.available_buffers, 2);
    assert_eq!(s.total_freed, 0);
    assert_eq!(s.current_usage, 0);
}

#[test]
fn pool_string_round_trip() {
    let mut pool = MemoryPool::new(1);
    let mut s = pool.get_string().unwrap();
    assert!(s.is_empty());
    assert!(pool.get_string().is_none());
    s.push_str("hello");
    assert_eq!(pool.stats().current_usage, STRING_BYTES);
    pool.return_string(s);
    assert_eq!(pool.stats().current_usage, 0);
    assert_eq!(pool.get_string().unwrap(), "");
}

#[test]
fn pool_default_size() {
    let pool = MemoryPool::default();
    assert_eq!(pool.stats().available_buffers, 2000);
}

#[test]
fn pool_stats_track_peak() {
    let mut st = InternalPoolStats::new();
    st.record_allocation(100);
    st.record_allocation(50);
    st.record_deallocation(120);
    assert_eq!(st.total_allocated, 150);
    assert_eq!(st.total_freed, 120);
    assert_eq!(st.current_usage, 30);
    assert_eq!(st.peak_usage, 150);
}

#[test]
fn pool_stats_wrap_like_atomics() {
    let mut st = InternalPoolStats::new();
    st.record_deallocation(1);
    assert_eq!(st.current_usage, usize::MAX);
    assert_eq!(st.total_freed, 1);
    assert_eq!(st.peak_usage, 0);
}
