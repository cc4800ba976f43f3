use station_stats::recycler::BufferRecycler;

#[test]
fn an_empty_pool_allocates_zeroed_buffers() {
    let mut recycler = BufferRecycler::new(4);
    assert_eq!(recycler.pooled(), 0);
    assert_eq!(recycler.acquire(4), vec![0u8; 4]);
    assert_eq!(recycler.acquire(0), Vec::<u8>::new());
    assert_eq!(recycler.pooled(), 0);
}

#[test]
fn a_released_buffer_comes_back_as_it_is() {
    let mut recycler = BufferRecycler::new(4);
    recycler.release(b"abcdef".to_vec());
    assert_eq!(recycler.pooled(), 1);
    assert_eq!(recycler.acquire(4), b"abcdef".to_vec());
    assert_eq!(recycler.pooled(), 0);
}

#[test]
fn a_buffer_that_is_too_small_stays_in_the_pool() {
    let mut recycler = BufferRecycler::new(4);
    recycler.release(b"ab".to_vec());
    assert_eq!(recycler.acquire(4), vec![0u8; 4]);
    assert_eq!(recycler.pooled(), 1);
    assert_eq!(recycler.acquire(2), b"ab".to_vec());
    assert_eq!(recycler.pooled(), 0);
}

#[test]
fn the_first_buffer_that_fits_is_handed_out() {
    let mut recycler = BufferRecycler::new(4);
    recycler.release(b"a".to_vec());
    recycler.release(b"bbbb".to_vec());
    recycler.release(b"cc".to_vec());
    recycler.release(b"dddddd".to_vec());
    assert_eq!(recycler.acquire(2), b"bbbb".to_vec());
    assert_eq!(recycler.acquire(2), b"cc".to_vec());
    assert_eq!(recycler.acquire(2), b"dddddd".to_vec());
    assert_eq!(recycler.acquire(2), vec![0u8; 2]);
    assert_eq!(recycler.pooled(), 1);
    assert_eq!(recycler.acquire(0), b"a".to_vec());
}

#[test]
fn a_full_pool_lets_buffers_go() {
    let mut recycler = BufferRecycler::new(2);
    assert_eq!(recycler.slots(), 2);
    recycler.release(b"aa".to_vec());
    recycler.release(b"bb".to_vec());
    recycler.release(b"cc".to_vec());
    assert_eq!(recycler.pooled(), 2);
    assert_eq!(recycler.acquire(1), b"aa".to_vec());
    assert_eq!(recycler.acquire(1), b"bb".to_vec());
    assert_eq!(recycler.acquire(1), vec![0u8; 1]);
    let mut none = BufferRecycler::new(0);
    none.release(b"aa".to_vec());
    assert_eq!(none.pooled(), 0);
}
