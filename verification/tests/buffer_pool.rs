use relationaldb::PAGE_SIZE;
use relationaldb::buffer_pool_manager::BufferPoolManager;
use relationaldb::disk_manager::DiskManager;

// The pool tracks explicit pin counts in place of shared-handle
// reference counts: a caller done with a page releases it with un_pin.
#[test]
fn buffer_pool_manager_test() {
    let disk_manager = DiskManager::new();
    let mut buffer_pool_manager = BufferPoolManager::new(4, disk_manager);

    let _header_page = buffer_pool_manager.new_page();
    {
        let table_page_1 = buffer_pool_manager.new_page();
        let page_id = table_page_1;
        buffer_pool_manager.un_pin(page_id);
    }
    let _table_page_2 = buffer_pool_manager.new_page();
    let _table_page_3 = buffer_pool_manager.new_page();
    {
        let table_page_4 = buffer_pool_manager.new_page();
        buffer_pool_manager.un_pin(table_page_4);
    }
    let _table_page_5 = buffer_pool_manager.new_page();

    if let Some(_) = buffer_pool_manager.fetch_page(11) {
        assert!(false);
    }
    buffer_pool_manager.flush_page(5);
}

// A page fetched right after new_page is a cache hit with identical
// zeroed content.
#[test]
fn new_then_fetch_returns_zeroed_content() {
    let mut pool = BufferPoolManager::new(4, DiskManager::new());
    let id = pool.new_page();
    let content = pool.fetch_page(id).expect("freshly created page must be fetchable");
    assert_eq!(vec![0u8; PAGE_SIZE], content);
}

// Content written to a page survives leaving the cache: a fresh fetch
// reads it back from disk.
#[test]
fn written_content_recoverable_from_disk() {
    let mut pool = BufferPoolManager::new(2, DiskManager::new());
    let id = pool.new_page();

    let mut pattern = vec![7u8; PAGE_SIZE];
    pattern[0] = 0xDE;
    pattern[PAGE_SIZE - 1] = 0xAD;
    assert!(pool.write_page_data(id, &pattern));

    pool.un_pin(id);
    pool.delete_page(id);
    assert!(!pool.contains_page(id));

    let fetched = pool.fetch_page(id).expect("deleted page still has its disk slot");
    assert_eq!(pattern, fetched);
}

// Filling a pool past capacity never evicts the page that was kept
// pinned; an unpinned one goes instead.
#[test]
fn eviction_spares_pinned_page() {
    let mut pool = BufferPoolManager::new(3, DiskManager::new());
    let first = pool.new_page();
    let second = pool.new_page();
    let third = pool.new_page();
    pool.un_pin(second);
    pool.un_pin(third);

    let fourth = pool.new_page();

    assert!(pool.contains_page(first));
    assert!(!pool.contains_page(second));
    assert!(pool.contains_page(third));
    assert!(pool.contains_page(fourth));
}

// Deleting a page that is not cached is a no-op and must not error.
#[test]
fn delete_uncached_page_is_noop() {
    let mut pool = BufferPoolManager::new(2, DiskManager::new());
    pool.delete_page(42);
    assert!(!pool.contains_page(42));

    // the pool still works normally afterwards
    let id = pool.new_page();
    assert!(pool.contains_page(id));
    pool.delete_page(99);
    assert!(pool.contains_page(id));
}

// flush_page forces the dirty buffer to disk at the page's offset.
#[test]
fn flush_page_writes_back() {
    let mut pool = BufferPoolManager::new(2, DiskManager::new());
    let id = pool.new_page();
    let pattern = vec![0x5Au8; PAGE_SIZE];
    assert!(pool.write_page_data(id, &pattern));

    pool.flush_page(id);
    let offset = id * PAGE_SIZE;
    assert_eq!(&pool.disk_manager.image[offset..offset + PAGE_SIZE], &pattern[..]);
}

// flush_all_page writes back every dirty frame.
#[test]
fn flush_all_pages_writes_back() {
    let mut pool = BufferPoolManager::new(4, DiskManager::new());
    let a = pool.new_page();
    let b = pool.new_page();
    let pa = vec![1u8; PAGE_SIZE];
    let pb = vec![2u8; PAGE_SIZE];
    assert!(pool.write_page_data(a, &pa));
    assert!(pool.write_page_data(b, &pb));

    pool.flush_all_page();
    assert_eq!(&pool.disk_manager.image[a * PAGE_SIZE..(a + 1) * PAGE_SIZE], &pa[..]);
    assert_eq!(&pool.disk_manager.image[b * PAGE_SIZE..(b + 1) * PAGE_SIZE], &pb[..]);
}

// Fetching a page the disk has never held yields None, not an error,
// and writing to an uncached page reports false.
#[test]
fn missing_page_signals_absent() {
    let mut pool = BufferPoolManager::new(2, DiskManager::new());
    assert!(pool.fetch_page(0).is_none());
    assert!(!pool.write_page_data(0, &vec![1u8; PAGE_SIZE]));
}

// A pool whose every frame is pinned beyond capacity is exhausted; an
// un_pin makes room again.
#[test]
fn cache_exhaustion_detectable() {
    let mut pool = BufferPoolManager::new(1, DiskManager::new());
    assert!(pool.can_make_room());
    let id = pool.new_page();
    assert!(!pool.can_make_room());

    pool.un_pin(id);
    assert!(pool.can_make_room());
    let next = pool.new_page();
    assert!(pool.contains_page(next));
    assert!(!pool.contains_page(id));
}
