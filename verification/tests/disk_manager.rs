use relationaldb::PAGE_SIZE;
use relationaldb::disk_manager::DiskManager;
use relationaldb::disk_manager::PageDevice;

struct Test {
    page_id: u32,
    data: Vec<u8>,
}

#[test]
fn disk_manager_test() {
    let mut page_device = DiskManager::new();
    let tests = [Test { page_id: 0, data: Vec::from("Hello World!!".as_bytes()) }];

    for test in tests {
        let data = test.data;
        let page_id = test.page_id;

        let data_size = data.len();
        let write_size = page_device.write_page(page_id, &data);
        assert_eq!(data_size, write_size, "write size test fail!!");

        let mut read_buf = vec![0u8; PAGE_SIZE];
        let read_size = page_device.read_page(page_id, &mut read_buf);
        assert_eq!(data_size, read_size, "read size test fail!!");
    }
}

// Bytes written to a page come back unchanged when read with an
// equal-or-larger buffer.
#[test]
fn write_then_read_roundtrip() {
    let mut dm = DiskManager::new();
    let data: Vec<u8> = Vec::from("page one payload".as_bytes());
    let n = dm.write_page(1, &data);
    assert_eq!(data.len(), n);

    let mut buf = vec![0xAAu8; PAGE_SIZE];
    let read = dm.read_page(1, &mut buf);
    assert_eq!(data.len(), read);
    assert_eq!(&buf[..read], &data[..]);
    // bytes past the short read keep the buffer's old content
    assert_eq!(buf[read], 0xAA);
}

// Reading a page at or past the current file extent returns a
// zero-length result, never an error.
#[test]
fn read_beyond_extent_returns_empty() {
    let mut dm = DiskManager::new();
    let mut buf = vec![0u8; PAGE_SIZE];
    assert_eq!(0, dm.read_page(5, &mut buf));

    dm.write_page(0, &[1u8]);
    assert_eq!(0, dm.read_page(1, &mut buf));
}

// Writing past the current extent grows the image and zero-fills the
// gap: page i occupies bytes [i * PAGE_SIZE, (i + 1) * PAGE_SIZE).
#[test]
fn write_gap_zero_fills() {
    let mut dm = DiskManager::new();
    let n = dm.write_page(2, &[b'a', b'b', b'c']);
    assert_eq!(3, n);
    assert_eq!(2 * PAGE_SIZE + 3, dm.image.len());
    assert!(dm.image[..2 * PAGE_SIZE].iter().all(|b| *b == 0));
    assert_eq!(&dm.image[2 * PAGE_SIZE..], b"abc");
}

// An empty buffer writes nothing and reports zero bytes written.
#[test]
fn write_empty_buffer_writes_nothing() {
    let mut dm = DiskManager::new();
    assert_eq!(0, dm.write_page(3, &[]));
    assert_eq!(0, dm.image.len());
}

// A buffer longer than a page is truncated to PAGE_SIZE bytes.
#[test]
fn write_truncates_to_page_size() {
    let mut dm = DiskManager::new();
    let data = vec![7u8; PAGE_SIZE + 10];
    assert_eq!(PAGE_SIZE, dm.write_page(0, &data));
    assert_eq!(PAGE_SIZE, dm.image.len());

    let mut buf = vec![0u8; PAGE_SIZE + 10];
    // reads are bounded by the page size as well
    assert_eq!(PAGE_SIZE, dm.read_page(0, &mut buf));
    assert!(buf[..PAGE_SIZE].iter().all(|b| *b == 7));
    assert_eq!(0, buf[PAGE_SIZE]);
}
