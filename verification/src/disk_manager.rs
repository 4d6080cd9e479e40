//! Disk manager: page-granular byte storage over a single flat image.
//! Page `i` occupies bytes `[i * PAGE_SIZE, (i + 1) * PAGE_SIZE)`; a
//! write past the current extent grows the image, zero-filling any gap,
//! and a read past the extent is a short (possibly empty) read, never an
//! error. No caching, no policy: a pure persistence primitive. The
//! surrounding application loads the image from the backing file and
//! stores it back; the page arithmetic lives here.

use vstd::prelude::*;
use crate::PAGE_SIZE;

verus! {

/// Byte position where a page starts.
pub open spec fn page_offset(page_id: u32) -> int {
    page_id as int * PAGE_SIZE as int
}

/// The byte at position `i` after writing `data` at `offset`: bytes in
/// the written window come from `data`, bytes below the old extent keep
/// their value, and any gap opened between the old extent and the window
/// is zero-filled.
pub open spec fn byte_after_write(file: Seq<u8>, offset: int, data: Seq<u8>, i: int) -> u8 {
    if offset <= i < offset + data.len() {
        data[i - offset]
    } else if 0 <= i < file.len() {
        file[i]
    } else {
        0u8
    }
}

/// The whole image after writing `data` at `offset`.
pub open spec fn write_at(file: Seq<u8>, offset: int, data: Seq<u8>) -> Seq<u8> {
    let newlen = if file.len() >= offset + data.len() {
        file.len() as int
    } else {
        offset + data.len()
    };
    Seq::new(newlen as nat, |i: int| byte_after_write(file, offset, data, i))
}

/// How many bytes a read of `page_id` into a buffer of `buf_len` bytes
/// returns: the request is bounded by the buffer and the page size, an
/// offset at or past the extent yields nothing, and a read running past
/// the extent is truncated.
pub open spec fn read_len_spec(file: Seq<u8>, page_id: u32, buf_len: int) -> int {
    let req = if buf_len > PAGE_SIZE as int {
        PAGE_SIZE as int
    } else {
        buf_len
    };
    if req == 0 {
        0
    } else if page_offset(page_id) >= file.len() {
        0
    } else if req > file.len() - page_offset(page_id) {
        file.len() - page_offset(page_id)
    } else {
        req
    }
}

/// Read/write of one page by index. The disk manager implements it over
/// its flat image; another page device (a remote one, say) may implement
/// it over a different medium.
pub trait PageDevice {
    /// The full byte image the device currently holds.
    spec fn contents(&self) -> Seq<u8>;

    /// Writes up to `PAGE_SIZE` bytes of `page_data` at the page's
    /// offset and returns how many were written; an empty buffer writes
    /// nothing.
    fn write_page(&mut self, page_id: u32, page_data: &[u8]) -> (n: usize)
        requires
            page_offset(page_id) + PAGE_SIZE as int <= usize::MAX as int,
        ensures
            page_data@.len() == 0 ==> n == 0 && final(self).contents() == old(self).contents(),
            page_data@.len() > 0 ==> {
                &&& n == if page_data@.len() > PAGE_SIZE as int {
                    PAGE_SIZE as int
                } else {
                    page_data@.len() as int
                }
                &&& final(self).contents() == write_at(
                    old(self).contents(),
                    page_offset(page_id),
                    page_data@.take(n as int),
                )
            },
    ;

    /// Reads up to `PAGE_SIZE` bytes (bounded by the buffer's size) from
    /// the page's offset into the front of `page_data`, leaving the rest
    /// of the buffer as it was, and returns how many bytes were read. A
    /// page at or past the current extent reads as zero-length.
    fn read_page(&self, page_id: u32, page_data: &mut Vec<u8>) -> (n: usize)
        requires
            page_offset(page_id) + PAGE_SIZE as int <= usize::MAX as int,
        ensures
            n == read_len_spec(self.contents(), page_id, old(page_data)@.len() as int),
            page_offset(page_id) >= self.contents().len() ==> n == 0,
            final(page_data)@.len() == old(page_data)@.len(),
            forall|k: int|
                0 <= k < n ==> final(page_data)@[k] == self.contents()[page_offset(page_id) + k],
            forall|k: int|
                n <= k < old(page_data)@.len() ==> final(page_data)@[k] == old(page_data)@[k],
    ;
}

/// Holds the database image: one flat run of bytes in which page `i`
/// lives at offset `i * PAGE_SIZE`.
pub struct DiskManager {
    pub image: Vec<u8>,
}

impl DiskManager {
    /// A disk manager over an empty image, as over a freshly created
    /// database file.
    pub fn new() -> (r: DiskManager)
        ensures
            r.image@ == Seq::<u8>::empty(),
    {
        DiskManager { image: Vec::new() }
    }

    /// A disk manager over an existing image, as loaded from a backing
    /// file.
    pub fn from_image(image: Vec<u8>) -> (r: DiskManager)
        ensures
            r.image@ == image@,
    {
        DiskManager { image }
    }
}

impl PageDevice for DiskManager {
    open spec fn contents(&self) -> Seq<u8> {
        self.image@
    }

    #[verifier::loop_isolation(false)]
    fn write_page(&mut self, page_id: u32, page_data: &[u8]) -> (n: usize) {
        let mut write_len: usize = page_data.len();
        if write_len > PAGE_SIZE {
            write_len = PAGE_SIZE;
        } else if write_len == 0 {
            return 0;
        }
        let offset: usize = (page_id as usize) * PAGE_SIZE;
        let ghost old_file = self.image@;

        while self.image.len() < offset
            invariant
                self.image@.len() >= old_file.len(),
                self.image@.len() <= offset || self.image@.len() == old_file.len(),
                forall|k: int|
                    0 <= k < self.image@.len() ==> self.image@[k] == (if k < old_file.len() {
                        old_file[k]
                    } else {
                        0u8
                    }),
            decreases offset - self.image@.len(),
        {
            self.image.push(0u8);
        }
        let ghost base = self.image@;

        let mut i: usize = 0;
        while i < write_len
            invariant
                i <= write_len,
                self.image@.len() == if base.len() >= offset + i {
                    base.len() as int
                } else {
                    offset + i
                },
                forall|k: int|
                    0 <= k < self.image@.len() ==> self.image@[k] == (if offset <= k < offset + i {
                        page_data@[k - offset]
                    } else {
                        base[k]
                    }),
            decreases write_len - i,
        {
            let b = page_data[i];
            let pos = offset + i;
            if pos < self.image.len() {
                self.image[pos] = b;
            } else {
                self.image.push(b);
            }
            i += 1;
        }

        proof {
            assert(self.image@ =~= write_at(old_file, offset as int, page_data@.take(
                write_len as int,
            )));
        }
        write_len
    }

    #[verifier::loop_isolation(false)]
    fn read_page(&self, page_id: u32, page_data: &mut Vec<u8>) -> (n: usize) {
        let mut read_len: usize = page_data.len();
        if read_len > PAGE_SIZE {
            read_len = PAGE_SIZE;
        } else if read_len == 0 {
            return 0;
        }
        let offset: usize = (page_id as usize) * PAGE_SIZE;
        let file_size: usize = self.image.len();
        if offset >= file_size {
            return 0;
        }
        if read_len > file_size - offset {
            read_len = file_size - offset;
        }

        let mut k: usize = 0;
        while k < read_len
            invariant
                k <= read_len,
                page_data@.len() == old(page_data)@.len(),
                forall|j: int| 0 <= j < k ==> page_data@[j] == self.image@[offset + j],
                forall|j: int|
                    k <= j < old(page_data)@.len() ==> page_data@[j] == old(page_data)@[j],
            decreases read_len - k,
        {
            let b = self.image[offset + k];
            page_data[k] = b;
            k += 1;
        }
        read_len
    }
}

/// Law: after a write, reading the same page back with an equal-or-larger
/// buffer yields at least the written bytes, and those bytes are exactly
/// the ones written (the data truncated to the page size).
pub proof fn lemma_write_then_read(file: Seq<u8>, page_id: u32, data: Seq<u8>, buf_len: int)
    requires
        0 < data.len(),
        data.len() <= buf_len,
    ensures
        ({
            let wlen = if data.len() > PAGE_SIZE as int {
                PAGE_SIZE as int
            } else {
                data.len() as int
            };
            let written = write_at(file, page_offset(page_id), data.take(wlen));
            &&& read_len_spec(written, page_id, buf_len) >= wlen
            &&& forall|k: int| 0 <= k < wlen ==> written[page_offset(page_id) + k] == data[k]
        }),
{
    let wlen = if data.len() > PAGE_SIZE as int {
        PAGE_SIZE as int
    } else {
        data.len() as int
    };
    let off = page_offset(page_id);
    let written = write_at(file, off, data.take(wlen));
    assert(written.len() >= off + wlen);
    assert forall|k: int| 0 <= k < wlen implies written[off + k] == data[k] by {
        assert(written[off + k] == byte_after_write(file, off, data.take(wlen), off + k));
    }
}

} // verus!
