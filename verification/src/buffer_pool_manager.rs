//! Buffer pool manager: a bounded, insertion-ordered cache of page
//! frames in front of the disk manager. Callers pin pages while using
//! them; unpinned frames become eviction candidates for the CLOCK
//! replacer; dirty frames are written back before their buffer is
//! discarded. In place of shared handles with a queried reference count,
//! the pool keeps an explicit pin count per frame: `new_page` and a
//! cache hit raise it, `un_pin` lowers it, and the eviction fallback
//! looks for a frame whose count has dropped to zero.

use vstd::prelude::*;
use crate::PAGE_SIZE;
use crate::clock_replacer::ClockReplacer;
use crate::clock_replacer::FrameRecord;
use crate::clock_replacer::un_pin_spec;
use crate::clock_replacer::pin_spec;
use crate::clock_replacer::victim_spec;
use crate::clock_replacer::victim_result;
use crate::clock_replacer::lemma_find_flagged_props;
use crate::disk_manager::DiskManager;
use crate::disk_manager::PageDevice;
use crate::disk_manager::write_at;

verus! {

/// An all-zero page.
pub open spec fn zero_page() -> Seq<u8> {
    Seq::new(PAGE_SIZE as nat, |i: int| 0u8)
}

/// The `PAGE_SIZE`-byte content of page `page_id` as the disk image
/// holds it: bytes past the image's extent read as zero.
pub open spec fn page_image(file: Seq<u8>, page_id: usize) -> Seq<u8> {
    Seq::new(
        PAGE_SIZE as nat,
        |k: int|
            if page_id * PAGE_SIZE + k < file.len() {
                file[page_id * PAGE_SIZE + k]
            } else {
                0u8
            },
    )
}

/// One cached page: its buffer, its identity, whether the buffer has
/// been modified since the last write-back, and how many callers hold
/// it pinned.
pub struct BufferPoolCache {
    pub cache: Vec<u8>,
    pub page_id: usize,
    pub modified: bool,
    pub pin_count: usize,
}

/// A frame as `create` and `read` hand it out: carrying `content` for
/// page `id`, clean, and pinned once by the requesting caller.
pub open spec fn is_fresh_frame(f: BufferPoolCache, id: usize, content: Seq<u8>) -> bool {
    &&& f.page_id == id
    &&& f.modified == false
    &&& f.pin_count == 1
    &&& f.cache@ == content
}

/// The disk image after a frame's write-back: unchanged if the frame is
/// clean, else with the frame's buffer written at its page's offset.
pub open spec fn sync_spec(file: Seq<u8>, frame: BufferPoolCache) -> Seq<u8> {
    if frame.modified {
        write_at(file, frame.page_id * PAGE_SIZE, frame.cache@)
    } else {
        file
    }
}

/// The disk image after writing back every frame of `frames`, front to
/// back.
pub open spec fn sync_all_spec(file: Seq<u8>, frames: Seq<BufferPoolCache>) -> Seq<u8>
    decreases frames.len(),
{
    if frames.len() == 0 {
        file
    } else {
        sync_spec(sync_all_spec(file, frames.drop_last()), frames.last())
    }
}

/// Index of the first frame caching `id`, if any.
pub open spec fn find_page(q: Seq<BufferPoolCache>, id: usize) -> Option<int>
    decreases q.len(),
{
    if q.len() == 0 {
        None
    } else if q[0].page_id == id {
        Some(0)
    } else {
        match find_page(q.drop_first(), id) {
            Some(i) => Some(i + 1),
            None => None,
        }
    }
}

/// Index of the first frame no caller holds pinned, if any.
pub open spec fn find_unpinned(q: Seq<BufferPoolCache>) -> Option<int>
    decreases q.len(),
{
    if q.len() == 0 {
        None
    } else if q[0].pin_count == 0 {
        Some(0)
    } else {
        match find_unpinned(q.drop_first()) {
            Some(i) => Some(i + 1),
            None => None,
        }
    }
}

pub proof fn lemma_find_page_props(q: Seq<BufferPoolCache>, id: usize)
    ensures
        match find_page(q, id) {
            Some(i) => 0 <= i < q.len() && q[i].page_id == id && (forall|j: int|
                0 <= j < i ==> q[j].page_id != id),
            None => forall|j: int| 0 <= j < q.len() ==> q[j].page_id != id,
        },
    decreases q.len(),
{
    if q.len() > 0 && q[0].page_id != id {
        let qd = q.drop_first();
        lemma_find_page_props(qd, id);
        match find_page(qd, id) {
            Some(i) => {
                assert(q[i + 1] == qd[i]);
                assert forall|j: int| 0 <= j < i + 1 implies q[j].page_id != id by {
                    if j > 0 {
                        assert(qd[j - 1] == q[j]);
                    }
                }
            },
            None => {
                assert forall|j: int| 0 <= j < q.len() implies q[j].page_id != id by {
                    if j > 0 {
                        assert(qd[j - 1] == q[j]);
                    }
                }
            },
        }
    }
}

pub proof fn lemma_find_page_is_first(q: Seq<BufferPoolCache>, id: usize, i: int)
    requires
        0 <= i < q.len(),
        q[i].page_id == id,
        forall|j: int| 0 <= j < i ==> q[j].page_id != id,
    ensures
        find_page(q, id) == Some(i),
    decreases q.len(),
{
    if i > 0 {
        lemma_find_page_is_first(q.drop_first(), id, i - 1);
    }
}

pub proof fn lemma_find_page_none(q: Seq<BufferPoolCache>, id: usize)
    requires
        forall|j: int| 0 <= j < q.len() ==> q[j].page_id != id,
    ensures
        find_page(q, id) is None,
    decreases q.len(),
{
    if q.len() > 0 {
        lemma_find_page_none(q.drop_first(), id);
    }
}

pub proof fn lemma_find_unpinned_props(q: Seq<BufferPoolCache>)
    ensures
        match find_unpinned(q) {
            Some(i) => 0 <= i < q.len() && q[i].pin_count == 0 && (forall|j: int|
                0 <= j < i ==> q[j].pin_count != 0),
            None => forall|j: int| 0 <= j < q.len() ==> q[j].pin_count != 0,
        },
    decreases q.len(),
{
    if q.len() > 0 && q[0].pin_count != 0 {
        let qd = q.drop_first();
        lemma_find_unpinned_props(qd);
        match find_unpinned(qd) {
            Some(i) => {
                assert(q[i + 1] == qd[i]);
                assert forall|j: int| 0 <= j < i + 1 implies q[j].pin_count != 0 by {
                    if j > 0 {
                        assert(qd[j - 1] == q[j]);
                    }
                }
            },
            None => {
                assert forall|j: int| 0 <= j < q.len() implies q[j].pin_count != 0 by {
                    if j > 0 {
                        assert(qd[j - 1] == q[j]);
                    }
                }
            },
        }
    }
}

pub proof fn lemma_find_unpinned_is_first(q: Seq<BufferPoolCache>, i: int)
    requires
        0 <= i < q.len(),
        q[i].pin_count == 0,
        forall|j: int| 0 <= j < i ==> q[j].pin_count != 0,
    ensures
        find_unpinned(q) == Some(i),
    decreases q.len(),
{
    if i > 0 {
        lemma_find_unpinned_is_first(q.drop_first(), i - 1);
    }
}

pub proof fn lemma_find_unpinned_none(q: Seq<BufferPoolCache>)
    requires
        forall|j: int| 0 <= j < q.len() ==> q[j].pin_count != 0,
    ensures
        find_unpinned(q) is None,
    decreases q.len(),
{
    if q.len() > 0 {
        lemma_find_unpinned_none(q.drop_first());
    }
}

/// No two frames cache the same page.
pub open spec fn unique_pages(q: Seq<BufferPoolCache>) -> bool {
    forall|i: int, j: int| 0 <= i < j < q.len() ==> q[i].page_id != q[j].page_id
}

/// Every frame holds a full page buffer for a page whose offset the
/// machine can address.
pub open spec fn frames_wf(q: Seq<BufferPoolCache>) -> bool {
    forall|i: int|
        0 <= i < q.len() ==> {
            &&& (#[trigger] q[i]).cache@.len() == PAGE_SIZE
            &&& q[i].page_id <= u32::MAX
            &&& (q[i].page_id + 1) * PAGE_SIZE <= usize::MAX
        }
}

proof fn lemma_pages_remove(q: Seq<BufferPoolCache>, i: int, bound: usize)
    requires
        0 <= i < q.len(),
        unique_pages(q),
        frames_wf(q),
        forall|k: int| 0 <= k < q.len() ==> (#[trigger] q[k]).page_id < bound,
    ensures
        unique_pages(q.remove(i)),
        frames_wf(q.remove(i)),
        forall|k: int| 0 <= k < q.remove(i).len() ==> (#[trigger] q.remove(i)[k]).page_id < bound,
{
    let q2 = q.remove(i);
    assert forall|j: int| 0 <= j < q2.len() implies {
        &&& (#[trigger] q2[j]).cache@.len() == PAGE_SIZE
        &&& q2[j].page_id <= u32::MAX
        &&& (q2[j].page_id + 1) * PAGE_SIZE <= usize::MAX
        &&& q2[j].page_id < bound
    } by {
        if j < i {
            assert(q2[j] == q[j]);
        } else {
            assert(q2[j] == q[j + 1]);
        }
    }
    assert forall|a: int, b: int| 0 <= a < b < q2.len() implies q2[a].page_id != q2[b].page_id by {
        let a2: int = if a < i {
            a
        } else {
            a + 1
        };
        let b2: int = if b < i {
            b
        } else {
            b + 1
        };
        assert(q2[a] == q[a2]);
        assert(q2[b] == q[b2]);
    }
}

proof fn lemma_pages_push(q: Seq<BufferPoolCache>, f: BufferPoolCache)
    requires
        unique_pages(q),
        frames_wf(q),
        forall|j: int| 0 <= j < q.len() ==> q[j].page_id != f.page_id,
        f.cache@.len() == PAGE_SIZE,
        f.page_id <= u32::MAX,
        (f.page_id + 1) * PAGE_SIZE <= usize::MAX,
    ensures
        unique_pages(q.push(f)),
        frames_wf(q.push(f)),
{
    let q2 = q.push(f);
    assert forall|a: int, b: int| 0 <= a < b < q2.len() implies q2[a].page_id != q2[b].page_id by {
        assert(q2[a] == q[a]);
        if b < q.len() {
            assert(q2[b] == q[b]);
        } else {
            assert(q2[b] == f);
        }
    }
    assert forall|i: int| 0 <= i < q2.len() implies {
        &&& (#[trigger] q2[i]).cache@.len() == PAGE_SIZE
        &&& q2[i].page_id <= u32::MAX
        &&& (q2[i].page_id + 1) * PAGE_SIZE <= usize::MAX
    } by {
        if i < q.len() {
            assert(q2[i] == q[i]);
        } else {
            assert(q2[i] == f);
        }
    }
}

impl BufferPoolCache {
    /// A freshly allocated, zero-filled frame for `page_id`, written
    /// through to the disk manager at once so the page's disk slot
    /// exists before any content write.
    pub fn create(page_id: usize, disk_manager: &mut DiskManager) -> (r: Self)
        requires
            page_id <= u32::MAX,
            (page_id + 1) * PAGE_SIZE <= usize::MAX,
        ensures
            is_fresh_frame(r, page_id, zero_page()),
            final(disk_manager).image@ == write_at(
                old(disk_manager).image@,
                page_id * PAGE_SIZE,
                zero_page(),
            ),
    {
        let page_data: Vec<u8> = vec![0u8; PAGE_SIZE];
        proof {
            assert(page_data@ =~= zero_page());
        }
        disk_manager.write_page(page_id as u32, page_data.as_slice());
        proof {
            assert(page_data@.take(PAGE_SIZE as int) =~= zero_page());
        }
        Self { cache: page_data, page_id, modified: false, pin_count: 1 }
    }

    /// The frame for `page_id` as read from disk, or `None` if the page
    /// lies wholly past the image's extent (it was never written).
    pub fn read(page_id: usize, disk_manager: &DiskManager) -> (r: Option<Self>)
        requires
            page_id <= u32::MAX,
            (page_id + 1) * PAGE_SIZE <= usize::MAX,
        ensures
            r is Some <==> page_id * PAGE_SIZE < disk_manager.image@.len(),
            r matches Some(f) ==> is_fresh_frame(
                f,
                page_id,
                page_image(disk_manager.image@, page_id),
            ),
    {
        let mut page_data: Vec<u8> = vec![0u8; PAGE_SIZE];
        let state = disk_manager.read_page(page_id as u32, &mut page_data);
        if state == 0 {
            None
        } else {
            proof {
                assert(page_data@ =~= page_image(disk_manager.image@, page_id));
            }
            Some(Self { cache: page_data, page_id, modified: false, pin_count: 1 })
        }
    }

    /// Writes the buffer back to disk if it has been modified, and marks
    /// the frame clean again.
    pub fn sync(&mut self, disk_manager: &mut DiskManager)
        requires
            old(self).cache@.len() == PAGE_SIZE,
            old(self).page_id <= u32::MAX,
            (old(self).page_id + 1) * PAGE_SIZE <= usize::MAX,
        ensures
            final(disk_manager).image@ == sync_spec(old(disk_manager).image@, *old(self)),
            *final(self) == (BufferPoolCache { modified: false, ..*old(self) }),
    {
        if self.modified {
            disk_manager.write_page(self.page_id as u32, self.cache.as_slice());
            proof {
                assert(self.cache@.take(PAGE_SIZE as int) =~= self.cache@);
            }
            self.modified = false;
        }
    }
}

/// A pin count raised by one more holder, stopping at the largest
/// representable count.
pub open spec fn bump(c: usize) -> usize {
    if c < usize::MAX {
        (c + 1) as usize
    } else {
        c
    }
}

/// A pin count released by one holder, stopping at zero.
pub open spec fn lower(c: usize) -> usize {
    if c > 0 {
        (c - 1) as usize
    } else {
        0
    }
}

/// Whether the make-room step, facing a full cache with replacer ring
/// `rq`, has a frame it may evict: the replacer's victim must be cached,
/// or, failing any victim, some frame must be held by no caller.
pub open spec fn room_ok_views(q: Seq<BufferPoolCache>, rq: Seq<FrameRecord>) -> bool {
    match victim_result(rq) {
        Some(vid) => find_page(q, vid) is Some,
        None => find_unpinned(q) is Some,
    }
}

/// Which frame the make-room step evicts from a full cache.
pub open spec fn evict_index_of(q: Seq<BufferPoolCache>, rq: Seq<FrameRecord>) -> int {
    match victim_result(rq) {
        Some(vid) => match find_page(q, vid) {
            Some(i) => i,
            None => 0,
        },
        None => match find_unpinned(q) {
            Some(i) => i,
            None => 0,
        },
    }
}

/// The cache after the make-room step.
pub open spec fn checked_queue_views(
    q: Seq<BufferPoolCache>,
    rq: Seq<FrameRecord>,
    full: bool,
) -> Seq<BufferPoolCache> {
    if full {
        q.remove(evict_index_of(q, rq))
    } else {
        q
    }
}

/// The replacer ring after the make-room step.
pub open spec fn checked_replacer_views(rq: Seq<FrameRecord>, full: bool) -> Seq<FrameRecord> {
    if full {
        victim_spec(rq)
    } else {
        rq
    }
}

/// The disk image after the make-room step (the evicted frame written
/// back if dirty).
pub open spec fn checked_disk_views(
    file: Seq<u8>,
    q: Seq<BufferPoolCache>,
    rq: Seq<FrameRecord>,
    full: bool,
) -> Seq<u8> {
    if full {
        sync_spec(file, q[evict_index_of(q, rq)])
    } else {
        file
    }
}

/// A byte-for-byte copy of a page buffer.
#[verifier::loop_isolation(false)]
fn copy_page(src: &Vec<u8>) -> (r: Vec<u8>)
    ensures
        r@ == src@,
{
    let mut r: Vec<u8> = Vec::new();
    let mut i: usize = 0;
    while i < src.len()
        invariant
            i <= src@.len(),
            r@ == src@.take(i as int),
        decreases src@.len() - i,
    {
        r.push(src[i]);
        proof {
            assert(src@.take(i + 1) =~= src@.take(i as int).push(src@[i as int]));
        }
        i += 1;
    }
    proof {
        assert(src@.take(src@.len() as int) =~= src@);
    }
    r
}

/// Putting a frame back where one was just removed is an in-place
/// replacement.
proof fn lemma_remove_insert(q: Seq<BufferPoolCache>, i: int, f: BufferPoolCache)
    requires
        0 <= i < q.len(),
    ensures
        q.remove(i).insert(i, f) == q.update(i, f),
{
    assert(q.remove(i).insert(i, f) =~= q.update(i, f));
}

/// Replacing a frame by one for the same page with a full buffer keeps
/// the pool's frame invariants.
proof fn lemma_update_same_page(q: Seq<BufferPoolCache>, i: int, f: BufferPoolCache, bound: usize)
    requires
        0 <= i < q.len(),
        unique_pages(q),
        frames_wf(q),
        forall|k: int| 0 <= k < q.len() ==> (#[trigger] q[k]).page_id < bound,
        f.page_id == q[i].page_id,
        f.cache@.len() == q[i].cache@.len(),
    ensures
        unique_pages(q.update(i, f)),
        frames_wf(q.update(i, f)),
        forall|k: int|
            0 <= k < q.update(i, f).len() ==> (#[trigger] q.update(i, f)[k]).page_id < bound,
{
}

/// Page frames cached in front of a disk manager, with the CLOCK
/// replacer deciding evictions and a monotone counter assigning fresh
/// page indices. The stride and instance fields are scaffolding for a
/// future partitioned pool; a single instance uses stride one.
pub struct BufferPoolManager {
    pub queue: Vec<BufferPoolCache>,
    pub disk_manager: DiskManager,
    pub pool_size: usize,
    pub num_instance: usize,
    pub instance_index: usize,
    pub next_page_id: usize,
    pub clock_replacer: ClockReplacer,
}

impl BufferPoolManager {
    /// The pool's invariant: the cache never outgrows the pool size,
    /// caches each page at most once in full well-addressed frames, only
    /// holds pages its counter has already handed out, and keeps the
    /// replacer's ring well-formed at the pool's own capacity.
    pub open spec fn wf(self) -> bool {
        &&& self.queue@.len() <= self.pool_size
        &&& unique_pages(self.queue@)
        &&& frames_wf(self.queue@)
        &&& forall|i: int|
            0 <= i < self.queue@.len() ==> (#[trigger] self.queue@[i]).page_id
                < self.next_page_id
        &&& self.clock_replacer.wf()
        &&& self.clock_replacer.num_pages == self.pool_size
        &&& self.num_instance == 1
        &&& self.instance_index == 0
    }

    /// Whether `page_id` currently has a cached frame.
    pub open spec fn is_cached(self, page_id: usize) -> bool {
        find_page(self.queue@, page_id) is Some
    }

    /// Whenever the cache is at capacity, eviction can proceed; an
    /// operation that may need to make room requires this, since a pool
    /// with every frame pinned beyond capacity is an unrecoverable
    /// misconfiguration.
    pub open spec fn room_ok(self) -> bool {
        self.queue@.len() == self.pool_size ==> room_ok_views(
            self.queue@,
            self.clock_replacer.queue@,
        )
    }

    /// A pool of `pool_size` frames in front of `disk_manager`, with an
    /// empty cache and the page counter at zero.
    pub fn new(pool_size: usize, disk_manager: DiskManager) -> (r: Self)
        ensures
            r.wf(),
            r.queue@ == Seq::<BufferPoolCache>::empty(),
            r.disk_manager.image@ == disk_manager.image@,
            r.pool_size == pool_size,
            r.next_page_id == 0,
            r.clock_replacer.queue@ == Seq::<FrameRecord>::empty(),
    {
        Self {
            queue: Vec::new(),
            pool_size,
            disk_manager,
            num_instance: 1,
            instance_index: 0,
            next_page_id: 0,
            clock_replacer: ClockReplacer::new(pool_size),
        }
    }

    /// Index of the cached frame for `page_id`, if any.
    #[verifier::loop_isolation(false)]
    fn find_index(&self, page_id: usize) -> (r: Option<usize>)
        ensures
            r is Some <==> find_page(self.queue@, page_id) is Some,
            r matches Some(i) ==> find_page(self.queue@, page_id) == Some(i as int) && i
                < self.queue@.len() && self.queue@[i as int].page_id == page_id,
    {
        let n = self.queue.len();
        let mut i: usize = 0;
        while i < n
            invariant
                i <= n,
                forall|j: int| 0 <= j < i ==> self.queue@[j].page_id != page_id,
            decreases n - i,
        {
            if self.queue[i].page_id == page_id {
                proof {
                    lemma_find_page_is_first(self.queue@, page_id, i as int);
                }
                return Some(i);
            }
            i += 1;
        }
        proof {
            lemma_find_page_none(self.queue@, page_id);
        }
        None
    }

    /// Whether the pool currently caches `page_id`.
    pub fn contains_page(&self, page_id: usize) -> (r: bool)
        ensures
            r == self.is_cached(page_id),
    {
        self.find_index(page_id).is_some()
    }


    /// Whether an operation that may need to make room can proceed: the
    /// cache has a free slot, the replacer's next victim is cached, or
    /// some frame is held by no caller. When this is false the pool is
    /// exhausted — every frame pinned beyond capacity — which the design
    /// treats as an unrecoverable misconfiguration.
    #[verifier::loop_isolation(false)]
    pub fn can_make_room(&self) -> (r: bool)
        ensures
            r == self.room_ok(),
    {
        if self.queue.len() != self.pool_size {
            return true;
        }
        let ghost rq = self.clock_replacer.queue@;
        let n = self.clock_replacer.queue.len();
        let mut i: usize = 0;
        while i < n
            invariant
                i <= n,
                forall|j: int| 0 <= j < i ==> !rq[j].evictable,
            decreases n - i,
        {
            if self.clock_replacer.queue[i].evictable {
                proof {
                    crate::clock_replacer::lemma_find_flagged_is_first(rq, i as int);
                }
                let vid = self.clock_replacer.queue[i].frame_id;
                return self.find_index(vid).is_some();
            }
            i += 1;
        }
        proof {
            crate::clock_replacer::lemma_find_flagged_none(rq);
        }
        let ghost q = self.queue@;
        let m = self.queue.len();
        let mut k: usize = 0;
        while k < m
            invariant
                k <= m,
                forall|j: int| 0 <= j < k ==> q[j].pin_count != 0,
            decreases m - k,
        {
            if self.queue[k].pin_count == 0 {
                proof {
                    lemma_find_unpinned_is_first(q, k as int);
                }
                return true;
            }
            k += 1;
        }
        proof {
            lemma_find_unpinned_none(q);
        }
        false
    }

    /// Hands out the next free page index, advancing the counter by the
    /// instance stride.
    fn allocate_page(&mut self) -> (r: usize)
        requires
            old(self).wf(),
            old(self).next_page_id < usize::MAX,
        ensures
            final(self).wf(),
            r == old(self).next_page_id,
            *final(self) == (BufferPoolManager {
                next_page_id: (old(self).next_page_id + 1) as usize,
                ..*old(self)
            }),
    {
        let next_page_id = self.next_page_id;
        self.next_page_id = next_page_id + self.num_instance;
        self.validate_page_id(next_page_id);
        next_page_id
    }

    /// Every page index this pool hands out must fall to it: congruent
    /// to the instance index modulo the instance count. With a single
    /// instance this holds of every index, so the check is static.
    fn validate_page_id(&self, page_id: usize)
        requires
            self.wf(),
        ensures
            page_id % self.num_instance == self.instance_index,
    {
    }

    /// Makes room for one more frame. When the cache is at capacity the
    /// replacer's victim is evicted (written back first if dirty); if no
    /// frame is evictable, the earliest frame no caller still holds is
    /// reclaimed instead.
    #[verifier::loop_isolation(false)]
    fn check_queue(&mut self)
        requires
            old(self).wf(),
            old(self).room_ok(),
        ensures
            final(self).wf(),
            final(self).queue@.len() < old(self).pool_size,
            final(self).queue@ == checked_queue_views(
                old(self).queue@,
                old(self).clock_replacer.queue@,
                old(self).queue@.len() == old(self).pool_size,
            ),
            final(self).clock_replacer.queue@ == checked_replacer_views(
                old(self).clock_replacer.queue@,
                old(self).queue@.len() == old(self).pool_size,
            ),
            final(self).disk_manager.image@ == checked_disk_views(
                old(self).disk_manager.image@,
                old(self).queue@,
                old(self).clock_replacer.queue@,
                old(self).queue@.len() == old(self).pool_size,
            ),
            final(self).pool_size == old(self).pool_size,
            final(self).num_instance == old(self).num_instance,
            final(self).instance_index == old(self).instance_index,
            final(self).next_page_id == old(self).next_page_id,
            old(self).queue@.len() == old(self).pool_size ==> 0 <= evict_index_of(
                old(self).queue@,
                old(self).clock_replacer.queue@,
            ) < old(self).queue@.len(),
    {
        let ghost q = self.queue@;
        let ghost rq = self.clock_replacer.queue@;
        if self.queue.len() == self.pool_size {
            let v = self.clock_replacer.victim();
            let idx: usize;
            match v {
                Some(remove_id) => {
                    proof {
                        lemma_find_page_props(q, remove_id);
                    }
                    let n = self.queue.len();
                    let mut found: bool = false;
                    let mut at: usize = 0;
                    let mut i: usize = 0;
                    while i < n
                        invariant
                            i <= n,
                            self.queue@ == q,
                            !found ==> forall|j: int| 0 <= j < i ==> q[j].page_id != remove_id,
                            found ==> 0 <= at < q.len() && q[at as int].page_id == remove_id && (
                            forall|j: int| 0 <= j < at ==> q[j].page_id != remove_id),
                        decreases n - i,
                    {
                        if !found && self.queue[i].page_id == remove_id {
                            found = true;
                            at = i;
                        }
                        i += 1;
                    }
                    proof {
                        if !found {
                            lemma_find_page_none(q, remove_id);
                        }
                        assert(found);
                        lemma_find_page_is_first(q, remove_id, at as int);
                    }
                    idx = at;
                },
                None => {
                    proof {
                        lemma_find_unpinned_props(q);
                    }
                    let n = self.queue.len();
                    let mut found: bool = false;
                    let mut at: usize = 0;
                    let mut i: usize = 0;
                    while i < n
                        invariant
                            i <= n,
                            self.queue@ == q,
                            !found ==> forall|j: int| 0 <= j < i ==> q[j].pin_count != 0,
                            found ==> 0 <= at < q.len() && q[at as int].pin_count == 0 && (
                            forall|j: int| 0 <= j < at ==> q[j].pin_count != 0),
                        decreases n - i,
                    {
                        if !found && self.queue[i].pin_count == 0 {
                            found = true;
                            at = i;
                        }
                        i += 1;
                    }
                    proof {
                        if !found {
                            lemma_find_unpinned_none(q);
                        }
                        assert(found);
                        lemma_find_unpinned_is_first(q, at as int);
                    }
                    idx = at;
                },
            }
            proof {
                assert(idx as int == evict_index_of(q, rq));
                lemma_pages_remove(q, idx as int, old(self).next_page_id);
            }
            let mut frame = self.queue.remove(idx);
            frame.sync(&mut self.disk_manager);
        }
    }

    /// Allocates a fresh page index, makes room in the cache, zero-fills
    /// the new page and writes it through to disk at once (so its disk
    /// slot exists before any content write), caches the frame — pinned
    /// once by the caller — and returns the new page index.
    pub fn new_page(&mut self) -> (r: usize)
        requires
            old(self).wf(),
            old(self).room_ok(),
            old(self).next_page_id <= u32::MAX,
            (old(self).next_page_id + 1) * PAGE_SIZE <= usize::MAX,
        ensures
            final(self).wf(),
            r == old(self).next_page_id,
            final(self).next_page_id == old(self).next_page_id + 1,
            final(self).pool_size == old(self).pool_size,
            final(self).is_cached(r),
            ({
                let full = old(self).queue@.len() == old(self).pool_size;
                let q1 = checked_queue_views(old(self).queue@, old(self).clock_replacer.queue@, full);
                let d1 = checked_disk_views(
                    old(self).disk_manager.image@,
                    old(self).queue@,
                    old(self).clock_replacer.queue@,
                    full,
                );
                &&& final(self).queue@.len() == q1.len() + 1
                &&& final(self).queue@.drop_last() == q1
                &&& is_fresh_frame(final(self).queue@.last(), r, zero_page())
                &&& final(self).clock_replacer.queue@ == checked_replacer_views(
                    old(self).clock_replacer.queue@,
                    full,
                )
                &&& final(self).disk_manager.image@ == write_at(d1, r * PAGE_SIZE, zero_page())
            }),
    {
        let page_id = self.allocate_page();
        self.check_queue();
        let ghost q1 = self.queue@;
        let cache = BufferPoolCache::create(page_id, &mut self.disk_manager);
        proof {
            let ghost q0 = old(self).queue@;
            assert forall|j: int| 0 <= j < q1.len() implies q1[j].page_id != page_id by {
                if q0.len() == old(self).pool_size {
                    let ei = evict_index_of(q0, old(self).clock_replacer.queue@);
                    if j < ei {
                        assert(q1[j] == q0[j]);
                    } else {
                        assert(q1[j] == q0[j + 1]);
                    }
                } else {
                    assert(q1[j] == q0[j]);
                }
            }
            lemma_pages_push(q1, cache);
            lemma_find_page_is_first(q1.push(cache), page_id, q1.len() as int);
            assert(q1.push(cache).drop_last() =~= q1);
        }
        self.queue.push(cache);
        page_id
    }

    /// Returns a copy of the page's content, pinning its frame: the
    /// cached buffer on a hit; on a miss the page as read from disk,
    /// which is cached (making room first if necessary). A page the
    /// disk has never held yields `None`. Pages read back from disk
    /// must have been allocated through this pool's counter.
    #[verifier::rlimit(60)]
    pub fn fetch_page(&mut self, page_id: usize) -> (r: Option<Vec<u8>>)
        requires
            old(self).wf(),
            page_id <= u32::MAX,
            (page_id + 1) * PAGE_SIZE <= usize::MAX,
            (!old(self).is_cached(page_id) && page_id * PAGE_SIZE < old(
                self,
            ).disk_manager.image@.len()) ==> {
                &&& page_id < old(self).next_page_id
                &&& (old(self).queue@.len() == old(self).pool_size ==> room_ok_views(
                    old(self).queue@,
                    pin_spec(old(self).clock_replacer.queue@, page_id),
                ))
            },
        ensures
            final(self).wf(),
            final(self).pool_size == old(self).pool_size,
            final(self).next_page_id == old(self).next_page_id,
            match find_page(old(self).queue@, page_id) {
                Some(i) => {
                    &&& (r matches Some(c) && c@ == old(self).queue@[i].cache@)
                    &&& final(self).queue@ == old(self).queue@.update(
                        i,
                        (BufferPoolCache {
                            pin_count: bump(old(self).queue@[i].pin_count),
                            ..old(self).queue@[i]
                        }),
                    )
                    &&& final(self).clock_replacer.queue@ == pin_spec(
                        old(self).clock_replacer.queue@,
                        page_id,
                    )
                    &&& final(self).disk_manager.image@ == old(self).disk_manager.image@
                },
                None => {
                    let rq1 = pin_spec(old(self).clock_replacer.queue@, page_id);
                    if page_id * PAGE_SIZE >= old(self).disk_manager.image@.len() {
                        &&& r is None
                        &&& final(self).queue@ == old(self).queue@
                        &&& final(self).clock_replacer.queue@ == rq1
                        &&& final(self).disk_manager.image@ == old(self).disk_manager.image@
                    } else {
                        let full = old(self).queue@.len() == old(self).pool_size;
                        let q1 = checked_queue_views(old(self).queue@, rq1, full);
                        &&& (r matches Some(c) && c@ == page_image(
                            old(self).disk_manager.image@,
                            page_id,
                        ))
                        &&& final(self).queue@.len() == q1.len() + 1
                        &&& final(self).queue@.drop_last() == q1
                        &&& is_fresh_frame(
                            final(self).queue@.last(),
                            page_id,
                            page_image(old(self).disk_manager.image@, page_id),
                        )
                        &&& final(self).clock_replacer.queue@ == checked_replacer_views(rq1, full)
                        &&& final(self).disk_manager.image@ == checked_disk_views(
                            old(self).disk_manager.image@,
                            old(self).queue@,
                            rq1,
                            full,
                        )
                    }
                },
            },
    {
        let ghost q = self.queue@;
        self.clock_replacer.pin(page_id);
        proof {
            lemma_find_page_props(q, page_id);
        }
        let idx_opt = self.find_index(page_id);
        match idx_opt {
            Some(idx) => {
                let content = copy_page(&self.queue[idx].cache);
                let frame = self.queue.remove(idx);
                let c = frame.pin_count;
                let bumped: usize = if c < usize::MAX {
                    c + 1
                } else {
                    c
                };
                let f2 = BufferPoolCache {
                    cache: frame.cache,
                    page_id: frame.page_id,
                    modified: frame.modified,
                    pin_count: bumped,
                };
                proof {
                    lemma_remove_insert(q, idx as int, f2);
                    lemma_update_same_page(q, idx as int, f2, self.next_page_id);
                }
                self.queue.insert(idx, f2);
                Some(content)
            },
            None => {
                let read = BufferPoolCache::read(page_id, &self.disk_manager);
                match read {
                    Some(cache) => {
                        self.check_queue();
                        let ghost q1 = self.queue@;
                        let content = copy_page(&cache.cache);
                        proof {
                            let ghost q0 = old(self).queue@;
                            let ghost rq1 = pin_spec(old(self).clock_replacer.queue@, page_id);
                            assert forall|j: int| 0 <= j < q1.len() implies q1[j].page_id
                                != page_id by {
                                if q0.len() == old(self).pool_size {
                                    let ei = evict_index_of(q0, rq1);
                                    if j < ei {
                                        assert(q1[j] == q0[j]);
                                    } else {
                                        assert(q1[j] == q0[j + 1]);
                                    }
                                } else {
                                    assert(q1[j] == q0[j]);
                                }
                            }
                            lemma_pages_push(q1, cache);
                            assert(q1.push(cache).drop_last() =~= q1);
                        }
                        self.queue.push(cache);
                        Some(content)
                    },
                    None => None,
                }
            },
        }
    }

    /// Signals that one holder of the page is done with it: lowers the
    /// frame's pin count and marks the frame evictable in the replacer.
    /// The frame stays cached until eviction or deletion removes it.
    pub fn un_pin(&mut self, page_id: usize)
        requires
            old(self).wf(),
        ensures
            final(self).wf(),
            final(self).clock_replacer.queue@ == un_pin_spec(
                old(self).clock_replacer.queue@,
                old(self).pool_size as int,
                page_id,
            ),
            match find_page(old(self).queue@, page_id) {
                Some(i) => final(self).queue@ == old(self).queue@.update(
                    i,
                    (BufferPoolCache {
                        pin_count: lower(old(self).queue@[i].pin_count),
                        ..old(self).queue@[i]
                    }),
                ),
                None => final(self).queue@ == old(self).queue@,
            },
            final(self).disk_manager.image@ == old(self).disk_manager.image@,
            final(self).next_page_id == old(self).next_page_id,
            final(self).pool_size == old(self).pool_size,
    {
        let ghost q = self.queue@;
        self.clock_replacer.un_pin(page_id);
        let idx_opt = self.find_index(page_id);
        if let Some(idx) = idx_opt {
            let frame = self.queue.remove(idx);
            let c = frame.pin_count;
            let lowered: usize = if c > 0 {
                c - 1
            } else {
                0
            };
            let f2 = BufferPoolCache {
                cache: frame.cache,
                page_id: frame.page_id,
                modified: frame.modified,
                pin_count: lowered,
            };
            proof {
                lemma_remove_insert(q, idx as int, f2);
                lemma_update_same_page(q, idx as int, f2, self.next_page_id);
            }
            self.queue.insert(idx, f2);
        }
    }

    /// Forces a write-back of the page's frame if it is cached and
    /// dirty, marking it clean; a page that is not cached is left alone.
    pub fn flush_page(&mut self, page_id: usize)
        requires
            old(self).wf(),
        ensures
            final(self).wf(),
            match find_page(old(self).queue@, page_id) {
                Some(i) => {
                    &&& final(self).disk_manager.image@ == sync_spec(
                        old(self).disk_manager.image@,
                        old(self).queue@[i],
                    )
                    &&& final(self).queue@ == old(self).queue@.update(
                        i,
                        (BufferPoolCache { modified: false, ..old(self).queue@[i] }),
                    )
                },
                None => {
                    &&& final(self).disk_manager.image@ == old(self).disk_manager.image@
                    &&& final(self).queue@ == old(self).queue@
                },
            },
            final(self).clock_replacer == old(self).clock_replacer,
            final(self).next_page_id == old(self).next_page_id,
            final(self).pool_size == old(self).pool_size,
    {
        let ghost q = self.queue@;
        let idx_opt = self.find_index(page_id);
        if let Some(idx) = idx_opt {
            let mut frame = self.queue.remove(idx);
            frame.sync(&mut self.disk_manager);
            proof {
                lemma_remove_insert(q, idx as int, frame);
                lemma_update_same_page(q, idx as int, frame, self.next_page_id);
            }
            self.queue.insert(idx, frame);
        }
    }

    /// Writes back every cached frame, front to back, marking each
    /// clean.
    #[verifier::loop_isolation(false)]
    pub fn flush_all_page(&mut self)
        requires
            old(self).wf(),
        ensures
            final(self).wf(),
            final(self).disk_manager.image@ == sync_all_spec(
                old(self).disk_manager.image@,
                old(self).queue@,
            ),
            final(self).queue@.len() == old(self).queue@.len(),
            forall|i: int|
                0 <= i < old(self).queue@.len() ==> final(self).queue@[i] == (BufferPoolCache {
                    modified: false,
                    ..old(self).queue@[i]
                }),
            final(self).clock_replacer == old(self).clock_replacer,
            final(self).next_page_id == old(self).next_page_id,
            final(self).pool_size == old(self).pool_size,
    {
        let n = self.queue.len();
        let mut i: usize = 0;
        while i < n
            invariant
                i <= n,
                n == self.queue@.len(),
                self.disk_manager.image@ == sync_all_spec(
                    old(self).disk_manager.image@,
                    old(self).queue@.take(i as int),
                ),
                forall|j: int|
                    0 <= j < i ==> self.queue@[j] == (BufferPoolCache {
                        modified: false,
                        ..old(self).queue@[j]
                    }),
                forall|j: int| i <= j < n ==> self.queue@[j] == old(self).queue@[j],
                self.clock_replacer == old(self).clock_replacer,
                self.next_page_id == old(self).next_page_id,
                self.pool_size == old(self).pool_size,
                self.num_instance == old(self).num_instance,
                self.instance_index == old(self).instance_index,
            decreases n - i,
        {
            let ghost qcur = self.queue@;
            let mut frame = self.queue.remove(i);
            frame.sync(&mut self.disk_manager);
            proof {
                lemma_remove_insert(qcur, i as int, frame);
                assert(old(self).queue@.take(i + 1).drop_last() =~= old(self).queue@.take(
                    i as int,
                ));
                assert(old(self).queue@.take(i + 1).last() == old(self).queue@[i as int]);
            }
            self.queue.insert(i, frame);
            i += 1;
        }
        proof {
            assert(old(self).queue@.take(n as int) =~= old(self).queue@);
            assert forall|a: int, b: int|
                0 <= a < b < self.queue@.len() implies self.queue@[a].page_id
                != self.queue@[b].page_id by {
                assert(self.queue@[a].page_id == old(self).queue@[a].page_id);
                assert(self.queue@[b].page_id == old(self).queue@[b].page_id);
            }
            assert forall|k: int| 0 <= k < self.queue@.len() implies {
                &&& (#[trigger] self.queue@[k]).cache@.len() == PAGE_SIZE
                &&& self.queue@[k].page_id <= u32::MAX
                &&& (self.queue@[k].page_id + 1) * PAGE_SIZE <= usize::MAX
                &&& self.queue@[k].page_id < self.next_page_id
            } by {
                assert(self.queue@[k].page_id == old(self).queue@[k].page_id);
                assert(self.queue@[k].cache@ == old(self).queue@[k].cache@);
            }
        }
    }

    /// Removes the page from the cache, marks its frame id evictable in
    /// the replacer, and writes the frame back if dirty. Deleting a page
    /// that is not cached changes nothing. Disk space for deleted pages
    /// is never reclaimed: freed indices are not reused.
    pub fn delete_page(&mut self, page_id: usize)
        requires
            old(self).wf(),
        ensures
            final(self).wf(),
            match find_page(old(self).queue@, page_id) {
                Some(i) => {
                    &&& final(self).queue@ == old(self).queue@.remove(i)
                    &&& final(self).clock_replacer.queue@ == un_pin_spec(
                        old(self).clock_replacer.queue@,
                        old(self).pool_size as int,
                        page_id,
                    )
                    &&& final(self).disk_manager.image@ == sync_spec(
                        old(self).disk_manager.image@,
                        old(self).queue@[i],
                    )
                },
                None => *final(self) == *old(self),
            },
            final(self).next_page_id == old(self).next_page_id,
            final(self).pool_size == old(self).pool_size,
    {
        let ghost q = self.queue@;
        let idx_opt = self.find_index(page_id);
        if let Some(idx) = idx_opt {
            proof {
                lemma_pages_remove(q, idx as int, self.next_page_id);
            }
            let mut frame = self.queue.remove(idx);
            self.clock_replacer.un_pin(page_id);
            frame.sync(&mut self.disk_manager);
        }
    }

    /// Copies `data` into the cached frame for `page_id`, marking it
    /// dirty — the content-write path a caller takes while holding the
    /// page pinned. Returns whether the page was cached.
    pub fn write_page_data(&mut self, page_id: usize, data: &Vec<u8>) -> (r: bool)
        requires
            old(self).wf(),
            data@.len() == PAGE_SIZE,
        ensures
            final(self).wf(),
            r == (find_page(old(self).queue@, page_id) is Some),
            match find_page(old(self).queue@, page_id) {
                Some(i) => {
                    &&& final(self).queue@.len() == old(self).queue@.len()
                    &&& forall|j: int|
                        0 <= j < old(self).queue@.len() && j != i ==> final(self).queue@[j] == old(
                            self,
                        ).queue@[j]
                    &&& final(self).queue@[i].cache@ == data@
                    &&& final(self).queue@[i].page_id == old(self).queue@[i].page_id
                    &&& final(self).queue@[i].modified == true
                    &&& final(self).queue@[i].pin_count == old(self).queue@[i].pin_count
                },
                None => final(self).queue@ == old(self).queue@,
            },
            final(self).disk_manager.image@ == old(self).disk_manager.image@,
            final(self).clock_replacer == old(self).clock_replacer,
            final(self).next_page_id == old(self).next_page_id,
            final(self).pool_size == old(self).pool_size,
    {
        let ghost q = self.queue@;
        let idx_opt = self.find_index(page_id);
        match idx_opt {
            Some(idx) => {
                let frame = self.queue.remove(idx);
                let newcache = copy_page(data);
                let f2 = BufferPoolCache {
                    cache: newcache,
                    page_id: frame.page_id,
                    modified: true,
                    pin_count: frame.pin_count,
                };
                proof {
                    lemma_remove_insert(q, idx as int, f2);
                    lemma_update_same_page(q, idx as int, f2, self.next_page_id);
                }
                self.queue.insert(idx, f2);
                true
            },
            None => false,
        }
    }
}


/// Law: under eviction pressure the pool never evicts a frame that is
/// still in use — one some caller holds pinned (positive pin count)
/// whose replacer record, if it has one, is not flagged evictable.
pub proof fn lemma_eviction_spares_pinned(s: BufferPoolManager, k: int)
    requires
        s.wf(),
        s.queue@.len() == s.pool_size,
        room_ok_views(s.queue@, s.clock_replacer.queue@),
        0 <= k < s.queue@.len(),
        s.queue@[k].pin_count > 0,
        forall|j: int|
            0 <= j < s.clock_replacer.queue@.len() ==> ((#[trigger] s.clock_replacer.queue@[j]).frame_id
                == s.queue@[k].page_id ==> !s.clock_replacer.queue@[j].evictable),
    ensures
        evict_index_of(s.queue@, s.clock_replacer.queue@) != k,
{
    let q = s.queue@;
    let rq = s.clock_replacer.queue@;
    match victim_result(rq) {
        Some(vid) => {
            lemma_find_flagged_props(rq);
            lemma_find_page_props(q, vid);
        },
        None => {
            lemma_find_unpinned_props(q);
        },
    }
}

/// Law: a page whose fresh zeroed frame sits at the cache's tail — as
/// `new_page` leaves it — is a cache hit, and the frame found is that
/// zeroed one, so an immediate fetch returns identical zeroed content.
pub proof fn lemma_new_page_is_cached_zeroed(s: BufferPoolManager, id: usize)
    requires
        s.wf(),
        s.queue@.len() > 0,
        s.queue@.last().page_id == id,
        s.queue@.last().cache@ == zero_page(),
    ensures
        find_page(s.queue@, id) matches Some(i) && s.queue@[i].cache@ == zero_page(),
{
    lemma_find_page_props(s.queue@, id);
    match find_page(s.queue@, id) {
        Some(i) => {
            if i < s.queue@.len() - 1 {
                assert(s.queue@[i].page_id != s.queue@[s.queue@.len() - 1].page_id);
            }
        },
        None => {
            assert(s.queue@[s.queue@.len() - 1].page_id == id);
        },
    }
}

/// Law: once a dirty frame is written back, the page's on-disk image is
/// exactly the frame's buffer — so content written before an eviction,
/// deletion or flush is recoverable by a fresh read of the page.
pub proof fn lemma_sync_recovers_content(file: Seq<u8>, f: BufferPoolCache)
    requires
        f.modified,
        f.cache@.len() == PAGE_SIZE,
        (f.page_id + 1) * PAGE_SIZE <= usize::MAX,
    ensures
        page_image(sync_spec(file, f), f.page_id) == f.cache@,
{
    let off = f.page_id * PAGE_SIZE;
    let f2 = sync_spec(file, f);
    assert forall|k: int| 0 <= k < PAGE_SIZE implies page_image(f2, f.page_id)[k]
        == f.cache@[k] by {
        assert(f2[off + k] == crate::disk_manager::byte_after_write(file, off, f.cache@, off + k));
    }
    assert(page_image(f2, f.page_id) =~= f.cache@);
}


} // verus!
