//! CLOCK (second-chance) eviction policy over a bounded, insertion-ordered
//! ring of frame records. The replacer knows nothing of pages, disk or
//! content: it only answers "which frame may be evicted".

use vstd::prelude::*;

verus! {

/// One tracked candidate: an evictable flag paired with a frame id.
/// A record whose flag is set may be chosen as an eviction victim; the
/// flag is the frame's "second chance" and is cleared when consumed.
#[derive(Clone, Copy, PartialEq, Eq, Structural, Debug)]
pub struct FrameRecord {
    pub evictable: bool,
    pub frame_id: usize,
}

/// Index of the first record tracking `id`, if any.
pub open spec fn find_frame(q: Seq<FrameRecord>, id: usize) -> Option<int>
    decreases q.len(),
{
    if q.len() == 0 {
        None
    } else if q[0].frame_id == id {
        Some(0)
    } else {
        match find_frame(q.drop_first(), id) {
            Some(i) => Some(i + 1),
            None => None,
        }
    }
}

/// Index of the earliest record that is not evictable, if any.
pub open spec fn find_unflagged(q: Seq<FrameRecord>) -> Option<int>
    decreases q.len(),
{
    if q.len() == 0 {
        None
    } else if !q[0].evictable {
        Some(0)
    } else {
        match find_unflagged(q.drop_first()) {
            Some(i) => Some(i + 1),
            None => None,
        }
    }
}

/// Index of the earliest evictable record, if any.
pub open spec fn find_flagged(q: Seq<FrameRecord>) -> Option<int>
    decreases q.len(),
{
    if q.len() == 0 {
        None
    } else if q[0].evictable {
        Some(0)
    } else {
        match find_flagged(q.drop_first()) {
            Some(i) => Some(i + 1),
            None => None,
        }
    }
}

/// Number of evictable records in the ring.
pub open spec fn count_evictable(q: Seq<FrameRecord>) -> int
    decreases q.len(),
{
    if q.len() == 0 {
        0
    } else {
        count_evictable(q.drop_last()) + if q.last().evictable {
            1int
        } else {
            0int
        }
    }
}

pub proof fn lemma_find_frame_props(q: Seq<FrameRecord>, id: usize)
    ensures
        match find_frame(q, id) {
            Some(i) => 0 <= i < q.len() && q[i].frame_id == id && (forall|j: int|
                0 <= j < i ==> q[j].frame_id != id),
            None => forall|j: int| 0 <= j < q.len() ==> q[j].frame_id != id,
        },
    decreases q.len(),
{
    if q.len() > 0 && q[0].frame_id != id {
        let qd = q.drop_first();
        lemma_find_frame_props(qd, id);
        match find_frame(qd, id) {
            Some(i) => {
                assert(q[i + 1] == qd[i]);
                assert forall|j: int| 0 <= j < i + 1 implies q[j].frame_id != id by {
                    if j > 0 {
                        assert(qd[j - 1] == q[j]);
                    }
                }
            },
            None => {
                assert forall|j: int| 0 <= j < q.len() implies q[j].frame_id != id by {
                    if j > 0 {
                        assert(qd[j - 1] == q[j]);
                    }
                }
            },
        }
    }
}

pub proof fn lemma_find_frame_is_first(q: Seq<FrameRecord>, id: usize, i: int)
    requires
        0 <= i < q.len(),
        q[i].frame_id == id,
        forall|j: int| 0 <= j < i ==> q[j].frame_id != id,
    ensures
        find_frame(q, id) == Some(i),
    decreases q.len(),
{
    if i > 0 {
        lemma_find_frame_is_first(q.drop_first(), id, i - 1);
    }
}

pub proof fn lemma_find_frame_none(q: Seq<FrameRecord>, id: usize)
    requires
        forall|j: int| 0 <= j < q.len() ==> q[j].frame_id != id,
    ensures
        find_frame(q, id) is None,
    decreases q.len(),
{
    if q.len() > 0 {
        lemma_find_frame_none(q.drop_first(), id);
    }
}

pub proof fn lemma_find_unflagged_props(q: Seq<FrameRecord>)
    ensures
        match find_unflagged(q) {
            Some(i) => 0 <= i < q.len() && !q[i].evictable && (forall|j: int|
                0 <= j < i ==> q[j].evictable),
            None => forall|j: int| 0 <= j < q.len() ==> q[j].evictable,
        },
    decreases q.len(),
{
    if q.len() > 0 && q[0].evictable {
        let qd = q.drop_first();
        lemma_find_unflagged_props(qd);
        match find_unflagged(qd) {
            Some(i) => {
                assert(q[i + 1] == qd[i]);
                assert forall|j: int| 0 <= j < i + 1 implies q[j].evictable by {
                    if j > 0 {
                        assert(qd[j - 1] == q[j]);
                    }
                }
            },
            None => {
                assert forall|j: int| 0 <= j < q.len() implies q[j].evictable by {
                    if j > 0 {
                        assert(qd[j - 1] == q[j]);
                    }
                }
            },
        }
    }
}

pub proof fn lemma_find_unflagged_is_first(q: Seq<FrameRecord>, i: int)
    requires
        0 <= i < q.len(),
        !q[i].evictable,
        forall|j: int| 0 <= j < i ==> q[j].evictable,
    ensures
        find_unflagged(q) == Some(i),
    decreases q.len(),
{
    if i > 0 {
        lemma_find_unflagged_is_first(q.drop_first(), i - 1);
    }
}

pub proof fn lemma_find_unflagged_none(q: Seq<FrameRecord>)
    requires
        forall|j: int| 0 <= j < q.len() ==> q[j].evictable,
    ensures
        find_unflagged(q) is None,
    decreases q.len(),
{
    if q.len() > 0 {
        lemma_find_unflagged_none(q.drop_first());
    }
}

pub proof fn lemma_find_flagged_props(q: Seq<FrameRecord>)
    ensures
        match find_flagged(q) {
            Some(i) => 0 <= i < q.len() && q[i].evictable && (forall|j: int|
                0 <= j < i ==> !q[j].evictable),
            None => forall|j: int| 0 <= j < q.len() ==> !q[j].evictable,
        },
    decreases q.len(),
{
    if q.len() > 0 && !q[0].evictable {
        let qd = q.drop_first();
        lemma_find_flagged_props(qd);
        match find_flagged(qd) {
            Some(i) => {
                assert(q[i + 1] == qd[i]);
                assert forall|j: int| 0 <= j < i + 1 implies !q[j].evictable by {
                    if j > 0 {
                        assert(qd[j - 1] == q[j]);
                    }
                }
            },
            None => {
                assert forall|j: int| 0 <= j < q.len() implies !q[j].evictable by {
                    if j > 0 {
                        assert(qd[j - 1] == q[j]);
                    }
                }
            },
        }
    }
}

pub proof fn lemma_find_flagged_is_first(q: Seq<FrameRecord>, i: int)
    requires
        0 <= i < q.len(),
        q[i].evictable,
        forall|j: int| 0 <= j < i ==> !q[j].evictable,
    ensures
        find_flagged(q) == Some(i),
    decreases q.len(),
{
    if i > 0 {
        lemma_find_flagged_is_first(q.drop_first(), i - 1);
    }
}

pub proof fn lemma_find_flagged_none(q: Seq<FrameRecord>)
    requires
        forall|j: int| 0 <= j < q.len() ==> !q[j].evictable,
    ensures
        find_flagged(q) is None,
    decreases q.len(),
{
    if q.len() > 0 {
        lemma_find_flagged_none(q.drop_first());
    }
}

/// No two records track the same frame id.
pub open spec fn unique_ids(q: Seq<FrameRecord>) -> bool {
    forall|i: int, j: int| 0 <= i < j < q.len() ==> q[i].frame_id != q[j].frame_id
}

/// Removing one record keeps the remaining ids distinct and keeps any id
/// that was absent absent.
proof fn lemma_remove_keeps_unique(q: Seq<FrameRecord>, i: int, id: usize)
    requires
        0 <= i < q.len(),
        unique_ids(q),
        forall|j: int| 0 <= j < q.len() ==> q[j].frame_id != id,
    ensures
        unique_ids(q.remove(i)),
        forall|j: int| 0 <= j < q.remove(i).len() ==> q.remove(i)[j].frame_id != id,
{
    let q2 = q.remove(i);
    assert forall|j: int| 0 <= j < q2.len() implies q2[j].frame_id != id by {
        if j < i {
            assert(q2[j] == q[j]);
        } else {
            assert(q2[j] == q[j + 1]);
        }
    }
    assert forall|a: int, b: int| 0 <= a < b < q2.len() implies q2[a].frame_id
        != q2[b].frame_id by {
        let a2: int = if a < i {
            a
        } else {
            a + 1
        };
        let b2: int = if b < i {
            b
        } else {
            b + 1
        };
        assert(q2[a] == q[a2]);
        assert(q2[b] == q[b2]);
    }
}

/// Appending a record with a fresh id keeps the ids distinct.
proof fn lemma_push_keeps_unique(q: Seq<FrameRecord>, rec: FrameRecord)
    requires
        unique_ids(q),
        forall|j: int| 0 <= j < q.len() ==> q[j].frame_id != rec.frame_id,
    ensures
        unique_ids(q.push(rec)),
{
    let q2 = q.push(rec);
    assert forall|a: int, b: int| 0 <= a < b < q2.len() implies q2[a].frame_id
        != q2[b].frame_id by {
        assert(q2[a] == q[a]);
        if b < q.len() {
            assert(q2[b] == q[b]);
        } else {
            assert(q2[b] == rec);
        }
    }
}

/// What `un_pin` leaves in the ring: flip the frame's record evictable in
/// place if tracked; otherwise, when the ring is full, first evict the
/// earliest record whose second chance was already spent (its flag no
/// longer set) — else the head unconditionally — and append a fresh
/// evictable record at the tail.
pub open spec fn un_pin_spec(q: Seq<FrameRecord>, cap: int, id: usize) -> Seq<FrameRecord> {
    let rec = FrameRecord { evictable: true, frame_id: id };
    match find_frame(q, id) {
        Some(i) => q.update(i, rec),
        None => {
            let q2 = if q.len() == cap {
                match find_unflagged(q) {
                    Some(j) => q.remove(j),
                    None => if q.len() > 0 {
                        q.drop_first()
                    } else {
                        q
                    },
                }
            } else {
                q
            };
            q2.push(rec)
        },
    }
}

/// What `pin` leaves in the ring: the frame's record removed entirely.
pub open spec fn pin_spec(q: Seq<FrameRecord>, id: usize) -> Seq<FrameRecord> {
    match find_frame(q, id) {
        Some(i) => q.remove(i),
        None => q,
    }
}

/// What `victim` leaves in the ring: the earliest evictable record, if
/// any, keeps its place but loses its second chance.
pub open spec fn victim_spec(q: Seq<FrameRecord>) -> Seq<FrameRecord> {
    match find_flagged(q) {
        Some(i) => q.update(i, FrameRecord { evictable: false, frame_id: q[i].frame_id }),
        None => q,
    }
}

/// Which frame id `victim` reports.
pub open spec fn victim_result(q: Seq<FrameRecord>) -> Option<usize> {
    match find_flagged(q) {
        Some(i) => Some(q[i].frame_id),
        None => None,
    }
}


/// Law: a frame that has just been pinned is never the next victim.
/// Pinning removes the frame's record, and with distinct tracked ids a
/// subsequent victim scan can only report some other frame.
pub proof fn lemma_pin_then_victim_not_pinned(q: Seq<FrameRecord>, id: usize)
    requires
        unique_ids(q),
    ensures
        victim_result(pin_spec(q, id)) != Some(id),
{
    lemma_find_frame_props(q, id);
    match find_frame(q, id) {
        Some(i) => {
            let q2 = q.remove(i);
            assert forall|j: int| 0 <= j < q2.len() implies q2[j].frame_id != id by {
                if j < i {
                    assert(q2[j] == q[j]);
                } else {
                    assert(q2[j] == q[j + 1]);
                }
            }
            lemma_find_flagged_props(q2);
        },
        None => {
            lemma_find_flagged_props(q);
        },
    }
}

/// Law: unpinning an untracked frame into a full ring evicts exactly one
/// existing record — the earliest one whose second chance was already
/// spent if any, else the head — and appends the new record at the tail,
/// so the ring stays at capacity.
pub proof fn lemma_un_pin_full_evicts_one(q: Seq<FrameRecord>, cap: int, id: usize)
    requires
        cap >= 1,
        q.len() == cap,
        find_frame(q, id) is None,
    ensures
        un_pin_spec(q, cap, id).len() == cap,
        un_pin_spec(q, cap, id).last() == (FrameRecord { evictable: true, frame_id: id }),
        match find_unflagged(q) {
            Some(j) => un_pin_spec(q, cap, id) == q.remove(j).push(
                FrameRecord { evictable: true, frame_id: id },
            ),
            None => un_pin_spec(q, cap, id) == q.drop_first().push(
                FrameRecord { evictable: true, frame_id: id },
            ),
        },
{
    lemma_find_unflagged_props(q);
}

/// Tracks up to `num_pages` frame records in insertion order and selects
/// eviction victims by the CLOCK second-chance sweep.
#[derive(Debug)]
pub struct ClockReplacer {
    pub queue: Vec<FrameRecord>,
    pub num_pages: usize,
}

impl ClockReplacer {
    /// Tracked ids are distinct and, for a positive capacity, the ring
    /// never outgrows it.
    pub open spec fn wf(self) -> bool {
        &&& unique_ids(self.queue@)
        &&& (self.num_pages > 0 ==> self.queue@.len() <= self.num_pages)
    }

    /// An empty replacer for up to `num_pages` frames.
    pub fn new(num_pages: usize) -> (r: Self)
        ensures
            r.wf(),
            r.queue@ == Seq::<FrameRecord>::empty(),
            r.num_pages == num_pages,
    {
        Self { queue: Vec::new(), num_pages }
    }

    /// Marks `frame_id` evictable, tracking it (and making room if the
    /// ring is full) if it was not tracked yet.
    #[verifier::loop_isolation(false)]
    pub fn un_pin(&mut self, frame_id: usize)
        requires
            old(self).wf(),
        ensures
            final(self).wf(),
            final(self).num_pages == old(self).num_pages,
            final(self).queue@ == un_pin_spec(
                old(self).queue@,
                old(self).num_pages as int,
                frame_id,
            ),
    {
        let ghost q = self.queue@;
        let n = self.queue.len();
        let mut i: usize = 0;
        while i < n
            invariant
                i <= n,
                self == old(self),
                forall|j: int| 0 <= j < i ==> q[j].frame_id != frame_id,
            decreases n - i,
        {
            if self.queue[i].frame_id == frame_id {
                self.queue[i] = FrameRecord { evictable: true, frame_id };
                proof {
                    lemma_find_frame_is_first(q, frame_id, i as int);
                    assert forall|a: int, b: int| 0 <= a < b < self.queue@.len() implies self
                        .queue@[a].frame_id != self.queue@[b].frame_id by {
                        assert(self.queue@[a].frame_id == q[a].frame_id);
                        assert(self.queue@[b].frame_id == q[b].frame_id);
                    }
                }
                return ;
            }
            i += 1;
        }
        proof {
            lemma_find_frame_none(q, frame_id);
        }
        if self.num_pages == self.queue.len() {
            let mut found: bool = false;
            let mut idx: usize = 0;
            let mut k: usize = 0;
            while k < n
                invariant
                    k <= n,
                    self == old(self),
                    !found ==> forall|j: int| 0 <= j < k ==> q[j].evictable,
                    found ==> 0 <= idx < q.len() && !q[idx as int].evictable && (forall|j: int|
                        0 <= j < idx ==> q[j].evictable),
                decreases n - k,
            {
                if !found && !self.queue[k].evictable {
                    found = true;
                    idx = k;
                }
                k += 1;
            }
            if found {
                proof {
                    lemma_find_unflagged_is_first(q, idx as int);
                    lemma_remove_keeps_unique(q, idx as int, frame_id);
                }
                self.queue.remove(idx);
            } else {
                proof {
                    lemma_find_unflagged_none(q);
                }
                if self.queue.len() > 0 {
                    self.queue.remove(0);
                    proof {
                        lemma_remove_keeps_unique(q, 0, frame_id);
                        assert(self.queue@ =~= q.drop_first());
                    }
                }
            }
        }
        let ghost q2 = self.queue@;
        proof {
            lemma_push_keeps_unique(q2, FrameRecord { evictable: true, frame_id });
        }
        self.queue.push(FrameRecord { evictable: true, frame_id });
    }

    /// Removes `frame_id` from tracking entirely: an actively used frame
    /// must not be chosen as a victim.
    #[verifier::loop_isolation(false)]
    pub fn pin(&mut self, frame_id: usize)
        requires
            old(self).wf(),
        ensures
            final(self).wf(),
            final(self).num_pages == old(self).num_pages,
            final(self).queue@ == pin_spec(old(self).queue@, frame_id),
    {
        let ghost q = self.queue@;
        let n = self.queue.len();
        let mut i: usize = 0;
        while i < n
            invariant
                i <= n,
                self == old(self),
                forall|j: int| 0 <= j < i ==> q[j].frame_id != frame_id,
            decreases n - i,
        {
            if self.queue[i].frame_id == frame_id {
                proof {
                    lemma_find_frame_is_first(q, frame_id, i as int);
                    lemma_remove_keeps_unique_plain(q, i as int);
                }
                self.queue.remove(i);
                return ;
            }
            i += 1;
        }
        proof {
            lemma_find_frame_none(q, frame_id);
        }
    }

    /// Scans from the head for the first evictable record; consumes its
    /// second chance (clearing the flag, keeping the record in place) and
    /// returns its frame id. Returns `None` when nothing is evictable.
    #[verifier::loop_isolation(false)]
    pub fn victim(&mut self) -> (r: Option<usize>)
        requires
            old(self).wf(),
        ensures
            final(self).wf(),
            final(self).num_pages == old(self).num_pages,
            final(self).queue@ == victim_spec(old(self).queue@),
            r == victim_result(old(self).queue@),
    {
        let ghost q = self.queue@;
        if self.queue.len() == 0 {
            return None;
        }
        let n = self.queue.len();
        let mut i: usize = 0;
        while i < n
            invariant
                i <= n,
                self == old(self),
                forall|j: int| 0 <= j < i ==> !q[j].evictable,
            decreases n - i,
        {
            if self.queue[i].evictable {
                let id = self.queue[i].frame_id;
                self.queue[i] = FrameRecord { evictable: false, frame_id: id };
                proof {
                    lemma_find_flagged_is_first(q, i as int);
                    assert forall|a: int, b: int| 0 <= a < b < self.queue@.len() implies self
                        .queue@[a].frame_id != self.queue@[b].frame_id by {
                        assert(self.queue@[a].frame_id == q[a].frame_id);
                        assert(self.queue@[b].frame_id == q[b].frame_id);
                    }
                }
                return Some(id);
            }
            i += 1;
        }
        proof {
            lemma_find_flagged_none(q);
        }
        None
    }

    /// Count of currently evictable records — not of all tracked records.
    #[verifier::loop_isolation(false)]
    pub fn size(&self) -> (r: usize)
        ensures
            r == count_evictable(self.queue@),
    {
        let n = self.queue.len();
        let mut count: usize = 0;
        let mut i: usize = 0;
        while i < n
            invariant
                i <= n,
                count <= i,
                count == count_evictable(self.queue@.take(i as int)),
            decreases n - i,
        {
            proof {
                assert(self.queue@.take(i + 1).drop_last() =~= self.queue@.take(i as int));
                assert(self.queue@.take(i + 1).last() == self.queue@[i as int]);
            }
            if self.queue[i].evictable {
                count += 1;
            }
            i += 1;
        }
        proof {
            assert(self.queue@.take(n as int) =~= self.queue@);
        }
        count
    }
}

/// Removing one record keeps the remaining ids distinct.
proof fn lemma_remove_keeps_unique_plain(q: Seq<FrameRecord>, i: int)
    requires
        0 <= i < q.len(),
        unique_ids(q),
    ensures
        unique_ids(q.remove(i)),
{
    let q2 = q.remove(i);
    assert forall|a: int, b: int| 0 <= a < b < q2.len() implies q2[a].frame_id
        != q2[b].frame_id by {
        let a2: int = if a < i {
            a
        } else {
            a + 1
        };
        let b2: int = if b < i {
            b
        } else {
            b + 1
        };
        assert(q2[a] == q[a2]);
        assert(q2[b] == q[b2]);
    }
}

} // verus!
