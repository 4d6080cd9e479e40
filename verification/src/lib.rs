//! Page-oriented storage core of a small relational database: a disk
//! manager that lays fixed-size pages out in a flat byte image, a CLOCK
//! (second-chance) replacer that picks eviction victims among unpinned
//! frames, and a buffer pool manager that ties the two together into a
//! pinned, write-back page cache.

use vstd::prelude::*;

pub mod clock_replacer;
pub mod buffer_pool_manager;
pub mod disk_manager;

verus! {

/// Size in bytes of one page, fixed for the lifetime of a database image.
pub const PAGE_SIZE: usize = 4096;

} // verus!
