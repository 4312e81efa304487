use vstd::prelude::*;

verus! {

/// Page size used when the caller names none: 64 KiB.
pub const DEFAULT_PAGE_SIZE: usize = 65536;

/// Smallest page size accepted: 512 bytes.
pub const MIN_PAGE_SIZE: usize = 512;

/// Largest page size accepted: 1 MiB.
pub const MAX_PAGE_SIZE: usize = 1048576;

/// Capacity used when the caller names none: 16 MiB.
pub const DEFAULT_CAPACITY: usize = 16777216;

/// Smallest capacity accepted: 512 bytes.
pub const MIN_CAPACITY: usize = 512;

/// Largest capacity accepted: 1 GiB.
pub const MAX_CAPACITY: usize = 1073741824;

/// Whether a page size and a capacity, both in bytes, are within their bounds.
pub open spec fn valid_config(page_size: int, capacity: int) -> bool {
    &&& MIN_PAGE_SIZE <= page_size <= MAX_PAGE_SIZE
    &&& MIN_CAPACITY <= capacity <= MAX_CAPACITY
}

/// The page size a constructor works with: the one named, or the default.
pub open spec fn chosen_page_size(page_size: Option<usize>) -> int {
    match page_size {
        Some(n) => n as int,
        None => DEFAULT_PAGE_SIZE as int,
    }
}

/// The capacity a constructor works with: the one named, or the default.
pub open spec fn chosen_capacity(capacity: Option<usize>) -> int {
    match capacity {
        Some(n) => n as int,
        None => DEFAULT_CAPACITY as int,
    }
}

/// Tells whether a page size and a capacity are within their bounds.
pub fn check_config(page_size: usize, capacity: usize) -> (ok: bool)
    ensures
        ok == valid_config(page_size as int, capacity as int),
{
    if page_size < MIN_PAGE_SIZE || capacity < MIN_CAPACITY {
        return false;
    }
    if page_size > MAX_PAGE_SIZE || capacity > MAX_CAPACITY {
        return false;
    }
    true
}

} // verus!
