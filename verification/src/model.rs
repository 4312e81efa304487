use crate::config::valid_config;
use crate::index::touched;
use crate::layout::{page_count, piece_start};
use crate::store::written;
use vstd::prelude::*;

verus! {

/// Whether a page lies wholly within a store of `len` bytes.
pub open spec fn page_in_range(len: int, page_size: int, page: int) -> bool {
    (page + 1) * page_size <= len
}

/// The bytes of one page of a store.
pub open spec fn page_image(contents: Seq<u8>, page_size: int, page: int) -> Seq<u8> {
    contents.subrange(page * page_size, (page + 1) * page_size)
}

/// The `size` bytes that a store holds from `address` on.
pub open spec fn byte_range(contents: Seq<u8>, address: int, size: int) -> Seq<u8> {
    Seq::new(
        if size > 0 {
            size as nat
        } else {
            0
        },
        |i: int| contents[address + i],
    )
}

/// The end of the last page that a range of `size` bytes starting at `address`
/// touches.
pub open spec fn range_end(address: int, size: int, page_size: int) -> int {
    ((address + size - 1) / page_size + 1) * page_size
}

/// A page of zeros.
pub open spec fn zero_page(page_size: int) -> Seq<u8> {
    Seq::new(page_size as nat, |i: int| 0u8)
}

/// A page in which the bytes from `offset` on have been replaced by `piece`.
pub open spec fn patched(page: Seq<u8>, offset: int, piece: Seq<u8>) -> Seq<u8> {
    page.subrange(0, offset) + piece + page.subrange(offset + piece.len(), page.len() as int)
}

/// `count` consecutive page identifiers, starting at `first`.
pub open spec fn page_run(first: int, count: int) -> Seq<u64> {
    Seq::new(
        if count > 0 {
            count as nat
        } else {
            0
        },
        |k: int| (first + k) as u64,
    )
}

/// The recency order after the pages of `pages` have been touched one after
/// another, first to last.
pub open spec fn touched_all(order: Seq<u64>, pages: Seq<u64>, page_size: int, capacity: int) -> Seq<
    u64,
>
    decreases pages.len(),
{
    if pages.len() == 0 {
        order
    } else {
        touched(
            touched_all(order, pages.drop_last(), page_size, capacity),
            pages.last(),
            page_size,
            capacity,
        )
    }
}

/// How many of the pages that a range touches, counted from its first page, lie
/// wholly within a store of `len` bytes.
pub open spec fn in_range_pages(len: int, page_size: int, address: int, size: int) -> int {
    let touched_pages = page_count(address, size, page_size);
    let whole = len / page_size - address / page_size;
    if whole <= 0 {
        0
    } else if whole >= touched_pages {
        touched_pages
    } else {
        whole
    }
}

/// Whether the byte at position `i` of a store of `len` bytes keeps its value when
/// the pages `first..=last` are written: it does unless it lies in one of those
/// pages and that page reaches beyond the end of the store, in which case the
/// page is rebuilt from zeros.
pub open spec fn survives(len: int, page_size: int, first: int, last: int, i: int) -> bool {
    i < len && !(first <= i / page_size <= last && !page_in_range(len, page_size, i / page_size))
}

/// The bytes a store holds after `data` has been written through the cache at
/// `address`: the written range holds `data`, the store reaches at least to the
/// end of the last page touched, bytes that survive keep their value, and all
/// the rest is zero.
pub open spec fn write_image(before: Seq<u8>, page_size: int, address: int, data: Seq<u8>) -> Seq<
    u8,
> {
    if data.len() == 0 {
        before
    } else {
        let first = address / page_size;
        let last = (address + data.len() - 1) / page_size;
        let end = (last + 1) * page_size;
        Seq::new(
            if before.len() >= end {
                before.len()
            } else {
                end as nat
            },
            |i: int|
                if address <= i < address + data.len() {
                    data[i - address]
                } else if survives(before.len() as int, page_size, first, last, i) {
                    before[i]
                } else {
                    0u8
                },
        )
    }
}

/// The abstract state of a cache: what its store holds and which pages are
/// resident, in the order in which they were last touched.
pub struct CacheView {
    /// Bytes per page.
    pub page_size: int,
    /// Byte budget for the resident pages.
    pub capacity: int,
    /// The bytes of the backing store; their number is the logical length.
    pub contents: Seq<u8>,
    /// The resident pages, least recently used first.
    pub recency: Seq<u64>,
    /// The offset below which the store promises that its operations succeed.
    pub reliable_len: nat,
}

impl CacheView {
    /// What holds of every state a cache can be in.
    pub open spec fn valid(self) -> bool {
        &&& valid_config(self.page_size, self.capacity)
        &&& self.contents.len() <= u64::MAX
        &&& self.recency.no_duplicates()
        &&& (self.recency.len() <= 1 || self.recency.len() * self.page_size <= self.capacity)
        &&& forall|p: u64| #[trigger]
            self.recency.contains(p) ==> page_in_range(
                self.contents.len() as int,
                self.page_size,
                p as int,
            )
    }

    /// Whether a page is resident.
    pub open spec fn is_resident(self, page: u64) -> bool {
        self.recency.contains(page)
    }

    /// The state after one page has been touched.
    pub open spec fn after_fetch(self, page: u64) -> CacheView {
        CacheView { recency: touched(self.recency, page, self.page_size, self.capacity), ..self }
    }

    /// The state after `count` consecutive pages have been touched, starting at `first`.
    pub open spec fn after_fetches(self, first: int, count: int) -> CacheView {
        CacheView {
            recency: touched_all(
                self.recency,
                page_run(first, count),
                self.page_size,
                self.capacity,
            ),
            ..self
        }
    }

    /// How many pages a range touches.
    pub open spec fn pages_touched(self, address: int, size: int) -> int {
        page_count(address, size, self.page_size)
    }

    /// How many of the pages that a range touches, counted from its first
    /// page, lie wholly within the logical length.
    pub open spec fn pages_in_range(self, address: int, size: int) -> int {
        in_range_pages(self.contents.len() as int, self.page_size, address, size)
    }

    /// The state after the first `pages` pages of a range that starts at
    /// `address` have been touched.
    pub open spec fn after_partial_read(self, address: int, pages: int) -> CacheView {
        self.after_fetches(address / self.page_size, pages)
    }

    /// The state after `size` bytes have been read at `address`.
    pub open spec fn after_read(self, address: int, size: int) -> CacheView {
        self.after_partial_read(address, self.pages_touched(address, size))
    }

    /// The state after one whole page has been written.
    pub open spec fn after_page_write(self, page: u64, data: Seq<u8>) -> CacheView {
        CacheView {
            contents: written(self.contents, page * self.page_size, data),
            recency: touched(self.recency, page, self.page_size, self.capacity),
            ..self
        }
    }

    /// The state after `data` has been written at `address`.
    pub open spec fn after_write(self, address: int, data: Seq<u8>) -> CacheView {
        CacheView {
            contents: write_image(self.contents, self.page_size, address, data),
            recency: touched_all(
                self.recency,
                page_run(
                    address / self.page_size,
                    page_count(address, data.len() as int, self.page_size),
                ),
                self.page_size,
                self.capacity,
            ),
            ..self
        }
    }

    /// Whether `after` is a state in which a read that starts at `address` can
    /// stop because the store failed on page `k` of the range, counted from
    /// zero: the pages before it have been touched, and the page itself was
    /// not resident and lies where the store promises nothing.
    pub open spec fn read_stopped(self, address: int, k: int, after: CacheView) -> bool {
        let first = address / self.page_size;
        &&& after == self.after_partial_read(address, k)
        &&& !after.recency.contains((first + k) as u64)
        &&& self.reliable_len < (first + k + 1) * self.page_size
    }

    /// Whether `after` is a state in which a write of `data` at `address` can
    /// stop because the store failed on piece `k`, counted from zero: the
    /// pieces before it have been written, the page of the piece has been
    /// touched or not, according to whether the store failed on writing the
    /// page or already on reading it, and the page lies where the store
    /// promises nothing.
    pub open spec fn write_stopped(
        self,
        address: int,
        data: Seq<u8>,
        k: int,
        after: CacheView,
    ) -> bool {
        let first = address / self.page_size;
        let done = piece_start(address, self.page_size, k) - address;
        let reached = touched_all(
            self.recency,
            page_run(first, k),
            self.page_size,
            self.capacity,
        );
        &&& after.contents == write_image(self.contents, self.page_size, address, data.take(done))
        &&& after.page_size == self.page_size
        &&& after.capacity == self.capacity
        &&& after.reliable_len == self.reliable_len
        &&& (after.recency == reached || (page_in_range(
            self.contents.len() as int,
            self.page_size,
            first + k,
        ) && after.recency == touched(
            reached,
            (first + k) as u64,
            self.page_size,
            self.capacity,
        )))
        &&& self.reliable_len < (first + k + 1) * self.page_size
    }
}

} // verus!
