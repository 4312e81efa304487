use crate::config::{
    check_config, chosen_capacity, chosen_page_size, valid_config, DEFAULT_CAPACITY,
    DEFAULT_PAGE_SIZE,
};
use crate::error::CacheError;
use crate::index::{
    lemma_admitted, lemma_promoted, lemma_touched, lemma_touched_again, PageIndex,
};
use crate::layout::{lemma_chunk_step, next_chunk, page_count, piece_start};
use crate::lemmas::{
    lemma_page_extent, lemma_page_in_range, lemma_pages_disjoint, lemma_write_step,
};
use crate::model::{
    byte_range, in_range_pages, page_image, page_in_range, page_run, patched, range_end,
    touched_all, write_image, CacheView,
};
use crate::store::BackingStore;
use vstd::prelude::*;
use vstd::slice::slice_to_vec;

verus! {

/// A fixed-page, write-through byte cache in front of one backing store.
pub struct WriteThroughCache<S: BackingStore> {
    index: PageIndex,
    store: S,
    file_size: u64,
}

impl<S: BackingStore> View for WriteThroughCache<S> {
    type V = CacheView;

    closed spec fn view(&self) -> CacheView {
        CacheView {
            page_size: self.index.spec_page_size() as int,
            capacity: self.index.spec_capacity() as int,
            contents: self.store.contents(),
            recency: self.index.recency(),
            reliable_len: self.store.reliable_len(),
        }
    }
}

impl<S: BackingStore> WriteThroughCache<S> {
    /// Whether the parts of the cache agree with one another: the index is
    /// well formed, the logical length is the length of the store, and every
    /// resident page holds exactly the bytes that the store holds for it.
    pub closed spec fn consistent(&self) -> bool {
        &&& self.index.wf()
        &&& self.file_size == self.store.contents().len()
        &&& forall|p: u64| #[trigger]
            self.index.resident().contains_key(p) ==> self.index.resident()[p] == page_image(
                self.store.contents(),
                self.index.spec_page_size() as int,
                p as int,
            )
    }

    /// The invariant of the cache.
    pub open spec fn wf(&self) -> bool {
        &&& self@.valid()
        &&& self.consistent()
    }

    /// Binds a cache to a store. A page size or a capacity that is not named
    /// takes its default; either one outside its bounds is refused before
    /// the store is touched.
    pub fn new(store: S, page_size: Option<usize>, capacity: Option<usize>) -> (r: Result<
        Self,
        CacheError,
    >)
        ensures
            match r {
                Ok(cache) => {
                    &&& valid_config(chosen_page_size(page_size), chosen_capacity(capacity))
                    &&& cache.wf()
                    &&& cache@ == (CacheView {
                        page_size: chosen_page_size(page_size),
                        capacity: chosen_capacity(capacity),
                        contents: store.contents(),
                        recency: Seq::<u64>::empty(),
                        reliable_len: store.reliable_len(),
                    })
                },
                Err(e) => {
                    &&& e == CacheError::InvalidConfiguration
                    &&& !valid_config(chosen_page_size(page_size), chosen_capacity(capacity))
                },
            },
    {
        let page_size = match page_size {
            Some(n) => n,
            None => DEFAULT_PAGE_SIZE,
        };
        let capacity = match capacity {
            Some(n) => n,
            None => DEFAULT_CAPACITY,
        };
        if !check_config(page_size, capacity) {
            return Err(CacheError::InvalidConfiguration);
        }
        let file_size = store.len();
        let index = PageIndex::new(page_size, capacity);
        Ok(WriteThroughCache { index, store, file_size })
    }

    /// Bytes per page.
    pub fn page_size(&self) -> (n: usize)
        ensures
            n == self@.page_size,
    {
        self.index.page_size()
    }

    /// Byte budget for the resident pages.
    pub fn capacity(&self) -> (n: usize)
        ensures
            n == self@.capacity,
    {
        self.index.capacity()
    }

    /// The logical length: the number of bytes the store is known to hold.
    pub fn logical_length(&self) -> (n: u64)
        requires
            self.wf(),
        ensures
            n == self@.contents.len(),
    {
        self.file_size
    }

    /// The backing store, as the cache has left it.
    pub fn store(&self) -> (store: &S)
        ensures
            store.contents() == self@.contents,
            store.reliable_len() == self@.reliable_len,
    {
        &self.store
    }

    /// The resident page identifiers, least recently used first.
    pub fn pages_by_recency(&self) -> (pages: Vec<u64>)
        ensures
            pages@ == self@.recency,
    {
        self.index.pages_by_recency()
    }

    /// Tells whether a page is resident.
    pub fn is_resident(&self, page_id: u64) -> (found: bool)
        requires
            self.wf(),
        ensures
            found == self@.is_resident(page_id),
    {
        self.index.is_resident(page_id)
    }

    /// Reads one whole page from the store. A page that reaches beyond the
    /// logical length is out of range.
    pub fn load_page(&self, page_id: u64) -> (r: Result<Vec<u8>, CacheError>)
        requires
            self.wf(),
        ensures
            match r {
                Ok(page) => {
                    &&& page_in_range(self@.contents.len() as int, self@.page_size, page_id as int)
                    &&& page@ == page_image(self@.contents, self@.page_size, page_id as int)
                },
                Err(CacheError::OutOfRange) => !page_in_range(
                    self@.contents.len() as int,
                    self@.page_size,
                    page_id as int,
                ),
                Err(CacheError::IoFailure) => {
                    &&& page_in_range(self@.contents.len() as int, self@.page_size, page_id as int)
                    &&& self@.reliable_len < (page_id + 1) * self@.page_size
                },
                Err(CacheError::InvalidConfiguration) => false,
            },
    {
        let page_size = self.index.page_size();
        proof {
            lemma_page_in_range(self.file_size as int, page_size as int, page_id as int);
        }
        if page_id >= self.file_size / (page_size as u64) {
            return Err(CacheError::OutOfRange);
        }
        proof {
            lemma_page_extent(page_size as int, page_id as int);
        }
        match self.store.read_at(page_id * (page_size as u64), page_size) {
            Ok(page) => Ok(page),
            Err(_) => Err(CacheError::IoFailure),
        }
    }

    /// Hands out a copy of a page, from the index where the page is resident and
    /// from the store where it is not. Either way the page is the most recently
    /// used one afterwards.
    pub fn read_page(&mut self, page_id: u64) -> (r: Result<Vec<u8>, CacheError>)
        requires
            old(self).wf(),
        ensures
            final(self).wf(),
            match r {
                Ok(page) => {
                    &&& page_in_range(
                        old(self)@.contents.len() as int,
                        old(self)@.page_size,
                        page_id as int,
                    )
                    &&& page@ == page_image(old(self)@.contents, old(self)@.page_size, page_id as int)
                    &&& final(self)@ == old(self)@.after_fetch(page_id)
                },
                Err(e) => {
                    &&& final(self)@ == old(self)@
                    &&& !old(self)@.is_resident(page_id)
                    &&& match e {
                        CacheError::OutOfRange => !page_in_range(
                            old(self)@.contents.len() as int,
                            old(self)@.page_size,
                            page_id as int,
                        ),
                        CacheError::IoFailure => {
                            &&& page_in_range(
                                old(self)@.contents.len() as int,
                                old(self)@.page_size,
                                page_id as int,
                            )
                            &&& old(self)@.reliable_len < (page_id + 1) * old(self)@.page_size
                        },
                        CacheError::InvalidConfiguration => false,
                    }
                },
            },
    {
        match self.index.get(page_id) {
            Some(page) => {
                self.index.promote(page_id);
                proof {
                    lemma_promoted(old(self).index.recency(), page_id);
                }
                return Ok(page);
            },
            None => {},
        }
        match self.load_page(page_id) {
            Ok(page) => {
                proof {
                    lemma_page_extent(self@.page_size, page_id as int);
                }
                self.index.add_to_cache(page_id, page.clone());
                proof {
                    lemma_admitted(
                        old(self).index.recency(),
                        page_id,
                        old(self)@.page_size,
                        old(self)@.capacity,
                    );
                }
                Ok(page)
            },
            Err(e) => Err(e),
        }
    }

    /// Writes one whole page to the store and, once the store has taken it,
    /// makes it the resident copy of the page and the most recently used one.
    /// Where the store fails, the cache is left as it was.
    pub fn write_page(&mut self, page_id: u64, data: &[u8]) -> (r: Result<(), CacheError>)
        requires
            old(self).wf(),
            data@.len() == old(self)@.page_size,
            (page_id + 1) * old(self)@.page_size <= u64::MAX,
        ensures
            final(self).wf(),
            match r {
                Ok(()) => final(self)@ == old(self)@.after_page_write(page_id, data@),
                Err(e) => {
                    &&& e == CacheError::IoFailure
                    &&& final(self)@ == old(self)@
                    &&& old(self)@.reliable_len < (page_id + 1) * old(self)@.page_size
                },
            },
    {
        let page_size = self.index.page_size();
        proof {
            lemma_page_extent(page_size as int, page_id as int);
        }
        let start = page_id * (page_size as u64);
        match self.store.write_at(start, data) {
            Ok(()) => {},
            Err(_) => {
                return Err(CacheError::IoFailure);
            },
        }
        let end = start + page_size as u64;
        if end > self.file_size {
            self.file_size = end;
        }
        self.index.put(page_id, slice_to_vec(data));
        proof {
            let before = old(self)@;
            let ps = before.page_size;
            let now = self.store.contents();
            lemma_touched(before.recency, page_id, ps, before.capacity);
            assert forall|q: u64| #[trigger]
                self.index.resident().contains_key(q) implies self.index.resident()[q] == page_image(
                now,
                ps,
                q as int,
            ) && page_in_range(now.len() as int, ps, q as int) by {
                lemma_page_extent(ps, q as int);
                if q != page_id {
                    lemma_pages_disjoint(ps, page_id as int, q as int);
                    assert(page_image(before.contents, ps, q as int) =~= page_image(
                        now,
                        ps,
                        q as int,
                    ));
                }
            }
        }
        Ok(())
    }

    /// Reads `size` bytes starting at `address`, page by page. The first page
    /// that is neither resident nor wholly within the logical length, or on
    /// which the store fails, ends the read; the pages before it stay touched.
    pub fn read(&mut self, address: u64, size: usize) -> (r: Result<Vec<u8>, CacheError>)
        requires
            old(self).wf(),
        ensures
            final(self).wf(),
            match r {
                Ok(bytes) => {
                    &&& old(self)@.pages_in_range(address as int, size as int) == old(
                        self,
                    )@.pages_touched(address as int, size as int)
                    &&& bytes@ == byte_range(old(self)@.contents, address as int, size as int)
                    &&& final(self)@ == old(self)@.after_read(address as int, size as int)
                },
                Err(CacheError::OutOfRange) => {
                    &&& old(self)@.pages_in_range(address as int, size as int) < old(
                        self,
                    )@.pages_touched(address as int, size as int)
                    &&& final(self)@ == old(self)@.after_partial_read(
                        address as int,
                        old(self)@.pages_in_range(address as int, size as int),
                    )
                },
                Err(CacheError::IoFailure) => exists|k: int|
                    0 <= k < old(self)@.pages_in_range(address as int, size as int) && #[trigger] old(
                        self,
                    )@.read_stopped(address as int, k, final(self)@),
                Err(CacheError::InvalidConfiguration) => false,
            },
            size == 0 ==> r is Ok,
            size > 0 && address >= old(self)@.contents.len() ==> r == Err::<Vec<u8>, CacheError>(
                CacheError::OutOfRange,
            ),
            old(self)@.contents.len() <= old(self)@.reliable_len ==> (r is Ok <==> old(
                self,
            )@.pages_in_range(address as int, size as int) == old(self)@.pages_touched(
                address as int,
                size as int,
            )),
    {
        let page_size = self.index.page_size();
        let ghost before = self@;
        let ghost ps = page_size as int;
        let ghost first = address as int / ps;
        let ghost total = page_count(address as int, size as int, ps);
        let ghost len = before.contents.len() as int;
        let ghost whole = in_range_pages(len, ps, address as int, size as int);
        proof {
            if size > 0 {
                lemma_chunk_step(address as int, size as int, ps);
                if address >= len {
                    vstd::arithmetic::div_mod::lemma_div_is_ordered(len, address as int, ps);
                }
            }
        }
        let mut buffer: Vec<u8> = Vec::new();
        let mut pos: u64 = address;
        let mut remaining: usize = size;
        let ghost mut k: int = 0;
        while remaining > 0
            invariant
                self.wf(),
                page_size == ps,
                ps == before.page_size,
                first == address as int / ps,
                total == page_count(address as int, size as int, ps),
                whole == in_range_pages(len, ps, address as int, size as int),
                len == before.contents.len(),
                before == old(self)@,
                before.valid(),
                size > 0 && address >= len ==> whole == 0,
                remaining <= size,
                pos == address + (size - remaining),
                0 <= k,
                k + page_count(pos as int, remaining as int, ps) == total,
                remaining > 0 ==> pos as int / ps == first + k,
                k == 0 || page_in_range(len, ps, first + k - 1),
                self@ == before.after_fetches(first, k),
                buffer@ == byte_range(before.contents, address as int, size - remaining),
            decreases remaining,
        {
            let chunk = next_chunk(pos, remaining, page_size);
            proof {
                lemma_chunk_step(pos as int, remaining as int, ps);
                lemma_page_in_range(len, ps, first + k);
                if k > 0 {
                    lemma_page_in_range(len, ps, first + k - 1);
                }
                lemma_page_extent(ps, first + k);
            }
            let page = match self.read_page(chunk.page_id) {
                Ok(page) => page,
                Err(e) => {
                    proof {
                        if e == CacheError::IoFailure {
                            assert(before.read_stopped(address as int, k, self@));
                        }
                    }
                    return Err(e);
                },
            };
            buffer.extend_from_slice(&page[chunk.offset..chunk.offset + chunk.len]);
            proof {
                assert(page_run(first, k + 1).drop_last() =~= page_run(first, k));
            }
            remaining = remaining - chunk.len;
            pos = pos + chunk.len as u64;
            proof {
                k = k + 1;
            }
        }
        proof {
            if size > 0 {
                lemma_page_in_range(len, ps, first + total - 1);
            }
        }
        Ok(buffer)
    }

    /// Writes `data` at `address`, page by page: each page is rebuilt from what
    /// it holds (from zeros where it reaches beyond the logical length), takes
    /// its piece of `data`, goes to the store, and only then becomes the
    /// resident copy. The first page on which the store fails ends the write;
    /// the pages written before it stay written.
    pub fn write(&mut self, address: u64, data: &[u8]) -> (r: Result<(), CacheError>)
        requires
            old(self).wf(),
            data@.len() > 0 ==> range_end(address as int, data@.len() as int, old(self)@.page_size)
                <= u64::MAX,
        ensures
            final(self).wf(),
            match r {
                Ok(()) => final(self)@ == old(self)@.after_write(address as int, data@),
                Err(e) => {
                    &&& e == CacheError::IoFailure
                    &&& exists|k: int|
                        0 <= k < old(self)@.pages_touched(address as int, data@.len() as int)
                            && #[trigger] old(self)@.write_stopped(
                            address as int,
                            data@,
                            k,
                            final(self)@,
                        )
                },
            },
            data@.len() == 0 ==> r is Ok && final(self)@ == old(self)@,
            data@.len() > 0 && range_end(address as int, data@.len() as int, old(self)@.page_size)
                <= old(self)@.reliable_len ==> r is Ok,
    {
        let page_size = self.index.page_size();
        let ghost before = self@;
        let ghost ps = page_size as int;
        let ghost first = address as int / ps;
        let ghost size = data@.len() as int;
        let ghost total = page_count(address as int, size, ps);
        proof {
            if size > 0 {
                lemma_chunk_step(address as int, size, ps);
            }
        }
        let mut pos: u64 = address;
        let mut remaining: usize = data.len();
        let ghost mut k: int = 0;
        while remaining > 0
            invariant
                self.wf(),
                page_size == ps,
                ps == before.page_size,
                first == address as int / ps,
                size == data@.len(),
                total == page_count(address as int, size, ps),
                before == old(self)@,
                before.valid(),
                size > 0 ==> range_end(address as int, size, ps) <= u64::MAX,
                remaining <= size,
                pos == address + (size - remaining),
                0 <= k,
                k + page_count(pos as int, remaining as int, ps) == total,
                remaining > 0 ==> pos == piece_start(address as int, ps, k),
                self@.page_size == before.page_size,
                self@.capacity == before.capacity,
                self@.reliable_len == before.reliable_len,
                self@.contents == write_image(
                    before.contents,
                    ps,
                    address as int,
                    data@.take(size - remaining),
                ),
                self@.recency == touched_all(
                    before.recency,
                    page_run(first, k),
                    ps,
                    before.capacity,
                ),
            decreases remaining,
        {
            let done = data.len() - remaining;
            let chunk = next_chunk(pos, remaining, page_size);
            proof {
                lemma_chunk_step(pos as int, remaining as int, ps);
                lemma_write_step(before.contents, ps, address as int, data@, k);
                lemma_page_extent(ps, first + k);
                assert((first + k + 1) * ps <= range_end(address as int, size, ps))
                    by (nonlinear_arith)
                    requires
                        first + k <= (address + size - 1) / ps,
                        0 < ps,
                        range_end(address as int, size, ps) == ((address + size - 1) / ps + 1)
                            * ps,
                ;
            }
            let ghost mid = self@;
            let page = match self.read_page(chunk.page_id) {
                Ok(page) => page,
                Err(CacheError::IoFailure) => {
                    proof {
                        assert(before.write_stopped(address as int, data@, k, self@));
                    }
                    return Err(CacheError::IoFailure);
                },
                Err(_) => vec![0u8; page_size],
            };
            let image = patch_page(&page, chunk.offset, &data[done..done + chunk.len]);
            proof {
                lemma_touched_again(mid.recency, chunk.page_id, ps, before.capacity);
            }
            match self.write_page(chunk.page_id, image.as_slice()) {
                Ok(()) => {},
                Err(e) => {
                    proof {
                        assert(before.write_stopped(address as int, data@, k, self@));
                    }
                    return Err(e);
                },
            }
            proof {
                assert(page_run(first, k + 1).drop_last() =~= page_run(first, k));
                if remaining - chunk.len > 0 {
                    lemma_chunk_step(pos + chunk.len, remaining - chunk.len, ps);
                }
            }
            remaining = remaining - chunk.len;
            pos = pos + chunk.len as u64;
            proof {
                k = k + 1;
            }
        }
        proof {
            assert(data@.take(size) =~= data@);
        }
        Ok(())
    }
}

/// Builds the page that holds `piece` from `offset` on and the bytes of `page`
/// everywhere else.
pub fn patch_page(page: &Vec<u8>, offset: usize, piece: &[u8]) -> (image: Vec<u8>)
    requires
        offset + piece@.len() <= page@.len(),
    ensures
        image@ == patched(page@, offset as int, piece@),
{
    let mut image: Vec<u8> = Vec::with_capacity(page.len());
    image.extend_from_slice(&page[0..offset]);
    image.extend_from_slice(piece);
    image.extend_from_slice(&page[offset + piece.len()..page.len()]);
    image
}

} // verus!
