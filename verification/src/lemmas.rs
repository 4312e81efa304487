use crate::layout::{chunk_len, lemma_chunk_step, lemma_split_covers, page_count, piece_start};
use crate::model::{page_image, page_in_range, patched, write_image, zero_page};
use crate::store::written;
use vstd::arithmetic::div_mod::{
    lemma_fundamental_div_mod, lemma_fundamental_div_mod_converse, lemma_mod_bound,
};
use vstd::prelude::*;

verus! {

/// A page lies wholly within `len` bytes exactly when its identifier is below
/// the number of whole pages that fit.
pub proof fn lemma_page_in_range(len: int, page_size: int, page: int)
    requires
        0 <= len,
        0 < page_size,
        0 <= page,
    ensures
        page_in_range(len, page_size, page) <==> page < len / page_size,
{
    lemma_fundamental_div_mod(len, page_size);
    lemma_mod_bound(len, page_size);
    let q = len / page_size;
    let r = len % page_size;
    if page < q {
        assert((page + 1) * page_size <= len) by (nonlinear_arith)
            requires
                page + 1 <= q,
                len == page_size * q + r,
                0 <= r,
                0 < page_size,
        ;
    } else {
        assert((page + 1) * page_size > len) by (nonlinear_arith)
            requires
                page + 1 > q,
                len == page_size * q + r,
                r < page_size,
                0 < page_size,
        ;
    }
}

/// A page starts at a multiple of the page size and ends one page size later.
pub proof fn lemma_page_extent(page_size: int, page: int)
    requires
        0 < page_size,
        0 <= page,
    ensures
        0 <= page * page_size,
        (page + 1) * page_size == page * page_size + page_size,
{
    assert(0 <= page * page_size) by (nonlinear_arith)
        requires
            0 < page_size,
            0 <= page,
    ;
    assert((page + 1) * page_size == page * page_size + page_size) by (nonlinear_arith);
}

/// Two different pages share no byte position.
pub proof fn lemma_pages_disjoint(page_size: int, p: int, q: int)
    requires
        0 < page_size,
        p != q,
    ensures
        (q + 1) * page_size <= p * page_size || (p + 1) * page_size <= q * page_size,
{
    if q < p {
        assert((q + 1) * page_size <= p * page_size) by (nonlinear_arith)
            requires
                q + 1 <= p,
                0 < page_size,
        ;
    } else {
        assert((p + 1) * page_size <= q * page_size) by (nonlinear_arith)
            requires
                p + 1 <= q,
                0 < page_size,
        ;
    }
}

/// A byte position lies in page `page` exactly when it lies between the start
/// of that page and the start of the next.
pub proof fn lemma_page_of(i: int, page_size: int, page: int)
    requires
        0 < page_size,
    ensures
        (page * page_size <= i < (page + 1) * page_size) <==> i / page_size == page,
        i < page * page_size <==> i / page_size < page,
        i >= (page + 1) * page_size <==> i / page_size > page,
{
    lemma_fundamental_div_mod(i, page_size);
    lemma_mod_bound(i, page_size);
    let q = i / page_size;
    let r = i % page_size;
    assert((page + 1) * page_size == page * page_size + page_size) by (nonlinear_arith);
    if page * page_size <= i < (page + 1) * page_size {
        lemma_fundamental_div_mod_converse(
            i,
            page_size,
            page,
            i - page * page_size,
        );
    }
    if q == page {
        assert(page * page_size <= i < (page + 1) * page_size) by (nonlinear_arith)
            requires
                i == page_size * q + r,
                0 <= r < page_size,
                q == page,
        ;
    }
    if q < page {
        assert(i < page * page_size) by (nonlinear_arith)
            requires
                i == page_size * q + r,
                r < page_size,
                q + 1 <= page,
                0 < page_size,
        ;
    }
    if q > page {
        assert(i >= (page + 1) * page_size) by (nonlinear_arith)
            requires
                i == page_size * q + r,
                0 <= r,
                q >= page + 1,
                0 < page_size,
        ;
    }
}

/// One step of a write: after the pieces before piece `k` have been written,
/// writing the page of piece `k`, rebuilt from what the store holds for it (or
/// from zeros where the page is out of range) with the piece patched in, gives
/// what the store holds after the pieces up to and including piece `k`.
pub proof fn lemma_write_step(before: Seq<u8>, page_size: int, address: int, data: Seq<u8>, k: int)
    requires
        0 < page_size,
        0 <= address,
        0 <= k < page_count(address, data.len() as int, page_size),
    ensures
        ({
            let done = piece_start(address, page_size, k) - address;
            let pos = address + done;
            let page = address / page_size + k;
            let n = chunk_len(pos, data.len() - done, page_size);
            let current = write_image(before, page_size, address, data.take(done));
            let base = if page_in_range(current.len() as int, page_size, page) {
                page_image(current, page_size, page)
            } else {
                zero_page(page_size)
            };
            let image = patched(base, pos % page_size, data.subrange(done, done + n));
            &&& 0 <= done < data.len()
            &&& pos / page_size == page
            &&& page_in_range(current.len() as int, page_size, page) <==> page_in_range(
                before.len() as int,
                page_size,
                page,
            )
            &&& image.len() == page_size
            &&& written(current, page * page_size, image) == write_image(
                before,
                page_size,
                address,
                data.take(done + n),
            )
        }),
{
    let ps = page_size;
    let first = address / ps;
    let done = piece_start(address, ps, k) - address;
    let pos = address + done;
    let page = first + k;
    let off = pos % ps;
    let n = chunk_len(pos, data.len() - done, ps);
    let current = write_image(before, ps, address, data.take(done));
    let base = if page_in_range(current.len() as int, ps, page) {
        page_image(current, ps, page)
    } else {
        zero_page(ps)
    };
    let piece = data.subrange(done, done + n);
    let image = patched(base, off, piece);
    let next = written(current, page * ps, image);
    let target = write_image(before, ps, address, data.take(done + n));
    let len0 = before.len() as int;

    lemma_split_covers(address, data.len() as int, ps, k);
    lemma_chunk_step(pos, data.len() - done, ps);
    lemma_chunk_step(address, data.len() as int, ps);
    lemma_page_extent(ps, page);
    if k > 0 {
        lemma_page_of(pos - 1, ps, page - 1);
        lemma_page_extent(ps, page - 1);
    }
    assert(current.len() == if done == 0 {
        len0
    } else if len0 >= page * ps {
        len0
    } else {
        page * ps
    });
    assert forall|i: int| 0 <= i < next.len() implies next[i] == target[i] by {
        lemma_page_of(i, ps, page);
        lemma_page_of(i, ps, first);
        if k > 0 {
            lemma_page_of(i, ps, page - 1);
        }
    }
}

} // verus!
