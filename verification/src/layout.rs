use vstd::arithmetic::div_mod::{
    lemma_div_is_ordered, lemma_fundamental_div_mod, lemma_fundamental_div_mod_converse,
    lemma_mod_bound,
};
use vstd::prelude::*;

verus! {

/// One piece of a byte range that lies within a single page.
#[derive(Debug, Clone, Copy, PartialEq, Eq, Structural)]
pub struct Chunk {
    /// The page the piece lies in.
    pub page_id: u64,
    /// Where the piece starts within the page.
    pub offset: usize,
    /// How many bytes the piece holds.
    pub len: usize,
}

/// How many of the `remaining` bytes of a range that starts at `pos` lie in the
/// page that holds `pos`.
pub open spec fn chunk_len(pos: int, remaining: int, page_size: int) -> int {
    if remaining <= page_size - pos % page_size {
        remaining
    } else {
        page_size - pos % page_size
    }
}

/// The first piece of the range of `remaining` bytes that starts at `pos`.
pub open spec fn first_chunk(pos: int, remaining: int, page_size: int) -> Chunk {
    Chunk {
        page_id: (pos / page_size) as u64,
        offset: (pos % page_size) as usize,
        len: chunk_len(pos, remaining, page_size) as usize,
    }
}

/// The pieces, in ascending address order, that a range of `length` bytes
/// starting at `address` is cut into at the page boundaries.
pub open spec fn split(address: int, length: int, page_size: int) -> Seq<Chunk>
    decreases length,
{
    if length <= 0 || page_size <= 0 {
        Seq::empty()
    } else {
        let n = chunk_len(address, length, page_size);
        seq![first_chunk(address, length, page_size)] + split(address + n, length - n, page_size)
    }
}

/// The number of pages that a range of `length` bytes starting at `address` touches.
pub open spec fn page_count(address: int, length: int, page_size: int) -> int {
    if length <= 0 {
        0
    } else {
        (address + length - 1) / page_size - address / page_size + 1
    }
}

/// Where piece `k` of a range that starts at `address` begins.
pub open spec fn piece_start(address: int, page_size: int, k: int) -> int {
    if k == 0 {
        address
    } else {
        (address / page_size + k) * page_size
    }
}

/// What taking the first piece off a range leaves: the piece is not empty, stays
/// within its page, and the rest, if any, starts at the next page boundary.
pub proof fn lemma_chunk_step(pos: int, remaining: int, page_size: int)
    requires
        0 <= pos,
        0 < remaining,
        0 < page_size,
    ensures
        0 < chunk_len(pos, remaining, page_size) <= remaining,
        0 <= pos % page_size < page_size,
        pos % page_size + chunk_len(pos, remaining, page_size) <= page_size,
        pos == (pos / page_size) * page_size + pos % page_size,
        0 <= pos / page_size,
        (pos + chunk_len(pos, remaining, page_size) - 1) / page_size == pos / page_size,
        chunk_len(pos, remaining, page_size) < remaining ==> {
            &&& (pos + chunk_len(pos, remaining, page_size)) % page_size == 0
            &&& (pos + chunk_len(pos, remaining, page_size)) / page_size == pos / page_size + 1
        },
        page_count(pos, remaining, page_size) == 1 + page_count(
            pos + chunk_len(pos, remaining, page_size),
            remaining - chunk_len(pos, remaining, page_size),
            page_size,
        ),
        page_count(pos, remaining, page_size) >= 1,
{
    lemma_div_is_ordered(pos, pos + remaining - 1, page_size);
    let n = chunk_len(pos, remaining, page_size);
    let q = pos / page_size;
    let r = pos % page_size;
    lemma_fundamental_div_mod(pos, page_size);
    lemma_mod_bound(pos, page_size);
    assert(pos == q * page_size + r) by (nonlinear_arith)
        requires
            pos == page_size * q + r,
    ;
    assert(0 <= q) by (nonlinear_arith)
        requires
            pos == q * page_size + r,
            0 <= pos,
            r < page_size,
            0 < page_size,
    ;
    lemma_fundamental_div_mod_converse(pos + n - 1, page_size, q, r + n - 1);
    if n < remaining {
        assert(pos + n == (q + 1) * page_size + 0) by (nonlinear_arith)
            requires
                pos == q * page_size + r,
                n == page_size - r,
        ;
        lemma_fundamental_div_mod_converse(pos + n, page_size, q + 1, 0);
        let last = pos + remaining - 1;
        lemma_fundamental_div_mod(last, page_size);
        lemma_mod_bound(last, page_size);
    }
}

/// Cuts the first piece off the range of `remaining` bytes that starts at `pos`.
pub fn next_chunk(pos: u64, remaining: usize, page_size: usize) -> (chunk: Chunk)
    requires
        0 < remaining,
        0 < page_size,
    ensures
        chunk == first_chunk(pos as int, remaining as int, page_size as int),
        chunk.page_id == pos / (page_size as u64),
        chunk.offset == pos % (page_size as u64),
        chunk.len == chunk_len(pos as int, remaining as int, page_size as int),
        0 < chunk.len <= remaining,
        chunk.offset + chunk.len <= page_size,
{
    proof {
        lemma_chunk_step(pos as int, remaining as int, page_size as int);
    }
    let page_id = pos / page_size as u64;
    let offset = (pos % page_size as u64) as usize;
    let room = page_size - offset;
    let len = if remaining <= room {
        remaining
    } else {
        room
    };
    Chunk { page_id, offset, len }
}

/// Cuts a byte range into its per-page pieces, in ascending address order.
pub fn split_range(address: u64, length: usize, page_size: usize) -> (chunks: Vec<Chunk>)
    requires
        0 < page_size,
        address + length <= u64::MAX,
    ensures
        chunks@ == split(address as int, length as int, page_size as int),
{
    let mut chunks: Vec<Chunk> = Vec::new();
    let mut pos: u64 = address;
    let mut remaining: usize = length;
    while remaining > 0
        invariant
            0 < page_size,
            pos + remaining == address + length,
            address + length <= u64::MAX,
            chunks@ + split(pos as int, remaining as int, page_size as int) == split(
                address as int,
                length as int,
                page_size as int,
            ),
        decreases remaining,
    {
        let chunk = next_chunk(pos, remaining, page_size);
        chunks.push(chunk);
        pos = pos + chunk.len as u64;
        remaining = remaining - chunk.len;
    }
    chunks
}

/// The pieces of a range cover it exactly and in order: there is one piece for
/// each page the range touches, piece `k` lies in the `k`-th of those pages,
/// only the first piece may start inside its page, and the lengths add up so
/// that piece `k` ends where piece `k + 1` begins.
pub proof fn lemma_split_covers(address: int, length: int, page_size: int, k: int)
    requires
        0 <= address,
        0 < page_size,
        0 <= k < page_count(address, length, page_size),
    ensures
        split(address, length, page_size).len() == page_count(address, length, page_size),
        split(address, length, page_size)[k] == first_chunk(
            piece_start(address, page_size, k),
            address + length - piece_start(address, page_size, k),
            page_size,
        ),
        address <= piece_start(address, page_size, k) < address + length,
        piece_start(address, page_size, k) / page_size == address / page_size + k,
    decreases length,
{
    lemma_split_len(address, length, page_size);
    lemma_chunk_step(address, length, page_size);
    let n = chunk_len(address, length, page_size);
    if k > 0 {
        lemma_split_covers(address + n, length - n, page_size, k - 1);
        lemma_chunk_step(address + n, length - n, page_size);
        assert(piece_start(address + n, page_size, k - 1) == piece_start(address, page_size, k))
            by (nonlinear_arith)
            requires
                (address + n) / page_size == address / page_size + 1,
                (address + n) % page_size == 0,
                address + n == ((address + n) / page_size) * page_size + (address + n) % page_size,
                piece_start(address + n, page_size, k - 1) == if k - 1 == 0 {
                    address + n
                } else {
                    ((address + n) / page_size + (k - 1)) * page_size
                },
                piece_start(address, page_size, k) == (address / page_size + k) * page_size,
        ;
    }
}

/// A range is cut into as many pieces as it touches pages.
pub proof fn lemma_split_len(address: int, length: int, page_size: int)
    requires
        0 <= address,
        0 < page_size,
    ensures
        split(address, length, page_size).len() == page_count(address, length, page_size),
    decreases length,
{
    if length > 0 {
        lemma_chunk_step(address, length, page_size);
        let n = chunk_len(address, length, page_size);
        lemma_split_len(address + n, length - n, page_size);
    }
}

} // verus!
