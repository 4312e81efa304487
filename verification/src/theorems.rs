use crate::index::{lemma_touched, over_budget, touched};
use crate::layout::{lemma_chunk_step, page_count};
use crate::lemmas::{lemma_page_extent, lemma_page_in_range, lemma_page_of};
use crate::model::{
    byte_range, in_range_pages, page_in_range, range_end, touched_all, write_image,
};
use vstd::arithmetic::div_mod::{lemma_div_is_ordered, lemma_div_pos_is_pos};
use vstd::prelude::*;

verus! {

/// Bytes written are the bytes read back: after `data` has been written at
/// `address`, the store holds `data` in that range, and every page of the range
/// lies within the logical length, so that a read of the range is not out of
/// range.
pub proof fn write_then_read(before: Seq<u8>, page_size: int, address: int, data: Seq<u8>)
    requires
        0 < page_size,
        0 <= address,
    ensures
        byte_range(
            write_image(before, page_size, address, data),
            address,
            data.len() as int,
        ) == data,
        in_range_pages(
            write_image(before, page_size, address, data).len() as int,
            page_size,
            address,
            data.len() as int,
        ) == page_count(address, data.len() as int, page_size),
        data.len() > 0 ==> write_image(before, page_size, address, data).len() >= range_end(
            address,
            data.len() as int,
            page_size,
        ),
        write_image(before, page_size, address, data).len() >= before.len(),
{
    let after = write_image(before, page_size, address, data);
    let size = data.len() as int;
    if size > 0 {
        let last = (address + size - 1) / page_size;
        lemma_chunk_step(address, size, page_size);
        lemma_page_of(address + size - 1, page_size, last);
        lemma_page_extent(page_size, last);
        lemma_page_in_range(after.len() as int, page_size, last);
    }
}

/// A write leaves alone what it does not touch: a byte outside the written
/// range, in a page that lay wholly within the store, keeps its value.
pub proof fn write_keeps_rest(before: Seq<u8>, page_size: int, address: int, data: Seq<u8>, i: int)
    requires
        0 < page_size,
        0 <= address,
        0 <= i < before.len(),
        !(address <= i < address + data.len()),
        page_in_range(before.len() as int, page_size, i / page_size),
    ensures
        i < write_image(before, page_size, address, data).len(),
        write_image(before, page_size, address, data)[i] == before[i],
{
}

/// A write given as the address it starts at and the bytes it carries.
pub type WriteRequest = (int, Seq<u8>);

/// What a store holds after a sequence of writes, first to last.
pub open spec fn write_all(before: Seq<u8>, page_size: int, writes: Seq<WriteRequest>) -> Seq<u8>
    decreases writes.len(),
{
    if writes.len() == 0 {
        before
    } else {
        write_image(
            write_all(before, page_size, writes.drop_last()),
            page_size,
            writes.last().0,
            writes.last().1,
        )
    }
}

/// Whether no two writes of a sequence share a byte position.
pub open spec fn non_overlapping(writes: Seq<WriteRequest>) -> bool {
    forall|i: int, j: int|
        0 <= i < writes.len() && 0 <= j < writes.len() && i != j ==> {
            ||| writes[i].0 + writes[i].1.len() <= writes[j].0
            ||| writes[j].0 + writes[j].1.len() <= writes[i].0
        }
}

/// Whether a byte position lies in the range of one of the writes.
pub open spec fn written_somewhere(writes: Seq<WriteRequest>, i: int) -> bool {
    exists|j: int|
        0 <= j < writes.len() && writes[j].0 <= i < writes[j].0 + (#[trigger] writes[j]).1.len()
}

/// Round trip: after any sequence of writes that do not overlap, the store
/// holds in the range of each write exactly the bytes of that write, and the
/// range lies within the logical length. Reads do not change what the store
/// holds, so any reads that follow return those bytes.
pub proof fn writes_round_trip(before: Seq<u8>, page_size: int, writes: Seq<WriteRequest>, j: int)
    requires
        0 < page_size,
        non_overlapping(writes),
        forall|i: int| 0 <= i < writes.len() ==> 0 <= (#[trigger] writes[i]).0,
        0 <= j < writes.len(),
    ensures
        byte_range(
            write_all(before, page_size, writes),
            writes[j].0,
            writes[j].1.len() as int,
        ) == writes[j].1,
        in_range_pages(
            write_all(before, page_size, writes).len() as int,
            page_size,
            writes[j].0,
            writes[j].1.len() as int,
        ) == page_count(writes[j].0, writes[j].1.len() as int, page_size),
    decreases writes.len(),
{
    let n = writes.len() - 1;
    let earlier = writes.drop_last();
    let prev = write_all(before, page_size, earlier);
    let after = write_all(before, page_size, writes);
    let (address, data) = writes[n];
    write_then_read(prev, page_size, address, data);
    if j < n {
        let (a, d) = writes[j];
        let size = d.len() as int;
        assert forall|x: int| 0 <= x < earlier.len() implies #[trigger] earlier[x] == writes[x] by {
        }
        writes_round_trip(before, page_size, earlier, j);
        if size > 0 {
            lemma_chunk_step(a, size, page_size);
            let last = (a + size - 1) / page_size;
            lemma_page_in_range(prev.len() as int, page_size, last);
            lemma_page_in_range(after.len() as int, page_size, last);
            lemma_div_is_ordered(prev.len() as int, after.len() as int, page_size);
            lemma_page_extent(page_size, last);
            assert forall|i: int| 0 <= i < size implies after[a + i] == d[i] by {
                let pos = a + i;
                lemma_div_is_ordered(pos, a + size - 1, page_size);
                lemma_div_pos_is_pos(pos, page_size);
                lemma_page_in_range(prev.len() as int, page_size, pos / page_size);
                write_keeps_rest(prev, page_size, address, data, pos);
            }
        }
    }
}

/// What was never written reads as zero: after any sequence of writes to a
/// store that started out empty, a byte outside the range of every write is
/// zero. That covers the rest of a page that was written in part, and the gap
/// that a write beyond the end leaves behind.
pub proof fn unwritten_is_zero(page_size: int, writes: Seq<WriteRequest>, i: int)
    requires
        0 < page_size,
        0 <= i < write_all(Seq::<u8>::empty(), page_size, writes).len(),
        !written_somewhere(writes, i),
    ensures
        write_all(Seq::<u8>::empty(), page_size, writes)[i] == 0u8,
    decreases writes.len(),
{
    if writes.len() > 0 {
        let n = writes.len() - 1;
        let earlier = writes.drop_last();
        let prev = write_all(Seq::<u8>::empty(), page_size, earlier);
        if i < prev.len() {
            assert forall|j: int| 0 <= j < earlier.len() implies #[trigger] earlier[j]
                == writes[j] by {
            }
            unwritten_is_zero(page_size, earlier, i);
        }
    }
}

/// Touching one run of pages after another is touching the two runs joined.
pub proof fn touched_all_joined(
    order: Seq<u64>,
    first: Seq<u64>,
    second: Seq<u64>,
    page_size: int,
    capacity: int,
)
    ensures
        touched_all(touched_all(order, first, page_size, capacity), second, page_size, capacity)
            == touched_all(order, first + second, page_size, capacity),
    decreases second.len(),
{
    if second.len() == 0 {
        assert(first + second =~= first);
    } else {
        touched_all_joined(order, first, second.drop_last(), page_size, capacity);
        assert((first + second).drop_last() =~= first + second.drop_last());
    }
}

/// Touching pages keeps the resident pages distinct.
pub proof fn touched_all_distinct(order: Seq<u64>, pages: Seq<u64>, page_size: int, capacity: int)
    requires
        order.no_duplicates(),
    ensures
        touched_all(order, pages, page_size, capacity).no_duplicates(),
    decreases pages.len(),
{
    if pages.len() > 0 {
        touched_all_distinct(order, pages.drop_last(), page_size, capacity);
        lemma_touched(
            touched_all(order, pages.drop_last(), page_size, capacity),
            pages.last(),
            page_size,
            capacity,
        );
    }
}

/// Least recently used goes first: with room for exactly `n` pages and nothing
/// resident, touching `n + 1` different pages leaves all of them resident but
/// the first one touched.
pub proof fn oldest_page_is_evicted(pages: Seq<u64>, n: int, page_size: int, capacity: int)
    requires
        0 < page_size,
        1 <= n,
        capacity == n * page_size,
        pages.len() == n + 1,
        pages.no_duplicates(),
    ensures
        touched_all(Seq::<u64>::empty(), pages, page_size, capacity) == pages.skip(1),
        !touched_all(Seq::<u64>::empty(), pages, page_size, capacity).contains(pages[0]),
        forall|k: int|
            1 <= k <= n ==> touched_all(Seq::<u64>::empty(), pages, page_size, capacity).contains(
                #[trigger] pages[k],
            ),
{
    let filled = pages.drop_last();
    let after = pages.skip(1);
    fills_without_eviction(filled, n, page_size, capacity);
    lemma_last_is_new(pages);
    assert(over_budget(n, page_size, capacity)) by (nonlinear_arith)
        requires
            capacity == n * page_size,
            0 < page_size,
            over_budget(n, page_size, capacity) == ((n + 1) * page_size > capacity),
    ;
    assert(filled.drop_first().push(pages.last()) =~= after);
    assert(!after.contains(pages[0])) by {
        if after.contains(pages[0]) {
            let j = choose|j: int| 0 <= j < after.len() && after[j] == pages[0];
            assert(pages[j + 1] == pages[0]);
        }
    }
    assert forall|k: int| 1 <= k <= n implies after.contains(#[trigger] pages[k]) by {
        assert(after[k - 1] == pages[k]);
    }
}

/// The last of a run of different pages is none of the pages before it.
proof fn lemma_last_is_new(pages: Seq<u64>)
    requires
        pages.len() > 0,
        pages.no_duplicates(),
    ensures
        pages.drop_last().no_duplicates(),
        !pages.drop_last().contains(pages.last()),
{
    let earlier = pages.drop_last();
    if earlier.contains(pages.last()) {
        let j = choose|j: int| 0 <= j < earlier.len() && earlier[j] == pages.last();
        assert(pages[j] == pages[pages.len() - 1]);
    }
}

/// While there is room, touching different pages evicts nothing: the recency
/// order is the pages in the order in which they were touched.
pub proof fn fills_without_eviction(pages: Seq<u64>, n: int, page_size: int, capacity: int)
    requires
        0 < page_size,
        capacity >= n * page_size,
        pages.len() <= n,
        pages.no_duplicates(),
    ensures
        touched_all(Seq::<u64>::empty(), pages, page_size, capacity) == pages,
    decreases pages.len(),
{
    if pages.len() > 0 {
        let earlier = pages.drop_last();
        lemma_last_is_new(pages);
        fills_without_eviction(earlier, n, page_size, capacity);
        assert(!over_budget(earlier.len() as int, page_size, capacity)) by (nonlinear_arith)
            requires
                earlier.len() + 1 <= n,
                capacity >= n * page_size,
                0 < page_size,
                over_budget(earlier.len() as int, page_size, capacity) == ((earlier.len() + 1)
                    * page_size > capacity),
        ;
        assert(earlier.push(pages.last()) =~= pages);
    }
}

/// Touching a page again protects it: with room for two pages and nothing
/// resident, touching `a`, `b`, `a` again and then `c` evicts `b` and keeps `a`.
pub proof fn retouched_page_is_kept(a: u64, b: u64, c: u64, page_size: int, capacity: int)
    requires
        0 < page_size,
        2 * page_size <= capacity < 3 * page_size,
        a != b,
        a != c,
        b != c,
    ensures
        touched_all(Seq::<u64>::empty(), seq![a, b, a, c], page_size, capacity) == seq![a, c],
{
    let empty = Seq::<u64>::empty();
    let s1 = seq![a];
    let s2 = seq![a, b];
    let s3 = seq![a, b, a];
    let s4 = seq![a, b, a, c];
    assert(s1.drop_last() =~= empty);
    assert(s2.drop_last() =~= s1);
    assert(s3.drop_last() =~= s2);
    assert(s4.drop_last() =~= s3);
    assert(touched_all(empty, empty, page_size, capacity) == empty);
    let o1 = touched_all(empty, s1, page_size, capacity);
    assert(o1 =~= seq![a]);
    let o2 = touched_all(empty, s2, page_size, capacity);
    assert(!o1.contains(b)) by {
        if o1.contains(b) {
            let j = choose|j: int| 0 <= j < o1.len() && o1[j] == b;
            assert(o1[j] == a);
        }
    }
    assert(o2 =~= seq![a, b]);
    let o3 = touched_all(empty, s3, page_size, capacity);
    assert(o2[0] == a);
    assert(o2.index_of(a) == 0);
    assert(o3 =~= seq![b, a]);
    let o4 = touched_all(empty, s4, page_size, capacity);
    assert(!o3.contains(c)) by {
        if o3.contains(c) {
            let j = choose|j: int| 0 <= j < o3.len() && o3[j] == c;
            assert(o3[j] == b || o3[j] == a);
        }
    }
    assert(o4 =~= seq![a, c]);
}

} // verus!
