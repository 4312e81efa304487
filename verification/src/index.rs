use crate::config::{valid_config, MAX_CAPACITY, MAX_PAGE_SIZE, MIN_PAGE_SIZE};
use crate::page_map::{page_map_get, page_map_insert, page_map_remove, AHashMap};
use std::collections::{HashMap, VecDeque};
use vstd::prelude::*;

verus! {

/// The recency order after a resident page has been touched: the page moves to
/// the most-recently-used end, the others keep their order.
pub open spec fn promoted(order: Seq<u64>, page_id: u64) -> Seq<u64> {
    order.remove(order.index_of(page_id)).push(page_id)
}

/// Whether one more page would push `count` resident pages over the byte budget.
pub open spec fn over_budget(count: int, page_size: int, capacity: int) -> bool {
    (count + 1) * page_size > capacity
}

/// The recency order after a page that was not resident has been inserted: the
/// least-recently-used page leaves first if the new page would not fit, and the
/// new page becomes the most recently used.
pub open spec fn admitted(order: Seq<u64>, page_id: u64, page_size: int, capacity: int) -> Seq<u64> {
    if order.len() > 0 && over_budget(order.len() as int, page_size, capacity) {
        order.drop_first().push(page_id)
    } else {
        order.push(page_id)
    }
}

/// The recency order after `page_id` has been touched, resident or not.
pub open spec fn touched(order: Seq<u64>, page_id: u64, page_size: int, capacity: int) -> Seq<u64> {
    if order.contains(page_id) {
        promoted(order, page_id)
    } else {
        admitted(order, page_id, page_size, capacity)
    }
}

/// The page that leaves when a page that is not resident is inserted, if any.
pub open spec fn evicted(order: Seq<u64>, page_size: int, capacity: int) -> Option<u64> {
    if order.len() > 0 && over_budget(order.len() as int, page_size, capacity) {
        Some(order[0])
    } else {
        None
    }
}

/// Promotion keeps the set of pages and their number, and keeps them distinct.
pub proof fn lemma_promoted(order: Seq<u64>, page_id: u64)
    requires
        order.no_duplicates(),
        order.contains(page_id),
    ensures
        promoted(order, page_id).no_duplicates(),
        promoted(order, page_id).len() == order.len(),
        promoted(order, page_id).last() == page_id,
        forall|p: u64|
            #![trigger promoted(order, page_id).contains(p)]
            #![trigger order.contains(p)]
            promoted(order, page_id).contains(p) <==> order.contains(p),
{
    let i = order.index_of(page_id);
    let after = promoted(order, page_id);
    assert forall|p: u64| order.contains(p) implies after.contains(p) by {
        let j = choose|j: int| 0 <= j < order.len() && order[j] == p;
        if j < i {
            assert(after[j] == p);
        } else if j == i {
            assert(after[after.len() - 1] == p);
        } else {
            assert(after[j - 1] == p);
        }
    }
}

/// Admission makes the new page the most recently used, drops at most the
/// least recently used one, and keeps the pages distinct.
pub proof fn lemma_admitted(order: Seq<u64>, page_id: u64, page_size: int, capacity: int)
    requires
        order.no_duplicates(),
        !order.contains(page_id),
    ensures
        admitted(order, page_id, page_size, capacity).no_duplicates(),
        admitted(order, page_id, page_size, capacity).last() == page_id,
        forall|p: u64|
            #![trigger admitted(order, page_id, page_size, capacity).contains(p)]
            #![trigger order.contains(p)]
            admitted(order, page_id, page_size, capacity).contains(p) <==> (p == page_id || (
            order.contains(p) && evicted(order, page_size, capacity) != Some(p))),
        admitted(order, page_id, page_size, capacity).len() == if evicted(
            order,
            page_size,
            capacity,
        ) is Some {
            order.len()
        } else {
            order.len() + 1
        },
{
    let after = admitted(order, page_id, page_size, capacity);
    let shift: int = if evicted(order, page_size, capacity) is Some {
        1
    } else {
        0
    };
    assert(after[after.len() - 1] == page_id);
    assert forall|p: u64|
        order.contains(p) && evicted(order, page_size, capacity) != Some(p) implies after.contains(
        p,
    ) by {
        let j = choose|j: int| 0 <= j < order.len() && order[j] == p;
        assert(after[j - shift] == p);
    }
}

/// Touching a page makes it the most recently used, keeps the pages distinct,
/// and keeps every page that was there, except the one that is evicted.
pub proof fn lemma_touched(order: Seq<u64>, page_id: u64, page_size: int, capacity: int)
    requires
        order.no_duplicates(),
    ensures
        touched(order, page_id, page_size, capacity).no_duplicates(),
        touched(order, page_id, page_size, capacity).last() == page_id,
        touched(order, page_id, page_size, capacity).contains(page_id),
        forall|p: u64|
            #![trigger touched(order, page_id, page_size, capacity).contains(p)]
            touched(order, page_id, page_size, capacity).contains(p) ==> p == page_id
                || order.contains(p),
        touched(order, page_id, page_size, capacity).len() <= order.len() + 1,
{
    if order.contains(page_id) {
        lemma_promoted(order, page_id);
    } else {
        lemma_admitted(order, page_id, page_size, capacity);
    }
}

/// Touching a page twice in a row leaves the order that the first touch gave.
pub proof fn lemma_touched_again(order: Seq<u64>, page_id: u64, page_size: int, capacity: int)
    requires
        order.no_duplicates(),
    ensures
        touched(touched(order, page_id, page_size, capacity), page_id, page_size, capacity)
            == touched(order, page_id, page_size, capacity),
{
    lemma_touched(order, page_id, page_size, capacity);
}

/// The resident pages by page identifier, together with the order in which they
/// were last touched, least recently used first.
pub struct PageIndex {
    page_size: usize,
    capacity: usize,
    pages: AHashMap<u64, Vec<u8>>,
    order: VecDeque<u64>,
}

impl PageIndex {
    /// Bytes per page.
    pub closed spec fn spec_page_size(&self) -> usize {
        self.page_size
    }

    /// Byte budget for the resident pages.
    pub closed spec fn spec_capacity(&self) -> usize {
        self.capacity
    }

    /// The contents of every resident page, by page identifier.
    pub closed spec fn resident(&self) -> Map<u64, Seq<u8>> {
        Map::new(|p: u64| self.pages@.contains_key(p), |p: u64| self.pages@[p]@)
    }

    /// The resident page identifiers, least recently used first.
    pub closed spec fn recency(&self) -> Seq<u64> {
        self.order@
    }

    /// The invariant of the index: the configuration is within its bounds, the
    /// recency order lists exactly the resident pages, each once, every page
    /// is exactly one page size long, and the resident pages fit the byte
    /// budget (a single page is kept even where the budget is below one page).
    pub open spec fn wf(&self) -> bool {
        &&& valid_config(self.spec_page_size() as int, self.spec_capacity() as int)
        &&& self.recency().no_duplicates()
        &&& forall|p: u64|
            #![trigger self.resident().contains_key(p)]
            #![trigger self.recency().contains(p)]
            self.resident().contains_key(p) <==> self.recency().contains(p)
        &&& forall|p: u64| #[trigger]
            self.resident().contains_key(p) ==> self.resident()[p].len() == self.spec_page_size()
        &&& (self.recency().len() <= 1 || self.recency().len() * self.spec_page_size()
            <= self.spec_capacity())
    }

    /// An index without resident pages.
    pub fn new(page_size: usize, capacity: usize) -> (index: PageIndex)
        requires
            valid_config(page_size as int, capacity as int),
        ensures
            index.wf(),
            index.spec_page_size() == page_size,
            index.spec_capacity() == capacity,
            index.recency() == Seq::<u64>::empty(),
            index.resident() == Map::<u64, Seq<u8>>::empty(),
    {
        let index = PageIndex {
            page_size,
            capacity,
            pages: HashMap::default(),
            order: VecDeque::new(),
        };
        index
    }

    /// Bytes per page.
    #[verifier::when_used_as_spec(spec_page_size)]
    pub fn page_size(&self) -> (n: usize)
        ensures
            n == self.spec_page_size(),
    {
        self.page_size
    }

    /// Byte budget for the resident pages.
    #[verifier::when_used_as_spec(spec_capacity)]
    pub fn capacity(&self) -> (n: usize)
        ensures
            n == self.spec_capacity(),
    {
        self.capacity
    }

    /// The number of resident pages.
    pub fn len(&self) -> (n: usize)
        ensures
            n == self.recency().len(),
    {
        self.order.len()
    }

    /// The resident page identifiers, least recently used first.
    pub fn pages_by_recency(&self) -> (pages: Vec<u64>)
        ensures
            pages@ == self.recency(),
    {
        let mut pages: Vec<u64> = Vec::new();
        let mut i: usize = 0;
        while i < self.order.len()
            invariant
                i <= self.order@.len(),
                pages@ == self.order@.take(i as int),
            decreases self.order@.len() - i,
        {
            pages.push(self.order[i]);
            i += 1;
        }
        pages
    }

    /// Tells whether a page is resident.
    pub fn is_resident(&self, page_id: u64) -> (found: bool)
        ensures
            found == self.resident().contains_key(page_id),
    {
        page_map_get(&self.pages, page_id).is_some()
    }

    /// A copy of a resident page, or `None` where the page is not resident.
    pub fn get(&self, page_id: u64) -> (found: Option<Vec<u8>>)
        ensures
            match found {
                Some(page) => self.resident().contains_key(page_id) && page@
                    == self.resident()[page_id],
                None => !self.resident().contains_key(page_id),
            },
    {
        match page_map_get(&self.pages, page_id) {
            Some(page) => Some(page.clone()),
            None => None,
        }
    }

    /// Marks a resident page as the most recently used.
    pub fn promote(&mut self, page_id: u64)
        requires
            old(self).wf(),
            old(self).resident().contains_key(page_id),
        ensures
            final(self).wf(),
            final(self).spec_page_size() == old(self).spec_page_size(),
            final(self).spec_capacity() == old(self).spec_capacity(),
            final(self).resident() == old(self).resident(),
            final(self).recency() == promoted(old(self).recency(), page_id),
    {
        let mut i: usize = 0;
        while i < self.order.len() && self.order[i] != page_id
            invariant
                i <= self.order@.len(),
                self.order@.contains(page_id),
                forall|j: int| 0 <= j < i ==> self.order@[j] != page_id,
                *self == *old(self),
            decreases self.order@.len() - i,
        {
            i += 1;
        }
        proof {
            lemma_promoted(self.order@, page_id);
        }
        self.order.remove(i);
        self.order.push_back(page_id);
    }

    /// Inserts a page that is not resident as the most recently used one. Where
    /// one more page would exceed the byte budget, the least recently used
    /// page leaves first.
    pub fn add_to_cache(&mut self, page_id: u64, data: Vec<u8>)
        requires
            old(self).wf(),
            !old(self).resident().contains_key(page_id),
            data@.len() == old(self).spec_page_size(),
        ensures
            final(self).wf(),
            final(self).spec_page_size() == old(self).spec_page_size(),
            final(self).spec_capacity() == old(self).spec_capacity(),
            final(self).recency() == admitted(
                old(self).recency(),
                page_id,
                old(self).spec_page_size() as int,
                old(self).spec_capacity() as int,
            ),
            final(self).resident() == match evicted(
                old(self).recency(),
                old(self).spec_page_size() as int,
                old(self).spec_capacity() as int,
            ) {
                Some(oldest) => old(self).resident().remove(oldest).insert(page_id, data@),
                None => old(self).resident().insert(page_id, data@),
            },
    {
        proof {
            lemma_admitted(
                self.order@,
                page_id,
                self.page_size as int,
                self.capacity as int,
            );
            assert(self.order@.len() <= MAX_CAPACITY && (self.order@.len() + 1) * self.page_size
                <= MAX_CAPACITY + MAX_PAGE_SIZE) by (nonlinear_arith)
                requires
                    self.order@.len() <= 1 || self.order@.len() * self.page_size <= self.capacity,
                    MIN_PAGE_SIZE <= self.page_size <= MAX_PAGE_SIZE,
                    self.capacity <= MAX_CAPACITY,
            ;
        }
        if (self.order.len() + 1) * self.page_size > self.capacity {
            match self.order.pop_front() {
                Some(oldest) => {
                    page_map_remove(&mut self.pages, oldest);
                },
                None => {},
            }
        }
        page_map_insert(&mut self.pages, page_id, data);
        self.order.push_back(page_id);
        proof {
            let before = old(self).recency();
            let gone = evicted(before, self.page_size as int, self.capacity as int);
            assert(self.resident() =~= match gone {
                Some(oldest) => old(self).resident().remove(oldest).insert(page_id, data@),
                None => old(self).resident().insert(page_id, data@),
            });
            if self.order@.len() > 1 {
                assert(self.order@.len() * self.page_size <= self.capacity) by (nonlinear_arith)
                    requires
                        gone is Some ==> self.order@.len() == before.len(),
                        gone is None ==> self.order@.len() == before.len() + 1,
                        gone is None ==> before.len() == 0 || (before.len() + 1) * self.page_size
                            <= self.capacity,
                        before.len() <= 1 || before.len() * self.page_size <= self.capacity,
                        gone is Some ==> (before.len() + 1) * self.page_size > self.capacity,
                        self.order@.len() > 1,
                        self.page_size > 0,
                ;
            }
        }
    }

    /// Stores `data` as the contents of a page, resident or not, and makes the
    /// page the most recently used.
    pub fn put(&mut self, page_id: u64, data: Vec<u8>)
        requires
            old(self).wf(),
            data@.len() == old(self).spec_page_size(),
        ensures
            final(self).wf(),
            final(self).spec_page_size() == old(self).spec_page_size(),
            final(self).spec_capacity() == old(self).spec_capacity(),
            final(self).recency() == touched(
                old(self).recency(),
                page_id,
                old(self).spec_page_size() as int,
                old(self).spec_capacity() as int,
            ),
            final(self).resident() == if old(self).resident().contains_key(page_id) {
                old(self).resident().insert(page_id, data@)
            } else {
                match evicted(
                    old(self).recency(),
                    old(self).spec_page_size() as int,
                    old(self).spec_capacity() as int,
                ) {
                    Some(oldest) => old(self).resident().remove(oldest).insert(page_id, data@),
                    None => old(self).resident().insert(page_id, data@),
                }
            },
    {
        if self.is_resident(page_id) {
            let ghost data_view = data@;
            page_map_insert(&mut self.pages, page_id, data);
            assert(self.resident() =~= old(self).resident().insert(page_id, data_view));
            self.promote(page_id);
        } else {
            self.add_to_cache(page_id, data);
        }
    }
}

} // verus!
