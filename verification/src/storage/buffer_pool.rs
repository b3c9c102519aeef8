//! An in-memory cache of pages with least-recently-used eviction.
//!
//! Reading and writing the disk is the caller's part: fetching a page that is
//! not cached is done in two steps, `begin_fetch` (which may evict a page that
//! the caller must then write back) and `complete_fetch` (which caches the page
//! that the caller read).
use vstd::prelude::*;
use std::collections::{HashMap, VecDeque};
use crate::storage::page::{Page, PageId};

verus! {

broadcast use vstd::std_specs::hash::group_hash_axioms;

/// `s` without the occurrences of `id`, in the same order.
pub open spec fn without(s: Seq<PageId>, id: PageId) -> Seq<PageId>
    decreases s.len(),
{
    if s.len() == 0 {
        s
    } else {
        let rest = without(s.drop_last(), id);
        if s.last() == id {
            rest
        } else {
            rest.push(s.last())
        }
    }
}

/// `s` with `id` moved to (or added at) the most recently used end.
pub open spec fn touched(s: Seq<PageId>, id: PageId) -> Seq<PageId> {
    without(s, id).push(id)
}

proof fn lemma_without(s: Seq<PageId>, id: PageId)
    ensures
        forall|x: PageId| #[trigger] without(s, id).contains(x) <==> (s.contains(x) && x != id),
        s.no_duplicates() ==> without(s, id).no_duplicates(),
        !s.contains(id) ==> without(s, id) == s,
    decreases s.len(),
{
    if s.len() > 0 {
        let init = s.drop_last();
        lemma_without(init, id);
        assert(s =~= init.push(s.last()));
        let w = without(s, id);
        let wi = without(init, id);
        assert forall|x: PageId| #[trigger] w.contains(x) <==> (s.contains(x) && x != id) by {
            if s.contains(x) && x != id {
                let i = choose|i: int| 0 <= i < s.len() && s[i] == x;
                if i == s.len() - 1 {
                    assert(w[w.len() - 1] == x);
                } else {
                    assert(init[i] == x);
                    assert(wi.contains(x));
                    let j = choose|j: int| 0 <= j < wi.len() && wi[j] == x;
                    assert(w[j] == x);
                }
            }
            if w.contains(x) {
                let j = choose|j: int| 0 <= j < w.len() && w[j] == x;
                if s.last() != id && j == w.len() - 1 {
                    assert(s[s.len() - 1] == x);
                } else {
                    assert(wi[j] == x);
                    assert(wi.contains(x));
                    let k = choose|k: int| 0 <= k < init.len() && init[k] == x;
                    assert(s[k] == x);
                }
            }
        }
        if s.no_duplicates() {
            assert(init.no_duplicates()) by {
                assert forall|i: int, j: int| 0 <= i < init.len() && 0 <= j < init.len() && i != j implies init[i] != init[j] by {
                    assert(init[i] == s[i] && init[j] == s[j]);
                }
            }
            if s.last() != id {
                assert(!init.contains(s.last())) by {
                    if init.contains(s.last()) {
                        let k = choose|k: int| 0 <= k < init.len() && init[k] == s.last();
                        assert(s[k] == s[s.len() - 1]);
                    }
                }
                assert(!without(init, id).contains(s.last()));
            }
        }
        if !s.contains(id) {
            assert(!init.contains(id)) by {
                if init.contains(id) {
                    let k = choose|k: int| 0 <= k < init.len() && init[k] == id;
                    assert(s[k] == id);
                }
            }
            assert(s.last() != id) by {
                assert(s[s.len() - 1] == s.last());
            }
        }
    }
}

/// Holds of the identifiers other than `id`.
pub open spec fn other_than(id: PageId) -> spec_fn(PageId) -> bool {
    |x: PageId| x != id
}

/// Taking `id` out of a use order keeps the other identifiers in their
/// order, and touching `id` then puts it last.
pub proof fn lemma_without_is_filter(s: Seq<PageId>, id: PageId)
    ensures
        without(s, id) == s.filter(other_than(id)),
        touched(s, id) == s.filter(other_than(id)).push(id),
    decreases s.len(),
{
    reveal(Seq::filter);
    if s.len() > 0 {
        lemma_without_is_filter(s.drop_last(), id);
    }
}

/// The result of the first step of a fetch.
pub enum FetchStep {
    /// The page is cached; it is now the most recently used.
    Hit,
    /// The page must be read from disk and handed to `complete_fetch`. When
    /// room was made by evicting a modified page, that page is handed back
    /// so that it can be written to disk.
    Miss { write_back: Option<Page> },
}

/// A cache of at most `capacity` pages (when `capacity` is positive), with the
/// order of their last use.
pub struct BufferPool {
    capacity: usize,
    pages: HashMap<PageId, Page>,
    lru: VecDeque<PageId>,
}

impl BufferPool {
    /// The cached pages, by identifier.
    pub closed spec fn view(&self) -> Map<PageId, Page> {
        self.pages@
    }

    /// The identifiers of the cached pages, least recently used first.
    pub closed spec fn lru_order(&self) -> Seq<PageId> {
        self.lru@
    }

    /// The number of cached pages.
    pub closed spec fn cached_count(&self) -> nat {
        self.pages@.len()
    }

    /// The capacity that the cache was made with.
    pub closed spec fn capacity_spec(&self) -> nat {
        self.capacity as nat
    }

    /// The cache's invariant: each page is cached under its identifier, and
    /// the use order lists each cached identifier once.
    pub closed spec fn wf(&self) -> bool {
        &&& self.lru@.no_duplicates()
        &&& forall|id: PageId| #[trigger] self.lru@.contains(id) <==> self.pages@.contains_key(id)
        &&& forall|id: PageId| #[trigger] self.pages@.contains_key(id) ==> self.pages@[id].id == id
        &&& self.capacity > 0 ==> self.pages@.len() <= self.capacity
    }

    /// The cache's invariant, seen through the view: the use order lists
    /// exactly the cached identifiers, each once, a positive capacity bounds
    /// the number of cached pages, and each page is cached under its own
    /// identifier.
    pub proof fn lemma_wf(&self)
        requires
            self.wf(),
        ensures
            self.lru_order().no_duplicates(),
            forall|id: PageId| #[trigger] self.lru_order().contains(id) <==> self@.contains_key(id),
            self.capacity_spec() > 0 ==> self.cached_count() <= self.capacity_spec(),
            forall|id: PageId| #[trigger] self@.contains_key(id) ==> self@[id].id == id,
    {
    }

    /// With an empty use order the cache holds no page.
    proof fn lemma_empty_order(&self)
        requires
            self.wf(),
            self.lru@.len() == 0,
        ensures
            self.pages@.len() == 0,
    {
        assert(self.pages@.dom() =~= Set::<PageId>::empty()) by {
            assert forall|id: PageId| !self.pages@.dom().contains(id) by {
                if self.pages@.contains_key(id) {
                    assert(self.lru@.contains(id));
                }
            }
        }
    }

    /// An empty cache.
    pub fn new(capacity: usize) -> (pool: Self)
        ensures
            pool.wf(),
            pool@ == Map::<PageId, Page>::empty(),
            pool.lru_order() == Seq::<PageId>::empty(),
            pool.cached_count() == 0,
            pool.capacity_spec() == capacity,
    {
        let pool = Self { capacity, pages: HashMap::new(), lru: VecDeque::new() };
        assert(pool.pages@.dom() =~= Set::<PageId>::empty());
        pool
    }

    /// Whether the page is cached.
    pub fn contains(&self, page_id: PageId) -> (b: bool)
        requires
            self.wf(),
        ensures
            b == self@.contains_key(page_id),
    {
        self.pages.contains_key(&page_id)
    }

    /// Moves `page_id` to the most recently used end of the use order.
    fn touch(&mut self, page_id: PageId)
        requires
            old(self).wf(),
            old(self)@.contains_key(page_id),
        ensures
            final(self).wf(),
            final(self).pages@ == old(self).pages@,
            final(self).capacity == old(self).capacity,
            final(self).lru@ == touched(old(self).lru@, page_id),
    {
        let mut kept: VecDeque<PageId> = VecDeque::new();
        let mut j: usize = 0;
        while j < self.lru.len()
            invariant
                j <= self.lru@.len(),
                kept@ == without(self.lru@.take(j as int), page_id),
            decreases self.lru@.len() - j,
        {
            let x = self.lru[j];
            assert(self.lru@.take(j + 1).drop_last() =~= self.lru@.take(j as int));
            if x != page_id {
                kept.push_back(x);
            }
            j = j + 1;
        }
        assert(self.lru@.take(j as int) =~= self.lru@);
        kept.push_back(page_id);
        proof {
            let w = without(old(self).lru@, page_id);
            lemma_without(old(self).lru@, page_id);
            assert(kept@ == w.push(page_id));
            assert forall|x: PageId| #[trigger] kept@.contains(x) <==> self.pages@.contains_key(x) by {
                if x == page_id {
                    assert(kept@[kept@.len() - 1] == page_id);
                } else {
                    if kept@.contains(x) {
                        let k = choose|k: int| 0 <= k < kept@.len() && kept@[k] == x;
                        assert(w[k] == x);
                        assert(w.contains(x));
                        assert(old(self).lru@.contains(x));
                    }
                    if self.pages@.contains_key(x) {
                        assert(old(self).lru@.contains(x));
                        assert(w.contains(x));
                        let k = choose|k: int| 0 <= k < w.len() && w[k] == x;
                        assert(kept@[k] == x);
                    }
                }
            }
            assert(!w.contains(page_id));
            assert forall|a: int, b: int| 0 <= a < kept@.len() && 0 <= b < kept@.len() && a != b implies kept@[a] != kept@[b] by {
                if a < w.len() && b < w.len() {
                    assert(kept@[a] == w[a] && kept@[b] == w[b]);
                } else if a < w.len() {
                    assert(kept@[a] == w[a]);
                } else if b < w.len() {
                    assert(kept@[b] == w[b]);
                }
            }
        }
        self.lru = kept;
    }

    /// First step of fetching `page_id`. A cached page becomes the most
    /// recently used. Otherwise, when the cache holds `capacity` pages, the
    /// least recently used one is dropped, and handed back if it was modified.
    pub fn begin_fetch(&mut self, page_id: PageId) -> (step: FetchStep)
        requires
            old(self).wf(),
        ensures
            final(self).wf(),
            final(self).capacity_spec() == old(self).capacity_spec(),
            old(self)@.contains_key(page_id) ==> {
                &&& step is Hit
                &&& final(self)@ == old(self)@
                &&& final(self).cached_count() == old(self).cached_count()
                &&& final(self).lru_order() == touched(old(self).lru_order(), page_id)
            },
            !old(self)@.contains_key(page_id) ==> {
                let evicts = old(self).cached_count() == old(self).capacity_spec()
                    && old(self).lru_order().len() > 0;
                let victim = old(self).lru_order()[0];
                &&& step is Miss
                &&& final(self).capacity_spec() == 0 || final(self).cached_count()
                    < final(self).capacity_spec()
                &&& evicts ==> {
                    &&& final(self)@ == old(self)@.remove(victim)
                    &&& final(self).cached_count() == old(self).cached_count() - 1
                    &&& final(self).lru_order() == old(self).lru_order().drop_first()
                    &&& step->write_back == if old(self)@[victim].is_dirty {
                        Some(old(self)@[victim])
                    } else {
                        None::<Page>
                    }
                }
                &&& !evicts ==> {
                    &&& final(self)@ == old(self)@
                    &&& final(self).cached_count() == old(self).cached_count()
                    &&& final(self).lru_order() == old(self).lru_order()
                    &&& step->write_back == None::<Page>
                }
            },
    {
        if self.pages.contains_key(&page_id) {
            self.touch(page_id);
            return FetchStep::Hit;
        }
        if self.pages.len() == self.capacity && self.lru.len() > 0 {
            let victim = match self.lru.pop_front() {
                Some(v) => v,
                None => {
                    return FetchStep::Miss { write_back: None };
                },
            };
            proof {
                assert(old(self).lru@[0] == victim);
                assert(old(self).lru@.contains(victim));
                assert(self.lru@ =~= old(self).lru@.drop_first());
            }
            let removed = self.pages.remove(&victim);
            proof {
                assert forall|id: PageId| #[trigger] self.lru@.contains(id) <==> self.pages@.contains_key(id) by {
                    if self.lru@.contains(id) {
                        let k = choose|k: int| 0 <= k < self.lru@.len() && self.lru@[k] == id;
                        assert(old(self).lru@[k + 1] == id);
                        assert(old(self).lru@.contains(id));
                    }
                    if self.pages@.contains_key(id) {
                        assert(old(self).lru@.contains(id));
                        let k = choose|k: int| 0 <= k < old(self).lru@.len() && old(self).lru@[k] == id;
                        assert(k != 0);
                        assert(self.lru@[k - 1] == id);
                    }
                }
                assert(self.pages@.len() == old(self).pages@.len() - 1);
            }
            match removed {
                Some(page) => {
                    if page.is_dirty {
                        return FetchStep::Miss { write_back: Some(page) };
                    } else {
                        return FetchStep::Miss { write_back: None };
                    }
                },
                None => {
                    return FetchStep::Miss { write_back: None };
                },
            }
        }
        proof {
            if self.lru@.len() == 0 {
                self.lemma_empty_order();
            }
        }
        FetchStep::Miss { write_back: None }
    }

    /// Second step of fetching: caches the page read from disk as the most
    /// recently used one.
    pub fn complete_fetch(&mut self, page: Page)
        requires
            old(self).wf(),
            !old(self)@.contains_key(page.id),
            old(self).capacity_spec() == 0 || old(self).cached_count() < old(self).capacity_spec(),
        ensures
            final(self).wf(),
            final(self)@ == old(self)@.insert(page.id, page),
            final(self).cached_count() == old(self).cached_count() + 1,
            final(self).capacity_spec() == old(self).capacity_spec(),
            final(self).lru_order() == old(self).lru_order().push(page.id),
    {
        let id = page.id;
        self.pages.insert(id, page);
        self.lru.push_back(id);
        proof {
            assert(self.lru@ == old(self).lru@.push(id));
            assert(!old(self).lru@.contains(id));
            assert forall|x: PageId| #[trigger] self.lru@.contains(x) <==> self.pages@.contains_key(x) by {
                if self.lru@.contains(x) {
                    let k = choose|k: int| 0 <= k < self.lru@.len() && self.lru@[k] == x;
                    if k < old(self).lru@.len() {
                        assert(old(self).lru@[k] == x);
                        assert(old(self).lru@.contains(x));
                    }
                }
                if self.pages@.contains_key(x) && x != id {
                    assert(old(self).lru@.contains(x));
                    let m = choose|m: int| 0 <= m < old(self).lru@.len() && old(self).lru@[m] == x;
                    assert(self.lru@[m] == x);
                }
                if x == id {
                    assert(self.lru@[self.lru@.len() - 1] == x);
                }
            }
            assert forall|a: int, b: int| 0 <= a < self.lru@.len() && 0 <= b < self.lru@.len() && a != b implies self.lru@[a] != self.lru@[b] by {
                let n = old(self).lru@.len() as int;
                if a == n {
                    assert(old(self).lru@[b] != id);
                } else if b == n {
                    assert(old(self).lru@[a] != id);
                }
            }
        }
    }

    /// The cached page `page_id`.
    pub fn page(&self, page_id: PageId) -> (page: &Page)
        requires
            self.wf(),
            self@.contains_key(page_id),
        ensures
            *page == self@[page_id],
    {
        self.pages.get(&page_id).unwrap()
    }

    /// Replaces the cached page that has the identifier of `page`; the use
    /// order does not change.
    pub fn replace_page(&mut self, page: Page)
        requires
            old(self).wf(),
            old(self)@.contains_key(page.id),
        ensures
            final(self).wf(),
            final(self)@ == old(self)@.insert(page.id, page),
            final(self).cached_count() == old(self).cached_count(),
            final(self).capacity_spec() == old(self).capacity_spec(),
            final(self).lru_order() == old(self).lru_order(),
    {
        let id = page.id;
        self.pages.insert(id, page);
        proof {
            assert(self.pages@.dom() =~= old(self).pages@.dom());
        }
    }

    /// Records that the cached page `page_id` was written to disk: it is no
    /// longer modified since its last write.
    pub fn mark_clean(&mut self, page_id: PageId)
        requires
            old(self).wf(),
            old(self)@.contains_key(page_id),
        ensures
            final(self).wf(),
            final(self)@ == old(self)@.insert(page_id, Page { is_dirty: false, ..old(self)@[page_id] }),
            final(self).cached_count() == old(self).cached_count(),
            final(self).capacity_spec() == old(self).capacity_spec(),
            final(self).lru_order() == old(self).lru_order(),
    {
        match self.pages.remove(&page_id) {
            Some(mut page) => {
                page.is_dirty = false;
                self.pages.insert(page_id, page);
                proof {
                    assert(self.pages@ =~= old(self).pages@.insert(
                        page_id,
                        Page { is_dirty: false, ..old(self).pages@[page_id] },
                    ));
                    assert(self.pages@.dom() =~= old(self).pages@.dom());
                }
            },
            None => {},
        }
    }

    /// The identifiers of the cached pages that were modified, each once,
    /// least recently used first.
    pub fn dirty_page_ids(&self) -> (ids: Vec<PageId>)
        requires
            self.wf(),
        ensures
            ids@.no_duplicates(),
            forall|id: PageId| #[trigger] ids@.contains(id) <==> (self@.contains_key(id) && self@[id].is_dirty),
    {
        let mut ids: Vec<PageId> = Vec::new();
        let mut i: usize = 0;
        while i < self.lru.len()
            invariant
                self.wf(),
                i <= self.lru@.len(),
                forall|id: PageId| #[trigger] ids@.contains(id) <==> (self.lru@.take(i as int).contains(id)
                    && self.pages@[id].is_dirty),
                ids@.no_duplicates(),
            decreases self.lru@.len() - i,
        {
            let id = self.lru[i];
            proof {
                assert(self.lru@.contains(id));
                assert(self.lru@.take(i + 1) =~= self.lru@.take(i as int).push(id));
                assert(!self.lru@.take(i as int).contains(id)) by {
                    if self.lru@.take(i as int).contains(id) {
                        let k = choose|k: int| 0 <= k < i && self.lru@.take(i as int)[k] == id;
                        assert(self.lru@[k] == self.lru@[i as int]);
                    }
                }
            }
            let page = self.pages.get(&id).unwrap();
            let ghost old_ids = ids@;
            if page.is_dirty {
                ids.push(id);
                proof {
                    assert forall|a: int, b: int| 0 <= a < ids@.len() && 0 <= b < ids@.len() && a != b implies ids@[a] != ids@[b] by {
                        let n = old_ids.len() as int;
                        if a == n {
                            assert(!old_ids.contains(id));
                            assert(old_ids[b] != id);
                        } else if b == n {
                            assert(!old_ids.contains(id));
                            assert(old_ids[a] != id);
                        } else {
                            assert(old_ids[a] != old_ids[b]);
                        }
                    }
                }
            }
            proof {
                assert forall|x: PageId| #[trigger] ids@.contains(x) <==> (self.lru@.take(i + 1).contains(x)
                    && self.pages@[x].is_dirty) by {
                    if x == id {
                        if page.is_dirty {
                            assert(ids@[ids@.len() - 1] == id);
                        } else {
                            assert(!old_ids.contains(id));
                        }
                        assert(self.lru@.take(i + 1)[i as int] == id);
                    } else {
                        if ids@.contains(x) {
                            let k = choose|k: int| 0 <= k < ids@.len() && ids@[k] == x;
                            assert(old_ids[k] == x);
                            assert(old_ids.contains(x));
                            let j = choose|j: int| 0 <= j < i && self.lru@.take(i as int)[j] == x;
                            assert(self.lru@.take(i + 1)[j] == x);
                        }
                        let t1 = self.lru@.take(i + 1);
                        if t1.contains(x) && self.pages@[x].is_dirty {
                            let j = choose|j: int| 0 <= j < t1.len() && t1[j] == x;
                            assert(j != i);
                            assert(self.lru@.take(i as int)[j] == x);
                            assert(old_ids.contains(x));
                            let k = choose|k: int| 0 <= k < old_ids.len() && old_ids[k] == x;
                            assert(ids@[k] == x);
                        }
                    }
                }
            }
            i = i + 1;
        }
        assert(self.lru@.take(i as int) =~= self.lru@);
        ids
    }
}

} // verus!
