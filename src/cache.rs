use vstd::prelude::*;
use std::collections::HashMap;
use crate::error::KvError;
use crate::page::{page_s, zero_view, PageView};

verus! {

broadcast use vstd::std_specs::hash::group_hash_axioms;

/// Memory budget of the cache in bytes.
pub const MAX_CACHE_SIZE: u64 = 1048576;
/// Pages the cache holds by default: the budget over the page size.
pub const MAX_MAPPED_PG: u64 = 256;
/// Most pages reclaimed by one eviction.
pub const EVICT_NUM: u64 = 128;

/// A resident page: its id, its content, whether it was changed since it was
/// written back (`dirty`) and whether a caller holds it (`busy`).
pub struct pg_s {
    pub dirty: bool,
    pub busy: bool,
    pub gpid: u64,
    pub buf: page_s,
}

/// The page cache: at most `cap` resident pages in least-recently-used order,
/// found through hash buckets chosen by the low bits of the page id, over the
/// backing pages in `disk`. Dirty pages are written back when evicted.
pub struct cache_s {
    cap: u64,
    ents: Vec<pg_s>,
    /// Hash buckets of the resident page ids, chosen by the low bits of the id.
    hash: Vec<Vec<u64>>,
    mask: u64,
    disk: HashMap<u64, page_s>,
    pages: Ghost<Map<u64, PageView>>,
}

impl cache_s {
    /// The content of every page known to the cache, resident or written back.
    pub closed spec fn view(&self) -> Map<u64, PageView> {
        self.pages@
    }

    /// The content of page `g`: all zero for a page never written.
    pub open spec fn page(&self, g: u64) -> PageView {
        if self.view().contains_key(g) {
            self.view()[g]
        } else {
            zero_view()
        }
    }

    pub closed spec fn capacity(&self) -> nat {
        self.cap as nat
    }

    /// Bucket `g & (bucket_count - 1)` holds page id `g`.
    pub closed spec fn in_hash(&self, g: u64) -> bool {
        in_bucket(self.hash@, self.mask, g)
    }

    /// Number of hash buckets.
    pub closed spec fn bucket_count(&self) -> nat {
        self.hash@.len()
    }

    /// The resident pages, least recently used first.
    pub closed spec fn lru(&self) -> Seq<u64> {
        self.ents@.map_values(|e: pg_s| e.gpid)
    }

    /// Of the pages of `before` in least-recently-used order, those before
    /// position `j` are still resident exactly when they were held, and those
    /// from `j` on are all still resident.
    pub open spec fn evicted_up_to(&self, before: cache_s, j: int) -> bool {
        &&& forall|a: int| 0 <= a < j ==> #[trigger] self.resident(before.lru()[a]) == before.pinned(before.lru()[a])
        &&& forall|a: int| j <= a < before.lru().len() ==> #[trigger] self.resident(before.lru()[a])
    }

    /// The most recently used resident page.
    pub closed spec fn most_recent(&self) -> u64 {
        self.ents@.last().gpid
    }

    pub closed spec fn resident_count(&self) -> nat {
        self.ents@.len()
    }

    /// Whether page `g` is resident.
    pub closed spec fn resident(&self, g: u64) -> bool {
        exists|i: int| 0 <= i < self.ents@.len() && (#[trigger] self.ents@[i]).gpid == g
    }

    /// Whether page `g` is resident and held by a caller.
    pub closed spec fn pinned(&self, g: u64) -> bool {
        exists|i: int| 0 <= i < self.ents@.len() && (#[trigger] self.ents@[i]).gpid == g
            && self.ents@[i].busy
    }

    /// Whether every resident page is held by a caller.
    pub closed spec fn all_pinned(&self) -> bool {
        forall|i: int| 0 <= i < self.ents@.len() ==> (#[trigger] self.ents@[i]).busy
    }

    /// Whether no page is held by a caller.
    pub open spec fn no_pins(&self) -> bool {
        forall|g: u64| !#[trigger] self.pinned(g)
    }

    /// Bucket `g & mask` holds `g`, once, exactly when page `g` is resident.
    #[verifier::opaque]
    pub closed spec fn hash_wf(&self) -> bool {
        &&& self.hash@.len() == self.mask + 1
        &&& no_dups(self.hash@)
        &&& forall|g: u64| #[trigger] self.resident(g) <==> in_bucket(self.hash@, self.mask, g)
    }

    pub closed spec fn wf(&self) -> bool {
        &&& self.hash_wf()
        &&& self.mask < 0x20_0000
        &&& self.mask + 1 >= self.cap
        &&& 1 <= self.cap <= 0x10_0000
        &&& self.ents@.len() <= self.cap
        &&& forall|i: int, j: int| 0 <= i < j < self.ents@.len() ==>
            (#[trigger] self.ents@[i]).gpid != (#[trigger] self.ents@[j]).gpid
        &&& forall|i: int| 0 <= i < self.ents@.len() ==> {
            &&& self.pages@.contains_key((#[trigger] self.ents@[i]).gpid)
            &&& self.pages@[self.ents@[i].gpid] == self.ents@[i].buf@
            &&& !self.ents@[i].dirty ==> self.disk@.contains_key(self.ents@[i].gpid)
                && self.disk@[self.ents@[i].gpid]@ == self.ents@[i].buf@
        }
        &&& forall|g: u64| #[trigger] self.pages@.contains_key(g) ==> (self.disk@.contains_key(g)
            && self.disk@[g]@ == self.pages@[g]) || self.resident(g)
        &&& forall|g: u64| #[trigger] self.disk@.contains_key(g) ==> self.pages@.contains_key(g)
    }

    /// A cache of `cap` pages over an empty file.
    pub fn with_capacity(cap: u64) -> (r: cache_s)
        requires
            1 <= cap <= 0x10_0000,
        ensures
            r.wf(),
            r.capacity() == cap,
            r.resident_count() == 0,
            r.view() == Map::<u64, PageView>::empty(),
            r.no_pins(),
            cap <= r.bucket_count() < 2 * cap,
            pow2(r.bucket_count() as u64),
    {
        let mut n: u64 = 1;
        assert(pow2(1)) by (bit_vector);
        while n < cap
            invariant
                1 <= n < 2 * cap,
                cap <= 0x10_0000,
                pow2(n),
            decreases 2 * cap - n,
        {
            proof {
                lemma_double_pow2(n, (2 * n) as u64);
            }
            n = n * 2;
        }
        let mut hash: Vec<Vec<u64>> = Vec::new();
        while (hash.len() as u64) < n
            invariant
                hash@.len() <= n,
                forall|b: int| 0 <= b < hash@.len() ==> (#[trigger] hash@[b])@.len() == 0,
            decreases n - hash@.len(),
        {
            hash.push(Vec::new());
        }
        let r = cache_s { cap, ents: Vec::new(), hash, mask: n - 1, disk: HashMap::new(), pages: Ghost(Map::empty()) };
        proof {
            reveal(cache_s::hash_wf);
            assert forall|g: u64| #[trigger] r.resident(g) <==> in_bucket(r.hash@, r.mask, g) by {
                lemma_mask_bound(g, r.mask);
                assert(r.hash@[(g & r.mask) as int]@.len() == 0);
            }
        }
        assert forall|g: u64| !#[trigger] r.pinned(g) by {}
        r
    }

    /// A cache sized by the memory budget.
    pub fn new() -> (r: cache_s)
        ensures
            r.wf(),
            r.capacity() == MAX_MAPPED_PG,
            r.resident_count() == 0,
            r.view() == Map::<u64, PageView>::empty(),
            r.no_pins(),
            r.bucket_count() == MAX_MAPPED_PG,
    {
        let r = cache_s::with_capacity(MAX_MAPPED_PG);
        proof {
            lemma_pow2_in_range(r.bucket_count() as u64);
        }
        r
    }

    /// Number of hash buckets.
    pub fn bucket_num(&self) -> (r: usize)
        requires
            self.wf(),
        ensures
            r == self.bucket_count(),
    {
        proof {
            reveal(cache_s::hash_wf);
        }
        self.hash.len()
    }

    /// Pages the cache can hold.
    pub fn capacity_of(&self) -> (r: u64)
        ensures
            r == self.capacity(),
    {
        self.cap
    }

    /// Resident pages.
    pub fn mapped_num(&self) -> (r: usize)
        ensures
            r == self.resident_count(),
    {
        self.ents.len()
    }

    /// Position of page `g` among the resident pages.
    fn find(&self, g: u64) -> (r: Option<usize>)
        requires
            self.wf(),
        ensures
            match r {
                Some(i) => i < self.ents@.len() && self.ents@[i as int].gpid == g,
                None => !self.resident(g),
            },
    {
        proof {
            reveal(cache_s::hash_wf);
            lemma_mask_bound(g, self.mask);
        }
        let bk = &self.hash[(g & self.mask) as usize];
        let mut j: usize = 0;
        let mut hit = false;
        while j < bk.len() && !hit
            invariant
                j <= bk@.len(),
                hit ==> bk@.contains(g),
                !hit ==> forall|t: int| 0 <= t < j ==> bk@[t] != g,
            decreases bk@.len() - j + if hit { 0int } else { 1int },
        {
            if bk[j] == g {
                hit = true;
            } else {
                j = j + 1;
            }
        }
        if !hit {
            return None;
        }
        let mut i: usize = 0;
        while i < self.ents.len()
            invariant
                i <= self.ents@.len(),
                forall|j: int| 0 <= j < i ==> (#[trigger] self.ents@[j]).gpid != g,
            decreases self.ents@.len() - i,
        {
            if self.ents[i].gpid == g {
                return Some(i);
            }
            i = i + 1;
        }
        None
    }

    /// Whether page `g` is resident.
    pub fn is_resident(&self, g: u64) -> (r: bool)
        requires
            self.wf(),
        ensures
            r == self.resident(g),
    {
        self.find(g).is_some()
    }

    /// Whether page `g` is held by a caller.
    pub fn is_pinned(&self, g: u64) -> (r: bool)
        requires
            self.wf(),
        ensures
            r == self.pinned(g),
    {
        match self.find(g) {
            Some(i) => {
                let b = self.ents[i].busy;
                proof {
                    if self.pinned(g) {
                        let j = choose|j: int| 0 <= j < self.ents@.len() && (#[trigger] self.ents@[j]).gpid == g
                            && self.ents@[j].busy;
                        if j != i {
                            assert(self.ents@[j].gpid != self.ents@[i as int].gpid);
                        }
                    }
                }
                b
            },
            None => false,
        }
    }

    /// Reclaims up to `EVICT_NUM` pages that no caller holds, least recently
    /// used first, writing back those that are dirty. Returns how many.
    pub fn evict(&mut self) -> (n: u64)
        requires
            old(self).wf(),
        ensures
            final(self).wf(),
            final(self).view() == old(self).view(),
            final(self).capacity() == old(self).capacity(),
            n <= EVICT_NUM,
            final(self).resident_count() == old(self).resident_count() - n,
            n == 0 <==> old(self).all_pinned(),
            forall|g: u64| #[trigger] final(self).pinned(g) == old(self).pinned(g),
            forall|g: u64| #[trigger] final(self).resident(g) ==> old(self).resident(g),
            n == 0 ==> forall|g: u64| #[trigger] final(self).resident(g) == old(self).resident(g),
            n == 0 ==> *final(self) == *old(self),
            exists|j: int| 0 <= j <= old(self).lru().len() && (n < EVICT_NUM ==> j == old(self).lru().len())
                && #[trigger] final(self).evicted_up_to(*old(self), j),
    {
        let mut i: usize = 0;
        let mut n: u64 = 0;
        while i < self.ents.len() && n < EVICT_NUM
            invariant
                self.wf(),
                self.pages == old(self).pages,
                self.cap == old(self).cap,
                n <= EVICT_NUM,
                i <= self.ents@.len(),
                self.ents@.len() + n == old(self).ents@.len(),
                forall|j: int| 0 <= j < i ==> (#[trigger] self.ents@[j]).busy,
                n == 0 ==> self.ents@ == old(self).ents@,
                n == 0 ==> *self == *old(self),
                old(self).all_pinned() ==> n == 0,
                forall|g: u64| #[trigger] self.pinned(g) == old(self).pinned(g),
                forall|g: u64| #[trigger] self.resident(g) ==> old(self).resident(g),
                old(self).wf(),
                forall|b: int| i <= b < self.ents@.len() ==> #[trigger] self.ents@[b] == old(self).ents@[b + n],
                forall|a: int| 0 <= a < i + n ==> #[trigger] self.resident(old(self).ents@[a].gpid)
                    == old(self).ents@[a].busy,
            decreases self.ents@.len() - i,
        {
            if self.ents[i].busy {
                proof {
                    assert(self.ents@[i as int] == old(self).ents@[i + n]);
                    assert(self.resident(self.ents@[i as int].gpid));
                }
                i = i + 1;
            } else {
                let ghost before = *self;
                proof {
                    if n == 0 {
                        assert(!old(self).ents@[i as int].busy);
                    }
                }
                let e = self.ents.remove(i);
                proof {
                    reveal(cache_s::hash_wf);
                    assert(before.resident(e.gpid));
                }
                bucket_remove(&mut self.hash, self.mask, e.gpid);
                if e.dirty {
                    self.disk.insert(e.gpid, e.buf);
                }
                n = n + 1;
                proof {
                    let es = before.ents@;
                    assert(self.ents@ =~= es.remove(i as int));
                    assert forall|x: u64| #[trigger] self.resident(x) <==> in_bucket(self.hash@, self.mask, x) by {
                        if self.resident(x) {
                            let j = choose|j: int| 0 <= j < self.ents@.len() && (#[trigger] self.ents@[j]).gpid == x;
                            let j2 = if j < i { j } else { j + 1 };
                            assert(es[j2] == self.ents@[j]);
                            assert(before.resident(x));
                            assert(j2 != i);
                            assert(x != e.gpid);
                        }
                        if x != e.gpid && before.resident(x) {
                            let j = choose|j: int| 0 <= j < es.len() && (#[trigger] es[j]).gpid == x;
                            let j2 = if j < i { j } else { j - 1 };
                            assert(self.ents@[j2] == es[j]);
                        }
                    }
                    assert(self.ents@ =~= es.remove(i as int));
                    assert forall|a: int, b: int| 0 <= a < b < self.ents@.len() implies
                        (#[trigger] self.ents@[a]).gpid != (#[trigger] self.ents@[b]).gpid by {
                        let a2 = if a < i { a } else { a + 1 };
                        let b2 = if b < i { b } else { b + 1 };
                        assert(es[a2].gpid != es[b2].gpid);
                    }
                    assert forall|a: int| 0 <= a < self.ents@.len() implies {
                        &&& self.pages@.contains_key((#[trigger] self.ents@[a]).gpid)
                        &&& self.pages@[self.ents@[a].gpid] == self.ents@[a].buf@
                        &&& !self.ents@[a].dirty ==> self.disk@.contains_key(self.ents@[a].gpid)
                            && self.disk@[self.ents@[a].gpid]@ == self.ents@[a].buf@
                    } by {
                        let a2 = if a < i { a } else { a + 1 };
                        assert(self.ents@[a] == es[a2]);
                        assert(es[a2].gpid != es[i as int].gpid);
                    }
                    assert forall|g: u64| #[trigger] self.pages@.contains_key(g) implies (self.disk@.contains_key(g)
                        && self.disk@[g]@ == self.pages@[g]) || self.resident(g) by {
                        if g != e.gpid && !(before.disk@.contains_key(g) && before.disk@[g]@ == before.pages@[g]) {
                            let j = choose|j: int| 0 <= j < es.len() && (#[trigger] es[j]).gpid == g;
                            let j2 = if j < i { j } else { j - 1 };
                            assert(self.ents@[j2] == es[j]);
                        }
                    }
                    assert forall|g: u64| #[trigger] self.pinned(g) == old(self).pinned(g) by {
                        assert(before.pinned(g) == old(self).pinned(g));
                        if self.pinned(g) {
                            let j = choose|j: int| 0 <= j < self.ents@.len() && (#[trigger] self.ents@[j]).gpid == g
                                && self.ents@[j].busy;
                            let j2 = if j < i { j } else { j + 1 };
                            assert(es[j2] == self.ents@[j]);
                        }
                        if before.pinned(g) {
                            let j = choose|j: int| 0 <= j < es.len() && (#[trigger] es[j]).gpid == g && es[j].busy;
                            let j2 = if j < i { j } else { j - 1 };
                            assert(self.ents@[j2] == es[j]);
                        }
                    }
                    assert forall|g: u64| #[trigger] self.resident(g) implies old(self).resident(g) by {
                        let j = choose|j: int| 0 <= j < self.ents@.len() && (#[trigger] self.ents@[j]).gpid == g;
                        let j2 = if j < i { j } else { j + 1 };
                        assert(es[j2] == self.ents@[j]);
                        assert(before.resident(g));
                    }
                    assert forall|j: int| 0 <= j < i implies (#[trigger] self.ents@[j]).busy by {
                        assert(self.ents@[j] == es[j]);
                    }
                    assert(es[i as int] == old(self).ents@[i + (n - 1)]);
                    assert forall|b: int| i <= b < self.ents@.len() implies #[trigger] self.ents@[b]
                        == old(self).ents@[b + n] by {
                        assert(self.ents@[b] == es[b + 1]);
                    }
                    assert(!self.resident(e.gpid)) by {
                        if self.resident(e.gpid) {
                            let j = choose|j: int| 0 <= j < self.ents@.len() && (#[trigger] self.ents@[j]).gpid == e.gpid;
                            let j2 = if j < i { j } else { j + 1 };
                            assert(es[j2] == self.ents@[j]);
                            assert(es[j2].gpid != es[i as int].gpid);
                        }
                    }
                    assert forall|a: int| 0 <= a < i + n implies #[trigger] self.resident(old(self).ents@[a].gpid)
                        == old(self).ents@[a].busy by {
                        if a != i + (n - 1) {
                            let x = old(self).ents@[a].gpid;
                            assert(x != e.gpid) by {
                                let r = i + (n - 1);
                                if a < r {
                                    assert(old(self).ents@[a].gpid != old(self).ents@[r].gpid);
                                } else {
                                    assert(old(self).ents@[r].gpid != old(self).ents@[a].gpid);
                                }
                            }
                            assert(before.resident(x) == old(self).ents@[a].busy);
                            if before.resident(x) {
                                let j = choose|j: int| 0 <= j < es.len() && (#[trigger] es[j]).gpid == x;
                                let j2 = if j < i { j } else { j - 1 };
                                assert(self.ents@[j2] == es[j]);
                            }
                        }
                    }
                }
            }
        }
        proof {
            let j = i + n;
            let ol = old(self).lru();
            assert(ol.len() == old(self).ents@.len());
            assert forall|a: int| 0 <= a < ol.len() implies #[trigger] old(self).pinned(ol[a])
                == old(self).ents@[a].busy by {
                if old(self).pinned(ol[a]) {
                    let q = choose|q: int| 0 <= q < old(self).ents@.len() && (#[trigger] old(self).ents@[q]).gpid
                        == ol[a] && old(self).ents@[q].busy;
                    if q != a {
                        assert(old(self).ents@[q].gpid != old(self).ents@[a].gpid);
                    }
                }
            }
            assert forall|a: int| 0 <= a < j implies #[trigger] self.resident(ol[a]) == old(self).pinned(ol[a]) by {
                assert(ol[a] == old(self).ents@[a].gpid);
            }
            assert forall|a: int| j <= a < ol.len() implies #[trigger] self.resident(ol[a]) by {
                assert(self.ents@[a - n] == old(self).ents@[a]);
                assert(self.ents@[a - n].gpid == ol[a]);
            }
            assert(n < EVICT_NUM ==> j == ol.len());
            assert(self.evicted_up_to(*old(self), j));
        }
        proof {
            if n == 0 {
                assert(self.ents@ == old(self).ents@);
                assert forall|j: int| 0 <= j < old(self).ents@.len() implies (#[trigger] old(self).ents@[j]).busy by {
                    assert(self.ents@[j].busy);
                }
            }
        }
        n
    }

    /// Makes page `g` resident and marks it held, as the most recently used
    /// page. When the cache is full, pages are evicted first; when every
    /// resident page is held, nothing can be evicted and the fetch fails.
    pub fn fetch(&mut self, g: u64) -> (r: Result<(), KvError>)
        requires
            old(self).wf(),
        ensures
            final(self).wf(),
            final(self).capacity() == old(self).capacity(),
            final(self).resident_count() <= final(self).capacity(),
            r is Err <==> (!old(self).resident(g) && old(self).resident_count()
                == old(self).capacity() && old(self).all_pinned()),
            r is Err ==> r == Err::<(), KvError>(KvError::CacheExhausted),
            r is Err ==> final(self).view() == old(self).view() && final(self).resident_count()
                == old(self).resident_count(),
            r is Err ==> forall|x: u64| #[trigger] final(self).pinned(x) == old(self).pinned(x),
            r is Err ==> forall|x: u64| #[trigger] final(self).resident(x) == old(self).resident(x),
            old(self).resident(g) ==> forall|x: u64| #[trigger] final(self).resident(x) == old(self).resident(x),
            r is Ok ==> final(self).most_recent() == g && final(self).resident_count() >= 1,
            r is Err ==> *final(self) == *old(self),
            old(self).resident(g) ==> final(self).resident_count() == old(self).resident_count()
                && exists|i: int| 0 <= i < old(self).lru().len() && old(self).lru()[i] == g
                && final(self).lru() == old(self).lru().remove(i).push(g),
            r is Ok ==> {
                &&& final(self).view() == if old(self).view().contains_key(g) {
                    old(self).view()
                } else {
                    old(self).view().insert(g, zero_view())
                }
                &&& final(self).resident(g)
                &&& forall|x: u64| #[trigger] final(self).pinned(x) == (x == g || old(self).pinned(x))
            },
            forall|x: u64| #[trigger] final(self).page(x) == old(self).page(x),
    {
        match self.find(g) {
            Some(i) => {
                let ghost before = *self;
                let mut e = self.ents.remove(i);
                e.busy = true;
                self.ents.push(e);
                proof {
                    reveal(cache_s::hash_wf);
                    let es = before.ents@;
                    let n = es.len();
                    assert(self.ents@ =~= es.remove(i as int).push(e));
                    assert(self.lru() =~= before.lru().remove(i as int).push(g));
                    assert(before.lru()[i as int] == g);
                    assert forall|a: int| 0 <= a < n implies #[trigger] self.ents@[a].gpid
                        == es[if a < n - 1 { if a < i { a } else { a + 1 } } else { i as int }].gpid by {}
                    assert forall|a: int, b: int| 0 <= a < b < n implies
                        (#[trigger] self.ents@[a]).gpid != (#[trigger] self.ents@[b]).gpid by {
                        let a2 = if a < n - 1 { if a < i { a } else { a + 1 } } else { i as int };
                        let b2 = if b < n - 1 { if b < i { b } else { b + 1 } } else { i as int };
                        assert(a2 != b2);
                        assert(es[a2].gpid != es[b2].gpid || es[b2].gpid != es[a2].gpid);
                    }
                    assert forall|a: int| 0 <= a < n implies {
                        &&& self.pages@.contains_key((#[trigger] self.ents@[a]).gpid)
                        &&& self.pages@[self.ents@[a].gpid] == self.ents@[a].buf@
                        &&& !self.ents@[a].dirty ==> self.disk@.contains_key(self.ents@[a].gpid)
                            && self.disk@[self.ents@[a].gpid]@ == self.ents@[a].buf@
                    } by {
                        let a2 = if a < n - 1 { if a < i { a } else { a + 1 } } else { i as int };
                        assert(self.ents@[a].gpid == es[a2].gpid);
                    }
                    assert(self.ents@[n - 1].gpid == g);
                    assert forall|x: u64| #[trigger] self.resident(x) == before.resident(x) by {
                        if before.resident(x) {
                            let j = choose|j: int| 0 <= j < n && (#[trigger] es[j]).gpid == x;
                            let j2 = if j == i { n - 1 } else if j < i { j } else { j - 1 };
                            assert(self.ents@[j2].gpid == x);
                        }
                        if self.resident(x) {
                            let j = choose|j: int| 0 <= j < n && (#[trigger] self.ents@[j]).gpid == x;
                            let j2 = if j < n - 1 { if j < i { j } else { j + 1 } } else { i as int };
                            assert(es[j2].gpid == x);
                        }
                    }
                    assert forall|x: u64| #[trigger] self.pages@.contains_key(x) implies (self.disk@.contains_key(x)
                        && self.disk@[x]@ == self.pages@[x]) || self.resident(x) by {
                        assert(self.resident(x) == before.resident(x));
                    }
                    assert forall|x: u64| #[trigger] self.pinned(x) == (x == g || before.pinned(x)) by {
                        if x == g {
                            assert(self.ents@[n - 1].busy);
                        }
                        if before.pinned(x) && x != g {
                            let j = choose|j: int| 0 <= j < n && (#[trigger] es[j]).gpid == x && es[j].busy;
                            let j2 = if j < i { j } else { j - 1 };
                            assert(self.ents@[j2] == es[j]);
                        }
                        if self.pinned(x) && x != g {
                            let j = choose|j: int| 0 <= j < n && (#[trigger] self.ents@[j]).gpid == x
                                && self.ents@[j].busy;
                            if j == n - 1 {
                                assert(false);
                            }
                            let j2 = if j < i { j } else { j + 1 };
                            assert(es[j2] == self.ents@[j]);
                        }
                    }
                }
                Ok(())
            },
            None => {
                if self.ents.len() as u64 >= self.cap {
                    let n = self.evict();
                    if n == 0 {
                        return Err(KvError::CacheExhausted);
                    }
                }
                let ghost before = *self;
                let buf = match self.disk.get(&g) {
                    Some(p) => p.copy(),
                    None => {
                        let z = page_s::zero();
                        self.disk.insert(g, z);
                        self.pages = Ghost(self.pages@.insert(g, zero_view()));
                        page_s::zero()
                    },
                };
                let ghost mid = *self;
                let e = pg_s { dirty: false, busy: true, gpid: g, buf };
                proof {
                    reveal(cache_s::hash_wf);
                    assert(!before.resident(g));
                    assert(mid.hash == before.hash);
                }
                bucket_insert(&mut self.hash, self.mask, g);
                self.ents.push(e);
                proof {
                    let es = mid.ents@;
                    let n = es.len();
                    assert(self.ents@ =~= es.push(e));
                    assert forall|x: u64| #[trigger] self.resident(x) <==> in_bucket(self.hash@, self.mask, x) by {
                        if self.resident(x) && x != g {
                            let j = choose|j: int| 0 <= j < n + 1 && (#[trigger] self.ents@[j]).gpid == x;
                            assert(j < n);
                            assert(es[j].gpid == x);
                            assert(mid.ents@ == before.ents@);
                            assert(before.resident(x));
                        }
                        if x == g {
                            assert(self.ents@[n as int].gpid == g);
                        }
                        if in_bucket(before.hash@, before.mask, x) {
                            assert(before.resident(x));
                            let j = choose|j: int| 0 <= j < n && (#[trigger] before.ents@[j]).gpid == x;
                            assert(self.ents@[j] == before.ents@[j]);
                        }
                    }
                    assert(self.pages@.contains_key(g) && self.pages@[g] == buf@);
                    assert(self.disk@.contains_key(g) && self.disk@[g]@ == buf@);
                    assert forall|a: int, b: int| 0 <= a < b < n + 1 implies
                        (#[trigger] self.ents@[a]).gpid != (#[trigger] self.ents@[b]).gpid by {
                        if b == n {
                            assert(!before.resident(g));
                            assert(es[a] == before.ents@[a]);
                        }
                    }
                    assert forall|a: int| 0 <= a < n + 1 implies {
                        &&& self.pages@.contains_key((#[trigger] self.ents@[a]).gpid)
                        &&& self.pages@[self.ents@[a].gpid] == self.ents@[a].buf@
                        &&& !self.ents@[a].dirty ==> self.disk@.contains_key(self.ents@[a].gpid)
                            && self.disk@[self.ents@[a].gpid]@ == self.ents@[a].buf@
                    } by {
                        if a < n {
                            assert(self.ents@[a] == before.ents@[a]);
                            assert(!before.resident(g));
                            assert(before.ents@[a].gpid != g) by {
                                if before.ents@[a].gpid == g {
                                    assert(before.resident(g));
                                }
                            }
                        }
                    }
                    assert forall|x: u64| #[trigger] self.pages@.contains_key(x) implies (self.disk@.contains_key(x)
                        && self.disk@[x]@ == self.pages@[x]) || self.resident(x) by {
                        if x != g && before.resident(x) {
                            let j = choose|j: int| 0 <= j < n && (#[trigger] before.ents@[j]).gpid == x;
                            assert(self.ents@[j] == before.ents@[j]);
                        }
                    }
                    assert(self.resident(g)) by {
                        assert(self.ents@[n as int].gpid == g);
                    }
                    assert forall|x: u64| #[trigger] self.pinned(x) == (x == g || before.pinned(x)) by {
                        if x == g {
                            assert(self.ents@[n as int].busy);
                        }
                        if before.pinned(x) {
                            let j = choose|j: int| 0 <= j < n && (#[trigger] before.ents@[j]).gpid == x
                                && before.ents@[j].busy;
                            assert(self.ents@[j] == before.ents@[j]);
                        }
                        if self.pinned(x) && x != g {
                            let j = choose|j: int| 0 <= j < n + 1 && (#[trigger] self.ents@[j]).gpid == x
                                && self.ents@[j].busy;
                            assert(j < n);
                            assert(before.ents@[j] == self.ents@[j]);
                        }
                    }
                }
                Ok(())
            },
        }
    }

    /// Lets go of page `g`; `dirty` records that the caller changed it. A page
    /// that is not resident is refused as corruption.
    pub fn release(&mut self, g: u64, dirty: bool) -> (r: Result<(), KvError>)
        requires
            old(self).wf(),
        ensures
            final(self).wf(),
            final(self).capacity() == old(self).capacity(),
            final(self).resident_count() == old(self).resident_count(),
            final(self).view() == old(self).view(),
            r is Ok <==> old(self).resident(g),
            r is Err ==> r == Err::<(), KvError>(KvError::Corrupt),
            forall|x: u64| #[trigger] final(self).resident(x) == old(self).resident(x),
            forall|x: u64| #[trigger] final(self).pinned(x) == (x != g && old(self).pinned(x)),
            final(self).most_recent() == old(self).most_recent(),
            final(self).lru() == old(self).lru(),
    {
        match self.find(g) {
            None => {
                assert forall|x: u64| #[trigger] self.pinned(x) == (x != g && old(self).pinned(x)) by {
                    if x == g && self.pinned(x) {
                        let j = choose|j: int| 0 <= j < self.ents@.len() && (#[trigger] self.ents@[j]).gpid == x
                            && self.ents@[j].busy;
                        assert(self.resident(g));
                    }
                }
                Err(KvError::Corrupt)
            },
            Some(i) => {
                let ghost before = *self;
                let e = self.ents.remove(i);
                let e2 = pg_s { dirty: e.dirty || dirty, busy: false, gpid: e.gpid, buf: e.buf };
                self.ents.insert(i, e2);
                proof {
                    reveal(cache_s::hash_wf);
                    let es = before.ents@;
                    assert(self.ents@ =~= es.update(i as int, e2));
                    assert(self.lru() =~= before.lru());
                    assert forall|x: u64| #[trigger] self.resident(x) == before.resident(x) by {
                        if before.resident(x) {
                            let j = choose|j: int| 0 <= j < es.len() && (#[trigger] es[j]).gpid == x;
                            assert(self.ents@[j].gpid == x);
                        }
                        if self.resident(x) {
                            let j = choose|j: int| 0 <= j < es.len() && (#[trigger] self.ents@[j]).gpid == x;
                            assert(es[j].gpid == x);
                        }
                    }
                    assert forall|x: u64| #[trigger] self.pinned(x) == (x != g && before.pinned(x)) by {
                        if before.pinned(x) && x != g {
                            let j = choose|j: int| 0 <= j < es.len() && (#[trigger] es[j]).gpid == x && es[j].busy;
                            assert(self.ents@[j] == es[j]);
                        }
                        if self.pinned(x) {
                            let j = choose|j: int| 0 <= j < es.len() && (#[trigger] self.ents@[j]).gpid == x
                                && self.ents@[j].busy;
                            assert(j != i);
                            assert(es[j] == self.ents@[j]);
                        }
                    }
                    assert forall|x: u64| #[trigger] self.pages@.contains_key(x) implies (self.disk@.contains_key(x)
                        && self.disk@[x]@ == self.pages@[x]) || self.resident(x) by {
                        assert(self.resident(x) == before.resident(x));
                    }
                }
                Ok(())
            },
        }
    }

    /// Page `g`, when it is resident.
    pub fn get_page_buf(&self, g: u64) -> (r: Option<&page_s>)
        requires
            self.wf(),
        ensures
            r is Some <==> self.resident(g),
            r matches Some(p) ==> p@ == self.page(g),
    {
        match self.find(g) {
            Some(i) => Some(&self.ents[i].buf),
            None => None,
        }
    }

    /// Replaces the content of page `g`, which a caller holds, and marks it dirty.
    pub fn write(&mut self, g: u64, p: page_s) -> (r: Result<(), KvError>)
        requires
            old(self).wf(),
        ensures
            final(self).wf(),
            final(self).capacity() == old(self).capacity(),
            final(self).resident_count() == old(self).resident_count(),
            r is Ok <==> old(self).pinned(g),
            r is Err ==> r == Err::<(), KvError>(KvError::Corrupt) && final(self).view() == old(self).view(),
            r is Ok ==> final(self).view() == old(self).view().insert(g, p@),
            forall|x: u64| #[trigger] final(self).resident(x) == old(self).resident(x),
            forall|x: u64| #[trigger] final(self).pinned(x) == old(self).pinned(x),
            final(self).most_recent() == old(self).most_recent(),
    {
        match self.find(g) {
            None => {
                assert(!self.pinned(g)) by {
                    if self.pinned(g) {
                        let j = choose|j: int| 0 <= j < self.ents@.len() && (#[trigger] self.ents@[j]).gpid == g
                            && self.ents@[j].busy;
                        assert(self.resident(g));
                    }
                }
                Err(KvError::Corrupt)
            },
            Some(i) => {
                if !self.ents[i].busy {
                    assert(!self.pinned(g)) by {
                        if self.pinned(g) {
                            let j = choose|j: int| 0 <= j < self.ents@.len() && (#[trigger] self.ents@[j]).gpid == g
                                && self.ents@[j].busy;
                            assert(j == i);
                        }
                    }
                    return Err(KvError::Corrupt);
                }
                let ghost before = *self;
                let ghost pv = p@;
                let e = self.ents.remove(i);
                let e2 = pg_s { dirty: true, busy: e.busy, gpid: e.gpid, buf: p };
                self.ents.insert(i, e2);
                self.pages = Ghost(self.pages@.insert(g, pv));
                proof {
                    reveal(cache_s::hash_wf);
                    let es = before.ents@;
                    assert(self.ents@ =~= es.update(i as int, e2));
                    assert(before.pinned(g));
                    assert forall|x: u64| #[trigger] self.resident(x) == before.resident(x) by {
                        if before.resident(x) {
                            let j = choose|j: int| 0 <= j < es.len() && (#[trigger] es[j]).gpid == x;
                            assert(self.ents@[j].gpid == x);
                        }
                        if self.resident(x) {
                            let j = choose|j: int| 0 <= j < es.len() && (#[trigger] self.ents@[j]).gpid == x;
                            assert(es[j].gpid == x);
                        }
                    }
                    assert forall|x: u64| #[trigger] self.pinned(x) == before.pinned(x) by {
                        if before.pinned(x) {
                            let j = choose|j: int| 0 <= j < es.len() && (#[trigger] es[j]).gpid == x && es[j].busy;
                            assert(self.ents@[j].gpid == x && self.ents@[j].busy);
                        }
                        if self.pinned(x) {
                            let j = choose|j: int| 0 <= j < es.len() && (#[trigger] self.ents@[j]).gpid == x
                                && self.ents@[j].busy;
                            assert(es[j].gpid == x && es[j].busy);
                        }
                    }
                    assert forall|a: int| 0 <= a < es.len() implies {
                        &&& self.pages@.contains_key((#[trigger] self.ents@[a]).gpid)
                        &&& self.pages@[self.ents@[a].gpid] == self.ents@[a].buf@
                        &&& !self.ents@[a].dirty ==> self.disk@.contains_key(self.ents@[a].gpid)
                            && self.disk@[self.ents@[a].gpid]@ == self.ents@[a].buf@
                    } by {
                        if a != i {
                            assert(es[a].gpid != es[i as int].gpid);
                        }
                    }
                    assert forall|x: u64| #[trigger] self.pages@.contains_key(x) implies (self.disk@.contains_key(x)
                        && self.disk@[x]@ == self.pages@[x]) || self.resident(x) by {
                        assert(self.resident(x) == before.resident(x));
                        if x == g {
                            assert(self.ents@[i as int].gpid == g);
                        }
                    }
                }
                Ok(())
            },
        }
    }

    proof fn lemma_some_pinned(&self)
        requires
            self.wf(),
            self.resident_count() == self.capacity(),
            self.all_pinned(),
        ensures
            !self.no_pins(),
    {
        assert(self.pinned(self.ents@[0].gpid));
    }

    /// A copy of page `g`, brought in if needed and let go again.
    pub fn get_page(&mut self, g: u64) -> (r: Result<page_s, KvError>)
        requires
            old(self).wf(),
        ensures
            final(self).wf(),
            final(self).capacity() == old(self).capacity(),
            final(self).resident_count() <= final(self).capacity(),
            r is Err <==> (!old(self).resident(g) && old(self).resident_count() == old(self).capacity()
                && old(self).all_pinned()),
            old(self).no_pins() ==> r is Ok,
            r is Err ==> r == Err::<page_s, KvError>(KvError::CacheExhausted),
            r is Err ==> final(self).resident_count() == old(self).resident_count()
                && forall|x: u64| #[trigger] final(self).resident(x) == old(self).resident(x),
            r matches Ok(p) ==> p@ == old(self).page(g),
            r is Ok ==> final(self).resident(g) && final(self).most_recent() == g,
            old(self).resident(g) ==> forall|x: u64| #[trigger] final(self).resident(x) == old(self).resident(x),
            r is Err ==> *final(self) == *old(self),
            old(self).resident(g) ==> final(self).resident_count() == old(self).resident_count()
                && exists|i: int| 0 <= i < old(self).lru().len() && old(self).lru()[i] == g
                && final(self).lru() == old(self).lru().remove(i).push(g),
            forall|x: u64| #[trigger] final(self).page(x) == old(self).page(x),
            forall|x: u64| #[trigger] final(self).pinned(x) == old(self).pinned(x),
    {
        proof {
            if old(self).no_pins() && old(self).resident_count() == old(self).capacity() && old(self).all_pinned() {
                old(self).lemma_some_pinned();
            }
        }
        let was = self.is_pinned(g);
        let f = self.fetch(g);
        if f.is_err() {
            return Err(KvError::CacheExhausted);
        }
        let p = match self.get_page_buf(g) {
            Some(b) => b.copy(),
            None => page_s::zero(),
        };
        if !was {
            let _ = self.release(g, false);
        }
        Ok(p)
    }

    /// Writes `p` as the content of page `g`, bringing the page in if needed.
    pub fn put_page(&mut self, g: u64, p: page_s) -> (r: Result<(), KvError>)
        requires
            old(self).wf(),
        ensures
            final(self).wf(),
            final(self).capacity() == old(self).capacity(),
            r is Err <==> (!old(self).resident(g) && old(self).resident_count() == old(self).capacity()
                && old(self).all_pinned()),
            old(self).no_pins() ==> r is Ok,
            r is Err ==> r == Err::<(), KvError>(KvError::CacheExhausted),
            r is Ok ==> final(self).page(g) == p@,
            r is Ok ==> final(self).resident(g) && final(self).most_recent() == g,
            forall|x: u64| x != g ==> #[trigger] final(self).page(x) == old(self).page(x),
            r is Err ==> forall|x: u64| #[trigger] final(self).page(x) == old(self).page(x),
            forall|x: u64| #[trigger] final(self).pinned(x) == old(self).pinned(x),
    {
        proof {
            if old(self).no_pins() && old(self).resident_count() == old(self).capacity() && old(self).all_pinned() {
                old(self).lemma_some_pinned();
            }
        }
        let was = self.is_pinned(g);
        let f = self.fetch(g);
        if f.is_err() {
            return Err(KvError::CacheExhausted);
        }
        let _ = self.write(g, p);
        if !was {
            let _ = self.release(g, true);
        }
        Ok(())
    }
}

/// In every state of a cache, the resident pages are at most its capacity;
/// each resident page has one place in the least-recently-used order and
/// sits in its hash bucket, and a page that is not resident is in neither.
pub proof fn law_cache_bound(c: &cache_s)
    requires
        c.wf(),
    ensures
        c.resident_count() <= c.capacity(),
        c.lru().len() == c.resident_count(),
        c.lru().no_duplicates(),
        forall|g: u64| #[trigger] c.resident(g) <==> c.lru().contains(g),
        forall|g: u64| #[trigger] c.resident(g) <==> c.in_hash(g),
        c.bucket_count() >= c.capacity(),
{
    reveal(cache_s::hash_wf);
    let l = c.lru();
    assert forall|a: int, b: int| 0 <= a < l.len() && 0 <= b < l.len() && a != b implies l[a] != l[b] by {
        if a < b {
            assert(c.ents@[a].gpid != c.ents@[b].gpid);
        } else {
            assert(c.ents@[b].gpid != c.ents@[a].gpid);
        }
    }
    assert forall|g: u64| #[trigger] c.resident(g) <==> l.contains(g) by {
        if c.resident(g) {
            let i = choose|i: int| 0 <= i < c.ents@.len() && (#[trigger] c.ents@[i]).gpid == g;
            assert(l[i] == g);
        }
        if l.contains(g) {
            let i = choose|i: int| 0 <= i < l.len() && l[i] == g;
            assert(c.ents@[i].gpid == g);
        }
    }
}

/// A bucket index taken by a mask is at most the mask.
proof fn lemma_mask_bound(g: u64, mask: u64)
    ensures
        g & mask <= mask,
{
    assert(g & mask <= mask) by (bit_vector);
}

/// Whether page id `g` is in its bucket, `g & mask`.
pub open spec fn in_bucket(hash: Seq<Vec<u64>>, mask: u64, g: u64) -> bool {
    hash[(g & mask) as int]@.contains(g)
}

/// No bucket holds an id twice.
pub open spec fn no_dups(hash: Seq<Vec<u64>>) -> bool {
    forall|b: int, i: int, j: int| 0 <= b < hash.len() && 0 <= i < j < hash[b]@.len()
        ==> #[trigger] hash[b]@[i] != #[trigger] hash[b]@[j]
}

/// Takes page id `g` out of its bucket.
fn bucket_remove(hash: &mut Vec<Vec<u64>>, mask: u64, g: u64)
    requires
        old(hash)@.len() == mask + 1,
        no_dups(old(hash)@),
        in_bucket(old(hash)@, mask, g),
    ensures
        final(hash)@.len() == old(hash)@.len(),
        no_dups(final(hash)@),
        forall|x: u64| #[trigger] in_bucket(final(hash)@, mask, x) == (x != g && in_bucket(old(hash)@, mask, x)),
{
    proof {
        lemma_mask_bound(g, mask);
    }
    let b = (g & mask) as usize;
    let mut bk = hash[b].clone();
    assert(bk@ =~= old(hash)@[b as int]@);
    let mut j: usize = 0;
    while j < bk.len() && bk[j] != g
        invariant
            j <= bk@.len(),
            bk@ == old(hash)@[b as int]@,
            forall|t: int| 0 <= t < j ==> bk@[t] != g,
        decreases bk@.len() - j,
    {
        j = j + 1;
    }
    let ghost ob = bk@;
    if j < bk.len() {
        bk.remove(j);
    }
    let ghost nb = bk@;
    hash.set(b, bk);
    proof {
        let h0 = old(hash)@;
        let h1 = hash@;
        assert(b as int == (g & mask) as int);
        assert(ob.contains(g));
        assert(j < ob.len()) by {
            if j >= ob.len() {
                let t = choose|t: int| 0 <= t < ob.len() && ob[t] == g;
                assert(ob[t] != g);
            }
        }
        assert(nb =~= ob.remove(j as int));
        assert forall|bb: int, i: int, k: int| 0 <= bb < h1.len() && 0 <= i < k < h1[bb]@.len()
            implies #[trigger] h1[bb]@[i] != #[trigger] h1[bb]@[k] by {
            if bb == b {
                let i2 = if i < j { i } else { i + 1 };
                let k2 = if k < j { k } else { k + 1 };
                assert(h0[bb]@[i2] != h0[bb]@[k2]);
            } else {
                assert(h1[bb] == h0[bb]);
            }
        }
        assert forall|x: u64| #[trigger] in_bucket(h1, mask, x) == (x != g && in_bucket(h0, mask, x)) by {
            lemma_mask_bound(x, mask);
            let bx = (x & mask) as int;
            if bx == b {
                if nb.contains(x) {
                    let t = choose|t: int| 0 <= t < nb.len() && nb[t] == x;
                    let t2 = if t < j { t } else { t + 1 };
                    assert(ob[t2] == x);
                    assert(t2 != j);
                    assert(ob[j as int] == g);
                }
                if x != g && ob.contains(x) {
                    let t = choose|t: int| 0 <= t < ob.len() && ob[t] == x;
                    assert(t != j);
                    let t2 = if t < j { t } else { t - 1 };
                    assert(nb[t2] == x);
                }
            } else {
                assert(h1[bx] == h0[bx]);
            }
        }
    }
}

/// Puts page id `g`, which is in no bucket, into its bucket.
fn bucket_insert(hash: &mut Vec<Vec<u64>>, mask: u64, g: u64)
    requires
        old(hash)@.len() == mask + 1,
        no_dups(old(hash)@),
        !in_bucket(old(hash)@, mask, g),
    ensures
        final(hash)@.len() == old(hash)@.len(),
        no_dups(final(hash)@),
        forall|x: u64| #[trigger] in_bucket(final(hash)@, mask, x) == (x == g || in_bucket(old(hash)@, mask, x)),
{
    proof {
        lemma_mask_bound(g, mask);
    }
    let b = (g & mask) as usize;
    let mut bk = hash[b].clone();
    assert(bk@ =~= old(hash)@[b as int]@);
    let ghost ob = bk@;
    bk.push(g);
    let ghost nb = bk@;
    hash.set(b, bk);
    proof {
        let h0 = old(hash)@;
        let h1 = hash@;
        assert(b as int == (g & mask) as int);
        assert forall|bb: int, i: int, k: int| 0 <= bb < h1.len() && 0 <= i < k < h1[bb]@.len()
            implies #[trigger] h1[bb]@[i] != #[trigger] h1[bb]@[k] by {
            if bb == b {
                if k == ob.len() {
                    assert(nb[i] == ob[i]);
                    assert(ob.contains(ob[i]));
                } else {
                    assert(h0[bb]@[i] != h0[bb]@[k]);
                }
            } else {
                assert(h1[bb] == h0[bb]);
            }
        }
        assert forall|x: u64| #[trigger] in_bucket(h1, mask, x) == (x == g || in_bucket(h0, mask, x)) by {
            lemma_mask_bound(x, mask);
            let bx = (x & mask) as int;
            if bx == b {
                if nb.contains(x) && x != g {
                    let t = choose|t: int| 0 <= t < nb.len() && nb[t] == x;
                    assert(t < ob.len());
                    assert(ob[t] == x);
                }
                if ob.contains(x) {
                    let t = choose|t: int| 0 <= t < ob.len() && ob[t] == x;
                    assert(nb[t] == x);
                }
                if x == g {
                    assert(nb[ob.len() as int] == g);
                }
            } else {
                assert(h1[bx] == h0[bx]);
            }
        }
    }
}

/// Whether `n` is a power of two.
pub open spec fn pow2(n: u64) -> bool {
    n >= 1 && n & ((n - 1) as u64) == 0
}

/// Doubling a power of two below 2^21 gives a power of two.
proof fn lemma_double_pow2(n: u64, m: u64)
    requires
        n < 0x20_0000,
        m == 2 * n,
        pow2(n),
    ensures
        pow2(m),
{
    assert(m >= 1 && m & ((m - 1) as u64) == 0) by (bit_vector)
        requires n < 0x20_0000, m == 2 * n, n >= 1 && n & ((n - 1) as u64) == 0;
}

/// The one power of two from 256 to 511 is 256.
proof fn lemma_pow2_in_range(n: u64)
    requires
        256 <= n < 512,
        pow2(n),
    ensures
        n == 256,
{
    assert(n == 256) by (bit_vector)
        requires 256 <= n < 512, n >= 1 && n & ((n - 1) as u64) == 0;
}

} // verus!
