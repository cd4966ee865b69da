use vstd::prelude::*;
use vstd::set_lib::{lemma_int_range, lemma_len_subset, lemma_subset_equality, set_int_range};
use crate::bitmap::page_bitmap_s;
use crate::error::KvError;
use crate::layout::{
    get_gpid, valid_gpid, CKID_NIL, PAGE_BITMAP_WLEN, MAX_CHUNK_NUM, PAGE_BITMAP_PAGES, PAGE_NUM_PER_CK,
};

verus! {

/// Chunk id
pub type ckid_t = u64;

/// Local page id: the index of a page within its chunk.
pub type lpid_t = u64;

/// Used-page counters, one per chunk. Chunks past the end of `n` have never
/// been opened and count zero pages.
pub struct busy_page_num_s {
    pub n: Vec<u64>,
}

impl busy_page_num_s {
    /// Pages in use in chunk `ck`.
    pub open spec fn count(&self, ck: int) -> int {
        if 0 <= ck < self.n@.len() {
            self.n@[ck] as int
        } else {
            0
        }
    }

    /// Pages in use in chunk `ck`.
    pub fn get(&self, ck: u64) -> (r: u64)
        ensures
            r == self.count(ck as int),
    {
        if ck < self.n.len() as u64 {
            self.n[ck as usize]
        } else {
            0
        }
    }
}

/// The chunk allocator. At most one chunk is open, with its bitmap resident in
/// `pb`; the bitmaps of the other chunks sit in `stored`, the file's bitmap area,
/// where chunks past its end have every page free.
pub struct allocator_s {
    pub curr_ck: ckid_t,
    pub bpn: busy_page_num_s,
    pub pb: Option<page_bitmap_s>,
    pub stored: Vec<page_bitmap_s>,
    /// Every page of the open chunk from the bitmap pages up to `hint` is in use.
    pub hint: u64,
}

/// Chunk of a global page id.
pub open spec fn chunk_of(g: int) -> int {
    g / PAGE_NUM_PER_CK as int
}

/// Local page id of a global page id.
pub open spec fn local_of(g: int) -> int {
    g % PAGE_NUM_PER_CK as int
}

impl allocator_s {
    /// Whether local page `l` of chunk `ck` is in use.
    pub open spec fn bit(&self, ck: int, l: int) -> bool {
        if ck == self.curr_ck && self.pb is Some {
            self.pb->0.is_set(l)
        } else if 0 <= ck < self.stored@.len() {
            self.stored@[ck].is_set(l)
        } else {
            false
        }
    }

    /// Whether the page with global id `g` is in use.
    #[verifier::opaque]
    pub open spec fn allocated(&self, g: int) -> bool {
        self.bit(chunk_of(g), local_of(g))
    }

    pub open spec fn count(&self, ck: int) -> int {
        self.bpn.count(ck)
    }

    /// Whether a chunk is open.
    pub open spec fn is_open(&self) -> bool {
        self.curr_ck != CKID_NIL
    }

    /// The pages in use are those that the bitmap area `stored` marks, and,
    /// when the open chunk had never been opened, the pages of its bitmap.
    pub open spec fn restored_from(&self, bpn: busy_page_num_s, stored: Seq<page_bitmap_s>) -> bool {
        forall|c: int, l: int| 0 <= l < PAGE_NUM_PER_CK ==> #[trigger] self.bit(c, l) == (
            (0 <= c < stored.len() && stored[c].is_set(l)) || (c == self.curr_ck
            && bpn.count(c) == 0 && l < PAGE_BITMAP_PAGES))
    }

    /// Whether every chunk is full.
    pub open spec fn all_full(&self) -> bool {
        forall|c: int| 0 <= c < MAX_CHUNK_NUM ==> #[trigger] self.count(c) >= PAGE_NUM_PER_CK
    }

    /// The pages of chunk `ck` in use.
    pub open spec fn used(&self, ck: int) -> Set<int> {
        Set::new(|l: int| 0 <= l < PAGE_NUM_PER_CK && self.bit(ck, l))
    }

    /// Each chunk's counter is the number of its pages in use; a chunk with
    /// pages in use has its bitmap pages in use; the open chunk has pages in use.
    #[verifier::opaque]
    pub open spec fn counts_wf(&self) -> bool {
        &&& forall|c: int| 0 <= c < MAX_CHUNK_NUM ==> #[trigger] self.count(c) == self.used(c).len()
        &&& forall|c: int, l: int| 0 <= c < MAX_CHUNK_NUM && 0 <= l < PAGE_BITMAP_PAGES && self.count(c) > 0
            ==> #[trigger] self.bit(c, l)
        &&& self.is_open() ==> self.count(self.curr_ck as int) > 0
    }

    pub open spec fn wf(&self) -> bool {
        &&& self.counts_wf()
        &&& self.bpn.n@.len() <= MAX_CHUNK_NUM
        &&& self.stored@.len() <= MAX_CHUNK_NUM
        &&& forall|c: int| 0 <= c < self.stored@.len() ==> (#[trigger] self.stored@[c]).wf()
        &&& (self.curr_ck == CKID_NIL <==> self.pb is None)
        &&& self.is_open() ==> {
            &&& self.curr_ck < MAX_CHUNK_NUM
            &&& self.curr_ck < self.stored@.len()
            &&& self.curr_ck < self.bpn.n@.len()
            &&& self.pb->0.wf()
            &&& PAGE_BITMAP_PAGES <= self.hint <= PAGE_NUM_PER_CK
            &&& forall|l: int| PAGE_BITMAP_PAGES <= l < self.hint ==> #[trigger] self.pb->0.is_set(l)
        }
    }

    /// An allocator over a file whose every chunk is free, with no chunk open.
    pub fn empty() -> (r: allocator_s)
        ensures
            r.wf(),
            !r.is_open(),
            forall|c: int| #[trigger] r.count(c) == 0,
            forall|c: int, l: int| !#[trigger] r.bit(c, l),
    {
        let r = allocator_s {
            curr_ck: CKID_NIL,
            bpn: busy_page_num_s { n: Vec::new() },
            pb: None,
            stored: Vec::new(),
            hint: PAGE_BITMAP_PAGES,
        };
        proof {
            reveal(allocator_s::counts_wf);
            assert forall|c: int| 0 <= c < MAX_CHUNK_NUM implies #[trigger] r.count(c) == r.used(c).len() by {
                assert(r.used(c) =~= Set::empty());
            }
        }
        r
    }

    /// Finds a chunk with a free page: the first one, going round from `ck`,
    /// whose count is below the chunk capacity; `CKID_NIL` when every chunk is full.
    pub fn find_ck(&self, ck: ckid_t) -> (r: ckid_t)
        requires
            ck < MAX_CHUNK_NUM,
        ensures
            r == CKID_NIL ==> self.all_full(),
            r != CKID_NIL ==> {
                &&& r < MAX_CHUNK_NUM
                &&& self.count(r as int) < PAGE_NUM_PER_CK
                &&& forall|i: int| 0 <= i < (r - ck + MAX_CHUNK_NUM) % (MAX_CHUNK_NUM as int)
                    ==> #[trigger] self.count((ck + i) % (MAX_CHUNK_NUM as int)) >= PAGE_NUM_PER_CK
            },
    {
        let mut i: u64 = 0;
        while i < MAX_CHUNK_NUM
            invariant
                ck < MAX_CHUNK_NUM,
                i <= MAX_CHUNK_NUM,
                forall|j: int| 0 <= j < i ==>
                    #[trigger] self.count((ck + j) % (MAX_CHUNK_NUM as int)) >= PAGE_NUM_PER_CK,
            decreases MAX_CHUNK_NUM - i,
        {
            let r = (ck + i) % MAX_CHUNK_NUM;
            if self.bpn.get(r) < PAGE_NUM_PER_CK {
                assert((r - ck + MAX_CHUNK_NUM) % (MAX_CHUNK_NUM as int) == i);
                return r;
            }
            i = i + 1;
        }
        assert forall|c: int| 0 <= c < MAX_CHUNK_NUM implies #[trigger] self.count(c) >= PAGE_NUM_PER_CK by {
            let j = (c - ck + MAX_CHUNK_NUM) % (MAX_CHUNK_NUM as int);
            assert((ck + j) % (MAX_CHUNK_NUM as int) == c);
            assert(self.count((ck + j) % (MAX_CHUNK_NUM as int)) >= PAGE_NUM_PER_CK);
        }
        CKID_NIL
    }

    /// Whether the page with global id `g` is in use.
    pub fn is_allocated(&self, g: u64) -> (r: bool)
        requires
            self.wf(),
            valid_gpid(g as int),
        ensures
            r == self.allocated(g as int),
    {
        reveal(allocator_s::allocated);
        let ck = g / PAGE_NUM_PER_CK;
        let l = g % PAGE_NUM_PER_CK;
        if ck == self.curr_ck {
            match &self.pb {
                Some(pb) => pb.isset(l),
                None => false,
            }
        } else if ck < self.stored.len() as u64 {
            self.stored[ck as usize].isset(l)
        } else {
            false
        }
    }

    /// Opens chunk `ck`: brings its bitmap into memory. The first time a chunk
    /// is opened, the pages that hold its own bitmap are marked in use.
    pub fn open_ck(&mut self, ck: ckid_t) -> (r: Result<(), KvError>)
        requires
            old(self).wf(),
            ck < MAX_CHUNK_NUM,
        ensures
            final(self).wf(),
            r is Err <==> old(self).is_open(),
            r is Err ==> *final(self) == *old(self),
            r is Ok ==> {
                &&& final(self).curr_ck == ck
                &&& forall|c: int| c != ck ==> #[trigger] final(self).count(c) == old(self).count(c)
                &&& final(self).count(ck as int) == if old(self).count(ck as int) == 0 {
                    PAGE_BITMAP_PAGES as int
                } else {
                    old(self).count(ck as int)
                }
                &&& forall|c: int, l: int| 0 <= l < PAGE_NUM_PER_CK ==> #[trigger] final(self).bit(c, l)
                    == (old(self).bit(c, l) || (c == ck && old(self).count(c) == 0
                    && l < PAGE_BITMAP_PAGES))
            },
    {
        if self.curr_ck != CKID_NIL {
            return Err(KvError::Corrupt);
        }
        while (self.bpn.n.len() as u64) <= ck
            invariant
                self.bpn.n@.len() >= old(self).bpn.n@.len(),
                old(self).bpn.n@.len() <= ck ==> self.bpn.n@.len() <= ck + 1,
                old(self).bpn.n@.len() > ck ==> self.bpn.n@.len() == old(self).bpn.n@.len(),
                forall|c: int| #[trigger] self.bpn.count(c) == old(self).bpn.count(c),
                self.stored == old(self).stored,
                self.curr_ck == old(self).curr_ck,
                self.pb == old(self).pb,
                self.hint == old(self).hint,
            decreases ck + 1 - self.bpn.n@.len(),
        {
            let ghost prev = self.bpn;
            self.bpn.n.push(0);
            assert forall|c: int| #[trigger] self.bpn.count(c) == old(self).bpn.count(c) by {
                assert(self.bpn.count(c) == prev.count(c));
            }
        }
        while (self.stored.len() as u64) <= ck
            invariant
                self.stored@.len() >= old(self).stored@.len(),
                old(self).stored@.len() <= ck ==> self.stored@.len() <= ck + 1,
                old(self).stored@.len() > ck ==> self.stored@.len() == old(self).stored@.len(),
                self.bpn.n@.len() <= MAX_CHUNK_NUM,
                self.curr_ck == CKID_NIL,
                self.pb is None,
                self.bpn.n@.len() > ck,
                forall|c: int| #[trigger] self.bpn.count(c) == old(self).bpn.count(c),
                forall|c: int| 0 <= c < self.stored@.len() ==> (#[trigger] self.stored@[c]).wf(),
                forall|c: int, l: int| 0 <= l < PAGE_NUM_PER_CK ==> #[trigger] self.bit(c, l)
                    == old(self).bit(c, l),
            decreases ck + 1 - self.stored@.len(),
        {
            let fresh = page_bitmap_s::new();
            let ghost prev = *self;
            self.stored.push(fresh);
            assert forall|c: int, l: int| 0 <= l < PAGE_NUM_PER_CK implies #[trigger] self.bit(c, l)
                == old(self).bit(c, l) by {
                assert(self.bit(c, l) == prev.bit(c, l));
            }
        }
        let ghost mid = *self;
        assert forall|l: int| 0 <= l < PAGE_NUM_PER_CK implies
            #[trigger] self.stored@[ck as int].is_set(l) == old(self).bit(ck as int, l) by {
            assert(self.bit(ck as int, l) == old(self).bit(ck as int, l));
        }
        let mut pb = page_bitmap_s { w: self.stored[ck as usize].w.clone() };
        assert(pb.w@ =~= self.stored@[ck as int].w@);
        let ghost before = pb;
        if self.bpn.n[ck as usize] == 0 {
            let mut i: u64 = 0;
            while i < PAGE_BITMAP_PAGES
                invariant
                    i <= PAGE_BITMAP_PAGES,
                    pb.wf(),
                    forall|l: int| 0 <= l < PAGE_NUM_PER_CK ==> #[trigger] pb.is_set(l)
                        == (before.is_set(l) || l < i),
                decreases PAGE_BITMAP_PAGES - i,
            {
                pb.set(i);
                i = i + 1;
            }
            self.bpn.n.set(ck as usize, PAGE_BITMAP_PAGES);
        }
        self.pb = Some(pb);
        self.curr_ck = ck;
        self.hint = PAGE_BITMAP_PAGES;
        assert forall|c: int, l: int| 0 <= l < PAGE_NUM_PER_CK implies #[trigger] self.bit(c, l)
            == (old(self).bit(c, l) || (c == ck && old(self).count(c) == 0
            && l < PAGE_BITMAP_PAGES)) by {
            assert(mid.bit(c, l) == old(self).bit(c, l));
            if c == ck {
                assert(before.is_set(l) == self.stored@[ck as int].is_set(l));
                assert(old(self).count(c) == mid.count(c));
                assert(self.bit(c, l) == self.pb->0.is_set(l));
                assert(self.pb->0.is_set(l) == (before.is_set(l) || (mid.count(c) == 0 && l < PAGE_BITMAP_PAGES)));
            } else {
                assert(self.bit(c, l) == mid.bit(c, l));
            }
        }
        assert forall|c: int| c != ck implies #[trigger] self.count(c) == old(self).count(c) by {
            assert(mid.count(c) == old(self).count(c));
        }
        assert(mid.count(ck as int) == old(self).count(ck as int));
        proof {
            let o = *old(self);
            lemma_counts_open(&o, self, ck as int);
        }
        assert(self.wf());
        Ok(())
    }

    /// Closes the open chunk: its bitmap is written back to the bitmap area.
    pub fn close_curr_ck(&mut self) -> (r: Result<(), KvError>)
        requires
            old(self).wf(),
        ensures
            final(self).wf(),
            r is Err <==> !old(self).is_open(),
            r is Err ==> *final(self) == *old(self),
            !final(self).is_open(),
            final(self).bpn == old(self).bpn,
            forall|c: int, l: int| #[trigger] final(self).bit(c, l) == old(self).bit(c, l),
    {
        let ck = self.curr_ck;
        if ck == CKID_NIL {
            return Err(KvError::Corrupt);
        }
        let pb = self.pb.take();
        match pb {
            Some(b) => {
                self.stored.set(ck as usize, b);
            },
            None => {},
        }
        self.curr_ck = CKID_NIL;
        proof {
            let o = *old(self);
            lemma_counts_same(&o, self);
        }
        Ok(())
    }

    /// Allocates a page: takes the first free page of the open chunk after the
    /// bitmap pages. When the open chunk is full, it is closed and the next
    /// chunk with a free page, going round from it, is opened first.
    pub fn alloc_page(&mut self) -> (r: Result<u64, KvError>)
        requires
            old(self).wf(),
            old(self).is_open(),
        ensures
            final(self).wf(),
            r == Err::<u64, KvError>(KvError::AllocExhausted) <==> old(self).all_full(),
            r is Ok <==> !old(self).all_full(),
            r matches Ok(g) ==> forall|l: int| PAGE_BITMAP_PAGES <= l < local_of(g as int)
                ==> #[trigger] final(self).bit(chunk_of(g as int), l),
            forall|c: int| #[trigger] final(self).count(c) <= old(self).count(c) + PAGE_BITMAP_PAGES + 1,
            r matches Ok(_) ==> forall|x: int| 0 <= x && local_of(x) < PAGE_BITMAP_PAGES ==>
                #[trigger] final(self).allocated(x) == (old(self).allocated(x) || (chunk_of(x)
                == final(self).curr_ck && old(self).count(chunk_of(x)) == 0)),
            r == Err::<u64, KvError>(KvError::AllocExhausted) ==> *final(self) == *old(self),
            r is Ok || r == Err::<u64, KvError>(KvError::AllocExhausted)
                || r == Err::<u64, KvError>(KvError::Corrupt),
            final(self).is_open(),
            forall|x: int| 0 <= x ==> #[trigger] old(self).allocated(x) ==> final(self).allocated(x),
            r matches Ok(g) ==> {
                &&& valid_gpid(g as int)
                &&& chunk_of(g as int) == final(self).curr_ck
                &&& local_of(g as int) >= PAGE_BITMAP_PAGES
                &&& !old(self).allocated(g as int)
                &&& final(self).allocated(g as int)
                &&& forall|x: int| 0 <= x && x != g && local_of(x) >= PAGE_BITMAP_PAGES ==>
                    #[trigger] final(self).allocated(x) == old(self).allocated(x)
                &&& old(self).count(old(self).curr_ck as int) < PAGE_NUM_PER_CK
                    ==> final(self).curr_ck == old(self).curr_ck
                &&& old(self).count(old(self).curr_ck as int) >= PAGE_NUM_PER_CK ==> {
                    &&& old(self).count(final(self).curr_ck as int) < PAGE_NUM_PER_CK
                    &&& forall|i: int| 0 <= i < (final(self).curr_ck - old(self).curr_ck
                        + MAX_CHUNK_NUM) % (MAX_CHUNK_NUM as int) ==> #[trigger] old(self).count(
                        (old(self).curr_ck + i) % (MAX_CHUNK_NUM as int)) >= PAGE_NUM_PER_CK
                }
                &&& final(self).count(chunk_of(g as int)) == 1 + if old(self).count(
                    old(self).curr_ck as int) >= PAGE_NUM_PER_CK && old(self).count(
                    chunk_of(g as int)) == 0 {
                    PAGE_BITMAP_PAGES as int
                } else {
                    old(self).count(chunk_of(g as int))
                }
                &&& forall|c: int| c != chunk_of(g as int) ==> #[trigger] final(self).count(c)
                    == old(self).count(c)
            },
    {
        reveal(allocator_s::allocated);
        let ck0 = self.curr_ck;
        let mut ck = ck0;
        if self.bpn.get(ck) >= PAGE_NUM_PER_CK {
            let next = self.find_ck(ck);
            if next == CKID_NIL {
                return Err(KvError::AllocExhausted);
            }
            let ghost s0 = *self;
            let _ = self.close_curr_ck();
            let ghost s1 = *self;
            let _ = self.open_ck(next);
            ck = next;
            assert forall|x: int| 0 <= x && #[trigger] old(self).allocated(x) implies self.allocated(x) by {
                assert(s1.bit(chunk_of(x), local_of(x)) == s0.bit(chunk_of(x), local_of(x)));
            }
            assert forall|x: int| 0 <= x && local_of(x) >= PAGE_BITMAP_PAGES implies
                #[trigger] self.allocated(x) == old(self).allocated(x) by {
                assert(s1.bit(chunk_of(x), local_of(x)) == s0.bit(chunk_of(x), local_of(x)));
            }
            assert forall|x: int| 0 <= x && local_of(x) < PAGE_BITMAP_PAGES implies
                #[trigger] self.allocated(x) == (old(self).allocated(x) || (chunk_of(x) == self.curr_ck
                && old(self).count(chunk_of(x)) == 0)) by {
                assert(s1.bit(chunk_of(x), local_of(x)) == s0.bit(chunk_of(x), local_of(x)));
                assert(s1.count(chunk_of(x)) == s0.count(chunk_of(x)));
            }
        } else {
            proof {
                if old(self).all_full() {
                    assert(old(self).count(ck0 as int) >= PAGE_NUM_PER_CK);
                }
            }
        }
        let ghost mid = *self;
        assert(mid.count(ck as int) < PAGE_NUM_PER_CK);
        let found = match &self.pb {
            Some(pb) => pb.first_clear(self.hint),
            None => None,
        };
        match found {
            None => {
                proof {
                    lemma_has_free(&mid);
                    let l0 = choose|l: int| mid.hint <= l < PAGE_NUM_PER_CK && !mid.pb->0.is_set(l);
                    assert(mid.pb->0.is_set(l0));
                }
                Err(KvError::Corrupt)
            },
            Some(l) => {
                let g = get_gpid(ck, l);
                match &mut self.pb {
                    Some(pb) => {
                        pb.set(l);
                    },
                    None => {},
                }
                let n = self.bpn.n[ck as usize];
                self.bpn.n.set(ck as usize, n + 1);
                self.hint = l + 1;
                assert forall|x: int| 0 <= x && #[trigger] mid.allocated(x) implies self.allocated(x) by {
                    if chunk_of(x) != ck {
                        assert(self.bit(chunk_of(x), local_of(x)) == mid.bit(chunk_of(x), local_of(x)));
                    }
                }
                assert forall|x: int| 0 <= x && x != g && local_of(x) >= PAGE_BITMAP_PAGES implies
                    #[trigger] self.allocated(x) == mid.allocated(x) by {
                    if chunk_of(x) == ck {
                        assert(local_of(x) != l) by {
                            if local_of(x) == l {
                                assert(x == chunk_of(x) * PAGE_NUM_PER_CK + local_of(x));
                                assert(g == chunk_of(g as int) * PAGE_NUM_PER_CK + local_of(g as int));
                            }
                        }
                    }
                }
                assert forall|c: int| c != ck implies #[trigger] self.count(c) == old(self).count(c) by {
                    assert(self.count(c) == mid.count(c));
                }
                assert forall|x: int| 0 <= x && #[trigger] old(self).allocated(x) implies self.allocated(x) by {
                    assert(mid.allocated(x));
                }
                assert forall|x: int| 0 <= x && x != g && local_of(x) >= PAGE_BITMAP_PAGES implies
                    #[trigger] self.allocated(x) == old(self).allocated(x) by {
                    assert(self.allocated(x) == mid.allocated(x));
                    assert(mid.allocated(x) == old(self).allocated(x));
                }
                proof {
                    assert forall|c: int, x: int| 0 <= x < PAGE_NUM_PER_CK implies #[trigger] self.bit(c, x)
                        == (mid.bit(c, x) || (c == ck && x == l)) by {
                        if c == ck {
                            assert(self.bit(c, x) == self.pb->0.is_set(x));
                        }
                    }
                    reveal(allocator_s::counts_wf);
                    lemma_counts_set(&mid, self, ck as int, l as int);
                    assert forall|j: int| PAGE_BITMAP_PAGES <= j < l implies #[trigger] self.bit(ck as int, j) by {
                        if j < mid.hint {
                            assert(mid.pb->0.is_set(j));
                        } else {
                            assert(mid.pb->0.is_set(j));
                        }
                        assert(mid.bit(ck as int, j));
                    }
                }
                assert forall|x: int| 0 <= x && local_of(x) < PAGE_BITMAP_PAGES implies
                    #[trigger] self.allocated(x) == mid.allocated(x) by {
                    if chunk_of(x) == ck {
                        assert(local_of(x) != l);
                    }
                }
                assert forall|x: int| 0 <= x && local_of(x) < PAGE_BITMAP_PAGES implies
                    #[trigger] self.allocated(x) == (old(self).allocated(x) || (chunk_of(x) == self.curr_ck
                    && old(self).count(chunk_of(x)) == 0)) by {
                    assert(self.allocated(x) == mid.allocated(x));
                    if ck == ck0 {
                        if chunk_of(x) == ck && old(self).count(chunk_of(x)) == 0 {
                            reveal(allocator_s::counts_wf);
                            assert(old(self).count(ck0 as int) > 0);
                        }
                    }
                }
                assert(!mid.allocated(g as int));
                assert(!old(self).allocated(g as int));
                assert(valid_gpid(g as int));
                assert(chunk_of(g as int) == self.curr_ck);
                assert(local_of(g as int) >= PAGE_BITMAP_PAGES);
                assert(self.allocated(g as int));
                assert(old(self).count(old(self).curr_ck as int) < PAGE_NUM_PER_CK
                    ==> self.curr_ck == old(self).curr_ck);
                Ok(g)
            },
        }
    }

    /// Frees page `g`: clears its bit in its chunk's bitmap and lowers the
    /// chunk's count. A page that is not in use, or that holds a bitmap, is
    /// refused as corruption.
    pub fn free_page(&mut self, g: u64) -> (r: Result<(), KvError>)
        requires
            old(self).wf(),
            valid_gpid(g as int),
        ensures
            final(self).wf(),
            r is Ok <==> (old(self).allocated(g as int) && local_of(g as int) >= PAGE_BITMAP_PAGES
                && old(self).count(chunk_of(g as int)) > 0),
            r is Err ==> *final(self) == *old(self),
            r is Ok ==> {
                &&& forall|x: int| 0 <= x ==> #[trigger] final(self).allocated(x) == (x != g
                    && old(self).allocated(x))
                &&& final(self).count(chunk_of(g as int)) == old(self).count(chunk_of(g as int)) - 1
                &&& forall|c: int| c != chunk_of(g as int) ==> #[trigger] final(self).count(c)
                    == old(self).count(c)
                &&& final(self).curr_ck == old(self).curr_ck
            },
    {
        reveal(allocator_s::allocated);
        let ck = g / PAGE_NUM_PER_CK;
        let l = g % PAGE_NUM_PER_CK;
        assert(ck < MAX_CHUNK_NUM) by (nonlinear_arith)
            requires g < MAX_CHUNK_NUM * PAGE_NUM_PER_CK, ck == g / PAGE_NUM_PER_CK;
        if l < PAGE_BITMAP_PAGES {
            return Err(KvError::Corrupt);
        }
        let n = self.bpn.get(ck);
        if n == 0 {
            return Err(KvError::Corrupt);
        }
        if ck == self.curr_ck {
            let set = match &self.pb {
                Some(pb) => pb.isset(l),
                None => false,
            };
            if !set {
                return Err(KvError::Corrupt);
            }
            match &mut self.pb {
                Some(pb) => {
                    pb.clear(l);
                },
                None => {},
            }
            if l < self.hint {
                self.hint = l;
            }
        } else {
            if ck >= self.stored.len() as u64 {
                return Err(KvError::Corrupt);
            }
            if !self.stored[ck as usize].isset(l) {
                return Err(KvError::Corrupt);
            }
            let mut b = page_bitmap_s { w: self.stored[ck as usize].w.clone() };
            assert(b.w@ =~= self.stored@[ck as int].w@);
            b.clear(l);
            self.stored.set(ck as usize, b);
        }
        self.bpn.n.set(ck as usize, n - 1);
        assert forall|x: int| 0 <= x implies #[trigger] self.allocated(x) == (x != g
            && old(self).allocated(x)) by {
            if chunk_of(x) == ck && local_of(x) == l {
                assert(x == chunk_of(x) * PAGE_NUM_PER_CK + local_of(x));
                assert(g == ck * PAGE_NUM_PER_CK + l);
            }
        }
        assert forall|c: int| c != ck implies #[trigger] self.count(c) == old(self).count(c) by {}
        proof {
            assert forall|c: int, x: int| 0 <= x < PAGE_NUM_PER_CK implies #[trigger] self.bit(c, x)
                == (old(self).bit(c, x) && !(c == ck && x == l)) by {
                if c == ck {
                    if ck == old(self).curr_ck {
                        assert(self.bit(c, x) == self.pb->0.is_set(x));
                    } else {
                        assert(self.bit(c, x) == self.stored@[c].is_set(x));
                    }
                }
            }
            let o = *old(self);
            assert(old(self).bit(ck as int, l as int)) by {
                assert(g == ck * PAGE_NUM_PER_CK + l);
            }
            lemma_counts_clear(&o, self, ck as int, l as int);
        }
        Ok(())
    }

    /// The allocator of a file whose used-page counters are `bpn` and whose
    /// bitmap area holds `stored`: checks that each counter is the number of
    /// pages its bitmap marks in use, then opens the first chunk that has a free page.
    pub fn init(bpn: busy_page_num_s, stored: Vec<page_bitmap_s>) -> (r: Result<allocator_s, KvError>)
        ensures
            r == Err::<allocator_s, KvError>(KvError::Corrupt) <==> !restorable(bpn, stored@),
            r == Err::<allocator_s, KvError>(KvError::AllocExhausted) <==> (restorable(bpn, stored@)
                && forall|c: int| 0 <= c < MAX_CHUNK_NUM ==> #[trigger] bpn.count(c) >= PAGE_NUM_PER_CK),
            r is Err ==> r == Err::<allocator_s, KvError>(KvError::AllocExhausted)
                || r == Err::<allocator_s, KvError>(KvError::Corrupt),
            r matches Ok(a) ==> {
                &&& a.wf()
                &&& a.is_open()
                &&& bpn.count(a.curr_ck as int) < PAGE_NUM_PER_CK
                &&& forall|c: int| 0 <= c < a.curr_ck ==> #[trigger] bpn.count(c) >= PAGE_NUM_PER_CK
                &&& forall|c: int| c != a.curr_ck ==> #[trigger] a.count(c) == bpn.count(c)
                &&& a.count(a.curr_ck as int) == if bpn.count(a.curr_ck as int) == 0 {
                    PAGE_BITMAP_PAGES as int
                } else {
                    bpn.count(a.curr_ck as int)
                }
                &&& a.restored_from(bpn, stored@)
            },
    {
        if bpn.n.len() as u64 > MAX_CHUNK_NUM || stored.len() as u64 > MAX_CHUNK_NUM {
            return Err(KvError::Corrupt);
        }
        let mut i: usize = 0;
        while i < stored.len()
            invariant
                i <= stored@.len(),
                forall|c: int| 0 <= c < i ==> (#[trigger] stored@[c]).wf(),
            decreases stored@.len() - i,
        {
            if stored[i].w.len() as u64 != PAGE_BITMAP_WLEN {
                return Err(KvError::Corrupt);
            }
            i = i + 1;
        }
        let top: usize = if bpn.n.len() > stored.len() { bpn.n.len() } else { stored.len() };
        let mut c: usize = 0;
        while c < top
            invariant
                top <= MAX_CHUNK_NUM,
                top >= bpn.n@.len(),
                top >= stored@.len(),
                c <= top,
                bpn.n@.len() <= MAX_CHUNK_NUM,
                stored@.len() <= MAX_CHUNK_NUM,
                forall|x: int| 0 <= x < stored@.len() ==> (#[trigger] stored@[x]).wf(),
                forall|x: int| 0 <= x < c ==> #[trigger] bpn.count(x) == stored_used(stored@, x).len(),
                forall|x: int| 0 <= x < c && #[trigger] bpn.count(x) > 0 ==> marks_bitmap_pages(stored@, x),
            decreases top - c,
        {
            let cnt = bpn.get(c as u64);
            if c < stored.len() {
                let pc = popcount(&stored[c]);
                assert(stored_used(stored@, c as int) =~= Set::new(|l: int| 0 <= l < PAGE_NUM_PER_CK
                    && stored@[c as int].is_set(l)));
                if pc != cnt {
                    return Err(KvError::Corrupt);
                }
                if cnt > 0 && !reserved_set(&stored[c]) {
                    return Err(KvError::Corrupt);
                }
            } else {
                assert(stored_used(stored@, c as int) =~= Set::<int>::empty());
                if cnt != 0 {
                    return Err(KvError::Corrupt);
                }
            }
            let ghost c0 = c as int;
            c = c + 1;
            proof {
                assert forall|x: int| 0 <= x < c && #[trigger] bpn.count(x) > 0 implies marks_bitmap_pages(stored@, x) by {
                    if x == c0 {
                        assert(c0 < stored@.len());
                    }
                }
            }
        }
        proof {
            assert forall|x: int| 0 <= x < MAX_CHUNK_NUM implies #[trigger] bpn.count(x)
                == stored_used(stored@, x).len() by {
                if x >= top {
                    assert(stored_used(stored@, x) =~= Set::<int>::empty());
                }
            }
            assert forall|x: int| 0 <= x < MAX_CHUNK_NUM && #[trigger] bpn.count(x) > 0
                implies marks_bitmap_pages(stored@, x) by {
                if x >= top {
                    assert(bpn.count(x) == 0);
                }
            }
            assert(restorable(bpn, stored@));
        }
        let a0 = allocator_s { curr_ck: CKID_NIL, bpn, pb: None, stored, hint: PAGE_BITMAP_PAGES };
        proof {
            reveal(allocator_s::counts_wf);
            assert forall|x: int| 0 <= x < MAX_CHUNK_NUM implies #[trigger] a0.count(x) == a0.used(x).len() by {
                assert(a0.used(x) =~= stored_used(stored@, x));
            }
            assert forall|x: int, l: int| 0 <= x < MAX_CHUNK_NUM && 0 <= l < PAGE_BITMAP_PAGES && a0.count(x) > 0
                implies #[trigger] a0.bit(x, l) by {
                assert(marks_bitmap_pages(stored@, x));
                assert(stored@[x].is_set(l));
            }
        }
        let ck = a0.find_ck(0);
        if ck == CKID_NIL {
            assert forall|c: int| 0 <= c < MAX_CHUNK_NUM implies #[trigger] bpn.count(c) >= PAGE_NUM_PER_CK by {
                assert(a0.count(c) >= PAGE_NUM_PER_CK);
            }
            assert(forall|c: int| 0 <= c < MAX_CHUNK_NUM ==> #[trigger] bpn.count(c) >= PAGE_NUM_PER_CK);
            return Err(KvError::AllocExhausted);
        }
        assert(a0.count(ck as int) < PAGE_NUM_PER_CK);
        assert forall|c: int| 0 <= c < ck implies #[trigger] a0.count(c) >= PAGE_NUM_PER_CK by {
            assert((0 + c) % (MAX_CHUNK_NUM as int) == c);
            assert(a0.count((0 + c) % (MAX_CHUNK_NUM as int)) >= PAGE_NUM_PER_CK);
        }
        let mut a = a0;
        let _ = a.open_ck(ck);
        assert forall|c: int, l: int| 0 <= l < PAGE_NUM_PER_CK implies #[trigger] a.bit(c, l) == (
            (0 <= c < stored@.len() && stored@[c].is_set(l)) || (c == a.curr_ck
            && bpn.count(c) == 0 && l < PAGE_BITMAP_PAGES)) by {
            assert(a.bit(c, l) == (a0.bit(c, l) || (c == ck && a0.count(c) == 0
                && l < PAGE_BITMAP_PAGES)));
        }
        assert forall|c: int| c != a.curr_ck implies #[trigger] a.count(c) == bpn.count(c) by {
            assert(a.count(c) == a0.count(c));
        }
        assert forall|c: int| 0 <= c < a.curr_ck implies #[trigger] bpn.count(c) >= PAGE_NUM_PER_CK by {
            assert(a0.count(c) >= PAGE_NUM_PER_CK);
        }
        Ok(a)
    }
}

/// Closing the open chunk writes its bitmap back, so an allocator built again
/// from the counters and the bitmap area has the same pages in use, but for
/// the bitmap pages of a chunk that it opens for the first time.
pub proof fn law_reopen(a: allocator_s, b: allocator_s)
    requires
        a.wf(),
        !a.is_open(),
        b.wf(),
        b.restored_from(a.bpn, a.stored@),
    ensures
        forall|x: int| 0 <= x ==> #[trigger] a.allocated(x) ==> b.allocated(x),
        forall|x: int| 0 <= x && local_of(x) >= PAGE_BITMAP_PAGES ==> #[trigger] b.allocated(x) == a.allocated(x),
{
    reveal(allocator_s::allocated);
    assert forall|x: int| 0 <= x implies (#[trigger] b.allocated(x) == (a.allocated(x) || (chunk_of(x) == b.curr_ck
        && a.bpn.count(chunk_of(x)) == 0 && local_of(x) < PAGE_BITMAP_PAGES))) by {
        assert(b.bit(chunk_of(x), local_of(x)) == ((0 <= chunk_of(x) < a.stored@.len()
            && a.stored@[chunk_of(x)].is_set(local_of(x))) || (chunk_of(x) == b.curr_ck
            && a.bpn.count(chunk_of(x)) == 0 && local_of(x) < PAGE_BITMAP_PAGES)));
    }
}

/// The pages in use of a chunk are finitely many, at most the chunk's pages.
proof fn lemma_used_finite(a: &allocator_s, c: int)
    ensures
        a.used(c).finite(),
        a.used(c).len() <= PAGE_NUM_PER_CK,
{
    lemma_int_range(0, PAGE_NUM_PER_CK as int);
    lemma_len_subset(a.used(c), set_int_range(0, PAGE_NUM_PER_CK as int));
}

/// A chunk whose pages from 0 to `hi` are all in use has at least `hi` pages in use.
proof fn lemma_used_at_least(a: &allocator_s, c: int, hi: int)
    requires
        0 <= hi <= PAGE_NUM_PER_CK,
        forall|l: int| 0 <= l < hi ==> #[trigger] a.bit(c, l),
    ensures
        a.used(c).len() >= hi,
{
    lemma_used_finite(a, c);
    lemma_int_range(0, hi);
    lemma_len_subset(set_int_range(0, hi), a.used(c));
}

/// The pages in use of chunk `c` are the same in `a` and `b` when its bits are.
proof fn lemma_used_same(a: &allocator_s, b: &allocator_s, c: int)
    requires
        forall|l: int| 0 <= l < PAGE_NUM_PER_CK ==> #[trigger] b.bit(c, l) == a.bit(c, l),
    ensures
        b.used(c) == a.used(c),
{
    assert(b.used(c) =~= a.used(c));
}

/// Counters stay exact when neither bits nor counters change.
proof fn lemma_counts_same(a: &allocator_s, b: &allocator_s)
    requires
        a.counts_wf(),
        forall|c: int| #[trigger] b.count(c) == a.count(c),
        forall|c: int, l: int| 0 <= l < PAGE_NUM_PER_CK ==> #[trigger] b.bit(c, l) == a.bit(c, l),
        b.is_open() ==> a.is_open() && b.curr_ck == a.curr_ck,
    ensures
        b.counts_wf(),
{
    reveal(allocator_s::counts_wf);
    assert forall|c: int| 0 <= c < MAX_CHUNK_NUM implies #[trigger] b.count(c) == b.used(c).len() by {
        lemma_used_same(a, b, c);
    }
    assert forall|c: int, l: int| 0 <= c < MAX_CHUNK_NUM && 0 <= l < PAGE_BITMAP_PAGES && b.count(c) > 0
        implies #[trigger] b.bit(c, l) by {
        assert(a.bit(c, l));
    }
}

/// Counters stay exact when chunk `ck` is opened.
proof fn lemma_counts_open(a: &allocator_s, b: &allocator_s, ck: int)
    requires
        a.counts_wf(),
        !a.is_open(),
        0 <= ck < MAX_CHUNK_NUM,
        b.curr_ck == ck,
        b.is_open(),
        forall|c: int| c != ck ==> #[trigger] b.count(c) == a.count(c),
        b.count(ck) == if a.count(ck) == 0 { PAGE_BITMAP_PAGES as int } else { a.count(ck) },
        forall|c: int, l: int| 0 <= l < PAGE_NUM_PER_CK ==> #[trigger] b.bit(c, l)
            == (a.bit(c, l) || (c == ck && a.count(c) == 0 && l < PAGE_BITMAP_PAGES)),
    ensures
        b.counts_wf(),
{
    reveal(allocator_s::counts_wf);
    assert forall|c: int| 0 <= c < MAX_CHUNK_NUM implies #[trigger] b.count(c) == b.used(c).len() by {
        if c != ck || a.count(ck) != 0 {
            lemma_used_same(a, b, c);
        } else {
            lemma_used_finite(a, c);
            assert(a.used(c).len() == 0);
            assert forall|l: int| 0 <= l < PAGE_NUM_PER_CK implies !a.bit(c, l) by {
                if a.bit(c, l) {
                    assert(a.used(c).contains(l));
                }
            }
            assert(b.used(c) =~= set_int_range(0, PAGE_BITMAP_PAGES as int));
            lemma_int_range(0, PAGE_BITMAP_PAGES as int);
        }
    }
    assert forall|c: int, l: int| 0 <= c < MAX_CHUNK_NUM && 0 <= l < PAGE_BITMAP_PAGES && b.count(c) > 0
        implies #[trigger] b.bit(c, l) by {
        if c != ck || a.count(ck) != 0 {
            assert(a.bit(c, l));
        }
    }
}

/// Counters stay exact when page `l` of chunk `ck`, free before, comes into use
/// and the chunk's counter grows by one.
proof fn lemma_counts_set(a: &allocator_s, b: &allocator_s, ck: int, l: int)
    requires
        a.counts_wf(),
        0 <= ck < MAX_CHUNK_NUM,
        PAGE_BITMAP_PAGES <= l < PAGE_NUM_PER_CK,
        !a.bit(ck, l),
        a.count(ck) > 0,
        b.is_open() == a.is_open(),
        b.curr_ck == a.curr_ck,
        forall|c: int| c != ck ==> #[trigger] b.count(c) == a.count(c),
        b.count(ck) == a.count(ck) + 1,
        forall|c: int, x: int| 0 <= x < PAGE_NUM_PER_CK ==> #[trigger] b.bit(c, x)
            == (a.bit(c, x) || (c == ck && x == l)),
    ensures
        b.counts_wf(),
{
    reveal(allocator_s::counts_wf);
    assert forall|c: int| 0 <= c < MAX_CHUNK_NUM implies #[trigger] b.count(c) == b.used(c).len() by {
        if c != ck {
            lemma_used_same(a, b, c);
        } else {
            lemma_used_finite(a, c);
            assert(b.used(c) =~= a.used(c).insert(l));
            assert(!a.used(c).contains(l));
        }
    }
    assert forall|c: int, x: int| 0 <= c < MAX_CHUNK_NUM && 0 <= x < PAGE_BITMAP_PAGES && b.count(c) > 0
        implies #[trigger] b.bit(c, x) by {
        assert(a.bit(c, x));
    }
}

/// Counters stay exact when page `l` of chunk `ck`, in use before, is freed
/// and the chunk's counter drops by one.
proof fn lemma_counts_clear(a: &allocator_s, b: &allocator_s, ck: int, l: int)
    requires
        a.counts_wf(),
        0 <= ck < MAX_CHUNK_NUM,
        PAGE_BITMAP_PAGES <= l < PAGE_NUM_PER_CK,
        a.bit(ck, l),
        b.is_open() == a.is_open(),
        b.curr_ck == a.curr_ck,
        forall|c: int| c != ck ==> #[trigger] b.count(c) == a.count(c),
        b.count(ck) == a.count(ck) - 1,
        forall|c: int, x: int| 0 <= x < PAGE_NUM_PER_CK ==> #[trigger] b.bit(c, x)
            == (a.bit(c, x) && !(c == ck && x == l)),
    ensures
        b.counts_wf(),
{
    reveal(allocator_s::counts_wf);
    lemma_used_finite(a, ck);
    assert(b.used(ck) =~= a.used(ck).remove(l));
    assert(a.used(ck).contains(l));
    assert forall|c: int| 0 <= c < MAX_CHUNK_NUM implies #[trigger] b.count(c) == b.used(c).len() by {
        if c != ck {
            lemma_used_same(a, b, c);
        }
    }
    assert forall|x: int| 0 <= x < PAGE_BITMAP_PAGES implies #[trigger] b.bit(ck, x) by {
        assert(a.count(ck) > 0);
        assert(a.bit(ck, x));
    }
    lemma_used_at_least(b, ck, PAGE_BITMAP_PAGES as int);
    assert forall|c: int, x: int| 0 <= c < MAX_CHUNK_NUM && 0 <= x < PAGE_BITMAP_PAGES && b.count(c) > 0
        implies #[trigger] b.bit(c, x) by {
        if c != ck {
            assert(a.bit(c, x));
        }
    }
}

/// The open chunk, while its counter is below the capacity, has a free page
/// at or after `hint`.
proof fn lemma_has_free(a: &allocator_s)
    requires
        a.wf(),
        a.is_open(),
        a.count(a.curr_ck as int) < PAGE_NUM_PER_CK,
    ensures
        exists|l: int| a.hint <= l < PAGE_NUM_PER_CK && !a.pb->0.is_set(l),
{
    reveal(allocator_s::counts_wf);
    let c = a.curr_ck as int;
    if forall|l: int| a.hint <= l < PAGE_NUM_PER_CK ==> a.pb->0.is_set(l) {
        assert forall|l: int| 0 <= l < PAGE_NUM_PER_CK implies #[trigger] a.bit(c, l) by {
            if l < PAGE_BITMAP_PAGES {
                assert(a.bit(c, l));
            } else if l < a.hint {
                assert(a.pb->0.is_set(l));
            }
        }
        lemma_used_at_least(a, c, PAGE_NUM_PER_CK as int);
    }
}

/// The pages that the stored bitmap of chunk `c` marks in use.
pub open spec fn stored_used(stored: Seq<page_bitmap_s>, c: int) -> Set<int> {
    Set::new(|l: int| 0 <= l < PAGE_NUM_PER_CK && 0 <= c < stored.len() && stored[c].is_set(l))
}

/// Counters and stored bitmaps that describe an allocator: within the limits,
/// each counter the number of pages its bitmap marks, and every chunk with
/// pages in use marking its own bitmap pages.
pub open spec fn restorable(bpn: busy_page_num_s, stored: Seq<page_bitmap_s>) -> bool {
    &&& bpn.n@.len() <= MAX_CHUNK_NUM
    &&& stored.len() <= MAX_CHUNK_NUM
    &&& forall|c: int| 0 <= c < stored.len() ==> (#[trigger] stored[c]).wf()
    &&& forall|c: int| 0 <= c < MAX_CHUNK_NUM ==> #[trigger] bpn.count(c) == stored_used(stored, c).len()
    &&& forall|c: int| 0 <= c < MAX_CHUNK_NUM && #[trigger] bpn.count(c) > 0 ==> marks_bitmap_pages(stored, c)
}

/// Chunk `c` has a stored bitmap that marks its own bitmap pages in use.
pub open spec fn marks_bitmap_pages(stored: Seq<page_bitmap_s>, c: int) -> bool {
    &&& 0 <= c < stored.len()
    &&& forall|l: int| 0 <= l < PAGE_BITMAP_PAGES ==> #[trigger] stored[c].is_set(l)
}

/// The number of pages bitmap `b` marks in use.
fn popcount(b: &page_bitmap_s) -> (r: u64)
    requires
        b.wf(),
    ensures
        r == Set::new(|l: int| 0 <= l < PAGE_NUM_PER_CK && b.is_set(l)).len(),
{
    let mut i: u64 = 0;
    let mut n: u64 = 0;
    assert(Set::new(|l: int| 0 <= l < 0 && b.is_set(l)) =~= Set::<int>::empty());
    while i < PAGE_NUM_PER_CK
        invariant
            b.wf(),
            i <= PAGE_NUM_PER_CK,
            n <= i,
            Set::new(|l: int| 0 <= l < i && b.is_set(l)).finite(),
            n == Set::new(|l: int| 0 <= l < i && b.is_set(l)).len(),
        decreases PAGE_NUM_PER_CK - i,
    {
        let ghost s0 = Set::new(|l: int| 0 <= l < i && b.is_set(l));
        if b.isset(i) {
            n = n + 1;
            assert(Set::new(|l: int| 0 <= l < i + 1 && b.is_set(l)) =~= s0.insert(i as int));
        } else {
            assert(Set::new(|l: int| 0 <= l < i + 1 && b.is_set(l)) =~= s0);
        }
        i = i + 1;
    }
    n
}

/// Whether bitmap `b` marks its own bitmap pages in use.
fn reserved_set(b: &page_bitmap_s) -> (r: bool)
    requires
        b.wf(),
    ensures
        r == forall|l: int| 0 <= l < PAGE_BITMAP_PAGES ==> #[trigger] b.is_set(l),
{
    let mut i: u64 = 0;
    while i < PAGE_BITMAP_PAGES
        invariant
            b.wf(),
            i <= PAGE_BITMAP_PAGES,
            forall|l: int| 0 <= l < i ==> #[trigger] b.is_set(l),
        decreases PAGE_BITMAP_PAGES - i,
    {
        if !b.isset(i) {
            return false;
        }
        i = i + 1;
    }
    true
}

/// A chunk whose counter has reached the chunk capacity has every page in
/// use, and a chunk below it has a free page past its bitmap pages: filling a
/// chunk page by page uses each of its pages once before the allocator moves on.
pub proof fn law_chunk_fill(a: allocator_s, c: int)
    requires
        a.wf(),
        0 <= c < MAX_CHUNK_NUM,
    ensures
        a.count(c) >= PAGE_NUM_PER_CK ==> forall|l: int| 0 <= l < PAGE_NUM_PER_CK ==> #[trigger] a.bit(c, l),
        0 < a.count(c) < PAGE_NUM_PER_CK ==> exists|l: int| PAGE_BITMAP_PAGES <= l < PAGE_NUM_PER_CK
            && !#[trigger] a.bit(c, l),
{
    reveal(allocator_s::counts_wf);
    lemma_used_finite(&a, c);
    lemma_int_range(0, PAGE_NUM_PER_CK as int);
    if a.count(c) >= PAGE_NUM_PER_CK {
        lemma_subset_equality(a.used(c), set_int_range(0, PAGE_NUM_PER_CK as int));
        assert forall|l: int| 0 <= l < PAGE_NUM_PER_CK implies #[trigger] a.bit(c, l) by {
            assert(set_int_range(0, PAGE_NUM_PER_CK as int).contains(l));
            assert(a.used(c).contains(l));
        }
    }
    if 0 < a.count(c) < PAGE_NUM_PER_CK {
        if forall|l: int| PAGE_BITMAP_PAGES <= l < PAGE_NUM_PER_CK ==> #[trigger] a.bit(c, l) {
            assert forall|l: int| 0 <= l < PAGE_NUM_PER_CK implies #[trigger] a.bit(c, l) by {
                if l < PAGE_BITMAP_PAGES {
                    assert(a.bit(c, l));
                }
            }
            lemma_used_at_least(&a, c, PAGE_NUM_PER_CK as int);
        }
    }
}

} // verus!
