use vstd::prelude::*;
use std::collections::HashMap;
use crate::allocator::{allocator_s, busy_page_num_s, local_of, restorable, stored_used};
use crate::bitmap::page_bitmap_s;
use crate::cache::cache_s;
use crate::error::KvError;
use crate::layout::{GPID_NIL, MAX_CHUNK_NUM, PAGE_BITMAP_PAGES, PAGE_NUM_PER_CK, valid_gpid};
use crate::page::{page_s, zero_view, PageView, RECORD_NUM_PG};

verus! {

/// Magic tag of the file header: the bytes "kv@enmo", little-endian.
pub const KV_MAGIC: u64 = 0x006f_6d6e_6540_766b;

/// The file header.
pub struct file_header_s {
    pub magic: u64,
    pub file_size: u64,
    pub record_num: u64,
    pub total_pages: u64,
    pub spare_pages: u64,
    pub level: u32,
    pub root_gpid: u64,
}

impl file_header_s {
    /// A copy of the header.
    pub fn copy(&self) -> (r: file_header_s)
        ensures
            r == *self,
    {
        file_header_s {
            magic: self.magic,
            file_size: self.file_size,
            record_num: self.record_num,
            total_pages: self.total_pages,
            spare_pages: self.spare_pages,
            level: self.level,
            root_gpid: self.root_gpid,
        }
    }
}

/// The storage engine: the file header, the chunk allocator and the page
/// cache, over an ordered chain of leaf pages with index pages above them.
/// Leaf `i` of the chain covers the keys from its `low` to its `high`; the
/// leaves cover every key, in order. The index pages, from the root down,
/// route a search to a leaf.
pub struct kvdb_s {
    h: file_header_s,
    alc: allocator_s,
    ch: cache_s,
    /// The first leaf of the chain.
    first: u64,
    chain: Ghost<Seq<u64>>,
    model: Ghost<Map<u64, u64>>,
}

impl kvdb_s {
    /// The records: each key mapped to its value.
    pub closed spec fn view(&self) -> Map<u64, u64> {
        self.model@
    }

    /// The chunk allocator.
    pub closed spec fn alloc_state(&self) -> allocator_s {
        self.alc
    }

    /// The file header.
    pub closed spec fn hdr(&self) -> file_header_s {
        self.h
    }

    /// Same height, root, leaves and allocator as `other`.
    pub open spec fn same_shape(&self, other: kvdb_s) -> bool {
        &&& self.height() == other.height()
        &&& self.root() == other.root()
        &&& self.leaves() == other.leaves()
        &&& self.alloc_state() == other.alloc_state()
    }

    /// Height of the tree.
    pub closed spec fn height(&self) -> u32 {
        self.h.level
    }

    /// The leaf pages, in key order.
    pub closed spec fn leaves(&self) -> Seq<u64> {
        self.chain@
    }

    /// Root page of the tree.
    pub closed spec fn root(&self) -> u64 {
        self.h.root_gpid
    }

    pub closed spec fn magic_tag(&self) -> u64 {
        self.h.magic
    }

    /// The record count of the file header.
    pub closed spec fn records(&self) -> nat {
        self.h.record_num as nat
    }

    pub closed spec fn pg(&self, g: u64) -> PageView {
        self.ch.page(g)
    }

    /// Leaf `i` of the chain.
    pub closed spec fn leaf(&self, i: int) -> PageView {
        self.pg(self.chain@[i])
    }

    pub closed spec fn chain_wf(&self) -> bool {
        let c = self.chain@;
        &&& forall|i: int| 0 <= i < c.len() ==> (#[trigger] self.leaf(i)).leaf_wf()
        &&& forall|i: int| 0 <= i < c.len() ==> valid_gpid(#[trigger] c[i] as int)
            && local_of(c[i] as int) >= PAGE_BITMAP_PAGES
        &&& forall|i: int| 0 <= i < c.len() ==> self.alc.allocated(#[trigger] c[i] as int)
        &&& forall|i: int| 0 <= i < c.len() - 1 ==> (#[trigger] self.leaf(i)).next == c[i + 1]
        &&& forall|i: int| 0 <= i < c.len() - 1 ==> (#[trigger] self.leaf(i)).high + 1 == self.leaf(i + 1).low
        &&& forall|i: int, j: int| 0 <= i < j < c.len() ==> (#[trigger] self.leaf(i)).high < (#[trigger] self.leaf(j)).low
        &&& c.len() > 0 ==> self.leaf(0).low == 0
        &&& c.len() > 0 ==> self.leaf(c.len() - 1).high == 0xffff_ffff_ffff_ffff
        &&& c.len() > 0 ==> self.leaf(c.len() - 1).next == GPID_NIL
    }

    /// Every leaf page is in the chain.
    #[verifier::opaque]
    pub closed spec fn index_wf(&self) -> bool {
        forall|g: u64| #[trigger] self.pg(g).leaf ==> exists|i: int| 0 <= i < self.chain@.len()
            && self.chain@[i] == g
    }

    #[verifier::opaque]
    pub closed spec fn model_wf(&self) -> bool {
        let c = self.chain@;
        &&& forall|k: u64| #[trigger] self.model@.contains_key(k) <==> exists|i: int| 0 <= i < c.len()
            && (#[trigger] self.leaf(i)).has_key(k)
        &&& forall|i: int, j: int| 0 <= i < c.len() && 0 <= j < self.leaf(i).keys.len() ==>
            self.model@[#[trigger] self.leaf(i).keys[j]] == self.leaf(i).vals[j]
    }

    pub closed spec fn wf(&self) -> bool {
        &&& self.ch.wf()
        &&& self.ch.no_pins()
        &&& self.alc.wf()
        &&& self.alc.is_open()
        &&& (self.h.level == 0 <==> self.chain@.len() == 0)
        &&& self.h.level == 0 ==> self.h.root_gpid == GPID_NIL
        &&& self.h.level != 0 ==> self.first == self.chain@[0] && valid_gpid(self.h.root_gpid as int)
        &&& self.chain_wf()
        &&& self.index_wf()
        &&& self.model_wf()
        &&& self.model@.dom().finite()
        &&& self.h.record_num == self.model@.len()
    }

    /// An empty engine over a new file.
    pub fn create() -> (r: kvdb_s)
        ensures
            r.wf(),
            r@ == Map::<u64, u64>::empty(),
            r.records() == 0,
            r.height() == 0,
            r.root() == GPID_NIL,
            r.magic_tag() == KV_MAGIC,
            !r.alloc_full(),
            forall|c: int| c != 0 ==> #[trigger] r.alloc_state().count(c) == 0,
            r.hdr() == (file_header_s {
                magic: KV_MAGIC,
                file_size: 0,
                record_num: 0,
                total_pages: 0,
                spare_pages: 0,
                level: 0,
                root_gpid: GPID_NIL,
            }),
    {
        proof {
            reveal(kvdb_s::model_wf);
        }
        let bpn = busy_page_num_s { n: Vec::new() };
        let stored: Vec<page_bitmap_s> = Vec::new();
        let ghost b = bpn;
        let ghost st = stored@;
        proof {
            assert forall|c: int| 0 <= c < MAX_CHUNK_NUM implies #[trigger] b.count(c)
                == stored_used(st, c).len() by {
                assert(stored_used(st, c) =~= Set::<int>::empty());
            }
            assert(restorable(b, st));
        }
        let alc = match allocator_s::init(bpn, stored) {
            Ok(a) => {
                proof {
                    if a.curr_ck > 0 {
                        assert(b.count(0) >= PAGE_NUM_PER_CK);
                    }
                    assert forall|c: int| c != 0 implies #[trigger] a.count(c) == 0 by {
                        assert(a.count(c) == b.count(c));
                    }
                }
                a
            },
            Err(_) => {
                assert(false) by {
                    assert(b.count(1) == 0);
                }
                allocator_s::empty()
            },
        };
        let h = file_header_s {
            magic: KV_MAGIC,
            file_size: 0,
            record_num: 0,
            total_pages: 0,
            spare_pages: 0,
            level: 0,
            root_gpid: GPID_NIL,
        };
        let r = kvdb_s {
            h,
            alc,
            ch: cache_s::new(),
            first: GPID_NIL,
            chain: Ghost(Seq::empty()),
            model: Ghost(Map::empty()),
        };
        proof {
            reveal(kvdb_s::index_wf);
        }
        r
    }

    /// Page `g` through the cache. The engine holds no page between calls, so
    /// the cache always has room.
    fn read_page(&mut self, g: u64) -> (r: page_s)
        requires
            old(self).wf(),
        ensures
            final(self).wf(),
            r@ == old(self).pg(g),
            final(self).h == old(self).h,
            final(self).alc == old(self).alc,
            final(self).chain == old(self).chain,
            final(self).model == old(self).model,
            final(self).first == old(self).first,
            forall|x: u64| #[trigger] final(self).pg(x) == old(self).pg(x),
    {
        proof {
            reveal(kvdb_s::model_wf);
        }
        let r = self.ch.get_page(g);
        proof {
            assert forall|x: u64| !#[trigger] self.ch.pinned(x) by {
                assert(!old(self).ch.pinned(x));
            }
            assert forall|i: int| #[trigger] self.leaf(i) == old(self).leaf(i) by {
                assert(self.ch.page(self.chain@[i]) == old(self).ch.page(self.chain@[i]));
            }
            let c = self.chain@;
            assert forall|i: int, j: int| 0 <= i < j < c.len() implies (#[trigger] self.leaf(i)).high
                < (#[trigger] self.leaf(j)).low by {
                assert(old(self).leaf(i).high < old(self).leaf(j).low);
            }
            assert forall|i: int| 0 <= i < c.len() - 1 implies (#[trigger] self.leaf(i)).high + 1
                == self.leaf(i + 1).low by {
                assert(old(self).leaf(i).high + 1 == old(self).leaf(i + 1).low);
            }
            assert(self.chain_wf());
            assert forall|k: u64| #[trigger] self.model@.contains_key(k) <==> exists|i: int| 0 <= i < c.len()
                && (#[trigger] self.leaf(i)).has_key(k) by {
                if self.model@.contains_key(k) {
                    let i = choose|i: int| 0 <= i < c.len() && (#[trigger] old(self).leaf(i)).has_key(k);
                    assert(self.leaf(i).has_key(k));
                }
            }
            assert forall|i: int, j: int| 0 <= i < c.len() && 0 <= j < self.leaf(i).keys.len() implies
                self.model@[#[trigger] self.leaf(i).keys[j]] == self.leaf(i).vals[j] by {
                assert(old(self).model@[old(self).leaf(i).keys[j]] == old(self).leaf(i).vals[j]);
            }
            assert(self.model_wf());
            reveal(kvdb_s::index_wf);
            assert forall|g: u64| #[trigger] self.pg(g).leaf implies exists|i: int| 0 <= i < self.chain@.len()
                && self.chain@[i] == g by {
                assert(old(self).pg(g).leaf);
            }
        }
        match r {
            Ok(p) => p,
            Err(_) => {
                proof {
                    assert(false);
                }
                page_s::zero()
            },
        }
    }

    /// The leaf of the chain whose bounds hold `k`, with its position, found by
    /// walking the chain from its first leaf.
    fn walk_leaves(&mut self, k: u64) -> (r: (u64, page_s, Ghost<int>))
        requires
            old(self).wf(),
            old(self).h.level != 0,
        ensures
            final(self).wf(),
            final(self).h == old(self).h,
            final(self).alc == old(self).alc,
            final(self).chain == old(self).chain,
            final(self).model == old(self).model,
            final(self).first == old(self).first,
            forall|x: u64| #[trigger] final(self).pg(x) == old(self).pg(x),
            0 <= r.2@ < old(self).chain@.len(),
            r.0 == old(self).chain@[r.2@],
            r.1@ == old(self).leaf(r.2@),
            old(self).leaf(r.2@).low <= k <= old(self).leaf(r.2@).high,
    {
        let mut cur = self.first;
        let ghost mut i: int = 0;
        let mut p = self.read_page(cur);
        assert(self.leaf(0) == self.pg(cur));
        while p.high < k
            invariant
                self.wf(),
                self.h == old(self).h,
                self.alc == old(self).alc,
                self.chain == old(self).chain,
                self.model == old(self).model,
                self.first == old(self).first,
                forall|x: u64| #[trigger] self.pg(x) == old(self).pg(x),
                0 <= i < self.chain@.len(),
                cur == self.chain@[i],
                p@ == self.leaf(i),
                self.leaf(i).low <= k,
            decreases self.chain@.len() - i,
        {
            proof {
                assert(i < self.chain@.len() - 1);
                assert(self.leaf(i).high + 1 == self.leaf(i + 1).low);
            }
            cur = p.next;
            proof {
                assert(cur == self.chain@[i + 1]);
                i = i + 1;
            }
            p = self.read_page(cur);
            proof {
                assert(p@ == self.pg(cur));
            }
        }
        (cur, p, Ghost(i))
    }

    /// Goes down the index pages from the root towards key `k`: the index
    /// pages passed, and the page reached.
    fn descend(&mut self, k: u64) -> (r: (Vec<u64>, u64))
        requires
            old(self).wf(),
        ensures
            final(self).wf(),
            final(self).h == old(self).h,
            final(self).alc == old(self).alc,
            final(self).chain == old(self).chain,
            final(self).model == old(self).model,
            final(self).first == old(self).first,
            forall|x: u64| #[trigger] final(self).pg(x) == old(self).pg(x),
            r.0@.len() <= old(self).h.level,
    {
        let mut path: Vec<u64> = Vec::new();
        let mut g = self.h.root_gpid;
        let mut depth: u32 = 0;
        let mut stop = false;
        while depth < self.h.level && !stop
            invariant
                self.wf(),
                self.h == old(self).h,
                self.alc == old(self).alc,
                self.chain == old(self).chain,
                self.model == old(self).model,
                self.first == old(self).first,
                forall|x: u64| #[trigger] self.pg(x) == old(self).pg(x),
                path@.len() == depth,
                depth <= self.h.level,
            decreases self.h.level - depth + if stop { 0int } else { 1int },
        {
            let p = self.read_page(g);
            if p.leaf || p.keys.len() == 0 || p.keys.len() != p.vals.len() {
                stop = true;
            } else {
                let mut i: usize = 0;
                let last = p.keys.len() - 1;
                while i < last && p.keys[i + 1] <= k
                    invariant
                        last + 1 == p.keys@.len(),
                        i <= last,
                    decreases p.keys@.len() - i,
                {
                    i = i + 1;
                }
                path.push(g);
                g = p.vals[i];
                depth = depth + 1;
            }
        }
        (path, g)
    }

    /// The leaf of the chain whose bounds hold `k`, with its position, and the
    /// index pages passed on the way down. The index pages only guide the
    /// search: a page reached through them is taken when it is a leaf whose
    /// bounds hold `k`, and otherwise the chain is walked.
    fn find_leaf(&mut self, k: u64) -> (r: (u64, page_s, Ghost<int>, Vec<u64>))
        requires
            old(self).wf(),
            old(self).h.level != 0,
        ensures
            final(self).wf(),
            final(self).h == old(self).h,
            final(self).alc == old(self).alc,
            final(self).chain == old(self).chain,
            final(self).model == old(self).model,
            final(self).first == old(self).first,
            forall|x: u64| #[trigger] final(self).pg(x) == old(self).pg(x),
            0 <= r.2@ < old(self).chain@.len(),
            r.0 == old(self).chain@[r.2@],
            r.1@ == old(self).leaf(r.2@),
            old(self).leaf(r.2@).low <= k <= old(self).leaf(r.2@).high,
            r.3@.len() <= old(self).h.level,
    {
        let (path, cand) = self.descend(k);
        let p = self.read_page(cand);
        if p.leaf && p.low <= k && k <= p.high {
            proof {
                reveal(kvdb_s::index_wf);
                assert(self.pg(cand).leaf);
            }
            let ghost i = choose|i: int| 0 <= i < self.chain@.len() && self.chain@[i] == cand;
            proof {
                assert(self.leaf(i) == self.pg(cand));
            }
            return (cand, p, Ghost(i), path);
        }
        let (g, q, idx) = self.walk_leaves(k);
        (g, q, idx, path)
    }

    /// A page id that is not in use holds no leaf.
    proof fn lemma_fresh_not_leaf(&self, g: u64)
        requires
            self.wf(),
            !self.alc.allocated(g as int),
        ensures
            !self.pg(g).leaf,
    {
        reveal(kvdb_s::index_wf);
        if self.pg(g).leaf {
            let i = choose|i: int| 0 <= i < self.chain@.len() && self.chain@[i] == g;
            assert(self.alc.allocated(self.chain@[i] as int));
        }
    }

    /// Writes index page `g`, which holds no leaf.
    fn write_index_page(&mut self, g: u64, p: page_s)
        requires
            old(self).wf(),
            !old(self).pg(g).leaf,
            !p.leaf,
        ensures
            final(self).wf(),
            final(self).h == old(self).h,
            final(self).alc == old(self).alc,
            final(self).chain == old(self).chain,
            final(self).model == old(self).model,
            final(self).first == old(self).first,
            final(self).pg(g) == p@,
            forall|x: u64| x != g ==> #[trigger] final(self).pg(x) == old(self).pg(x),
    {
        self.write_page(g, p);
        proof {
            reveal(kvdb_s::model_wf);
            reveal(kvdb_s::index_wf);
            let c = self.chain@;
            assert forall|i: int| 0 <= i < c.len() implies #[trigger] self.leaf(i) == old(self).leaf(i) by {
                assert(old(self).leaf(i).leaf_wf());
                assert(c[i] != g);
            }
            assert forall|i: int, j: int| 0 <= i < j < c.len() implies (#[trigger] self.leaf(i)).high
                < (#[trigger] self.leaf(j)).low by {
                assert(old(self).leaf(i).high < old(self).leaf(j).low);
            }
            assert forall|i: int| 0 <= i < c.len() - 1 implies (#[trigger] self.leaf(i)).high + 1
                == self.leaf(i + 1).low by {
                assert(old(self).leaf(i).high + 1 == old(self).leaf(i + 1).low);
            }
            assert forall|i: int| 0 <= i < c.len() - 1 implies (#[trigger] self.leaf(i)).next == c[i + 1] by {
                assert(old(self).leaf(i).next == c[i + 1]);
            }
            assert forall|i: int| 0 <= i < c.len() implies (#[trigger] self.leaf(i)).leaf_wf() by {
                assert(old(self).leaf(i).leaf_wf());
            }
            if c.len() > 0 {
                assert(self.leaf(0) == old(self).leaf(0));
                assert(self.leaf(c.len() - 1) == old(self).leaf(c.len() - 1));
            }
            assert(self.chain_wf());
            assert forall|k: u64| #[trigger] self.model@.contains_key(k) <==> exists|i: int| 0 <= i < c.len()
                && (#[trigger] self.leaf(i)).has_key(k) by {
                if self.model@.contains_key(k) {
                    let i = choose|i: int| 0 <= i < c.len() && (#[trigger] old(self).leaf(i)).has_key(k);
                    assert(self.leaf(i).has_key(k));
                }
                if exists|i: int| 0 <= i < c.len() && (#[trigger] self.leaf(i)).has_key(k) {
                    let i = choose|i: int| 0 <= i < c.len() && (#[trigger] self.leaf(i)).has_key(k);
                    assert(old(self).leaf(i).has_key(k));
                }
            }
            assert forall|i: int, j: int| 0 <= i < c.len() && 0 <= j < self.leaf(i).keys.len() implies
                self.model@[#[trigger] self.leaf(i).keys[j]] == self.leaf(i).vals[j] by {
                assert(old(self).model@[old(self).leaf(i).keys[j]] == old(self).leaf(i).vals[j]);
            }
            assert(self.model_wf());
            assert forall|x: u64| #[trigger] self.pg(x).leaf implies exists|i: int| 0 <= i < c.len()
                && c[i] == x by {
                assert(old(self).pg(x).leaf);
            }
        }
    }

    /// Records in the index that the keys from `sep` up now live under page
    /// `right`, next to page `left`: the separator goes into the index page
    /// above, which splits in turn when full; when the root splits, a new root
    /// is made and the tree grows by one level. When no page is left for the
    /// index, it stays as it is: it only guides the search.
    fn add_to_index(&mut self, path: Vec<u64>, left: u64, sep: u64, right: u64)
        requires
            old(self).wf(),
            old(self).h.level != 0,
        ensures
            final(self).wf(),
            final(self).model == old(self).model,
            final(self).chain == old(self).chain,
            final(self).first == old(self).first,
            final(self).h.record_num == old(self).h.record_num,
            old(self).h.level <= final(self).h.level <= old(self).h.level + 1,
            final(self).h.root_gpid != old(self).h.root_gpid ==> {
                &&& final(self).h.level == old(self).h.level + 1
                &&& !old(self).alc.allocated(final(self).h.root_gpid as int)
                &&& final(self).alc.allocated(final(self).h.root_gpid as int)
                &&& local_of(final(self).h.root_gpid as int) >= PAGE_BITMAP_PAGES
                &&& !final(self).pg(final(self).h.root_gpid).leaf
                &&& final(self).pg(final(self).h.root_gpid).next == GPID_NIL
                &&& final(self).pg(final(self).h.root_gpid).keys.len() == 2
                &&& final(self).pg(final(self).h.root_gpid).keys[0] == 0
                &&& final(self).pg(final(self).h.root_gpid).vals.len() == 2
            },
            forall|c: int| #[trigger] final(self).alc.count(c) <= old(self).alc.count(c) + 17 * (path@.len() + 1),
    {
        let mut depth = path.len();
        let mut left = left;
        let mut sep = sep;
        let mut right = right;
        while depth > 0
            invariant
                self.wf(),
                self.model == old(self).model,
                self.chain == old(self).chain,
                self.first == old(self).first,
                self.h.record_num == old(self).h.record_num,
                self.h.level == old(self).h.level,
                self.h.root_gpid == old(self).h.root_gpid,
                self.h.level != 0,
                depth <= path@.len(),
                forall|c: int| #[trigger] self.alc.count(c) <= old(self).alc.count(c) + 17 * (path@.len() - depth),
                forall|x: int| 0 <= x ==> #[trigger] old(self).alc.allocated(x) ==> self.alc.allocated(x),
            decreases depth,
        {
            depth = depth - 1;
            let id = path[depth];
            let mut node = self.read_page(id);
            if node.leaf || node.keys.len() != node.vals.len() {
                return;
            }
            assert(!self.pg(id).leaf);
            let mut pos: usize = 0;
            while pos < node.keys.len() && node.keys[pos] <= sep
                invariant
                    pos <= node.keys@.len(),
                decreases node.keys@.len() - pos,
            {
                pos = pos + 1;
            }
            node.keys.insert(pos, sep);
            node.vals.insert(pos, right);
            if node.keys.len() as u64 <= RECORD_NUM_PG {
                self.write_index_page(id, node);
                return;
            }
            let ghost a = *self;
            let nn = match self.alc.alloc_page() {
                Ok(x) => x,
                Err(_) => {
                    proof {
                        kvdb_s::lemma_reframe(&a, self);
                    }
                    return;
                },
            };
            proof {
                a.lemma_fresh_not_leaf(nn);
                kvdb_s::lemma_reframe(&a, self);
                assert(self.pg(nn) == a.pg(nn));
                assert(self.pg(id) == a.pg(id));
            }
            let mid = node.keys.len() / 2;
            let rkeys = node.keys.split_off(mid);
            let rvals = node.vals.split_off(mid);
            let nsep = rkeys[0];
            let rnode = page_s { leaf: false, next: GPID_NIL, low: nsep, high: node.high, keys: rkeys, vals: rvals };
            self.write_index_page(id, node);
            self.write_index_page(nn, rnode);
            left = id;
            sep = nsep;
            right = nn;
        }
        if path.len() as u64 != self.h.level as u64 - 1 || self.h.level == 0xffff_ffff {
            return;
        }
        let ghost a = *self;
        let nr = match self.alc.alloc_page() {
            Ok(x) => x,
            Err(_) => {
                proof {
                    kvdb_s::lemma_reframe(&a, self);
                }
                return;
            },
        };
        proof {
            a.lemma_fresh_not_leaf(nr);
            kvdb_s::lemma_reframe(&a, self);
            assert(self.pg(nr) == a.pg(nr));
            assert(!old(self).alc.allocated(nr as int));
        }
        let mut keys: Vec<u64> = Vec::new();
        keys.push(0);
        keys.push(sep);
        let mut vals: Vec<u64> = Vec::new();
        vals.push(left);
        vals.push(right);
        let root = page_s { leaf: false, next: GPID_NIL, low: 0, high: 0xffff_ffff_ffff_ffff, keys, vals };
        self.write_index_page(nr, root);
        let ghost b = *self;
        self.h.root_gpid = nr;
        self.h.level = self.h.level + 1;
        proof {
            kvdb_s::lemma_reframe(&b, self);
        }
    }

    proof fn lemma_only_leaf(&self, idx: int, k: u64)
        requires
            self.wf(),
            0 <= idx < self.chain@.len(),
            self.leaf(idx).low <= k <= self.leaf(idx).high,
        ensures
            self.model@.contains_key(k) <==> self.leaf(idx).has_key(k),
    {
        reveal(kvdb_s::model_wf);
        if self.model@.contains_key(k) {
            let i = choose|i: int| 0 <= i < self.chain@.len() && (#[trigger] self.leaf(i)).has_key(k);
            let j = choose|j: int| 0 <= j < self.leaf(i).keys.len() && self.leaf(i).keys[j] == k;
            assert(self.leaf(i).low <= self.leaf(i).keys[j] <= self.leaf(i).high);
            if i < idx {
                assert(self.leaf(i).high < self.leaf(idx).low);
            } else if i > idx {
                assert(self.leaf(idx).high < self.leaf(i).low);
            }
        }
    }

    /// The value recorded under key `k`, if any.
    pub fn get(&mut self, k: u64) -> (r: Option<u64>)
        requires
            old(self).wf(),
        ensures
            final(self).same_shape(*old(self)),
            final(self).wf(),
            final(self)@ == old(self)@,
            final(self).records() == old(self).records(),
            r == lookup(old(self)@, k),
    {
        proof {
            reveal(kvdb_s::model_wf);
        }
        if self.h.level == 0 {
            return None;
        }
        let (_g, p, idx, _path) = self.find_leaf(k);
        let (pos, found) = p.search(k);
        proof {
            self.lemma_only_leaf(idx@, k);
        }
        if found {
            proof {
                assert(self.model@[self.leaf(idx@).keys[pos as int]] == self.leaf(idx@).vals[pos as int]);
            }
            Some(p.vals[pos])
        } else {
            None
        }
    }

    /// Writes page `g` through the cache.
    fn write_page(&mut self, g: u64, p: page_s)
        requires
            old(self).ch.wf(),
            old(self).ch.no_pins(),
        ensures
            final(self).ch.wf(),
            final(self).ch.no_pins(),
            final(self).pg(g) == p@,
            forall|x: u64| x != g ==> #[trigger] final(self).pg(x) == old(self).pg(x),
            final(self).h == old(self).h,
            final(self).alc == old(self).alc,
            final(self).chain == old(self).chain,
            final(self).model == old(self).model,
            final(self).first == old(self).first,
    {
        let _ = self.ch.put_page(g, p);
        assert forall|x: u64| !#[trigger] self.ch.pinned(x) by {
            assert(!old(self).ch.pinned(x));
        }
    }

    proof fn lemma_chain_distinct(&self, i: int, j: int)
        requires
            self.wf(),
            0 <= i < self.chain@.len(),
            0 <= j < self.chain@.len(),
            i != j,
        ensures
            self.chain@[i] != self.chain@[j],
    {
        if i < j {
            assert(self.leaf(i).high < self.leaf(j).low);
        } else {
            assert(self.leaf(j).high < self.leaf(i).low);
        }
    }

    /// When leaf `idx` alone changes, within its bounds, and the records follow
    /// it, the engine stays well formed.
    proof fn lemma_leaf_update(a: &kvdb_s, b: &kvdb_s, idx: int, k: u64)
        requires
            b.first == a.first,
            b.model@.dom().finite(),
            b.h.record_num == b.model@.len(),
            a.wf(),
            b.ch.wf(),
            b.ch.no_pins(),
            b.alc.wf(),
            b.alc.is_open(),
            forall|x: int| 0 <= x ==> #[trigger] a.alc.allocated(x) ==> b.alc.allocated(x),
            b.h.level == a.h.level,
            b.h.root_gpid == a.h.root_gpid,
            b.chain == a.chain,
            0 <= idx < a.chain@.len(),
            a.leaf(idx).low <= k <= a.leaf(idx).high,
            forall|x: u64| x != a.chain@[idx] ==> #[trigger] b.pg(x) == a.pg(x),
            b.leaf(idx).leaf_wf(),
            b.leaf(idx).next == a.leaf(idx).next,
            b.leaf(idx).low == a.leaf(idx).low,
            b.leaf(idx).high == a.leaf(idx).high,
            forall|x: u64| x != k ==> (#[trigger] b.leaf(idx).has_key(x) == a.leaf(idx).has_key(x)),
            forall|x: u64| x != k ==> (#[trigger] b.model@.contains_key(x) == a.model@.contains_key(x)),
            forall|x: u64| x != k && a.model@.contains_key(x) ==> #[trigger] b.model@[x] == a.model@[x],
            b.model@.contains_key(k) == b.leaf(idx).has_key(k),
            forall|j: int| 0 <= j < b.leaf(idx).keys.len() ==> b.model@[#[trigger] b.leaf(idx).keys[j]]
                == b.leaf(idx).vals[j],
        ensures
            b.wf(),
    {
        reveal(kvdb_s::model_wf);
        let c = a.chain@;
        assert forall|i: int| 0 <= i < c.len() && i != idx implies #[trigger] b.leaf(i) == a.leaf(i) by {
            a.lemma_chain_distinct(i, idx);
        }
        assert forall|i: int, j: int| 0 <= i < j < c.len() implies (#[trigger] b.leaf(i)).high
            < (#[trigger] b.leaf(j)).low by {
            assert(a.leaf(i).high < a.leaf(j).low);
        }
        assert forall|i: int| 0 <= i < c.len() - 1 implies (#[trigger] b.leaf(i)).high + 1
            == b.leaf(i + 1).low by {
            assert(a.leaf(i).high + 1 == a.leaf(i + 1).low);
        }
        assert forall|i: int| 0 <= i < c.len() - 1 implies (#[trigger] b.leaf(i)).next == c[i + 1] by {
            assert(a.leaf(i).next == c[i + 1]);
        }
        assert forall|i: int| 0 <= i < c.len() implies (#[trigger] b.leaf(i)).leaf_wf() by {
            assert(a.leaf(i).leaf_wf());
        }
        assert forall|i: int| 0 <= i < c.len() implies b.alc.allocated(#[trigger] c[i] as int) by {
            assert(a.alc.allocated(c[i] as int));
        }
        assert(b.chain_wf());
        // a key within leaf i's bounds other than idx's is not k
        assert forall|i: int, x: u64| 0 <= i < c.len() && i != idx && #[trigger] a.leaf(i).has_key(x)
            implies x != k by {
            let j = choose|j: int| 0 <= j < a.leaf(i).keys.len() && a.leaf(i).keys[j] == x;
            assert(a.leaf(i).low <= a.leaf(i).keys[j] <= a.leaf(i).high);
            if i < idx {
                assert(a.leaf(i).high < a.leaf(idx).low);
            } else {
                assert(a.leaf(idx).high < a.leaf(i).low);
            }
        }
        assert forall|x: u64| #[trigger] b.model@.contains_key(x) <==> exists|i: int| 0 <= i < c.len()
            && (#[trigger] b.leaf(i)).has_key(x) by {
            if x == k {
                if exists|i: int| 0 <= i < c.len() && (#[trigger] b.leaf(i)).has_key(x) {
                    let i = choose|i: int| 0 <= i < c.len() && (#[trigger] b.leaf(i)).has_key(x);
                    if i != idx {
                        assert(a.leaf(i).has_key(x));
                    }
                }
                if b.model@.contains_key(x) {
                    assert(b.leaf(idx).has_key(x));
                }
            } else {
                if a.model@.contains_key(x) {
                    let i = choose|i: int| 0 <= i < c.len() && (#[trigger] a.leaf(i)).has_key(x);
                    assert(b.leaf(i).has_key(x));
                }
                if exists|i: int| 0 <= i < c.len() && (#[trigger] b.leaf(i)).has_key(x) {
                    let i = choose|i: int| 0 <= i < c.len() && (#[trigger] b.leaf(i)).has_key(x);
                    assert(a.leaf(i).has_key(x));
                }
            }
        }
        assert forall|i: int, j: int| 0 <= i < c.len() && 0 <= j < b.leaf(i).keys.len() implies
            b.model@[#[trigger] b.leaf(i).keys[j]] == b.leaf(i).vals[j] by {
            if i != idx {
                let x = a.leaf(i).keys[j];
                assert(a.leaf(i).has_key(x));
                assert(a.model@[x] == a.leaf(i).vals[j]);
                assert(a.model@.contains_key(x));
            }
        }
        assert(b.model_wf());
        reveal(kvdb_s::index_wf);
        assert forall|g: u64| #[trigger] b.pg(g).leaf implies exists|i: int| 0 <= i < c.len() && c[i] == g by {
            if g != c[idx] {
                assert(a.pg(g).leaf);
            }
        }
    }

    /// Creates the root: an empty leaf that covers every key.
    fn make_root(&mut self) -> (r: Result<(), KvError>)
        requires
            old(self).wf(),
            old(self).h.level == 0,
        ensures
            final(self).wf(),
            final(self)@ == old(self)@,
            final(self).records() == old(self).records(),
            r is Ok <==> !old(self).alloc_full(),
            r is Err ==> r == Err::<(), KvError>(KvError::AllocExhausted) && *final(self) == *old(self),
            forall|c: int| #[trigger] final(self).alc.count(c) <= old(self).alc.count(c) + 17,
            r is Ok ==> {
                &&& final(self).h.level == 1
                &&& !old(self).alc.allocated(final(self).h.root_gpid as int)
                &&& final(self).alc.allocated(final(self).h.root_gpid as int)
                &&& local_of(final(self).h.root_gpid as int) >= PAGE_BITMAP_PAGES
                &&& final(self).chain@.len() == 1
                &&& final(self).h.root_gpid == final(self).chain@[0]
                &&& final(self).leaf(0) == (PageView {
                    leaf: true,
                    next: GPID_NIL,
                    low: 0,
                    high: 0xffff_ffff_ffff_ffff,
                    keys: Seq::empty(),
                    vals: Seq::empty(),
                })
            },
    {
        proof {
            reveal(kvdb_s::model_wf);
        }
        let ghost a = *self;
        let g = match self.alc.alloc_page() {
            Ok(g) => g,
            Err(e) => {
                return Err(e);
            },
        };
        let p = page_s::new_leaf(0, 0xffff_ffff_ffff_ffff, GPID_NIL);
        self.h.root_gpid = g;
        self.h.level = 1;
        self.first = g;
        self.chain = Ghost(Seq::empty().push(g));
        let ghost s1 = *self;
        self.write_page(g, p);
        proof {
            reveal(kvdb_s::index_wf);
            assert forall|x: u64| #[trigger] self.pg(x).leaf implies exists|i: int| 0 <= i < self.chain@.len()
                && self.chain@[i] == x by {
                if x != g {
                    assert(s1.pg(x) == a.pg(x));
                    assert(a.pg(x).leaf);
                } else {
                    assert(self.chain@[0] == x);
                }
            }
            assert(self.leaf(0) == self.pg(g));
            assert forall|x: u64| #[trigger] self.model@.contains_key(x) <==> exists|i: int| 0 <= i < 1
                && (#[trigger] self.leaf(i)).has_key(x) by {
                if self.model@.contains_key(x) {
                    assert(old(self).model@.contains_key(x));
                }
            }
        }
        Ok(())
    }

    /// Whether every chunk of the file is full.
    pub open spec fn alloc_full(&self) -> bool {
        self.alloc_state().all_full()
    }

    /// Records `v` under key `k`: replaces the value of an existing record, or
    /// inserts a record and counts it. A full leaf is split in two at its
    /// median key first, on a newly allocated page.
    pub fn put(&mut self, k: u64, v: u64) -> (r: Result<(), KvError>)
        requires
            old(self).wf(),
        ensures
            final(self).wf(),
            r is Ok ==> final(self)@ == old(self)@.insert(k, v),
            r is Ok ==> final(self).records() == old(self).records() + if old(self)@.contains_key(k) {
                0int
            } else {
                1int
            },
            r is Ok ==> final(self).height() >= 1 && final(self).root() != GPID_NIL,
            r is Ok ==> old(self).height() <= final(self).height() <= old(self).height() + 1,
            r is Ok && final(self).root() != old(self).root() ==> final(self).height() == old(self).height() + 1,
            r is Ok && old(self).height() == 0 ==> {
                &&& final(self).height() == 1
                &&& final(self).leaves().len() == 1
                &&& final(self).root() == final(self).leaves()[0]
                &&& final(self).leaf(0) == (PageView {
                    leaf: true,
                    next: GPID_NIL,
                    low: 0,
                    high: 0xffff_ffff_ffff_ffff,
                    keys: seq![k],
                    vals: seq![v],
                })
            },
            r is Err ==> final(self)@ == old(self)@ && final(self).records() == old(self).records(),
            r == Err::<(), KvError>(KvError::AllocExhausted) ==> old(self).alloc_full()
                && final(self).alloc_full(),
            r == Err::<(), KvError>(KvError::Corrupt) <==> (!old(self)@.contains_key(k)
                && old(self).records() == 0xffff_ffff_ffff_ffff),
            r is Ok || r == Err::<(), KvError>(KvError::AllocExhausted)
                || r == Err::<(), KvError>(KvError::Corrupt),
            old(self)@.contains_key(k) ==> r is Ok,
            forall|c: int| #[trigger] final(self).alloc_state().count(c) <= old(self).alloc_state().count(c)
                + 17 * (old(self).height() + 2),
            !old(self).alloc_full() && (old(self)@.contains_key(k) || old(self).records()
                < 0xffff_ffff_ffff_ffff) ==> r is Ok,
    {
        proof {
            reveal(kvdb_s::model_wf);
            if self.h.level == 0 {
                assert(self.model@ =~= Map::<u64, u64>::empty());
            }
        }
        if self.h.level == 0 {
            let m = self.make_root();
            if m.is_err() {
                return m;
            }
        }
        let ghost a = *self;
        let (g, mut p, idx, path) = self.find_leaf(k);
        let ghost a2 = *self;
        let (_pos, found) = p.search(k);
        proof {
            a2.lemma_only_leaf(idx@, k);
        }
        if !found && self.h.record_num == 0xffff_ffff_ffff_ffff {
            return Err(KvError::Corrupt);
        }
        if found || p.record_num() < RECORD_NUM_PG as usize {
            let ghost pre = p@;
            let inserted = p.insert_record(k, v);
            let ghost post = p@;
            if inserted {
                self.h.record_num = self.h.record_num + 1;
            }
            self.model = Ghost(self.model@.insert(k, v));
            self.write_page(g, p);
            proof {
                assert(self.leaf(idx@) == post);
                if old(self).h.level == 0 {
                    assert(a2.chain@.len() == 1);
                    assert(idx@ == 0);
                    assert(pre.keys.len() == 0);
                    assert(post.keys.len() == 1);
                    assert(post.has_key(k));
                    assert(post.keys[0] == k);
                    assert(post.keys =~= seq![k]);
                    assert(post.vals =~= seq![v]);
                }
                assert forall|j: int| 0 <= j < pre.keys.len() implies a2.model@[#[trigger] pre.keys[j]]
                    == pre.vals[j] by {
                    assert(a2.model@[a2.leaf(idx@).keys[j]] == a2.leaf(idx@).vals[j]);
                }
                lemma_insert_vals(pre, post, a2.model@, k, v);
                assert forall|x: u64| x != a2.chain@[idx@] implies #[trigger] self.pg(x) == a2.pg(x) by {}
                kvdb_s::lemma_leaf_update(&a2, self, idx@, k);
                assert(valid_gpid(self.chain@[0] as int));
            }
            Ok(())
        } else {
            proof {
                if old(self).h.level == 0 {
                    assert(a2.model@.contains_key(a2.leaf(idx@).keys[0]));
                }
                assert(a2.alc == old(self).alc);
            }
            match self.split_insert(g, p, idx, k, v) {
                Ok((sep, ng)) => {
                    self.add_to_index(path, g, sep, ng);
                    Ok(())
                },
                Err(e) => Err(e),
            }
        }
    }

    /// How the leaves after a split of leaf `idx` relate to those before.
    #[verifier::rlimit(100)]
    proof fn lemma_split_map(a: &kvdb_s, b: &kvdb_s, idx: int, ng: u64, k: u64)
        requires
            a.chain_wf(),
            forall|x: int| 0 <= x ==> #[trigger] a.alc.allocated(x) ==> b.alc.allocated(x),
            b.alc.allocated(ng as int),
            !a.alc.allocated(ng as int),
            valid_gpid(ng as int),
            b.h.level == a.h.level,
            b.h.root_gpid == a.h.root_gpid,
            0 <= idx < a.chain@.len(),
            b.chain@ == a.chain@.insert(idx + 1, ng),
            forall|x: u64| x != a.chain@[idx] && x != ng ==> #[trigger] b.pg(x) == a.pg(x),
            b.leaf(idx).leaf_wf(),
            b.leaf(idx + 1).leaf_wf(),
            b.leaf(idx).low == a.leaf(idx).low,
            b.leaf(idx + 1).high == a.leaf(idx).high,
            b.leaf(idx).high + 1 == b.leaf(idx + 1).low,
            b.leaf(idx).next == ng,
            b.leaf(idx + 1).next == a.leaf(idx).next,
            a.leaf(idx).low <= k <= a.leaf(idx).high,
        ensures
            forall|i: int| 0 <= i < a.chain@.len() ==> #[trigger] a.chain@[i] != ng,
            forall|i: int| 0 <= i < b.chain@.len() && i != idx && i != idx + 1 ==>
                #[trigger] b.leaf(i) == a.leaf(if i < idx { i } else { i - 1 }),
            forall|i: int| 0 <= i < b.chain@.len() ==> (#[trigger] b.leaf(i)).high
                <= a.leaf(if i <= idx { i } else { i - 1 }).high && b.leaf(i).low
                >= a.leaf(if i <= idx { i } else { i - 1 }).low,
    {
        let c = a.chain@;
        let c2 = b.chain@;
        assert(b.chain@[idx] == c[idx]);
        assert(b.chain@[idx + 1] == ng);
        assert forall|i: int| 0 <= i < c.len() implies #[trigger] c[i] != ng by {
            assert(a.alc.allocated(c[i] as int));
        }
        assert forall|i: int| 0 <= i < c2.len() && i != idx && i != idx + 1 implies
            #[trigger] b.leaf(i) == a.leaf(if i < idx { i } else { i - 1 }) by {
            let oi = if i < idx { i } else { i - 1 };
            assert(c2[i] == c[oi]);
            if oi < idx {
                assert(a.leaf(oi).high < a.leaf(idx).low);
            } else {
                assert(a.leaf(idx).high < a.leaf(oi).low);
            }
        }
        assert forall|i: int| 0 <= i < c2.len() implies (#[trigger] b.leaf(i)).high
            <= a.leaf(if i <= idx { i } else { i - 1 }).high && b.leaf(i).low >= a.leaf(if i <= idx { i } else { i - 1 }).low by {
            if i == idx {
                assert(b.leaf(idx).high < b.leaf(idx + 1).low);
            }
            if i == idx + 1 {
                assert(b.leaf(idx).low <= b.leaf(idx).high);
            }
        }
    }

    /// The page ids of the chain after a split are valid, past the bitmap
    /// pages and in use.
    proof fn lemma_split_ids(a: &kvdb_s, b: &kvdb_s, idx: int, ng: u64)
        requires
            a.chain_wf(),
            forall|x: int| 0 <= x ==> #[trigger] a.alc.allocated(x) ==> b.alc.allocated(x),
            b.alc.allocated(ng as int),
            valid_gpid(ng as int),
            local_of(ng as int) >= PAGE_BITMAP_PAGES,
            0 <= idx < a.chain@.len(),
            b.chain@ == a.chain@.insert(idx + 1, ng),
        ensures
            forall|i: int| 0 <= i < b.chain@.len() ==> valid_gpid(#[trigger] b.chain@[i] as int)
                && local_of(b.chain@[i] as int) >= PAGE_BITMAP_PAGES && b.alc.allocated(b.chain@[i] as int),
    {
        let c = a.chain@;
        let c2 = b.chain@;
        assert forall|i: int| 0 <= i < c2.len() implies valid_gpid(#[trigger] c2[i] as int)
            && local_of(c2[i] as int) >= PAGE_BITMAP_PAGES
            && b.alc.allocated(c2[i] as int) by {
            if i != idx + 1 {
                let oi = if i <= idx { i } else { i - 1 };
                assert(c2[i] == c[oi]);
                assert(a.alc.allocated(c[oi] as int));
            }
        }
    }

    #[verifier::rlimit(100)]
    proof fn lemma_split_chain(a: &kvdb_s, b: &kvdb_s, idx: int, ng: u64, k: u64)
        requires
            local_of(ng as int) >= PAGE_BITMAP_PAGES,
            a.chain_wf(),
            forall|x: int| 0 <= x ==> #[trigger] a.alc.allocated(x) ==> b.alc.allocated(x),
            b.alc.allocated(ng as int),
            !a.alc.allocated(ng as int),
            valid_gpid(ng as int),
            b.h.level == a.h.level,
            b.h.root_gpid == a.h.root_gpid,
            0 <= idx < a.chain@.len(),
            b.chain@ == a.chain@.insert(idx + 1, ng),
            forall|x: u64| x != a.chain@[idx] && x != ng ==> #[trigger] b.pg(x) == a.pg(x),
            b.leaf(idx).leaf_wf(),
            b.leaf(idx + 1).leaf_wf(),
            b.leaf(idx).low == a.leaf(idx).low,
            b.leaf(idx + 1).high == a.leaf(idx).high,
            b.leaf(idx).high + 1 == b.leaf(idx + 1).low,
            b.leaf(idx).next == ng,
            b.leaf(idx + 1).next == a.leaf(idx).next,
            a.leaf(idx).low <= k <= a.leaf(idx).high,
        ensures
            b.chain_wf(),
            forall|i: int| 0 <= i < b.chain@.len() && i != idx && i != idx + 1 ==>
                #[trigger] b.leaf(i) == a.leaf(if i < idx { i } else { i - 1 }),
    {
        let c = a.chain@;
        let c2 = b.chain@;
        kvdb_s::lemma_split_map(a, b, idx, ng, k);
        assert(b.chain@[idx] == c[idx]);
        assert(b.chain@[idx + 1] == ng);
        assert forall|i: int, j: int| 0 <= i < j < c2.len() implies (#[trigger] b.leaf(i)).high
            < (#[trigger] b.leaf(j)).low by {
            let oi = if i <= idx { i } else { i - 1 };
            let oj = if j <= idx { j } else { j - 1 };
            assert(b.leaf(i).high <= a.leaf(oi).high);
            assert(b.leaf(j).low >= a.leaf(oj).low);
            if oi < oj {
                assert(a.leaf(oi).high < a.leaf(oj).low);
            }
        }
        assert forall|i: int| 0 <= i < c2.len() - 1 implies (#[trigger] b.leaf(i)).high + 1
            == b.leaf(i + 1).low by {
            if i < idx - 1 || i > idx + 1 {
                let oi = if i < idx { i } else { i - 1 };
                assert(a.leaf(oi).high + 1 == a.leaf(oi + 1).low);
            } else if i == idx - 1 {
                assert(a.leaf(idx - 1).high + 1 == a.leaf(idx).low);
            } else if i == idx + 1 {
                assert(a.leaf(idx).high + 1 == a.leaf(idx + 1).low);
            }
        }
        assert forall|i: int| 0 <= i < c2.len() - 1 implies (#[trigger] b.leaf(i)).next == c2[i + 1] by {
            if i < idx - 1 || i > idx + 1 {
                let oi = if i < idx { i } else { i - 1 };
                assert(a.leaf(oi).next == c[oi + 1]);
            } else if i == idx - 1 {
                assert(a.leaf(idx - 1).next == c[idx]);
            } else if i == idx + 1 {
                assert(a.leaf(idx).next == c[idx + 1]);
            }
        }
        assert forall|i: int| 0 <= i < c2.len() implies (#[trigger] b.leaf(i)).leaf_wf() by {
            if i != idx && i != idx + 1 {
                assert(a.leaf(if i < idx { i } else { i - 1 }).leaf_wf());
            }
        }
        kvdb_s::lemma_split_ids(a, b, idx, ng);
        if idx + 1 < c2.len() - 1 {
            assert(b.leaf(c2.len() - 1) == a.leaf(c.len() - 1));
        } else {
            assert(a.leaf(idx).next == GPID_NIL);
        }
        if idx == 0 {
            assert(b.leaf(0).low == 0);
        } else {
            assert(b.leaf(0) == a.leaf(0));
        }
        assert(b.chain_wf());
    }

    /// Removes the record with key `k`. Returns whether there was one; the
    /// record count drops only then.
    pub fn del(&mut self, k: u64) -> (found: bool)
        requires
            old(self).wf(),
        ensures
            final(self).same_shape(*old(self)),
            final(self).wf(),
            found == old(self)@.contains_key(k),
            final(self)@ == old(self)@.remove(k),
            final(self).records() == old(self).records() - if found { 1int } else { 0int },
    {
        proof {
            reveal(kvdb_s::model_wf);
        }
        if self.h.level == 0 {
            proof {
                assert(self.model@ =~= self.model@.remove(k));
            }
            return false;
        }
        let (g, mut p, idx, path) = self.find_leaf(k);
        let ghost a2 = *self;
        proof {
            a2.lemma_only_leaf(idx@, k);
        }
        let ghost pre = p@;
        let removed = p.remove_record(k);
        if !removed {
            proof {
                assert(self.model@ =~= self.model@.remove(k));
            }
            return false;
        }
        let ghost post = p@;
        self.h.record_num = self.h.record_num - 1;
        self.model = Ghost(self.model@.remove(k));
        self.write_page(g, p);
        proof {
            assert(self.leaf(idx@) == post);
            assert forall|j: int| 0 <= j < pre.keys.len() implies a2.model@[#[trigger] pre.keys[j]]
                == pre.vals[j] by {
                assert(a2.model@[a2.leaf(idx@).keys[j]] == a2.leaf(idx@).vals[j]);
            }
            assert forall|j: int| 0 <= j < post.keys.len() implies self.model@[#[trigger] post.keys[j]]
                == post.vals[j] by {
                let x = post.keys[j];
                assert(post.has_key(x));
                assert(x != k);
                assert(pre.has_key(x));
                assert(pre.keys.contains(x));
                let jj = pre.keys.index_of(x);
                assert(pre.keys[jj] == x);
                assert(a2.model@[pre.keys[jj]] == pre.vals[jj]);
            }
            kvdb_s::lemma_leaf_update(&a2, self, idx@, k);
        }
        true
    }

    /// The records whose keys lie from `start` to `end`, both included, in
    /// ascending key order: the leaves are walked along their links from the
    /// one whose bounds hold `start`.
    pub fn iter(&mut self, start: u64, end: u64) -> (r: Vec<(u64, u64)>)
        requires
            old(self).wf(),
        ensures
            final(self).same_shape(*old(self)),
            final(self).wf(),
            final(self)@ == old(self)@,
            final(self).records() == old(self).records(),
            ordered_scan(old(self)@, start, end, r@),
    {
        proof {
            reveal(kvdb_s::model_wf);
        }
        let mut out: Vec<(u64, u64)> = Vec::new();
        if self.h.level == 0 || start > end {
            proof {
                assert forall|k: u64| start <= k <= end && #[trigger] self.model@.contains_key(k) implies
                    exists|a: int| 0 <= a < out@.len() && out@[a].0 == k by {
                    if self.model@.contains_key(k) {
                        let i = choose|i: int| 0 <= i < self.chain@.len() && (#[trigger] self.leaf(i)).has_key(k);
                    }
                }
            }
            return out;
        }
        let (_g, first, idx, _path) = self.find_leaf(start);
        let mut p = first;
        let ghost mut i: int = idx@;
        let mut done = false;
        while !done
            invariant
                self.wf(),
                self.model == old(self).model,
                self.h == old(self).h,
                self.chain == old(self).chain,
                self.alc == old(self).alc,
                self.h.level != 0,
                0 <= idx@ <= i < self.chain@.len(),
                p@ == self.leaf(i),
                self.leaf(idx@).low <= start <= self.leaf(idx@).high,
                forall|a: int, b: int| 0 <= a < b < out@.len() ==> out@[a].0 < out@[b].0,
                forall|a: int| 0 <= a < out@.len() ==> start <= (#[trigger] out@[a]).0 <= end
                    && self.model@.contains_key(out@[a].0) && self.model@[out@[a].0] == out@[a].1,
                forall|a: int| 0 <= a < out@.len() ==> (#[trigger] out@[a]).0 < self.leaf(i).low || done,
                forall|k: u64| start <= k <= end && #[trigger] self.model@.contains_key(k)
                    && (k < self.leaf(i).low || done) ==> exists|a: int| 0 <= a < out@.len() && out@[a].0 == k,
            decreases (self.chain@.len() - i) * 2 + if done { 0int } else { 1int },
        {
            proof {
                reveal(kvdb_s::model_wf);
            }
            let mut j: usize = 0;
            let mut past = false;
            let ghost lf = self.leaf(i);
            while j < p.keys.len() && !past
                invariant
                    self.wf(),
                    self.model == old(self).model,
                    self.chain == old(self).chain,
                    0 <= idx@ <= i < self.chain@.len(),
                    p@ == lf,
                    lf == self.leaf(i),
                    lf.leaf_wf(),
                    self.leaf(idx@).low <= start,
                    j <= p.keys@.len(),
                    past ==> j < p.keys@.len() && p.keys@[j as int] > end,
                    forall|a: int, b: int| 0 <= a < b < out@.len() ==> out@[a].0 < out@[b].0,
                    forall|a: int| 0 <= a < out@.len() ==> start <= (#[trigger] out@[a]).0 <= end
                        && self.model@.contains_key(out@[a].0) && self.model@[out@[a].0] == out@[a].1,
                    forall|a: int| 0 <= a < out@.len() ==> (#[trigger] out@[a]).0 < if j < p.keys@.len() {
                        p.keys@[j as int] as int
                    } else {
                        lf.high + 1
                    },
                    forall|k: u64| start <= k <= end && #[trigger] self.model@.contains_key(k) && k < (if j
                        < p.keys@.len() { p.keys@[j as int] as int } else { lf.high + 1 }) ==> exists|a: int|
                        0 <= a < out@.len() && out@[a].0 == k,
                decreases p.keys@.len() - j + if past { 0int } else { 1int },
            {
                proof {
                    reveal(kvdb_s::model_wf);
                }
                let key = p.keys[j];
                if key > end {
                    past = true;
                } else {
                    let ghost before = out@;
                    if key >= start {
                        out.push((key, p.vals[j]));
                        proof {
                            assert(self.model@[lf.keys[j as int]] == lf.vals[j as int]);
                            assert(lf.has_key(key));
                            assert(self.model@.contains_key(key));
                        }
                    }
                    proof {
                        let nb: int = if j + 1 < p.keys@.len() { p.keys@[j + 1] as int } else { lf.high + 1 };
                        assert(key < nb) by {
                            if j + 1 < p.keys@.len() {
                                assert(lf.keys[j as int] < lf.keys[j + 1]);
                            }
                        }
                        assert forall|k: u64| start <= k <= end && #[trigger] self.model@.contains_key(k)
                            && k < nb implies exists|a: int| 0 <= a < out@.len() && out@[a].0 == k by {
                            if k < key {
                                let a = choose|a: int| 0 <= a < before.len() && before[a].0 == k;
                                assert(out@[a] == before[a]);
                            } else if k == key {
                                assert(out@[out@.len() - 1].0 == k);
                            } else {
                                // no key of this leaf lies strictly between two neighbours
                                assert(lf.low <= key);
                                self.lemma_only_leaf(i, k);
                                let jj = choose|jj: int| 0 <= jj < lf.keys.len() && lf.keys[jj] == k;
                                if jj <= j {
                                    if jj < j {
                                        assert(lf.keys[jj] < lf.keys[j as int]);
                                    }
                                } else if j + 1 < p.keys@.len() {
                                    if jj > j + 1 {
                                        assert(lf.keys[j + 1] < lf.keys[jj]);
                                    }
                                }
                            }
                        }
                        assert forall|a: int| 0 <= a < out@.len() implies (#[trigger] out@[a]).0 < nb by {
                            if a < before.len() {
                                assert(out@[a] == before[a]);
                            }
                        }
                    }
                    j = j + 1;
                }
            }
            if past || p.high >= end {
                done = true;
                proof {
                    assert forall|k: u64| start <= k <= end && #[trigger] self.model@.contains_key(k) implies
                        exists|a: int| 0 <= a < out@.len() && out@[a].0 == k by {
                        if !past {
                            assert(j == p.keys@.len());
                        }
                    }
                }
            } else {
                proof {
                    assert(j == p.keys@.len());
                    assert(i < self.chain@.len() - 1);
                    assert(lf.high + 1 == self.leaf(i + 1).low);
                    assert(p.next == self.chain@[i + 1]);
                }
                let nx = p.next;
                p = self.read_page(nx);
                proof {
                    i = i + 1;
                    assert(p@ == self.leaf(i));
                }
            }
        }
        out
    }

    /// A cursor over the records whose keys lie from `start_key` to
    /// `end_key`, both included, in ascending key order.
    pub fn cursor(&mut self, start_key: u64, end_key: u64) -> (r: cursor_s)
        requires
            old(self).wf(),
        ensures
            final(self).same_shape(*old(self)),
            final(self).wf(),
            final(self)@ == old(self)@,
            final(self).records() == old(self).records(),
            r.pos == 0,
            r.start_key == start_key,
            r.end_key == end_key,
            ordered_scan(old(self)@, start_key, end_key, r.items@),
    {
        let items = self.iter(start_key, end_key);
        cursor_s { items, pos: 0, start_key, end_key }
    }

    /// The record count of the file header: the number of records.
    pub fn record_num(&self) -> (r: u64)
        requires
            self.wf(),
        ensures
            r == self.records(),
            r == self@.len(),
    {
        self.h.record_num
    }

    /// Height of the tree: zero while the file has no root page.
    pub fn level(&self) -> (r: u32)
        ensures
            r == self.height(),
    {
        self.h.level
    }

    /// Global page id of the root page, `GPID_NIL` while there is none.
    pub fn root_gpid(&self) -> (r: u64)
        ensures
            r == self.root(),
    {
        self.h.root_gpid
    }

    /// Magic tag of the file header.
    pub fn magic(&self) -> (r: u64)
        ensures
            r == self.magic_tag(),
    {
        self.h.magic
    }

    /// The file header.
    pub fn header(&self) -> (r: &file_header_s)
        ensures
            *r == self.hdr(),
            r.record_num == self.records(),
            r.level == self.height(),
            r.root_gpid == self.root(),
            r.magic == self.magic_tag(),
    {
        &self.h
    }

    /// The chunk allocator.
    pub fn allocator(&self) -> (r: &allocator_s)
        requires
            self.wf(),
        ensures
            r.wf(),
            r.is_open(),
            forall|i: int| 0 <= i < self.leaves().len() ==> r.allocated(#[trigger] self.leaves()[i] as int),
    {
        &self.alc
    }

    /// The leaf pages with their ids, in key order.
    pub fn leaf_pages(&mut self) -> (r: Vec<(u64, page_s)>)
        requires
            old(self).wf(),
        ensures
            final(self).same_shape(*old(self)),
            final(self).wf(),
            final(self)@ == old(self)@,
            final(self).leaves() == old(self).leaves(),
            final(self).records() == old(self).records(),
            r@.len() == old(self).leaves().len(),
            forall|i: int| 0 <= i < r@.len() ==> (#[trigger] r@[i]).0 == old(self).leaves()[i]
                && r@[i].1@ == old(self).pg(old(self).leaves()[i]),
    {
        let mut out: Vec<(u64, page_s)> = Vec::new();
        if self.h.level == 0 {
            return out;
        }
        let mut cur = self.first;
        let mut done = false;
        while !done
            invariant
                self.wf(),
                self.model == old(self).model,
                self.h == old(self).h,
                self.chain == old(self).chain,
                self.alc == old(self).alc,
                forall|x: u64| #[trigger] self.pg(x) == old(self).pg(x),
                1 <= self.chain@.len(),
                out@.len() <= self.chain@.len(),
                !done ==> out@.len() < self.chain@.len() && cur == self.chain@[out@.len() as int],
                done ==> out@.len() == self.chain@.len(),
                forall|i: int| 0 <= i < out@.len() ==> (#[trigger] out@[i]).0 == self.chain@[i]
                    && out@[i].1@ == old(self).pg(self.chain@[i]),
            decreases self.chain@.len() - out@.len() + if done { 0int } else { 1int },
        {
            let p = self.read_page(cur);
            let nx = p.next;
            let ghost i = out@.len() as int;
            out.push((cur, p));
            proof {
                if i + 1 < self.chain@.len() {
                    assert(self.leaf(i).next == self.chain@[i + 1]);
                    assert(valid_gpid(self.chain@[i + 1] as int));
                }
            }
            if nx == GPID_NIL {
                done = true;
            }
            cur = nx;
        }
        out
    }

    /// The pages reached from the root through the index pages, level by
    /// level, with their ids: the index pages and the leaves they lead to.
    pub fn tree_pages(&mut self) -> (r: Vec<(u64, page_s)>)
        requires
            old(self).wf(),
        ensures
            final(self).wf(),
            final(self)@ == old(self)@,
            final(self).records() == old(self).records(),
            final(self).same_shape(*old(self)),
            forall|i: int| 0 <= i < r@.len() ==> (#[trigger] r@[i]).1@ == old(self).pg(r@[i].0),
    {
        let mut out: Vec<(u64, page_s)> = Vec::new();
        if self.h.level == 0 {
            return out;
        }
        let mut frontier: Vec<u64> = Vec::new();
        frontier.push(self.h.root_gpid);
        let mut depth: u32 = 0;
        while depth < self.h.level
            invariant
                self.wf(),
                self.model == old(self).model,
                self.h == old(self).h,
                self.chain == old(self).chain,
                self.alc == old(self).alc,
                forall|x: u64| #[trigger] self.pg(x) == old(self).pg(x),
                forall|i: int| 0 <= i < out@.len() ==> (#[trigger] out@[i]).1@ == old(self).pg(out@[i].0),
            decreases self.h.level - depth,
        {
            let mut next: Vec<u64> = Vec::new();
            let mut j: usize = 0;
            while j < frontier.len()
                invariant
                    self.wf(),
                    self.model == old(self).model,
                    self.h == old(self).h,
                    self.chain == old(self).chain,
                    self.alc == old(self).alc,
                    forall|x: u64| #[trigger] self.pg(x) == old(self).pg(x),
                    forall|i: int| 0 <= i < out@.len() ==> (#[trigger] out@[i]).1@ == old(self).pg(out@[i].0),
                    j <= frontier@.len(),
                decreases frontier@.len() - j,
            {
                let g = frontier[j];
                let p = self.read_page(g);
                if !p.leaf {
                    let mut t: usize = 0;
                    while t < p.vals.len()
                        invariant
                            t <= p.vals@.len(),
                        decreases p.vals@.len() - t,
                    {
                        next.push(p.vals[t]);
                        t = t + 1;
                    }
                }
                out.push((g, p));
                j = j + 1;
            }
            frontier = next;
            depth = depth + 1;
        }
        out
    }

    /// An engine over a stored file: its header `h`, its index pages `ix`, its
    /// leaf chain `l` and its restored allocator `alc`. The header is kept as
    /// it is; the index and leaf pages go into the cache as they are. A file
    /// whose parts do not hold together is refused as corruption.
    #[verifier::rlimit(100)]
    pub fn restore(alc: allocator_s, h: file_header_s, ix: &Vec<(u64, page_s)>, l: Vec<(u64, page_s)>)
        -> (r: Result<kvdb_s, KvError>)
        requires
            alc.wf(),
            alc.is_open(),
        ensures
            r is Ok <==> (stored_chain(alc, l@) && index_ok(alc, ix@) && stored_header_ok(h)
                && h.record_num == records_in(l@, l@.len() as int)),
            r is Err ==> r == Err::<kvdb_s, KvError>(KvError::Corrupt),
            r matches Ok(db) ==> {
                &&& db.wf()
                &&& db.alloc_state() == alc
                &&& db.hdr() == h
                &&& db.height() == h.level
                &&& db.root() == h.root_gpid
                &&& db.records() == h.record_num
                &&& db.leaves().len() == l@.len()
                &&& forall|i: int| 0 <= i < l@.len() ==> #[trigger] db.leaves()[i] == l@[i].0
                    && db.leaf(i) == l@[i].1@
                &&& forall|k: u64| #[trigger] db@.contains_key(k) <==> exists|i: int| 0 <= i < l@.len()
                    && l@[i].1@.has_key(k)
                &&& forall|i: int, j: int| 0 <= i < l@.len() && 0 <= j < l@[i].1@.keys.len() ==>
                    db@[#[trigger] l@[i].1@.keys[j]] == l@[i].1@.vals[j]
            },
    {
        if !(h.magic == KV_MAGIC && h.level != 0 && h.root_gpid < MAX_CHUNK_NUM * PAGE_NUM_PER_CK
            && h.root_gpid % PAGE_NUM_PER_CK >= PAGE_BITMAP_PAGES) {
            return Err(KvError::Corrupt);
        }
        if !check_index(&alc, ix) {
            return Err(KvError::Corrupt);
        }
        if !check_leaves(&alc, &l) {
            return Err(KvError::Corrupt);
        }
        proof {
            reveal(stored_chain);
            reveal(entry_ok);
        }
        let mut ch = cache_s::new();
        let mut x: usize = 0;
        while x < ix.len()
            invariant
                index_ok(alc, ix@),
                ch.wf(),
                ch.no_pins(),
                x <= ix@.len(),
                forall|g: u64| !#[trigger] ch.page(g).leaf,
            decreases ix@.len() - x,
        {
            let p = ix[x].1.copy();
            let _ = ch.put_page(ix[x].0, p);
            proof {
                assert forall|g: u64| !#[trigger] ch.page(g).leaf by {
                    if g == ix@[x as int].0 {
                        assert(!ix@[x as int].1.leaf);
                    }
                }
            }
            x = x + 1;
        }
        let mut count: u64 = 0;
        let ghost mut model: Map<u64, u64> = Map::empty();
        let mut i: usize = 0;
        while i < l.len()
            invariant
                stored_chain(alc, l@),
                ch.wf(),
                ch.no_pins(),
                i <= l@.len(),
                forall|a: int| 0 <= a < i ==> #[trigger] ch.page(l@[a].0) == l@[a].1@,
                forall|x: u64| (forall|a: int| 0 <= a < i ==> l@[a].0 != x) ==> !#[trigger] ch.page(x).leaf,
                model.dom().finite(),
                count == model.len(),
                count <= RECORD_NUM_PG * i,
                count == records_in(l@, i as int),
                forall|k: u64| #[trigger] model.contains_key(k) <==> exists|a: int| 0 <= a < i && l@[a].1@.has_key(k),
                forall|a: int, j: int| 0 <= a < i && 0 <= j < l@[a].1@.keys.len() ==>
                    model[#[trigger] l@[a].1@.keys[j]] == l@[a].1@.vals[j],
            decreases l@.len() - i,
        {
            proof {
                reveal(stored_chain);
                reveal(entry_ok);
            }
            let g = l[i].0;
            let p = l[i].1.copy();
            let ghost pv = l@[i as int].1@;
            proof {
                assert(pv.leaf_wf());
            }
            let n = p.keys.len();
            let mut t: usize = 0;
            let ghost m0 = model;
            while t < n
                invariant
                    stored_chain(alc, l@),
                    i < l@.len(),
                    p@ == pv,
                    pv == l@[i as int].1@,
                    n == pv.keys.len(),
                    t <= n,
                    model.dom().finite(),
                    count == model.len(),
                    count <= RECORD_NUM_PG * i + t,
                    count == records_in(l@, i as int) + t,
                    forall|k: u64| #[trigger] model.contains_key(k) <==> (m0.contains_key(k)
                        || exists|j: int| 0 <= j < t && pv.keys[j] == k),
                    forall|k: u64| #[trigger] m0.contains_key(k) <==> exists|a: int| 0 <= a < i && l@[a].1@.has_key(k),
                    forall|k: u64| m0.contains_key(k) ==> #[trigger] model[k] == m0[k],
                    forall|j: int| 0 <= j < t ==> model[#[trigger] pv.keys[j]] == pv.vals[j],
                decreases n - t,
            {
                proof {
                    reveal(stored_chain);
                    reveal(entry_ok);
                }
                let k = p.keys[t];
                let v = p.vals[t];
                proof {
                    assert(!model.contains_key(k)) by {
                        if m0.contains_key(k) {
                            let a = choose|a: int| 0 <= a < i && l@[a].1@.has_key(k);
                            let jj = choose|jj: int| 0 <= jj < l@[a].1@.keys.len() && l@[a].1@.keys[jj] == k;
                            assert(l@[a].1@.leaf_wf());
                            assert(l@[a].1.high < l@[i as int].1.low);
                        } else if exists|j: int| 0 <= j < t && pv.keys[j] == k {
                            let j = choose|j: int| 0 <= j < t && pv.keys[j] == k;
                            assert(pv.keys[j] < pv.keys[t as int]);
                        }
                    }
                    model = model.insert(k, v);
                    assert forall|j: int| 0 <= j < t + 1 implies model[#[trigger] pv.keys[j]] == pv.vals[j] by {
                        if j < t {
                            assert(pv.keys[j] < pv.keys[t as int]);
                        }
                    }
                    assert forall|k2: u64| #[trigger] model.contains_key(k2) <==> (m0.contains_key(k2)
                        || exists|j: int| 0 <= j < t + 1 && pv.keys[j] == k2) by {
                        if k2 == k {
                            assert(pv.keys[t as int] == k);
                        }
                    }
                }
                count = count + 1;
                t = t + 1;
            }
            let _ = ch.put_page(g, p);
            proof {
                assert forall|k: u64| #[trigger] model.contains_key(k) <==> exists|a: int| 0 <= a < i + 1
                    && l@[a].1@.has_key(k) by {
                    if model.contains_key(k) && !m0.contains_key(k) {
                        let j = choose|j: int| 0 <= j < t && pv.keys[j] == k;
                        assert(l@[i as int].1@.has_key(k));
                    }
                    if exists|a: int| 0 <= a < i + 1 && l@[a].1@.has_key(k) {
                        let a = choose|a: int| 0 <= a < i + 1 && l@[a].1@.has_key(k);
                        if a == i {
                            let j = choose|j: int| 0 <= j < pv.keys.len() && pv.keys[j] == k;
                            assert(pv.keys[j] == k);
                        }
                    }
                }
                assert forall|a: int, j: int| 0 <= a < i + 1 && 0 <= j < l@[a].1@.keys.len() implies
                    model[#[trigger] l@[a].1@.keys[j]] == l@[a].1@.vals[j] by {
                    if a < i {
                        assert(l@[a].1@.has_key(l@[a].1@.keys[j]));
                        assert(m0.contains_key(l@[a].1@.keys[j]));
                    }
                }
                assert forall|a: int| 0 <= a < i + 1 implies #[trigger] ch.page(l@[a].0) == l@[a].1@ by {
                    if a < i {
                        assert(l@[a].0 != l@[i as int].0);
                    }
                }
                assert forall|x: u64| (forall|a: int| 0 <= a < i + 1 ==> l@[a].0 != x) implies
                    !#[trigger] ch.page(x).leaf by {
                    assert(l@[i as int].0 != x);
                }
                assert(records_in(l@, i + 1) == records_in(l@, i as int) + pv.keys.len());
            }
            i = i + 1;
        }
        if count != h.record_num {
            return Err(KvError::Corrupt);
        }
        let first = l[0].0;
        let ghost chain = Seq::new(l@.len(), |a: int| l@[a].0);
        let db = kvdb_s { h, alc, ch, first, chain: Ghost(chain), model: Ghost(model) };
        proof {
            reveal(stored_chain);
            reveal(entry_ok);
            reveal(kvdb_s::model_wf);
            reveal(kvdb_s::index_wf);
            assert forall|a: int| 0 <= a < chain.len() implies #[trigger] db.leaf(a) == l@[a].1@ by {
                assert(chain[a] == l@[a].0);
            }
            assert forall|a: int, b: int| 0 <= a < b < chain.len() implies (#[trigger] db.leaf(a)).high
                < (#[trigger] db.leaf(b)).low by {
                assert(l@[a].1.high < l@[b].1.low);
            }
            assert forall|a: int| 0 <= a < chain.len() - 1 implies (#[trigger] db.leaf(a)).high + 1
                == db.leaf(a + 1).low && db.leaf(a).next == chain[a + 1] by {
                assert(l@[a].1.next == l@[a + 1].0);
            }
            assert forall|a: int| 0 <= a < chain.len() implies (#[trigger] db.leaf(a)).leaf_wf()
                && valid_gpid(chain[a] as int) && db.alc.allocated(chain[a] as int) by {
                assert(l@[a].1@.leaf_wf());
            }
            assert(db.leaf(chain.len() - 1) == l@.last().1@);
            assert(db.chain_wf());
            assert forall|k: u64| #[trigger] db.model@.contains_key(k) <==> exists|a: int| 0 <= a < chain.len()
                && (#[trigger] db.leaf(a)).has_key(k) by {
                if db.model@.contains_key(k) {
                    let a = choose|a: int| 0 <= a < l@.len() && l@[a].1@.has_key(k);
                    assert(db.leaf(a).has_key(k));
                }
                if exists|a: int| 0 <= a < chain.len() && (#[trigger] db.leaf(a)).has_key(k) {
                    let a = choose|a: int| 0 <= a < chain.len() && (#[trigger] db.leaf(a)).has_key(k);
                    assert(l@[a].1@.has_key(k));
                }
            }
            assert forall|a: int, j: int| 0 <= a < chain.len() && 0 <= j < db.leaf(a).keys.len() implies
                db.model@[#[trigger] db.leaf(a).keys[j]] == db.leaf(a).vals[j] by {
                assert(model[l@[a].1@.keys[j]] == l@[a].1@.vals[j]);
            }
            assert(db.model_wf());
            assert forall|x: u64| #[trigger] db.pg(x).leaf implies exists|a: int| 0 <= a < chain.len()
                && chain[a] == x by {
                if forall|a: int| 0 <= a < l@.len() ==> l@[a].0 != x {
                    assert(!db.pg(x).leaf);
                } else {
                    let a = choose|a: int| 0 <= a < l@.len() && l@[a].0 == x;
                    assert(chain[a] == x);
                }
            }
            assert forall|k: u64| #[trigger] db@.contains_key(k) <==> exists|i: int| 0 <= i < l@.len()
                && l@[i].1@.has_key(k) by {}
            assert forall|i: int, j: int| 0 <= i < l@.len() && 0 <= j < l@[i].1@.keys.len() implies
                db@[#[trigger] l@[i].1@.keys[j]] == l@[i].1@.vals[j] by {
                assert(model[l@[i].1@.keys[j]] == l@[i].1@.vals[j]);
            }
        }
        Ok(db)
    }

    /// An engine of height zero has no leaves, no root and no records; any
    /// other has leaves and a root.
    pub proof fn lemma_height_zero(&self)
        requires
            self.wf(),
        ensures
            (self.height() == 0) == (self.leaves().len() == 0),
            self.height() == 0 ==> self@ == Map::<u64, u64>::empty() && self.root() == GPID_NIL
                && self.records() == 0,
            self.height() != 0 ==> self.root() != GPID_NIL,
    {
        reveal(kvdb_s::model_wf);
        if self.h.level == 0 {
            assert(self.model@ =~= Map::<u64, u64>::empty());
        }
    }

    /// A change of the allocator that keeps every page in use, or of the root
    /// and height, keeps the engine well formed.
    proof fn lemma_reframe(a: &kvdb_s, b: &kvdb_s)
        requires
            a.wf(),
            b.alc.wf(),
            b.alc.is_open(),
            forall|x: int| 0 <= x ==> #[trigger] a.alc.allocated(x) ==> b.alc.allocated(x),
            b.ch == a.ch,
            b.h.record_num == a.h.record_num,
            (b.h.level == 0) == (a.h.level == 0),
            b.h.level == 0 ==> b.h.root_gpid == GPID_NIL,
            b.h.level != 0 ==> valid_gpid(b.h.root_gpid as int),
            b.chain == a.chain,
            b.model == a.model,
            b.first == a.first,
        ensures
            b.wf(),
    {
        reveal(kvdb_s::model_wf);
        let c = b.chain@;
        assert forall|i: int| #[trigger] b.leaf(i) == a.leaf(i) by {}
        assert forall|i: int| 0 <= i < c.len() implies b.alc.allocated(#[trigger] c[i] as int) by {
            assert(a.alc.allocated(c[i] as int));
        }
        assert forall|i: int, j: int| 0 <= i < j < c.len() implies (#[trigger] b.leaf(i)).high
            < (#[trigger] b.leaf(j)).low by {
            assert(a.leaf(i).high < a.leaf(j).low);
        }
        assert forall|i: int| 0 <= i < c.len() - 1 implies (#[trigger] b.leaf(i)).high + 1
            == b.leaf(i + 1).low by {
            assert(a.leaf(i).high + 1 == a.leaf(i + 1).low);
        }
        assert(b.chain_wf());
        assert forall|k: u64| #[trigger] b.model@.contains_key(k) <==> exists|i: int| 0 <= i < c.len()
            && (#[trigger] b.leaf(i)).has_key(k) by {
            if b.model@.contains_key(k) {
                let i = choose|i: int| 0 <= i < c.len() && (#[trigger] a.leaf(i)).has_key(k);
                assert(b.leaf(i).has_key(k));
            }
        }
        assert forall|i: int, j: int| 0 <= i < c.len() && 0 <= j < b.leaf(i).keys.len() implies
            b.model@[#[trigger] b.leaf(i).keys[j]] == b.leaf(i).vals[j] by {
            assert(a.model@[a.leaf(i).keys[j]] == a.leaf(i).vals[j]);
        }
        assert(b.model_wf());
        reveal(kvdb_s::index_wf);
        assert forall|g: u64| #[trigger] b.pg(g).leaf implies exists|i: int| 0 <= i < c.len() && c[i] == g by {
            assert(a.pg(g).leaf);
        }
    }

    /// A split that adds page `ng` to the chain after leaf `idx` keeps every
    /// leaf page in the chain.
    proof fn lemma_split_index(a: &kvdb_s, b: &kvdb_s, idx: int, ng: u64)
        requires
            a.wf(),
            0 <= idx < a.chain@.len(),
            b.chain@ == a.chain@.insert(idx + 1, ng),
            forall|x: u64| x != a.chain@[idx] && x != ng ==> #[trigger] b.pg(x) == a.pg(x),
        ensures
            b.index_wf(),
    {
        let c = a.chain@;
        let c2 = b.chain@;
        reveal(kvdb_s::index_wf);
        assert forall|g: u64| #[trigger] b.pg(g).leaf implies exists|i: int| 0 <= i < c2.len() && c2[i] == g by {
            if g == c[idx] {
                assert(c2[idx] == g);
            } else if g == ng {
                assert(c2[idx + 1] == g);
            } else {
                assert(a.pg(g).leaf);
                let i = choose|i: int| 0 <= i < c.len() && c[i] == g;
                if i <= idx {
                    assert(c2[i] == g);
                } else {
                    assert(c2[i + 1] == g);
                }
            }
        }
    }

    /// When leaf `idx` is split into itself and a new page `ng` that follows it
    /// in the chain, each within the old bounds, the engine stays well formed.
    proof fn lemma_split(a: &kvdb_s, b: &kvdb_s, idx: int, ng: u64, k: u64)
        requires
            local_of(ng as int) >= PAGE_BITMAP_PAGES,
            b.first == a.first,
            b.model@.dom().finite(),
            b.h.record_num == b.model@.len(),
            a.wf(),
            b.ch.wf(),
            b.ch.no_pins(),
            b.alc.wf(),
            b.alc.is_open(),
            forall|x: int| 0 <= x ==> #[trigger] a.alc.allocated(x) ==> b.alc.allocated(x),
            b.alc.allocated(ng as int),
            !a.alc.allocated(ng as int),
            valid_gpid(ng as int),
            b.h.level == a.h.level,
            b.h.root_gpid == a.h.root_gpid,
            0 <= idx < a.chain@.len(),
            b.chain@ == a.chain@.insert(idx + 1, ng),
            forall|x: u64| x != a.chain@[idx] && x != ng ==> #[trigger] b.pg(x) == a.pg(x),
            b.leaf(idx).leaf_wf(),
            b.leaf(idx + 1).leaf_wf(),
            b.leaf(idx).low == a.leaf(idx).low,
            b.leaf(idx + 1).high == a.leaf(idx).high,
            b.leaf(idx).high + 1 == b.leaf(idx + 1).low,
            b.leaf(idx).next == ng,
            b.leaf(idx + 1).next == a.leaf(idx).next,
            a.leaf(idx).low <= k <= a.leaf(idx).high,
            halves_hold(a.leaf(idx), b.leaf(idx), b.leaf(idx + 1), k),
            forall|x: u64| x != k ==> (#[trigger] b.model@.contains_key(x) == a.model@.contains_key(x)),
            forall|x: u64| x != k && a.model@.contains_key(x) ==> #[trigger] b.model@[x] == a.model@[x],
            b.model@.contains_key(k) == (b.leaf(idx).has_key(k) || b.leaf(idx + 1).has_key(k)),
            forall|j: int| 0 <= j < b.leaf(idx).keys.len() ==> b.model@[#[trigger] b.leaf(idx).keys[j]]
                == b.leaf(idx).vals[j],
            forall|j: int| 0 <= j < b.leaf(idx + 1).keys.len() ==> b.model@[#[trigger] b.leaf(idx + 1).keys[j]]
                == b.leaf(idx + 1).vals[j],
        ensures
            b.wf(),
    {
        reveal(kvdb_s::model_wf);
        let c = a.chain@;
        let c2 = b.chain@;
        kvdb_s::lemma_split_chain(a, b, idx, ng, k);
        assert forall|i: int, x: u64| 0 <= i < c.len() && i != idx && #[trigger] a.leaf(i).has_key(x)
            implies x != k by {
            let j = choose|j: int| 0 <= j < a.leaf(i).keys.len() && a.leaf(i).keys[j] == x;
            assert(a.leaf(i).low <= a.leaf(i).keys[j] <= a.leaf(i).high);
            if i < idx {
                assert(a.leaf(i).high < a.leaf(idx).low);
            } else {
                assert(a.leaf(idx).high < a.leaf(i).low);
            }
        }
        assert forall|x: u64| #[trigger] b.model@.contains_key(x) <==> exists|i: int| 0 <= i < c2.len()
            && (#[trigger] b.leaf(i)).has_key(x) by {
            if exists|i: int| 0 <= i < c2.len() && (#[trigger] b.leaf(i)).has_key(x) {
                let i = choose|i: int| 0 <= i < c2.len() && (#[trigger] b.leaf(i)).has_key(x);
                if i != idx && i != idx + 1 {
                    let oi = if i < idx { i } else { i - 1 };
                    assert(a.leaf(oi).has_key(x));
                    assert(x != k);
                } else if x != k {
                    if i == idx {
                        assert(b.leaf(idx).has_key(x));
                    } else {
                        assert(b.leaf(idx + 1).has_key(x));
                    }
                    assert(a.leaf(idx).has_key(x));
                }
            }
            if b.model@.contains_key(x) {
                if x == k {
                    if b.leaf(idx).has_key(k) {} else { assert(b.leaf(idx + 1).has_key(k)); }
                } else {
                    let i = choose|i: int| 0 <= i < c.len() && (#[trigger] a.leaf(i)).has_key(x);
                    if i < idx {
                        assert(b.leaf(i).has_key(x));
                    } else if i > idx {
                        assert(b.leaf(i + 1).has_key(x));
                    } else {
                        assert(a.leaf(idx).has_key(x));
                        if b.leaf(idx).has_key(x) {} else { assert(b.leaf(idx + 1).has_key(x)); }
                    }
                }
            }
        }
        assert forall|i: int, j: int| 0 <= i < c2.len() && 0 <= j < b.leaf(i).keys.len() implies
            b.model@[#[trigger] b.leaf(i).keys[j]] == b.leaf(i).vals[j] by {
            if i != idx && i != idx + 1 {
                let oi = if i < idx { i } else { i - 1 };
                let x = a.leaf(oi).keys[j];
                assert(a.leaf(oi).has_key(x));
                assert(a.model@[x] == a.leaf(oi).vals[j]);
                assert(a.model@.contains_key(x));
            }
        }
        assert(b.model_wf());
        kvdb_s::lemma_split_index(a, b, idx, ng);
    }

    /// Splits the full leaf `idx`, at page `g`, at its median key onto a new
    /// page, and inserts `k` into the half whose bounds hold it.
    #[verifier::rlimit(100)]
    fn split_insert(&mut self, g: u64, p: page_s, idx: Ghost<int>, k: u64, v: u64) -> (r: Result<(u64, u64), KvError>)
        requires
            old(self).wf(),
            old(self).h.level != 0,
            0 <= idx@ < old(self).chain@.len(),
            g == old(self).chain@[idx@],
            p@ == old(self).leaf(idx@),
            old(self).leaf(idx@).low <= k <= old(self).leaf(idx@).high,
            !p@.has_key(k),
            !old(self)@.contains_key(k),
            p.keys@.len() == RECORD_NUM_PG,
            old(self).h.record_num < 0xffff_ffff_ffff_ffff,
        ensures
            final(self).wf(),
            r is Ok ==> final(self)@ == old(self)@.insert(k, v),
            r is Ok ==> final(self).records() == old(self).records() + 1,
            final(self).h.level == old(self).h.level,
            final(self).h.root_gpid == old(self).h.root_gpid,
            final(self).first == old(self).first,
            r is Err ==> final(self)@ == old(self)@ && final(self).records() == old(self).records(),
            r is Ok <==> !old(self).alloc_full(),
            r is Err ==> r == Err::<(u64, u64), KvError>(KvError::AllocExhausted) && final(self).alloc_full(),
            forall|c: int| #[trigger] final(self).alc.count(c) <= old(self).alc.count(c) + 17,
    {
        proof {
            reveal(kvdb_s::model_wf);
        }
        let ghost a = *self;
        let ng = match self.alc.alloc_page() {
            Ok(x) => x,
            Err(e) => {
                proof {
                    kvdb_s::lemma_reframe(&a, self);
                }
                return Err(e);
            },
        };
        let ghost o = p@;
        proof {
            assert forall|j: int| 0 <= j < o.keys.len() implies a.model@[#[trigger] o.keys[j]] == o.vals[j] by {
                assert(a.model@[a.leaf(idx@).keys[j]] == a.leaf(idx@).vals[j]);
            }
        }
        let (left, right) = split_and_insert(p, ng, k, v, Ghost(a.model@));
        let sep = right.low;
        let ghost lv = left@;
        let ghost rv = right@;
        proof {
            assert(ng != g) by {
                assert(a.alc.allocated(g as int));
            }
        }
        self.h.record_num = self.h.record_num + 1;
        self.chain = Ghost(self.chain@.insert(idx@ + 1, ng));
        self.model = Ghost(self.model@.insert(k, v));
        let ghost b0 = *self;
        self.write_page(g, left);
        self.write_page(ng, right);
        proof {
            assert(b0.ch == a.ch);
            assert forall|x: u64| x != g && x != ng implies #[trigger] self.pg(x) == a.pg(x) by {
                assert(b0.pg(x) == a.pg(x));
            }
        }
        proof {
            assert(self.leaf(idx@) == lv);
            assert(self.leaf(idx@ + 1) == rv);
            kvdb_s::lemma_split(&a, self, idx@, ng, k);
        }
        Ok((sep, ng))
    }
}

/// After a record is put into a page, a map that agreed with the page's
/// records and then records the same put agrees with the page again.
proof fn lemma_insert_vals(pre: PageView, post: PageView, m: Map<u64, u64>, k: u64, v: u64)
    requires
        pre.leaf_wf(),
        forall|j: int| 0 <= j < pre.keys.len() ==> m[#[trigger] pre.keys[j]] == pre.vals[j],
        forall|x: u64| x != k ==> (#[trigger] post.has_key(x) == pre.has_key(x)),
        post.keys.len() == post.vals.len(),
        forall|i: int| 0 <= i < post.keys.len() ==> #[trigger] post.vals[i]
            == if post.keys[i] == k { v } else { pre.vals[pre.keys.index_of(post.keys[i])] },
    ensures
        forall|j: int| 0 <= j < post.keys.len() ==> m.insert(k, v)[#[trigger] post.keys[j]] == post.vals[j],
{
    assert forall|j: int| 0 <= j < post.keys.len() implies m.insert(k, v)[#[trigger] post.keys[j]]
        == post.vals[j] by {
        let x = post.keys[j];
        if x != k {
            assert(post.has_key(x));
            assert(pre.has_key(x));
            assert(pre.keys.contains(x));
            let jj = pre.keys.index_of(x);
            assert(pre.keys[jj] == x);
            assert(m[pre.keys[jj]] == pre.vals[jj]);
        }
    }
}

/// The two halves of a full leaf cut at position `mid` are leaves that hold,
/// between them, the records of the whole.
proof fn lemma_split_halves(o: PageView, l: PageView, r: PageView, mid: int, m: Map<u64, u64>)
    requires
        o.leaf_wf(),
        o.keys.len() == RECORD_NUM_PG,
        0 < mid < o.keys.len(),
        l.leaf && r.leaf,
        l.keys == o.keys.subrange(0, mid),
        l.vals == o.vals.subrange(0, mid),
        r.keys == o.keys.subrange(mid, o.keys.len() as int),
        r.vals == o.vals.subrange(mid, o.vals.len() as int),
        l.low == o.low,
        l.high == o.keys[mid] - 1,
        r.low == o.keys[mid],
        r.high == o.high,
        forall|j: int| 0 <= j < o.keys.len() ==> m[#[trigger] o.keys[j]] == o.vals[j],
    ensures
        l.leaf_wf(),
        r.leaf_wf(),
        forall|x: u64| #[trigger] l.has_key(x) ==> o.has_key(x),
        forall|x: u64| #[trigger] r.has_key(x) ==> o.has_key(x),
        forall|x: u64| #[trigger] o.has_key(x) ==> l.has_key(x) || r.has_key(x),
        forall|j: int| 0 <= j < l.keys.len() ==> m[#[trigger] l.keys[j]] == l.vals[j],
        forall|j: int| 0 <= j < r.keys.len() ==> m[#[trigger] r.keys[j]] == r.vals[j],
{
    assert(o.keys[0] < o.keys[mid]);
    assert forall|j: int| 0 <= j < l.keys.len() implies l.low <= #[trigger] l.keys[j] <= l.high by {
        assert(o.keys[j] < o.keys[mid]);
    }
    assert forall|j: int| 0 <= j < r.keys.len() implies r.low <= #[trigger] r.keys[j] <= r.high by {
        assert(r.keys[j] == o.keys[mid + j]);
        if j > 0 {
            assert(o.keys[mid] < o.keys[mid + j]);
        }
    }
    assert forall|i: int, j: int| 0 <= i < j < r.keys.len() implies r.keys[i] < r.keys[j] by {
        assert(r.keys[i] == o.keys[mid + i] && r.keys[j] == o.keys[mid + j]);
    }
    assert forall|i: int, j: int| 0 <= i < j < l.keys.len() implies l.keys[i] < l.keys[j] by {
        assert(l.keys[i] == o.keys[i] && l.keys[j] == o.keys[j]);
    }
    assert forall|x: u64| #[trigger] o.has_key(x) implies l.has_key(x) || r.has_key(x) by {
        let j = choose|j: int| 0 <= j < o.keys.len() && o.keys[j] == x;
        if j < mid {
            assert(l.keys[j] == x);
        } else {
            assert(r.keys[j - mid] == x);
        }
    }
    assert forall|x: u64| #[trigger] l.has_key(x) implies o.has_key(x) by {
        let j = choose|j: int| 0 <= j < l.keys.len() && l.keys[j] == x;
        assert(o.keys[j] == x);
    }
    assert forall|x: u64| #[trigger] r.has_key(x) implies o.has_key(x) by {
        let j = choose|j: int| 0 <= j < r.keys.len() && r.keys[j] == x;
        assert(o.keys[mid + j] == x);
    }
    assert forall|j: int| 0 <= j < l.keys.len() implies m[#[trigger] l.keys[j]] == l.vals[j] by {
        assert(l.keys[j] == o.keys[j]);
    }
    assert forall|j: int| 0 <= j < r.keys.len() implies m[#[trigger] r.keys[j]] == r.vals[j] by {
        assert(r.keys[j] == o.keys[mid + j]);
    }
}

/// Cuts a full leaf at its median key: the lower half stays in a page that
/// links to page `ng`, the upper half goes to a page that takes over the link.
fn split_leaf(p: page_s, ng: u64, m: Ghost<Map<u64, u64>>) -> (r: (page_s, page_s))
    requires
        p@.leaf_wf(),
        p.keys@.len() == RECORD_NUM_PG,
        forall|j: int| 0 <= j < p.keys@.len() ==> m@[#[trigger] p.keys@[j]] == p.vals@[j],
    ensures
        r.0@.leaf_wf(),
        r.1@.leaf_wf(),
        r.0@.keys.len() < RECORD_NUM_PG,
        r.1@.keys.len() < RECORD_NUM_PG,
        r.0.low == p.low,
        r.1.high == p.high,
        r.0.high + 1 == r.1.low,
        r.0.next == ng,
        r.1.next == p.next,
        forall|x: u64| #[trigger] r.0@.has_key(x) ==> p@.has_key(x),
        forall|x: u64| #[trigger] r.1@.has_key(x) ==> p@.has_key(x),
        forall|x: u64| #[trigger] p@.has_key(x) ==> r.0@.has_key(x) || r.1@.has_key(x),
        forall|j: int| 0 <= j < r.0.keys@.len() ==> m@[#[trigger] r.0.keys@[j]] == r.0.vals@[j],
        forall|j: int| 0 <= j < r.1.keys@.len() ==> m@[#[trigger] r.1.keys@[j]] == r.1.vals@[j],
{
    let ghost o = p@;
    let mut lp = p;
    let mid: usize = (RECORD_NUM_PG / 2) as usize;
    let rkeys = lp.keys.split_off(mid);
    let rvals = lp.vals.split_off(mid);
    let sep = rkeys[0];
    proof {
        assert(o.keys[0] < o.keys[mid as int]);
        assert(o.low <= o.keys[0]);
    }
    let left = page_s { leaf: true, next: ng, low: lp.low, high: sep - 1, keys: lp.keys, vals: lp.vals };
    let right = page_s { leaf: true, next: lp.next, low: sep, high: lp.high, keys: rkeys, vals: rvals };
    proof {
        lemma_split_halves(o, left@, right@, mid as int, m@);
    }
    (left, right)
}

/// Splits a full leaf that lacks key `k`, as `split_leaf` does, and inserts the
/// record of `k` into the half whose bounds hold it.
fn split_and_insert(p: page_s, ng: u64, k: u64, v: u64, m: Ghost<Map<u64, u64>>) -> (r: (page_s, page_s))
    requires
        p@.leaf_wf(),
        p.keys@.len() == RECORD_NUM_PG,
        p.low <= k <= p.high,
        !p@.has_key(k),
        forall|j: int| 0 <= j < p.keys@.len() ==> m@[#[trigger] p.keys@[j]] == p.vals@[j],
    ensures
        r.0@.leaf_wf(),
        r.1@.leaf_wf(),
        r.0.low == p.low,
        r.1.high == p.high,
        r.0.high + 1 == r.1.low,
        r.0.next == ng,
        r.1.next == p.next,
        halves_hold(p@, r.0@, r.1@, k),
        r.0@.has_key(k) || r.1@.has_key(k),
        forall|j: int| 0 <= j < r.0.keys@.len() ==> m@.insert(k, v)[#[trigger] r.0.keys@[j]] == r.0.vals@[j],
        forall|j: int| 0 <= j < r.1.keys@.len() ==> m@.insert(k, v)[#[trigger] r.1.keys@[j]] == r.1.vals@[j],
{
    let (mut left, mut right) = split_leaf(p, ng, m);
    let ghost lpre = left@;
    let ghost rpre = right@;
    if k < right.low {
        left.insert_record(k, v);
        proof {
            lemma_insert_vals(lpre, left@, m@, k, v);
            assert forall|j: int| 0 <= j < right.keys@.len() implies m@.insert(k, v)[#[trigger] right.keys@[j]]
                == right.vals@[j] by {
                assert(right.keys@[j] >= right.low);
            }
        }
    } else {
        right.insert_record(k, v);
        proof {
            lemma_insert_vals(rpre, right@, m@, k, v);
            assert forall|j: int| 0 <= j < left.keys@.len() implies m@.insert(k, v)[#[trigger] left.keys@[j]]
                == left.vals@[j] by {
                assert(left.keys@[j] <= left.high);
            }
        }
    }
    proof {
        assert forall|x: u64| x != k && #[trigger] left@.has_key(x) implies p@.has_key(x) by {
            assert(lpre.has_key(x));
        }
        assert forall|x: u64| x != k && #[trigger] right@.has_key(x) implies p@.has_key(x) by {
            assert(rpre.has_key(x));
        }
        assert forall|x: u64| x != k && #[trigger] p@.has_key(x) implies left@.has_key(x) || right@.has_key(x) by {
            assert(lpre.has_key(x) || rpre.has_key(x));
            if lpre.has_key(x) {
                assert(left@.has_key(x));
            } else {
                assert(right@.has_key(x));
            }
        }
    }
    (left, right)
}

/// Leaves `l` and `r` hold, between them, the keys of `o`, and maybe `k`.
spec fn halves_hold(o: PageView, l: PageView, r: PageView, k: u64) -> bool {
    &&& forall|x: u64| x != k && #[trigger] l.has_key(x) ==> o.has_key(x)
    &&& forall|x: u64| x != k && #[trigger] r.has_key(x) ==> o.has_key(x)
    &&& forall|x: u64| x != k && #[trigger] o.has_key(x) ==> l.has_key(x) || r.has_key(x)
}

/// A single-pass cursor over the records of a key range, in ascending key order.
pub struct cursor_s {
    pub items: Vec<(u64, u64)>,
    pub pos: usize,
    pub start_key: u64,
    pub end_key: u64,
}

impl cursor_s {
    /// The next record, if the range has more.
    pub fn next(&mut self) -> (r: Option<(u64, u64)>)
        requires
            old(self).pos <= old(self).items@.len(),
        ensures
            final(self).items == old(self).items,
            final(self).start_key == old(self).start_key,
            final(self).end_key == old(self).end_key,
            final(self).pos <= final(self).items@.len(),
            old(self).pos < old(self).items@.len() ==> r == Some(old(self).items@[old(self).pos as int])
                && final(self).pos == old(self).pos + 1,
            old(self).pos == old(self).items@.len() ==> r is None && final(self).pos == old(self).pos,
    {
        if self.pos < self.items.len() {
            let item = self.items[self.pos];
            self.pos = self.pos + 1;
            Some(item)
        } else {
            None
        }
    }
}

/// The value recorded under `k` in `m`, if any.
pub open spec fn lookup(m: Map<u64, u64>, k: u64) -> Option<u64> {
    if m.contains_key(k) {
        Some(m[k])
    } else {
        None
    }
}

/// `r` lists the records of `m` whose keys lie from `start` to `end`, each
/// once, in strictly ascending key order.
pub open spec fn ordered_scan(m: Map<u64, u64>, start: u64, end: u64, r: Seq<(u64, u64)>) -> bool {
    &&& forall|a: int, b: int| 0 <= a < b < r.len() ==> r[a].0 < r[b].0
    &&& forall|a: int| 0 <= a < r.len() ==> start <= (#[trigger] r[a]).0 <= end
        && m.contains_key(r[a].0) && m[r[a].0] == r[a].1
    &&& forall|k: u64| start <= k <= end && #[trigger] m.contains_key(k) ==>
        exists|a: int| 0 <= a < r.len() && r[a].0 == k
}

/// Once `v` is put under `k`, a lookup of `k` gives `v`, and puts and
/// deletions of other keys leave that so.
pub proof fn law_round_trip(m: Map<u64, u64>, k: u64, v: u64, k2: u64, v2: u64)
    requires
        k2 != k,
    ensures
        lookup(m.insert(k, v), k) == Some(v),
        lookup(m.insert(k, v).insert(k2, v2), k) == Some(v),
        lookup(m.insert(k, v).remove(k2), k) == Some(v),
{
}

/// Putting `v1` and then `v2` under `k` leaves one record for `k`, with `v2`;
/// when `k` was absent, the record count grows by exactly one over both puts.
pub proof fn law_overwrite(m: Map<u64, u64>, k: u64, v1: u64, v2: u64, n0: int, n1: int, n2: int)
    requires
        n1 == n0 + if m.contains_key(k) { 0int } else { 1int },
        n2 == n1 + if m.insert(k, v1).contains_key(k) { 0int } else { 1int },
    ensures
        m.insert(k, v1).insert(k, v2) == m.insert(k, v2),
        lookup(m.insert(k, v1).insert(k, v2), k) == Some(v2),
        !m.contains_key(k) ==> n2 == n0 + 1,
        m.contains_key(k) ==> n2 == n0,
{
    assert(m.insert(k, v1).insert(k, v2) =~= m.insert(k, v2));
}

/// After `k` is deleted it is not found; deleting an absent key changes
/// neither the records nor their count.
pub proof fn law_delete(m: Map<u64, u64>, k: u64, n0: int, n1: int)
    requires
        n1 == n0 - if m.contains_key(k) { 1int } else { 0int },
    ensures
        lookup(m.remove(k), k) == None::<u64>,
        !m.contains_key(k) ==> m.remove(k) == m && n1 == n0,
{
    assert(!m.contains_key(k) ==> m.remove(k) =~= m);
}

/// A scan from the least to the greatest key of a set of records yields each
/// key exactly once, in strictly ascending order, and no other.
pub proof fn law_ordering(m: Map<u64, u64>, lo: u64, hi: u64, r: Seq<(u64, u64)>)
    requires
        ordered_scan(m, lo, hi, r),
        forall|k: u64| #[trigger] m.contains_key(k) ==> lo <= k <= hi,
    ensures
        forall|k: u64| #[trigger] m.contains_key(k) <==> exists|a: int| 0 <= a < r.len() && r[a].0 == k,
        forall|a: int, b: int| 0 <= a < r.len() && 0 <= b < r.len() && a != b ==> r[a].0 != r[b].0,
        forall|a: int, b: int| 0 <= a < b < r.len() ==> r[a].0 < r[b].0,
{
    assert forall|k: u64| #[trigger] m.contains_key(k) <==> exists|a: int| 0 <= a < r.len() && r[a].0 == k by {
        if exists|a: int| 0 <= a < r.len() && r[a].0 == k {
            let a = choose|a: int| 0 <= a < r.len() && r[a].0 == k;
            assert(m.contains_key(r[a].0));
        }
    }
    assert forall|a: int, b: int| 0 <= a < r.len() && 0 <= b < r.len() && a != b implies r[a].0 != r[b].0 by {
        if a < b {
            assert(r[a].0 < r[b].0);
        } else {
            assert(r[b].0 < r[a].0);
        }
    }
}

/// Leaf pages, with their ids, that form a chain an engine can stand on: ids
/// in use and distinct, well-formed leaves linked in order, whose bounds
/// follow each other from key 0 to the greatest key.
#[verifier::opaque]
pub open spec fn stored_chain(alc: allocator_s, l: Seq<(u64, page_s)>) -> bool {
    &&& 0 < l.len() <= MAX_CHUNK_NUM * PAGE_NUM_PER_CK
    &&& forall|i: int| 0 <= i < l.len() ==> entry_ok(alc, #[trigger] l[i])
    &&& forall|i: int, j: int| 0 <= i < j < l.len() ==> (#[trigger] l[i]).0 != (#[trigger] l[j]).0
        && l[i].1.high < l[j].1.low
    &&& l[0].1.low == 0
    &&& l.last().1.high == 0xffff_ffff_ffff_ffff
    &&& l.last().1.next == GPID_NIL
    &&& forall|i: int| 0 <= i < l.len() - 1 ==> (#[trigger] l[i]).1.next == l[i + 1].0
        && l[i].1.high + 1 == l[i + 1].1.low
}

/// Page id `e.0` may hold leaf `e.1`: a valid id past the bitmap pages, in
/// use, holding a well-formed leaf.
#[verifier::opaque]
pub open spec fn entry_ok(alc: allocator_s, e: (u64, page_s)) -> bool {
    &&& valid_gpid(e.0 as int)
    &&& local_of(e.0 as int) >= PAGE_BITMAP_PAGES
    &&& alc.allocated(e.0 as int)
    &&& e.1@.leaf_wf()
}

/// Whether page id `g` may hold leaf `p`: a valid id past the bitmap pages,
/// in use, holding a well-formed leaf.
fn leaf_entry_ok(alc: &allocator_s, g: u64, p: &page_s) -> (r: bool)
    requires
        alc.wf(),
    ensures
        r == entry_ok(*alc, (g, *p)),
{
    reveal(entry_ok);
    if g >= MAX_CHUNK_NUM * PAGE_NUM_PER_CK || g % PAGE_NUM_PER_CK < PAGE_BITMAP_PAGES {
        return false;
    }
    alc.is_allocated(g) && p.is_wf_leaf()
}

/// Pairwise order and distinct ids extend from the first `i` leaves to the
/// first `i + 1`.
proof fn lemma_pairwise_step(alc: allocator_s, l: Seq<(u64, page_s)>, i: int)
    requires
        0 <= i < l.len(),
        forall|a: int, b: int| 0 <= a < b < i ==> (#[trigger] l[a]).0 != (#[trigger] l[b]).0
            && l[a].1.high < l[b].1.low,
        forall|a: int| 0 <= a < i ==> #[trigger] l[a].0 != l[i].0,
        i > 0 ==> l[i - 1].1.high + 1 == l[i].1.low && entry_ok(alc, l[i - 1]),
    ensures
        forall|a: int, b: int| 0 <= a < b < i + 1 ==> (#[trigger] l[a]).0 != (#[trigger] l[b]).0
            && l[a].1.high < l[b].1.low,
{
    reveal(entry_ok);
    assert forall|a: int, b: int| 0 <= a < b < i + 1 implies (#[trigger] l[a]).0 != (#[trigger] l[b]).0
        && l[a].1.high < l[b].1.low by {
        if b == i {
            assert(l[a].0 != l[i].0);
            if a < i - 1 {
                assert(l[a].1.high < l[i - 1].1.low);
                assert(l[i - 1].1@.leaf_wf());
            }
        }
    }
}

proof fn lemma_not_chain_entry(alc: allocator_s, l: Seq<(u64, page_s)>, i: int)
    requires
        0 <= i < l.len(),
        !entry_ok(alc, l[i]),
    ensures
        !stored_chain(alc, l),
{
    reveal(stored_chain);
}

proof fn lemma_not_chain_dup(alc: allocator_s, l: Seq<(u64, page_s)>, a: int, i: int)
    requires
        0 <= a < i < l.len(),
        l[a].0 == l[i].0,
    ensures
        !stored_chain(alc, l),
{
    reveal(stored_chain);
}

proof fn lemma_not_chain_link(alc: allocator_s, l: Seq<(u64, page_s)>, i: int)
    requires
        0 <= i < l.len() - 1,
        !(l[i].1.next == l[i + 1].0 && l[i].1.high + 1 == l[i + 1].1.low),
    ensures
        !stored_chain(alc, l),
{
    reveal(stored_chain);
}

/// Whether `l` is a stored chain over allocator `alc`.
#[verifier::rlimit(100)]
pub fn check_leaves(alc: &allocator_s, l: &Vec<(u64, page_s)>) -> (r: bool)
    requires
        alc.wf(),
    ensures
        r == stored_chain(*alc, l@),
{
    let n = l.len();
    if n == 0 || n as u64 > MAX_CHUNK_NUM * PAGE_NUM_PER_CK {
        proof {
            reveal(stored_chain);
            reveal(entry_ok);
        }
        return false;
    }
    if l[0].1.low != 0 {
        proof {
            reveal(stored_chain);
            reveal(entry_ok);
        }
        return false;
    }
    let mut seen: HashMap<u64, usize> = HashMap::new();
    let mut i: usize = 0;
    while i < n
        invariant
            n == l@.len(),
            0 < n <= MAX_CHUNK_NUM * PAGE_NUM_PER_CK,
            l@[0].1.low == 0,
            alc.wf(),
            i <= n,
            forall|a: int| 0 <= a < i ==> entry_ok(*alc, #[trigger] l@[a]),
            forall|a: int, b: int| 0 <= a < b < i ==> (#[trigger] l@[a]).0 != (#[trigger] l@[b]).0
                && l@[a].1.high < l@[b].1.low,
            forall|a: int| 0 <= a < i - 1 ==> (#[trigger] l@[a]).1.next == l@[a + 1].0
                && l@[a].1.high + 1 == l@[a + 1].1.low,
            forall|a: int| 0 <= a < i ==> seen@.contains_key((#[trigger] l@[a]).0),
            forall|g: u64| #[trigger] seen@.contains_key(g) ==> seen@[g] < i && l@[seen@[g] as int].0 == g,
        decreases n - i,
    {
        let g = l[i].0;
        let ok = leaf_entry_ok(alc, g, &l[i].1);
        assert((g, l@[i as int].1) == l@[i as int]);
        if !ok {
            proof {
                lemma_not_chain_entry(*alc, l@, i as int);
            }
            return false;
        }
        if seen.contains_key(&g) {
            proof {
                lemma_not_chain_dup(*alc, l@, seen@[g] as int, i as int);
            }
            return false;
        }
        if i > 0 {
            let q = &l[i - 1].1;
            if q.next != g || q.high == 0xffff_ffff_ffff_ffff || q.high + 1 != l[i].1.low {
                proof {
                    lemma_not_chain_link(*alc, l@, i - 1);
                }
                return false;
            }
        }
        proof {
            assert forall|a: int| 0 <= a < i implies #[trigger] l@[a].0 != l@[i as int].0 by {
                if l@[a].0 == g {
                    assert(seen@.contains_key(g));
                }
            }
        }
        seen.insert(g, i);
        proof {
            lemma_pairwise_step(*alc, l@, i as int);
        }
        i = i + 1;
    }
    let last = &l[n - 1].1;
    proof {
        reveal(stored_chain);
    }
    if last.high != 0xffff_ffff_ffff_ffff || last.next != GPID_NIL {
        return false;
    }
    true
}

/// Records held by the first `n` leaves of `l`.
pub open spec fn records_in(l: Seq<(u64, page_s)>, n: int) -> int
    decreases n,
{
    if n <= 0 || n > l.len() {
        0
    } else {
        records_in(l, n - 1) + l[n - 1].1.keys@.len()
    }
}

/// Index pages an engine can take over: valid ids past the bitmap pages, in
/// use, holding no leaf.
pub open spec fn index_ok(alc: allocator_s, ix: Seq<(u64, page_s)>) -> bool {
    forall|i: int| 0 <= i < ix.len() ==> valid_gpid((#[trigger] ix[i]).0 as int)
        && local_of(ix[i].0 as int) >= PAGE_BITMAP_PAGES && alc.allocated(ix[i].0 as int) && !ix[i].1.leaf
}

/// A stored header an engine can stand on: the magic tag, a tree, and a root
/// page id past the bitmap pages.
pub open spec fn stored_header_ok(h: file_header_s) -> bool {
    &&& h.magic == KV_MAGIC
    &&& h.level != 0
    &&& valid_gpid(h.root_gpid as int)
    &&& local_of(h.root_gpid as int) >= PAGE_BITMAP_PAGES
}

/// Whether `ix` are index pages an engine can take over.
fn check_index(alc: &allocator_s, ix: &Vec<(u64, page_s)>) -> (r: bool)
    requires
        alc.wf(),
    ensures
        r == index_ok(*alc, ix@),
{
    let mut i: usize = 0;
    while i < ix.len()
        invariant
            alc.wf(),
            i <= ix@.len(),
            forall|a: int| 0 <= a < i ==> valid_gpid((#[trigger] ix@[a]).0 as int)
                && local_of(ix@[a].0 as int) >= PAGE_BITMAP_PAGES && alc.allocated(ix@[a].0 as int)
                && !ix@[a].1.leaf,
        decreases ix@.len() - i,
    {
        let g = ix[i].0;
        if g >= MAX_CHUNK_NUM * PAGE_NUM_PER_CK || g % PAGE_NUM_PER_CK < PAGE_BITMAP_PAGES
            || !alc.is_allocated(g) || ix[i].1.leaf {
            return false;
        }
        i = i + 1;
    }
    true
}

} // verus!
