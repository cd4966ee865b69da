use vstd::prelude::*;

verus! {

/// Records a page holds: the page minus its 32-byte header, 16 bytes a record.
pub const RECORD_NUM_PG: u64 = 254;

/// What a page holds.
pub ghost struct PageView {
    pub leaf: bool,
    pub next: u64,
    pub low: u64,
    pub high: u64,
    pub keys: Seq<u64>,
    pub vals: Seq<u64>,
}

/// The content of a page that was never written: all zero.
pub open spec fn zero_view() -> PageView {
    PageView { leaf: false, next: 0, low: 0, high: 0, keys: Seq::empty(), vals: Seq::empty() }
}

/// A page: header fields and the page's records, ordered by key. A leaf covers
/// the keys from `low` to `high`, both included, and links to the next leaf.
pub struct page_s {
    pub leaf: bool,
    pub next: u64,
    pub low: u64,
    pub high: u64,
    pub keys: Vec<u64>,
    pub vals: Vec<u64>,
}

impl View for page_s {
    type V = PageView;

    open spec fn view(&self) -> PageView {
        PageView {
            leaf: self.leaf,
            next: self.next,
            low: self.low,
            high: self.high,
            keys: self.keys@,
            vals: self.vals@,
        }
    }
}

/// Keys strictly ascending.
pub open spec fn sorted(s: Seq<u64>) -> bool {
    forall|i: int, j: int| 0 <= i < j < s.len() ==> s[i] < s[j]
}

impl PageView {
    /// A well-formed leaf: as many values as keys, within capacity, keys
    /// ascending and within the page's bounds.
    pub open spec fn leaf_wf(&self) -> bool {
        &&& self.leaf
        &&& self.keys.len() == self.vals.len()
        &&& self.keys.len() <= RECORD_NUM_PG
        &&& self.low <= self.high
        &&& sorted(self.keys)
        &&& forall|i: int| 0 <= i < self.keys.len() ==> self.low <= #[trigger] self.keys[i] <= self.high
    }

    /// Whether the page holds key `k`.
    pub open spec fn has_key(&self, k: u64) -> bool {
        exists|i: int| 0 <= i < self.keys.len() && self.keys[i] == k
    }
}

impl page_s {
    /// A page with all fields zero.
    pub fn zero() -> (r: page_s)
        ensures
            r@ == zero_view(),
    {
        page_s { leaf: false, next: 0, low: 0, high: 0, keys: Vec::new(), vals: Vec::new() }
    }

    /// An empty leaf covering the keys from `low` to `high`.
    pub fn new_leaf(low: u64, high: u64, next: u64) -> (r: page_s)
        ensures
            r@ == (PageView { leaf: true, next, low, high, keys: Seq::empty(), vals: Seq::empty() }),
    {
        page_s { leaf: true, next, low, high, keys: Vec::new(), vals: Vec::new() }
    }

    /// Whether the page is a well-formed leaf.
    pub fn is_wf_leaf(&self) -> (r: bool)
        ensures
            r == self@.leaf_wf(),
    {
        if !self.leaf || self.keys.len() != self.vals.len() || self.keys.len() as u64 > RECORD_NUM_PG
            || self.low > self.high {
            return false;
        }
        let mut t: usize = 0;
        while t < self.keys.len()
            invariant
                t <= self.keys@.len(),
                forall|a: int, b: int| 0 <= a < b < t ==> self.keys@[a] < self.keys@[b],
                forall|a: int| 0 <= a < t ==> self.low <= #[trigger] self.keys@[a] <= self.high,
            decreases self.keys@.len() - t,
        {
            let k = self.keys[t];
            if k < self.low || k > self.high {
                return false;
            }
            if t > 0 && self.keys[t - 1] >= k {
                return false;
            }
            proof {
                assert forall|a: int, b: int| 0 <= a < b < t + 1 implies self.keys@[a] < self.keys@[b] by {
                    if b == t && a < t - 1 {
                        assert(self.keys@[a] < self.keys@[t - 1]);
                    }
                }
            }
            t = t + 1;
        }
        true
    }

    /// A copy of the page.
    pub fn copy(&self) -> (r: page_s)
        ensures
            r@ == self@,
    {
        let keys = self.keys.clone();
        let vals = self.vals.clone();
        assert(keys@ =~= self.keys@);
        assert(vals@ =~= self.vals@);
        page_s { leaf: self.leaf, next: self.next, low: self.low, high: self.high, keys, vals }
    }

    /// Number of records.
    pub fn record_num(&self) -> (r: usize)
        ensures
            r == self.keys@.len(),
    {
        self.keys.len()
    }

    /// Position of the first record whose key is at least `k`, and whether
    /// that record's key is `k`.
    pub fn search(&self, k: u64) -> (r: (usize, bool))
        requires
            self@.leaf_wf(),
        ensures
            r.0 <= self.keys@.len(),
            forall|i: int| 0 <= i < r.0 ==> #[trigger] self.keys@[i] < k,
            r.0 < self.keys@.len() ==> self.keys@[r.0 as int] >= k,
            r.1 <==> (r.0 < self.keys@.len() && self.keys@[r.0 as int] == k),
            r.1 <==> self@.has_key(k),
    {
        let mut lo: usize = 0;
        let mut hi: usize = self.keys.len();
        while lo < hi
            invariant
                self@.leaf_wf(),
                lo <= hi <= self.keys@.len(),
                forall|i: int| 0 <= i < lo ==> #[trigger] self.keys@[i] < k,
                forall|i: int| hi <= i < self.keys@.len() ==> #[trigger] self.keys@[i] >= k,
            decreases hi - lo,
        {
            let mid = lo + (hi - lo) / 2;
            if self.keys[mid] < k {
                lo = mid + 1;
            } else {
                hi = mid;
            }
        }
        let found = lo < self.keys.len() && self.keys[lo] == k;
        proof {
            if self@.has_key(k) {
                let i = choose|i: int| 0 <= i < self.keys@.len() && self.keys@[i] == k;
                if i < lo {
                } else if i > lo {
                    assert(self.keys@[lo as int] < self.keys@[i]);
                }
            }
        }
        (lo, found)
    }

    /// Puts `v` under key `k`, which lies within the page's bounds: replaces
    /// the value of a record with key `k`, or inserts a record in key order.
    /// Returns whether a record was inserted.
    pub fn insert_record(&mut self, k: u64, v: u64) -> (inserted: bool)
        requires
            old(self)@.leaf_wf(),
            old(self)@.low <= k <= old(self)@.high,
            old(self)@.has_key(k) || old(self).keys@.len() < RECORD_NUM_PG,
        ensures
            final(self)@.leaf_wf(),
            inserted == !old(self)@.has_key(k),
            final(self).leaf == old(self).leaf,
            final(self).next == old(self).next,
            final(self).low == old(self).low,
            final(self).high == old(self).high,
            final(self).keys@.len() == old(self).keys@.len() + if inserted { 1int } else { 0int },
            final(self)@.has_key(k),
            forall|x: u64| x != k ==> (#[trigger] final(self)@.has_key(x) == old(self)@.has_key(x)),
            forall|i: int| 0 <= i < final(self).keys@.len() ==> #[trigger] final(self).vals@[i]
                == if final(self).keys@[i] == k { v } else { old(self).vals@[old(self).keys@.index_of(final(self).keys@[i])] },
    {
        let (pos, found) = self.search(k);
        let ghost o = self@;
        if found {
            self.vals.set(pos, v);
            proof {
                assert(self.keys@ == o.keys);
                assert(self@.keys[pos as int] == k);
                assert(self@.has_key(k));
                assert forall|i: int| 0 <= i < self.keys@.len() implies #[trigger] self.vals@[i]
                    == if self.keys@[i] == k { v } else { o.vals[o.keys.index_of(self.keys@[i])] } by {
                    if self.keys@[i] != k {
                        assert(o.keys[i] == self.keys@[i]);
                        lemma_index_of_sorted(o.keys, i);
                    }
                }
            }
            false
        } else {
            self.keys.insert(pos, k);
            self.vals.insert(pos, v);
            proof {
                let nk = self.keys@;
                assert(nk =~= o.keys.insert(pos as int, k));
                assert forall|i: int, j: int| 0 <= i < j < nk.len() implies nk[i] < nk[j] by {
                    if j < pos { } else if i > pos {
                        assert(nk[i] == o.keys[i - 1] && nk[j] == o.keys[j - 1]);
                    } else if i == pos {
                        assert(nk[j] == o.keys[j - 1]);
                    } else {
                        if j == pos { } else { assert(nk[j] == o.keys[j - 1]); }
                    }
                }
                assert forall|i: int| 0 <= i < nk.len() implies self.low <= #[trigger] nk[i] <= self.high by {
                    if i < pos { } else if i > pos { assert(nk[i] == o.keys[i - 1]); }
                }
                assert(self.keys@[pos as int] == k);
                assert(self@.keys[pos as int] == k);
                assert forall|x: u64| #[trigger] self@.has_key(x) && x != k implies o.has_key(x) by {
                    let i = choose|i: int| 0 <= i < nk.len() && nk[i] == x;
                    if i < pos {
                        assert(o.keys[i] == x);
                    } else {
                        assert(i != pos);
                        assert(nk[i] == o.keys[i - 1]);
                    }
                }
                assert forall|x: u64| #[trigger] o.has_key(x) implies self@.has_key(x) by {
                    let i = choose|i: int| 0 <= i < o.keys.len() && o.keys[i] == x;
                    if i < pos {
                        assert(self@.keys[i] == x);
                    } else {
                        assert(nk[i + 1] == o.keys[i]);
                        assert(self@.keys[i + 1] == x);
                    }
                }
                assert forall|i: int| 0 <= i < nk.len() implies #[trigger] self.vals@[i]
                    == if nk[i] == k { v } else { o.vals[o.keys.index_of(nk[i])] } by {
                    if i < pos {
                        lemma_index_of_sorted(o.keys, i);
                    } else if i > pos {
                        assert(nk[i] == o.keys[i - 1]);
                        lemma_index_of_sorted(o.keys, i - 1);
                    }
                }
            }
            true
        }
    }

    /// Removes the record with key `k`, if there is one. Returns whether one was removed.
    pub fn remove_record(&mut self, k: u64) -> (removed: bool)
        requires
            old(self)@.leaf_wf(),
        ensures
            final(self)@.leaf_wf(),
            removed == old(self)@.has_key(k),
            final(self).leaf == old(self).leaf,
            final(self).next == old(self).next,
            final(self).low == old(self).low,
            final(self).high == old(self).high,
            !final(self)@.has_key(k),
            forall|x: u64| x != k ==> (#[trigger] final(self)@.has_key(x) == old(self)@.has_key(x)),
            forall|i: int| 0 <= i < final(self).keys@.len() ==> #[trigger] final(self).vals@[i]
                == old(self).vals@[old(self).keys@.index_of(final(self).keys@[i])],
    {
        let (pos, found) = self.search(k);
        let ghost o = self@;
        if !found {
            proof {
                assert forall|i: int| 0 <= i < self.keys@.len() implies #[trigger] self.vals@[i]
                    == o.vals[o.keys.index_of(self.keys@[i])] by {
                    lemma_index_of_sorted(o.keys, i);
                }
            }
            return false;
        }
        self.keys.remove(pos);
        self.vals.remove(pos);
        proof {
            let nk = self.keys@;
            assert(nk =~= o.keys.remove(pos as int));
            assert forall|i: int, j: int| 0 <= i < j < nk.len() implies nk[i] < nk[j] by {
                if j < pos { } else if i >= pos {
                    assert(nk[i] == o.keys[i + 1] && nk[j] == o.keys[j + 1]);
                } else {
                    assert(nk[j] == o.keys[j + 1]);
                }
            }
            assert forall|i: int| 0 <= i < nk.len() implies self.low <= #[trigger] nk[i] <= self.high by {
                if i >= pos { assert(nk[i] == o.keys[i + 1]); }
            }
            assert forall|x: u64| #[trigger] self@.has_key(x) implies o.has_key(x) by {
                let i = choose|i: int| 0 <= i < nk.len() && nk[i] == x;
                if i < pos {
                    assert(o.keys[i] == x);
                } else {
                    assert(nk[i] == o.keys[i + 1]);
                }
            }
            assert forall|x: u64| x != k && #[trigger] o.has_key(x) implies self@.has_key(x) by {
                let i = choose|i: int| 0 <= i < o.keys.len() && o.keys[i] == x;
                assert(o.keys[pos as int] == k);
                assert(nk.len() == o.keys.len() - 1);
                if i > pos {
                    assert(nk[i - 1] == o.keys[i]);
                    assert(self@.keys[i - 1] == x);
                } else {
                    assert(i < pos);
                    assert(nk[i] == o.keys[i]);
                    assert(self@.keys[i] == x);
                }
            }
            assert(!self@.has_key(k)) by {
                if self@.has_key(k) {
                    let i = choose|i: int| 0 <= i < nk.len() && nk[i] == k;
                    if i < pos { assert(o.keys[i] == k); } else { assert(o.keys[i + 1] == k); }
                }
            }
            assert forall|i: int| 0 <= i < nk.len() implies #[trigger] self.vals@[i]
                == o.vals[o.keys.index_of(nk[i])] by {
                if i < pos {
                    lemma_index_of_sorted(o.keys, i);
                } else {
                    assert(nk[i] == o.keys[i + 1]);
                    lemma_index_of_sorted(o.keys, i + 1);
                }
            }
        }
        true
    }
}

/// In a sequence of ascending keys, the position of each key is its index.
pub proof fn lemma_index_of_sorted(s: Seq<u64>, i: int)
    requires
        sorted(s),
        0 <= i < s.len(),
    ensures
        s.index_of(s[i]) == i,
{
    assert(s.contains(s[i]));
    let j = s.index_of(s[i]);
    if j != i {
        if j < i { assert(s[j] < s[i]); } else { assert(s[i] < s[j]); }
    }
}

} // verus!
