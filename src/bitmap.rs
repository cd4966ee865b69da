use vstd::prelude::*;
use crate::layout::{PAGE_BITMAP_WLEN, PAGE_NUM_PER_CK};

verus! {

/// Whether bit `b` of word `w` is set.
pub open spec fn word_bit(w: u64, b: u64) -> bool {
    (w >> b) & 1u64 == 1u64
}

proof fn lemma_word_zero(b: u64)
    requires
        b < 64,
    ensures
        !word_bit(0u64, b),
{
    assert((0u64 >> b) & 1u64 != 1u64) by (bit_vector);
}

proof fn lemma_word_set(w: u64, b: u64, c: u64)
    requires
        b < 64,
        c < 64,
    ensures
        word_bit(w | (1u64 << b), c) == (c == b || word_bit(w, c)),
{
    assert((((w | (1u64 << b)) >> c) & 1u64 == 1u64) == (c == b || (w >> c) & 1u64 == 1u64))
        by (bit_vector)
        requires b < 64, c < 64;
}

proof fn lemma_word_clear(w: u64, b: u64, c: u64)
    requires
        b < 64,
        c < 64,
    ensures
        word_bit(w & !(1u64 << b), c) == (c != b && word_bit(w, c)),
{
    assert((((w & !(1u64 << b)) >> c) & 1u64 == 1u64) == (c != b && (w >> c) & 1u64 == 1u64))
        by (bit_vector)
        requires b < 64, c < 64;
}

proof fn lemma_word_test(w: u64, b: u64)
    requires
        b < 64,
    ensures
        (w & (1u64 << b) != 0) == word_bit(w, b),
{
    assert((w & (1u64 << b) != 0) == ((w >> b) & 1u64 == 1u64)) by (bit_vector)
        requires b < 64;
}

/// Free-page bitmap of one chunk: one bit per page, set when the page is allocated.
pub struct page_bitmap_s {
    pub w: Vec<u64>,
}

impl page_bitmap_s {
    pub open spec fn wf(&self) -> bool {
        self.w@.len() == PAGE_BITMAP_WLEN
    }

    /// Whether local page `i` is marked allocated.
    pub open spec fn is_set(&self, i: int) -> bool {
        word_bit(self.w@[i / 64], (i % 64) as u64)
    }

    /// A bitmap with every page free.
    pub fn new() -> (r: page_bitmap_s)
        ensures
            r.wf(),
            forall|i: int| 0 <= i < PAGE_NUM_PER_CK ==> !#[trigger] r.is_set(i),
    {
        let w: Vec<u64> = vec![0u64; PAGE_BITMAP_WLEN as usize];
        let r = page_bitmap_s { w };
        assert forall|i: int| 0 <= i < PAGE_NUM_PER_CK implies !#[trigger] r.is_set(i) by {
            lemma_word_zero((i % 64) as u64);
        }
        r
    }

    /// Whether local page `i` is marked allocated.
    pub fn isset(&self, i: u64) -> (r: bool)
        requires
            self.wf(),
            i < PAGE_NUM_PER_CK,
        ensures
            r == self.is_set(i as int),
    {
        let wi = i / 64;
        let b = i % 64;
        proof { lemma_word_test(self.w@[wi as int], b); }
        self.w[wi as usize] & (1u64 << b) != 0
    }

    /// Marks local page `i` allocated.
    pub fn set(&mut self, i: u64)
        requires
            old(self).wf(),
            i < PAGE_NUM_PER_CK,
        ensures
            final(self).wf(),
            forall|j: int| 0 <= j < PAGE_NUM_PER_CK ==>
                #[trigger] final(self).is_set(j) == (j == i || old(self).is_set(j)),
    {
        let wi = i / 64;
        let b = i % 64;
        let nw = self.w[wi as usize] | (1u64 << b);
        self.w.set(wi as usize, nw);
        assert forall|j: int| 0 <= j < PAGE_NUM_PER_CK implies
            #[trigger] self.is_set(j) == (j == i || old(self).is_set(j)) by {
            if j / 64 == wi as int {
                lemma_word_set(old(self).w@[wi as int], b, (j % 64) as u64);
            }
        }
    }

    /// Marks local page `i` free.
    pub fn clear(&mut self, i: u64)
        requires
            old(self).wf(),
            i < PAGE_NUM_PER_CK,
        ensures
            final(self).wf(),
            forall|j: int| 0 <= j < PAGE_NUM_PER_CK ==>
                #[trigger] final(self).is_set(j) == (j != i && old(self).is_set(j)),
    {
        let wi = i / 64;
        let b = i % 64;
        let nw = self.w[wi as usize] & !(1u64 << b);
        self.w.set(wi as usize, nw);
        assert forall|j: int| 0 <= j < PAGE_NUM_PER_CK implies
            #[trigger] self.is_set(j) == (j != i && old(self).is_set(j)) by {
            if j / 64 == wi as int {
                lemma_word_clear(old(self).w@[wi as int], b, (j % 64) as u64);
            }
        }
    }

    /// The first free page at or after `from`, if any.
    pub fn first_clear(&self, from: u64) -> (r: Option<u64>)
        requires
            self.wf(),
            from <= PAGE_NUM_PER_CK,
        ensures
            match r {
                Some(i) => from <= i < PAGE_NUM_PER_CK && !self.is_set(i as int)
                    && forall|j: int| from <= j < i ==> #[trigger] self.is_set(j),
                None => forall|j: int| from <= j < PAGE_NUM_PER_CK ==> #[trigger] self.is_set(j),
            },
    {
        let mut i = from;
        while i < PAGE_NUM_PER_CK
            invariant
                self.wf(),
                from <= i <= PAGE_NUM_PER_CK,
                forall|j: int| from <= j < i ==> #[trigger] self.is_set(j),
            decreases PAGE_NUM_PER_CK - i,
        {
            if i % 64 == 0 && i + 64 <= PAGE_NUM_PER_CK && self.w[(i / 64) as usize] == 0xffff_ffff_ffff_ffffu64 {
                proof {
                    assert forall|j: int| from <= j < i + 64 implies #[trigger] self.is_set(j) by {
                        if j >= i {
                            let c = (j % 64) as u64;
                            assert(j / 64 == i / 64);
                            assert((0xffff_ffff_ffff_ffffu64 >> c) & 1u64 == 1u64) by (bit_vector)
                                requires c < 64;
                        }
                    }
                }
                i = i + 64;
            } else {
                if !self.isset(i) {
                    return Some(i);
                }
                i = i + 1;
            }
        }
        None
    }
}

} // verus!
