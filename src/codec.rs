use vstd::prelude::*;
use vstd::bytes::{
    spec_u32_from_le_bytes, spec_u32_to_le_bytes, spec_u64_from_le_bytes, spec_u64_to_le_bytes,
    u32_from_le_bytes, u32_to_le_bytes, u64_from_le_bytes, u64_to_le_bytes,
};
use crate::kvdb::file_header_s;
use crate::layout::PAGE_SIZE;
use crate::page::{page_s, PageView, RECORD_NUM_PG};

verus! {

/// Bytes of the page header: record count, flags, next link, low and high bounds.
pub const PAGE_HEADER_LEN: u64 = 32;
/// Bytes of one record: key then value.
pub const RECORD_LEN: u64 = 16;
/// Flag bit of a leaf page.
pub const PAGE_LEAF: u32 = 1;

/// Copies `src` into `buf` at offset `off`.
fn write_bytes(buf: &mut Vec<u8>, off: usize, src: &Vec<u8>)
    requires
        off + src@.len() <= old(buf)@.len(),
        old(buf)@.len() <= usize::MAX,
    ensures
        final(buf)@.len() == old(buf)@.len(),
        final(buf)@.subrange(off as int, off + src@.len()) == src@,
        forall|j: int| 0 <= j < old(buf)@.len() && !(off <= j < off + src@.len()) ==>
            #[trigger] final(buf)@[j] == old(buf)@[j],
{
    let mut i: usize = 0;
    while i < src.len()
        invariant
            off + src@.len() <= buf@.len(),
            buf@.len() == old(buf)@.len(),
            buf@.len() <= usize::MAX,
            i <= src@.len(),
            forall|j: int| off <= j < off + i ==> #[trigger] buf@[j] == src@[j - off],
            forall|j: int| 0 <= j < buf@.len() && !(off <= j < off + i) ==> #[trigger] buf@[j] == old(buf)@[j],
        decreases src@.len() - i,
    {
        buf.set(off + i, src[i]);
        i = i + 1;
    }
    assert(buf@.subrange(off as int, off + src@.len()) =~= src@);
}

/// The byte layout of page `p` in `b`: the header fields little-endian, then
/// the records, then zeros up to the page size.
pub open spec fn page_layout(b: Seq<u8>, p: PageView) -> bool {
    let n = p.keys.len();
    &&& b.len() == PAGE_SIZE
    &&& b.subrange(0, 4) == spec_u32_to_le_bytes(n as u32)
    &&& b.subrange(4, 8) == spec_u32_to_le_bytes(if p.leaf { PAGE_LEAF } else { 0u32 })
    &&& b.subrange(8, 16) == spec_u64_to_le_bytes(p.next)
    &&& b.subrange(16, 24) == spec_u64_to_le_bytes(p.low)
    &&& b.subrange(24, 32) == spec_u64_to_le_bytes(p.high)
    &&& forall|i: int| 0 <= i < n ==> #[trigger] b.subrange(32 + 16 * i, 40 + 16 * i)
        == spec_u64_to_le_bytes(p.keys[i])
    &&& forall|i: int| 0 <= i < n ==> #[trigger] b.subrange(40 + 16 * i, 48 + 16 * i)
        == spec_u64_to_le_bytes(p.vals[i])
    &&& forall|j: int| 32 + 16 * n <= j < PAGE_SIZE ==> #[trigger] b[j] == 0
}

/// The bytes of page `p` in the file.
pub fn encode_page(p: &page_s) -> (r: Vec<u8>)
    requires
        p.keys@.len() == p.vals@.len(),
        p.keys@.len() <= RECORD_NUM_PG,
    ensures
        page_layout(r@, p@),
{
    let n = p.keys.len();
    let mut buf: Vec<u8> = vec![0u8; PAGE_SIZE as usize];
    let flags: u32 = if p.leaf { PAGE_LEAF } else { 0 };
    write_bytes(&mut buf, 0, &u32_to_le_bytes(n as u32));
    let ghost b0 = buf@;
    write_bytes(&mut buf, 4, &u32_to_le_bytes(flags));
    let ghost b1 = buf@;
    write_bytes(&mut buf, 8, &u64_to_le_bytes(p.next));
    let ghost b2 = buf@;
    write_bytes(&mut buf, 16, &u64_to_le_bytes(p.low));
    let ghost b3 = buf@;
    write_bytes(&mut buf, 24, &u64_to_le_bytes(p.high));
    assert(buf@.subrange(0, 4) =~= b0.subrange(0, 4));
    assert(buf@.subrange(4, 8) =~= b1.subrange(4, 8));
    assert(buf@.subrange(8, 16) =~= b2.subrange(8, 16));
    assert(buf@.subrange(16, 24) =~= b3.subrange(16, 24));
    let ghost h = buf@;
    let mut i: usize = 0;
    while i < n
        invariant
            n == p.keys@.len(),
            n == p.vals@.len(),
            n <= RECORD_NUM_PG,
            i <= n,
            buf@.len() == PAGE_SIZE,
            buf@.subrange(0, 32) == h.subrange(0, 32),
            forall|j: int| 32 + 16 * i <= j < PAGE_SIZE ==> #[trigger] buf@[j] == 0,
            forall|r: int| 0 <= r < i ==> #[trigger] buf@.subrange(32 + 16 * r, 40 + 16 * r)
                == spec_u64_to_le_bytes(p.keys@[r]),
            forall|r: int| 0 <= r < i ==> #[trigger] buf@.subrange(40 + 16 * r, 48 + 16 * r)
                == spec_u64_to_le_bytes(p.vals@[r]),
        decreases n - i,
    {
        let ghost pre = buf@;
        let off: usize = 32 + 16 * i;
        write_bytes(&mut buf, off, &u64_to_le_bytes(p.keys[i]));
        let ghost mid = buf@;
        write_bytes(&mut buf, off + 8, &u64_to_le_bytes(p.vals[i]));
        proof {
            assert(buf@.subrange(0, 32) =~= pre.subrange(0, 32));
            assert(buf@.subrange(off as int, off + 8) =~= mid.subrange(off as int, off + 8));
            assert forall|r: int| 0 <= r < i implies #[trigger] buf@.subrange(32 + 16 * r, 40 + 16 * r)
                == spec_u64_to_le_bytes(p.keys@[r]) by {
                assert(buf@.subrange(32 + 16 * r, 40 + 16 * r) =~= pre.subrange(32 + 16 * r, 40 + 16 * r));
            }
            assert forall|r: int| 0 <= r < i implies #[trigger] buf@.subrange(40 + 16 * r, 48 + 16 * r)
                == spec_u64_to_le_bytes(p.vals@[r]) by {
                assert(buf@.subrange(40 + 16 * r, 48 + 16 * r) =~= pre.subrange(40 + 16 * r, 48 + 16 * r));
            }
        }
        i = i + 1;
    }
    proof {
        assert(buf@.subrange(0, 4) =~= buf@.subrange(0, 32).subrange(0, 4));
        assert(buf@.subrange(4, 8) =~= buf@.subrange(0, 32).subrange(4, 8));
        assert(buf@.subrange(8, 16) =~= buf@.subrange(0, 32).subrange(8, 16));
        assert(buf@.subrange(16, 24) =~= buf@.subrange(0, 32).subrange(16, 24));
        assert(buf@.subrange(24, 32) =~= buf@.subrange(0, 32).subrange(24, 32));
        assert(h.subrange(0, 4) =~= h.subrange(0, 32).subrange(0, 4));
        assert(h.subrange(4, 8) =~= h.subrange(0, 32).subrange(4, 8));
        assert(h.subrange(8, 16) =~= h.subrange(0, 32).subrange(8, 16));
        assert(h.subrange(16, 24) =~= h.subrange(0, 32).subrange(16, 24));
        assert(h.subrange(24, 32) =~= h.subrange(0, 32).subrange(24, 32));
    }
    buf
}

/// The little-endian 64-bit word at offset `off` of `b`.
pub open spec fn word_at(b: Seq<u8>, off: int) -> u64 {
    spec_u64_from_le_bytes(b.subrange(off, off + 8))
}

/// Reads the little-endian 64-bit word at offset `off`.
fn read_u64(b: &Vec<u8>, off: usize) -> (r: u64)
    requires
        off + 8 <= b@.len(),
        b@.len() <= usize::MAX,
    ensures
        r == word_at(b@, off as int),
{
    let mut w: Vec<u8> = Vec::new();
    let mut i: usize = 0;
    while i < 8
        invariant
            off + 8 <= b@.len(),
            b@.len() <= usize::MAX,
            i <= 8,
            w@ == b@.subrange(off as int, off + i),
        decreases 8 - i,
    {
        w.push(b[off + i]);
        i = i + 1;
        assert(w@ =~= b@.subrange(off as int, off + i));
    }
    u64_from_le_bytes(w.as_slice())
}

/// Reads the little-endian 32-bit word at offset `off`.
fn read_u32(b: &Vec<u8>, off: usize) -> (r: u32)
    requires
        off + 4 <= b@.len(),
        b@.len() <= usize::MAX,
    ensures
        r == spec_u32_from_le_bytes(b@.subrange(off as int, off + 4)),
{
    let mut w: Vec<u8> = Vec::new();
    let mut i: usize = 0;
    while i < 4
        invariant
            off + 4 <= b@.len(),
            b@.len() <= usize::MAX,
            i <= 4,
            w@ == b@.subrange(off as int, off + i),
        decreases 4 - i,
    {
        w.push(b[off + i]);
        i = i + 1;
        assert(w@ =~= b@.subrange(off as int, off + i));
    }
    u32_from_le_bytes(w.as_slice())
}

/// Whether the header of page bytes `b` is acceptable: a record count within
/// the page's capacity and no flag but the leaf flag.
pub open spec fn header_ok(b: Seq<u8>) -> bool {
    &&& spec_u32_from_le_bytes(b.subrange(0, 4)) <= RECORD_NUM_PG
    &&& spec_u32_from_le_bytes(b.subrange(4, 8)) <= PAGE_LEAF
}

/// `p` is what page bytes `b` hold.
pub open spec fn decodes_to(b: Seq<u8>, p: PageView) -> bool {
    let n = spec_u32_from_le_bytes(b.subrange(0, 4));
    &&& p.keys.len() == n
    &&& p.vals.len() == n
    &&& p.leaf == (spec_u32_from_le_bytes(b.subrange(4, 8)) == PAGE_LEAF)
    &&& p.next == word_at(b, 8)
    &&& p.low == word_at(b, 16)
    &&& p.high == word_at(b, 24)
    &&& forall|i: int| 0 <= i < n ==> #[trigger] p.keys[i] == word_at(b, 32 + 16 * i)
    &&& forall|i: int| 0 <= i < n ==> #[trigger] p.vals[i] == word_at(b, 40 + 16 * i)
}

/// The page that page bytes `b` hold; `None` when their header is not acceptable.
pub fn decode_page(b: &Vec<u8>) -> (r: Option<page_s>)
    requires
        b@.len() == PAGE_SIZE,
    ensures
        r is Some <==> header_ok(b@),
        r matches Some(p) ==> decodes_to(b@, p@),
{
    let n = read_u32(b, 0);
    let flags = read_u32(b, 4);
    if n as u64 > RECORD_NUM_PG || flags > PAGE_LEAF {
        return None;
    }
    let next = read_u64(b, 8);
    let low = read_u64(b, 16);
    let high = read_u64(b, 24);
    let mut keys: Vec<u64> = Vec::new();
    let mut vals: Vec<u64> = Vec::new();
    let mut i: usize = 0;
    while i < n as usize
        invariant
            b@.len() == PAGE_SIZE,
            n <= RECORD_NUM_PG,
            i <= n,
            keys@.len() == i,
            vals@.len() == i,
            forall|r: int| 0 <= r < i ==> #[trigger] keys@[r] == word_at(b@, 32 + 16 * r),
            forall|r: int| 0 <= r < i ==> #[trigger] vals@[r] == word_at(b@, 40 + 16 * r),
        decreases n - i,
    {
        let k = read_u64(b, 32 + 16 * i);
        let v = read_u64(b, 40 + 16 * i);
        keys.push(k);
        vals.push(v);
        i = i + 1;
    }
    Some(page_s { leaf: flags == PAGE_LEAF, next, low, high, keys, vals })
}

/// Decoding the bytes of an encoded page gives the page back.
pub proof fn law_page_round_trip(b: Seq<u8>, p: PageView)
    requires
        page_layout(b, p),
        p.keys.len() == p.vals.len(),
        p.keys.len() <= RECORD_NUM_PG,
    ensures
        header_ok(b),
        decodes_to(b, p),
{
    vstd::bytes::lemma_auto_spec_u64_to_from_le_bytes();
    vstd::bytes::lemma_auto_spec_u32_to_from_le_bytes();
    let n = p.keys.len();
    assert(spec_u32_to_le_bytes(n as u32).len() == 4);
    assert(spec_u32_to_le_bytes(PAGE_LEAF).len() == 4);
    assert(spec_u32_to_le_bytes(0u32).len() == 4);
    assert(spec_u32_from_le_bytes(b.subrange(0, 4)) == n as u32);
    assert(spec_u32_from_le_bytes(b.subrange(4, 8)) == if p.leaf { PAGE_LEAF } else { 0u32 });
    assert forall|i: int| 0 <= i < n implies #[trigger] p.keys[i] == word_at(b, 32 + 16 * i) by {
        assert(b.subrange(32 + 16 * i, 40 + 16 * i) == spec_u64_to_le_bytes(p.keys[i]));
    }
    assert forall|i: int| 0 <= i < n implies #[trigger] p.vals[i] == word_at(b, 40 + 16 * i) by {
        assert(b.subrange(40 + 16 * i, 48 + 16 * i) == spec_u64_to_le_bytes(p.vals[i]));
    }
}

/// The bytes of words `w`, each little-endian, one after another.
pub fn encode_words(w: &Vec<u64>) -> (r: Vec<u8>)
    requires
        w@.len() <= 0x1000_0000,
    ensures
        r@.len() == 8 * w@.len(),
        forall|i: int| 0 <= i < w@.len() ==> #[trigger] r@.subrange(8 * i, 8 * i + 8)
            == spec_u64_to_le_bytes(w@[i]),
{
    let n = w.len();
    let mut buf: Vec<u8> = vec![0u8; 8 * n];
    let mut i: usize = 0;
    while i < n
        invariant
            n == w@.len(),
            n <= 0x1000_0000,
            i <= n,
            buf@.len() == 8 * n,
            forall|r: int| 0 <= r < i ==> #[trigger] buf@.subrange(8 * r, 8 * r + 8)
                == spec_u64_to_le_bytes(w@[r]),
        decreases n - i,
    {
        let ghost pre = buf@;
        write_bytes(&mut buf, 8 * i, &u64_to_le_bytes(w[i]));
        proof {
            assert forall|r: int| 0 <= r < i implies #[trigger] buf@.subrange(8 * r, 8 * r + 8)
                == spec_u64_to_le_bytes(w@[r]) by {
                assert(buf@.subrange(8 * r, 8 * r + 8) =~= pre.subrange(8 * r, 8 * r + 8));
            }
        }
        i = i + 1;
    }
    buf
}

/// The words of `b`, read little-endian, eight bytes each.
pub fn decode_words(b: &Vec<u8>) -> (r: Vec<u64>)
    requires
        b@.len() <= usize::MAX,
    ensures
        r@.len() == b@.len() / 8,
        forall|i: int| 0 <= i < r@.len() ==> #[trigger] r@[i] == word_at(b@, 8 * i),
{
    let n = b.len() / 8;
    let mut r: Vec<u64> = Vec::new();
    let mut i: usize = 0;
    while i < n
        invariant
            n == b@.len() / 8,
            b@.len() <= usize::MAX,
            i <= n,
            r@.len() == i,
            forall|j: int| 0 <= j < i ==> #[trigger] r@[j] == word_at(b@, 8 * j),
        decreases n - i,
    {
        let x = read_u64(b, 8 * i);
        r.push(x);
        i = i + 1;
    }
    r
}

/// The byte layout of the file header `h` in `b`: magic, file size, record
/// count, total and spare pages, level and root page id, little-endian.
pub open spec fn header_layout(b: Seq<u8>, h: file_header_s) -> bool {
    &&& b.len() == PAGE_SIZE
    &&& b.subrange(0, 8) == spec_u64_to_le_bytes(h.magic)
    &&& b.subrange(8, 16) == spec_u64_to_le_bytes(h.file_size)
    &&& b.subrange(16, 24) == spec_u64_to_le_bytes(h.record_num)
    &&& b.subrange(24, 32) == spec_u64_to_le_bytes(h.total_pages)
    &&& b.subrange(32, 40) == spec_u64_to_le_bytes(h.spare_pages)
    &&& b.subrange(40, 44) == spec_u32_to_le_bytes(h.level)
    &&& b.subrange(48, 56) == spec_u64_to_le_bytes(h.root_gpid)
}

/// The bytes of the file header.
pub fn encode_header(h: &file_header_s) -> (r: Vec<u8>)
    ensures
        header_layout(r@, *h),
{
    let mut buf: Vec<u8> = vec![0u8; PAGE_SIZE as usize];
    write_bytes(&mut buf, 0, &u64_to_le_bytes(h.magic));
    let ghost b0 = buf@;
    write_bytes(&mut buf, 8, &u64_to_le_bytes(h.file_size));
    let ghost b1 = buf@;
    write_bytes(&mut buf, 16, &u64_to_le_bytes(h.record_num));
    let ghost b2 = buf@;
    write_bytes(&mut buf, 24, &u64_to_le_bytes(h.total_pages));
    let ghost b3 = buf@;
    write_bytes(&mut buf, 32, &u64_to_le_bytes(h.spare_pages));
    let ghost b4 = buf@;
    write_bytes(&mut buf, 40, &u32_to_le_bytes(h.level));
    let ghost b5 = buf@;
    write_bytes(&mut buf, 48, &u64_to_le_bytes(h.root_gpid));
    assert(buf@.subrange(0, 8) =~= b0.subrange(0, 8));
    assert(buf@.subrange(8, 16) =~= b1.subrange(8, 16));
    assert(buf@.subrange(16, 24) =~= b2.subrange(16, 24));
    assert(buf@.subrange(24, 32) =~= b3.subrange(24, 32));
    assert(buf@.subrange(32, 40) =~= b4.subrange(32, 40));
    assert(buf@.subrange(40, 44) =~= b5.subrange(40, 44));
    buf
}

/// The file header that header bytes `b` hold.
pub fn decode_header(b: &Vec<u8>) -> (r: file_header_s)
    requires
        b@.len() == PAGE_SIZE,
    ensures
        r.magic == word_at(b@, 0),
        r.file_size == word_at(b@, 8),
        r.record_num == word_at(b@, 16),
        r.total_pages == word_at(b@, 24),
        r.spare_pages == word_at(b@, 32),
        r.level == spec_u32_from_le_bytes(b@.subrange(40, 44)),
        r.root_gpid == word_at(b@, 48),
{
    file_header_s {
        magic: read_u64(b, 0),
        file_size: read_u64(b, 8),
        record_num: read_u64(b, 16),
        total_pages: read_u64(b, 24),
        spare_pages: read_u64(b, 32),
        level: read_u32(b, 40),
        root_gpid: read_u64(b, 48),
    }
}

} // verus!
