use vstd::prelude::*;

verus! {

/// Size of a page in bytes.
pub const PAGE_SIZE: u64 = 4096;
/// Length of the metadata region; the data area begins here.
pub const FILE_META_LEN: u64 = 2097152;
/// File offset of the busy-page-count table.
pub const BUSY_PAGE_NUM_POS: u64 = 1048576;
/// Length in bytes of one chunk's page bitmap.
pub const PAGE_BITMAP_LEN: u64 = 65536;
/// Pages at the start of every chunk that hold the chunk's own bitmap.
pub const PAGE_BITMAP_PAGES: u64 = 16;
/// Pages in a chunk: one bit of the bitmap per page.
pub const PAGE_NUM_PER_CK: u64 = 524288;
/// 64-bit words in a page bitmap.
pub const PAGE_BITMAP_WLEN: u64 = 8192;
/// Maximum number of chunks in a file.
pub const MAX_CHUNK_NUM: u64 = 262144;
/// The "no page" global page id.
pub const GPID_NIL: u64 = 0xffff_ffff_ffff_ffff;
/// The "no chunk" chunk id.
pub const CKID_NIL: u64 = 0xffff_ffff_ffff_ffff;

/// Global page id of local page `lpid` in chunk `ck`.
pub open spec fn spec_gpid(ck: int, lpid: int) -> int {
    ck * PAGE_NUM_PER_CK + lpid
}

/// File offset of the page with global id `gpid`.
pub open spec fn spec_page_pos(gpid: int) -> int {
    FILE_META_LEN + gpid * PAGE_SIZE
}

/// A global page id that addresses a page of the data area.
pub open spec fn valid_gpid(gpid: int) -> bool {
    0 <= gpid < MAX_CHUNK_NUM * PAGE_NUM_PER_CK
}

/// Global page id of local page `lpid` in chunk `ck`.
pub fn get_gpid(ck: u64, lpid: u64) -> (r: u64)
    requires
        ck < MAX_CHUNK_NUM,
        lpid < PAGE_NUM_PER_CK,
    ensures
        r == spec_gpid(ck as int, lpid as int),
        valid_gpid(r as int),
        r / PAGE_NUM_PER_CK == ck,
        r % PAGE_NUM_PER_CK == lpid,
{
    assert(ck * PAGE_NUM_PER_CK + lpid < MAX_CHUNK_NUM * PAGE_NUM_PER_CK) by (nonlinear_arith)
        requires ck < MAX_CHUNK_NUM, lpid < PAGE_NUM_PER_CK;
    assert((ck * PAGE_NUM_PER_CK + lpid) / (PAGE_NUM_PER_CK as int) == ck
        && (ck * PAGE_NUM_PER_CK + lpid) % (PAGE_NUM_PER_CK as int) == lpid) by {
        vstd::arithmetic::div_mod::lemma_fundamental_div_mod_converse(
            (ck * PAGE_NUM_PER_CK + lpid) as int, PAGE_NUM_PER_CK as int, ck as int, lpid as int);
    }
    ck * PAGE_NUM_PER_CK + lpid
}

/// File offset of the page with global id `gpid`.
pub fn get_page_pos(gpid: u64) -> (r: u64)
    requires
        valid_gpid(gpid as int),
    ensures
        r == spec_page_pos(gpid as int),
{
    assert(gpid * PAGE_SIZE < MAX_CHUNK_NUM * PAGE_NUM_PER_CK * PAGE_SIZE) by (nonlinear_arith)
        requires gpid < MAX_CHUNK_NUM * PAGE_NUM_PER_CK;
    FILE_META_LEN + gpid * PAGE_SIZE
}

/// File offset of chunk `ck`, where its bitmap is stored.
pub fn get_ck_pos(ck: u64) -> (r: u64)
    requires
        ck < MAX_CHUNK_NUM,
    ensures
        r == spec_page_pos(spec_gpid(ck as int, 0)),
{
    let gpid = get_gpid(ck, 0);
    get_page_pos(gpid)
}

} // verus!
