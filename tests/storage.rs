use lycee::allocator::{allocator_s, busy_page_num_s};
use lycee::bitmap::page_bitmap_s;
use lycee::cache::{cache_s, EVICT_NUM, MAX_MAPPED_PG};
use lycee::codec::{decode_header, decode_page, decode_words, encode_header, encode_page, encode_words};
use lycee::error::KvError;
use lycee::kvdb::{kvdb_s, KV_MAGIC};
use lycee::layout::{
    get_ck_pos, get_gpid, get_page_pos, CKID_NIL, GPID_NIL, MAX_CHUNK_NUM, PAGE_BITMAP_PAGES, PAGE_NUM_PER_CK,
};
use lycee::modify::Modify;
use lycee::page::{page_s, RECORD_NUM_PG};

#[test]
fn is_it_work() {
    assert_eq!(1 + 2, 3);
}

#[test]
fn test_cache_s_new() {
    let cache = cache_s::new();
    assert_eq!(cache.capacity_of(), MAX_MAPPED_PG);
    assert_eq!(cache.bucket_num(), 256);
    assert_eq!(cache.mapped_num(), 0);
}

#[test]
fn scenario_put_overwrite_delete() {
    let mut db = kvdb_s::create();
    assert_eq!(db.put(1, 100), Ok(()));
    assert_eq!(db.get(1), Some(100));
    assert_eq!(db.put(1, 200), Ok(()));
    assert_eq!(db.get(1), Some(200));
    assert_eq!(db.record_num(), 1);
    assert!(db.del(1));
    assert_eq!(db.get(1), None);
    assert_eq!(db.record_num(), 0);
}

#[test]
fn scan_yields_sorted_keys() {
    let mut db = kvdb_s::create();
    for (k, v) in [(5u64, 50u64), (3, 30), (9, 90), (1, 10), (7, 70)] {
        assert_eq!(db.put(k, v), Ok(()));
    }
    let keys: Vec<u64> = db.iter(0, u64::MAX).iter().map(|r| r.0).collect();
    assert_eq!(keys, vec![1, 3, 5, 7, 9]);
    assert_eq!(db.iter(3, 7), vec![(3, 30), (5, 50), (7, 70)]);
    assert_eq!(db.iter(8, 2), vec![]);
}

#[test]
fn empty_file_has_no_records() {
    let mut db = kvdb_s::create();
    assert_eq!(db.level(), 0);
    assert_eq!(db.root_gpid(), GPID_NIL);
    assert_eq!(db.magic(), KV_MAGIC);
    assert_eq!(db.get(42), None);
    assert!(!db.del(42));
    assert_eq!(db.iter(0, u64::MAX), vec![]);
    assert_eq!(db.record_num(), 0);
}

#[test]
fn first_put_makes_root_leaf() {
    let mut db = kvdb_s::create();
    assert_eq!(db.put(7, 1), Ok(()));
    assert_eq!(db.level(), 1);
    // the first page after the bitmap pages of chunk 0
    assert_eq!(db.root_gpid(), PAGE_BITMAP_PAGES);
}

fn mix(i: u64) -> u64 {
    i.wrapping_mul(0x9E37_79B9_7F4A_7C15) ^ (i >> 7)
}

#[test]
fn round_trip_across_splits() {
    let mut db = kvdb_s::create();
    let n: u64 = 3000;
    for i in 0..n {
        assert_eq!(db.put(mix(i), i), Ok(()));
    }
    assert_eq!(db.record_num(), n);
    for i in 0..n {
        assert_eq!(db.get(mix(i)), Some(i));
    }
    let all = db.iter(0, u64::MAX);
    assert_eq!(all.len() as u64, n);
    for w in all.windows(2) {
        assert!(w[0].0 < w[1].0);
    }
    let mut expected: Vec<u64> = (0..n).map(mix).collect();
    expected.sort();
    let keys: Vec<u64> = all.iter().map(|r| r.0).collect();
    assert_eq!(keys, expected);
}

#[test]
fn overwrite_counts_once() {
    let mut db = kvdb_s::create();
    assert_eq!(db.put(10, 1), Ok(()));
    let before = db.record_num();
    assert_eq!(db.put(11, 1), Ok(()));
    assert_eq!(db.put(11, 2), Ok(()));
    assert_eq!(db.record_num(), before + 1);
    assert_eq!(db.iter(11, 11), vec![(11, 2)]);
}

#[test]
fn delete_absent_key_keeps_count() {
    let mut db = kvdb_s::create();
    assert_eq!(db.put(1, 1), Ok(()));
    assert_eq!(db.put(2, 2), Ok(()));
    assert!(!db.del(3));
    assert_eq!(db.record_num(), 2);
    assert!(db.del(2));
    assert!(!db.del(2));
    assert_eq!(db.record_num(), 1);
    assert_eq!(db.get(1), Some(1));
}

#[test]
fn delete_after_splits() {
    let mut db = kvdb_s::create();
    for k in 0..1000u64 {
        assert_eq!(db.put(k, k + 1), Ok(()));
    }
    for k in (0..1000u64).step_by(2) {
        assert!(db.del(k));
    }
    assert_eq!(db.record_num(), 500);
    for k in 0..1000u64 {
        assert_eq!(db.get(k), if k % 2 == 0 { None } else { Some(k + 1) });
    }
    let keys: Vec<u64> = db.iter(0, u64::MAX).iter().map(|r| r.0).collect();
    let expected: Vec<u64> = (0..1000u64).filter(|k| k % 2 == 1).collect();
    assert_eq!(keys, expected);
}

#[test]
fn extreme_keys() {
    let mut db = kvdb_s::create();
    assert_eq!(db.put(u64::MAX, 1), Ok(()));
    assert_eq!(db.put(0, 2), Ok(()));
    assert_eq!(db.iter(0, u64::MAX), vec![(0, 2), (u64::MAX, 1)]);
    assert_eq!(db.get(u64::MAX), Some(1));
}

#[test]
fn layout_positions() {
    assert_eq!(get_gpid(1, 5), 524293);
    assert_eq!(get_page_pos(0), 2 * 1024 * 1024);
    assert_eq!(get_page_pos(3), 2 * 1024 * 1024 + 3 * 4096);
    assert_eq!(get_ck_pos(1), 2 * 1024 * 1024 + 524288 * 4096);
    assert_eq!(PAGE_NUM_PER_CK, 65536 * 8);
}

#[test]
fn bitmap_set_clear() {
    let mut b = page_bitmap_s::new();
    assert!(!b.isset(70));
    b.set(70);
    assert!(b.isset(70));
    assert!(!b.isset(71));
    assert_eq!(b.first_clear(70), Some(71));
    for i in 0..64 {
        b.set(i);
    }
    assert_eq!(b.first_clear(0), Some(64));
    b.clear(70);
    assert!(!b.isset(70));
    assert_eq!(b.first_clear(65), Some(65));
}

#[test]
fn allocator_starts_after_bitmap_pages() {
    let mut a = allocator_s::init(busy_page_num_s { n: Vec::new() }, Vec::new()).unwrap();
    assert_eq!(a.curr_ck, 0);
    assert_eq!(a.bpn.get(0), PAGE_BITMAP_PAGES);
    assert_eq!(a.alloc_page(), Ok(16));
    assert_eq!(a.alloc_page(), Ok(17));
    assert_eq!(a.bpn.get(0), PAGE_BITMAP_PAGES + 2);
    assert_eq!(a.free_page(16), Ok(()));
    assert_eq!(a.alloc_page(), Ok(16));
    assert_eq!(a.free_page(100), Err(KvError::Corrupt));
    assert_eq!(a.free_page(3), Err(KvError::Corrupt));
}

#[test]
fn allocator_rolls_over_and_reopens() {
    let mut a = allocator_s::init(busy_page_num_s { n: Vec::new() }, Vec::new()).unwrap();
    let per_chunk = PAGE_NUM_PER_CK - PAGE_BITMAP_PAGES;
    for i in 0..per_chunk {
        assert_eq!(a.alloc_page(), Ok(PAGE_BITMAP_PAGES + i));
    }
    assert_eq!(a.bpn.get(0), PAGE_NUM_PER_CK);
    let g = a.alloc_page().unwrap();
    assert_eq!(g, PAGE_NUM_PER_CK + PAGE_BITMAP_PAGES);
    assert_eq!(a.curr_ck, 1);
    assert_eq!(a.close_curr_ck(), Ok(()));
    assert_eq!(a.close_curr_ck(), Err(KvError::Corrupt));
    let bpn = busy_page_num_s { n: a.bpn.n.clone() };
    let stored: Vec<page_bitmap_s> = a.stored.iter().map(|b| page_bitmap_s { w: b.w.clone() }).collect();
    let mut b = allocator_s::init(bpn, stored).unwrap();
    assert_eq!(b.curr_ck, 1);
    assert!(b.stored[0].isset(PAGE_NUM_PER_CK - 1));
    assert_eq!(b.alloc_page(), Ok(PAGE_NUM_PER_CK + PAGE_BITMAP_PAGES + 1));
}

#[test]
fn allocator_exhausted() {
    let a = allocator_s {
        curr_ck: CKID_NIL,
        bpn: busy_page_num_s { n: vec![PAGE_NUM_PER_CK; MAX_CHUNK_NUM as usize] },
        pb: None,
        stored: Vec::new(),
        hint: PAGE_BITMAP_PAGES,
    };
    assert_eq!(a.find_ck(0), CKID_NIL);
    assert_eq!(a.find_ck(77), CKID_NIL);
}

#[test]
fn allocator_refuses_counters_that_disagree() {
    let n = vec![PAGE_NUM_PER_CK; MAX_CHUNK_NUM as usize];
    assert_eq!(
        allocator_s::init(busy_page_num_s { n }, Vec::new()).err(),
        Some(KvError::Corrupt)
    );
    let mut b = page_bitmap_s::new();
    for i in 0..PAGE_BITMAP_PAGES {
        b.set(i);
    }
    b.set(40);
    assert_eq!(
        allocator_s::init(busy_page_num_s { n: vec![16] }, vec![b]).err(),
        Some(KvError::Corrupt)
    );
    let mut c = page_bitmap_s::new();
    for i in 0..PAGE_BITMAP_PAGES {
        c.set(i);
    }
    c.set(40);
    let mut a = allocator_s::init(busy_page_num_s { n: vec![17] }, vec![c]).unwrap();
    assert_eq!(a.alloc_page(), Ok(16));
    assert_eq!(a.alloc_page(), Ok(17));
}

fn leaf_with(k: u64) -> page_s {
    let mut p = page_s::new_leaf(0, u64::MAX, GPID_NIL);
    assert!(p.insert_record(k, k * 10));
    p
}

#[test]
fn cache_pins_and_capacity() {
    let mut c = cache_s::with_capacity(2);
    assert_eq!(c.fetch(1), Ok(()));
    assert_eq!(c.fetch(2), Ok(()));
    assert_eq!(c.fetch(3), Err(KvError::CacheExhausted));
    assert_eq!(c.mapped_num(), 2);
    assert!(c.is_pinned(1));
    assert_eq!(c.release(1, false), Ok(()));
    assert!(!c.is_pinned(1));
    assert_eq!(c.fetch(3), Ok(()));
    assert_eq!(c.mapped_num(), 2);
    assert!(!c.is_resident(1));
    assert!(c.is_resident(3));
    assert_eq!(c.release(9, false), Err(KvError::Corrupt));
}

#[test]
fn cache_writes_back_dirty_pages() {
    let mut c = cache_s::with_capacity(1);
    assert_eq!(c.put_page(4, leaf_with(8)), Ok(()));
    assert_eq!(c.put_page(5, leaf_with(9)), Ok(()));
    assert!(!c.is_resident(4));
    let p = c.get_page(4).unwrap();
    assert_eq!(p.keys, vec![8]);
    assert_eq!(p.vals, vec![80]);
    assert_eq!(c.mapped_num(), 1);
    let z = c.get_page(77).unwrap();
    assert!(!z.leaf);
    assert_eq!(z.record_num(), 0);
}

#[test]
fn cache_evicts_a_batch() {
    let mut c = cache_s::new();
    for g in 0..MAX_MAPPED_PG {
        assert_eq!(c.fetch(g), Ok(()));
        assert_eq!(c.release(g, false), Ok(()));
    }
    assert_eq!(c.mapped_num() as u64, MAX_MAPPED_PG);
    assert_eq!(c.evict(), EVICT_NUM);
    assert_eq!(c.mapped_num() as u64, MAX_MAPPED_PG - EVICT_NUM);
    assert!(!c.is_resident(0));
    assert!(c.is_resident(MAX_MAPPED_PG - 1));
}

#[test]
fn page_records_in_order() {
    let mut p = page_s::new_leaf(10, 20, GPID_NIL);
    assert!(p.insert_record(15, 1));
    assert!(p.insert_record(11, 2));
    assert!(!p.insert_record(15, 3));
    assert_eq!(p.keys, vec![11, 15]);
    assert_eq!(p.vals, vec![2, 3]);
    assert_eq!(p.search(12), (1, false));
    assert_eq!(p.search(15), (1, true));
    assert!(p.remove_record(11));
    assert!(!p.remove_record(11));
    assert_eq!(p.record_num(), 1);
    assert_eq!(RECORD_NUM_PG, (4096 - 32) / 16);
}

#[test]
fn modify_accessors() {
    let put = Modify::Put { key: vec![1, 2], value: vec![3], cf: "default".to_string() };
    let del = Modify::Delete { key: vec![4], cf: "lock".to_string() };
    assert_eq!(put.key(), &vec![1, 2]);
    assert_eq!(put.value(), Some(&vec![3]));
    assert_eq!(put.cf(), "default");
    assert_eq!(del.key(), &vec![4]);
    assert_eq!(del.value(), None);
    assert_eq!(del.cf(), "lock");
}

#[test]
fn index_grows_with_records() {
    let mut db = kvdb_s::create();
    let n: u64 = 40000;
    for k in 0..n {
        assert_eq!(db.put(k, k * 3), Ok(()));
    }
    assert!(db.level() >= 3);
    assert_eq!(db.record_num(), n);
    for k in (0..n).step_by(97) {
        assert_eq!(db.get(k), Some(k * 3));
    }
    assert_eq!(db.get(n), None);
    let tail = db.iter(n - 3, u64::MAX);
    assert_eq!(tail, vec![(n - 3, (n - 3) * 3), (n - 2, (n - 2) * 3), (n - 1, (n - 1) * 3)]);
}

#[test]
fn descending_inserts() {
    let mut db = kvdb_s::create();
    for k in (0..2000u64).rev() {
        assert_eq!(db.put(k * 2, k), Ok(()));
    }
    assert!(db.level() >= 2);
    for k in 0..2000u64 {
        assert_eq!(db.get(k * 2), Some(k));
        assert_eq!(db.get(k * 2 + 1), None);
    }
    let keys: Vec<u64> = db.iter(10, 20).iter().map(|r| r.0).collect();
    assert_eq!(keys, vec![10, 12, 14, 16, 18, 20]);
}

#[test]
fn cursor_walks_range_once() {
    let mut db = kvdb_s::create();
    for k in [5u64, 3, 9, 1, 7] {
        assert_eq!(db.put(k, k + 100), Ok(()));
    }
    let mut c = db.cursor(2, 8);
    assert_eq!(c.next(), Some((3, 103)));
    assert_eq!(c.next(), Some((5, 105)));
    assert_eq!(c.next(), Some((7, 107)));
    assert_eq!(c.next(), None);
    assert_eq!(c.next(), None);
}

#[test]
fn page_bytes_round_trip() {
    let mut p = page_s::new_leaf(4, 900, 77);
    assert!(p.insert_record(9, 90));
    assert!(p.insert_record(5, 50));
    let b = encode_page(&p);
    assert_eq!(b.len(), 4096);
    assert_eq!(&b[0..4], &[2, 0, 0, 0]);
    assert_eq!(&b[4..8], &[1, 0, 0, 0]);
    assert_eq!(&b[8..16], &77u64.to_le_bytes());
    assert_eq!(&b[32..40], &5u64.to_le_bytes());
    assert_eq!(&b[40..48], &50u64.to_le_bytes());
    assert!(b[64..].iter().all(|x| *x == 0));
    let q = decode_page(&b).unwrap();
    assert!(q.leaf);
    assert_eq!((q.next, q.low, q.high), (77, 4, 900));
    assert_eq!(q.keys, vec![5, 9]);
    assert_eq!(q.vals, vec![50, 90]);
    let mut bad = b.clone();
    bad[0] = 255;
    assert!(decode_page(&bad).is_none());
}

#[test]
fn header_bytes_round_trip() {
    let mut db = kvdb_s::create();
    assert_eq!(db.put(3, 4), Ok(()));
    let h = db.header().copy();
    let b = encode_header(&h);
    assert_eq!(&b[0..8], b"kv@enmo\0");
    let g = decode_header(&b);
    assert_eq!(g.magic, KV_MAGIC);
    assert_eq!(g.record_num, 1);
    assert_eq!(g.level, 1);
    assert_eq!(g.root_gpid, db.root_gpid());
    let w = encode_words(&vec![1u64, 0x0102_0304_0506_0708]);
    assert_eq!(w, vec![1, 0, 0, 0, 0, 0, 0, 0, 8, 7, 6, 5, 4, 3, 2, 1]);
    assert_eq!(decode_words(&w), vec![1u64, 0x0102_0304_0506_0708]);
}

#[test]
fn leaf_pages_in_key_order() {
    let mut db = kvdb_s::create();
    for k in 0..600u64 {
        assert_eq!(db.put(k, k), Ok(()));
    }
    let leaves = db.leaf_pages();
    assert!(leaves.len() >= 3);
    let mut total = 0;
    for w in leaves.windows(2) {
        assert_eq!(w[0].1.next, w[1].0);
        assert_eq!(w[0].1.high + 1, w[1].1.low);
    }
    for (_, p) in &leaves {
        total += p.keys.len();
    }
    assert_eq!(total, 600);
    assert_eq!(leaves.last().unwrap().1.next, GPID_NIL);
}

#[test]
fn tree_pages_reach_every_leaf() {
    let mut db = kvdb_s::create();
    for k in 0..2000u64 {
        assert_eq!(db.put(k, k), Ok(()));
    }
    let tree = db.tree_pages();
    assert_eq!(tree[0].0, db.root_gpid());
    assert!(!tree[0].1.leaf);
    let leaves = db.leaf_pages();
    for (g, _) in &leaves {
        assert!(tree.iter().any(|(t, p)| t == g && p.leaf));
    }
}

#[test]
fn get_page_keeps_pins() {
    let mut c = cache_s::with_capacity(2);
    assert_eq!(c.fetch(1), Ok(()));
    let p = c.get_page(1).unwrap();
    assert_eq!(p.record_num(), 0);
    assert!(c.is_pinned(1));
    assert_eq!(c.fetch(2), Ok(()));
    assert_eq!(c.get_page(3).err(), Some(KvError::CacheExhausted));
    assert_eq!(c.mapped_num(), 2);
}

#[test]
fn restore_stands_on_stored_leaves() {
    let mut db = kvdb_s::create();
    for k in 0..1500u64 {
        assert_eq!(db.put(k * 3, k), Ok(()));
    }
    let leaves = db.leaf_pages();
    let alc = db.allocator();
    let bpn = busy_page_num_s { n: alc.bpn.n.clone() };
    let mut stored: Vec<page_bitmap_s> = alc.stored.iter().map(|b| page_bitmap_s { w: b.w.clone() }).collect();
    if let Some(pb) = &alc.pb {
        stored[alc.curr_ck as usize] = page_bitmap_s { w: pb.w.clone() };
    }
    let restored_alc = allocator_s::init(bpn, stored).unwrap();
    let header = db.header().copy();
    let index: Vec<(u64, page_s)> = db.tree_pages().into_iter().filter(|(_, p)| !p.leaf).collect();
    let mut db2 = kvdb_s::restore(restored_alc, header, &index, leaves).unwrap();
    assert_eq!(db2.record_num(), 1500);
    assert_eq!(db2.root_gpid(), db.root_gpid());
    assert_eq!(db2.level(), db.level());
    assert!(db2.level() >= 2);
    assert_eq!(db2.get(300), Some(100));
    assert_eq!(db2.get(301), None);
    assert_eq!(db2.put(301, 7), Ok(()));
    assert_eq!(db2.get(301), Some(7));
    let keys: Vec<u64> = db2.iter(0, 9).iter().map(|r| r.0).collect();
    assert_eq!(keys, vec![0, 3, 6, 9]);
}

#[test]
fn restore_refuses_broken_chain() {
    let mut db = kvdb_s::create();
    for k in 0..600u64 {
        assert_eq!(db.put(k, k), Ok(()));
    }
    let mut leaves = db.leaf_pages();
    let alc = allocator_s::init(busy_page_num_s { n: db.allocator().bpn.n.clone() }, {
        let a = db.allocator();
        let mut st: Vec<page_bitmap_s> = a.stored.iter().map(|b| page_bitmap_s { w: b.w.clone() }).collect();
        if let Some(pb) = &a.pb {
            st[a.curr_ck as usize] = page_bitmap_s { w: pb.w.clone() };
        }
        st
    })
    .unwrap();
    let header = db.header().copy();
    let mut bad_header = db.header().copy();
    bad_header.record_num += 1;
    let good = db.leaf_pages();
    let alc2 = allocator_s::init(busy_page_num_s { n: db.allocator().bpn.n.clone() }, {
        let a = db.allocator();
        let mut st: Vec<page_bitmap_s> = a.stored.iter().map(|b| page_bitmap_s { w: b.w.clone() }).collect();
        if let Some(pb) = &a.pb {
            st[a.curr_ck as usize] = page_bitmap_s { w: pb.w.clone() };
        }
        st
    })
    .unwrap();
    assert_eq!(kvdb_s::restore(alc2, bad_header, &Vec::new(), good).err(), Some(KvError::Corrupt));
    leaves.swap(0, 1);
    assert_eq!(kvdb_s::restore(alc, header, &Vec::new(), leaves).err(), Some(KvError::Corrupt));
}
