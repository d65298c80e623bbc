//! End-to-end tests of the on-disk B+ tree: bulk load, descent and the
//! reverse-chronological as-of query walk.

use findb::key::{Key, Query, TreeError};
use findb::page::page_size_for_keys;
use findb::tree::{BTree, QueryResultIterator};

fn entry(asset_id: u32, date: u32, timestamp: u32, value: f32) -> (Key, u32) {
    (Key::new(asset_id, date, timestamp), value.to_bits())
}

fn small_inputs() -> Vec<(Key, u32)> {
    vec![
        entry(0, 20200131, 0, 1.0),
        entry(0, 20200131, 10, 2.0),
        entry(0, 20200131, 20, 3.0),
        entry(0, 20200229, 5, 11.0),
        entry(0, 20200229, 15, 12.0),
        entry(0, 20200229, 25, 13.0),
        entry(0, 20200331, 10, 110.0),
        entry(0, 20200331, 20, 120.0),
        entry(0, 20200331, 25, 130.0),
        entry(1, 20200229, 5, 21.0),
        entry(1, 20200229, 15, 22.0),
        entry(1, 20200229, 25, 23.0),
        entry(1, 20200331, 10, 220.0),
        entry(1, 20200331, 20, 220.0),
        entry(1, 20200331, 25, 230.0),
        entry(1, 20200430, 10, 2100.0),
        entry(1, 20200430, 20, 2200.0),
        entry(1, 20200430, 25, 2300.0),
    ]
}

fn query(asset_id: u32, start_date: u32, end_date: u32, timestamp: u32) -> Query {
    Query { id: 0, asset_id, start_date, end_date, timestamp }
}

fn run_query(btree: &mut BTree, q: Query) -> Vec<f32> {
    let mut iterator = btree.query(q).unwrap();
    let mut values = Vec::new();
    loop {
        match iterator.next(btree) {
            Some(Ok(result)) => values.push(f32::from_bits(result.value)),
            Some(Err(e)) => panic!("query failed: {:?}", e),
            None => break,
        }
    }
    values
}

fn check_query(btree: &mut BTree, q: Query, expected: &[f32]) {
    let actual = run_query(btree, q);
    assert_eq!(actual, expected.to_vec());
}

fn open_small(page_size: u32, cache_slots: usize) -> BTree {
    let file = BTree::write_from_entries(page_size, &small_inputs()).unwrap();
    BTree::from_file(file, cache_slots).unwrap()
}

#[test]
fn test_small() {
    let page_size = page_size_for_keys(3);
    let mut btree = open_small(page_size as u32, 10);

    check_query(&mut btree, query(0, 20200131, 20200131, 20), &[3.0]);
    check_query(&mut btree, query(0, 20200131, 20200131, 15), &[2.0]);
    check_query(&mut btree, query(0, 20200115, 20200405, 20), &[120.0, 12.0, 3.0]);
    check_query(&mut btree, query(1, 20200315, 20200515, 21), &[2200.0, 220.0]);
}

#[test]
fn scenario_ts_equal_boundary() {
    let mut btree = open_small(64, 10);
    check_query(&mut btree, query(0, 20200131, 20200131, 0), &[1.0]);
}

#[test]
fn scenario_unknown_asset() {
    let mut btree = open_small(64, 10);
    check_query(&mut btree, query(2, 0, 99999999, 99), &[]);
}

#[test]
fn scenario_ts_below_every_observation() {
    // Asset 0 on 20200229 has timestamps 5, 15, 25; an as-of timestamp
    // below all of them yields nothing for that date.
    let mut btree = open_small(64, 10);
    check_query(&mut btree, query(0, 20200229, 20200229, 4), &[]);
}

#[test]
fn scenario_largest_ts_for_date() {
    // start == end and the as-of timestamp equal to the largest observed
    // timestamp on that date returns exactly that observation.
    let mut btree = open_small(64, 10);
    check_query(&mut btree, query(0, 20200229, 20200229, 25), &[13.0]);
    check_query(&mut btree, query(1, 20200430, 20200430, 25), &[2300.0]);
}

#[test]
fn equivalent_across_page_sizes() {
    // The same source loaded with any page size answers every query the
    // same way.
    let queries = [
        query(0, 20200131, 20200131, 20),
        query(0, 20200131, 20200131, 15),
        query(0, 20200115, 20200405, 20),
        query(1, 20200315, 20200515, 21),
        query(0, 20200131, 20200131, 0),
        query(2, 0, 99999999, 99),
        query(0, 0, 99999999, 1000),
        query(1, 20200229, 20200430, 25),
    ];
    let mut reference = open_small(64, 10);
    for page_size in [32u32, 48, 64, 80, 256, 1024] {
        let mut btree = open_small(page_size, 10);
        for q in &queries {
            let expected = run_query(&mut reference, *q);
            let actual = run_query(&mut btree, *q);
            assert_eq!(actual, expected, "page_size {}", page_size);
        }
    }
}

#[test]
fn single_slot_cache_still_answers() {
    // One cache slot on a multi-level tree: queries still complete and
    // agree with a large cache.
    let mut big = open_small(32, 64);
    let mut small = open_small(32, 1);
    for q in [
        query(0, 20200115, 20200405, 20),
        query(1, 20200315, 20200515, 21),
        query(0, 20200131, 20200131, 0),
    ] {
        assert_eq!(run_query(&mut small, q), run_query(&mut big, q));
    }
}

#[test]
fn full_reverse_walk_yields_source_reversed() {
    // A query window covering everything walks every entry back to the
    // first leaf; per-date as-of filtering keeps only each date's winner,
    // so probe with per-date max timestamps and collect all winners.
    let mut btree = open_small(64, 10);
    // With timestamp above all observations, each (asset, date) pair
    // yields its latest observation, in descending key order.
    let values = run_query(&mut btree, query(0, 0, 99999999, 1000));
    assert_eq!(values, vec![130.0, 13.0, 3.0]);
    let values = run_query(&mut btree, query(1, 0, 99999999, 1000));
    assert_eq!(values, vec![2300.0, 230.0, 23.0]);
}

#[test]
fn result_carries_key_and_id() {
    let page_size = page_size_for_keys(3);
    let file = BTree::write_from_entries(page_size as u32, &small_inputs()).unwrap();
    let mut btree = BTree::from_file(file, 4).unwrap();
    let q = Query { id: 7, asset_id: 0, start_date: 20200131, end_date: 20200131, timestamp: 20 };
    let mut it: QueryResultIterator = btree.query(q).unwrap();
    let r = it.next(&mut btree).unwrap().unwrap();
    assert_eq!(r.id, 7);
    assert_eq!(r.key, Key::new(0, 20200131, 20));
    assert_eq!(f32::from_bits(r.value), 3.0);
    assert!(it.next(&mut btree).is_none());
}

#[test]
fn empty_source_is_rejected() {
    let entries: Vec<(Key, u32)> = Vec::new();
    match BTree::write_from_entries(64, &entries) {
        Err(e) => assert_eq!(e, TreeError::EmptySource),
        Ok(_) => panic!("built a tree from no entries"),
    }
}

#[test]
fn malformed_header_is_rejected() {
    match BTree::from_file(vec![0u8; 8], 4) {
        Err(e) => assert_eq!(e, TreeError::MalformedHeader),
        Ok(_) => panic!("opened a file with no header"),
    }
    // A valid-looking header whose size disagrees with the byte count.
    let file = BTree::write_from_entries(64, &small_inputs()).unwrap();
    let mut truncated = file.clone();
    truncated.pop();
    match BTree::from_file(truncated, 4) {
        Err(e) => assert_eq!(e, TreeError::MalformedHeader),
        Ok(_) => panic!("opened a truncated file"),
    }
    assert!(BTree::from_file(file, 4).is_ok());
}

#[test]
fn malformed_page_type_is_reported() {
    let mut file = BTree::write_from_entries(64, &small_inputs()).unwrap();
    // Stamp an invalid page type into the root page.
    let page_count = u32::from_be_bytes([file[4], file[5], file[6], file[7]]) as usize;
    let root_off = 12 + (page_count - 1) * 64;
    file[root_off] = 0;
    file[root_off + 1] = 0;
    file[root_off + 2] = 0;
    file[root_off + 3] = 7;
    let mut btree = BTree::from_file(file, 4).unwrap();
    match btree.query(query(0, 20200131, 20200131, 20)) {
        Err(e) => assert_eq!(e, TreeError::MalformedPage),
        Ok(_) => panic!("descended through a malformed page"),
    }
}

#[test]
fn single_leaf_tree() {
    let entries = vec![entry(5, 20210101, 1, 42.0), entry(5, 20210102, 1, 43.0)];
    let file = BTree::write_from_entries(64, &entries).unwrap();
    // Header announces one page, which is both root and leaf.
    assert_eq!(file.len(), 12 + 64);
    let mut btree = BTree::from_file(file, 1).unwrap();
    check_query(&mut btree, query(5, 20210101, 20210102, 1), &[43.0, 42.0]);
}

#[test]
fn file_layout_matches_header() {
    for page_size in [32u32, 64, 100, 1024] {
        let file = BTree::write_from_entries(page_size, &small_inputs()).unwrap();
        let ps = u32::from_be_bytes([file[0], file[1], file[2], file[3]]);
        let pc = u32::from_be_bytes([file[4], file[5], file[6], file[7]]);
        let root = u32::from_be_bytes([file[8], file[9], file[10], file[11]]);
        assert_eq!(ps, page_size);
        assert_eq!(root, pc - 1);
        assert_eq!(file.len(), 12 + (pc as usize) * (page_size as usize));
    }
}

#[test]
fn leaf_chain_covers_source_in_reverse() {
    // Decode the file by hand: follow the root-to-last-leaf back-pointer
    // chain and collect entries; they must be the source reversed.
    let inputs = small_inputs();
    let page_size = 64usize;
    let file = BTree::write_from_entries(page_size as u32, &inputs).unwrap();
    let be = |off: usize| -> u32 {
        u32::from_be_bytes([file[off], file[off + 1], file[off + 2], file[off + 3]])
    };
    let pc = be(4) as usize;
    // The last leaf is the leaf with the largest page number.
    let mut last_leaf = None;
    for pn in 0..pc {
        if be(12 + pn * page_size) == 0 {
            last_leaf = Some(pn);
        }
    }
    let mut pn = last_leaf.unwrap() as u32;
    let mut collected: Vec<(u32, u32, u32, u32)> = Vec::new();
    loop {
        let base = 12 + (pn as usize) * page_size;
        assert_eq!(be(base), 0, "chain visits a non-leaf page");
        let nk = be(base + 4) as usize;
        for i in (0..nk).rev() {
            let off = base + 16 + 16 * i;
            collected.push((be(off), be(off + 4), be(off + 8), be(off + 12)));
        }
        let extra = be(base + 8);
        if extra == 0xffff_ffff {
            break;
        }
        assert!(extra < pn, "back-pointers run strictly backward");
        pn = extra;
    }
    let mut expected: Vec<(u32, u32, u32, u32)> = inputs
        .iter()
        .map(|(k, v)| (k.asset_id, k.date, k.timestamp, *v))
        .collect();
    expected.reverse();
    assert_eq!(collected, expected);
}

#[test]
fn pages_read_counts_leaf_loads() {
    // The walk reads the minimal chain of leaves. With K = 3 the 18
    // entries sit in six leaves; an equal-separator probe descends to
    // the strictly-greater side, so a probe equal to a leaf's last key
    // starts one leaf to the right and steps back once.
    let page_size = page_size_for_keys(3);
    let mut btree = open_small(page_size as u32, 10);

    let cases: [(Query, &[f32], u32); 4] = [
        (query(0, 20200131, 20200131, 20), &[3.0], 2),
        (query(0, 20200131, 20200131, 15), &[2.0], 1),
        (query(0, 20200115, 20200405, 20), &[120.0, 12.0, 3.0], 4),
        (query(1, 20200315, 20200515, 21), &[2200.0, 220.0], 2),
    ];
    for (q, expected, pages) in cases {
        let mut iterator = btree.query(q).unwrap();
        let mut values = Vec::new();
        for _ in 0..expected.len() {
            match iterator.next(&mut btree) {
                Some(Ok(result)) => values.push(f32::from_bits(result.value)),
                other => panic!("expected a result, got {:?}", other.is_none()),
            }
        }
        assert_eq!(values, expected.to_vec());
        assert_eq!(iterator.pages_read, pages);
    }
}
