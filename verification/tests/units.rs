//! Unit tests of the byte codec, page view, CLOCK state and page cache.

use findb::clock::Clock;
use findb::cache::PageCache;
use findb::codec::{read_u32, write_u32};
use findb::header::{FileHeader, FileHeaderBuffer};
use findb::key::Key;
use findb::page::{page_size_for_keys, PageBuffer};

#[test]
fn codec_round_trip() {
    let mut buf = vec![0u8; 12];
    write_u32(&mut buf, 4, 0xdead_beef);
    assert_eq!(buf, vec![0, 0, 0, 0, 0xde, 0xad, 0xbe, 0xef, 0, 0, 0, 0]);
    assert_eq!(read_u32(&buf, 4), 0xdead_beef);
    assert_eq!(read_u32(&buf, 0), 0);
    write_u32(&mut buf, 0, 1);
    assert_eq!(buf[3], 1);
    assert_eq!(read_u32(&buf, 4), 0xdead_beef);
}

#[test]
fn page_size_for_keys_layout() {
    // Page header of 16 bytes plus 16 bytes per entry.
    assert_eq!(page_size_for_keys(3), 64);
    assert_eq!(page_size_for_keys(1), 32);
    assert_eq!(page_size_for_keys(63), 1024);
}

#[test]
fn file_header_round_trip() {
    let mut buf = FileHeaderBuffer::new();
    let header = FileHeader { page_size: 64, page_count: 9, root_page_num: 8 };
    buf.set(header);
    assert_eq!(buf.get(), header);
    assert_eq!(buf.buf().len(), 12);
    assert_eq!(buf.buf()[3], 64);
}

#[test]
fn page_buffer_fields() {
    let mut page = PageBuffer::new(64, 1);
    assert_eq!(page.page_type(), 1);
    assert_eq!(page.num_keys(), 0);
    assert_eq!(page.key_capacity(), 3);
    page.set_num_keys(2);
    page.set_extra_page_num(0xffff_ffff);
    page.set_key(0, Key::new(1, 20200101, 5));
    page.set_value(0, 3.5f32.to_bits());
    page.set_key(1, Key::new(1, 20200102, 6));
    page.set_page_number(1, 17);
    assert_eq!(page.page_type(), 1);
    assert_eq!(page.num_keys(), 2);
    assert_eq!(page.extra_page_num(), 0xffff_ffff);
    assert_eq!(page.key(0), Key::new(1, 20200101, 5));
    assert_eq!(f32::from_bits(page.value(0)), 3.5);
    assert_eq!(page.key(1), Key::new(1, 20200102, 6));
    assert_eq!(page.page_number(1), 17);
    // The encoding is big-endian at fixed offsets.
    assert_eq!(page.buf()[16 + 16 + 3], 0x01);
    page.clear();
    assert_eq!(page.page_type(), 0);
    assert_eq!(page.num_keys(), 0);
}

#[test]
fn index_of_leaf_and_inner() {
    // A leaf returns the lower bound; an inner node advances past an
    // exact separator hit.
    let mut leaf = PageBuffer::new(64, 0);
    let mut inner = PageBuffer::new(64, 1);
    for (i, ts) in [10u32, 20, 30].iter().enumerate() {
        leaf.set_key(i, Key::new(0, 20200101, *ts));
        inner.set_key(i, Key::new(0, 20200101, *ts));
    }
    leaf.set_num_keys(3);
    inner.set_num_keys(3);
    assert_eq!(leaf.index_of(&Key::new(0, 20200101, 20)), 1);
    assert_eq!(inner.index_of(&Key::new(0, 20200101, 20)), 2);
    assert_eq!(leaf.index_of(&Key::new(0, 20200101, 15)), 1);
    assert_eq!(inner.index_of(&Key::new(0, 20200101, 15)), 1);
    assert_eq!(leaf.index_of(&Key::new(0, 20200101, 5)), 0);
    assert_eq!(leaf.index_of(&Key::new(0, 20200101, 35)), 3);
    assert_eq!(inner.index_of(&Key::new(0, 20200101, 35)), 3);
}

#[test]
fn key_ordering() {
    let a = Key::new(0, 20200101, 5);
    let b = Key::new(0, 20200101, 6);
    let c = Key::new(0, 20200102, 0);
    let d = Key::new(1, 0, 0);
    assert!(a.lt(&b));
    assert!(b.lt(&c));
    assert!(c.lt(&d));
    assert!(!b.lt(&a));
    assert!(!a.lt(&a));
    assert_eq!(a, Key::new(0, 20200101, 5));
}

#[test]
fn clock_second_chance() {
    let mut clock = Clock::new(3);
    // All bits clear: the hand's slot is evicted at once.
    assert_eq!(clock.evict(), 0);
    // Referenced slots get a second chance.
    clock.set(1);
    clock.set(2);
    assert!(clock.test(1));
    assert_eq!(clock.evict(), 0);
    // The scan cleared nothing before slot 1; now reference only slot 1.
    let mut clock = Clock::new(2);
    clock.set(0);
    assert_eq!(clock.evict(), 1);
    assert!(!clock.test(0), "the scan clears reference bits it passes");
}

#[test]
fn cache_serves_page_bytes() {
    // A file of three distinct 32-byte pages behind a 12-byte header.
    let mut file = vec![0u8; 12 + 3 * 32];
    for pn in 0..3 {
        for b in 0..32 {
            file[12 + pn * 32 + b] = (pn * 40 + b) as u8;
        }
    }
    let mut cache = PageCache::new(file.clone(), 32, 2);
    let slot = cache.load(1).unwrap();
    assert_eq!(cache.slot(slot).buf().as_slice(), &file[12 + 32..12 + 64]);
    // A hit serves the same slot again.
    let again = cache.load(1).unwrap();
    assert_eq!(slot, again);
    // Filling the pool and loading a third page evicts someone, and the
    // served bytes are still exactly the page's bytes.
    let s0 = cache.load(0).unwrap();
    assert_eq!(cache.slot(s0).buf().as_slice(), &file[12..12 + 32]);
    let s2 = cache.load(2).unwrap();
    assert_eq!(cache.slot(s2).buf().as_slice(), &file[12 + 64..12 + 96]);
    // A page number beyond the file is refused.
    assert!(cache.load(3).is_err());
}
