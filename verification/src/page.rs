//! Page view: a fixed-size byte buffer interpreted as a leaf or inner node.
//!
//! Page layout (all fields big-endian `u32`):
//! - header, 16 bytes: `page_type` (0 = leaf, 1 = inner), `num_keys`,
//!   `extra` (leaf: previous-leaf page number or the sentinel; inner:
//!   rightmost child page number), reserved;
//! - body: slots of 16 bytes each, `key` (12 bytes) followed by the slot
//!   value (leaf: value bit pattern; inner: child page number).

use crate::codec::{be_u32_at, read_u32, write_u32};
use crate::key::{key_le, key_lt, Key, ValueBits};
use vstd::prelude::*;

verus! {

pub const LEAF_TYPE: u32 = 0;

pub const INNER_TYPE: u32 = 1;

/// `extra` value of the first-written leaf: no predecessor.
pub const NO_PAGE: u32 = 0xffff_ffff;

pub const PAGE_HEADER_SIZE: usize = 16;

pub const KEY_VALUE_SIZE: usize = 16;

/// The `page_type` header field of a page image.
pub open spec fn page_type_of(s: Seq<u8>) -> u32 {
    be_u32_at(s, 0)
}

/// The `num_keys` header field of a page image.
pub open spec fn num_keys_of(s: Seq<u8>) -> u32 {
    be_u32_at(s, 4)
}

/// The `extra` header field of a page image.
pub open spec fn extra_of(s: Seq<u8>) -> u32 {
    be_u32_at(s, 8)
}

/// Byte offset of slot `index`.
pub open spec fn key_off(index: int) -> int {
    16 + 16 * index
}

/// The key stored in slot `index`.
pub open spec fn key_of(s: Seq<u8>, index: int) -> Key {
    Key {
        asset_id: be_u32_at(s, key_off(index)),
        date: be_u32_at(s, key_off(index) + 4),
        timestamp: be_u32_at(s, key_off(index) + 8),
    }
}

/// The slot value stored beside the key of slot `index`: a value bit
/// pattern in a leaf, a child page number in an inner node.
pub open spec fn slot_of(s: Seq<u8>, index: int) -> u32 {
    be_u32_at(s, key_off(index) + 12)
}

/// How many slots a page of `len` bytes can hold.
pub open spec fn key_capacity_of(len: int) -> int {
    (len - 16) / 16
}

/// The entries of a leaf image, in slot order.
pub open spec fn entries_of(s: Seq<u8>) -> Seq<(Key, u32)> {
    Seq::new(num_keys_of(s) as nat, |i: int| (key_of(s, i), slot_of(s, i)))
}

/// The keys of the first `num_keys` slots are strictly ascending.
pub open spec fn keys_sorted(s: Seq<u8>) -> bool {
    forall|i: int, j: int|
        0 <= i < j < num_keys_of(s) ==> key_lt(key_of(s, i), key_of(s, j))
}

/// Smallest page size with room for the header and one entry.
pub const MIN_PAGE_SIZE: usize = 32;

/// The page size whose body holds exactly `num_keys` slots.
pub fn page_size_for_keys(num_keys: u32) -> (r: usize)
    requires
        16 + 16 * (num_keys as int) <= usize::MAX,
    ensures
        r == 16 + 16 * (num_keys as int),
        num_keys >= 1 ==> key_capacity_of(r as int) == num_keys,
{
    PAGE_HEADER_SIZE + (num_keys as usize) * KEY_VALUE_SIZE
}

/// An owned page-sized byte buffer with typed accessors.
pub struct PageBuffer {
    buf: Vec<u8>,
}

impl View for PageBuffer {
    type V = Seq<u8>;

    closed spec fn view(&self) -> Seq<u8> {
        self.buf@
    }
}

impl PageBuffer {
    /// A zeroed page with the given `page_type` stamped into the header.
    pub fn new(page_size: u32, page_type: u32) -> (r: PageBuffer)
        requires
            page_size >= 32,
        ensures
            r@.len() == page_size,
            page_type_of(r@) == page_type,
            num_keys_of(r@) == 0,
            extra_of(r@) == 0,
            forall|i: int| 4 <= i < page_size ==> r@[i] == 0,
    {
        let mut buf: Vec<u8> = Vec::new();
        let mut i: usize = 0;
        while i < page_size as usize
            invariant
                i <= page_size,
                buf@.len() == i,
                forall|k: int| 0 <= k < i ==> buf@[k] == 0,
            decreases page_size - i,
        {
            buf.push(0);
            i += 1;
        }
        write_u32(&mut buf, 0, page_type);
        PageBuffer { buf }
    }

    /// The raw bytes of the page.
    pub fn buf(&self) -> (r: &Vec<u8>)
        ensures
            r@ == self@,
    {
        &self.buf
    }

    /// Zero every byte, keeping the length.
    pub fn clear(&mut self)
        ensures
            final(self)@.len() == old(self)@.len(),
            forall|i: int| 0 <= i < old(self)@.len() ==> final(self)@[i] == 0,
    {
        let n = self.buf.len();
        let mut i: usize = 0;
        while i < n
            invariant
                i <= n,
                self.buf@.len() == n,
                forall|k: int| 0 <= k < i ==> self.buf@[k] == 0,
            decreases n - i,
        {
            self.buf.set(i, 0);
            i += 1;
        }
    }

    /// Read header field `index` (0 = type, 1 = num_keys, 2 = extra).
    pub fn header_field(&self, index: usize) -> (r: u32)
        requires
            4 * index + 4 <= self@.len(),
        ensures
            r == be_u32_at(self@, 4 * index as int),
    {
        let n = self.buf.len();
        read_u32(&self.buf, 4 * index)
    }

    /// Write header field `index`; every byte outside it keeps its value.
    pub fn set_header_field(&mut self, index: usize, value: u32)
        requires
            4 * index + 4 <= old(self)@.len(),
        ensures
            final(self)@.len() == old(self)@.len(),
            be_u32_at(final(self)@, 4 * index as int) == value,
            forall|i: int|
                0 <= i < old(self)@.len() && !(4 * index <= i < 4 * index + 4) ==> final(self)@[i]
                    == old(self)@[i],
    {
        let n = self.buf.len();
        write_u32(&mut self.buf, 4 * index, value)
    }

    pub fn page_type(&self) -> (r: u32)
        requires
            self@.len() >= 16,
        ensures
            r == page_type_of(self@),
    {
        self.header_field(0)
    }

    pub fn num_keys(&self) -> (r: u32)
        requires
            self@.len() >= 16,
        ensures
            r == num_keys_of(self@),
    {
        self.header_field(1)
    }

    pub fn set_num_keys(&mut self, num_keys: u32)
        requires
            old(self)@.len() >= 16,
        ensures
            final(self)@.len() == old(self)@.len(),
            num_keys_of(final(self)@) == num_keys,
            page_type_of(final(self)@) == page_type_of(old(self)@),
            extra_of(final(self)@) == extra_of(old(self)@),
            forall|i: int|
                0 <= i < old(self)@.len() && !(4 <= i < 8) ==> final(self)@[i] == old(self)@[i],
    {
        self.set_header_field(1, num_keys)
    }

    pub fn extra_page_num(&self) -> (r: u32)
        requires
            self@.len() >= 16,
        ensures
            r == extra_of(self@),
    {
        self.header_field(2)
    }

    pub fn set_extra_page_num(&mut self, page_num: u32)
        requires
            old(self)@.len() >= 16,
        ensures
            final(self)@.len() == old(self)@.len(),
            extra_of(final(self)@) == page_num,
            page_type_of(final(self)@) == page_type_of(old(self)@),
            num_keys_of(final(self)@) == num_keys_of(old(self)@),
            forall|i: int|
                0 <= i < old(self)@.len() && !(8 <= i < 12) ==> final(self)@[i] == old(self)@[i],
    {
        self.set_header_field(2, page_num)
    }

    /// How many slots this page can hold.
    pub fn key_capacity(&self) -> (r: usize)
        requires
            self@.len() >= 16,
        ensures
            r == key_capacity_of(self@.len() as int),
    {
        (self.buf.len() - PAGE_HEADER_SIZE) / KEY_VALUE_SIZE
    }

    /// Byte offset of slot `index`.
    pub fn key_offset(&self, index: usize) -> (r: usize)
        requires
            16 + 16 * index + 16 <= self@.len(),
        ensures
            r == key_off(index as int),
    {
        let n = self.buf.len();
        PAGE_HEADER_SIZE + KEY_VALUE_SIZE * index
    }

    /// The key in slot `index`.
    pub fn key(&self, index: usize) -> (k: Key)
        requires
            16 + 16 * index + 16 <= self@.len(),
        ensures
            k == key_of(self@, index as int),
    {
        let offset = self.key_offset(index);
        Key {
            asset_id: read_u32(&self.buf, offset),
            date: read_u32(&self.buf, offset + 4),
            timestamp: read_u32(&self.buf, offset + 8),
        }
    }

    /// Write the key of slot `index`; bytes outside its 12 bytes keep
    /// their values.
    pub fn set_key(&mut self, index: usize, key: Key)
        requires
            16 + 16 * index + 16 <= old(self)@.len(),
        ensures
            final(self)@.len() == old(self)@.len(),
            key_of(final(self)@, index as int) == key,
            forall|i: int|
                0 <= i < old(self)@.len() && !(key_off(index as int) <= i < key_off(index as int)
                    + 12) ==> final(self)@[i] == old(self)@[i],
    {
        let offset = self.key_offset(index);
        write_u32(&mut self.buf, offset, key.asset_id);
        write_u32(&mut self.buf, offset + 4, key.date);
        write_u32(&mut self.buf, offset + 8, key.timestamp);
    }

    /// The value bit pattern in slot `index` of a leaf.
    pub fn value(&self, index: usize) -> (r: ValueBits)
        requires
            16 + 16 * index + 16 <= self@.len(),
        ensures
            r == slot_of(self@, index as int),
    {
        let offset = self.key_offset(index);
        read_u32(&self.buf, offset + 12)
    }

    pub fn set_value(&mut self, index: usize, value: ValueBits)
        requires
            16 + 16 * index + 16 <= old(self)@.len(),
        ensures
            final(self)@.len() == old(self)@.len(),
            slot_of(final(self)@, index as int) == value,
            forall|i: int|
                0 <= i < old(self)@.len() && !(key_off(index as int) + 12 <= i < key_off(
                    index as int,
                ) + 16) ==> final(self)@[i] == old(self)@[i],
    {
        let offset = self.key_offset(index);
        write_u32(&mut self.buf, offset + 12, value)
    }

    /// The child page number in slot `index` of an inner node.
    pub fn page_number(&self, index: usize) -> (r: u32)
        requires
            16 + 16 * index + 16 <= self@.len(),
        ensures
            r == slot_of(self@, index as int),
    {
        let offset = self.key_offset(index);
        read_u32(&self.buf, offset + 12)
    }

    pub fn set_page_number(&mut self, index: usize, page_number: u32)
        requires
            16 + 16 * index + 16 <= old(self)@.len(),
        ensures
            final(self)@.len() == old(self)@.len(),
            slot_of(final(self)@, index as int) == page_number,
            forall|i: int|
                0 <= i < old(self)@.len() && !(key_off(index as int) + 12 <= i < key_off(
                    index as int,
                ) + 16) ==> final(self)@[i] == old(self)@[i],
    {
        self.set_value(index, page_number)
    }

    /// Overwrite the page with the bytes of `src` starting at `offset`.
    pub fn copy_from(&mut self, src: &Vec<u8>, offset: usize)
        requires
            offset + old(self)@.len() <= src@.len(),
        ensures
            final(self)@ == src@.subrange(offset as int, offset + old(self)@.len()),
    {
        let n = self.buf.len();
        let sl = src.len();
        let mut i: usize = 0;
        while i < n
            invariant
                i <= n,
                self.buf@.len() == n,
                offset + n <= sl,
                sl == src@.len(),
                forall|k: int| 0 <= k < i ==> self.buf@[k] == src@[offset + k],
            decreases n - i,
        {
            let b = src[offset + i];
            self.buf.set(i, b);
            i += 1;
        }
        proof {
            assert(self.buf@ =~= src@.subrange(offset as int, offset + n));
        }
    }

    /// Lower-bound search for `key` within the page.
    ///
    /// At a leaf, the leftmost slot whose key is `>= key`. At an inner
    /// node, the slot after the last one whose key is `<= key`: an exact
    /// hit on a separator advances past it, so the probe follows the child
    /// on the strictly-greater side. If `key` exceeds every stored key the
    /// result equals `num_keys`.
    pub fn index_of(&self, key: &Key) -> (r: u32)
        requires
            self@.len() >= 32,
            num_keys_of(self@) <= key_capacity_of(self@.len() as int),
        ensures
            r <= num_keys_of(self@),
            keys_sorted(self@) && page_type_of(self@) == LEAF_TYPE ==> forall|j: int|
                0 <= j < r ==> key_lt(key_of(self@, j), *key),
            keys_sorted(self@) && page_type_of(self@) == LEAF_TYPE ==> forall|j: int|
                r <= j < num_keys_of(self@) ==> key_le(*key, key_of(self@, j)),
            keys_sorted(self@) && page_type_of(self@) != LEAF_TYPE ==> forall|j: int|
                0 <= j < r ==> key_le(key_of(self@, j), *key),
            keys_sorted(self@) && page_type_of(self@) != LEAF_TYPE ==> forall|j: int|
                r <= j < num_keys_of(self@) ==> key_lt(*key, key_of(self@, j)),
    {
        let num_keys = self.num_keys();
        let mut min: u32 = 0;
        let mut max: u32 = num_keys;
        while min < max
            invariant
                self@.len() >= 32,
                num_keys == num_keys_of(self@),
                num_keys <= key_capacity_of(self@.len() as int),
                min <= max <= num_keys,
                keys_sorted(self@) ==> forall|j: int| 0 <= j < min ==> key_lt(key_of(self@, j), *key),
                keys_sorted(self@) ==> forall|j: int|
                    max <= j < num_keys ==> key_le(*key, key_of(self@, j)),
            decreases max - min,
        {
            let midpoint = min + (max - min) / 2;
            let midpoint_key = self.key(midpoint as usize);
            if midpoint_key.lt(key) {
                proof {
                    if keys_sorted(self@) {
                        assert forall|j: int| 0 <= j < midpoint + 1 implies key_lt(
                            key_of(self@, j),
                            *key,
                        ) by {
                            if j < midpoint {
                                assert(key_lt(key_of(self@, j), key_of(self@, midpoint as int)));
                            }
                        }
                    }
                }
                min = midpoint + 1;
            } else {
                proof {
                    if keys_sorted(self@) {
                        assert forall|j: int| midpoint <= j < num_keys implies key_le(
                            *key,
                            key_of(self@, j),
                        ) by {
                            if j > midpoint {
                                assert(key_lt(key_of(self@, midpoint as int), key_of(self@, j)));
                            }
                        }
                    }
                }
                max = midpoint;
            }
        }
        // `min` is now the leftmost slot whose key is >= `key`; at an inner
        // node an exact hit must advance to the strictly-greater side.
        if self.page_type() != LEAF_TYPE && min < num_keys {
            let k = self.key(min as usize);
            if k.asset_id == key.asset_id && k.date == key.date && k.timestamp == key.timestamp {
                return min + 1;
            }
            proof {
                if keys_sorted(self@) {
                    assert(key_lt(*key, key_of(self@, min as int)));
                    assert forall|j: int| min <= j < num_keys_of(self@) implies key_lt(
                        *key,
                        key_of(self@, j),
                    ) by {
                        if j > min {
                            assert(key_lt(key_of(self@, min as int), key_of(self@, j)));
                        }
                    }
                }
            }
        }
        min
    }
}

} // verus!
