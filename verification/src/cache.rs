//! CLOCK page cache.
//!
//! Owns the file image and a fixed pool of page-sized slot buffers.
//! `load` serves a page into a slot, reusing a slot already holding that
//! page, filling the next empty slot while any remain, and otherwise
//! evicting by the CLOCK policy. Each occupied slot corresponds to exactly
//! one page number and vice versa, and an occupied slot always holds
//! exactly the bytes of its page.
//!
//! The backing store is the in-memory file image; page-to-slot
//! bookkeeping is held in dense tables keyed by page number and slot
//! index, and a miss copies the page's bytes out of the image into its
//! slot.

use crate::clock::Clock;
use crate::header::{page_bytes, FILE_HEADER_SIZE};
use crate::key::TreeError;
use crate::page::PageBuffer;
use vstd::prelude::*;

verus! {

pub struct PageCache {
    file: Vec<u8>,
    page_size: usize,
    pages: usize,
    bufs: Vec<PageBuffer>,
    clock: Clock,
    page_map: Vec<Option<u32>>,
    slot_map: Vec<Option<u32>>,
    used_slots: usize,
}

impl PageCache {
    /// The whole backing file image, header included.
    pub closed spec fn file_bytes(&self) -> Seq<u8> {
        self.file@
    }

    /// The page size of the file.
    pub closed spec fn spec_page_size(&self) -> int {
        self.page_size as int
    }

    /// The number of slots in the pool.
    pub closed spec fn spec_slots(&self) -> int {
        self.pages as int
    }

    /// How many pages the backing file holds.
    pub open spec fn spec_page_count(&self) -> int {
        (self.file_bytes().len() - 12) / self.spec_page_size()
    }

    /// The bytes currently held by slot `s`.
    pub closed spec fn slot_bytes(&self, s: int) -> Seq<u8> {
        self.bufs[s]@
    }

    /// The page number held by slot `s`, if any.
    pub closed spec fn slot_page(&self, s: int) -> Option<u32> {
        self.slot_map[s]
    }

    pub closed spec fn wf(&self) -> bool {
        &&& self.page_size >= 32
        &&& self.page_size <= 0xffff_ffff
        &&& self.pages >= 1
        &&& self.file@.len() >= 12
        &&& self.file@.len() == 12 + self.spec_page_count() * self.spec_page_size()
        &&& self.pages <= 0xffff_ffff
        &&& self.spec_page_count() <= 0xffff_ffff
        &&& self.bufs@.len() == self.pages
        &&& (forall|s: int| 0 <= s < self.pages ==> (#[trigger] self.bufs[s])@.len() == self.page_size)
        &&& self.clock.wf()
        &&& self.clock.bits().len() == self.pages
        &&& self.page_map@.len() == self.spec_page_count()
        &&& self.slot_map@.len() == self.pages
        &&& self.used_slots <= self.pages
        &&& (forall|s: int|
            0 <= s < self.pages ==> ((#[trigger] self.slot_map[s]) is Some <==> s
                < self.used_slots))
        &&& (forall|p: int|
            0 <= p < self.page_map@.len() && (#[trigger] self.page_map[p]) is Some ==> {
                &&& 0 <= self.page_map[p]->0 < self.pages
                &&& self.slot_map[self.page_map[p]->0 as int] == Some(p as u32)
            })
        &&& (forall|s: int|
            0 <= s < self.pages && (#[trigger] self.slot_map[s]) is Some ==> {
                &&& 0 <= self.slot_map[s]->0 < self.spec_page_count()
                &&& self.page_map[self.slot_map[s]->0 as int] == Some(s as u32)
                &&& self.bufs[s]@ == page_bytes(
                    self.file@,
                    self.page_size as int,
                    self.slot_map[s]->0 as int,
                )
            })
    }

    /// A cache over the file image `file` with `pages` slots of
    /// `page_size` bytes each.
    pub fn new(file: Vec<u8>, page_size: u32, pages: usize) -> (r: PageCache)
        requires
            page_size >= 32,
            1 <= pages <= 0xffff_ffff,
            file@.len() >= 12,
            file@.len() == 12 + ((file@.len() - 12) / (page_size as int)) * (page_size as int),
            (file@.len() - 12) / (page_size as int) <= 0xffff_ffff,
        ensures
            r.wf(),
            r.file_bytes() == file@,
            r.spec_page_size() == page_size,
            r.spec_slots() == pages,
            forall|s: int| 0 <= s < pages ==> r.slot_page(s) is None,
    {
        let ghost page_count = (file@.len() - 12) / (page_size as int);
        let page_size = page_size as usize;
        let count = (file.len() - FILE_HEADER_SIZE) / page_size;
        let mut bufs: Vec<PageBuffer> = Vec::new();
        let mut i: usize = 0;
        while i < pages
            invariant
                i <= pages,
                32 <= page_size <= 0xffff_ffff,
                bufs@.len() == i,
                forall|s: int| 0 <= s < i ==> (#[trigger] bufs[s])@.len() == page_size,
            decreases pages - i,
        {
            let pb = PageBuffer::new(page_size as u32, 0);
            bufs.push(pb);
            i += 1;
        }
        let mut page_map: Vec<Option<u32>> = Vec::new();
        let mut j: usize = 0;
        while j < count
            invariant
                j <= count,
                page_map@.len() == j,
                forall|p: int| 0 <= p < j ==> (#[trigger] page_map[p]) is None,
            decreases count - j,
        {
            page_map.push(None);
            j += 1;
        }
        let mut slot_map: Vec<Option<u32>> = Vec::new();
        let mut s: usize = 0;
        while s < pages
            invariant
                s <= pages,
                slot_map@.len() == s,
                forall|k: int| 0 <= k < s ==> (#[trigger] slot_map[k]) is None,
            decreases pages - s,
        {
            slot_map.push(None);
            s += 1;
        }
        PageCache {
            file,
            page_size,
            pages,
            bufs,
            clock: Clock::new(pages),
            page_map,
            slot_map,
            used_slots: 0,
        }
    }

    /// Serve page `page_number` into a slot and return the slot index.
    ///
    /// Fails exactly when `page_number` does not exist in the file. On
    /// success the returned slot holds the bytes of the page.
    pub fn load(&mut self, page_number: usize) -> (r: Result<usize, TreeError>)
        requires
            old(self).wf(),
        ensures
            final(self).wf(),
            final(self).file_bytes() == old(self).file_bytes(),
            final(self).spec_page_size() == old(self).spec_page_size(),
            final(self).spec_slots() == old(self).spec_slots(),
            match r {
                Ok(slot) => {
                    &&& page_number < old(self).spec_page_count()
                    &&& slot < final(self).spec_slots()
                    &&& final(self).slot_page(slot as int) == Some(page_number as u32)
                    &&& final(self).slot_bytes(slot as int) == page_bytes(
                        old(self).file_bytes(),
                        old(self).spec_page_size(),
                        page_number as int,
                    )
                },
                Err(e) => {
                    &&& e == TreeError::MalformedPage
                    &&& page_number >= old(self).spec_page_count()
                },
            },
            forall|s: int|
                0 <= s < old(self).spec_slots() && (r matches Ok(slot) && s != slot)
                    ==> final(self).slot_page(s) == old(self).slot_page(s)
                    && final(self).slot_bytes(s) == old(self).slot_bytes(s),
            (exists|s0: int|
                0 <= s0 < old(self).spec_slots() && old(self).slot_page(s0) == Some(
                    page_number as u32,
                )) && page_number < old(self).spec_page_count() ==> forall|s: int|
                0 <= s < old(self).spec_slots()
                    ==> final(self).slot_page(s) == old(self).slot_page(s)
                    && final(self).slot_bytes(s) == old(self).slot_bytes(s),
    {
        let count = (self.file.len() - FILE_HEADER_SIZE) / self.page_size;
        if page_number >= count {
            return Err(TreeError::MalformedPage);
        }
        let hit = self.page_map[page_number];
        match hit {
            Some(slot_number) => {
                let slot = slot_number as usize;
                self.clock.set(slot);
                Ok(slot)
            },
            None => {
                let slot_number = if self.used_slots < self.pages {
                    let s = self.used_slots;
                    self.used_slots = self.used_slots + 1;
                    s
                } else {
                    let victim = self.clock.evict();
                    // The victim is occupied: unhook its old page.
                    let old_page = self.slot_map[victim];
                    match old_page {
                        Some(p) => {
                            self.page_map.set(p as usize, None);
                        },
                        None => {},
                    }
                    victim
                };
                self.page_map.set(page_number, Some(slot_number as u32));
                self.slot_map.set(slot_number, Some(page_number as u32));
                let flen = self.file.len();
                proof {
                    let pn = page_number as int;
                    let ps = old(self).spec_page_size();
                    let pc = old(self).spec_page_count();
                    vstd::arithmetic::mul::lemma_mul_inequality(pn + 1, pc, ps);
                    assert((pn + 1) * ps == pn * ps + ps) by (nonlinear_arith);
                    assert(12 + pn * ps + ps <= flen);
                }
                let offset = FILE_HEADER_SIZE + page_number * self.page_size;
                let mut pb = PageBuffer::new(self.page_size as u32, 0);
                pb.copy_from(&self.file, offset);
                self.bufs.set(slot_number, pb);
                self.clock.set(slot_number);
                Ok(slot_number)
            },
        }
    }

    /// Borrow the buffer of slot `slot`.
    pub fn slot(&self, slot: usize) -> (r: &PageBuffer)
        requires
            self.wf(),
            slot < self.spec_slots(),
        ensures
            r@ == self.slot_bytes(slot as int),
            r@.len() == self.spec_page_size(),
    {
        &self.bufs[slot]
    }
}

} // verus!
