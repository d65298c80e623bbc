//! CLOCK (second-chance) replacement state: a reference bit per slot and a
//! circular hand.
//!
//! `evict` scans from the hand, clearing reference bits, and picks the
//! first slot whose bit is already clear.

use vstd::prelude::*;

verus! {

/// Number of set bits in a bitmap.
pub open spec fn count_trues(s: Seq<bool>) -> nat
    decreases s.len(),
{
    if s.len() == 0 {
        0
    } else {
        count_trues(s.drop_last()) + if s.last() {
            1nat
        } else {
            0nat
        }
    }
}

proof fn lemma_count_trues_clear(s: Seq<bool>, i: int)
    requires
        0 <= i < s.len(),
        s[i],
    ensures
        count_trues(s.update(i, false)) < count_trues(s),
    decreases s.len(),
{
    if i == s.len() - 1 {
        assert(s.update(i, false).drop_last() =~= s.drop_last());
    } else {
        assert(s.update(i, false).drop_last() =~= s.drop_last().update(i, false));
        lemma_count_trues_clear(s.drop_last(), i);
    }
}

/// Distance from `h` forward to `i` in circular order over `s` slots.
pub open spec fn circ_dist(h: int, i: int, s: int) -> int {
    if i >= h {
        i - h
    } else {
        i - h + s
    }
}

/// The slot `d` steps forward of `h` in circular order, for `d` up to one
/// full turn.
pub open spec fn circ_pos(h: int, d: int, s: int) -> int {
    if h + d < s {
        h + d
    } else {
        h + d - s
    }
}

/// CLOCK replacement state over a fixed number of slots.
pub struct Clock {
    clock: Vec<bool>,
    slots: usize,
    slot_index: usize,
}

impl Clock {
    /// The reference bitmap.
    pub closed spec fn bits(&self) -> Seq<bool> {
        self.clock@
    }

    /// The current hand position.
    pub closed spec fn hand(&self) -> int {
        self.slot_index as int
    }

    pub closed spec fn wf(&self) -> bool {
        &&& self.clock@.len() == self.slots
        &&& self.slot_index < self.slots
        &&& self.slots >= 1
    }

    /// All reference bits clear, hand at slot 0.
    pub fn new(slots: usize) -> (r: Clock)
        requires
            slots >= 1,
        ensures
            r.wf(),
            r.bits().len() == slots,
            r.hand() == 0,
            forall|i: int| 0 <= i < slots ==> !r.bits()[i],
    {
        let mut clock: Vec<bool> = Vec::new();
        let mut i: usize = 0;
        while i < slots
            invariant
                i <= slots,
                clock@.len() == i,
                forall|k: int| 0 <= k < i ==> !clock@[k],
            decreases slots - i,
        {
            clock.push(false);
            i += 1;
        }
        Clock { clock, slots, slot_index: 0 }
    }

    /// Set the reference bit of `slot`.
    pub fn set(&mut self, slot: usize)
        requires
            old(self).wf(),
            slot < old(self).bits().len(),
        ensures
            final(self).wf(),
            final(self).bits() == old(self).bits().update(slot as int, true),
            final(self).hand() == old(self).hand(),
    {
        self.clock.set(slot, true);
    }

    /// Clear the reference bit of `slot`.
    pub fn unset(&mut self, slot: usize)
        requires
            old(self).wf(),
            slot < old(self).bits().len(),
        ensures
            final(self).wf(),
            final(self).bits() == old(self).bits().update(slot as int, false),
            final(self).hand() == old(self).hand(),
    {
        self.clock.set(slot, false);
    }

    /// Read the reference bit of `slot`.
    pub fn test(&self, slot: usize) -> (r: bool)
        requires
            self.wf(),
            slot < self.bits().len(),
        ensures
            r == self.bits()[slot as int],
    {
        self.clock[slot]
    }

    /// Move the hand one slot forward, wrapping around.
    pub fn advance(&mut self)
        requires
            old(self).wf(),
        ensures
            final(self).wf(),
            final(self).bits() == old(self).bits(),
            final(self).hand() == (old(self).hand() + 1) % (old(self).bits().len() as int),
    {
        self.slot_index = (self.slot_index + 1) % self.slots;
    }

    /// Second-chance scan: clear reference bits from the hand until a
    /// slot with a clear bit is found; return it and advance the hand one
    /// past it.
    ///
    /// The victim is the first slot met in circular order from the hand
    /// whose reference bit is clear; exactly the set bits scanned before
    /// it are cleared and every other bit keeps its value. When every bit
    /// is set, the scan clears them all, wraps, and evicts the hand's own
    /// slot.
    pub fn evict(&mut self) -> (r: usize)
        requires
            old(self).wf(),
        ensures
            final(self).wf(),
            final(self).bits().len() == old(self).bits().len(),
            r < old(self).bits().len(),
            !final(self).bits()[r as int],
            forall|i: int|
                0 <= i < old(self).bits().len() && final(self).bits()[i] ==> old(self).bits()[i],
            final(self).hand() == (r + 1) % (old(self).bits().len() as int),
            (exists|i: int| 0 <= i < old(self).bits().len() && !old(self).bits()[i]) ==> {
                let h = old(self).hand();
                let s = old(self).bits().len() as int;
                &&& !old(self).bits()[r as int]
                &&& (forall|i: int|
                    0 <= i < s && circ_dist(h, i, s) < circ_dist(h, r as int, s)
                        ==> old(self).bits()[i] && !final(self).bits()[i])
                &&& (forall|i: int|
                    0 <= i < s && circ_dist(h, i, s) > circ_dist(h, r as int, s)
                        ==> final(self).bits()[i] == old(self).bits()[i])
            },
            (forall|i: int| 0 <= i < old(self).bits().len() ==> old(self).bits()[i]) ==> {
                &&& r == old(self).hand()
                &&& (forall|i: int| 0 <= i < old(self).bits().len() ==> !final(self).bits()[i])
            },
    {
        let ghost slots = self.bits().len() as int;
        let ghost h0 = self.hand();
        let ghost mut d: int = 0;
        proof {
            vstd::arithmetic::div_mod::lemma_mod_self_0(slots);
        }
        while self.test(self.slot_index)
            invariant
                self.wf(),
                self.bits().len() == slots,
                h0 == old(self).hand(),
                old(self).wf(),
                old(self).bits().len() == slots,
                0 <= h0 < slots,
                0 <= d <= slots,
                self.hand() == circ_pos(h0, d, slots),
                forall|i: int|
                    0 <= i < slots && circ_dist(h0, i, slots) < d ==> old(self).bits()[i]
                        && !self.bits()[i],
                forall|i: int|
                    0 <= i < slots && circ_dist(h0, i, slots) >= d
                        ==> self.bits()[i] == old(self).bits()[i],
            decreases count_trues(self.bits()),
        {
            let ghost before = self.bits();
            let hand = self.slot_index;
            proof {
                // The current slot lies exactly `d` steps from the start:
                // with its bit still set, the scan has not wrapped fully.
                if d == slots {
                    assert(circ_dist(h0, hand as int, slots) < d);
                }
                assert(d < slots);
                assert(circ_dist(h0, hand as int, slots) == d);
            }
            self.unset(hand);
            self.advance();
            proof {
                lemma_count_trues_clear(before, hand as int);
                if (hand as int) + 1 < slots {
                    vstd::arithmetic::div_mod::lemma_small_mod((hand + 1) as nat, slots as nat);
                } else {
                    vstd::arithmetic::div_mod::lemma_mod_self_0(slots);
                }
                d = d + 1;
            }
        }
        let res = self.slot_index;
        proof {
            if d < slots {
                assert(circ_dist(h0, res as int, slots) == d);
                assert(!old(self).bits()[res as int]);
            } else {
                assert(res == h0);
                assert forall|i: int| 0 <= i < slots implies !self.bits()[i] by {
                    assert(circ_dist(h0, i, slots) < slots);
                }
            }
        }
        self.advance();
        res
    }
}

} // verus!
