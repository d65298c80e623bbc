//! Block range index: for a file laid out in blocks, the first and last
//! value of each block, used to find the block range that may contain a
//! probe value.
//!
//! The blocks cover an ascending sequence of values, so both the first
//! and the last values are non-decreasing across blocks, and the blocks
//! containing any given value form a contiguous run.

use crate::codec::{be_u32_at, read_u32, write_u32};
use crate::key::TreeError;
use vstd::prelude::*;

verus! {

/// Block `i` covers values in `[ranges[i].0, ranges[i].1]`.
pub struct Index {
    block_range: Vec<(u32, u32)>,
}

/// Each block's bounds are ordered, and both bounds are non-decreasing
/// across blocks.
pub open spec fn wf_ranges(r: Seq<(u32, u32)>) -> bool {
    &&& (forall|i: int| 0 <= i < r.len() ==> (#[trigger] r[i]).0 <= r[i].1)
    &&& (forall|i: int, j: int| 0 <= i < j < r.len() ==> (#[trigger] r[i]).0 <= (#[trigger] r[j]).0)
    &&& (forall|i: int, j: int| 0 <= i < j < r.len() ==> (#[trigger] r[i]).1 <= (#[trigger] r[j]).1)
}

/// Block `i` covers `value`.
pub open spec fn block_contains(r: Seq<(u32, u32)>, i: int, value: u32) -> bool {
    r[i].0 <= value <= r[i].1
}

/// The block ranges an index image encodes: a count, then the pairs.
pub open spec fn image_ranges(bytes: Seq<u8>) -> Seq<(u32, u32)> {
    Seq::new(
        be_u32_at(bytes, 0) as nat,
        |i: int| (be_u32_at(bytes, 4 + 8 * i), be_u32_at(bytes, 4 + 8 * i + 4)),
    )
}

/// Monotonicity between adjacent blocks extends to any pair of blocks.
proof fn lemma_adjacent_mono(r: Seq<(u32, u32)>, i: int, j: int)
    requires
        forall|t: int| 0 <= t < r.len() - 1 ==> (#[trigger] r[t]).0 <= r[t + 1].0 && r[t].1 <= r[
            t + 1
        ].1,
        0 <= i <= j < r.len(),
    ensures
        r[i].0 <= r[j].0,
        r[i].1 <= r[j].1,
    decreases j - i,
{
    if i < j {
        lemma_adjacent_mono(r, i, j - 1);
        assert(r[j - 1].0 <= r[j].0 && r[j - 1].1 <= r[j].1);
    }
}

impl Index {
    pub closed spec fn ranges(&self) -> Seq<(u32, u32)> {
        self.block_range@
    }

    pub closed spec fn wf(&self) -> bool {
        wf_ranges(self.block_range@)
    }

    /// An index over the given block ranges.
    pub fn new(block_range: Vec<(u32, u32)>) -> (r: Index)
        requires
            wf_ranges(block_range@),
        ensures
            r.wf(),
            r.ranges() == block_range@,
    {
        Index { block_range }
    }

    /// Some block containing `value`.
    fn any_index_of(&self, value: u32) -> (r: usize)
        requires
            self.wf(),
            self.ranges().len() <= 0x7fff_ffff,
            exists|i: int| 0 <= i < self.ranges().len() && block_contains(self.ranges(), i, value),
        ensures
            r < self.ranges().len(),
            block_contains(self.ranges(), r as int, value),
    {
        let ghost rs = self.ranges();
        let ghost w = choose|i: int| 0 <= i < rs.len() && block_contains(rs, i, value);
        let len = self.block_range.len();
        let mut min: usize = 0;
        let mut max: usize = len;
        let mut i: usize = (max + min) / 2;
        while min < max
            invariant
                self.wf(),
                rs == self.ranges(),
                rs.len() == len <= 0x7fff_ffff,
                0 <= w < rs.len(),
                block_contains(rs, w, value),
                min <= w <= max,
                max <= len,
                i == (min + max) / 2,
            decreases max - min,
        {
            let (first_value, last_value) = self.block_range[i];
            if value < first_value {
                proof {
                    // A containing block cannot lie at or above `i`.
                    if w >= i {
                        assert(rs[i as int].0 <= rs[w].0 || i == w);
                    }
                    assert(w < i);
                }
                max = i - 1;
            } else if value > last_value {
                proof {
                    if w <= i {
                        assert(w < i ==> rs[w].1 <= rs[i as int].1);
                    }
                    assert(w > i);
                }
                min = i + 1;
            } else {
                return i;
            }
            i = (min + max) / 2;
        }
        i
    }

    /// The first (lowest-numbered) block containing `value`.
    pub fn first_index_of(&self, value: u32) -> (r: usize)
        requires
            self.wf(),
            self.ranges().len() <= 0x7fff_ffff,
            exists|i: int| 0 <= i < self.ranges().len() && block_contains(self.ranges(), i, value),
        ensures
            r < self.ranges().len(),
            block_contains(self.ranges(), r as int, value),
            forall|j: int|
                0 <= j < self.ranges().len() && block_contains(self.ranges(), j, value) ==> r <= j,
    {
        let ghost rs = self.ranges();
        let mut i = self.any_index_of(value);
        // Scan to the first block that contains the value.
        while i > 0 && value >= self.block_range[i - 1].0 && value <= self.block_range[i - 1].1
            invariant
                self.wf(),
                rs == self.ranges(),
                i < rs.len(),
                block_contains(rs, i as int, value),
            decreases i,
        {
            i -= 1;
        }
        proof {
            assert forall|j: int|
                0 <= j < rs.len() && block_contains(rs, j, value) implies i <= j by {
                if j < i {
                    // Block `i - 1` would then contain the value too,
                    // contradicting the scan's exit condition.
                    assert(rs[i as int - 1].0 <= rs[i as int].0);
                    if j < i - 1 {
                        assert(rs[j].1 <= rs[i as int - 1].1);
                    }
                    assert(block_contains(rs, i as int - 1, value));
                }
            }
        }
        i
    }

    /// The last (highest-numbered) block containing `value`.
    pub fn last_index_of(&self, value: u32) -> (r: usize)
        requires
            self.wf(),
            self.ranges().len() <= 0x7fff_ffff,
            exists|i: int| 0 <= i < self.ranges().len() && block_contains(self.ranges(), i, value),
        ensures
            r < self.ranges().len(),
            block_contains(self.ranges(), r as int, value),
            forall|j: int|
                0 <= j < self.ranges().len() && block_contains(self.ranges(), j, value) ==> j <= r,
    {
        let ghost rs = self.ranges();
        let len = self.block_range.len();
        let mut i = self.any_index_of(value);
        // Scan to the last block that contains the value.
        while i < len - 1 && value >= self.block_range[i + 1].0 && value <= self.block_range[i
            + 1].1
            invariant
                self.wf(),
                rs == self.ranges(),
                len == rs.len(),
                1 <= len,
                i < rs.len(),
                block_contains(rs, i as int, value),
            decreases len - i,
        {
            i += 1;
        }
        proof {
            assert forall|j: int|
                0 <= j < rs.len() && block_contains(rs, j, value) implies j <= i by {
                if j > i {
                    // Block `i + 1` would then contain the value too,
                    // contradicting the scan's exit condition.
                    assert(rs[i as int + 1].0 <= rs[j].0);
                    assert(rs[i as int].1 <= rs[i as int + 1].1);
                    assert(block_contains(rs, i as int + 1, value));
                }
            }
        }
        i
    }

    /// Serialize the index: the block count, then each block's first and
    /// last value, all big-endian `u32`.
    pub fn to_bytes(&self) -> (r: Vec<u8>)
        requires
            self.ranges().len() <= 0xffff_ffff,
            8 * self.ranges().len() + 4 <= usize::MAX,
        ensures
            r@.len() == 4 + 8 * self.ranges().len(),
            be_u32_at(r@, 0) == self.ranges().len(),
            forall|i: int|
                0 <= i < self.ranges().len() ==> be_u32_at(r@, 4 + 8 * i) == (
                #[trigger] self.ranges()[i]).0 && be_u32_at(r@, 4 + 8 * i + 4) == self.ranges()[i].1,
    {
        let n = self.block_range.len();
        let mut buf: Vec<u8> = Vec::new();
        let total = 4 + 8 * n;
        let mut z: usize = 0;
        while z < total
            invariant
                z <= total,
                buf@.len() == z,
            decreases total - z,
        {
            buf.push(0);
            z += 1;
        }
        write_u32(&mut buf, 0, n as u32);
        let mut i: usize = 0;
        while i < n
            invariant
                i <= n,
                n == self.ranges().len(),
                buf@.len() == total,
                total == 4 + 8 * n,
                be_u32_at(buf@, 0) == n,
                forall|j: int|
                    0 <= j < i ==> be_u32_at(buf@, 4 + 8 * j) == (#[trigger] self.ranges()[j]).0
                        && be_u32_at(buf@, 4 + 8 * j + 4) == self.ranges()[j].1,
            decreases n - i,
        {
            let (first_value, last_value) = self.block_range[i];
            let ghost pre = buf@;
            write_u32(&mut buf, 4 + 8 * i, first_value);
            let ghost mid = buf@;
            write_u32(&mut buf, 4 + 8 * i + 4, last_value);
            proof {
                assert forall|j: int|
                    0 <= j < i + 1 implies be_u32_at(buf@, 4 + 8 * j) == (
                #[trigger] self.ranges()[j]).0 && be_u32_at(buf@, 4 + 8 * j + 4)
                    == self.ranges()[j].1 by {
                    if j < i {
                        assert(be_u32_at(pre, 4 + 8 * j) == self.ranges()[j].0);
                        assert(be_u32_at(pre, 4 + 8 * j + 4) == self.ranges()[j].1);
                    }
                }
                assert(be_u32_at(buf@, 0) == be_u32_at(pre, 0));
            }
            i += 1;
        }
        buf
    }

    /// Parse an index image written by `to_bytes`.
    ///
    /// Succeeds exactly when the image length matches its announced
    /// block count and the encoded ranges are well-formed — each block
    /// ordered, both bounds non-decreasing across blocks — and then
    /// returns a well-formed index holding exactly the encoded ranges.
    /// In particular any image written by `to_bytes` from a well-formed
    /// index parses back.
    pub fn from_bytes(bytes: &Vec<u8>) -> (r: Result<Index, TreeError>)
        ensures
            match r {
                Ok(idx) => {
                    &&& bytes@.len() >= 4
                    &&& bytes@.len() == 4 + 8 * (be_u32_at(bytes@, 0) as int)
                    &&& idx.wf()
                    &&& idx.ranges() == image_ranges(bytes@)
                },
                Err(e) => e == TreeError::MalformedHeader,
            },
            (r matches Err(_)) <==> !(bytes@.len() >= 4 && bytes@.len() == 4 + 8 * (be_u32_at(
                bytes@,
                0,
            ) as int) && wf_ranges(image_ranges(bytes@))),
    {
        let ghost img = image_ranges(bytes@);
        let blen = bytes.len();
        if blen < 4 {
            return Err(TreeError::MalformedHeader);
        }
        let n = read_u32(bytes, 0);
        if (blen - 4) / 8 != n as usize || (blen - 4) % 8 != 0 {
            proof {
                if blen == 4 + 8 * (n as int) {
                    vstd::arithmetic::div_mod::lemma_div_by_multiple(n as int, 8);
                    vstd::arithmetic::div_mod::lemma_mod_multiples_basic(n as int, 8);
                    assert((n as int) * 8 == 8 * (n as int)) by (nonlinear_arith);
                }
            }
            return Err(TreeError::MalformedHeader);
        }
        let mut block_range: Vec<(u32, u32)> = Vec::new();
        let mut i: usize = 0;
        while i < n as usize
            invariant
                i <= n,
                blen == bytes@.len(),
                blen == 4 + 8 * (n as int),
                n == be_u32_at(bytes@, 0),
                img == image_ranges(bytes@),
                img.len() == n,
                block_range@.len() == i,
                forall|j: int| 0 <= j < i ==> block_range@[j] == img[j],
                forall|j: int| 0 <= j < i ==> (#[trigger] img[j]).0 <= img[j].1,
                forall|j: int|
                    0 <= j < i - 1 ==> (#[trigger] img[j]).0 <= img[j + 1].0 && img[j].1 <= img[
                        j + 1
                    ].1,
            decreases n - i,
        {
            let first_value = read_u32(bytes, 4 + 8 * i);
            let last_value = read_u32(bytes, 4 + 8 * i + 4);
            if first_value > last_value {
                proof {
                    assert(img[i as int].0 > img[i as int].1);
                    assert(!wf_ranges(img));
                }
                return Err(TreeError::MalformedHeader);
            }
            if i > 0 {
                let (prev_first, prev_last) = block_range[i - 1];
                if prev_first > first_value || prev_last > last_value {
                    proof {
                        assert(block_range@[i - 1] == img[i - 1]);
                        assert(img[i - 1].0 == prev_first && img[i - 1].1 == prev_last);
                        assert(img[i as int].0 == first_value && img[i as int].1 == last_value);
                        assert(!wf_ranges(img));
                    }
                    return Err(TreeError::MalformedHeader);
                }
            }
            block_range.push((first_value, last_value));
            i += 1;
        }
        proof {
            assert(block_range@ =~= img);
            assert forall|a: int, b: int| 0 <= a < b < img.len() implies (#[trigger] img[a]).0
                <= (#[trigger] img[b]).0 && img[a].1 <= img[b].1 by {
                lemma_adjacent_mono(img, a, b);
            }
            assert(wf_ranges(img));
        }
        Ok(Index { block_range })
    }
}

} // verus!
