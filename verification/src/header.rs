//! File header: the first 12 bytes of a tree file.
//!
//! Three big-endian `u32` fields: `page_size`, `page_count` and
//! `root_page_num`. Page `p` occupies bytes
//! `[12 + p * page_size, 12 + (p + 1) * page_size)`.

use crate::codec::{be_u32_at, read_u32, write_u32};
use vstd::prelude::*;

verus! {

pub const FILE_HEADER_SIZE: usize = 12;

/// The `page_size` header field of a file image.
pub open spec fn hdr_page_size(f: Seq<u8>) -> u32 {
    be_u32_at(f, 0)
}

/// The `page_count` header field of a file image.
pub open spec fn hdr_page_count(f: Seq<u8>) -> u32 {
    be_u32_at(f, 4)
}

/// The `root_page_num` header field of a file image.
pub open spec fn hdr_root(f: Seq<u8>) -> u32 {
    be_u32_at(f, 8)
}

/// The bytes of page `pn` within a file image whose pages are `ps` bytes.
pub open spec fn page_bytes(f: Seq<u8>, ps: int, pn: int) -> Seq<u8> {
    f.subrange(12 + pn * ps, 12 + (pn + 1) * ps)
}

/// Decoded file header.
#[derive(PartialEq, Eq, Structural, Clone, Copy, Debug)]
pub struct FileHeader {
    pub page_size: u32,
    pub page_count: u32,
    pub root_page_num: u32,
}

/// A 12-byte buffer holding an encoded file header.
pub struct FileHeaderBuffer {
    buf: Vec<u8>,
}

impl View for FileHeaderBuffer {
    type V = Seq<u8>;

    closed spec fn view(&self) -> Seq<u8> {
        self.buf@
    }
}

impl FileHeaderBuffer {
    /// A zeroed header buffer.
    pub fn new() -> (r: FileHeaderBuffer)
        ensures
            r@.len() == 12,
            forall|i: int| 0 <= i < 12 ==> r@[i] == 0,
    {
        let mut buf: Vec<u8> = Vec::new();
        let mut i: usize = 0;
        while i < FILE_HEADER_SIZE
            invariant
                i <= 12,
                buf@.len() == i,
                forall|k: int| 0 <= k < i ==> buf@[k] == 0,
            decreases 12 - i,
        {
            buf.push(0);
            i += 1;
        }
        FileHeaderBuffer { buf }
    }

    /// Encode `header` into the buffer.
    pub fn set(&mut self, header: FileHeader)
        requires
            old(self)@.len() == 12,
        ensures
            final(self)@.len() == 12,
            hdr_page_size(final(self)@) == header.page_size,
            hdr_page_count(final(self)@) == header.page_count,
            hdr_root(final(self)@) == header.root_page_num,
    {
        write_u32(&mut self.buf, 0, header.page_size);
        write_u32(&mut self.buf, 4, header.page_count);
        write_u32(&mut self.buf, 8, header.root_page_num);
    }

    /// Decode the buffer into a header record.
    pub fn get(&self) -> (r: FileHeader)
        requires
            self@.len() == 12,
        ensures
            r == (FileHeader {
                page_size: hdr_page_size(self@),
                page_count: hdr_page_count(self@),
                root_page_num: hdr_root(self@),
            }),
    {
        FileHeader {
            page_size: read_u32(&self.buf, 0),
            page_count: read_u32(&self.buf, 4),
            root_page_num: read_u32(&self.buf, 8),
        }
    }

    /// The raw bytes of the buffer.
    pub fn buf(&self) -> (r: &Vec<u8>)
        ensures
            r@ == self@,
    {
        &self.buf
    }
}

/// Read the header fields out of a full file image.
pub fn read_file_header(file: &Vec<u8>) -> (r: FileHeader)
    requires
        file@.len() >= 12,
    ensures
        r == (FileHeader {
            page_size: hdr_page_size(file@),
            page_count: hdr_page_count(file@),
            root_page_num: hdr_root(file@),
        }),
{
    FileHeader {
        page_size: read_u32(file, 0),
        page_count: read_u32(file, 4),
        root_page_num: read_u32(file, 8),
    }
}

} // verus!
