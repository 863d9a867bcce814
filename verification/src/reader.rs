//! A bounds-checked forward cursor over a byte buffer.
//!
//! Every multi-byte field of an SFNT file is big-endian; the spec functions
//! here give the meaning of such a field at a byte position, and [`Reader`]
//! reads one while advancing its position, failing cleanly on underrun
//! instead of reading past the buffer.

use vstd::prelude::*;

verus! {

/// The unsigned 16-bit big-endian value stored at byte position `i`.
pub open spec fn be_u16_at(d: Seq<u8>, i: int) -> int {
    d[i] * 0x100 + d[i + 1]
}

/// The unsigned 32-bit big-endian value stored at byte position `i`.
pub open spec fn be_u32_at(d: Seq<u8>, i: int) -> int {
    ((d[i] * 0x100 + d[i + 1]) * 0x100 + d[i + 2]) * 0x100 + d[i + 3]
}

/// The unsigned 64-bit big-endian value stored at byte position `i`.
pub open spec fn be_u64_at(d: Seq<u8>, i: int) -> int {
    be_u32_at(d, i) * 0x1_0000_0000 + be_u32_at(d, i + 4)
}

/// The signed (two's complement) 16-bit big-endian value at byte position `i`.
pub open spec fn be_i16_at(d: Seq<u8>, i: int) -> int {
    if be_u16_at(d, i) >= 0x8000 {
        be_u16_at(d, i) - 0x1_0000
    } else {
        be_u16_at(d, i)
    }
}

/// A cursor that walks a byte buffer forward. Reads check bounds and return
/// `None` on underrun, leaving the position unchanged.
pub struct Reader<'a> {
    /// The whole file buffer.
    pub data: &'a [u8],
    /// The next byte to read.
    pub pos: usize,
}

impl<'a> Reader<'a> {
    pub fn new(data: &'a [u8], pos: usize) -> (r: Self)
        ensures
            r.data@ == data@,
            r.pos == pos,
    {
        Reader { data, pos }
    }

    /// Move the cursor to an absolute byte position.
    pub fn set_pos(&mut self, pos: usize)
        ensures
            final(self).data@ == old(self).data@,
            final(self).pos == pos,
    {
        self.pos = pos;
    }

    /// Advance the cursor by `n` bytes, stopping at the end of the buffer.
    pub fn skip(&mut self, n: usize)
        requires
            old(self).pos <= old(self).data@.len(),
        ensures
            final(self).data@ == old(self).data@,
            final(self).pos == if old(self).pos + n <= old(self).data@.len() {
                old(self).pos + n
            } else {
                old(self).data@.len() as int
            },
    {
        let rem = self.data.len() - self.pos;
        if n <= rem {
            self.pos = self.pos + n;
        } else {
            self.pos = self.data.len();
        }
    }

    pub fn read_u8(&mut self) -> (r: Option<u8>)
        ensures
            final(self).data@ == old(self).data@,
            match r {
                Some(v) => {
                    &&& old(self).pos + 1 <= old(self).data@.len()
                    &&& v == old(self).data@[old(self).pos as int]
                    &&& final(self).pos == old(self).pos + 1
                },
                None => {
                    &&& old(self).pos + 1 > old(self).data@.len()
                    &&& final(self).pos == old(self).pos
                },
            },
    {
        if self.pos < self.data.len() {
            let b = self.data[self.pos];
            self.pos = self.pos + 1;
            Some(b)
        } else {
            None
        }
    }

    pub fn read_u16(&mut self) -> (r: Option<u16>)
        ensures
            final(self).data@ == old(self).data@,
            match r {
                Some(v) => {
                    &&& old(self).pos + 2 <= old(self).data@.len()
                    &&& v == be_u16_at(old(self).data@, old(self).pos as int)
                    &&& final(self).pos == old(self).pos + 2
                },
                None => {
                    &&& old(self).pos + 2 > old(self).data@.len()
                    &&& final(self).pos == old(self).pos
                },
            },
    {
        if self.pos < self.data.len() && self.data.len() - self.pos >= 2 {
            let b0 = self.data[self.pos];
            let b1 = self.data[self.pos + 1];
            self.pos = self.pos + 2;
            Some((b0 as u16) * 0x100 + (b1 as u16))
        } else {
            None
        }
    }

    pub fn read_u32(&mut self) -> (r: Option<u32>)
        ensures
            final(self).data@ == old(self).data@,
            match r {
                Some(v) => {
                    &&& old(self).pos + 4 <= old(self).data@.len()
                    &&& v == be_u32_at(old(self).data@, old(self).pos as int)
                    &&& final(self).pos == old(self).pos + 4
                },
                None => {
                    &&& old(self).pos + 4 > old(self).data@.len()
                    &&& final(self).pos == old(self).pos
                },
            },
    {
        if self.pos < self.data.len() && self.data.len() - self.pos >= 4 {
            let b0 = self.data[self.pos];
            let b1 = self.data[self.pos + 1];
            let b2 = self.data[self.pos + 2];
            let b3 = self.data[self.pos + 3];
            self.pos = self.pos + 4;
            Some(
                ((b0 as u32) * 0x100 + (b1 as u32)) * 0x1_0000 + (b2 as u32) * 0x100
                    + (b3 as u32),
            )
        } else {
            None
        }
    }

    pub fn read_u64(&mut self) -> (r: Option<u64>)
        ensures
            final(self).data@ == old(self).data@,
            match r {
                Some(v) => {
                    &&& old(self).pos + 8 <= old(self).data@.len()
                    &&& v == be_u64_at(old(self).data@, old(self).pos as int)
                    &&& final(self).pos == old(self).pos + 8
                },
                None => {
                    &&& old(self).pos + 8 > old(self).data@.len()
                    &&& final(self).pos == old(self).pos
                },
            },
    {
        let hi = match self.read_u32() {
            Some(v) => v,
            None => {
                return None;
            },
        };
        match self.read_u32() {
            Some(lo) => Some((hi as u64) * 0x1_0000_0000 + (lo as u64)),
            None => {
                self.pos = self.pos - 4;
                None
            },
        }
    }

    pub fn read_i16(&mut self) -> (r: Option<i16>)
        ensures
            final(self).data@ == old(self).data@,
            match r {
                Some(v) => {
                    &&& old(self).pos + 2 <= old(self).data@.len()
                    &&& v == be_i16_at(old(self).data@, old(self).pos as int)
                    &&& final(self).pos == old(self).pos + 2
                },
                None => {
                    &&& old(self).pos + 2 > old(self).data@.len()
                    &&& final(self).pos == old(self).pos
                },
            },
    {
        match self.read_u16() {
            Some(v) => {
                if v >= 0x8000 {
                    Some((-((0xffffu16 - v) as i16)) - 1)
                } else {
                    Some(v as i16)
                }
            },
            None => None,
        }
    }
}

} // verus!
