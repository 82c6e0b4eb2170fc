//! The fixed 512-byte message buffer with a read/write cursor.
//!
//! Every access is bounds-checked against the 512-byte region and fails with
//! `DnsError::EndOfBuffer` before any mutation; multi-byte accesses check the
//! whole target range up front, so a failed access never writes or consumes
//! anything.

use vstd::prelude::*;
use vstd::pervasive::VecAdditionalExecFns;

use crate::errors::DnsError;

verus! {

/// Size in bytes of a DNS message buffer (classic UDP DNS, no EDNS0).
pub const BUF_SIZE: usize = 512;

/// The big-endian two-byte encoding of a 16-bit value.
pub open spec fn be16(v: u16) -> Seq<u8> {
    seq![(v / 256) as u8, (v % 256) as u8]
}

/// The big-endian four-byte encoding of a 32-bit value.
pub open spec fn be32(v: u32) -> Seq<u8> {
    seq![
        (v / 0x1000000) as u8,
        ((v / 0x10000) % 256) as u8,
        ((v / 256) % 256) as u8,
        (v % 256) as u8,
    ]
}

/// The 16-bit value read big-endian from two bytes.
pub open spec fn u16_from(hi: u8, lo: u8) -> int {
    hi as int * 256 + lo as int
}

/// The 32-bit value read big-endian from four bytes.
pub open spec fn u32_from(b0: u8, b1: u8, b2: u8, b3: u8) -> int {
    b0 as int * 0x1000000 + b1 as int * 0x10000 + b2 as int * 256 + b3 as int
}

/// The buffer with `data` overlaid at absolute position `pos`.
pub open spec fn splice(buf: Seq<u8>, pos: int, data: Seq<u8>) -> Seq<u8> {
    buf.take(pos) + data + buf.skip(pos + data.len())
}

/// Writing `d1` then `d2` right after it is one write of `d1 + d2`.
pub proof fn lemma_splice_concat(buf: Seq<u8>, pos: int, d1: Seq<u8>, d2: Seq<u8>)
    requires
        0 <= pos,
        pos + d1.len() + d2.len() <= buf.len(),
    ensures
        splice(splice(buf, pos, d1), pos + d1.len(), d2) =~= splice(buf, pos, d1 + d2),
{
}

/// Overwriting bytes inside an already written run is one write of the
/// patched run.
pub proof fn lemma_splice_within(buf: Seq<u8>, pos: int, w: Seq<u8>, k: int, d: Seq<u8>)
    requires
        0 <= pos,
        pos + w.len() <= buf.len(),
        0 <= k,
        k + d.len() <= w.len(),
    ensures
        splice(splice(buf, pos, w), pos + k, d) =~= splice(buf, pos, splice(w, k, d)),
{
}

/// Splitting a 32-bit big-endian value back into its four bytes.
pub proof fn lemma_u32_from_split(b0: u8, b1: u8, b2: u8, b3: u8)
    ensures
        u32_from(b0, b1, b2, b3) / 0x1000000 == b0,
        (u32_from(b0, b1, b2, b3) / 0x10000) % 256 == b1,
        (u32_from(b0, b1, b2, b3) / 256) % 256 == b2,
        u32_from(b0, b1, b2, b3) % 256 == b3,
{
    let v = u32_from(b0, b1, b2, b3);
    assert(v / 0x1000000 == b0 && (v / 0x10000) % 256 == b1 && (v / 256) % 256 == b2 && v % 256
        == b3) by (nonlinear_arith)
        requires
            v == b0 as int * 0x1000000 + b1 as int * 0x10000 + b2 as int * 256 + b3 as int,
            b0 < 256 && b1 < 256 && b2 < 256 && b3 < 256,
    ;
}

/// Splitting a 16-bit big-endian value back into its two bytes.
pub proof fn lemma_u16_from_split(hi: u8, lo: u8)
    ensures
        u16_from(hi, lo) / 256 == hi,
        u16_from(hi, lo) % 256 == lo,
{
    assert(u16_from(hi, lo) / 256 == hi && u16_from(hi, lo) % 256 == lo) by (nonlinear_arith);
}

/// Reading two big-endian bytes undoes `be16`.
pub proof fn lemma_be16_inverse(v: u16)
    ensures
        u16_from(be16(v)[0], be16(v)[1]) == v,
{
    assert(v / 256 < 256) by (nonlinear_arith);
    assert(v as int == (v as int / 256) * 256 + v as int % 256) by (nonlinear_arith);
}

/// Reading four big-endian bytes undoes `be32`.
pub proof fn lemma_be32_inverse(v: u32)
    ensures
        u32_from(be32(v)[0], be32(v)[1], be32(v)[2], be32(v)[3]) == v,
{
    assert(v as int == (v as int / 0x1000000) * 0x1000000 + (v as int / 0x10000) % 256
        * 0x10000 + (v as int / 256) % 256 * 256 + v as int % 256) by (nonlinear_arith);
    assert(v / 0x1000000 < 256) by (nonlinear_arith);
}

/// An owned 512-byte region with a cursor.
///
/// The byte region always holds exactly [`BUF_SIZE`] bytes; the cursor may be
/// moved freely (`seek`, `step`) but every read or write checks its own
/// target against the region's end.
pub struct BytePacketBuffer {
    pub buf: Vec<u8>,
    pub pos: usize,
}

impl BytePacketBuffer {
    /// The structural invariant: the byte region has exactly `BUF_SIZE` bytes.
    pub open spec fn wf(&self) -> bool {
        self.buf@.len() == BUF_SIZE
    }

    /// A fresh buffer: all zero bytes, cursor at the start.
    pub fn new() -> (r: BytePacketBuffer)
        ensures
            r.wf(),
            r.pos == 0,
            r.buf@ == Seq::<u8>::new(BUF_SIZE as nat, |i: int| 0u8),
    {
        let mut buf: Vec<u8> = Vec::new();
        let mut i: usize = 0;
        while i < BUF_SIZE
            invariant
                i <= BUF_SIZE,
                buf@ =~= Seq::<u8>::new(i as nat, |j: int| 0u8),
            decreases BUF_SIZE - i,
        {
            buf.push(0);
            i = i + 1;
        }
        assert(buf@ =~= Seq::<u8>::new(BUF_SIZE as nat, |i: int| 0u8));
        BytePacketBuffer { buf, pos: 0 }
    }

    /// The current cursor position.
    pub fn pos(&self) -> (r: usize)
        ensures
            r == self.pos,
    {
        self.pos
    }

    /// Move the cursor forward by `steps` bytes (no bounds check: a later
    /// access at the new position performs its own).
    pub fn step(&mut self, steps: usize) -> (r: Result<(), DnsError>)
        requires
            old(self).pos + steps <= usize::MAX,
        ensures
            final(self).buf@ == old(self).buf@,
            final(self).pos == old(self).pos + steps,
            r is Ok,
    {
        self.pos = self.pos + steps;
        Ok(())
    }

    /// Set the cursor to an absolute position.
    pub fn seek(&mut self, pos: usize) -> (r: Result<(), DnsError>)
        ensures
            final(self).buf@ == old(self).buf@,
            final(self).pos == pos,
            r is Ok,
    {
        self.pos = pos;
        Ok(())
    }

    /// Check that a single-byte access at `pos` stays inside the region.
    pub fn not_end_of_buf(&self, pos: usize) -> (r: Result<(), DnsError>)
        ensures
            r is Ok <==> pos < BUF_SIZE,
            r is Err ==> r == Err::<(), DnsError>(DnsError::EndOfBuffer),
    {
        if pos >= BUF_SIZE {
            return Err(DnsError::EndOfBuffer);
        }
        Ok(())
    }

    /// Read the byte under the cursor and advance past it.
    pub fn read(&mut self) -> (r: Result<u8, DnsError>)
        requires
            old(self).wf(),
        ensures
            final(self).wf(),
            final(self).buf@ == old(self).buf@,
            old(self).pos < BUF_SIZE ==> r == Ok::<u8, DnsError>(old(self).buf@[old(self).pos as int])
                && final(self).pos == old(self).pos + 1,
            old(self).pos >= BUF_SIZE ==> r == Err::<u8, DnsError>(DnsError::EndOfBuffer)
                && *final(self) == *old(self),
    {
        match self.not_end_of_buf(self.pos) {
            Ok(_) => {}
            Err(e) => {
                return Err(e);
            }
        }
        let res = self.buf[self.pos];
        self.pos = self.pos + 1;
        Ok(res)
    }

    /// Read the byte at an absolute position without moving the cursor.
    pub fn get(&self, pos: usize) -> (r: Result<u8, DnsError>)
        requires
            self.wf(),
        ensures
            pos < BUF_SIZE ==> r == Ok::<u8, DnsError>(self.buf@[pos as int]),
            pos >= BUF_SIZE ==> r == Err::<u8, DnsError>(DnsError::EndOfBuffer),
    {
        match self.not_end_of_buf(pos) {
            Ok(_) => {}
            Err(e) => {
                return Err(e);
            }
        }
        Ok(self.buf[pos])
    }

    /// Borrow `len` bytes starting at `start` without moving the cursor.
    pub fn get_range(&self, start: usize, len: usize) -> (r: Result<&[u8], DnsError>)
        requires
            self.wf(),
        ensures
            start + len <= BUF_SIZE ==> r is Ok
                && r->Ok_0@ == self.buf@.subrange(start as int, start + len),
            start + len > BUF_SIZE ==> r == Err::<&[u8], DnsError>(DnsError::EndOfBuffer),
    {
        if start > BUF_SIZE || len > BUF_SIZE - start {
            return Err(DnsError::EndOfBuffer);
        }
        Ok(vstd::slice::slice_subrange(self.buf.as_slice(), start, start + len))
    }

    /// Read two bytes big-endian and advance past them; on failure nothing
    /// is consumed.
    pub fn read_u16(&mut self) -> (r: Result<u16, DnsError>)
        requires
            old(self).wf(),
        ensures
            final(self).wf(),
            final(self).buf@ == old(self).buf@,
            old(self).pos + 2 <= BUF_SIZE ==> {
                &&& r is Ok
                &&& r->Ok_0 as int == u16_from(
                    old(self).buf@[old(self).pos as int],
                    old(self).buf@[old(self).pos + 1],
                )
                &&& final(self).pos == old(self).pos + 2
            },
            old(self).pos + 2 > BUF_SIZE ==> r == Err::<u16, DnsError>(DnsError::EndOfBuffer)
                && *final(self) == *old(self),
    {
        if self.pos > BUF_SIZE - 2 {
            return Err(DnsError::EndOfBuffer);
        }
        let hi = self.buf[self.pos];
        let lo = self.buf[self.pos + 1];
        self.pos = self.pos + 2;
        Ok((hi as u16) * 256 + (lo as u16))
    }

    /// Read four bytes big-endian and advance past them; on failure nothing
    /// is consumed.
    pub fn read_u32(&mut self) -> (r: Result<u32, DnsError>)
        requires
            old(self).wf(),
        ensures
            final(self).wf(),
            final(self).buf@ == old(self).buf@,
            old(self).pos + 4 <= BUF_SIZE ==> {
                &&& r is Ok
                &&& r->Ok_0 as int == u32_from(
                    old(self).buf@[old(self).pos as int],
                    old(self).buf@[old(self).pos + 1],
                    old(self).buf@[old(self).pos + 2],
                    old(self).buf@[old(self).pos + 3],
                )
                &&& final(self).pos == old(self).pos + 4
            },
            old(self).pos + 4 > BUF_SIZE ==> r == Err::<u32, DnsError>(DnsError::EndOfBuffer)
                && *final(self) == *old(self),
    {
        if self.pos > BUF_SIZE - 4 {
            return Err(DnsError::EndOfBuffer);
        }
        let b0 = self.buf[self.pos];
        let b1 = self.buf[self.pos + 1];
        let b2 = self.buf[self.pos + 2];
        let b3 = self.buf[self.pos + 3];
        self.pos = self.pos + 4;
        Ok((b0 as u32) * 0x1000000 + (b1 as u32) * 0x10000 + (b2 as u32) * 256 + (b3 as u32))
    }

    /// Write one byte at the cursor and advance past it.
    pub fn write(&mut self, val: u8) -> (r: Result<(), DnsError>)
        requires
            old(self).wf(),
        ensures
            final(self).wf(),
            old(self).pos < BUF_SIZE ==> {
                &&& r is Ok
                &&& final(self).buf@ == old(self).buf@.update(old(self).pos as int, val)
                &&& final(self).pos == old(self).pos + 1
            },
            old(self).pos >= BUF_SIZE ==> r == Err::<(), DnsError>(DnsError::EndOfBuffer)
                && *final(self) == *old(self),
    {
        match self.not_end_of_buf(self.pos) {
            Ok(_) => {}
            Err(e) => {
                return Err(e);
            }
        }
        self.buf.set(self.pos, val);
        self.pos = self.pos + 1;
        Ok(())
    }

    /// Write one byte at the cursor (alias kept for the codec's callers).
    pub fn write_u8(&mut self, val: u8) -> (r: Result<(), DnsError>)
        requires
            old(self).wf(),
        ensures
            final(self).wf(),
            old(self).pos < BUF_SIZE ==> {
                &&& r is Ok
                &&& final(self).buf@ == old(self).buf@.update(old(self).pos as int, val)
                &&& final(self).pos == old(self).pos + 1
            },
            old(self).pos >= BUF_SIZE ==> r == Err::<(), DnsError>(DnsError::EndOfBuffer)
                && *final(self) == *old(self),
    {
        self.write(val)
    }

    /// Write a 16-bit value as two big-endian bytes; all or nothing.
    pub fn write_u16(&mut self, val: u16) -> (r: Result<(), DnsError>)
        requires
            old(self).wf(),
        ensures
            final(self).wf(),
            old(self).pos + 2 <= BUF_SIZE ==> {
                &&& r is Ok
                &&& final(self).buf@ =~= splice(old(self).buf@, old(self).pos as int, be16(val))
                &&& final(self).pos == old(self).pos + 2
            },
            old(self).pos + 2 > BUF_SIZE ==> r == Err::<(), DnsError>(DnsError::EndOfBuffer)
                && *final(self) == *old(self),
    {
        if self.pos > BUF_SIZE - 2 {
            return Err(DnsError::EndOfBuffer);
        }
        proof {
            assert(val / 256 < 256) by (nonlinear_arith);
        }
        self.buf.set(self.pos, (val / 256) as u8);
        self.buf.set(self.pos + 1, (val % 256) as u8);
        self.pos = self.pos + 2;
        Ok(())
    }

    /// Write a 32-bit value as four big-endian bytes; all or nothing.
    pub fn write_u32(&mut self, val: u32) -> (r: Result<(), DnsError>)
        requires
            old(self).wf(),
        ensures
            final(self).wf(),
            old(self).pos + 4 <= BUF_SIZE ==> {
                &&& r is Ok
                &&& final(self).buf@ =~= splice(old(self).buf@, old(self).pos as int, be32(val))
                &&& final(self).pos == old(self).pos + 4
            },
            old(self).pos + 4 > BUF_SIZE ==> r == Err::<(), DnsError>(DnsError::EndOfBuffer)
                && *final(self) == *old(self),
    {
        if self.pos > BUF_SIZE - 4 {
            return Err(DnsError::EndOfBuffer);
        }
        proof {
            assert(val / 0x1000000 < 256) by (nonlinear_arith);
        }
        self.buf.set(self.pos, (val / 0x1000000) as u8);
        self.buf.set(self.pos + 1, ((val / 0x10000) % 256) as u8);
        self.buf.set(self.pos + 2, ((val / 256) % 256) as u8);
        self.buf.set(self.pos + 3, (val % 256) as u8);
        self.pos = self.pos + 4;
        Ok(())
    }

    /// Overwrite the byte at an absolute position without moving the cursor.
    pub fn set(&mut self, pos: usize, val: u8) -> (r: Result<(), DnsError>)
        requires
            old(self).wf(),
        ensures
            final(self).wf(),
            final(self).pos == old(self).pos,
            pos < BUF_SIZE ==> r is Ok
                && final(self).buf@ == old(self).buf@.update(pos as int, val),
            pos >= BUF_SIZE ==> r == Err::<(), DnsError>(DnsError::EndOfBuffer)
                && *final(self) == *old(self),
    {
        match self.not_end_of_buf(pos) {
            Ok(_) => {}
            Err(e) => {
                return Err(e);
            }
        }
        self.buf.set(pos, val);
        Ok(())
    }

    /// Overwrite two bytes big-endian at an absolute position without moving
    /// the cursor (used to back-patch record length fields); all or nothing.
    pub fn set_u16(&mut self, pos: usize, val: u16) -> (r: Result<(), DnsError>)
        requires
            old(self).wf(),
        ensures
            final(self).wf(),
            final(self).pos == old(self).pos,
            pos + 2 <= BUF_SIZE ==> r is Ok
                && final(self).buf@ =~= splice(old(self).buf@, pos as int, be16(val)),
            pos + 2 > BUF_SIZE ==> r == Err::<(), DnsError>(DnsError::EndOfBuffer)
                && *final(self) == *old(self),
    {
        if pos > BUF_SIZE - 2 {
            return Err(DnsError::EndOfBuffer);
        }
        proof {
            assert(val / 256 < 256) by (nonlinear_arith);
        }
        self.buf.set(pos, (val / 256) as u8);
        self.buf.set(pos + 1, (val % 256) as u8);
        Ok(())
    }
}

} // verus!
