//! Bounds-checked random-access reads over a byte source.
//!
//! Every read is checked against the source length before any allocation.
//! `slice` performs a scoped read that leaves the ambient position alone,
//! which the chunk decoder needs because the metadata, constant-pool and
//! event sections are visited out of their byte order.

use vstd::prelude::*;

use crate::error::JfrError;
use crate::varint;
use crate::varint::decode_failed_at;
use crate::varint::decoded_at;
use crate::varint::u64_bound;
use crate::varint::vint_dec;
use crate::varint::zigzag_dec;

verus! {

/// A byte source together with an explicit position.
pub struct Cursor<'a> {
    /// The underlying bytes.
    pub data: &'a Vec<u8>,
    /// The next byte to read; never past the end of the source.
    pub pos: usize,
}

impl<'a> Cursor<'a> {
    /// The bytes the cursor ranges over.
    pub open spec fn bytes(self) -> Seq<u8> {
        self.data@
    }

    /// The current position, as a mathematical integer.
    pub open spec fn position(self) -> int {
        self.pos as int
    }

    /// The position stays inside the source.
    pub open spec fn inv(self) -> bool {
        self.pos <= self.data.len()
    }

    /// A cursor at the start of `data`.
    pub fn new(data: &'a Vec<u8>) -> (c: Cursor<'a>)
        ensures
            c.bytes() == data@,
            c.position() == 0,
            c.inv(),
    {
        Cursor { data, pos: 0 }
    }

    /// Length of the source.
    pub fn len(&self) -> (r: usize)
        ensures
            r == self.bytes().len(),
    {
        self.data.len()
    }

    /// The current position.
    pub fn tell(&self) -> (r: usize)
        ensures
            r as int == self.position(),
    {
        self.pos
    }

    /// Bytes left between the position and the end of the source.
    pub fn remaining(&self) -> (r: usize)
        requires
            self.inv(),
        ensures
            r == self.bytes().len() - self.position(),
    {
        self.data.len() - self.pos
    }

    /// Moves the position to the absolute offset `off`. Returns `false`, and
    /// leaves the cursor alone, when `off` lies past the end of the source.
    pub fn seek(&mut self, off: usize) -> (r: bool)
        ensures
            r <==> off <= old(self).bytes().len(),
            final(self).bytes() == old(self).bytes(),
            r ==> final(self).position() == off as int && final(self).inv(),
            !r ==> *final(self) == *old(self),
    {
        if off <= self.data.len() {
            self.pos = off;
            true
        } else {
            false
        }
    }

    /// Reads `n` bytes at the position into an owned buffer and advances,
    /// failing with `Truncated` when fewer than `n` bytes remain.
    pub fn read_exact(&mut self, n: usize) -> (r: Result<Vec<u8>, JfrError>)
        requires
            old(self).inv(),
        ensures
            final(self).bytes() == old(self).bytes(),
            match r {
                Ok(v) => {
                    &&& old(self).position() + n <= old(self).bytes().len()
                    &&& v@ == old(self).bytes().subrange(
                        old(self).position(),
                        old(self).position() + n,
                    )
                    &&& final(self).position() == old(self).position() + n
                    &&& final(self).inv()
                },
                Err(e) => {
                    &&& e == JfrError::Truncated
                    &&& old(self).position() + n > old(self).bytes().len()
                    &&& *final(self) == *old(self)
                },
            },
    {
        if n > self.data.len() - self.pos {
            return Err(JfrError::Truncated);
        }
        let v = copy_range(self.data, self.pos, n);
        self.pos = self.pos + n;
        Ok(v)
    }

    /// Reads `n` bytes at the absolute offset `off` without touching the
    /// position, failing with `Truncated` when the range leaves the source.
    pub fn slice(&self, off: usize, n: usize) -> (r: Result<Vec<u8>, JfrError>)
        ensures
            match r {
                Ok(v) => off + n <= self.bytes().len() && v@ == self.bytes().subrange(
                    off as int,
                    off + n,
                ),
                Err(e) => e == JfrError::Truncated && off + n > self.bytes().len(),
            },
    {
        if off > self.data.len() || n > self.data.len() - off {
            return Err(JfrError::Truncated);
        }
        Ok(copy_range(self.data, off, n))
    }

    /// Decodes one unsigned varint at the position and advances past it. On
    /// an error the cursor is left where it was.
    pub fn read_varint(&mut self) -> (r: Result<u64, JfrError>)
        requires
            old(self).inv(),
        ensures
            final(self).bytes() == old(self).bytes(),
            final(self).inv(),
            match r {
                Ok(v) => decoded_at(
                    old(self).bytes(),
                    old(self).position(),
                    v,
                    final(self).position(),
                ),
                Err(e) => decode_failed_at(old(self).bytes(), old(self).position(), e)
                    && *final(self) == *old(self),
            },
    {
        match varint::decode_at(self.data, self.pos) {
            Ok((v, end)) => {
                self.pos = end;
                Ok(v)
            },
            Err(e) => Err(e),
        }
    }

    /// Decodes one signed (zigzag) varint at the position and advances past
    /// it. On an error the cursor is left where it was.
    pub fn read_varint_signed(&mut self) -> (r: Result<i64, JfrError>)
        requires
            old(self).inv(),
        ensures
            final(self).bytes() == old(self).bytes(),
            final(self).inv(),
            match r {
                Ok(v) => vint_dec(old(self).bytes().skip(old(self).position())) matches Some(
                    w,
                ) && w.0 < u64_bound() && w.1 <= 10 && v as int == zigzag_dec(w.0)
                    && final(self).position() == old(self).position() + w.1,
                Err(e) => decode_failed_at(old(self).bytes(), old(self).position(), e)
                    && *final(self) == *old(self),
            },
    {
        match varint::decode_signed_at(self.data, self.pos) {
            Ok((v, end)) => {
                self.pos = end;
                Ok(v)
            },
            Err(e) => Err(e),
        }
    }
}

/// Copies `data[start .. start + n]` into an owned buffer.
pub fn copy_range(data: &Vec<u8>, start: usize, n: usize) -> (v: Vec<u8>)
    requires
        start + n <= data.len(),
    ensures
        v@ == data@.subrange(start as int, start + n),
{
    let mut v: Vec<u8> = Vec::new();
    let mut j: usize = 0;
    while j < n
        invariant
            start + n <= data.len(),
            0 <= j <= n,
            v@ == data@.subrange(start as int, start + j),
        decreases n - j,
    {
        v.push(data[start + j]);
        proof {
            assert(v@ =~= data@.subrange(start as int, start + j + 1));
        }
        j = j + 1;
    }
    v
}

} // verus!
