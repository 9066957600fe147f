//! A forward-only cursor over an immutable byte buffer.

use crate::common::bits::be16_value;
use crate::common::ParseError;
use vstd::prelude::*;

verus! {

/// A cursor over a borrowed buffer. Several cursors may stand at different
/// places of one buffer; none of them owns it.
#[derive(Debug)]
pub struct DnsReader<'a> {
    pub buf: &'a [u8],
    pub cur_pos: usize,
}

/// Whether `n` bytes can be read at `pos` of a buffer of `len` bytes.
pub open spec fn in_bounds(len: nat, pos: int, n: nat) -> bool {
    pos + n <= len
}

/// The error of a read of `n` bytes at `pos` that does not fit.
pub open spec fn overflow_at(len: nat, pos: int, n: nat) -> ParseError {
    ParseError::BufOverflow { cur_pos: pos as usize, n: n as usize, buf_length: len as usize }
}

/// What reading one big-endian two-byte number at `pos` of `buf` gives.
pub open spec fn number_at(buf: Seq<u8>, pos: int) -> Result<u16, ParseError> {
    if in_bounds(buf.len(), pos, 2) {
        Ok(be16_value(buf[pos], buf[pos + 1]))
    } else {
        Err(overflow_at(buf.len(), pos, 2))
    }
}

/// Where the cursor stands after reading a two-byte number at `pos`: behind
/// it, or still at `pos` when the two bytes do not fit.
pub open spec fn after_number(buf: Seq<u8>, pos: int) -> int {
    if in_bounds(buf.len(), pos, 2) {
        pos + 2
    } else {
        pos
    }
}

impl<'a> DnsReader<'a> {
    /// A cursor at the start of `buf`.
    pub fn new(buf: &'a [u8]) -> (reader: Self)
        ensures
            reader.buf@ == buf@,
            reader.cur_pos == 0,
    {
        Self { buf, cur_pos: 0 }
    }

    /// Fills `target_buf` with the bytes at the cursor and moves the cursor
    /// past them. When they do not fit, nothing changes.
    pub fn read_exact(&mut self, target_buf: &mut [u8]) -> (r: Result<(), ParseError>)
        ensures
            final(self).buf@ == old(self).buf@,
            final(target_buf)@.len() == old(target_buf)@.len(),
            in_bounds(old(self).buf@.len(), old(self).cur_pos as int, old(target_buf)@.len()) ==> {
                &&& r is Ok
                &&& final(self).cur_pos == old(self).cur_pos + old(target_buf)@.len()
                &&& final(target_buf)@ == old(self).buf@.subrange(
                    old(self).cur_pos as int,
                    old(self).cur_pos + old(target_buf)@.len(),
                )
            },
            !in_bounds(old(self).buf@.len(), old(self).cur_pos as int, old(target_buf)@.len()) ==> {
                &&& r == Err::<(), ParseError>(
                    overflow_at(
                        old(self).buf@.len(),
                        old(self).cur_pos as int,
                        old(target_buf)@.len(),
                    ),
                )
                &&& final(self).cur_pos == old(self).cur_pos
                &&& final(target_buf)@ == old(target_buf)@
            },
    {
        let buf_len = self.buf.len();
        match self.peek_exact(target_buf) {
            Ok(()) => {
                assert(self.cur_pos + target_buf@.len() <= buf_len);
                self.cur_pos += target_buf.len();
                Ok(())
            },
            Err(e) => Err(e),
        }
    }

    /// Fills `target_buf` with the bytes at the cursor and leaves the cursor
    /// where it is. When they do not fit, nothing changes.
    pub fn peek_exact(&mut self, target_buf: &mut [u8]) -> (r: Result<(), ParseError>)
        ensures
            final(self).buf@ == old(self).buf@,
            final(self).cur_pos == old(self).cur_pos,
            final(target_buf)@.len() == old(target_buf)@.len(),
            in_bounds(old(self).buf@.len(), old(self).cur_pos as int, old(target_buf)@.len()) ==> {
                &&& r is Ok
                &&& final(target_buf)@ == old(self).buf@.subrange(
                    old(self).cur_pos as int,
                    old(self).cur_pos + old(target_buf)@.len(),
                )
            },
            !in_bounds(old(self).buf@.len(), old(self).cur_pos as int, old(target_buf)@.len()) ==> {
                &&& r == Err::<(), ParseError>(
                    overflow_at(
                        old(self).buf@.len(),
                        old(self).cur_pos as int,
                        old(target_buf)@.len(),
                    ),
                )
                &&& final(target_buf)@ == old(target_buf)@
            },
    {
        let len = target_buf.len();
        let buf_len = self.buf.len();
        if len > buf_len || self.cur_pos > buf_len - len {
            return Err(ParseError::BufOverflow { buf_length: buf_len, cur_pos: self.cur_pos, n: len });
        }
        let start = self.cur_pos;
        let mut i: usize = 0;
        while i < len
            invariant
                i <= len,
                len == target_buf@.len(),
                start + len <= buf_len,
                buf_len == self.buf@.len(),
                forall|j: int| 0 <= j < i ==> target_buf@[j] == self.buf@[start + j],
            decreases len - i,
        {
            target_buf[i] = self.buf[start + i];
            i += 1;
        }
        assert(target_buf@ =~= self.buf@.subrange(start as int, start + len));
        Ok(())
    }
}

} // verus!
