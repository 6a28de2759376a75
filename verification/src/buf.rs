//! A fixed-capacity byte buffer with a write cursor and a read cursor.
//!
//! Multi-byte integers are stored little-endian; the byte order itself comes
//! from the `byteorder` crate.

use byteorder::{ByteOrder, LittleEndian};
use vstd::prelude::*;
use vstd::slice::{slice_subrange, slice_to_vec};

verus! {

/// Why a buffer operation was refused.
#[derive(Clone, Copy, Debug, PartialEq, Eq, Structural)]
pub enum BufferResult {
    /// Fewer unread bytes remain than the read asked for.
    ReadOverflow,
    /// Less room remains behind the write cursor than the write needs.
    WriteOverflow,
}

/// The two bytes of `v`, least significant first.
pub open spec fn le_u16(v: u16) -> Seq<u8> {
    seq![(v % 256) as u8, (v / 256) as u8]
}

/// The four bytes of `v`, least significant first.
pub open spec fn le_u32(v: u32) -> Seq<u8> {
    seq![
        (v % 256) as u8,
        (v / 256 % 256) as u8,
        (v / 65536 % 256) as u8,
        (v / 16777216) as u8,
    ]
}

/// The number whose little-endian bytes are the first two of `b`.
pub open spec fn from_le_u16(b: Seq<u8>) -> u16 {
    (b[0] as int + 256 * b[1] as int) as u16
}

/// The number whose little-endian bytes are the first four of `b`.
pub open spec fn from_le_u32(b: Seq<u8>) -> u32 {
    (b[0] as int + 256 * b[1] as int + 65536 * b[2] as int + 16777216 * b[3] as int) as u32
}

/// Reading what was written gives the number back.
pub proof fn lemma_le_u16_round_trip(v: u16)
    ensures
        le_u16(v).len() == 2,
        from_le_u16(le_u16(v)) == v,
{
}

/// Reading what was written gives the number back.
pub proof fn lemma_le_u32_round_trip(v: u32)
    ensures
        le_u32(v).len() == 4,
        from_le_u32(le_u32(v)) == v,
{
}

/// `byteorder::LittleEndian::write_u16` on a two-byte array: the contract
/// claims that the array then holds the low byte of `val` followed by its
/// high byte.
#[verifier::external_body]
fn le_bytes_u16(val: u16) -> (bytes: [u8; 2])
    ensures
        bytes@ == le_u16(val),
{
    let mut bytes = [0u8; 2];
    LittleEndian::write_u16(&mut bytes, val);
    bytes
}

/// `byteorder::LittleEndian::write_u32` on a four-byte array: the contract
/// claims that the array then holds the four bytes of `val`, least
/// significant first.
#[verifier::external_body]
fn le_bytes_u32(val: u32) -> (bytes: [u8; 4])
    ensures
        bytes@ == le_u32(val),
{
    let mut bytes = [0u8; 4];
    LittleEndian::write_u32(&mut bytes, val);
    bytes
}

/// `byteorder::LittleEndian::read_u16`: the contract claims that the result
/// is the first byte plus 256 times the second. The outside function panics on
/// fewer than two bytes, which `requires` leaves out.
#[verifier::external_body]
fn le_value_u16(bytes: &[u8]) -> (val: u16)
    requires
        bytes@.len() >= 2,
    ensures
        val == from_le_u16(bytes@),
{
    LittleEndian::read_u16(bytes)
}

/// `byteorder::LittleEndian::read_u32`: the contract claims that the result
/// is the sum of the first four bytes, each weighted by the power of 256 of
/// its position. The outside function panics on fewer than four bytes, which
/// `requires` leaves out.
#[verifier::external_body]
fn le_value_u32(bytes: &[u8]) -> (val: u32)
    requires
        bytes@.len() >= 4,
    ensures
        val == from_le_u32(bytes@),
{
    LittleEndian::read_u32(bytes)
}

/// What a [`ByteBuffer`] holds: its bytes and its two cursors.
pub ghost struct ByteBufferView {
    /// Every byte of the buffer, written or not.
    pub data: Seq<u8>,
    /// Where the next write goes.
    pub wpos: int,
    /// Where the next read starts.
    pub rpos: int,
}

impl ByteBufferView {
    /// Both cursors lie within the buffer.
    pub open spec fn wf(self) -> bool {
        &&& 0 <= self.wpos <= self.data.len()
        &&& 0 <= self.rpos <= self.data.len()
    }

    /// The bytes in front of the write cursor.
    pub open spec fn written(self) -> Seq<u8> {
        self.data.subrange(0, self.wpos)
    }

    /// The bytes from the read cursor to the end of the buffer.
    pub open spec fn unread(self) -> Seq<u8> {
        self.data.subrange(self.rpos, self.data.len() as int)
    }

    /// The room behind the write cursor.
    pub open spec fn room(self) -> int {
        self.data.len() - self.wpos
    }

    /// The buffer after `bytes` were written at the write cursor.
    pub open spec fn write(self, bytes: Seq<u8>) -> ByteBufferView {
        ByteBufferView {
            data: self.data.subrange(0, self.wpos) + bytes + self.data.subrange(
                self.wpos + bytes.len(),
                self.data.len() as int,
            ),
            wpos: self.wpos + bytes.len(),
            rpos: self.rpos,
        }
    }

    /// The buffer after `n` bytes were read.
    pub open spec fn skip(self, n: int) -> ByteBufferView {
        ByteBufferView { rpos: self.rpos + n, ..self }
    }

    /// The next `n` unread bytes.
    pub open spec fn peek(self, n: int) -> Seq<u8> {
        self.data.subrange(self.rpos, self.rpos + n)
    }
}

/// Two writes in a row are one write of the two byte strings joined.
pub proof fn lemma_write_twice(v: ByteBufferView, a: Seq<u8>, b: Seq<u8>)
    requires
        v.wf(),
        a.len() + b.len() <= v.room(),
    ensures
        v.write(a).wf(),
        v.write(a).room() == v.room() - a.len(),
        v.write(a).write(b) == v.write(a + b),
{
    assert(v.write(a).write(b).data =~= v.write(a + b).data);
}

/// A write changes nothing in front of the write cursor and leaves the
/// written bytes right behind it.
pub proof fn lemma_written_after_write(v: ByteBufferView, a: Seq<u8>)
    requires
        v.wf(),
        a.len() <= v.room(),
    ensures
        v.write(a).wf(),
        v.write(a).data.len() == v.data.len(),
        v.write(a).written() == v.written() + a,
{
    assert(v.write(a).written() =~= v.written() + a);
}

/// A fixed-capacity byte buffer with a write cursor and a read cursor.
pub struct ByteBuffer {
    data: Vec<u8>,
    wpos: usize,
    rpos: usize,
}

impl View for ByteBuffer {
    type V = ByteBufferView;

    closed spec fn view(&self) -> ByteBufferView {
        ByteBufferView { data: self.data@, wpos: self.wpos as int, rpos: self.rpos as int }
    }
}

impl Default for ByteBuffer {
    /// A buffer without capacity.
    fn default() -> (buf: Self)
        ensures
            buf.wf(),
            buf@.data.len() == 0,
            buf@.wpos == 0,
            buf@.rpos == 0,
    {
        ByteBuffer { data: Vec::new(), wpos: 0, rpos: 0 }
    }
}

impl ByteBuffer {
    /// Both cursors lie within the buffer. Every constructor establishes
    /// this and every method preserves it.
    pub open spec fn wf(&self) -> bool {
        self@.wf()
    }

    /// A buffer of `cap` zero bytes with both cursors at the start.
    pub fn with_capacity(cap: usize) -> (buf: Self)
        ensures
            buf.wf(),
            buf@.data == Seq::new(cap as nat, |i: int| 0u8),
            buf@.wpos == 0,
            buf@.rpos == 0,
    {
        let data: Vec<u8> = vec![0u8; cap];
        assert(data@ =~= Seq::new(cap as nat, |i: int| 0u8));
        ByteBuffer { data, wpos: 0, rpos: 0 }
    }

    /// The capacity of the buffer.
    pub fn len(&self) -> (n: usize)
        ensures
            n == self@.data.len(),
    {
        self.data.len()
    }

    /// The number of bytes from the read cursor to the end of the buffer.
    pub fn read_remain(&self) -> (n: usize)
        requires
            self.wf(),
        ensures
            n == self@.data.len() - self@.rpos,
            n == self@.unread().len(),
    {
        self.data.len() - self.rpos
    }

    /// Writes `bytes` at the write cursor and moves the cursor behind them,
    /// or refuses and changes nothing when they do not fit.
    pub fn write_bytes(&mut self, bytes: &[u8]) -> (res: Result<(), BufferResult>)
        requires
            old(self).wf(),
        ensures
            final(self).wf(),
            bytes@.len() <= old(self)@.room() ==> res == Ok::<(), BufferResult>(())
                && final(self)@ == old(self)@.write(bytes@),
            bytes@.len() > old(self)@.room() ==> res == Err::<(), BufferResult>(
                BufferResult::WriteOverflow,
            ) && final(self)@ == old(self)@,
    {
        let n: usize = bytes.len();
        if n > self.data.len() - self.wpos {
            return Err(BufferResult::WriteOverflow);
        }
        let start: usize = self.wpos;
        let mut i: usize = 0;
        while i < n
            invariant
                0 <= i <= n,
                n == bytes@.len(),
                start + n <= self.data@.len(),
                self.wpos == start + i,
                self.rpos == old(self).rpos,
                self.data@.len() == old(self).data@.len(),
                forall|j: int| 0 <= j < start ==> self.data@[j] == old(self).data@[j],
                forall|j: int| start <= j < start + i ==> self.data@[j] == bytes@[j - start],
                forall|j: int|
                    start + i <= j < self.data@.len() ==> self.data@[j] == old(self).data@[j],
            decreases n - i,
        {
            self.data[self.wpos] = bytes[i];
            assert(self.wpos < self.data.len());
            self.wpos = self.wpos + 1;
            i = i + 1;
        }
        assert(self@.data =~= old(self)@.write(bytes@).data);
        Ok(())
    }

    /// Moves both cursors back to the start. The bytes stay.
    pub fn clear(&mut self)
        ensures
            final(self).wf(),
            final(self)@ == (ByteBufferView { wpos: 0, rpos: 0, ..old(self)@ }),
    {
        self.wpos = 0;
        self.rpos = 0;
    }

    /// Writes one byte.
    pub fn write_u8(&mut self, val: u8) -> (res: Result<(), BufferResult>)
        requires
            old(self).wf(),
        ensures
            final(self).wf(),
            1 <= old(self)@.room() ==> res == Ok::<(), BufferResult>(()) && final(self)@ == old(
                self,
            )@.write(seq![val]),
            1 > old(self)@.room() ==> res == Err::<(), BufferResult>(BufferResult::WriteOverflow)
                && final(self)@ == old(self)@,
    {
        let bytes: [u8; 1] = [val];
        assert(bytes@ =~= seq![val]);
        self.write_bytes(bytes.as_slice())
    }

    /// Writes a 16-bit number, low byte first.
    pub fn write_u16(&mut self, val: u16) -> (res: Result<(), BufferResult>)
        requires
            old(self).wf(),
        ensures
            final(self).wf(),
            2 <= old(self)@.room() ==> res == Ok::<(), BufferResult>(()) && final(self)@ == old(
                self,
            )@.write(le_u16(val)),
            2 > old(self)@.room() ==> res == Err::<(), BufferResult>(BufferResult::WriteOverflow)
                && final(self)@ == old(self)@,
    {
        let bytes: [u8; 2] = le_bytes_u16(val);
        self.write_bytes(bytes.as_slice())
    }

    /// Writes a 32-bit number, low byte first.
    pub fn write_u32(&mut self, val: u32) -> (res: Result<(), BufferResult>)
        requires
            old(self).wf(),
        ensures
            final(self).wf(),
            4 <= old(self)@.room() ==> res == Ok::<(), BufferResult>(()) && final(self)@ == old(
                self,
            )@.write(le_u32(val)),
            4 > old(self)@.room() ==> res == Err::<(), BufferResult>(BufferResult::WriteOverflow)
                && final(self)@ == old(self)@,
    {
        let bytes: [u8; 4] = le_bytes_u32(val);
        self.write_bytes(bytes.as_slice())
    }

    /// Reads the next `size` bytes, or refuses and changes nothing when fewer
    /// remain.
    pub fn read_bytes(&mut self, size: usize) -> (res: Result<Vec<u8>, BufferResult>)
        requires
            old(self).wf(),
        ensures
            final(self).wf(),
            match res {
                Ok(bytes) => size <= old(self)@.unread().len() && bytes@ == old(self)@.peek(
                    size as int,
                ) && final(self)@ == old(self)@.skip(size as int),
                Err(e) => size > old(self)@.unread().len() && e == BufferResult::ReadOverflow
                    && final(self)@ == old(self)@,
            },
    {
        if size > self.data.len() - self.rpos {
            return Err(BufferResult::ReadOverflow);
        }
        let end: usize = self.rpos + size;
        let res: Vec<u8> = slice_to_vec(slice_subrange(self.data.as_slice(), self.rpos, end));
        self.rpos = end;
        Ok(res)
    }

    /// Reads one byte and widens it.
    pub fn read_u8_as_u32(&mut self) -> (res: Result<u32, BufferResult>)
        requires
            old(self).wf(),
        ensures
            final(self).wf(),
            match res {
                Ok(val) => 1 <= old(self)@.unread().len() && val == old(self)@.data[old(
                    self,
                )@.rpos] && final(self)@ == old(self)@.skip(1),
                Err(e) => 1 > old(self)@.unread().len() && e == BufferResult::ReadOverflow
                    && final(self)@ == old(self)@,
            },
    {
        if self.rpos >= self.data.len() {
            return Err(BufferResult::ReadOverflow);
        }
        let pos: usize = self.rpos;
        self.rpos = self.rpos + 1;
        Ok(self.data[pos] as u32)
    }

    /// Reads a little-endian 16-bit number and widens it.
    pub fn read_u16_as_u32(&mut self) -> (res: Result<u32, BufferResult>)
        requires
            old(self).wf(),
        ensures
            final(self).wf(),
            match res {
                Ok(val) => 2 <= old(self)@.unread().len() && val == from_le_u16(
                    old(self)@.peek(2),
                ) && final(self)@ == old(self)@.skip(2),
                Err(e) => 2 > old(self)@.unread().len() && e == BufferResult::ReadOverflow
                    && final(self)@ == old(self)@,
            },
    {
        if 2 > self.data.len() - self.rpos {
            return Err(BufferResult::ReadOverflow);
        }
        let end: usize = self.rpos + 2;
        let val: u16 = le_value_u16(slice_subrange(self.data.as_slice(), self.rpos, end));
        self.rpos = end;
        Ok(val as u32)
    }

    /// Reads a little-endian 32-bit number.
    pub fn read_u32(&mut self) -> (res: Result<u32, BufferResult>)
        requires
            old(self).wf(),
        ensures
            final(self).wf(),
            match res {
                Ok(val) => 4 <= old(self)@.unread().len() && val == from_le_u32(
                    old(self)@.peek(4),
                ) && final(self)@ == old(self)@.skip(4),
                Err(e) => 4 > old(self)@.unread().len() && e == BufferResult::ReadOverflow
                    && final(self)@ == old(self)@,
            },
    {
        if 4 > self.data.len() - self.rpos {
            return Err(BufferResult::ReadOverflow);
        }
        let end: usize = self.rpos + 4;
        let val: u32 = le_value_u32(slice_subrange(self.data.as_slice(), self.rpos, end));
        self.rpos = end;
        Ok(val)
    }

    /// Moves the read cursor back to an earlier position.
    pub(crate) fn rewind(&mut self, pos: usize)
        requires
            old(self).wf(),
            pos <= old(self)@.rpos,
        ensures
            final(self).wf(),
            final(self)@ == (ByteBufferView { rpos: pos as int, ..old(self)@ }),
    {
        self.rpos = pos;
    }

    /// The position of the read cursor.
    pub fn get_rpos(&self) -> (pos: usize)
        ensures
            pos == self@.rpos,
    {
        self.rpos
    }

    /// The position of the write cursor.
    pub fn get_wpos(&self) -> (pos: usize)
        ensures
            pos == self@.wpos,
    {
        self.wpos
    }

    /// A copy of every byte of the buffer, written or not.
    pub fn to_bytes(&self) -> (bytes: Vec<u8>)
        ensures
            bytes@ == self@.data,
    {
        slice_to_vec(self.data.as_slice())
    }
}

} // verus!
