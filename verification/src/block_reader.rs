//! The block reader: loads one block of a framed stream at a time and keeps a
//! cursor into it.

use vstd::prelude::*;
use vstd::slice::slice_subrange;
use std::ops::Range;
use crate::frame::{le_u32, next_frame, read_u32, read_up_to, BlockError, NextFrame};
use crate::source::ByteSource;
use crate::vint::{decoded_len, decoded_value, deserialize_read};

verus! {

/// Reads a stream block by block and consumes the loaded block from front to
/// back.
pub struct BlockReader<S: ByteSource> {
    buffer: Vec<u8>,
    reader: S,
    offset: usize,
}

/// What a block reader stands for.
pub struct BlockReaderView {
    /// Payload of the block that is loaded.
    pub block: Seq<u8>,
    /// How many bytes of it were consumed.
    pub offset: nat,
    /// What the source has yet to deliver.
    pub pending: Seq<u8>,
    /// Whether the source delivers exactly `pending` and never fails.
    pub faithful: bool,
}

/// What `read_exact` reports when the loaded block holds fewer unconsumed
/// bytes than were asked for.
#[derive(Debug, PartialEq, Eq)]
pub struct EndOfBlock {}

impl<S: ByteSource> View for BlockReader<S> {
    type V = BlockReaderView;

    closed spec fn view(&self) -> BlockReaderView {
        BlockReaderView {
            block: self.buffer@,
            offset: self.offset as nat,
            pending: self.reader.pending(),
            faithful: self.reader.faithful(),
        }
    }
}

impl<S: ByteSource> BlockReader<S> {
    /// The cursor lies within the loaded block.
    pub open spec fn wf(&self) -> bool {
        self@.offset <= self@.block.len()
    }

    /// The part of the loaded block that was not consumed yet.
    pub open spec fn remaining(&self) -> Seq<u8> {
        self@.block.skip(self@.offset as int)
    }

    /// A reader over `reader`, with no block loaded.
    pub fn new(reader: S) -> (r: BlockReader<S>)
        ensures
            r.wf(),
            r@.block == Seq::<u8>::empty(),
            r@.offset == 0,
            r@.pending == reader.pending(),
            r@.faithful == reader.faithful(),
    {
        BlockReader { buffer: Vec::new(), reader, offset: 0 }
    }

    /// Decodes one variable-length integer at the cursor and moves the cursor
    /// past it.
    pub fn deserialize_u64(&mut self) -> (val: u64)
        requires
            old(self).wf(),
        ensures
            val == decoded_value(old(self).remaining()),
            final(self)@ == (BlockReaderView {
                offset: old(self)@.offset + decoded_len(old(self).remaining()),
                ..old(self)@
            }),
            final(self).wf(),
    {
        let (num_bytes, val) = deserialize_read(self.buffer());
        self.advance(num_bytes);
        val
    }

    /// The bytes of the loaded block from `range.start` up to `range.end`,
    /// wherever the cursor stands.
    pub fn buffer_from_to(&self, range: Range<usize>) -> (s: &[u8])
        requires
            range.start <= range.end <= self@.block.len(),
        ensures
            s@ == self@.block.subrange(range.start as int, range.end as int),
    {
        slice_subrange(self.buffer.as_slice(), range.start, range.end)
    }

    /// Loads the next block. `Ok(true)`: the block is loaded and the cursor is
    /// at its start. `Ok(false)`: the stream ended, either because nothing
    /// was left or because a length of zero stood there. A stream that stops
    /// within a frame is an error, and so is a failure of the source.
    ///
    /// Of a faithful source the outcome is the one that the front of its
    /// pending bytes calls for. A block that was loaded before stays loaded
    /// when the stream ends without a terminator or stops within the length
    /// field; in every other case it is replaced or dropped.
    pub fn read_block(&mut self) -> (r: Result<bool, BlockError<S::Failure>>)
        ensures
            final(self).wf(),
            final(self)@.offset == 0,
            r matches Ok(true) ==> final(self)@.block.len() > 0,
            !(r matches Ok(true)) ==> final(self)@.block == old(self)@.block || final(self)@.block
                == Seq::<u8>::empty(),
            old(self)@.faithful ==> final(self)@.faithful,
            old(self)@.faithful ==> match next_frame(old(self)@.pending) {
                NextFrame::Block(payload) => {
                    &&& r matches Ok(true)
                    &&& final(self)@.block == payload
                    &&& final(self)@.pending == old(self)@.pending.skip(4 + payload.len() as int)
                    &&& final(self).remaining().len() == le_u32(old(self)@.pending)
                },
                NextFrame::End => {
                    &&& r matches Ok(false)
                    &&& final(self)@.block == old(self)@.block
                    &&& final(self)@.pending == old(self)@.pending
                },
                NextFrame::Terminator => {
                    &&& r matches Ok(false)
                    &&& final(self)@.block == Seq::<u8>::empty()
                    &&& final(self)@.pending == old(self)@.pending.skip(4)
                },
                NextFrame::Truncated => {
                    &&& r matches Err(BlockError::Truncated)
                    &&& final(self)@.pending.len() == 0
                    &&& final(self)@.block == if old(self)@.pending.len() < 4 {
                        old(self)@.block
                    } else {
                        Seq::<u8>::empty()
                    }
                },
            },
    {
        self.offset = 0;
        match read_u32(&mut self.reader) {
            Err(e) => Err(e),
            Ok(None) => Ok(false),
            Ok(Some(block_len)) => {
                self.buffer.clear();
                if block_len == 0 {
                    return Ok(false);
                }
                let want: usize = block_len as usize;
                let ghost after_field = self.reader.pending();
                match read_up_to(&mut self.reader, &mut self.buffer, want) {
                    Err(e) => {
                        self.buffer.clear();
                        Err(BlockError::Source(e))
                    },
                    Ok(n) => {
                        if n < want {
                            self.buffer.clear();
                            Err(BlockError::Truncated)
                        } else {
                            proof {
                                assert(self.buffer@.skip(0) =~= self.buffer@);
                                if old(self)@.faithful {
                                    let p = old(self)@.pending;
                                    assert(self.buffer@ =~= after_field.take(n as int));
                                    assert(after_field.take(n as int) =~= p.subrange(4, 4 + n));
                                    assert(after_field.skip(n as int) =~= p.skip(4 + n));
                                }
                            }
                            Ok(true)
                        }
                    },
                }
            },
        }
    }

    /// How many bytes of the loaded block were consumed.
    pub fn offset(&self) -> (n: usize)
        ensures
            n == self@.offset,
    {
        self.offset
    }

    /// Moves the cursor forward by `num_bytes`, which must not take it past
    /// the end of the loaded block.
    pub fn advance(&mut self, num_bytes: usize)
        requires
            old(self).wf(),
            old(self)@.offset + num_bytes <= old(self)@.block.len(),
        ensures
            final(self).wf(),
            final(self)@ == (BlockReaderView {
                offset: old(self)@.offset + num_bytes as nat,
                ..old(self)@
            }),
            final(self).remaining() == old(self).remaining().skip(num_bytes as int),
            final(self).remaining().len() == old(self).remaining().len() - num_bytes,
    {
        proof {
            assert(self.buffer@.len() == self.buffer.len());
        }
        self.offset = self.offset + num_bytes;
        proof {
            assert(self.remaining() =~= old(self).remaining().skip(num_bytes as int));
        }
    }

    /// The part of the loaded block from the cursor to its end.
    pub fn buffer(&self) -> (s: &[u8])
        requires
            self.wf(),
        ensures
            s@ == self.remaining(),
    {
        slice_subrange(self.buffer.as_slice(), self.offset, self.buffer.len())
    }
}

/// Sequential reading over the unconsumed part of the loaded block. None of
/// these ever loads another block.
impl<S: ByteSource> BlockReader<S> {
    /// Copies the next `count` unconsumed bytes over the first `count` bytes
    /// of `buf` and moves the cursor past them.
    fn copy_out(&mut self, buf: &mut [u8], count: usize)
        requires
            old(self).wf(),
            count <= old(buf)@.len(),
            count <= old(self).remaining().len(),
        ensures
            final(self).wf(),
            final(self)@ == (BlockReaderView {
                offset: old(self)@.offset + count as nat,
                ..old(self)@
            }),
            final(buf)@ == old(self).remaining().take(count as int) + old(buf)@.skip(count as int),
    {
        let start: usize = self.offset;
        let mut i: usize = 0;
        proof {
            assert(buf@ =~= old(self).remaining().take(0) + old(buf)@.skip(0));
        }
        while i < count
            invariant
                i <= count,
                *self == *old(self),
                start == self.offset,
                start + count <= self.buffer.len(),
                self.wf(),
                count <= old(buf)@.len(),
                count <= self.remaining().len(),
                buf@ == self.remaining().take(i as int) + old(buf)@.skip(i as int),
            decreases count - i,
        {
            let b: u8 = self.buffer[start + i];
            let ghost before = buf@;
            buf[i] = b;
            proof {
                assert(buf@ == before.update(i as int, b));
                assert(buf@ =~= self.remaining().take(i + 1) + old(buf)@.skip(i + 1));
            }
            i = i + 1;
        }
        self.advance(count);
    }

    /// Fills the front of `buf` with unconsumed bytes of the loaded block, as
    /// many as fit or as are left, and moves the cursor past them. Returns
    /// how many; zero once the block is used up.
    pub fn read(&mut self, buf: &mut [u8]) -> (n: usize)
        requires
            old(self).wf(),
        ensures
            final(self).wf(),
            n == vstd::math::min(old(buf)@.len() as int, old(self).remaining().len() as int),
            final(self)@ == (BlockReaderView {
                offset: old(self)@.offset + n as nat,
                ..old(self)@
            }),
            final(buf)@ == old(self).remaining().take(n as int) + old(buf)@.skip(n as int),
    {
        let left: usize = self.buffer.len() - self.offset;
        let count: usize = if buf.len() <= left { buf.len() } else { left };
        self.copy_out(buf, count);
        count
    }

    /// Appends every unconsumed byte of the loaded block to `buf` and moves
    /// the cursor to the end of the block. Returns how many were appended.
    pub fn read_to_end(&mut self, buf: &mut Vec<u8>) -> (n: usize)
        requires
            old(self).wf(),
        ensures
            final(self).wf(),
            n == old(self).remaining().len(),
            final(self)@ == (BlockReaderView { offset: old(self)@.block.len(), ..old(self)@ }),
            final(self).remaining().len() == 0,
            final(buf)@ == old(buf)@ + old(self).remaining(),
    {
        let len: usize = self.buffer.len() - self.offset;
        buf.extend_from_slice(self.buffer());
        proof {
            assert(buf@ =~= old(buf)@ + old(self).remaining());
        }
        self.advance(len);
        len
    }

    /// Fills all of `buf` from the unconsumed bytes of the loaded block and
    /// moves the cursor past them. When fewer are left than `buf` holds, it
    /// reports the end of the block and changes neither `buf` nor the
    /// cursor.
    pub fn read_exact(&mut self, buf: &mut [u8]) -> (r: Result<(), EndOfBlock>)
        requires
            old(self).wf(),
        ensures
            final(self).wf(),
            r is Ok <==> old(buf)@.len() <= old(self).remaining().len(),
            r is Ok ==> {
                &&& final(self)@ == (BlockReaderView {
                    offset: old(self)@.offset + old(buf)@.len(),
                    ..old(self)@
                })
                &&& final(buf)@ == old(self).remaining().take(old(buf)@.len() as int)
            },
            r is Err ==> final(self)@ == old(self)@ && final(buf)@ == old(buf)@,
    {
        let left: usize = self.buffer.len() - self.offset;
        if buf.len() > left {
            return Err(EndOfBlock {});
        }
        let count: usize = buf.len();
        self.copy_out(buf, count);
        proof {
            assert(buf@ =~= old(self).remaining().take(count as int));
        }
        Ok(())
    }
}

} // verus!
