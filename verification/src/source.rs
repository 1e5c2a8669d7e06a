//! The byte source that a block reader draws from, and one that serves bytes
//! held in memory.

use vstd::prelude::*;

verus! {

/// Something that delivers bytes on demand and tells when none are left.
///
/// What a read may do is stated in two layers. Of every source: a read
/// appends to `out`, at most as much as was asked for, and on failure
/// nothing. Of a source that is `faithful`: it never fails, and what it
/// delivers is `pending`, in order, followed by nothing. A source says of
/// itself whether it is faithful; unless it says so, it is not.
///
/// An implementation in verified code is proved to keep this contract. One
/// written in unverified code, over a file or a socket, is taken at its
/// word for the first layer and should leave the second alone.
pub trait ByteSource {
    /// What a failed read reports.
    type Failure;

    /// The bytes that a faithful source has yet to deliver, in order.
    open spec fn pending(&self) -> Seq<u8> {
        Seq::empty()
    }

    /// Whether this source delivers exactly `pending` and never fails.
    open spec fn faithful(&self) -> bool {
        false
    }

    /// Appends at most `max` bytes to `out` and returns how many. It may
    /// deliver fewer than asked for. A faithful source delivers none only
    /// when none were asked for or none are left.
    fn read(&mut self, out: &mut Vec<u8>, max: usize) -> (r: Result<usize, Self::Failure>)
        requires
            old(out)@.len() + max <= usize::MAX,
        ensures
            match r {
                Ok(n) => {
                    &&& n <= max
                    &&& final(out)@.len() == old(out)@.len() + n
                    &&& final(out)@.take(old(out)@.len() as int) == old(out)@
                },
                Err(_) => final(out)@ == old(out)@,
            },
            old(self).faithful() ==> final(self).faithful(),
            old(self).faithful() ==> match r {
                Ok(n) => {
                    &&& n <= old(self).pending().len()
                    &&& n == 0 ==> max == 0 || old(self).pending().len() == 0
                    &&& final(out)@ == old(out)@ + old(self).pending().take(n as int)
                    &&& final(self).pending() == old(self).pending().skip(n as int)
                },
                Err(_) => false,
            },
    ;
}

/// The failure of a source that cannot fail: no read ever returns one.
#[derive(Debug, PartialEq, Eq)]
pub struct NoFailure {}

/// A source that serves a fixed run of bytes held in memory.
pub struct MemorySource {
    data: Vec<u8>,
    pos: usize,
}

impl MemorySource {
    #[verifier::type_invariant]
    spec fn inv(self) -> bool {
        self.pos <= self.data@.len()
    }

    /// A source that will deliver exactly `data`.
    pub fn new(data: Vec<u8>) -> (s: MemorySource)
        ensures
            s.pending() == data@,
            s.faithful(),
    {
        let s = MemorySource { data, pos: 0 };
        proof {
            assert(s.data@.skip(0) =~= s.data@);
        }
        s
    }

    /// Number of bytes not yet delivered.
    pub fn remaining(&self) -> (n: usize)
        ensures
            n == self.pending().len(),
    {
        proof {
            use_type_invariant(self);
        }
        self.data.len() - self.pos
    }
}

impl ByteSource for MemorySource {
    type Failure = NoFailure;

    closed spec fn pending(&self) -> Seq<u8> {
        self.data@.skip(self.pos as int)
    }

    open spec fn faithful(&self) -> bool {
        true
    }

    /// Delivers as many bytes as were asked for, or all that are left.
    fn read(&mut self, out: &mut Vec<u8>, max: usize) -> (r: Result<usize, NoFailure>)
        ensures
            r == Ok::<usize, NoFailure>(
                if max <= old(self).pending().len() {
                    max
                } else {
                    old(self).pending().len() as usize
                },
            ),
    {
        proof {
            use_type_invariant(&*self);
        }
        let left: usize = self.data.len() - self.pos;
        let count: usize = if max <= left { max } else { left };
        let start: usize = self.pos;
        let mut i: usize = 0;
        while i < count
            invariant
                i <= count,
                start + count <= self.data@.len() <= usize::MAX,
                self.pos == start,
                self.data@ == old(self).data@,
                out@ == old(out)@ + self.data@.subrange(start as int, start + i),
                old(out)@.len() + max <= usize::MAX,
                count <= max,
            decreases count - i,
        {
            let b: u8 = self.data[start + i];
            out.push(b);
            i = i + 1;
            proof {
                assert(self.data@.subrange(start as int, start + i) =~= self.data@.subrange(
                    start as int,
                    start + i - 1,
                ).push(b));
            }
        }
        self.pos = start + count;
        proof {
            assert(self.data@.subrange(start as int, start + count) =~= old(self).pending().take(
                count as int,
            ));
            assert(self.data@.skip(self.pos as int) =~= old(self).pending().skip(count as int));
            assert(out@.take(old(out)@.len() as int) =~= old(out)@);
        }
        Ok(count)
    }
}

} // verus!
