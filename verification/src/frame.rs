//! The framing of a stream: a four-byte little-endian length, then that many
//! bytes of payload. A length of zero ends the stream.

use vstd::prelude::*;
use crate::source::ByteSource;

verus! {

/// Width of the length field that opens every frame.
pub const LENGTH_FIELD_LEN: usize = 4;

/// The number that the first four bytes of `field` spell, least significant
/// byte first.
pub open spec fn le_u32(field: Seq<u8>) -> nat
    recommends
        field.len() >= 4,
{
    (field[0] as nat) + 256 * (field[1] as nat) + 65536 * (field[2] as nat) + 16777216 * (
    field[3] as nat)
}

/// What stands at the front of a stream.
pub enum NextFrame {
    /// Nothing: the stream ended where a frame would begin.
    End,
    /// A length field of zero, which ends the stream.
    Terminator,
    /// A whole frame, with this payload.
    Block(Seq<u8>),
    /// The stream stops inside the length field or inside the payload.
    Truncated,
}

/// Classifies the front of `stream`.
pub open spec fn next_frame(stream: Seq<u8>) -> NextFrame {
    if stream.len() == 0 {
        NextFrame::End
    } else if stream.len() < 4 {
        NextFrame::Truncated
    } else if le_u32(stream) == 0 {
        NextFrame::Terminator
    } else if stream.len() < 4 + le_u32(stream) {
        NextFrame::Truncated
    } else {
        NextFrame::Block(stream.subrange(4, 4 + le_u32(stream) as int))
    }
}

/// Why the next block could not be read.
#[derive(Debug, PartialEq, Eq)]
pub enum BlockError<E> {
    /// The stream stopped inside a frame.
    Truncated,
    /// The source failed; its own report is carried along.
    Source(E),
}

/// The four bytes that spell `len`, least significant byte first.
pub open spec fn length_field(len: nat) -> Seq<u8> {
    seq![
        (len % 256) as u8,
        (len / 256 % 256) as u8,
        (len / 65536 % 256) as u8,
        (len / 16777216 % 256) as u8,
    ]
}

/// The frame that carries `payload`: its length field, then the payload.
pub open spec fn framed(payload: Seq<u8>) -> Seq<u8> {
    length_field(payload.len()) + payload
}

/// A length below 2^32 is read back from its length field, whatever
/// follows the field.
pub proof fn lemma_length_field_read_back(len: nat, rest: Seq<u8>)
    requires
        len <= u32::MAX,
    ensures
        length_field(len).len() == 4,
        le_u32(length_field(len) + rest) == len,
{
    let s = length_field(len) + rest;
    assert(s[0] == length_field(len)[0]);
    assert(s[1] == length_field(len)[1]);
    assert(s[2] == length_field(len)[2]);
    assert(s[3] == length_field(len)[3]);
}

/// A stream that begins with the frame of a payload that is not empty holds
/// that payload as its next block, and what follows the frame comes after it.
pub proof fn lemma_framed_block_is_next(payload: Seq<u8>, rest: Seq<u8>)
    requires
        0 < payload.len() <= u32::MAX,
    ensures
        next_frame(framed(payload) + rest) == NextFrame::Block(payload),
        (framed(payload) + rest).skip(4 + payload.len() as int) == rest,
{
    let stream = framed(payload) + rest;
    lemma_length_field_read_back(payload.len(), payload + rest);
    assert(stream =~= length_field(payload.len()) + (payload + rest));
    assert(stream.subrange(4, 4 + payload.len() as int) =~= payload);
    assert(stream.skip(4 + payload.len() as int) =~= rest);
}

/// A stream that begins with a length field of zero is at its terminator,
/// whatever follows.
pub proof fn lemma_zero_length_is_terminator(rest: Seq<u8>)
    ensures
        next_frame(length_field(0) + rest) == NextFrame::Terminator,
        (length_field(0) + rest).skip(4) == rest,
{
    lemma_length_field_read_back(0, rest);
    assert((length_field(0) + rest).skip(4) =~= rest);
}

/// A frame cut short, anywhere after its first byte and before its last, is
/// truncated: it is neither a block nor an end of the stream.
pub proof fn lemma_cut_frame_is_truncated(payload: Seq<u8>, cut: int)
    requires
        0 < payload.len() <= u32::MAX,
        0 < cut < framed(payload).len(),
    ensures
        next_frame(framed(payload).take(cut)) == NextFrame::Truncated,
{
    let whole = framed(payload);
    let part = whole.take(cut);
    lemma_length_field_read_back(payload.len(), payload);
    if cut >= 4 {
        assert(part[0] == whole[0]);
        assert(part[1] == whole[1]);
        assert(part[2] == whole[2]);
        assert(part[3] == whole[3]);
    }
}

/// Reads what a source delivered where a length field was due: nothing is a
/// clean end, four bytes spell a length, and anything between is a
/// truncated field.
pub fn parse_length_field<E>(field: &[u8]) -> (r: Result<Option<u32>, BlockError<E>>)
    requires
        field@.len() <= LENGTH_FIELD_LEN,
    ensures
        field@.len() == 0 ==> r matches Ok(None),
        0 < field@.len() < 4 ==> r matches Err(BlockError::Truncated),
        field@.len() == 4 ==> (r matches Ok(Some(v)) && v == le_u32(field@)),
{
    if field.len() == 0 {
        Ok(None)
    } else if field.len() < LENGTH_FIELD_LEN {
        Err(BlockError::Truncated)
    } else {
        let b0: u32 = field[0] as u32;
        let b1: u32 = field[1] as u32;
        let b2: u32 = field[2] as u32;
        let b3: u32 = field[3] as u32;
        Ok(Some(b0 + 256 * b1 + 65536 * b2 + 16777216 * b3))
    }
}

/// Appends bytes of `source` to `out`, asking again after every short
/// delivery, until `want` bytes were appended or the source delivers
/// nothing more. Returns how many were appended. Of a faithful source that is
/// `want` bytes, or all that were pending if they were fewer.
pub fn read_up_to<S: ByteSource>(source: &mut S, out: &mut Vec<u8>, want: usize) -> (r: Result<
    usize,
    S::Failure,
>)
    requires
        old(out)@.len() + want <= usize::MAX,
    ensures
        r matches Ok(n) ==> {
            &&& n <= want
            &&& final(out)@.len() == old(out)@.len() + n
            &&& final(out)@.take(old(out)@.len() as int) == old(out)@
        },
        old(source).faithful() ==> final(source).faithful(),
        old(source).faithful() ==> match r {
            Ok(n) => {
                &&& n == vstd::math::min(want as int, old(source).pending().len() as int)
                &&& final(out)@ == old(out)@ + old(source).pending().take(n as int)
                &&& final(source).pending() == old(source).pending().skip(n as int)
            },
            Err(_) => false,
        },
{
    let ghost stream = source.pending();
    let ghost base = out@;
    let ghost faithful = source.faithful();
    let mut got: usize = 0;
    proof {
        assert(base + stream.take(0) =~= base);
        assert(stream.skip(0) =~= stream);
        assert(base.take(base.len() as int) =~= base);
    }
    while got < want
        invariant
            stream == old(source).pending(),
            base == old(out)@,
            faithful == old(source).faithful(),
            got <= want,
            base.len() + want <= usize::MAX,
            out@.len() == base.len() + got,
            out@.take(base.len() as int) == base,
            faithful ==> {
                &&& source.faithful()
                &&& got <= stream.len()
                &&& out@ == base + stream.take(got as int)
                &&& source.pending() == stream.skip(got as int)
            },
        decreases want - got,
    {
        let ghost before = out@;
        match source.read(out, want - got) {
            Ok(n) => {
                if n == 0 {
                    return Ok(got);
                }
                proof {
                    assert(out@.take(base.len() as int) =~= before.take(base.len() as int)) by {
                        assert(out@.take(before.len() as int) == before);
                    }
                    if faithful {
                        let rest = stream.skip(got as int);
                        assert(rest.skip(n as int) =~= stream.skip(got + n));
                        assert(base + stream.take(got as int) + rest.take(n as int) =~= base
                            + stream.take(got + n));
                    }
                }
                got = got + n;
            },
            Err(e) => {
                return Err(e);
            },
        }
    }
    Ok(got)
}

/// Reads the length field of the next frame. `None` means that the source
/// delivered nothing where the field would begin, which is a clean end and
/// no error; a source that stops after one to three bytes is truncated.
pub fn read_u32<S: ByteSource>(source: &mut S) -> (r: Result<Option<u32>, BlockError<S::Failure>>)
    ensures
        old(source).faithful() ==> final(source).faithful(),
        old(source).faithful() ==> match r {
            Ok(None) => {
                &&& old(source).pending().len() == 0
                &&& final(source).pending() == old(source).pending()
            },
            Ok(Some(v)) => {
                &&& old(source).pending().len() >= 4
                &&& v == le_u32(old(source).pending())
                &&& final(source).pending() == old(source).pending().skip(4)
            },
            Err(BlockError::Truncated) => {
                &&& 0 < old(source).pending().len() < 4
                &&& final(source).pending().len() == 0
            },
            Err(BlockError::Source(_)) => false,
        },
{
    let mut field: Vec<u8> = Vec::new();
    match read_up_to(source, &mut field, LENGTH_FIELD_LEN) {
        Err(e) => Err(BlockError::Source(e)),
        Ok(_) => {
            proof {
                assert(old(source).pending().skip(0) =~= old(source).pending());
            }
            parse_length_field(field.as_slice())
        },
    }
}

} // verus!
