use block_stream::block_reader::BlockReader;
use block_stream::frame::{read_u32, read_up_to, BlockError};
use block_stream::source::{ByteSource, MemorySource, NoFailure};

/// Delivers its bytes in pieces of at most `piece` bytes.
struct Trickle {
    data: Vec<u8>,
    pos: usize,
    piece: usize,
}

impl ByteSource for Trickle {
    type Failure = String;

    fn read(&mut self, out: &mut Vec<u8>, max: usize) -> Result<usize, String> {
        let left = self.data.len() - self.pos;
        let n = max.min(left).min(self.piece);
        out.extend_from_slice(&self.data[self.pos..self.pos + n]);
        self.pos += n;
        Ok(n)
    }
}

/// Delivers its bytes, then fails on every read that follows.
struct Failing {
    data: Vec<u8>,
    pos: usize,
}

impl ByteSource for Failing {
    type Failure = String;

    fn read(&mut self, out: &mut Vec<u8>, max: usize) -> Result<usize, String> {
        let left = self.data.len() - self.pos;
        if left == 0 {
            return Err(String::from("device gone"));
        }
        let n = max.min(left);
        out.extend_from_slice(&self.data[self.pos..self.pos + n]);
        self.pos += n;
        Ok(n)
    }
}

fn frame(payload: &[u8]) -> Vec<u8> {
    let mut v = (payload.len() as u32).to_le_bytes().to_vec();
    v.extend_from_slice(payload);
    v
}

#[test]
fn empty_stream_ends_at_once() {
    let mut reader = BlockReader::new(MemorySource::new(Vec::new()));
    assert_eq!(reader.read_block(), Ok(false));
    assert_eq!(reader.offset(), 0);
    assert!(reader.buffer().is_empty());
    assert_eq!(reader.read_block(), Ok(false));
}

#[test]
fn zero_length_frame_ends_stream_and_reads_no_further() {
    let mut stream = frame(b"abc");
    stream.extend_from_slice(&[0, 0, 0, 0]);
    stream.extend_from_slice(&[9, 9, 9, 9, 9]);
    let mut reader = BlockReader::new(MemorySource::new(stream));
    assert_eq!(reader.read_block(), Ok(true));
    assert_eq!(reader.buffer(), b"abc");
    assert_eq!(reader.read_block(), Ok(false));
    assert!(reader.buffer().is_empty());
    assert_eq!(reader.buffer_from_to(0..0), b"");
    assert_eq!(reader.offset(), 0);
}

#[test]
fn terminator_leaves_following_bytes_in_source() {
    let mut source = MemorySource::new(vec![0, 0, 0, 0, 7, 7, 7]);
    let mut scratch = Vec::new();
    assert_eq!(read_u32(&mut source), Ok(Some(0)));
    assert_eq!(source.remaining(), 3);
    assert_eq!(read_up_to(&mut source, &mut scratch, 10), Ok(3));
    assert_eq!(scratch, vec![7, 7, 7]);
}

#[test]
fn truncated_length_field_is_an_error() {
    for cut in 1..4usize {
        let stream = vec![5u8, 0, 0, 0][..cut].to_vec();
        let mut reader = BlockReader::new(MemorySource::new(stream));
        assert_eq!(reader.read_block(), Err(BlockError::Truncated));
        assert_eq!(reader.offset(), 0);
    }
}

#[test]
fn truncated_length_field_keeps_loaded_block() {
    let mut stream = frame(b"abc");
    stream.extend_from_slice(&[5, 0]);
    let mut reader = BlockReader::new(MemorySource::new(stream));
    assert_eq!(reader.read_block(), Ok(true));
    reader.advance(2);
    assert_eq!(reader.read_block(), Err(BlockError::Truncated));
    assert_eq!(reader.offset(), 0);
    assert_eq!(reader.buffer(), b"abc");
}

#[test]
fn truncated_payload_is_an_error() {
    let mut stream = frame(b"abc");
    stream.extend_from_slice(&[5, 0, 0, 0, b'd', b'e']);
    let mut reader = BlockReader::new(MemorySource::new(stream));
    assert_eq!(reader.read_block(), Ok(true));
    assert_eq!(reader.read_block(), Err(BlockError::Truncated));
    assert_eq!(reader.offset(), 0);
    assert!(reader.buffer().is_empty());
}

#[test]
fn length_field_without_payload_is_an_error() {
    let mut reader = BlockReader::new(MemorySource::new(vec![1, 0, 0, 0]));
    assert_eq!(reader.read_block(), Err(BlockError::Truncated));
}

#[test]
fn successful_read_resets_cursor_and_loads_declared_length() {
    let mut stream = frame(b"abc");
    stream.extend_from_slice(&frame(b"defgh"));
    let mut reader = BlockReader::new(MemorySource::new(stream));
    assert_eq!(reader.read_block(), Ok(true));
    assert_eq!(reader.offset(), 0);
    assert_eq!(reader.buffer().len(), 3);
    reader.advance(3);
    assert_eq!(reader.offset(), 3);
    assert_eq!(reader.read_block(), Ok(true));
    assert_eq!(reader.offset(), 0);
    assert_eq!(reader.buffer().len(), 5);
}

#[test]
fn two_blocks_round_trip() {
    let stream = vec![3, 0, 0, 0, b'a', b'b', b'c', 5, 0, 0, 0, b'd', b'e', b'f', b'g', b'h'];
    let mut reader = BlockReader::new(MemorySource::new(stream));
    assert_eq!(reader.read_block(), Ok(true));
    assert_eq!(reader.buffer(), b"abc");
    assert_eq!(reader.read_block(), Ok(true));
    assert_eq!(reader.buffer(), b"defgh");
    assert_eq!(reader.read_block(), Ok(false));
    assert_eq!(reader.offset(), 0);
}

#[test]
fn unconsumed_remainder_is_discarded_by_next_read() {
    let mut stream = frame(b"abcdef");
    stream.extend_from_slice(&frame(b"xy"));
    let mut reader = BlockReader::new(MemorySource::new(stream));
    assert_eq!(reader.read_block(), Ok(true));
    reader.advance(1);
    assert_eq!(reader.read_block(), Ok(true));
    assert_eq!(reader.buffer(), b"xy");
    assert_eq!(reader.buffer_from_to(0..2), b"xy");
}

#[test]
fn length_field_is_little_endian() {
    let payload: Vec<u8> = (0..0x0102u32).map(|i| (i % 251) as u8).collect();
    let mut stream = vec![0x02, 0x01, 0x00, 0x00];
    stream.extend_from_slice(&payload);
    let mut source = MemorySource::new(stream.clone());
    assert_eq!(read_u32(&mut source), Ok(Some(0x0102)));
    let mut reader = BlockReader::new(MemorySource::new(stream));
    assert_eq!(reader.read_block(), Ok(true));
    assert_eq!(reader.buffer(), &payload[..]);
    assert_eq!(reader.read_block(), Ok(false));
}

#[test]
fn read_u32_spells_all_four_bytes() {
    let mut source = MemorySource::new(vec![0x78, 0x56, 0x34, 0x12, 0xff]);
    assert_eq!(read_u32(&mut source), Ok(Some(0x1234_5678)));
    assert_eq!(source.remaining(), 1);
    let mut source = MemorySource::new(vec![0xff, 0xff, 0xff, 0xff]);
    assert_eq!(read_u32(&mut source), Ok(Some(u32::MAX)));
    let mut source = MemorySource::new(Vec::new());
    assert_eq!(read_u32(&mut source), Ok(None));
    let mut source = MemorySource::new(vec![1, 2, 3]);
    assert_eq!(read_u32(&mut source), Err(BlockError::Truncated));
}

#[test]
fn read_up_to_stops_at_end_of_source() {
    let mut source = MemorySource::new(vec![1, 2, 3, 4, 5]);
    let mut out = vec![0u8];
    assert_eq!(read_up_to(&mut source, &mut out, 3), Ok(3));
    assert_eq!(out, vec![0, 1, 2, 3]);
    assert_eq!(read_up_to(&mut source, &mut out, 3), Ok(2));
    assert_eq!(out, vec![0, 1, 2, 3, 4, 5]);
    assert_eq!(read_up_to(&mut source, &mut out, 3), Ok(0));
    assert_eq!(read_up_to(&mut source, &mut out, 0), Ok(0));
    assert_eq!(out, vec![0, 1, 2, 3, 4, 5]);
}

#[test]
fn memory_source_delivers_in_order() {
    let mut source = MemorySource::new(vec![10, 20, 30]);
    let mut out = Vec::new();
    assert_eq!(source.read(&mut out, 2), Ok(2));
    assert_eq!(out, vec![10, 20]);
    assert_eq!(source.remaining(), 1);
    assert_eq!(source.read(&mut out, 2), Ok(1));
    assert_eq!(out, vec![10, 20, 30]);
    assert_eq!(source.read(&mut out, 2), Ok::<usize, NoFailure>(0));
    assert_eq!(source.remaining(), 0);
}

#[test]
fn short_deliveries_are_joined() {
    let mut stream = frame(b"abc");
    stream.extend_from_slice(&frame(b"defgh"));
    for piece in 1..6usize {
        let source = Trickle { data: stream.clone(), pos: 0, piece };
        let mut reader = BlockReader::new(source);
        assert_eq!(reader.read_block(), Ok(true));
        assert_eq!(reader.buffer(), b"abc");
        assert_eq!(reader.read_block(), Ok(true));
        assert_eq!(reader.buffer(), b"defgh");
        assert_eq!(reader.read_block(), Ok(false));
    }
}

#[test]
fn short_deliveries_of_a_truncated_stream() {
    let source = Trickle { data: vec![4, 0, 0], pos: 0, piece: 1 };
    let mut reader = BlockReader::new(source);
    assert_eq!(reader.read_block(), Err(BlockError::Truncated));
}

#[test]
fn source_failure_is_passed_on() {
    let source = Failing { data: frame(b"abc"), pos: 0 };
    let mut reader = BlockReader::new(source);
    assert_eq!(reader.read_block(), Ok(true));
    assert_eq!(reader.buffer(), b"abc");
    assert_eq!(reader.read_block(), Err(BlockError::Source(String::from("device gone"))));
    assert_eq!(reader.offset(), 0);

    let source = Failing { data: vec![3, 0, 0, 0, b'a'], pos: 0 };
    let mut reader = BlockReader::new(source);
    assert_eq!(reader.read_block(), Err(BlockError::Source(String::from("device gone"))));
    assert!(reader.buffer().is_empty());
}
