use crate::error::ParseError;
use vstd::prelude::*;

verus! {

/// An in-memory seekable byte stream: the bytes and a cursor. The cursor
/// may point past the end of the data; any read there fails.
pub struct Stream {
    pub data: Vec<u8>,
    pub pos: usize,
}

/// The unsigned 16-bit little-endian integer held at `i`.
pub open spec fn u16_at(d: Seq<u8>, i: int) -> u16 {
    (d[i] as int + d[i + 1] as int * 0x100) as u16
}

/// The unsigned 32-bit little-endian integer held at `i`.
pub open spec fn u32_at(d: Seq<u8>, i: int) -> u32 {
    (d[i] as int + d[i + 1] as int * 0x100 + d[i + 2] as int * 0x10000
        + d[i + 3] as int * 0x1000000) as u32
}

impl Stream {
    /// A stream over `data`, with the cursor at the front.
    pub fn new(data: Vec<u8>) -> (r: Stream)
        ensures
            r.data@ == data@,
            r.pos == 0,
    {
        Stream { data, pos: 0 }
    }

    /// Moves the cursor to `anchor + off`. Fails when that position is not
    /// representable, where every read would fail just the same.
    pub fn seek_rel(&mut self, anchor: usize, off: u32) -> (r: Result<(), ParseError>)
        ensures
            final(self).data@ == old(self).data@,
            anchor + off <= usize::MAX ==> r == Ok::<(), ParseError>(())
                && final(self).pos == anchor + off,
            anchor + off > usize::MAX ==> r == Err::<(), ParseError>(ParseError::UnexpectedEof),
    {
        let off_wide: usize = off as usize;
        if off_wide <= usize::MAX - anchor {
            self.pos = anchor + off_wide;
            Ok(())
        } else {
            Err(ParseError::UnexpectedEof)
        }
    }

    /// Moves the cursor to `p`.
    pub fn seek_to(&mut self, p: usize)
        ensures
            final(self).data@ == old(self).data@,
            final(self).pos == p,
    {
        self.pos = p;
    }
}

/// Reads one byte and advances the cursor past it.
pub fn read_u8(input: &mut Stream) -> (r: Result<u8, ParseError>)
    ensures
        final(input).data@ == old(input).data@,
        old(input).pos + 1 <= old(input).data@.len() ==> r == Ok::<u8, ParseError>(
            old(input).data@[old(input).pos as int],
        ) && final(input).pos == old(input).pos + 1,
        old(input).pos + 1 > old(input).data@.len() ==> r == Err::<u8, ParseError>(
            ParseError::UnexpectedEof,
        ) && final(input).pos == old(input).pos,
{
    if input.pos < input.data.len() {
        let b = input.data[input.pos];
        input.pos = input.pos + 1;
        Ok(b)
    } else {
        Err(ParseError::UnexpectedEof)
    }
}

/// Reads one unsigned 16-bit little-endian integer and advances the cursor
/// past it.
pub fn read_u16(input: &mut Stream) -> (r: Result<u16, ParseError>)
    ensures
        final(input).data@ == old(input).data@,
        old(input).pos + 2 <= old(input).data@.len() ==> r == Ok::<u16, ParseError>(
            u16_at(old(input).data@, old(input).pos as int),
        ) && final(input).pos == old(input).pos + 2,
        old(input).pos + 2 > old(input).data@.len() ==> r == Err::<u16, ParseError>(
            ParseError::UnexpectedEof,
        ) && final(input).pos == old(input).pos,
{
    if input.data.len() >= 2 && input.pos <= input.data.len() - 2 {
        let b0 = input.data[input.pos];
        let b1 = input.data[input.pos + 1];
        input.pos = input.pos + 2;
        Ok(b0 as u16 + b1 as u16 * 0x100)
    } else {
        Err(ParseError::UnexpectedEof)
    }
}

/// Reads one unsigned 32-bit little-endian integer and advances the cursor
/// past it.
pub fn read_u32(input: &mut Stream) -> (r: Result<u32, ParseError>)
    ensures
        final(input).data@ == old(input).data@,
        old(input).pos + 4 <= old(input).data@.len() ==> r == Ok::<u32, ParseError>(
            u32_at(old(input).data@, old(input).pos as int),
        ) && final(input).pos == old(input).pos + 4,
        old(input).pos + 4 > old(input).data@.len() ==> r == Err::<u32, ParseError>(
            ParseError::UnexpectedEof,
        ) && final(input).pos == old(input).pos,
{
    if input.data.len() >= 4 && input.pos <= input.data.len() - 4 {
        let b0 = input.data[input.pos];
        let b1 = input.data[input.pos + 1];
        let b2 = input.data[input.pos + 2];
        let b3 = input.data[input.pos + 3];
        input.pos = input.pos + 4;
        Ok(b0 as u32 + b1 as u32 * 0x100 + b2 as u32 * 0x10000 + b3 as u32 * 0x1000000)
    } else {
        Err(ParseError::UnexpectedEof)
    }
}

} // verus!
