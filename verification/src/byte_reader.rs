//! A cursor that hands out consecutive byte ranges of a buffer.

use crate::error::BdfError;
use vstd::prelude::*;
use vstd::slice::*;

verus! {

/// A read position in an immutable buffer. Each successful read starts
/// where the one before it ended, and nothing moves the position back, so
/// no byte is handed out twice.
pub struct ByteReader<'a> {
    byte_data: &'a [u8],
    head_position: usize,
}

impl<'a> ByteReader<'a> {
    /// The bytes of the buffer.
    pub closed spec fn data(&self) -> Seq<u8> {
        self.byte_data@
    }

    /// The offset of the next byte to hand out.
    pub closed spec fn position(&self) -> nat {
        self.head_position as nat
    }

    /// The buffer holds `delta` more bytes from the read position on.
    pub open spec fn in_bounds(&self, delta: usize) -> bool {
        self.position() + delta <= self.data().len()
    }

    /// The `delta` bytes that follow the read position.
    pub open spec fn upcoming(&self, delta: usize) -> Seq<u8> {
        self.data().subrange(self.position() as int, self.position() + delta)
    }

    /// A cursor at the start of `byte_data`.
    pub fn new(byte_data: &'a [u8]) -> (reader: Self)
        ensures
            reader.data() == byte_data@,
            reader.position() == 0,
    {
        ByteReader { byte_data, head_position: 0 }
    }

    /// A cursor at offset `head_position` of `byte_data`. An offset behind
    /// the end is accepted; nothing can be read from there.
    pub fn starting_at(byte_data: &'a [u8], head_position: usize) -> (reader: Self)
        ensures
            reader.data() == byte_data@,
            reader.position() == head_position,
    {
        ByteReader { byte_data, head_position }
    }

    /// The buffer that is read.
    pub fn byte_data(&self) -> (bytes: &'a [u8])
        ensures
            bytes@ == self.data(),
    {
        self.byte_data
    }

    /// The offset of the next byte to hand out.
    pub fn head_position(&self) -> (offset: usize)
        ensures
            offset == self.position(),
    {
        self.head_position
    }

    /// Tells whether `delta` more bytes can be read.
    pub fn within_bounds(&self, delta: usize) -> (b: bool)
        ensures
            b == self.in_bounds(delta),
    {
        let length = self.byte_data.len();
        self.head_position <= length && delta <= length - self.head_position
    }

    /// The next `delta` bytes, without moving the read position. Where the
    /// buffer holds fewer, the result is `OutOfRange`.
    pub fn view_next(&self, delta: usize) -> (r: Result<&'a [u8], BdfError>)
        ensures
            match r {
                Ok(bytes) => self.in_bounds(delta) && bytes@ == self.upcoming(delta),
                Err(e) => !self.in_bounds(delta) && e == BdfError::OutOfRange,
            },
    {
        if self.within_bounds(delta) {
            assert(self.byte_data.len() == self.byte_data@.len());
            let start = self.head_position;
            let end = self.head_position + delta;
            Ok(slice_subrange(self.byte_data, start, end))
        } else {
            Err(BdfError::OutOfRange)
        }
    }

    /// Hands out the next `delta` bytes and moves the read position behind
    /// them. Where the buffer holds fewer, the result is `OutOfRange` and the
    /// read position stays where it was: nothing is handed out in part.
    pub fn next(&mut self, delta: usize) -> (r: Result<&'a [u8], BdfError>)
        ensures
            final(self).data() == old(self).data(),
            final(self).position() >= old(self).position(),
            match r {
                Ok(bytes) => {
                    &&& old(self).in_bounds(delta)
                    &&& bytes@ == old(self).upcoming(delta)
                    &&& final(self).position() == old(self).position() + delta
                },
                Err(e) => {
                    &&& !old(self).in_bounds(delta)
                    &&& e == BdfError::OutOfRange
                    &&& final(self).position() == old(self).position()
                },
            },
    {
        let bytes = self.view_next(delta)?;
        assert(self.byte_data.len() == self.byte_data@.len());
        self.head_position = self.head_position + delta;
        Ok(bytes)
    }
}

} // verus!
