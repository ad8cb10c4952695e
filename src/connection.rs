use vstd::prelude::*;

use crate::frame::{parse_spec, Cursor, Decoded, Error, Frame};

verus! {

/// The bytes read so far from one stream, and the offset of the first byte no
/// frame has consumed yet.
pub struct ReadBuffer {
    pub buf: Vec<u8>,
    pub start: usize,
}

impl ReadBuffer {
    pub open spec fn wf(&self) -> bool {
        self.start <= self.buf@.len()
    }

    pub fn new() -> (r: ReadBuffer)
        ensures
            r.wf(),
            r.buf@ == Seq::<u8>::empty(),
            r.start == 0,
    {
        ReadBuffer { buf: Vec::new(), start: 0 }
    }

    /// Adds what one read of the stream returned.
    pub fn append(&mut self, bytes: &[u8])
        requires
            old(self).wf(),
        ensures
            final(self).wf(),
            final(self).buf@ == old(self).buf@ + bytes@,
            final(self).start == old(self).start,
    {
        let mut i: usize = 0;
        let ghost b0 = self.buf@;
        while i < bytes.len()
            invariant
                i <= bytes@.len(),
                self.start == old(self).start,
                self.start <= b0.len(),
                b0 == old(self).buf@,
                self.buf@ == b0 + bytes@.subrange(0, i as int),
            decreases bytes@.len() - i,
        {
            self.buf.push(bytes[i]);
            i = i + 1;
            assert(self.buf@ =~= b0 + bytes@.subrange(0, i as int));
        }
        assert(bytes@.subrange(0, i as int) =~= bytes@);
    }

    /// Takes the next whole frame if the buffer holds one: `Ok(None)` asks for
    /// more bytes, and leaves the buffer as it was.
    pub fn next_frame(&mut self) -> (r: Result<Option<Frame>, Error>)
        requires
            old(self).wf(),
        ensures
            final(self).wf(),
            final(self).buf@ == old(self).buf@,
            match parse_spec(old(self).buf@, old(self).start as int) {
                Decoded::Done(f, e) => r matches Ok(Some(fr)) && fr@ == f && final(self).start == e,
                Decoded::Incomplete => r matches Ok(None) && final(self).start == old(self).start,
                Decoded::Invalid => r matches Err(Error::Other(_)),
            },
    {
        let mut probe = Cursor { buf: self.buf.as_slice(), pos: self.start };
        match Frame::check(&mut probe) {
            Ok(()) => {},
            Err(Error::Incomplete) => return Ok(None),
            Err(e) => return Err(e),
        }
        let mut src = Cursor { buf: self.buf.as_slice(), pos: self.start };
        match Frame::parse(&mut src) {
            Ok(f) => {
                self.start = src.pos;
                Ok(Some(f))
            },
            Err(e) => Err(e),
        }
    }

    /// What the end of the stream means here: a clean end when no bytes are
    /// left over, and a reset peer in the middle of a frame.
    pub fn on_closed(&self) -> (r: Result<(), Error>)
        requires
            self.wf(),
        ensures
            r is Ok <==> self.start == self.buf@.len(),
            r is Err ==> r matches Err(Error::Other(_)),
    {
        if self.start == self.buf.len() {
            Ok(())
        } else {
            Err(Error::Other(String::from_str("connection reset by peer")))
        }
    }

    /// Drops the bytes that frames have consumed.
    pub fn compact(&mut self)
        requires
            old(self).wf(),
        ensures
            final(self).wf(),
            final(self).buf@ == old(self).buf@.subrange(old(self).start as int, old(self).buf@.len() as int),
            final(self).start == 0,
    {
        let mut rest: Vec<u8> = Vec::new();
        let mut i: usize = self.start;
        while i < self.buf.len()
            invariant
                self.start <= i <= self.buf@.len(),
                self.buf@ == old(self).buf@,
                self.start == old(self).start,
                rest@ == self.buf@.subrange(self.start as int, i as int),
            decreases self.buf@.len() - i,
        {
            rest.push(self.buf[i]);
            i = i + 1;
            assert(rest@ =~= self.buf@.subrange(self.start as int, i as int));
        }
        self.buf = rest;
        self.start = 0;
    }
}

} // verus!
