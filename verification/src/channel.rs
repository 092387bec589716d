//! The byte channel the engine exchanges single bytes with: an in-memory
//! queue of input bytes and a sink recording every byte written.

use vstd::prelude::*;

verus! {

/// A bidirectional byte channel.  `read_byte` hands out the input bytes one
/// at a time and then signals end of stream; `write_byte` appends to the
/// output sink.
pub struct ByteChannel {
    input: Vec<u8>,
    cursor: usize,
    output: Vec<u8>,
}

impl ByteChannel {
    /// The input bytes not yet read.
    pub closed spec fn remaining(self) -> Seq<u8> {
        self.input@.skip(self.cursor as int)
    }

    /// The bytes written so far, oldest first.
    pub closed spec fn written(self) -> Seq<u8> {
        self.output@
    }

    pub closed spec fn wf(self) -> bool {
        self.cursor <= self.input@.len()
    }

    /// A channel that will hand out exactly the given bytes and has written
    /// nothing yet.
    pub fn new(input: Vec<u8>) -> (r: ByteChannel)
        ensures
            r.wf(),
            r.remaining() == input@,
            r.written() == Seq::<u8>::empty(),
    {
        let r = ByteChannel { input, cursor: 0, output: Vec::new() };
        proof {
            assert(r.remaining() =~= r.input@);
        }
        r
    }

    /// Read one byte; `None` exactly when the input is exhausted.
    pub fn read_byte(&mut self) -> (r: Option<u8>)
        requires
            old(self).wf(),
        ensures
            final(self).wf(),
            final(self).written() == old(self).written(),
            match r {
                Some(b) => old(self).remaining().len() > 0 && b == old(self).remaining()[0]
                    && final(self).remaining() == old(self).remaining().drop_first(),
                None => old(self).remaining().len() == 0 && final(self).remaining() == old(
                    self,
                ).remaining(),
            },
    {
        if self.cursor < self.input.len() {
            let b = self.input[self.cursor];
            self.cursor = self.cursor + 1;
            proof {
                assert(self.remaining() =~= old(self).remaining().drop_first());
            }
            Some(b)
        } else {
            None
        }
    }

    /// Write one byte to the sink.
    pub fn write_byte(&mut self, byte: u8)
        requires
            old(self).wf(),
        ensures
            final(self).wf(),
            final(self).remaining() == old(self).remaining(),
            final(self).written() == old(self).written().push(byte),
    {
        self.output.push(byte);
    }

    /// Hand out everything the channel has been asked to write.
    pub fn into_output(self) -> (r: Vec<u8>)
        ensures
            r@ == self.written(),
    {
        self.output
    }
}

} // verus!
