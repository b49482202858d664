//! A growable byte accumulator used while canonically serializing a node
//! for hashing.
use vstd::prelude::*;

verus! {

/// The canonical-encoding buffer.
pub struct EncodeBuffer {
    data_buf: Vec<u8>,
}

impl View for EncodeBuffer {
    type V = Seq<u8>;

    closed spec fn view(&self) -> Seq<u8> {
        self.data_buf@
    }
}

impl EncodeBuffer {
    /// An empty buffer.
    pub fn new() -> (r: Self)
        ensures
            r@ == Seq::<u8>::empty(),
    {
        EncodeBuffer { data_buf: Vec::new() }
    }

    /// Appends all given bytes.
    pub fn write_bytes(&mut self, buf: &[u8])
        ensures
            final(self)@ == old(self)@ + buf@,
    {
        let mut i: usize = 0;
        while i < buf.len()
            invariant
                i <= buf.len(),
                self.data_buf@ == old(self)@ + buf@.take(i as int),
            decreases buf.len() - i,
        {
            self.data_buf.push(buf[i]);
            proof {
                assert(buf@.take(i + 1) =~= buf@.take(i as int).push(buf@[i as int]));
                assert(self.data_buf@ =~= old(self)@ + buf@.take(i + 1));
            }
            i = i + 1;
        }
        proof {
            assert(buf@.take(buf@.len() as int) =~= buf@);
        }
    }

    /// Appends one byte.
    pub fn write(&mut self, b: u8)
        ensures
            final(self)@ == old(self)@ + seq![b],
    {
        self.data_buf.push(b);
        proof {
            assert(self.data_buf@ =~= old(self)@ + seq![b]);
        }
    }

    /// The number of bytes accumulated so far.
    pub fn size(&self) -> (r: usize)
        ensures
            r == self@.len(),
    {
        self.data_buf.len()
    }

    /// A copy of the accumulated bytes.
    pub fn encode_bytes(&self) -> (r: Vec<u8>)
        ensures
            r@ == self@,
    {
        let mut dst: Vec<u8> = Vec::new();
        let mut i: usize = 0;
        while i < self.data_buf.len()
            invariant
                i <= self.data_buf.len(),
                dst@ == self.data_buf@.take(i as int),
            decreases self.data_buf.len() - i,
        {
            dst.push(self.data_buf[i]);
            proof {
                assert(dst@ =~= self.data_buf@.take(i + 1));
            }
            i = i + 1;
        }
        proof {
            assert(self.data_buf@.take(self.data_buf@.len() as int) =~= self.data_buf@);
        }
        dst
    }

    /// Empties the buffer.
    pub fn reset(&mut self)
        ensures
            final(self)@ == Seq::<u8>::empty(),
    {
        self.data_buf = Vec::new();
    }
}

} // verus!
