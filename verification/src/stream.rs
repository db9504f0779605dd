use crate::error::NetError;
use vstd::prelude::*;

verus! {

/// A source of bytes: the bytes received so far and how many of them have been consumed.
pub struct ByteReader {
    data: Vec<u8>,
    pos: usize,
}

/// A sink of bytes: the bytes written and not yet taken away.
pub struct ByteWriter {
    data: Vec<u8>,
}

impl ByteReader {
    /// No more bytes are consumed than were handed over.
    pub open spec fn wf(self) -> bool {
        self.pos() <= self.data().len()
    }

    /// All bytes that were handed to the reader.
    pub closed spec fn data(self) -> Seq<u8> {
        self.data@
    }

    /// How many of them have been consumed.
    pub closed spec fn pos(self) -> nat {
        self.pos as nat
    }

    /// A reader over `data`, nothing consumed yet.
    pub fn new(data: Vec<u8>) -> (r: Self)
        ensures
            r.data() == data@,
            r.pos() == 0,
            r.wf(),
    {
        ByteReader { data, pos: 0 }
    }

    /// Appends bytes that have arrived.
    pub fn feed(&mut self, bytes: &[u8])
        requires
            old(self).wf(),
        ensures
            final(self).wf(),
            final(self).data() == old(self).data() + bytes@,
            final(self).pos() == old(self).pos(),
    {
        let mut i: usize = 0;
        while i < bytes.len()
            invariant
                i <= bytes@.len(),
                self.pos <= old(self).data@.len(),
                self.pos == old(self).pos,
                self.data@ == old(self).data@ + bytes@.take(i as int),
            decreases bytes@.len() - i,
        {
            self.data.push(bytes[i]);
            i = i + 1;
            assert(bytes@.take(i as int) == bytes@.take(i - 1 as int).push(bytes@[i - 1]));
        }
        assert(bytes@.take(bytes@.len() as int) == bytes@);
    }

    /// Consumes the next `n` bytes; where fewer than `n` are left, consumes all
    /// of them and fails, as `read_exact` on a byte slice does.
    pub fn read_exact(&mut self, n: usize) -> (r: Result<Vec<u8>, NetError>)
        requires
            old(self).wf(),
        ensures
            final(self).wf(),
            final(self).data() == old(self).data(),
            old(self).pos() + n <= old(self).data().len() ==> {
                &&& r matches Ok(b)
                &&& b@ == old(self).data().subrange(old(self).pos() as int, old(self).pos() + n)
                &&& final(self).pos() == old(self).pos() + n
            },
            old(self).pos() + n > old(self).data().len() ==> {
                &&& r == Err::<Vec<u8>, NetError>(NetError::UnexpectedEof)
                &&& final(self).pos() == old(self).data().len()
            },
    {
        if self.pos > self.data.len() || n > self.data.len() - self.pos {
            self.pos = self.data.len();
            return Err(NetError::UnexpectedEof);
        }
        let mut out: Vec<u8> = Vec::new();
        let start = self.pos;
        let mut i: usize = 0;
        while i < n
            invariant
                i <= n,
                start + n <= self.data.len(),
                out@ == self.data@.subrange(start as int, start + i),
            decreases n - i,
        {
            out.push(self.data[start + i]);
            i = i + 1;
        }
        self.pos = start + n;
        Ok(out)
    }

    /// Drops the consumed bytes, keeping those still to be read.
    pub fn discard_consumed(&mut self)
        requires
            old(self).wf(),
        ensures
            final(self).wf(),
            final(self).data() == old(self).data().skip(old(self).pos() as int),
            final(self).pos() == 0,
    {
        let mut rest: Vec<u8> = Vec::new();
        let mut i: usize = self.pos;
        while i < self.data.len()
            invariant
                self.pos <= i <= self.data@.len(),
                rest@ == self.data@.subrange(self.pos as int, i as int),
            decreases self.data@.len() - i,
        {
            rest.push(self.data[i]);
            i = i + 1;
        }
        assert(rest@ =~= self.data@.skip(self.pos as int));
        self.data = rest;
        self.pos = 0;
    }

    /// Where the reader stands.
    pub fn position(&self) -> (p: usize)
        ensures
            p == self.pos(),
    {
        self.pos
    }

    /// Steps back to an earlier position.
    pub fn rewind(&mut self, p: usize)
        requires
            p <= old(self).pos(),
            old(self).wf(),
        ensures
            final(self).wf(),
            final(self).data() == old(self).data(),
            final(self).pos() == p,
    {
        self.pos = p;
    }
}

impl ByteWriter {
    pub closed spec fn data(self) -> Seq<u8> {
        self.data@
    }

    /// A writer that holds no bytes.
    pub fn new() -> (r: Self)
        ensures
            r.data() == Seq::<u8>::empty(),
    {
        ByteWriter { data: Vec::new() }
    }

    /// Appends one byte.
    pub fn write_byte(&mut self, b: u8)
        ensures
            final(self).data() == old(self).data().push(b),
    {
        self.data.push(b);
    }

    /// Takes away every byte written so far, leaving the writer empty.
    pub fn take_written(&mut self) -> (r: Vec<u8>)
        ensures
            r@ == old(self).data(),
            final(self).data() == Seq::<u8>::empty(),
    {
        let mut out: Vec<u8> = Vec::new();
        std::mem::swap(&mut out, &mut self.data);
        out
    }
}

} // verus!
