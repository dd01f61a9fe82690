//! A scripted byte stream for exercising a connection without a network:
//! reads hand out prepared data (in chunks of a chosen size, if any) and
//! writes are recorded.

use vstd::prelude::*;

verus! {

/// A scripted stream.
pub struct TestStream {
    data: Vec<u8>,
    read: usize,
    /// The largest number of bytes one read hands out, if limited.
    pub chunk_size: Option<usize>,
    /// Everything written to the stream so far.
    pub written: Vec<u8>,
}

/// The mathematical value of a [`TestStream`].
#[verifier::ext_equal]
pub struct TestStreamView {
    pub data: Seq<u8>,
    pub read: nat,
    pub chunk_size: Option<usize>,
    pub written: Seq<u8>,
}

impl View for TestStream {
    type V = TestStreamView;

    closed spec fn view(&self) -> TestStreamView {
        TestStreamView {
            data: self.data@,
            read: self.read as nat,
            chunk_size: self.chunk_size,
            written: self.written@,
        }
    }
}

impl TestStreamView {
    /// The count of bytes read and the bytes left fit a `usize` together.
    pub open spec fn wf(self) -> bool {
        self.read + self.data.len() <= usize::MAX
    }

    /// How many bytes the next read hands out.
    pub open spec fn next_chunk_len(self) -> nat {
        match self.chunk_size {
            Some(c) => if c < self.data.len() {
                c as nat
            } else {
                self.data.len()
            },
            None => self.data.len(),
        }
    }
}

impl TestStream {
    /// A stream that will hand out `data`, unchunked, with nothing written.
    pub fn new(data: Vec<u8>) -> (r: Self)
        ensures
            r@ == (TestStreamView { data: data@, read: 0, chunk_size: None, written: Seq::empty() }),
            r@.wf(),
    {
        let _n = data.len();
        Self { data, read: 0, chunk_size: None, written: Vec::new() }
    }

    /// The bytes not handed out yet.
    pub fn remaining(&self) -> (r: &[u8])
        ensures
            r@ == self@.data,
    {
        self.data.as_slice()
    }

    /// How many bytes were handed out so far.
    pub fn read_count(&self) -> (r: usize)
        ensures
            r == self@.read,
    {
        self.read
    }

    /// Hands out the next chunk: at most `chunk_size` of the remaining bytes
    /// (all of them when unchunked).
    pub fn read_chunk(&mut self) -> (r: Vec<u8>)
        requires
            old(self)@.wf(),
        ensures
            r@ == old(self)@.data.take(old(self)@.next_chunk_len() as int),
            final(self)@ == (TestStreamView {
                data: old(self)@.data.skip(old(self)@.next_chunk_len() as int),
                read: old(self)@.read + old(self)@.next_chunk_len(),
                ..old(self)@
            }),
            final(self)@.wf(),
    {
        let to_write = match self.chunk_size {
            Some(c) => if c < self.data.len() {
                c
            } else {
                self.data.len()
            },
            None => self.data.len(),
        };
        let mut chunk = self.data.split_off(to_write);
        std::mem::swap(&mut self.data, &mut chunk);
        self.read = self.read + to_write;
        chunk
    }

    /// Records `buf` as written; returns how many bytes were taken (all).
    pub fn write(&mut self, buf: &[u8]) -> (r: usize)
        ensures
            r == buf@.len(),
            final(self)@ == (TestStreamView { written: old(self)@.written + buf@, ..old(self)@ }),
    {
        let ghost before = self.written@;
        self.written.extend_from_slice(buf);
        assert(self.written@ =~= before + buf@);
        buf.len()
    }
}

/// Builds a [`TestStream`].
pub struct StreamBuilder {
    stream: TestStream,
}

impl StreamBuilder {
    /// A builder of an unchunked stream that hands out `data`.
    pub fn new(data: Vec<u8>) -> (r: Self)
        ensures
            r.spec_stream() == (TestStreamView { data: data@, read: 0, chunk_size: None, written: Seq::empty() }),
    {
        Self { stream: TestStream::new(data) }
    }

    /// The stream being built.
    pub closed spec fn spec_stream(&self) -> TestStreamView {
        self.stream@
    }

    /// Makes each read hand out at most `chunk_size` bytes.
    pub fn chunked(&mut self, chunk_size: usize) -> (r: &Self)
        ensures
            final(self).spec_stream() == (TestStreamView { chunk_size: Some(chunk_size), ..old(self).spec_stream() }),
            r.spec_stream() == final(self).spec_stream(),
    {
        self.stream.chunk_size = Some(chunk_size);
        self
    }

    /// The built stream.
    pub fn build(self) -> (r: TestStream)
        ensures
            r@ == self.spec_stream(),
    {
        self.stream
    }
}

} // verus!
