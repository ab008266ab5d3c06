//! Seekable byte streams.
//!
//! The extractor reads and writes scattered regions of images through a
//! small capability interface: a stream has contents, a cursor, and a
//! capacity past which it will not grow.  [`MemoryStream`] is the verified
//! in-memory implementation; file-backed implementations live outside the
//! library and are given the same contract.

use vstd::prelude::*;

use crate::errors::StreamError;

verus! {

/// How many bytes a read of `count` bytes yields on a stream of length
/// `len` positioned at `p`: reads are maximal but stop at end of stream.
pub open spec fn read_amount(len: int, p: int, count: int) -> int {
    if p >= len {
        0
    } else if count <= len - p {
        count
    } else {
        len - p
    }
}

/// How many bytes a write of `count` bytes consumes on a stream with
/// capacity `cap` positioned at `p`: writes are maximal but a stream
/// never grows beyond its capacity.
pub open spec fn write_amount(cap: int, p: int, count: int) -> int {
    if p >= cap {
        0
    } else if count <= cap - p {
        count
    } else {
        cap - p
    }
}

/// The bytes a maximal read of `count` bytes returns: the segment of `c`
/// starting at `p`, clipped to the end of `c`.
pub open spec fn seg(c: Seq<u8>, p: int, count: int) -> Seq<u8> {
    if p < 0 || p > c.len() || count < 0 {
        Seq::empty()
    } else {
        c.subrange(p, p + read_amount(c.len() as int, p, count))
    }
}

/// The contents of a stream after `w` is written at position `p`:
/// bytes before `p` are kept, a gap between the old end and `p` reads
/// as zeros, and the stream grows only as far as the write reaches.
/// Writing nothing leaves the contents untouched.
pub open spec fn write_to(c: Seq<u8>, p: int, w: Seq<u8>) -> Seq<u8> {
    if w.len() == 0 {
        c
    } else {
        let n = if c.len() >= p + w.len() {
            c.len() as int
        } else {
            p + w.len()
        };
        Seq::new(
            n as nat,
            |i: int|
                if p <= i < p + w.len() {
                    w[i - p]
                } else if 0 <= i < c.len() {
                    c[i]
                } else {
                    0u8
                },
        )
    }
}

/// Two consecutive contiguous writes are one write of the
/// concatenation.
pub proof fn lemma_write_to_app(c: Seq<u8>, p: int, u: Seq<u8>, v: Seq<u8>)
    requires
        0 <= p,
    ensures
        write_to(c, p, u + v) == write_to(write_to(c, p, u), p + u.len(), v),
{
    if u.len() == 0 {
        assert(u + v =~= v);
        assert(write_to(c, p, u + v) =~= write_to(write_to(c, p, u), p + u.len(), v));
    } else if v.len() == 0 {
        assert(u + v =~= u);
        assert(write_to(c, p, u + v) =~= write_to(write_to(c, p, u), p + u.len(), v));
    } else {
        assert(write_to(c, p, u + v) =~= write_to(write_to(c, p, u), p + u.len(), v));
    }
}

/// A seekable byte stream: the base capability shared by readers and
/// writers.
///
/// `contents` is the byte sequence the stream holds, `pos` the cursor,
/// and `capacity` the length past which the contents cannot grow.  An
/// `infallible` stream never returns an error; failures of fallible
/// streams carry a [`StreamError`] whose code the library preserves.
pub trait StreamBase: Sized {
    spec fn contents(&self) -> Seq<u8>;

    spec fn pos(&self) -> int;

    spec fn capacity(&self) -> int;

    spec fn infallible(&self) -> bool;

    proof fn lemma_stream_bounds(&self)
        ensures
            0 <= self.pos() <= usize::MAX,
            self.contents().len() <= self.capacity(),
            0 <= self.capacity() <= usize::MAX,
    ;

    /// The current cursor position.
    fn cur_pos(&self) -> (r: usize)
        ensures
            r == self.pos(),
    ;

    /// Moves the cursor to the absolute position `p`, which may lie past
    /// the end of the contents.
    fn seek_start(&mut self, p: usize) -> (r: Result<(), StreamError>)
        ensures
            final(self).contents() == old(self).contents(),
            final(self).capacity() == old(self).capacity(),
            final(self).infallible() == old(self).infallible(),
            r is Ok ==> final(self).pos() == p,
            r is Err ==> !old(self).infallible() && final(self).pos() == old(self).pos(),
    ;

    /// Moves the cursor to the end of the contents and reports the
    /// stream length.
    fn stream_end(&mut self) -> (r: Result<usize, StreamError>)
        ensures
            final(self).contents() == old(self).contents(),
            final(self).capacity() == old(self).capacity(),
            final(self).infallible() == old(self).infallible(),
            match r {
                Ok(v) => v == old(self).contents().len() && final(self).pos() == v,
                Err(_) => !old(self).infallible() && final(self).pos() == old(self).pos(),
            },
    ;

    /// Flushes buffered writes; the stream model is unchanged.
    fn flush_stream(&mut self) -> (r: Result<(), StreamError>)
        ensures
            final(self).contents() == old(self).contents(),
            final(self).capacity() == old(self).capacity(),
            final(self).infallible() == old(self).infallible(),
            final(self).pos() == old(self).pos(),
            r is Err ==> !old(self).infallible(),
    ;
}

/// A stream that can be read: reads are maximal, return exactly the
/// segment of the contents at the cursor, and advance the cursor.
pub trait ReadStream: StreamBase {
    fn read_chunk(&mut self, count: usize) -> (r: Result<Vec<u8>, StreamError>)
        ensures
            final(self).contents() == old(self).contents(),
            final(self).capacity() == old(self).capacity(),
            final(self).infallible() == old(self).infallible(),
            match r {
                Ok(v) => v@ == seg(old(self).contents(), old(self).pos(), count as int)
                    && final(self).pos() == old(self).pos() + v@.len(),
                Err(_) => !old(self).infallible() && final(self).pos() == old(self).pos(),
            },
    ;
}

/// A stream that can be written: writes are maximal up to the capacity,
/// splice the buffer into the contents at the cursor, and advance the
/// cursor.  A gap between the old end of the contents and the cursor is
/// filled with zeros.
pub trait WriteStream: StreamBase {
    fn write_chunk(&mut self, buf: &[u8]) -> (r: Result<usize, StreamError>)
        ensures
            final(self).capacity() == old(self).capacity(),
            final(self).infallible() == old(self).infallible(),
            match r {
                Ok(n) => n == write_amount(old(self).capacity(), old(self).pos(), buf@.len() as int)
                    && final(self).contents() == write_to(
                        old(self).contents(),
                        old(self).pos(),
                        buf@.take(n as int),
                    )
                    && final(self).pos() == old(self).pos() + n,
                Err(_) => !old(self).infallible(),
            },
    ;
}

/// An in-memory seekable stream over a byte vector.
///
/// A growable stream behaves like a fresh output file: writing past the
/// end extends it.  A fixed stream behaves like a buffer of set size:
/// writes stop at the end of the buffer.
pub struct MemoryStream {
    data: Vec<u8>,
    pos: usize,
    fixed: bool,
}

impl MemoryStream {
    /// A stream over `data` that may grow when written past its end.
    pub fn new_growable(data: Vec<u8>) -> (s: Self)
        ensures
            s.contents() == data@,
            s.pos() == 0,
            s.capacity() == usize::MAX,
            s.infallible(),
    {
        MemoryStream { data, pos: 0, fixed: false }
    }

    /// A stream over `data` whose length never changes.
    pub fn new_fixed(data: Vec<u8>) -> (s: Self)
        ensures
            s.contents() == data@,
            s.pos() == 0,
            s.capacity() == data@.len(),
            s.infallible(),
    {
        MemoryStream { data, pos: 0, fixed: true }
    }

    /// Hands the underlying bytes back.
    pub fn into_inner(self) -> (r: Vec<u8>)
        ensures
            r@ == self.contents(),
    {
        self.data
    }
}

impl StreamBase for MemoryStream {
    closed spec fn contents(&self) -> Seq<u8> {
        self.data@
    }

    closed spec fn pos(&self) -> int {
        self.pos as int
    }

    closed spec fn capacity(&self) -> int {
        if self.fixed {
            self.data@.len() as int
        } else {
            usize::MAX as int
        }
    }

    closed spec fn infallible(&self) -> bool {
        true
    }

    proof fn lemma_stream_bounds(&self) {
        broadcast use vstd::std_specs::vec::axiom_spec_len;

        assert(vstd::std_specs::vec::spec_vec_len(&self.data) == self.data@.len());
    }

    fn cur_pos(&self) -> (r: usize) {
        self.pos
    }

    fn seek_start(&mut self, p: usize) -> (r: Result<(), StreamError>) {
        self.pos = p;
        Ok(())
    }

    fn stream_end(&mut self) -> (r: Result<usize, StreamError>) {
        self.pos = self.data.len();
        Ok(self.pos)
    }

    fn flush_stream(&mut self) -> (r: Result<(), StreamError>) {
        Ok(())
    }
}

impl ReadStream for MemoryStream {
    fn read_chunk(&mut self, count: usize) -> (r: Result<Vec<u8>, StreamError>) {
        let len = self.data.len();
        if self.pos >= len {
            return Ok(Vec::new());
        }
        let avail = len - self.pos;
        let n = if count <= avail {
            count
        } else {
            avail
        };
        let mut v: Vec<u8> = Vec::new();
        let mut i: usize = 0;
        while i < n
            invariant
                i <= n,
                self == old(self),
                n == read_amount(self.data@.len() as int, self.pos as int, count as int),
                self.pos + n <= self.data@.len() <= len,
                v@ == self.data@.subrange(self.pos as int, self.pos + i),
            decreases n - i,
        {
            v.push(self.data[self.pos + i]);
            i += 1;
            proof {
                assert(v@ =~= self.data@.subrange(self.pos as int, self.pos + i));
            }
        }
        proof {
            assert(v@ =~= seg(self.data@, self.pos as int, count as int));
        }
        self.pos = self.pos + n;
        Ok(v)
    }
}

impl WriteStream for MemoryStream {
    fn write_chunk(&mut self, buf: &[u8]) -> (r: Result<usize, StreamError>) {
        let ghost old_self = *self;
        let cap = if self.fixed {
            self.data.len()
        } else {
            usize::MAX
        };
        let n = if self.pos >= cap {
            0
        } else if buf.len() <= cap - self.pos {
            buf.len()
        } else {
            cap - self.pos
        };
        if n == 0 {
            proof {
                assert(buf@.take(0) =~= Seq::<u8>::empty());
                assert(write_to(self.data@, self.pos as int, buf@.take(0)) == self.data@);
            }
            return Ok(0);
        }
        while self.data.len() < self.pos
            invariant
                self.pos == old_self.pos,
                self.fixed == old_self.fixed,
                old_self.data@.len() <= self.data@.len(),
                self.data@.len() <= self.pos || self.data@.len() == old_self.data@.len(),
                self.data@ == old_self.data@ + Seq::new(
                    (self.data@.len() - old_self.data@.len()) as nat,
                    |j: int| 0u8,
                ),
            decreases self.pos - self.data@.len(),
        {
            self.data.push(0);
            proof {
                assert(self.data@ =~= old_self.data@ + Seq::new(
                    (self.data@.len() - old_self.data@.len()) as nat,
                    |j: int| 0u8,
                ));
            }
        }
        let ghost padded = self.data@;
        let mut i: usize = 0;
        while i < n
            invariant
                i <= n,
                0 < n,
                self.pos == old_self.pos,
                self.fixed == old_self.fixed,
                self.pos + n <= cap,
                n <= buf@.len(),
                padded.len() >= self.pos,
                padded.len() >= old_self.data@.len(),
                self.data@.len() == (if padded.len() >= self.pos + i { padded.len() as int } else {
                    self.pos + i
                }),
                forall|j: int|
                    0 <= j < self.data@.len() ==> self.data@[j] == (if self.pos <= j < self.pos + i {
                        buf@[j - self.pos]
                    } else if j < padded.len() {
                        padded[j]
                    } else {
                        0u8
                    }),
            decreases n - i,
        {
            let idx = self.pos + i;
            if idx < self.data.len() {
                self.data[idx] = buf[i];
            } else {
                self.data.push(buf[i]);
            }
            i += 1;
        }
        proof {
            lemma_write_chunk_shape(old_self.data@, padded, self.data@, self.pos as int, buf@, n as int);
        }
        self.pos = self.pos + n;
        Ok(n)
    }
}

/// Relates the padded-then-overwritten vector shape built by
/// `write_chunk` to the `write_to` model.
proof fn lemma_write_chunk_shape(
    orig: Seq<u8>,
    padded: Seq<u8>,
    data: Seq<u8>,
    p: int,
    w: Seq<u8>,
    n: int,
)
    requires
        0 < n <= w.len(),
        0 <= p,
        padded.len() >= p || padded == orig,
        orig.len() <= p ==> padded.len() == (if orig.len() < p { p } else { orig.len() as int }),
        orig.len() > p ==> padded == orig,
        padded.len() >= orig.len(),
        forall|j: int| 0 <= j < orig.len() ==> padded[j] == orig[j],
        forall|j: int| orig.len() <= j < padded.len() ==> padded[j] == 0u8,
        data.len() == (if padded.len() >= p + n { padded.len() as int } else { p + n }),
        forall|j: int|
            0 <= j < data.len() ==> data[j] == (if p <= j < p + n {
                w[j - p]
            } else if j < padded.len() {
                padded[j]
            } else {
                0u8
            }),
    ensures
        data == write_to(orig, p, w.take(n)),
{
    assert(data =~= write_to(orig, p, w.take(n)));
}

} // verus!
