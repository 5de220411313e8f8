//! The byte reader: an in-memory byte cursor with exactly one byte of
//! pushback and a line counter.  Its whole behaviour is specified over
//! [`JsonReader::remaining`], the sequence of bytes still to be read.

use vstd::prelude::*;

use crate::events::Error;

verus! {

/// A byte cursor over a buffer, with at most one pushed-back byte and a
/// monotonically increasing line counter (incremented on `\n`).
pub struct JsonReader {
    data: Vec<u8>,
    pos: usize,
    tmp: Option<u8>,
    line: usize,
}

impl JsonReader {
    /// The cursor never runs past the buffer, and the line counter is bounded
    /// by the number of bytes consumed (so it can always be incremented).
    pub closed spec fn wf(&self) -> bool {
        self.pos <= self.data@.len() && self.line <= self.pos
    }

    /// The bytes still to be read: the pushed-back byte, if any, followed by
    /// the unread part of the buffer.
    pub closed spec fn remaining(&self) -> Seq<u8> {
        match self.tmp {
            Some(c) => seq![c] + self.data@.skip(self.pos as int),
            None => self.data@.skip(self.pos as int),
        }
    }

    /// Whether a pushed-back byte is pending.
    pub closed spec fn has_pushback(&self) -> bool {
        self.tmp is Some
    }

    pub fn new(data: Vec<u8>) -> (r: JsonReader)
        ensures
            r.wf(),
            r.remaining() == data@,
            !r.has_pushback(),
    {
        let r = JsonReader { data, pos: 0, tmp: None, line: 0 };
        proof {
            assert(r.remaining() =~= r.data@);
        }
        r
    }

    /// Read the next byte, or `None` at end of input.  The pushed-back byte,
    /// if any, is replayed first.
    pub fn next(&mut self) -> (r: Option<u8>)
        requires
            old(self).wf(),
        ensures
            final(self).wf(),
            !final(self).has_pushback(),
            old(self).remaining().len() == 0 ==> r is None && final(self).remaining() == old(
                self,
            ).remaining(),
            old(self).remaining().len() > 0 ==> r == Some(old(self).remaining()[0])
                && final(self).remaining() == old(self).remaining().skip(1),
    {
        if let Some(c) = self.tmp {
            self.tmp = None;
            proof {
                assert(old(self).remaining() =~= seq![c] + self.remaining());
                assert(self.remaining() =~= old(self).remaining().skip(1));
            }
            return Some(c);
        }
        if self.pos == self.data.len() {
            return None;
        }
        let c = self.data[self.pos];
        self.pos = self.pos + 1;
        if c == 10 {
            self.line = self.line + 1;
        }
        proof {
            assert(old(self).remaining()[0] == c);
            assert(self.remaining() =~= old(self).remaining().skip(1));
        }
        Some(c)
    }

    /// Read the next byte, failing with an end-of-input error if the input is
    /// exhausted.
    pub fn next_must(&mut self) -> (r: Result<u8, Error>)
        requires
            old(self).wf(),
        ensures
            final(self).wf(),
            !final(self).has_pushback(),
            old(self).remaining().len() == 0 ==> r == Err::<u8, Error>(Error::Eof)
                && final(self).remaining() == old(self).remaining(),
            old(self).remaining().len() > 0 ==> r == Ok::<u8, Error>(old(self).remaining()[0])
                && final(self).remaining() == old(self).remaining().skip(1),
    {
        match self.next() {
            Some(c) => Ok(c),
            None => Err(Error::Eof),
        }
    }

    /// Store one byte to be replayed by the next read.  At most one byte may
    /// be pending at a time; the grammar never needs more than one byte of
    /// lookahead, and every call site discharges this obligation statically.
    pub fn push_back(&mut self, c: u8)
        requires
            old(self).wf(),
            !old(self).has_pushback(),
        ensures
            final(self).wf(),
            final(self).has_pushback(),
            final(self).remaining() == seq![c] + old(self).remaining(),
    {
        self.tmp = Some(c);
    }

    /// Append bytes matching `f` to `buf` until a byte that does not match is
    /// read; that byte is pushed back and the count of consumed bytes is
    /// returned.  Reaching end of input before any non-matching byte is an
    /// end-of-input error.  `p` is the predicate that `f` decides.
    pub fn take_while<F: Fn(u8) -> bool>(
        &mut self,
        buf: &mut Vec<u8>,
        f: F,
        Ghost(p): Ghost<spec_fn(u8) -> bool>,
    ) -> (r: Result<usize, Error>)
        requires
            old(self).wf(),
            forall|c: u8| #[trigger] f.requires((c,)),
            forall|c: u8, b: bool| #[trigger] f.ensures((c,), b) ==> b == p(c),
        ensures
            final(self).wf(),
            match r {
                Ok(n) => {
                    &&& n < old(self).remaining().len()
                    &&& forall|i: int| 0 <= i < n ==> p(#[trigger] old(self).remaining()[i])
                    &&& !p(old(self).remaining()[n as int])
                    &&& final(buf)@ == old(buf)@ + old(self).remaining().take(n as int)
                    &&& final(self).remaining() == old(self).remaining().skip(n as int)
                },
                Err(e) => {
                    &&& e == Error::Eof
                    &&& forall|i: int|
                        0 <= i < old(self).remaining().len() ==> p(
                            #[trigger] old(self).remaining()[i],
                        )
                },
            },
    {
        let ghost rem0 = self.remaining();
        let ghost buf0 = buf@;
        let mut n: usize = 0;
        loop
            invariant
                rem0 == old(self).remaining(),
                buf0 == old(buf)@,
                self.wf(),
                forall|c: u8| #[trigger] f.requires((c,)),
                forall|c: u8, b: bool| #[trigger] f.ensures((c,), b) ==> b == p(c),
                n <= rem0.len(),
                forall|i: int| 0 <= i < n ==> p(#[trigger] rem0[i]),
                buf@ == buf0 + rem0.take(n as int),
                self.remaining() == rem0.skip(n as int),
            decreases rem0.len() - n,
        {
            match self.next() {
                Some(c) => {
                    proof {
                        assert(rem0.skip(n as int)[0] == rem0[n as int]);
                    }
                    if f(c) {
                        buf.push(c);
                        let l = buf.len();
                        proof {
                            assert(l == buf0.len() + n + 1);
                        }
                        n = n + 1;
                        proof {
                            assert(buf@ =~= buf0 + rem0.take(n as int));
                            assert(self.remaining() =~= rem0.skip(n as int));
                        }
                    } else {
                        self.push_back(c);
                        proof {
                            assert(self.remaining() =~= rem0.skip(n as int));
                        }
                        return Ok(n);
                    }
                },
                None => {
                    return Err(Error::Eof);
                },
            }
        }
    }
}

} // verus!
