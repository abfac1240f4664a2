//! A stream that serves the bytes of a vector.

use vstd::prelude::*;
use crate::error::Error;
use crate::reactor::{Action, Disk};
use crate::stream::{base, only_appended, ByteStreamBody};

verus! {

/// Serves `blob` from a cursor; end of stream at its end.
pub struct Stream {
    base: base::StreamBody,
    blob: Vec<u8>,
    cursor: usize,
    sent: Ghost<Seq<u8>>,
}

impl Stream {
    /// The bytes the stream serves.
    pub closed spec fn data(&self) -> Seq<u8> {
        self.blob@
    }

    /// How many bytes were served.
    pub closed spec fn position(&self) -> nat {
        self.cursor as nat
    }

    pub fn new(disk: &mut Disk, blob: Vec<u8>) -> (s: Stream)
        requires
            old(disk).wf(),
        ensures
            final(disk).wf(),
            only_appended(*old(disk), *final(disk)),
            s.inv(),
            s.data() == blob@,
            s.position() == 0,
            s.delivered() == Seq::<u8>::empty(),
    {
        let base = base::StreamBody::new(disk);
        let s = Stream { base, blob, cursor: 0, sent: Ghost(Seq::empty()) };
        assert(s.blob@.take(0) =~= Seq::<u8>::empty());
        s
    }
}

impl Stream {
    /// The blob hands out its bytes in order.
    pub proof fn lemma_content(&self)
        requires
            self.inv(),
        ensures
            self.position() <= self.data().len(),
            self.delivered() == self.data().take(self.position() as int),
            self.remaining() == Some(self.data().skip(self.position() as int)),
    {
    }
}

impl ByteStreamBody for Stream {
    closed spec fn delivered(&self) -> Seq<u8> {
        self.sent@
    }

    closed spec fn inv(&self) -> bool {
        &&& self.cursor <= self.blob@.len()
        &&& self.sent@ == self.blob@.take(self.cursor as int)
    }

    closed spec fn remaining(&self) -> Option<Seq<u8>> {
        Some(self.blob@.skip(self.cursor as int))
    }

    fn read(&mut self, disk: &mut Disk, buf: &mut [u8]) -> (r: Result<usize, Error>)
        ensures
            final(self).data() == old(self).data(),
            r == Ok::<usize, Error>(
                if old(buf)@.len() < old(self).data().len() - old(self).position() {
                    old(buf)@.len() as usize
                } else {
                    (old(self).data().len() - old(self).position()) as usize
                },
            ),
            final(self).position() == old(self).position() + r->Ok_0,
            final(buf)@.take(r->Ok_0 as int) == old(self).data().subrange(
                old(self).position() as int,
                old(self).position() + r->Ok_0,
            ),
            *final(disk) == *old(disk),
    {
        if buf.len() == 0 {
            return Ok(0);
        }
        let remaining = self.blob.len() - self.cursor;
        assert(self.blob@.len() <= usize::MAX);
        let count = if buf.len() < remaining { buf.len() } else { remaining };
        let start = self.cursor;
        let mut i: usize = 0;
        while i < count
            invariant
                start == self.cursor,
                remaining == self.blob@.len() - start,
                self.blob@.len() <= usize::MAX,
                start + count <= self.blob@.len(),
                count <= buf@.len(),
                buf@.len() == old(buf)@.len(),
                i <= count,
                forall|k: int| 0 <= k < i ==> buf@[k] == self.blob@[start + k],
            decreases count - i,
        {
            buf[i] = self.blob[start + i];
            i = i + 1;
        }
        self.cursor = start + count;
        assert(self.blob@.take(self.cursor as int) =~= self.blob@.take(start as int) + buf@.take(count as int));
        self.sent = Ghost(self.sent@ + buf@.take(count as int));
        assert(self.blob@.skip(start as int) =~= buf@.take(count as int) + self.blob@.skip(self.cursor as int));
        Ok(count)
    }

    fn register_callback(&mut self, disk: &mut Disk, callback: Action) {
        self.base.register_callback(disk, callback);
    }

    fn unregister_callback(&mut self) {
        self.base.unregister_callback();
    }
}

} // verus!
