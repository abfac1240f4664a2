//! A stream of zero bytes without end.

use vstd::prelude::*;
use crate::error::Error;
use crate::reactor::{Action, Disk};
use crate::stream::{base, only_appended, ByteStreamBody};

verus! {

/// Fills every read with zeros.
pub struct Stream {
    base: base::StreamBody,
    sent: Ghost<Seq<u8>>,
}

impl Stream {
    pub fn new(disk: &mut Disk) -> (s: Stream)
        requires
            old(disk).wf(),
        ensures
            final(disk).wf(),
            only_appended(*old(disk), *final(disk)),
            s.inv(),
            s.delivered() == Seq::<u8>::empty(),
    {
        Stream { base: base::StreamBody::new(disk), sent: Ghost(Seq::empty()) }
    }
}

impl ByteStreamBody for Stream {
    closed spec fn delivered(&self) -> Seq<u8> {
        self.sent@
    }

    /// Everything delivered is zero.
    closed spec fn inv(&self) -> bool {
        forall|i: int| 0 <= i < self.sent@.len() ==> self.sent@[i] == 0
    }

    closed spec fn remaining(&self) -> Option<Seq<u8>> {
        None
    }

    fn read(&mut self, disk: &mut Disk, buf: &mut [u8]) -> (r: Result<usize, Error>)
        ensures
            r == Ok::<usize, Error>(old(buf)@.len() as usize),
            forall|i: int| 0 <= i < final(buf)@.len() ==> final(buf)@[i] == 0,
            *final(disk) == *old(disk),
    {
        if buf.len() == 0 {
            return Ok(0);
        }
        let mut i: usize = 0;
        while i < buf.len()
            invariant
                i <= buf@.len(),
                buf@.len() == old(buf)@.len(),
                forall|k: int| 0 <= k < i ==> buf@[k] == 0,
            decreases buf@.len() - i,
        {
            buf[i] = 0;
            i = i + 1;
        }
        let ghost s0 = self.sent@;
        self.sent = Ghost(self.sent@ + buf@.take(buf@.len() as int));
        assert forall|k: int| 0 <= k < self.sent@.len() implies self.sent@[k] == 0 by {
            if k >= s0.len() {
                assert(self.sent@[k] == buf@[k - s0.len()]);
            }
        }
        Ok(buf.len())
    }

    fn register_callback(&mut self, disk: &mut Disk, callback: Action) {
        self.base.register_callback(disk, callback);
    }

    fn unregister_callback(&mut self) {
        self.base.unregister_callback();
    }
}

} // verus!
