//! A stream that never has data.

use vstd::prelude::*;
use crate::error::{again, spec_is_again, Error};
use crate::reactor::{Action, Disk};
use crate::stream::{base, only_appended, ByteStreamBody};

verus! {

/// Every non-trivial read asks to try again later.
pub struct Stream {
    base: base::StreamBody,
}

impl Stream {
    pub fn new(disk: &mut Disk) -> (s: Stream)
        requires
            old(disk).wf(),
        ensures
            final(disk).wf(),
            only_appended(*old(disk), *final(disk)),
            s.inv(),
            s.delivered() == Seq::<u8>::empty(),
    {
        Stream { base: base::StreamBody::new(disk) }
    }
}

impl ByteStreamBody for Stream {
    closed spec fn delivered(&self) -> Seq<u8> {
        Seq::empty()
    }

    closed spec fn inv(&self) -> bool {
        true
    }

    closed spec fn remaining(&self) -> Option<Seq<u8>> {
        None
    }

    fn read(&mut self, disk: &mut Disk, buf: &mut [u8]) -> (r: Result<usize, Error>)
        ensures
            old(buf)@.len() > 0 ==> (r matches Err(e) && spec_is_again(e)),
            *final(disk) == *old(disk),
    {
        if buf.len() == 0 {
            assert(buf@.take(0) =~= Seq::<u8>::empty());
            return Ok(0);
        }
        Err(again())
    }

    fn register_callback(&mut self, disk: &mut Disk, callback: Action) {
        self.base.register_callback(disk, callback);
    }

    fn unregister_callback(&mut self) {
        self.base.unregister_callback();
    }
}

} // verus!
