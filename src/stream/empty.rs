//! A stream that is at its end from the start.

use vstd::prelude::*;
use crate::error::Error;
use crate::reactor::{Action, Disk};
use crate::stream::{base, only_appended, ByteStreamBody};

verus! {

/// Every read reports end of stream.
pub struct Stream {
    base: base::StreamBody,
}

impl Stream {
    pub fn new(disk: &mut Disk) -> (s: Stream)
        requires
            old(disk).wf(),
        ensures
            final(disk).wf(),
            only_appended(*old(disk), *final(disk)),
            s.inv(),
            s.delivered() == Seq::<u8>::empty(),
    {
        Stream { base: base::StreamBody::new(disk) }
    }

    /// Reads from an empty stream return `Ok(0)`.
    pub fn read_empty(&mut self, disk: &mut Disk, buf: &mut [u8]) -> (r: Result<usize, Error>)
        requires
            old(disk).wf(),
        ensures
            r == Ok::<usize, Error>(0),
            *final(disk) == *old(disk),
            final(buf)@ == old(buf)@,
    {
        self.read(disk, buf)
    }
}

impl ByteStreamBody for Stream {
    closed spec fn delivered(&self) -> Seq<u8> {
        Seq::empty()
    }

    closed spec fn inv(&self) -> bool {
        true
    }

    closed spec fn remaining(&self) -> Option<Seq<u8>> {
        Some(Seq::empty())
    }

    fn read(&mut self, disk: &mut Disk, buf: &mut [u8]) -> (r: Result<usize, Error>)
        ensures
            r == Ok::<usize, Error>(0),
            final(buf)@ == old(buf)@,
            *final(disk) == *old(disk),
    {
        assert(buf@.take(0) =~= Seq::<u8>::empty());
        Ok(0)
    }

    fn register_callback(&mut self, disk: &mut Disk, callback: Action) {
        self.base.register_callback(disk, callback);
    }

    fn unregister_callback(&mut self) {
        self.base.unregister_callback();
    }
}

} // verus!
