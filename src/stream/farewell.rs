//! A transparent stream that says farewell when it is closed.

use vstd::prelude::*;
use crate::error::Error;
use crate::reactor::{Action, Disk, Task, TimerEntry};
use crate::stream::{base, lemma_has_run_kept, lemma_only_appended_trans, only_appended, ByteStreamBody};

verus! {

/// Passes reads through; closing it schedules the farewell action.
pub struct Stream<W: ByteStreamBody> {
    base: base::StreamBody,
    wrappee: W,
    farewell_callback: Option<Action>,
    start: Ghost<nat>,
}

impl<W: ByteStreamBody> Stream<W> {
    pub closed spec fn source(&self) -> W {
        self.wrappee
    }

    pub closed spec fn origin(&self) -> nat {
        self.start@
    }

    pub closed spec fn farewell(&self) -> Option<Action> {
        self.farewell_callback
    }

    pub fn new(disk: &mut Disk, wrappee: W) -> (s: Stream<W>)
        requires
            old(disk).wf(),
            wrappee.inv(),
        ensures
            final(disk).wf(),
            only_appended(*old(disk), *final(disk)),
            s.inv(),
            s.source() == wrappee,
            s.farewell() is None,
            s.delivered() == Seq::<u8>::empty(),
    {
        let ghost start = wrappee.delivered().len();
        let s = Stream { base: base::StreamBody::new(disk), wrappee, farewell_callback: None, start: Ghost(start) };
        assert(s.wrappee.delivered().skip(start as int) =~= Seq::<u8>::empty());
        s
    }

    pub fn register_farewell_callback(&mut self, callback: Action)
        ensures
            final(self).farewell() == Some(callback),
            final(self).source() == old(self).source(),
            final(self).delivered() == old(self).delivered(),
            final(self).inv() == old(self).inv(),
    {
        self.farewell_callback = Some(callback);
    }

    pub fn unregister_farewell_callback(&mut self)
        ensures
            final(self).farewell() is None,
            final(self).source() == old(self).source(),
            final(self).delivered() == old(self).delivered(),
            final(self).inv() == old(self).inv(),
    {
        self.farewell_callback = None;
    }

    /// Drops the stream, scheduling the farewell action if one is set; the
    /// wrappee is handed back.
    pub fn close(self, disk: &mut Disk) -> (w: W)
        requires
            old(disk).wf(),
        ensures
            final(disk).wf(),
            w == self.source(),
            only_appended(*old(disk), *final(disk)),
            match self.farewell() {
                Some(cb) => old(disk).next_id() < u64::MAX ==> final(disk).pending() == old(disk).pending().push(
                    TimerEntry {
                        uid: old(disk).next_id(),
                        expires: old(disk).recent_instant(),
                        task: Task::Run(cb),
                        canceled: false,
                    },
                ),
                None => *final(disk) == *old(disk),
            },
    {
        match self.farewell_callback {
            Some(cb) => {
                disk.execute(cb);
                assert(disk.pending().take(old(disk).pending().len() as int) =~= old(disk).pending());
            },
            None => {
                assert(disk.pending().take(old(disk).pending().len() as int) =~= old(disk).pending());
            },
        }
        self.wrappee
    }

    /// The stream hands out exactly what its wrappee delivered since the
    /// stream took it over.
    pub proof fn lemma_pass_through(&self)
        requires
            self.inv(),
        ensures
            self.delivered() == self.source().delivered().skip(self.origin() as int),
            self.origin() <= self.source().delivered().len(),
    {
    }
}

impl<W: ByteStreamBody> ByteStreamBody for Stream<W> {
    closed spec fn delivered(&self) -> Seq<u8> {
        self.wrappee.delivered().skip(self.start@ as int)
    }

    closed spec fn inv(&self) -> bool {
        &&& self.wrappee.inv()
        &&& self.start@ <= self.wrappee.delivered().len()
    }

    /// What the wrappee will still hand out.
    closed spec fn remaining(&self) -> Option<Seq<u8>> {
        self.wrappee.remaining()
    }

    fn read(&mut self, disk: &mut Disk, buf: &mut [u8]) -> (r: Result<usize, Error>) {
        if buf.len() == 0 {
            assert(buf@.take(0) =~= Seq::<u8>::empty());
            return Ok(0);
        }
        let ghost d0 = self.wrappee.delivered();
        let r = self.wrappee.read(disk, buf);
        match r {
            Ok(n) => {
                assert((d0 + buf@.take(n as int)).skip(self.start@ as int) =~= d0.skip(self.start@ as int) + buf@.take(
                    n as int,
                ));
            },
            Err(_) => {},
        }
        r
    }

    fn register_callback(&mut self, disk: &mut Disk, callback: Action) {
        let ghost d0 = *disk;
        self.base.register_callback(disk, callback);
        let ghost d1 = *disk;
        self.wrappee.register_callback(disk, callback);
        proof {
            lemma_only_appended_trans(d0, d1, *disk);
            if d0.next_id() < u64::MAX {
                lemma_has_run_kept(d1, *disk, callback);
            }
        }
    }

    fn unregister_callback(&mut self) {
        self.base.unregister_callback();
        self.wrappee.unregister_callback();
    }
}

} // verus!
