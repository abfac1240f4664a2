//! A stream that yields to the reactor after a burst of bytes.

use vstd::prelude::*;
use crate::error::{again, spec_is_again, Error};
use crate::reactor::{Action, Disk};
use crate::stream::{base, lemma_has_run_kept, lemma_only_appended_trans, only_appended, ByteStreamBody};

verus! {

/// Passes bytes through; after `max_burst` bytes it answers "again" once
/// and re-notifies itself, so that other work gets a turn.
pub struct Stream<W: ByteStreamBody> {
    base: base::StreamBody,
    wrappee: W,
    max_burst: usize,
    cursor: usize,
    start: Ghost<nat>,
}

impl<W: ByteStreamBody> Stream<W> {
    /// The installed callback.
    pub closed spec fn notifier(&self) -> Option<Action> {
        self.base.callback()
    }

    pub closed spec fn source(&self) -> W {
        self.wrappee
    }

    /// Bytes passed since the stream last yielded.
    pub closed spec fn burst(&self) -> nat {
        self.cursor as nat
    }

    pub closed spec fn burst_limit(&self) -> nat {
        self.max_burst as nat
    }

    /// Where the wrappee stood when this stream took it over.
    pub closed spec fn origin(&self) -> nat {
        self.start@
    }

    pub fn new(disk: &mut Disk, wrappee: W, max_burst: usize) -> (s: Stream<W>)
        requires
            old(disk).wf(),
            wrappee.inv(),
        ensures
            final(disk).wf(),
            only_appended(*old(disk), *final(disk)),
            s.inv(),
            s.source() == wrappee,
            s.burst() == 0,
            s.burst_limit() == max_burst,
            s.delivered() == Seq::<u8>::empty(),
    {
        let ghost start = wrappee.delivered().len();
        let s = Stream { base: base::StreamBody::new(disk), wrappee, max_burst, cursor: 0, start: Ghost(start) };
        assert(s.wrappee.delivered().skip(start as int) =~= Seq::<u8>::empty());
        s
    }

    /// Reads through the wrappee, or yields once the burst is spent.
    pub fn read_nice(&mut self, disk: &mut Disk, buf: &mut [u8]) -> (r: Result<usize, Error>)
        requires
            old(self).inv(),
            old(disk).wf(),
        ensures
            final(self).inv(),
            final(disk).wf(),
            final(self).delivered() == final(self).source().delivered().skip(final(self).origin() as int),
            final(self).notifier() == old(self).notifier(),
            old(buf)@.len() > 0 && old(self).burst() >= old(self).burst_limit() ==> {
                &&& r matches Err(e) && spec_is_again(e)
                &&& final(self).burst() == 0
                &&& old(self).notifier() is Some && old(disk).next_id() < u64::MAX ==> final(disk).pending()
                    == old(disk).pending().push(
                    crate::reactor::TimerEntry {
                        uid: old(disk).next_id(),
                        expires: old(disk).recent_instant(),
                        task: crate::reactor::Task::Run(old(self).notifier()->Some_0),
                        canceled: false,
                    },
                )
            },
            old(buf)@.len() > 0 && old(self).burst() < old(self).burst_limit() && old(self).source().remaining()
                is Some ==> (r is Ok && (r == Ok::<usize, Error>(0) <==> old(self).source().remaining()->Some_0.len()
                == 0)),
            old(buf)@.len() > 0 && old(self).burst() < old(self).burst_limit() ==> match r {
                Ok(n) => final(self).burst() == (if old(self).burst() + n > usize::MAX {
                    usize::MAX as int
                } else {
                    old(self).burst() + n
                }),
                Err(_) => final(self).burst() == 0,
            },
    {
        self.read(disk, buf)
    }

    /// The stream hands out exactly what its wrappee delivered since the
    /// stream took it over.
    pub proof fn lemma_pass_through(&self)
        requires
            self.inv(),
        ensures
            self.delivered() == self.source().delivered().skip(self.origin() as int),
            self.origin() <= self.source().delivered().len(),
    {
    }
}

impl<W: ByteStreamBody> ByteStreamBody for Stream<W> {
    closed spec fn delivered(&self) -> Seq<u8> {
        self.wrappee.delivered().skip(self.start@ as int)
    }

    closed spec fn inv(&self) -> bool {
        &&& self.wrappee.inv()
        &&& self.start@ <= self.wrappee.delivered().len()
    }

    closed spec fn remaining(&self) -> Option<Seq<u8>> {
        None
    }

    fn read(&mut self, disk: &mut Disk, buf: &mut [u8]) -> (r: Result<usize, Error>)
        ensures
            old(buf)@.len() > 0 && old(self).burst() >= old(self).burst_limit() ==> {
                &&& r matches Err(e) && spec_is_again(e)
                &&& final(self).burst() == 0
                &&& old(self).notifier() is Some && old(disk).next_id() < u64::MAX ==> final(disk).pending()
                    == old(disk).pending().push(
                    crate::reactor::TimerEntry {
                        uid: old(disk).next_id(),
                        expires: old(disk).recent_instant(),
                        task: crate::reactor::Task::Run(old(self).notifier()->Some_0),
                        canceled: false,
                    },
                )
            },
            old(buf)@.len() > 0 && old(self).burst() < old(self).burst_limit() ==> match r {
                Ok(n) => final(self).burst() == (if old(self).burst() + n > usize::MAX {
                    usize::MAX as int
                } else {
                    old(self).burst() + n
                }),
                Err(_) => final(self).burst() == 0,
            },
            final(self).burst_limit() == old(self).burst_limit(),
            final(self).notifier() == old(self).notifier(),
            old(buf)@.len() > 0 && old(self).burst() < old(self).burst_limit() && old(self).source().remaining()
                is Some ==> (r is Ok && (r == Ok::<usize, Error>(0) <==> old(self).source().remaining()->Some_0.len()
                == 0)),
    {
        if buf.len() == 0 {
            assert(buf@.take(0) =~= Seq::<u8>::empty());
            return Ok(0);
        }
        if self.cursor >= self.max_burst {
            self.cursor = 0;
            self.base.invoke_callback(disk);
            return Err(again());
        }
        let ghost d0 = self.wrappee.delivered();
        match self.wrappee.read(disk, buf) {
            Ok(n) => {
                assert((d0 + buf@.take(n as int)).skip(self.start@ as int) =~= d0.skip(self.start@ as int) + buf@.take(
                    n as int,
                ));
                self.cursor = if n > usize::MAX - self.cursor {
                    usize::MAX
                } else {
                    self.cursor + n
                };
                Ok(n)
            },
            Err(e) => {
                self.cursor = 0;
                Err(e)
            },
        }
    }

    fn register_callback(&mut self, disk: &mut Disk, callback: Action) {
        let ghost d0 = *disk;
        self.base.register_callback(disk, callback);
        let ghost d1 = *disk;
        self.wrappee.register_callback(disk, callback);
        proof {
            lemma_only_appended_trans(d0, d1, *disk);
            if d0.next_id() < u64::MAX {
                lemma_has_run_kept(d1, *disk, callback);
            }
        }
    }

    fn unregister_callback(&mut self) {
        self.base.unregister_callback();
        self.wrappee.unregister_callback();
    }
}

} // verus!
