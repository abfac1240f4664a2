//! A stream that delegates to a wrappee that can be swapped at any time.

use vstd::prelude::*;
use crate::error::Error;
use crate::reactor::{Action, Disk};
use crate::stream::{base, lemma_has_run_kept, lemma_only_appended_trans, only_appended, ByteStreamBody};

verus! {

/// Delegates reads to the current wrappee.
pub struct Stream<W: ByteStreamBody> {
    base: base::StreamBody,
    wrappee: W,
    before: Ghost<Seq<u8>>,
    start: Ghost<nat>,
}

impl<W: ByteStreamBody> Stream<W> {
    /// The installed callback.
    pub closed spec fn notifier(&self) -> Option<Action> {
        self.base.callback()
    }

    pub closed spec fn current(&self) -> W {
        self.wrappee
    }

    /// What the stream delivered before the current wrappee took over.
    pub closed spec fn earlier(&self) -> Seq<u8> {
        self.before@
    }

    pub fn new(disk: &mut Disk, wrappee: W) -> (s: Stream<W>)
        requires
            old(disk).wf(),
            wrappee.inv(),
        ensures
            final(disk).wf(),
            only_appended(*old(disk), *final(disk)),
            s.inv(),
            s.current() == wrappee,
            s.delivered() == Seq::<u8>::empty(),
    {
        let ghost start = wrappee.delivered().len();
        let s = Stream { base: base::StreamBody::new(disk), wrappee, before: Ghost(Seq::empty()), start: Ghost(start) };
        assert(s.wrappee.delivered().skip(start as int) =~= Seq::<u8>::empty());
        s
    }

    /// Makes `wrappee` the source of all further reads; rewires the
    /// callback to it at once.
    pub fn switch(&mut self, disk: &mut Disk, wrappee: W)
        requires
            old(self).inv(),
            old(disk).wf(),
            wrappee.inv(),
        ensures
            final(self).inv(),
            final(disk).wf(),
            final(self).delivered() == old(self).delivered(),
            final(self).earlier() == old(self).delivered(),
            final(self).current().delivered() == wrappee.delivered(),
            final(self).current().remaining() == wrappee.remaining(),
            final(self).remaining() == wrappee.remaining(),
            only_appended(*old(disk), *final(disk)),
            final(self).notifier() == old(self).notifier(),
            old(self).notifier() is Some && old(disk).next_id() < u64::MAX ==> crate::stream::has_run(
                final(disk).pending(),
                old(self).notifier()->Some_0,
            ),
    {
        let mut wrappee = wrappee;
        match self.base.get_callback() {
            Some(cb) => wrappee.register_callback(disk, cb),
            None => {
                assert(disk.pending().take(disk.pending().len() as int) =~= disk.pending());
            },
        }
        let ghost so_far = self.delivered();
        self.before = Ghost(so_far);
        self.start = Ghost(wrappee.delivered().len());
        self.wrappee = wrappee;
        assert(self.wrappee.delivered().skip(self.start@ as int) =~= Seq::<u8>::empty());
        assert(self.before@ + Seq::<u8>::empty() =~= so_far);
    }

    /// The stream hands out what it delivered before the last switch, then
    /// what the current wrappee delivered since.
    pub proof fn lemma_switched_output(&self)
        requires
            self.inv(),
        ensures
            self.delivered().len() >= self.earlier().len(),
            self.delivered().take(self.earlier().len() as int) == self.earlier(),
    {
        assert(self.delivered().take(self.earlier().len() as int) =~= self.earlier());
    }
}

impl<W: ByteStreamBody> ByteStreamBody for Stream<W> {
    closed spec fn delivered(&self) -> Seq<u8> {
        self.before@ + self.wrappee.delivered().skip(self.start@ as int)
    }

    closed spec fn inv(&self) -> bool {
        &&& self.wrappee.inv()
        &&& self.start@ <= self.wrappee.delivered().len()
    }

    /// What the current wrappee will still hand out.
    closed spec fn remaining(&self) -> Option<Seq<u8>> {
        self.wrappee.remaining()
    }

    fn read(&mut self, disk: &mut Disk, buf: &mut [u8]) -> (r: Result<usize, Error>) {
        if buf.len() == 0 {
            assert(buf@.take(0) =~= Seq::<u8>::empty());
            return Ok(0);
        }
        let ghost d0 = self.wrappee.delivered();
        let r = self.wrappee.read(disk, buf);
        match r {
            Ok(n) => {
                assert((d0 + buf@.take(n as int)).skip(self.start@ as int) =~= d0.skip(self.start@ as int) + buf@.take(
                    n as int,
                ));
            },
            Err(_) => {},
        }
        r
    }

    fn register_callback(&mut self, disk: &mut Disk, callback: Action) {
        let ghost d0 = *disk;
        self.base.register_callback(disk, callback);
        let ghost d1 = *disk;
        self.wrappee.register_callback(disk, callback);
        proof {
            lemma_only_appended_trans(d0, d1, *disk);
            if d0.next_id() < u64::MAX {
                lemma_has_run_kept(d1, *disk, callback);
            }
        }
    }

    fn unregister_callback(&mut self) {
        self.base.unregister_callback();
        self.wrappee.unregister_callback();
    }
}

} // verus!
