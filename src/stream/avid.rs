//! A stream that coalesces partial reads of its wrappee.

use vstd::prelude::*;
use crate::error::{is_again, spec_is_again, Error};
use crate::reactor::{Action, Disk};
use crate::stream::{base, copy_into, lemma_has_run_kept, lemma_only_appended_trans, only_appended, ByteStreamBody};

verus! {

/// Keeps reading the wrappee until the buffer is full, the wrappee ends,
/// or it has nothing more for now after some progress.
pub struct Stream<W: ByteStreamBody> {
    base: base::StreamBody,
    wrappee: W,
    pending_error: Option<Error>,
    start: Ghost<nat>,
}

impl<W: ByteStreamBody> Stream<W> {
    pub closed spec fn source(&self) -> W {
        self.wrappee
    }

    /// An error that came after progress, surfaced by the next read.
    pub closed spec fn latched(&self) -> Option<Error> {
        self.pending_error
    }

    pub closed spec fn origin(&self) -> nat {
        self.start@
    }

    pub fn new(disk: &mut Disk, wrappee: W) -> (s: Stream<W>)
        requires
            old(disk).wf(),
            wrappee.inv(),
        ensures
            final(disk).wf(),
            only_appended(*old(disk), *final(disk)),
            s.inv(),
            s.source() == wrappee,
            s.delivered() == Seq::<u8>::empty(),
    {
        let ghost start = wrappee.delivered().len();
        let s = Stream { base: base::StreamBody::new(disk), wrappee, pending_error: None, start: Ghost(start) };
        assert(s.wrappee.delivered().skip(start as int) =~= Seq::<u8>::empty());
        s
    }

    /// The stream hands out exactly what its wrappee delivered since the
    /// stream took it over.
    pub proof fn lemma_pass_through(&self)
        requires
            self.inv(),
        ensures
            self.delivered() == self.source().delivered().skip(self.origin() as int),
            self.origin() <= self.source().delivered().len(),
    {
    }
}

impl<W: ByteStreamBody> ByteStreamBody for Stream<W> {
    closed spec fn delivered(&self) -> Seq<u8> {
        self.wrappee.delivered().skip(self.start@ as int)
    }

    closed spec fn inv(&self) -> bool {
        &&& self.wrappee.inv()
        &&& self.start@ <= self.wrappee.delivered().len()
    }

    /// What the wrappee will still hand out.
    closed spec fn remaining(&self) -> Option<Seq<u8>> {
        if self.pending_error is None {
            self.wrappee.remaining()
        } else {
            None
        }
    }

    fn read(&mut self, disk: &mut Disk, buf: &mut [u8]) -> (r: Result<usize, Error>)
        ensures
            old(buf)@.len() > 0 && old(self).latched() is Some ==> r == Err::<usize, Error>(
                old(self).latched()->Some_0,
            ) && final(self).latched() is None,
            old(self).latched() is None && final(self).latched() is Some ==> (r matches Ok(n) && n > 0
                && !spec_is_again(final(self).latched()->Some_0)),
            old(buf)@.len() > 0 && old(self).remaining() is Some ==> r == Ok::<usize, Error>(
                if old(buf)@.len() < old(self).remaining()->Some_0.len() {
                    old(buf)@.len() as usize
                } else {
                    old(self).remaining()->Some_0.len() as usize
                },
            ),
    {
        if buf.len() == 0 {
            assert(buf@.take(0) =~= Seq::<u8>::empty());
            return Ok(0);
        }
        match self.pending_error {
            Some(e) => {
                self.pending_error = None;
                return Err(e);
            },
            None => {},
        }
        let ghost sent0 = self.delivered();
        let len = buf.len();
        let mut cursor: usize = 0;
        let mut stop = false;
        let mut failure: Option<Error> = None;
        assert(buf@.take(0) =~= Seq::<u8>::empty());
        proof {
            if old(self).remaining() is Some {
                assert(Seq::<u8>::empty() + old(self).remaining()->Some_0 =~= old(self).remaining()->Some_0);
            }
        }
        assert(sent0 + buf@.take(0) =~= sent0);
        while cursor < len && !stop
            invariant
                self.inv(),
                disk.wf(),
                len == buf@.len(),
                buf@.len() == old(buf)@.len(),
                cursor <= len,
                self.start@ == old(self).start@,
                self.delivered() == sent0 + buf@.take(cursor as int),
                failure is Some ==> cursor == 0 && stop,
                old(self).remaining() is Some ==> self.remaining() is Some && old(self).remaining()->Some_0 == buf@.take(
                    cursor as int,
                ) + self.remaining()->Some_0,
                old(self).remaining() is Some ==> failure is None && self.pending_error is None,
                self.pending_error is Some ==> cursor > 0 && stop && !spec_is_again(self.pending_error->Some_0),
                old(self).remaining() is Some && stop ==> self.remaining()->Some_0.len() == 0,
            decreases len - cursor + if stop { 0int } else { 1int },
        {
            let room: usize = len - cursor;
            let mut tmp: Vec<u8> = vec![0u8; room];
            let ghost d0 = self.wrappee.delivered();
            match self.wrappee.read(disk, tmp.as_mut_slice()) {
                Ok(0) => {
                    assert(d0 + tmp@.take(0) =~= d0);
                    stop = true;
                    proof {
                        if old(self).remaining() is Some {
                            assert(self.remaining()->Some_0.len() == 0);
                            assert(buf@.take(cursor as int) + self.remaining()->Some_0 =~= buf@.take(cursor as int));
                        }
                    }
                },
                Ok(n) => {
                    let ghost b0 = buf@;
                    copy_into(buf, cursor, tmp.as_slice(), n);
                    assert((d0 + tmp@.take(n as int)).skip(self.start@ as int) =~= d0.skip(self.start@ as int)
                        + tmp@.take(n as int));
                    assert(buf@.take(cursor as int) =~= b0.take(cursor as int)) by {
                        assert(buf@.take((cursor + n) as int).take(cursor as int) =~= buf@.take(cursor as int));
                    }
                    let ghost c0 = cursor;
                    cursor = cursor + n;
                    proof {
                        if old(self).remaining() is Some {
                            assert(buf@.take(cursor as int) =~= b0.take(c0 as int) + tmp@.take(n as int)) by {
                                assert(buf@.take((c0 + n) as int) =~= b0.take(c0 as int) + tmp@.take(n as int));
                            }
                            assert(b0.take(c0 as int) + (tmp@.take(n as int) + self.remaining()->Some_0) =~= buf@.take(
                                cursor as int,
                            ) + self.remaining()->Some_0);
                        }
                    }
                },
                Err(e) => {
                    if cursor == 0 {
                        failure = Some(e);
                    } else if !is_again(&e) {
                        self.pending_error = Some(e);
                    }
                    stop = true;
                },
            }
        }
        match failure {
            Some(e) => Err(e),
            None => Ok(cursor),
        }
    }

    fn register_callback(&mut self, disk: &mut Disk, callback: Action) {
        let ghost d0 = *disk;
        self.base.register_callback(disk, callback);
        let ghost d1 = *disk;
        self.wrappee.register_callback(disk, callback);
        proof {
            lemma_only_appended_trans(d0, d1, *disk);
            if d0.next_id() < u64::MAX {
                lemma_has_run_kept(d1, *disk, callback);
            }
        }
    }

    fn unregister_callback(&mut self) {
        self.base.unregister_callback();
        self.wrappee.unregister_callback();
    }
}

} // verus!
