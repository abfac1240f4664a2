//! A stream that takes in all of its wrappee before serving it.

use vstd::prelude::*;
use crate::error::{nospc, Error, ENOSPC};
use crate::reactor::{Action, Disk};
use crate::stream::{base, blob, lemma_has_run_kept, lemma_only_appended_trans, only_appended, queue, ByteStreamBody};

verus! {

/// How many bytes are pulled from the wrappee at a time.
pub const CHUNK_SIZE: usize = 2000;

/// Drains the wrappee into memory on the first reads; once the wrappee
/// ends within `capacity` bytes, serves what it stored.
pub struct Stream<W: ByteStreamBody> {
    base: base::StreamBody,
    wrappee: W,
    capacity: usize,
    amount: usize,
    eof_reached: bool,
    storage: queue::Stream<blob::Stream>,
    start: Ghost<nat>,
}

impl<W: ByteStreamBody> Stream<W> {
    pub closed spec fn source(&self) -> W {
        self.wrappee
    }

    pub closed spec fn origin(&self) -> nat {
        self.start@
    }

    pub closed spec fn stored(&self) -> nat {
        self.amount as nat
    }

    pub closed spec fn limit(&self) -> nat {
        self.capacity as nat
    }

    pub closed spec fn filled(&self) -> bool {
        self.eof_reached
    }

    /// Every byte pulled from the wrappee.
    pub open spec fn pulled(&self) -> Seq<u8> {
        self.source().delivered().skip(self.origin() as int)
    }

    pub fn new(disk: &mut Disk, wrappee: W, capacity: usize) -> (s: Stream<W>)
        requires
            old(disk).wf(),
            wrappee.inv(),
        ensures
            final(disk).wf(),
            only_appended(*old(disk), *final(disk)),
            s.inv(),
            s.source() == wrappee,
            s.limit() == capacity,
            s.stored() == 0,
            !s.filled(),
            s.delivered() == Seq::<u8>::empty(),
    {
        let ghost d0 = *disk;
        let base = base::StreamBody::new(disk);
        let ghost d1 = *disk;
        let storage = queue::Stream::new(disk);
        proof {
            lemma_only_appended_trans(d0, d1, *disk);
        }
        let ghost start = wrappee.delivered().len();
        let s = Stream { base, wrappee, capacity, amount: 0, eof_reached: false, storage, start: Ghost(start) };
        assert(s.wrappee.delivered().skip(start as int) =~= Seq::<u8>::empty());
        s
    }

    /// What the counters mean: the bytes taken in from the wrappee, and a
    /// filled reservoir never holds more than its capacity.
    pub proof fn lemma_counters(&self)
        requires
            self.inv(),
        ensures
            self.origin() <= self.source().delivered().len(),
            self.stored() == if self.pulled().len() > usize::MAX {
                usize::MAX as nat
            } else {
                self.pulled().len()
            },
            self.filled() ==> self.stored() <= self.limit(),
            !self.filled() ==> self.delivered().len() == 0,
    {
    }

    /// How many bytes were taken in from the wrappee.
    pub fn amount(&self) -> (r: usize)
        ensures
            r == self.stored(),
    {
        self.amount
    }
}

impl<W: ByteStreamBody> ByteStreamBody for Stream<W> {
    closed spec fn delivered(&self) -> Seq<u8> {
        self.storage.delivered()
    }

    closed spec fn inv(&self) -> bool {
        &&& self.wrappee.inv()
        &&& self.storage.inv()
        &&& self.start@ <= self.wrappee.delivered().len()
        &&& self.amount as nat == if self.wrappee.delivered().len() - self.start@ > usize::MAX {
            usize::MAX as nat
        } else {
            (self.wrappee.delivered().len() - self.start@) as nat
        }
        &&& self.eof_reached ==> self.storage.is_terminated() && self.amount <= self.capacity
        &&& !self.eof_reached ==> !self.storage.is_terminated() && self.storage.delivered().len() == 0
    }

    /// Once filled: what the store will still serve.
    closed spec fn remaining(&self) -> Option<Seq<u8>> {
        if self.eof_reached {
            self.storage.remaining()
        } else {
            None
        }
    }

    fn read(&mut self, disk: &mut Disk, buf: &mut [u8]) -> (r: Result<usize, Error>)
        ensures
            old(buf)@.len() > 0 && final(self).stored() > final(self).limit() ==> r == Err::<usize, Error>(
                Error { code: ENOSPC },
            ),
            r is Ok && old(buf)@.len() > 0 ==> final(self).filled() && final(self).stored() <= final(self).limit(),
            final(self).limit() == old(self).limit(),
    {
        if buf.len() == 0 {
            assert(buf@.take(0) =~= Seq::<u8>::empty());
            return Ok(0);
        }
        if self.eof_reached {
            return self.storage.read(disk, buf);
        }
        if self.amount > self.capacity {
            return Err(nospc());
        }
        let mut stop = false;
        let mut failure: Option<Error> = None;
        while !stop
            invariant
                self.inv(),
                disk.wf(),
                !stop ==> !self.eof_reached && failure is None && self.amount <= self.capacity + CHUNK_SIZE,
                stop ==> self.eof_reached || failure is Some,
                failure is Some ==> !self.eof_reached,
                self.eof_reached ==> self.amount <= self.capacity,
                (failure matches Some(e) && self.amount > self.capacity) ==> failure->Some_0.code == ENOSPC,
                self.capacity == old(self).capacity,
                self.delivered() == old(self).delivered(),
                self.start@ == old(self).start@,
            decreases (if stop { 0int } else { 1 + self.capacity + CHUNK_SIZE - self.amount }),
        {
            if self.amount > self.capacity {
                failure = Some(nospc());
                stop = true;
            } else {
                let mut chunk: Vec<u8> = vec![0u8; CHUNK_SIZE];
                let ghost d0 = self.wrappee.delivered();
                match self.wrappee.read(disk, chunk.as_mut_slice()) {
                    Ok(0) => {
                        assert(d0 + chunk@.take(0) =~= d0);
                        self.storage.terminate(disk);
                        self.eof_reached = true;
                        stop = true;
                    },
                    Ok(n) => {
                        assert((d0 + chunk@.take(n as int)).skip(self.start@ as int).len() == d0.skip(
                            self.start@ as int,
                        ).len() + n);
                        if n > usize::MAX - self.amount {
                            self.amount = usize::MAX;
                            failure = Some(nospc());
                            stop = true;
                        } else {
                            self.amount = self.amount + n;
                            chunk.truncate(n);
                            let b = blob::Stream::new(disk, chunk);
                            self.storage.enqueue(disk, b);
                        }
                    },
                    Err(e) => {
                        failure = Some(e);
                        stop = true;
                    },
                }
            }
        }
        match failure {
            Some(e) => Err(e),
            None => self.storage.read(disk, buf),
        }
    }

    fn register_callback(&mut self, disk: &mut Disk, callback: Action) {
        let ghost d0 = *disk;
        self.base.register_callback(disk, callback);
        let ghost d1 = *disk;
        self.wrappee.register_callback(disk, callback);
        proof {
            lemma_only_appended_trans(d0, d1, *disk);
            if d0.next_id() < u64::MAX {
                lemma_has_run_kept(d1, *disk, callback);
            }
        }
    }

    fn unregister_callback(&mut self) {
        self.base.unregister_callback();
        self.wrappee.unregister_callback();
    }
}

} // verus!
