//! A bidirectional stream over one descriptor.

use vstd::prelude::*;
use crate::error::Error;
use crate::error::spec_is_again;
use crate::misc::linger::{Jockey, Linger, State, BUF_SIZE};
use crate::reactor::{Action, Disk};
use crate::stream::{
    base, has_run, lemma_has_run_kept, lemma_only_appended_trans, only_appended, switch, ByteStreamBody,
};

verus! {

/// Reads come from the ingress; bytes of a switchable egress stream drain
/// into the same descriptor through a linger.
pub struct Duplex<I: ByteStreamBody, E: ByteStreamBody> {
    base: base::StreamBody,
    ingress: I,
    egress: Linger<switch::Stream<E>>,
}

impl<I: ByteStreamBody, E: ByteStreamBody> Duplex<I, E> {
    pub closed spec fn ingress(&self) -> I {
        self.ingress
    }

    pub closed spec fn egress(&self) -> Linger<switch::Stream<E>> {
        self.egress
    }

    /// A duplex reading from `ingress` and draining `egress`; `jockey` is
    /// the action through which the embedding program runs the drain.
    pub fn new(disk: &mut Disk, ingress: I, egress: E, jockey: Action) -> (d: Duplex<I, E>)
        requires
            old(disk).wf(),
            ingress.inv(),
            egress.inv(),
        ensures
            final(disk).wf(),
            only_appended(*old(disk), *final(disk)),
            d.inv(),
            d.ingress() == ingress,
            d.egress().state() is Busy,
            d.egress().source().delivered() == Seq::<u8>::empty(),
            d.delivered() == ingress.delivered(),
    {
        let ghost d0 = *disk;
        let base = base::StreamBody::new(disk);
        let ghost d1 = *disk;
        let eswitch = switch::Stream::new(disk, egress);
        proof {
            lemma_only_appended_trans(d0, d1, *disk);
        }
        let ghost d2 = *disk;
        let linger = Linger::new(disk, eswitch, jockey);
        proof {
            lemma_only_appended_trans(d0, d2, *disk);
        }
        Duplex { base, ingress, egress: linger }
    }

    /// Replaces the egress stream; what it delivers is written next.
    pub fn set_egress(&mut self, disk: &mut Disk, egress: E)
        requires
            old(self).inv(),
            old(disk).wf(),
            egress.inv(),
        ensures
            final(self).inv(),
            final(disk).wf(),
            only_appended(*old(disk), *final(disk)),
            final(self).ingress() == old(self).ingress(),
            final(self).egress().source().current().delivered() == egress.delivered(),
            final(self).egress().sent() == old(self).egress().sent(),
            final(self).egress().state() == old(self).egress().state(),
    {
        self.egress.switch_source(disk, egress);
    }

    /// The descriptor became ready: notifies the reader and prods the drain.
    pub fn notify(&self, disk: &mut Disk)
        requires
            old(disk).wf(),
        ensures
            final(disk).wf(),
            only_appended(*old(disk), *final(disk)),
            old(disk).next_id() < u64::MAX - 1 ==> has_run(final(disk).pending(), self.egress().jockey_step()),
    {
        let ghost d0 = *disk;
        self.base.invoke_callback(disk);
        let ghost d1 = *disk;
        self.egress.prod(disk);
        proof {
            lemma_only_appended_trans(d0, d1, *disk);
        }
    }

    /// The drain of the egress, for the embedding program to run.
    pub fn jockey(&mut self, disk: &mut Disk) -> (r: Jockey)
        requires
            old(self).inv(),
            old(disk).wf(),
        ensures
            final(self).inv(),
            final(disk).wf(),
            final(self).ingress() == old(self).ingress(),
            final(self).egress().sent() == old(self).egress().sent(),
            match r {
                Jockey::Write(from, to) => {
                    &&& from < to <= BUF_SIZE
                    &&& final(self).egress().backlog() == final(self).egress().buffer().subrange(
                        from as int,
                        to as int,
                    )
                },
                _ => true,
            },
            old(self).egress().active() && old(self).egress().backlog().len() > 0 ==> {
                &&& r == Jockey::Write(old(self).egress().backlog_from(), old(self).egress().backlog_to())
                &&& final(self).egress() == old(self).egress()
                &&& *final(disk) == *old(disk)
            },
            old(self).egress().active() && old(self).egress().backlog().len() == 0 ==> match r {
                Jockey::Write(from, to) => {
                    &&& from == 0 && 0 < to
                    &&& final(self).egress().state() == old(self).egress().state()
                    &&& final(self).egress().source().delivered() == old(self).egress().source().delivered() + final(self).egress().backlog()
                },
                Jockey::Wait => {
                    &&& final(self).egress().state() == old(self).egress().state()
                    &&& final(self).egress().source().delivered() == old(self).egress().source().delivered()
                    &&& final(self).egress().backlog().len() == 0
                },
                Jockey::Finished => {
                    &&& final(self).egress().source().delivered() == old(self).egress().source().delivered()
                    &&& final(self).egress().backlog().len() == 0
                    &&& old(self).egress().state() is Busy ==> (final(self).egress().state() == State::Final(Ok(()))
                        || (final(self).egress().state() matches State::Final(Err(e)) && !spec_is_again(e)))
                    &&& old(self).egress().state() is Drifting ==> final(self).egress().state() is Stale
                    &&& old(self).egress().state() is Busy && old(self).egress().on_final() is Some ==> crate::stream::has_run(
                        final(disk).pending(),
                        old(self).egress().on_final()->Some_0,
                    ) || final(disk).next_id() == u64::MAX
                },
            },
            old(self).egress().active() && old(self).egress().backlog().len() == 0 && old(self).egress().source().remaining() is Some ==> {
                &&& old(self).egress().source().remaining()->Some_0.len() == 0 ==> r is Finished && (old(self).egress().state() is Busy
                    ==> final(self).egress().state() == State::Final(Ok(())))
                &&& old(self).egress().source().remaining()->Some_0.len() > 0 ==> r is Write
            },
    {
        self.egress.jockey(disk)
    }

    /// Records the outcome of writing a drain step's bytes.
    pub fn wrote(&mut self, disk: &mut Disk, result: Result<usize, Error>)
        requires
            old(self).inv(),
            old(disk).wf(),
            result matches Ok(n) ==> 0 < n <= old(self).egress().backlog().len(),
        ensures
            final(self).inv(),
            final(disk).wf(),
            final(self).ingress() == old(self).ingress(),
            result matches Ok(n) ==> final(self).egress().sent() == old(self).egress().sent()
                + old(self).egress().backlog().take(n as int),
            result is Err ==> final(self).egress().sent() == old(self).egress().sent(),
    {
        self.egress.wrote(disk, result);
    }

    /// The buffered egress bytes `[from, to)`.
    pub fn egress_bytes(&self, from: usize, to: usize) -> (r: &[u8])
        requires
            from <= to <= self.egress().buffer().len(),
        ensures
            r@ == self.egress().buffer().subrange(from as int, to as int),
    {
        self.egress.bytes(from, to)
    }

    /// Shuts the egress down at once.
    pub fn abort_egress(&mut self) -> (r: State)
        requires
            old(self).inv(),
        ensures
            final(self).inv(),
            r == old(self).egress().state(),
            final(self).egress().state() is Stale,
            final(self).ingress() == old(self).ingress(),
    {
        self.egress.abort()
    }
}

impl<I: ByteStreamBody, E: ByteStreamBody> ByteStreamBody for Duplex<I, E> {
    closed spec fn delivered(&self) -> Seq<u8> {
        self.ingress.delivered()
    }

    closed spec fn inv(&self) -> bool {
        &&& self.ingress.inv()
        &&& self.egress.inv()
    }

    /// What the ingress will still hand out.
    closed spec fn remaining(&self) -> Option<Seq<u8>> {
        self.ingress.remaining()
    }

    fn read(&mut self, disk: &mut Disk, buf: &mut [u8]) -> (r: Result<usize, Error>) {
        self.ingress.read(disk, buf)
    }

    fn register_callback(&mut self, disk: &mut Disk, callback: Action) {
        let ghost d0 = *disk;
        self.base.register_callback(disk, callback);
        let ghost d1 = *disk;
        self.ingress.register_callback(disk, callback);
        proof {
            lemma_only_appended_trans(d0, d1, *disk);
            if d0.next_id() < u64::MAX {
                lemma_has_run_kept(d1, *disk, callback);
            }
        }
    }

    fn unregister_callback(&mut self) {
        self.base.unregister_callback();
        self.ingress.unregister_callback();
    }
}

} // verus!
