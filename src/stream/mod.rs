//! Pull-based byte streams with a single delivered-callback.

pub mod avid;
pub mod base;
pub mod blob;
pub mod dry;
pub mod empty;
pub mod farewell;
pub mod framing;
pub mod naivedecoder;
pub mod naiveencoder;
pub mod nice;
pub mod pacer;
pub mod queue;
pub mod reservoir;
pub mod sub;
pub mod switch;
pub mod zero;

use vstd::prelude::*;
use crate::error::Error;
use crate::reactor::{Action, Disk, Task, TimerEntry};

verus! {

/// `p` holds a live entry that runs `action`.
pub open spec fn has_run(p: Seq<TimerEntry>, action: Action) -> bool {
    exists|i: int| 0 <= i < p.len() && (#[trigger] p[i]).task == Task::Run(action) && !p[i].canceled
}

/// `d1` differs from `d0` only by actions appended to the immediate FIFO.
pub open spec fn only_appended(d0: Disk, d1: Disk) -> bool {
    &&& d0.pending().len() <= d1.pending().len()
    &&& d1.pending().take(d0.pending().len() as int) == d0.pending()
    &&& d1.scheduled() == d0.scheduled()
    &&& d1.event_table() == d0.event_table()
    &&& d1.registration_table() == d0.registration_table()
}

pub proof fn lemma_only_appended_trans(d0: Disk, d1: Disk, d2: Disk)
    requires
        only_appended(d0, d1),
        only_appended(d1, d2),
    ensures
        only_appended(d0, d2),
{
    let n0 = d0.pending().len() as int;
    let n1 = d1.pending().len() as int;
    assert forall|k: int| 0 <= k < n0 implies d2.pending()[k] == d0.pending()[k] by {
        assert(d2.pending().take(n1)[k] == d2.pending()[k]);
        assert(d1.pending().take(n0)[k] == d1.pending()[k]);
    }
    assert(d2.pending().take(n0) =~= d0.pending());
}

pub proof fn lemma_has_run_kept(d0: Disk, d1: Disk, action: Action)
    requires
        only_appended(d0, d1),
        has_run(d0.pending(), action),
    ensures
        has_run(d1.pending(), action),
{
    let i = choose|i: int|
        0 <= i < d0.pending().len() && (#[trigger] d0.pending()[i]).task == Task::Run(action)
            && !d0.pending()[i].canceled;
    assert(d1.pending().take(d0.pending().len() as int)[i] == d1.pending()[i]);
}

/// Copies `src[..n]` into `dst` at `offset`.
pub fn copy_into(dst: &mut [u8], offset: usize, src: &[u8], n: usize)
    requires
        offset + n <= old(dst)@.len(),
        n <= src@.len(),
    ensures
        final(dst)@.len() == old(dst)@.len(),
        final(dst)@.take(offset + n) == old(dst)@.take(offset as int) + src@.take(n as int),
{
    let len = dst.len();
    let mut i: usize = 0;
    while i < n
        invariant
            len == dst@.len(),
            offset + n <= dst@.len(),
            n <= src@.len(),
            i <= n,
            dst@.len() == old(dst)@.len(),
            forall|k: int| 0 <= k < offset ==> dst@[k] == old(dst)@[k],
            forall|k: int| 0 <= k < i ==> dst@[offset + k] == src@[k],
        decreases n - i,
    {
        dst[offset + i] = src[i];
        i = i + 1;
    }
    assert(dst@.take(offset + n) =~= old(dst)@.take(offset as int) + src@.take(n as int));
}

/// The contract that every stream body meets.
pub trait ByteStreamBody: Sized {
    /// Every byte the stream handed out so far, in order.
    spec fn delivered(&self) -> Seq<u8>;

    /// The stream's own invariant.
    spec fn inv(&self) -> bool;

    /// Everything the stream will still hand out before its end, when that
    /// is already determined. A stream with determined content never fails
    /// and never asks to wait.
    spec fn remaining(&self) -> Option<Seq<u8>>;

    /// Pulls up to `buf.len()` bytes. `Ok(0)` is end of stream; an error
    /// with the "again" kind asks the caller to wait for the callback. A
    /// zero-length read returns `Ok(0)` and changes nothing.
    fn read(&mut self, disk: &mut Disk, buf: &mut [u8]) -> (r: Result<usize, Error>)
        requires
            old(self).inv(),
            old(disk).wf(),
        ensures
            final(self).inv(),
            final(disk).wf(),
            final(buf)@.len() == old(buf)@.len(),
            match r {
                Ok(n) => {
                    &&& n <= old(buf)@.len()
                    &&& final(self).delivered() == old(self).delivered() + final(buf)@.take(n as int)
                },
                Err(_) => final(self).delivered() == old(self).delivered(),
            },
            old(self).remaining() is Some ==> match r {
                Ok(n) => {
                    &&& final(self).remaining() is Some
                    &&& old(self).remaining()->Some_0 == final(buf)@.take(n as int) + final(self).remaining()->Some_0
                },
                Err(_) => final(self).remaining() == old(self).remaining(),
            },
            old(self).remaining() is Some && old(buf)@.len() > 0 ==> (r matches Ok(n) && (n == 0
                <==> old(self).remaining()->Some_0.len() == 0)),
            old(buf)@.len() == 0 ==> {
                &&& r == Ok::<usize, Error>(0)
                &&& *final(self) == *old(self)
                &&& *final(disk) == *old(disk)
            },
    ;

    /// Installs `callback`, replacing any earlier one, and schedules it once
    /// right away.
    fn register_callback(&mut self, disk: &mut Disk, callback: Action)
        requires
            old(self).inv(),
            old(disk).wf(),
        ensures
            final(self).inv(),
            final(disk).wf(),
            final(self).delivered() == old(self).delivered(),
            final(self).remaining() == old(self).remaining(),
            only_appended(*old(disk), *final(disk)),
            old(disk).next_id() < u64::MAX ==> has_run(final(disk).pending(), callback),
    ;

    /// Removes the callback.
    fn unregister_callback(&mut self)
        requires
            old(self).inv(),
        ensures
            final(self).inv(),
            final(self).delivered() == old(self).delivered(),
            final(self).remaining() == old(self).remaining(),
    ;
}

} // verus!
