//! Token-bucket shaping of a wrappee.

use vstd::prelude::*;
use crate::error::{again, inval, spec_is_again, Error, EAGAIN, EINVAL};
use crate::reactor::{Action, Disk, Instant, Task, TimerEntry, NANOS_PER_SEC};
use crate::stream::{base, copy_into, lemma_has_run_kept, lemma_only_appended_trans, only_appended, ByteStreamBody};

verus! {

/// Credits `byterate` bytes per second into a quota capped at `max_burst`;
/// a read waits until at least `min_burst` bytes of quota are there and
/// then hands out at most the quota.
///
/// The quota is kept in nanobytes (bytes times 10^9), so that crediting
/// whole nanoseconds is exact.
pub struct Stream<W: ByteStreamBody> {
    base: base::StreamBody,
    wrappee: W,
    byterate: u64,
    min_burst: u64,
    max_burst: u64,
    quota: u128,
    prev_time: Instant,
    created: Ghost<nat>,
    start: Ghost<nat>,
}

/// When a retry is due: once the missing quota is credited, rounded up to
/// whole nanoseconds, and no later than the end of time.
pub open spec fn retry_at(credited: nat, quota: nat, min_nb: nat, rate: nat) -> nat {
    let wait = ((min_nb - quota) + rate - 1) / rate as int;
    if credited + wait > u64::MAX { u64::MAX as nat } else { (credited + wait) as nat }
}

/// Nanobytes in `bytes`.
pub open spec fn nanobytes(bytes: nat) -> nat {
    bytes * NANOS_PER_SEC as nat
}

impl<W: ByteStreamBody> Stream<W> {
    /// The installed callback.
    pub closed spec fn notifier(&self) -> Option<Action> {
        self.base.callback()
    }

    pub closed spec fn source(&self) -> W {
        self.wrappee
    }

    pub closed spec fn origin(&self) -> nat {
        self.start@
    }

    pub closed spec fn rate(&self) -> nat {
        self.byterate as nat
    }

    pub closed spec fn max_burst_bytes(&self) -> nat {
        self.max_burst as nat
    }

    pub closed spec fn min_burst_bytes(&self) -> nat {
        self.min_burst as nat
    }

    /// The quota, in nanobytes.
    pub closed spec fn quota_nb(&self) -> nat {
        self.quota as nat
    }

    /// The quota after crediting the time up to `later`, capped at
    /// `max_burst` bytes.
    pub closed spec fn credited_quota(&self, later: nat) -> nat {
        if later > self.prev_time {
            let q = self.quota + self.byterate * (later - self.prev_time);
            let cap = nanobytes(self.max_burst as nat);
            if q > cap { cap } else { q as nat }
        } else {
            self.quota as nat
        }
    }

    /// The instant up to which quota was credited.
    pub closed spec fn credited_until(&self) -> nat {
        self.prev_time as nat
    }

    /// The instant at which the stream was made.
    pub closed spec fn created_at(&self) -> nat {
        self.created@
    }

    /// Shaping parameters that a pacer accepts.
    pub open spec fn valid_params(byterate: u64, min_burst: u64, max_burst: u64) -> bool {
        byterate > 0 && min_burst >= 1 && max_burst >= min_burst
    }

    /// Rejects a zero rate and malformed bursts with the "invalid" kind.
    pub fn new(disk: &mut Disk, wrappee: W, byterate: u64, min_burst: u64, max_burst: u64) -> (r: Result<
        Stream<W>,
        Error,
    >)
        requires
            old(disk).wf(),
            wrappee.inv(),
        ensures
            final(disk).wf(),
            only_appended(*old(disk), *final(disk)),
            Self::valid_params(byterate, min_burst, max_burst) <==> r is Ok,
            match r {
                Ok(s) => {
                    &&& s.inv()
                    &&& s.source() == wrappee
                    &&& s.rate() == byterate
                    &&& s.min_burst_bytes() == min_burst
                    &&& s.max_burst_bytes() == max_burst
                    &&& s.quota_nb() == 0
                    &&& s.delivered() == Seq::<u8>::empty()
                },
                Err(e) => e.code == EINVAL,
            },
    {
        if byterate == 0 || min_burst < 1 || max_burst < min_burst {
            assert(disk.pending().take(disk.pending().len() as int) =~= disk.pending());
            return Err(inval());
        }
        let base = base::StreamBody::new(disk);
        let now = disk.now();
        let ghost start = wrappee.delivered().len();
        let s = Stream {
            base,
            wrappee,
            byterate,
            min_burst,
            max_burst,
            quota: 0,
            prev_time: now,
            created: Ghost(now as nat),
            start: Ghost(start),
        };
        assert(s.wrappee.delivered().skip(start as int) =~= Seq::<u8>::empty());
        assert(disk.pending().take(old(disk).pending().len() as int) =~= old(disk).pending());
        Ok(s)
    }

    /// Pacer conservation: since the stream was made, it delivered at most
    /// `max_burst` bytes plus `byterate` bytes per second elapsed.
    pub proof fn lemma_conservation(&self)
        requires
            self.inv(),
        ensures
            nanobytes(self.delivered().len()) <= nanobytes(self.max_burst_bytes()) + self.rate() * (
            self.credited_until() - self.created_at()),
    {
    }

    /// The stream hands out exactly what its wrappee delivered since the
    /// stream took it over.
    pub proof fn lemma_pass_through(&self)
        requires
            self.inv(),
        ensures
            self.delivered() == self.source().delivered().skip(self.origin() as int),
            self.origin() <= self.source().delivered().len(),
    {
    }
}

impl<W: ByteStreamBody> ByteStreamBody for Stream<W> {
    closed spec fn delivered(&self) -> Seq<u8> {
        self.wrappee.delivered().skip(self.start@ as int)
    }

    closed spec fn inv(&self) -> bool {
        &&& self.wrappee.inv()
        &&& self.start@ <= self.wrappee.delivered().len()
        &&& Self::valid_params(self.byterate, self.min_burst, self.max_burst)
        &&& self.quota <= self.max_burst as nat * NANOS_PER_SEC as nat
        &&& self.created@ <= self.prev_time
        &&& nanobytes((self.wrappee.delivered().len() - self.start@) as nat) + self.quota <= nanobytes(
            self.max_burst as nat,
        ) + self.byterate * (self.prev_time - self.created@)
    }

    closed spec fn remaining(&self) -> Option<Seq<u8>> {
        None
    }

    fn read(&mut self, disk: &mut Disk, buf: &mut [u8]) -> (r: Result<usize, Error>)
        ensures
            final(self).rate() == old(self).rate(),
            final(self).max_burst_bytes() == old(self).max_burst_bytes(),
            final(self).min_burst_bytes() == old(self).min_burst_bytes(),
            final(self).created_at() == old(self).created_at(),
            old(self).credited_until() <= final(self).credited_until(),
            nanobytes(final(self).delivered().len()) + final(self).quota_nb() <= nanobytes(old(self).delivered().len())
                + old(self).quota_nb() + old(self).rate() * (final(self).credited_until() - old(self).credited_until()),
            r is Ok ==> final(self).quota_nb() + nanobytes(r->Ok_0 as nat) >= nanobytes(old(self).min_burst_bytes())
                || old(buf)@.len() == 0,
            final(self).notifier() == old(self).notifier(),
            old(buf)@.len() > 0 && final(self).quota_nb() < nanobytes(final(self).min_burst_bytes()) && r is Err ==> {
                &&& r->Err_0.code == EAGAIN
                &&& old(self).notifier() is Some && old(disk).next_id() < u64::MAX ==> exists|t: Instant|
                    t >= final(self).credited_until() && final(disk).scheduled() == old(disk).scheduled().push(
                        TimerEntry {
                            uid: old(disk).next_id(),
                            expires: t,
                            task: Task::Run(old(self).notifier()->Some_0),
                            canceled: false,
                        },
                    )
            },
            r matches Ok(n) ==> nanobytes(n as nat) <= old(self).quota_nb() + old(self).rate() * (
            final(self).credited_until() - old(self).credited_until()),
            old(buf)@.len() > 0 && old(self).credited_quota(final(self).credited_until()) < nanobytes(
                old(self).min_burst_bytes(),
            ) ==> {
                &&& r == Err::<usize, Error>(Error { code: EAGAIN })
                &&& final(self).quota_nb() == old(self).credited_quota(final(self).credited_until())
                &&& old(self).notifier() is Some && old(disk).next_id() < u64::MAX ==> final(disk).scheduled()
                    == old(disk).scheduled().push(
                    TimerEntry {
                        uid: old(disk).next_id(),
                        expires: retry_at(
                            final(self).credited_until(),
                            old(self).credited_quota(final(self).credited_until()),
                            nanobytes(old(self).min_burst_bytes()),
                            old(self).rate(),
                        ) as u64,
                        task: Task::Run(old(self).notifier()->Some_0),
                        canceled: false,
                    },
                )
            },
            old(buf)@.len() > 0 && old(self).credited_quota(final(self).credited_until()) >= nanobytes(
                old(self).min_burst_bytes(),
            ) ==> match r {
                Ok(n) => {
                    &&& nanobytes(n as nat) <= old(self).credited_quota(final(self).credited_until())
                    &&& final(self).quota_nb() == old(self).credited_quota(final(self).credited_until()) - nanobytes(
                        n as nat,
                    )
                },
                Err(_) => final(self).quota_nb() == old(self).credited_quota(final(self).credited_until()),
            },
            old(buf)@.len() > 0 && old(self).credited_quota(final(self).credited_until()) >= nanobytes(
                old(self).min_burst_bytes(),
            ) && old(self).source().remaining() is Some && old(self).source().remaining()->Some_0.len() > 0 ==> (
            r matches Ok(n) && n > 0),
    {
        if buf.len() == 0 {
            assert(buf@.take(0) =~= Seq::<u8>::empty());
            return Ok(0);
        }
        let now = disk.now();
        let ghost q0 = self.quota;
        let ghost prev0 = self.prev_time;
        let cap: u128 = self.max_burst as u128 * NANOS_PER_SEC as u128;
        if now > self.prev_time {
            let elapsed: u128 = (now - self.prev_time) as u128;
            assert(elapsed * self.byterate <= u64::MAX as u128 * u64::MAX as u128) by (nonlinear_arith)
                requires
                    elapsed <= u64::MAX,
                    self.byterate <= u64::MAX,
            {
            }
            let credit: u128 = elapsed * self.byterate as u128;
            if credit >= cap - self.quota {
                self.quota = cap;
            } else {
                self.quota = self.quota + credit;
            }
            self.prev_time = now;
            proof {
                let c: int = self.created@ as int;
                let r: int = self.byterate as int;
                let later: int = self.prev_time as int;
                let p: int = prev0 as int;
                assert(r * (later - c) == r * (p - c) + r * (later - p)) by (nonlinear_arith);
                let el: int = elapsed as int;
                assert(el == later - p);
                assert(credit as int == el * r);
                assert(el * r == r * (later - p)) by (nonlinear_arith)
                    requires
                        el == later - p,
                ;
            }
        }
        let min_nb: u128 = self.min_burst as u128 * NANOS_PER_SEC as u128;
        if self.quota < min_nb {
            let missing: u128 = min_nb - self.quota;
            let rate: u128 = self.byterate as u128;
            let delay: u128 = (missing + rate - 1) / rate;
            let wake: u64 = if delay > (u64::MAX - self.prev_time) as u128 {
                u64::MAX
            } else {
                self.prev_time + delay as u64
            };
            match self.base.get_callback() {
                Some(cb) => {
                    disk.schedule(wake, cb);
                    assert(wake >= self.prev_time);
                },
                None => {},
            }
            return Err(again());
        }
        let whole: u128 = self.quota / NANOS_PER_SEC as u128;
        let count: usize = if (buf.len() as u128) < whole { buf.len() } else { whole as usize };
        let mut tmp: Vec<u8> = vec![0u8; count];
        let ghost d0 = self.wrappee.delivered();
        match self.wrappee.read(disk, tmp.as_mut_slice()) {
            Ok(n) => {
                copy_into(buf, 0, tmp.as_slice(), n);
                assert(buf@.take(n as int) =~= tmp@.take(n as int)) by {
                    assert(buf@.take(0 + n) =~= buf@.take(0int) + tmp@.take(n as int));
                }
                assert((d0 + tmp@.take(n as int)).skip(self.start@ as int) =~= d0.skip(self.start@ as int) + tmp@.take(
                    n as int,
                ));
                assert(n as u128 * NANOS_PER_SEC as u128 <= self.quota) by (nonlinear_arith)
                    requires
                        n <= count,
                        count <= whole,
                        whole == self.quota / 1_000_000_000,
                        NANOS_PER_SEC == 1_000_000_000,
                {
                }
                self.quota = self.quota - n as u128 * NANOS_PER_SEC as u128;
                Ok(n)
            },
            Err(e) => Err(e),
        }
    }

    fn register_callback(&mut self, disk: &mut Disk, callback: Action) {
        let ghost d0 = *disk;
        self.base.register_callback(disk, callback);
        let ghost d1 = *disk;
        self.wrappee.register_callback(disk, callback);
        proof {
            lemma_only_appended_trans(d0, d1, *disk);
            if d0.next_id() < u64::MAX {
                lemma_has_run_kept(d1, *disk, callback);
            }
        }
    }

    fn unregister_callback(&mut self) {
        self.base.unregister_callback();
        self.wrappee.unregister_callback();
    }
}

} // verus!
