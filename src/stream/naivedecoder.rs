//! A stream that unframes its wrappee's bytes up to the first terminator.

use vstd::prelude::*;
use crate::error::{proto, Error, EPROTO};
use crate::reactor::{Action, Disk};
use crate::stream::framing::{
    dec_run, dec_step, encode, lemma_dec_run_concat, lemma_dec_run_done, lemma_dec_run_empty, lemma_round_trip, Phase,
};
use crate::stream::{base, copy_into, lemma_has_run_kept, lemma_only_appended_trans, only_appended, ByteStreamBody};

verus! {

/// Copies bytes through, dropping escape bytes and stopping at the first
/// unescaped terminator; end of stream before it is a protocol error.
pub struct Stream<W: ByteStreamBody> {
    base: base::StreamBody,
    wrappee: W,
    terminator: u8,
    escape: Option<u8>,
    phase: Phase,
    errored: bool,
    rest: Vec<u8>,
    consumed: Ghost<Seq<u8>>,
    start: Ghost<nat>,
}

/// The wrappee positioned right after a frame: first the bytes pulled past
/// the terminator, then the wrappee itself.
pub struct Rest<W: ByteStreamBody> {
    base: base::StreamBody,
    leftover: Vec<u8>,
    pos: usize,
    wrappee: W,
    start: Ghost<nat>,
}

impl<W: ByteStreamBody> Stream<W> {
    pub closed spec fn source(&self) -> W {
        self.wrappee
    }

    pub closed spec fn origin(&self) -> nat {
        self.start@
    }

    pub closed spec fn term(&self) -> u8 {
        self.terminator
    }

    pub closed spec fn esc(&self) -> Option<u8> {
        self.escape
    }

    pub closed spec fn stage(&self) -> Phase {
        self.phase
    }

    pub closed spec fn is_errored(&self) -> bool {
        self.errored
    }

    /// The bytes run through the decoder.
    pub closed spec fn frame(&self) -> Seq<u8> {
        self.consumed@
    }

    /// Bytes pulled past the terminator.
    pub closed spec fn leftover(&self) -> Seq<u8> {
        self.rest@
    }

    /// Every byte pulled from the wrappee.
    pub open spec fn pulled(&self) -> Seq<u8> {
        self.source().delivered().skip(self.origin() as int)
    }

    pub fn new(disk: &mut Disk, wrappee: W, terminator: u8, escape: Option<u8>) -> (s: Stream<W>)
        requires
            old(disk).wf(),
            wrappee.inv(),
        ensures
            final(disk).wf(),
            only_appended(*old(disk), *final(disk)),
            s.inv(),
            s.source() == wrappee,
            s.term() == terminator,
            s.esc() == escape,
            s.stage() == Phase::Reading,
            !s.is_errored(),
            s.delivered() == Seq::<u8>::empty(),
    {
        let ghost start = wrappee.delivered().len();
        let s = Stream {
            base: base::StreamBody::new(disk),
            wrappee,
            terminator,
            escape,
            phase: Phase::Reading,
            errored: false,
            rest: Vec::new(),
            consumed: Ghost(Seq::empty()),
            start: Ghost(start),
        };
        assert(s.wrappee.delivered().skip(start as int) =~= Seq::<u8>::empty());
        s
    }

    /// When the wrappee delivered exactly the frame of `payload`, the
    /// decoder delivered `payload` and nothing is left past the frame.
    pub proof fn lemma_round_trip_stream(&self, payload: Seq<u8>)
        requires
            self.inv(),
            self.stage() == Phase::Done,
            self.pulled() == encode(payload, self.term(), self.esc()),
            self.esc() != Some(self.term()),
            self.esc() is None ==> !payload.contains(self.term()),
        ensures
            self.delivered() == payload,
            self.leftover().len() == 0,
    {
        let f = encode(payload, self.term(), self.esc());
        lemma_round_trip(payload, self.term(), self.esc());
        let k = self.frame().len() as int;
        assert(f.take(k) =~= self.frame());
        if k < f.len() {
            assert(dec_run(f.take(k), Phase::Reading, self.term(), self.esc()).0 != Phase::Done);
        }
        assert(self.frame() =~= f);
    }

    /// The stream positioned right after the terminator, once it was
    /// reached; otherwise the decoder itself, unchanged.
    pub fn remainder(self, disk: &mut Disk) -> (r: Result<Rest<W>, Stream<W>>)
        requires
            self.inv(),
            old(disk).wf(),
        ensures
            final(disk).wf(),
            only_appended(*old(disk), *final(disk)),
            match r {
                Ok(rest) => {
                    &&& self.stage() == Phase::Done
                    &&& rest.inv()
                    &&& rest.unread() == self.leftover()
                    &&& rest.source() == self.source()
                    &&& rest.delivered() == Seq::<u8>::empty()
                },
                Err(s) => s == self && self.stage() != Phase::Done && *final(disk) == *old(disk),
            },
    {
        if self.phase == Phase::Done {
            let base = base::StreamBody::new(disk);
            let ghost start = self.wrappee.delivered().len();
            let r = Rest { base, leftover: self.rest, pos: 0, wrappee: self.wrappee, start: Ghost(start) };
            assert(r.leftover@.take(0) =~= Seq::<u8>::empty());
            assert(r.wrappee.delivered().skip(start as int) =~= Seq::<u8>::empty());
            assert(Seq::<u8>::empty() + Seq::<u8>::empty() =~= Seq::<u8>::empty());
            Ok(r)
        } else {
            assert(disk.pending().take(disk.pending().len() as int) =~= disk.pending());
            Err(self)
        }
    }

    /// Decodes `chunk[..n]` from the current phase into `buf`, stopping
    /// after a terminator.
    fn decode(&mut self, chunk: &Vec<u8>, n: usize, buf: &mut [u8]) -> (r: (usize, usize))
        requires
            n <= chunk@.len(),
            n <= old(buf)@.len(),
        ensures
            final(buf)@.len() == old(buf)@.len(),
            r.1 <= n,
            r.0 <= r.1,
            dec_run(chunk@.take(r.1 as int), old(self).phase, old(self).terminator, old(self).escape) == (
                final(self).phase,
                final(buf)@.take(r.0 as int),
            ),
            r.1 < n ==> final(self).phase == Phase::Done,
            old(self).phase != Phase::Done && final(self).phase == Phase::Done ==> r.1 > 0,
            old(self).phase == Phase::Escaped && n > 0 ==> r.0 > 0 || final(self).phase == Phase::Done,
            old(self).phase == Phase::Reading && n > 0 && r.0 == 0 && final(self).phase != Phase::Done
                ==> final(self).phase == Phase::Escaped,
            final(self).terminator == old(self).terminator,
            final(self).escape == old(self).escape,
            final(self).wrappee == old(self).wrappee,
            final(self).start == old(self).start,
            final(self).consumed == old(self).consumed,
            final(self).rest == old(self).rest,
            final(self).errored == old(self).errored,
            final(self).base == old(self).base,
    {
        let mut ri: usize = 0;
        let mut wi: usize = 0;
        assert(chunk@.take(0) =~= Seq::<u8>::empty());
        assert(buf@.take(0) =~= Seq::<u8>::empty());
        while ri < n && self.phase != Phase::Done
            invariant
                n <= chunk@.len(),
                n <= buf@.len(),
                buf@.len() == old(buf)@.len(),
                wi <= ri <= n,
                dec_run(chunk@.take(ri as int), old(self).phase, old(self).terminator, old(self).escape) == (
                    self.phase,
                    buf@.take(wi as int),
                ),
                old(self).phase != Phase::Done && self.phase == Phase::Done ==> ri > 0,
                old(self).phase == Phase::Escaped && ri > 0 ==> wi > 0 || self.phase == Phase::Done,
                old(self).phase == Phase::Reading && ri > 0 && wi == 0 && self.phase != Phase::Done ==> self.phase
                    == Phase::Escaped,
                old(self).phase == Phase::Done ==> ri == 0,
                self.terminator == old(self).terminator,
                self.escape == old(self).escape,
                self.wrappee == old(self).wrappee,
                self.start == old(self).start,
                self.consumed == old(self).consumed,
                self.rest == old(self).rest,
                self.errored == old(self).errored,
                self.base == old(self).base,
            decreases n - ri,
        {
            let b = chunk[ri];
            let ghost phase0 = self.phase;
            let ghost b0 = buf@;
            let ghost w0 = wi;
            let ghost step = dec_step(phase0, b, self.terminator, self.escape);
            match self.phase {
                Phase::Reading => {
                    if b == self.terminator {
                        self.phase = Phase::Done;
                    } else if self.escape == Some(b) {
                        self.phase = Phase::Escaped;
                    } else {
                        buf[wi] = b;
                        wi = wi + 1;
                    }
                },
                Phase::Escaped => {
                    buf[wi] = b;
                    wi = wi + 1;
                    self.phase = Phase::Reading;
                },
                Phase::Done => {},
            }
            ri = ri + 1;
            proof {
                assert(chunk@.take(ri as int).drop_last() =~= chunk@.take(ri - 1));
                assert(chunk@.take(ri as int).last() == b);
                assert(step.0 == self.phase);
                if wi > w0 {
                    assert(buf@.take(wi as int) =~= b0.take(w0 as int) + seq![b]);
                    assert(step.1 =~= seq![b]);
                } else {
                    assert(buf@.take(wi as int) =~= b0.take(w0 as int));
                    assert(step.1 =~= Seq::<u8>::empty());
                    assert(b0.take(w0 as int) + Seq::<u8>::empty() =~= b0.take(w0 as int));
                }
            }
        }
        (wi, ri)
    }

    /// The output is the decoding of the bytes run through the decoder,
    /// which are what the wrappee delivered up to the terminator.
    pub proof fn lemma_decoded(&self)
        requires
            self.inv(),
        ensures
            dec_run(self.frame(), Phase::Reading, self.term(), self.esc()) == (self.stage(), self.delivered()),
            self.stage() != Phase::Done ==> self.pulled() == self.frame(),
            self.stage() == Phase::Done ==> self.pulled() == self.frame() + self.leftover(),
            self.is_errored() ==> self.stage() != Phase::Done,
            !self.is_errored() && self.stage() == Phase::Done ==> self.remaining() == Some(Seq::<u8>::empty()),
            !self.is_errored() && self.stage() != Phase::Done && self.source().remaining() is Some && dec_run(
                self.source().remaining()->Some_0,
                self.stage(),
                self.term(),
                self.esc(),
            ).0 == Phase::Done ==> self.remaining() == Some(
                dec_run(self.source().remaining()->Some_0, self.stage(), self.term(), self.esc()).1,
            ),
    {
    }
}

impl<W: ByteStreamBody> ByteStreamBody for Stream<W> {
    closed spec fn delivered(&self) -> Seq<u8> {
        dec_run(self.consumed@, Phase::Reading, self.terminator, self.escape).1
    }

    closed spec fn inv(&self) -> bool {
        let pulled = self.wrappee.delivered().skip(self.start@ as int);
        &&& self.wrappee.inv()
        &&& self.start@ <= self.wrappee.delivered().len()
        &&& dec_run(self.consumed@, Phase::Reading, self.terminator, self.escape).0 == self.phase
        &&& self.phase != Phase::Done ==> pulled == self.consumed@ && self.rest@.len() == 0
        &&& self.phase == Phase::Done ==> pulled == self.consumed@ + self.rest@
        &&& self.errored ==> self.phase != Phase::Done
    }

    /// With a wrappee whose content holds the terminator: the rest of the
    /// payload.
    closed spec fn remaining(&self) -> Option<Seq<u8>> {
        if self.errored {
            None
        } else if self.phase == Phase::Done {
            Some(Seq::empty())
        } else {
            match self.wrappee.remaining() {
                Some(w) => if dec_run(w, self.phase, self.terminator, self.escape).0 == Phase::Done {
                    Some(dec_run(w, self.phase, self.terminator, self.escape).1)
                } else {
                    None
                },
                None => None,
            }
        }
    }

    fn read(&mut self, disk: &mut Disk, buf: &mut [u8]) -> (r: Result<usize, Error>)
        ensures
            old(buf)@.len() > 0 && old(self).is_errored() ==> r == Err::<usize, Error>(Error { code: EPROTO }),
            old(buf)@.len() > 0 && old(self).stage() == Phase::Done && !old(self).is_errored() ==> r == Ok::<
                usize,
                Error,
            >(0),
            old(buf)@.len() > 0 && r == Ok::<usize, Error>(0) ==> final(self).stage() == Phase::Done,
            !old(self).is_errored() && final(self).is_errored() ==> r == Err::<usize, Error>(Error { code: EPROTO }),
            old(buf)@.len() > 0 && !old(self).is_errored() && old(self).stage() != Phase::Done
                && old(self).source().remaining() == Some(Seq::<u8>::empty()) ==> r == Err::<usize, Error>(
                Error { code: EPROTO },
            ) && final(self).is_errored(),
            old(buf)@.len() > 0 && !old(self).is_errored() && old(self).source().remaining() is Some ==> (r is Ok || (r
                == Err::<usize, Error>(Error { code: EPROTO }) && final(self).is_errored())),
            r matches Ok(n) && n > 0 ==> final(self).frame().len() > old(self).frame().len(),
            final(self).is_errored() == (old(self).is_errored() || (r == Err::<usize, Error>(Error { code: EPROTO })
                && final(self).is_errored())),
    {
        if buf.len() == 0 {
            assert(buf@.take(0) =~= Seq::<u8>::empty());
            return Ok(0);
        }
        if self.errored {
            return Err(proto());
        }
        if self.phase == Phase::Done {
            assert(buf@.take(0) =~= Seq::<u8>::empty());
            assert(self.delivered() + Seq::<u8>::empty() =~= self.delivered());
            return Ok(0);
        }
        let ghost sent0 = self.delivered();
        let len = buf.len();
        let mut attempt: usize = 0;
        let mut stop = false;
        let mut outcome: Result<usize, Error> = Ok(0);
        while !stop
            invariant
                self.inv(),
                disk.wf(),
                len == buf@.len(),
                buf@.len() == old(buf)@.len(),
                len > 0,
                attempt <= 1,
                attempt == 1 && !stop ==> self.phase == Phase::Escaped,
                !stop ==> self.phase != Phase::Done && !self.errored,
                !stop ==> self.delivered() == sent0,
                stop ==> match outcome {
                    Ok(n) => n <= len && self.delivered() == sent0 + buf@.take(n as int) && (n == 0 ==> self.phase
                        == Phase::Done),
                    Err(_) => self.delivered() == sent0,
                },
                self.start@ == old(self).start@,
                self.terminator == old(self).terminator,
                self.escape == old(self).escape,
                self.errored ==> stop && outcome == Err::<usize, Error>(Error { code: EPROTO }),
                (stop && (outcome matches Ok(n) && n > 0)) ==> self.consumed@.len() > old(self).consumed@.len(),
                self.consumed@.len() >= old(self).consumed@.len(),
                old(self).source().remaining() is Some ==> self.wrappee.remaining() is Some,
                old(self).source().remaining() is Some && stop && outcome is Err ==> self.errored,
                old(self).source().remaining() == Some(Seq::<u8>::empty()) ==> self.wrappee.remaining() == Some(
                    Seq::<u8>::empty(),
                ) && (stop ==> self.errored),
                old(self).remaining() is Some ==> !self.errored && self.remaining() is Some,
                old(self).remaining() is Some && !stop ==> self.remaining() == old(self).remaining()
                    && self.phase != Phase::Done,
                old(self).remaining() is Some && stop ==> (outcome matches Ok(n) && old(self).remaining()->Some_0
                    == buf@.take(n as int) + self.remaining()->Some_0 && (n == 0 <==> old(
                    self,
                ).remaining()->Some_0.len() == 0)),
            decreases (1 - attempt) + if stop { 0int } else { 1int },
        {
            let ghost r_before = self.remaining();
            let ghost w_before = self.wrappee.remaining();
            proof {
                if old(self).remaining() is Some {
                    if w_before->Some_0.len() == 0 {
                        lemma_dec_run_empty(self.phase, self.terminator, self.escape);
                    }
                }
            }
            let mut tmp: Vec<u8> = vec![0u8; len];
            let ghost d0 = self.wrappee.delivered();
            let ghost c0 = self.consumed@;
            let ghost ph0 = self.phase;
            match self.wrappee.read(disk, tmp.as_mut_slice()) {
                Ok(0) => {
                    assert(d0 + tmp@.take(0) =~= d0);
                    proof {
                        if old(self).remaining() is Some {
                            assert(r_before == old(self).remaining());
                            assert(w_before is Some);
                            assert(w_before->Some_0.len() == 0);
                            lemma_dec_run_empty(ph0, self.terminator, self.escape);
                            assert(w_before->Some_0 =~= Seq::<u8>::empty());
                            assert(dec_run(w_before->Some_0, ph0, self.terminator, self.escape).0 == ph0);
                        }
                    }
                    self.errored = true;
                    outcome = Err(proto());
                    stop = true;
                },
                Ok(n) => {
                    assert(n > 0);
                    let (wi, ri) = self.decode(&tmp, n, buf);
                    let ghost part = tmp@.take(ri as int);
                    proof {
                        lemma_dec_run_concat(c0, part, Phase::Reading, self.terminator, self.escape);
                    }
                    self.consumed = Ghost(c0 + part);
                    if self.phase == Phase::Done {
                        let mut rest: Vec<u8> = Vec::new();
                        let mut k: usize = ri;
                        while k < n
                            invariant
                                ri <= k <= n,
                                n <= tmp@.len(),
                                rest@ == tmp@.subrange(ri as int, k as int),
                            decreases n - k,
                        {
                            rest.push(tmp[k]);
                            k = k + 1;
                            assert(rest@ =~= tmp@.subrange(ri as int, k as int));
                        }
                        self.rest = rest;
                        assert(tmp@.take(n as int) =~= part + self.rest@);
                    } else {
                        assert(ri == n);
                        assert(tmp@.take(n as int) =~= part);
                    }
                    assert((d0 + tmp@.take(n as int)).skip(self.start@ as int) =~= c0 + tmp@.take(n as int));
                    assert(self.delivered() == sent0 + buf@.take(wi as int));
                    proof {
                        if old(self).remaining() is Some {
                            let w = w_before->Some_0;
                            let w2 = self.wrappee.remaining()->Some_0;
                            let t = self.terminator;
                            let es = self.escape;
                            assert(w == tmp@.take(n as int) + w2);
                            let out = buf@.take(wi as int);
                            assert(dec_run(part, ph0, t, es) == (self.phase, out));
                            if self.phase == Phase::Done {
                                let after = tmp@.subrange(ri as int, n as int) + w2;
                                assert(w =~= part + after);
                                lemma_dec_run_concat(part, after, ph0, t, es);
                                lemma_dec_run_done(after, t, es);
                                assert(out + Seq::<u8>::empty() =~= out);
                                assert(dec_run(w, ph0, t, es) == (Phase::Done, out));
                                assert(out + Seq::<u8>::empty() =~= out);
                            } else {
                                assert(w =~= part + w2);
                                lemma_dec_run_concat(part, w2, ph0, t, es);
                            }
                        }
                    }
                    assert(dec_run(self.consumed@, Phase::Reading, self.terminator, self.escape).0 == self.phase);
                    assert(self.wrappee.inv());
                    assert(self.start@ <= self.wrappee.delivered().len());
                    assert(self.phase != Phase::Done ==> self.wrappee.delivered().skip(self.start@ as int) == self.consumed@);
                    assert(self.phase == Phase::Done ==> self.wrappee.delivered().skip(self.start@ as int) == self.consumed@ + self.rest@);
                    if wi > 0 || self.phase == Phase::Done {
                        outcome = Ok(wi);
                        stop = true;
                        proof {
                            if old(self).remaining() is Some {
                                if self.phase == Phase::Done {
                                    assert(self.remaining() == Some(Seq::<u8>::empty()));
                                } else {
                                    assert(dec_run(w_before->Some_0, ph0, self.terminator, self.escape).1 =~= buf@.take(
                                        wi as int,
                                    ) + self.remaining()->Some_0);
                                }
                                assert(old(self).remaining()->Some_0 =~= buf@.take(wi as int) + self.remaining()->Some_0);
                            }
                        }
                    } else {
                        assert(buf@.take(0) =~= Seq::<u8>::empty());
                        assert(sent0 + Seq::<u8>::empty() =~= sent0);
                        proof {
                            if old(self).remaining() is Some {
                                assert(Seq::<u8>::empty() + self.remaining()->Some_0 =~= self.remaining()->Some_0);
                                assert(self.remaining() == r_before);
                            }
                        }
                        attempt = attempt + 1;
                    }
                },
                Err(e) => {
                    assert(old(self).remaining() is None);
                    outcome = Err(e);
                    stop = true;
                },
            }
        }
        outcome
    }

    fn register_callback(&mut self, disk: &mut Disk, callback: Action) {
        let ghost d0 = *disk;
        self.base.register_callback(disk, callback);
        let ghost d1 = *disk;
        self.wrappee.register_callback(disk, callback);
        proof {
            lemma_only_appended_trans(d0, d1, *disk);
            if d0.next_id() < u64::MAX {
                lemma_has_run_kept(d1, *disk, callback);
            }
        }
    }

    fn unregister_callback(&mut self) {
        self.base.unregister_callback();
        self.wrappee.unregister_callback();
    }
}

impl<W: ByteStreamBody> Rest<W> {
    pub closed spec fn source(&self) -> W {
        self.wrappee
    }

    /// Leftover bytes not yet handed out.
    pub closed spec fn unread(&self) -> Seq<u8> {
        self.leftover@.skip(self.pos as int)
    }

    /// What the remainder will still hand out: the unread leftover, then the
    /// wrappee's content, when that is determined.
    pub proof fn lemma_rest(&self)
        ensures
            self.source().remaining() is Some ==> self.remaining() == Some(
                self.unread() + self.source().remaining()->Some_0,
            ),
            self.source().remaining() is None ==> self.remaining() is None,
    {
    }
}

impl<W: ByteStreamBody> ByteStreamBody for Rest<W> {
    closed spec fn delivered(&self) -> Seq<u8> {
        self.leftover@.take(self.pos as int) + self.wrappee.delivered().skip(self.start@ as int)
    }

    closed spec fn inv(&self) -> bool {
        &&& self.wrappee.inv()
        &&& self.start@ <= self.wrappee.delivered().len()
        &&& self.pos <= self.leftover@.len()
        &&& self.pos < self.leftover@.len() ==> self.wrappee.delivered().len() == self.start@
    }

    /// The unread leftover, then what the wrappee will still hand out.
    closed spec fn remaining(&self) -> Option<Seq<u8>> {
        match self.wrappee.remaining() {
            Some(w) => Some(self.leftover@.skip(self.pos as int) + w),
            None => None,
        }
    }

    fn read(&mut self, disk: &mut Disk, buf: &mut [u8]) -> (r: Result<usize, Error>) {
        if buf.len() == 0 {
            assert(buf@.take(0) =~= Seq::<u8>::empty());
            return Ok(0);
        }
        if self.pos < self.leftover.len() {
            let remaining = self.leftover.len() - self.pos;
            let count = if buf.len() < remaining { buf.len() } else { remaining };
            let mut chunk: Vec<u8> = Vec::new();
            let mut k: usize = 0;
            while k < count
                invariant
                    k <= count,
                    self.pos + count <= self.leftover@.len(),
                    self.leftover@.len() <= usize::MAX,
                    chunk@ == self.leftover@.subrange(self.pos as int, self.pos + k),
                decreases count - k,
            {
                chunk.push(self.leftover[self.pos + k]);
                k = k + 1;
                assert(chunk@ =~= self.leftover@.subrange(self.pos as int, self.pos + k));
            }
            copy_into(buf, 0, chunk.as_slice(), count);
            assert(buf@.take(count as int) =~= chunk@) by {
                assert(buf@.take(0 + count) =~= buf@.take(0int) + chunk@.take(count as int));
            }
            let ghost pos0 = self.pos;
            self.pos = self.pos + count;
            assert(self.leftover@.take(self.pos as int) =~= self.leftover@.take(pos0 as int) + chunk@);
            assert(self.wrappee.delivered().skip(self.start@ as int) =~= Seq::<u8>::empty());
            assert(self.leftover@.take(pos0 as int) + Seq::<u8>::empty() =~= self.leftover@.take(pos0 as int));
            assert(self.leftover@.take(self.pos as int) + Seq::<u8>::empty() =~= self.leftover@.take(self.pos as int));
            return Ok(count);
        }
        let ghost d0 = self.wrappee.delivered();
        let r = self.wrappee.read(disk, buf);
        match r {
            Ok(n) => {
                assert((d0 + buf@.take(n as int)).skip(self.start@ as int) =~= d0.skip(self.start@ as int) + buf@.take(
                    n as int,
                ));
            },
            Err(_) => {},
        }
        r
    }

    fn register_callback(&mut self, disk: &mut Disk, callback: Action) {
        let ghost d0 = *disk;
        self.base.register_callback(disk, callback);
        let ghost d1 = *disk;
        self.wrappee.register_callback(disk, callback);
        proof {
            lemma_only_appended_trans(d0, d1, *disk);
            if d0.next_id() < u64::MAX {
                lemma_has_run_kept(d1, *disk, callback);
            }
        }
    }

    fn unregister_callback(&mut self) {
        self.base.unregister_callback();
        self.wrappee.unregister_callback();
    }
}

} // verus!
