//! A window `[begin, end)` onto a wrappee.

use vstd::prelude::*;
use crate::error::Error;
use crate::reactor::{Action, Disk};
use crate::stream::{base, copy_into, lemma_has_run_kept, lemma_only_appended_trans, only_appended, ByteStreamBody};

verus! {

/// Skips the first `begin` bytes of the wrappee, then hands out bytes up to
/// offset `end`; without an end it mirrors the wrappee's end of stream.
pub struct Stream<W: ByteStreamBody> {
    base: base::StreamBody,
    wrappee: W,
    begin: u128,
    end: Option<u128>,
    cursor: u128,
    start: Ghost<nat>,
}

/// The part of `w`, the wrappee's content from offset `p` on, that falls in
/// the window from `begin` up to `end`.
pub open spec fn window_rest(w: Seq<u8>, p: int, begin: int, end: Option<u128>) -> Seq<u8> {
    let lo = if p >= begin { 0 } else if begin - p < w.len() { begin - p } else { w.len() as int };
    match end {
        Some(e) => {
            let hi = if e <= p { 0 } else if e - p < w.len() { e - p } else { w.len() as int };
            if hi > lo { w.subrange(lo, hi) } else { Seq::empty() }
        },
        None => w.skip(lo),
    }
}

/// `a + b`, saturating at the largest `u128`.
pub open spec fn sat_add(a: nat, b: nat) -> nat {
    if a + b > u128::MAX { u128::MAX as nat } else { a + b }
}

impl<W: ByteStreamBody> Stream<W> {
    pub closed spec fn source(&self) -> W {
        self.wrappee
    }

    pub closed spec fn origin(&self) -> nat {
        self.start@
    }

    pub closed spec fn window_begin(&self) -> nat {
        self.begin as nat
    }

    pub closed spec fn window_end(&self) -> Option<u128> {
        self.end
    }

    /// Offset reached in the wrappee (saturating).
    pub closed spec fn position(&self) -> nat {
        self.cursor as nat
    }

    /// Every byte pulled from the wrappee since the window was made.
    pub open spec fn pulled(&self) -> Seq<u8> {
        self.source().delivered().skip(self.origin() as int)
    }

    pub fn new(disk: &mut Disk, wrappee: W, begin: u128, end: Option<u128>) -> (s: Stream<W>)
        requires
            old(disk).wf(),
            wrappee.inv(),
        ensures
            final(disk).wf(),
            only_appended(*old(disk), *final(disk)),
            s.inv(),
            s.source() == wrappee,
            s.window_begin() == begin,
            s.window_end() == end,
            s.origin() == wrappee.delivered().len(),
            s.position() == 0,
            s.delivered() == Seq::<u8>::empty(),
    {
        let ghost start = wrappee.delivered().len();
        let s = Stream { base: base::StreamBody::new(disk), wrappee, begin, end, cursor: 0, start: Ghost(start) };
        assert(s.wrappee.delivered().skip(start as int) =~= Seq::<u8>::empty());
        s
    }

    /// The wrappee, positioned right after the window, once the window is
    /// exhausted; otherwise the stream itself, unchanged.
    pub fn remainder(self) -> (r: Result<W, Stream<W>>)
        requires
            self.inv(),
        ensures
            match r {
                Ok(w) => {
                    &&& (self.window_end() matches Some(e) && self.position() >= e)
                    &&& w == self.source()
                    &&& w.delivered().len() == self.origin() + self.position()
                },
                Err(s) => s == self && !(self.window_end() matches Some(e) && self.position() >= e),
            },
    {
        match self.end {
            Some(e) => {
                if self.cursor >= e {
                    Ok(self.wrappee)
                } else {
                    Err(self)
                }
            },
            None => Err(self),
        }
    }

    /// Reads and drops wrappee bytes until offset `begin`; `Ok(false)` when
    /// the wrappee ended first.
    fn skip_to_begin(&mut self, disk: &mut Disk, room_max: usize) -> (r: Result<bool, Error>)
        requires
            old(self).inv(),
            old(disk).wf(),
            room_max > 0,
        ensures
            final(self).inv(),
            final(disk).wf(),
            final(self).delivered() == old(self).delivered(),
            final(self).begin == old(self).begin,
            final(self).end == old(self).end,
            final(self).start@ == old(self).start@,
            r == Ok::<bool, Error>(true) ==> final(self).cursor >= final(self).begin,
            old(self).remaining() is Some ==> final(self).remaining() == old(self).remaining(),
            old(self).remaining() is Some && r == Ok::<bool, Error>(false) ==> old(self).remaining()->Some_0.len()
                == 0,
            old(self).remaining() is Some ==> r is Ok,
            old(self).cursor >= old(self).begin ==> {
                &&& r == Ok::<bool, Error>(true)
                &&& *final(self) == *old(self)
                &&& *final(disk) == *old(disk)
            },
    {
        let mut outcome: Result<bool, Error> = Ok(true);
        let mut stop = false;
        while self.cursor < self.begin && !stop
            invariant
                self.inv(),
                disk.wf(),
                room_max > 0,
                self.delivered() == old(self).delivered(),
                self.begin == old(self).begin,
                self.end == old(self).end,
                self.start@ == old(self).start@,
                !stop <==> outcome == Ok::<bool, Error>(true),
                old(self).remaining() is Some ==> self.remaining() == old(self).remaining(),
                old(self).remaining() is Some && outcome == Ok::<bool, Error>(false) ==> old(
                    self,
                ).remaining()->Some_0.len() == 0,
                old(self).remaining() is Some ==> outcome is Ok,
                old(self).cursor >= old(self).begin ==> *self == *old(self) && *disk == *old(disk) && !stop,
            decreases self.begin - self.cursor + if stop { 0int } else { 1int },
        {
            let gap: u128 = self.begin - self.cursor;
            let room: usize = if (room_max as u128) < gap { room_max } else { gap as usize };
            let mut tmp: Vec<u8> = vec![0u8; room];
            let ghost d0 = self.wrappee.delivered();
            let ghost pulled0 = self.pulled();
            let ghost w0 = self.wrappee.remaining();
            match self.wrappee.read(disk, tmp.as_mut_slice()) {
                Ok(0) => {
                    assert(d0 + tmp@.take(0) =~= d0);
                    proof {
                        if old(self).remaining() is Some {
                            assert(w0->Some_0.len() == 0);
                            assert(window_rest(w0->Some_0, pulled0.len() as int, self.begin as int, self.end)
                                =~= Seq::<u8>::empty());
                        }
                    }
                    outcome = Ok(false);
                    stop = true;
                },
                Ok(n) => {
                    assert((d0 + tmp@.take(n as int)).skip(self.start@ as int) =~= pulled0 + tmp@.take(n as int));
                    self.cursor = self.cursor + n as u128;
                    proof {
                        if old(self).remaining() is Some {
                            let w = w0->Some_0;
                            let w2 = self.wrappee.remaining()->Some_0;
                            let p = pulled0.len() as int;
                            assert(w == tmp@.take(n as int) + w2);
                            assert(window_rest(w, p, self.begin as int, self.end) =~= window_rest(
                                w2,
                                p + n,
                                self.begin as int,
                                self.end,
                            ));
                        }
                    }
                },
                Err(e) => {
                    outcome = Err(e);
                    stop = true;
                },
            }
        }
        outcome
    }

    /// A window `[b, e)` hands out exactly the wrappee's bytes from offset
    /// `b` on, and never more than `e - b` of them.
    pub proof fn lemma_window(&self)
        requires
            self.inv(),
            (self.window_end() matches Some(e) && self.window_begin() <= e),
        ensures
            self.delivered().len() <= self.window_end()->Some_0 - self.window_begin(),
            self.pulled().len() > self.window_begin() ==> self.delivered().len() == self.pulled().len()
                - self.window_begin(),
            forall|i: int|
                0 <= i < self.delivered().len() ==> #[trigger] self.delivered()[i] == self.pulled()[self.window_begin()
                    + i],
    {
    }

    /// What the window hands out: nothing before offset `begin`, then the
    /// wrappee's bytes from there on; with the wrappee's content determined,
    /// what is left is exactly its part inside the window.
    pub proof fn lemma_sub_output(&self)
        requires
            self.inv(),
        ensures
            self.pulled().len() <= self.window_begin() ==> self.delivered().len() == 0,
            self.pulled().len() > self.window_begin() ==> self.delivered() == self.pulled().skip(
                self.window_begin() as int,
            ),
            self.source().remaining() is Some ==> self.remaining() == Some(
                window_rest(
                    self.source().remaining()->Some_0,
                    self.pulled().len() as int,
                    self.window_begin() as int,
                    self.window_end(),
                ),
            ),
            self.source().remaining() is None ==> self.remaining() is None,
            self.origin() <= self.source().delivered().len(),
            self.position() == if self.pulled().len() > u128::MAX {
                u128::MAX as nat
            } else {
                self.pulled().len()
            },
            self.window_end() matches Some(e) ==> self.pulled().len() <= self.window_begin()
                || self.pulled().len() <= e,
    {
    }
}

impl<W: ByteStreamBody> ByteStreamBody for Stream<W> {
    closed spec fn delivered(&self) -> Seq<u8> {
        let p = self.wrappee.delivered().skip(self.start@ as int);
        if p.len() <= self.begin { Seq::empty() } else { p.skip(self.begin as int) }
    }

    closed spec fn inv(&self) -> bool {
        let p = self.wrappee.delivered().skip(self.start@ as int);
        &&& self.wrappee.inv()
        &&& self.start@ <= self.wrappee.delivered().len()
        &&& self.cursor as nat == if p.len() > u128::MAX { u128::MAX as nat } else { p.len() }
        &&& (self.end matches Some(e) ==> p.len() <= self.begin || p.len() <= e)
    }

    /// With the wrappee's content determined: what is left of the window.
    closed spec fn remaining(&self) -> Option<Seq<u8>> {
        match self.wrappee.remaining() {
            Some(w) => Some(window_rest(w, self.wrappee.delivered().len() - self.start@, self.begin as int, self.end)),
            None => None,
        }
    }

    #[verifier::rlimit(50)]
    fn read(&mut self, disk: &mut Disk, buf: &mut [u8]) -> (r: Result<usize, Error>)
        ensures
            (old(buf)@.len() > 0 && (old(self).window_end() matches Some(e) && old(self).position() >= e)
                && old(self).position() >= old(self).window_begin()) ==> r == Ok::<usize, Error>(0),
    {
        if buf.len() == 0 {
            assert(buf@.take(0) =~= Seq::<u8>::empty());
            return Ok(0);
        }
        let len = buf.len();
        match self.skip_to_begin(disk, len) {
            Ok(true) => {},
            Ok(false) => {
                assert(buf@.take(0) =~= Seq::<u8>::empty());
                return Ok(0);
            },
            Err(e) => {
                return Err(e);
            },
        }
        let ghost d0 = self.wrappee.delivered();
        let ghost pulled0 = self.pulled();
        let ghost s0 = self.delivered();
        let ghost w0 = self.wrappee.remaining();
        match self.end {
            Some(e) => {
                if self.cursor < e {
                    let gap: u128 = e - self.cursor;
                    let room: usize = if (len as u128) < gap { len } else { gap as usize };
                    let mut tmp: Vec<u8> = vec![0u8; room];
                    match self.wrappee.read(disk, tmp.as_mut_slice()) {
                        Ok(n) => {
                            copy_into(buf, 0, tmp.as_slice(), n);
                            assert(buf@.take(n as int) =~= tmp@.take(n as int)) by {
                                assert(buf@.take(0 + n) =~= buf@.take(0int) + tmp@.take(n as int));
                            }
                            assert((d0 + tmp@.take(n as int)).skip(self.start@ as int) =~= pulled0 + tmp@.take(n as int));
                            self.cursor = self.cursor + n as u128;
                            if n > 0 {
                                assert((pulled0 + tmp@.take(n as int)).skip(self.begin as int) =~= s0 + tmp@.take(
                                    n as int,
                                ));
                            } else {
                                assert(tmp@.take(0) =~= Seq::<u8>::empty());
                                assert(pulled0 + tmp@.take(0) =~= pulled0);
                                assert(s0 + buf@.take(0) =~= s0);
                            }
                            proof {
                                if w0 is Some {
                                    let w = w0->Some_0;
                                    let w2 = self.wrappee.remaining()->Some_0;
                                    let p = pulled0.len() as int;
                                    assert(w == tmp@.take(n as int) + w2);
                                    assert(p >= self.begin);
                                    assert(window_rest(w, p, self.begin as int, self.end) =~= buf@.take(n as int)
                                        + window_rest(w2, p + n, self.begin as int, self.end));
                                    if n == 0 {
                                        assert(w.len() == 0);
                                    } else {
                                        assert(window_rest(w, p, self.begin as int, self.end).len() > 0);
                                    }
                                }
                            }
                            Ok(n)
                        },
                        Err(err) => Err(err),
                    }
                } else {
                    assert(buf@.take(0) =~= Seq::<u8>::empty());
                    proof {
                        if w0 is Some {
                            assert(window_rest(w0->Some_0, pulled0.len() as int, self.begin as int, self.end)
                                =~= Seq::<u8>::empty());
                            assert(buf@.take(0) + Seq::<u8>::empty() =~= Seq::<u8>::empty());
                        }
                    }
                    Ok(0)
                }
            },
            None => {
                let result = self.wrappee.read(disk, buf);
                match result {
                    Ok(n) => {
                        assert((d0 + buf@.take(n as int)).skip(self.start@ as int) =~= pulled0 + buf@.take(n as int));
                        let sum: u128 = if (n as u128) > u128::MAX - self.cursor {
                            u128::MAX
                        } else {
                            self.cursor + n as u128
                        };
                        self.cursor = sum;
                        proof {
                            if w0 is Some {
                                let w = w0->Some_0;
                                let w2 = self.wrappee.remaining()->Some_0;
                                assert(w == buf@.take(n as int) + w2);
                                assert(w.skip(0) =~= w);
                                assert(w2.skip(0) =~= w2);
                            }
                        }
                        if n > 0 {
                            assert((pulled0 + buf@.take(n as int)).skip(self.begin as int) =~= s0 + buf@.take(n as int));
                        } else {
                            assert(buf@.take(0) =~= Seq::<u8>::empty());
                            assert(pulled0 + buf@.take(0) =~= pulled0);
                            assert(s0 + buf@.take(0) =~= s0);
                            if self.cursor < u128::MAX {
                                self.end = Some(self.cursor);
                                proof {
                                    if w0 is Some {
                                        assert(window_rest(
                                            self.wrappee.remaining()->Some_0,
                                            self.pulled().len() as int,
                                            self.begin as int,
                                            self.end,
                                        ) =~= Seq::<u8>::empty());
                                    }
                                }
                            }
                        }
                    },
                    Err(_) => {},
                }
                result
            },
        }
    }

    fn register_callback(&mut self, disk: &mut Disk, callback: Action) {
        let ghost d0 = *disk;
        self.base.register_callback(disk, callback);
        let ghost d1 = *disk;
        self.wrappee.register_callback(disk, callback);
        proof {
            lemma_only_appended_trans(d0, d1, *disk);
            if d0.next_id() < u64::MAX {
                lemma_has_run_kept(d1, *disk, callback);
            }
        }
    }

    fn unregister_callback(&mut self) {
        self.base.unregister_callback();
        self.wrappee.unregister_callback();
    }
}

} // verus!
