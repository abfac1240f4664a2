//! A stream that frames its wrappee's bytes.

use vstd::prelude::*;
use crate::error::Error;
use crate::reactor::{Action, Disk};
use crate::stream::framing::{enc, enc_byte, encode, lemma_enc_concat, lemma_enc_front, lemma_enc_push};
use crate::stream::{base, lemma_has_run_kept, lemma_only_appended_trans, only_appended, ByteStreamBody};

verus! {

/// How many bytes are pulled from the wrappee at a time.
pub const CHUNK_SIZE: usize = 2000;

/// Copies the wrappee's bytes, escaping the terminator and the escape byte
/// when an escape byte is set, and ends with a single terminator once the
/// wrappee ends.
pub struct Stream<W: ByteStreamBody> {
    base: base::StreamBody,
    wrappee: W,
    terminator: u8,
    escape: Option<u8>,
    buffer: Vec<u8>,
    low: usize,
    escaped: bool,
    finished: bool,
    prefix: Ghost<Seq<u8>>,
    start: Ghost<nat>,
}

impl<W: ByteStreamBody> Stream<W> {
    pub closed spec fn source(&self) -> W {
        self.wrappee
    }

    pub closed spec fn origin(&self) -> nat {
        self.start@
    }

    pub closed spec fn term(&self) -> u8 {
        self.terminator
    }

    pub closed spec fn esc(&self) -> Option<u8> {
        self.escape
    }

    /// Whether the trailing terminator went out.
    pub closed spec fn is_finished(&self) -> bool {
        self.finished
    }

    /// The encoding of the pulled bytes that did not go out yet.
    pub closed spec fn tail(&self) -> Seq<u8> {
        if self.escaped {
            seq![self.buffer@[self.low as int]] + enc(self.buffer@.skip(self.low + 1), self.terminator, self.escape)
        } else {
            enc(self.buffer@.skip(self.low as int), self.terminator, self.escape)
        }
    }

    /// Pulled bytes not encoded yet.
    pub closed spec fn buffered(&self) -> nat {
        (self.buffer@.len() - self.low) as nat
    }

    /// Every byte pulled from the wrappee.
    pub open spec fn pulled(&self) -> Seq<u8> {
        self.source().delivered().skip(self.origin() as int)
    }

    pub fn new(disk: &mut Disk, wrappee: W, terminator: u8, escape: Option<u8>) -> (s: Stream<W>)
        requires
            old(disk).wf(),
            wrappee.inv(),
        ensures
            final(disk).wf(),
            only_appended(*old(disk), *final(disk)),
            s.inv(),
            s.source() == wrappee,
            s.term() == terminator,
            s.esc() == escape,
            !s.is_finished(),
            s.delivered() == Seq::<u8>::empty(),
            wrappee.remaining() is Some ==> s.remaining() == Some(
                encode(wrappee.remaining()->Some_0, terminator, escape),
            ),
            wrappee.remaining() is None ==> s.remaining() is None,
    {
        let ghost start = wrappee.delivered().len();
        let s = Stream {
            base: base::StreamBody::new(disk),
            wrappee,
            terminator,
            escape,
            buffer: Vec::new(),
            low: 0,
            escaped: false,
            finished: false,
            prefix: Ghost(Seq::empty()),
            start: Ghost(start),
        };
        assert(s.wrappee.delivered().skip(start as int) =~= Seq::<u8>::empty());
        assert(s.buffer@.take(0) =~= Seq::<u8>::empty());
        assert(Seq::<u8>::empty() + Seq::<u8>::empty() =~= Seq::<u8>::empty());
        assert(enc(Seq::<u8>::empty(), terminator, escape) + Seq::<u8>::empty() =~= Seq::<u8>::empty());
        assert(s.buffer@.skip(0) =~= Seq::<u8>::empty());
        assert(enc(Seq::<u8>::empty(), terminator, escape) =~= Seq::<u8>::empty());
        proof {
            if wrappee.remaining() is Some {
                assert(s.tail() =~= Seq::<u8>::empty());
                assert(Seq::<u8>::empty() + encode(wrappee.remaining()->Some_0, terminator, escape) =~= encode(
                    wrappee.remaining()->Some_0,
                    terminator,
                    escape,
                ));
            }
        }
        s
    }

    /// Once the terminator went out, the stream delivered exactly the frame
    /// of everything its wrappee delivered.
    pub proof fn lemma_frame(&self)
        requires
            self.inv(),
            self.is_finished(),
        ensures
            self.delivered() == encode(self.pulled(), self.term(), self.esc()),
    {
    }

    /// Before the terminator goes out, the output is the encoding of a
    /// prefix of what the wrappee delivered, plus at most a pending escape
    /// byte.
    pub proof fn lemma_encoded_prefix(&self)
        requires
            self.inv(),
            !self.is_finished(),
        ensures
            exists|k: int|
                0 <= k <= self.pulled().len() && (self.delivered() == crate::stream::framing::enc(
                    self.pulled().take(k),
                    self.term(),
                    self.esc(),
                ) || (self.esc() is Some && self.delivered() == crate::stream::framing::enc(
                    self.pulled().take(k),
                    self.term(),
                    self.esc(),
                ).push(self.esc()->Some_0))),
    {
        let k = self.prefix@.len() + self.low;
        assert(self.pulled().take(k as int) =~= self.prefix@ + self.buffer@.take(self.low as int));
        if self.escaped {
            assert(self.delivered() =~= crate::stream::framing::enc(
                self.pulled().take(k as int),
                self.term(),
                self.esc(),
            ).push(self.esc()->Some_0));
        } else {
            assert(self.delivered() =~= crate::stream::framing::enc(
                self.pulled().take(k as int),
                self.term(),
                self.esc(),
            ));
        }
    }
}

impl<W: ByteStreamBody> ByteStreamBody for Stream<W> {
    closed spec fn delivered(&self) -> Seq<u8> {
        if self.finished {
            encode(self.prefix@ + self.buffer@, self.terminator, self.escape)
        } else {
            enc(self.prefix@ + self.buffer@.take(self.low as int), self.terminator, self.escape) + if self.escaped {
                seq![self.escape->Some_0]
            } else {
                Seq::empty()
            }
        }
    }

    closed spec fn inv(&self) -> bool {
        &&& self.wrappee.inv()
        &&& self.start@ <= self.wrappee.delivered().len()
        &&& self.wrappee.delivered().skip(self.start@ as int) == self.prefix@ + self.buffer@
        &&& self.low <= self.buffer@.len()
        &&& self.escaped ==> {
            &&& self.low < self.buffer@.len()
            &&& self.escape is Some
            &&& (self.buffer@[self.low as int] == self.escape->Some_0 || self.buffer@[self.low as int]
                == self.terminator)
        }
        &&& self.finished ==> self.low == self.buffer@.len() && !self.escaped
    }

    /// With the wrappee's content determined: the rest of the frame.
    closed spec fn remaining(&self) -> Option<Seq<u8>> {
        if self.finished {
            Some(Seq::empty())
        } else {
            match self.wrappee.remaining() {
                Some(w) => Some(self.tail() + encode(w, self.terminator, self.escape)),
                None => None,
            }
        }
    }

    #[verifier::rlimit(80)]
    fn read(&mut self, disk: &mut Disk, buf: &mut [u8]) -> (r: Result<usize, Error>)
        ensures
            old(buf)@.len() > 0 && old(self).is_finished() ==> r == Ok::<usize, Error>(0),
            old(buf)@.len() > 0 && !old(self).is_finished() && old(self).buffered() > 0 ==> (r matches Ok(n)
                && n > 0),
            r is Err ==> final(self).source().delivered() == old(self).source().delivered()
                && !final(self).is_finished(),
            !old(self).is_finished() && final(self).is_finished() ==> r == Ok::<usize, Error>(1)
                && final(buf)@[0] == old(self).term(),
            old(buf)@.len() > 0 && !old(self).is_finished() && old(self).buffered() == 0 && r is Ok
                && final(self).source().delivered() == old(self).source().delivered() ==> final(self).is_finished(),
            final(self).is_finished() ==> final(self).buffered() == 0,
    {
        if buf.len() == 0 {
            assert(buf@.take(0) =~= Seq::<u8>::empty());
            return Ok(0);
        }
        if self.finished {
            assert(buf@.take(0) =~= Seq::<u8>::empty());
            assert(self.delivered() + Seq::<u8>::empty() =~= self.delivered());
            return Ok(0);
        }
        let ghost sent0 = self.delivered();
        let len = buf.len();
        let mut wi: usize = 0;
        let mut stop = false;
        let mut refilled = false;
        let mut failure: Option<Error> = None;
        assert(sent0 + buf@.take(0) =~= sent0);
        while wi < len && !stop
            invariant
                self.inv(),
                disk.wf(),
                len == buf@.len(),
                buf@.len() == old(buf)@.len(),
                wi <= len,
                self.start@ == old(self).start@,
                self.terminator == old(self).terminator,
                self.escape == old(self).escape,
                self.delivered() == sent0 + buf@.take(wi as int),
                !self.finished ==> failure is None || (wi == 0 && stop),
                self.finished ==> stop,
                failure is Some ==> wi == 0 && stop && self.wrappee.delivered() == old(self).wrappee.delivered(),
                self.finished ==> wi == 1 && buf@[0] == self.terminator,
                wi == 0 && old(self).buffered() > 0 ==> self.buffer@ == old(self).buffer@ && self.low == old(
                    self,
                ).low && failure is None && !stop,
                old(self).buffered() == 0 && self.wrappee.delivered() == old(self).wrappee.delivered() && failure is None
                    ==> (self.finished || (wi == 0 && !stop && !refilled && self.low >= self.buffer@.len())),
                refilled ==> self.wrappee.delivered().len() > old(self).wrappee.delivered().len(),
                !refilled ==> self.wrappee.delivered() == old(self).wrappee.delivered(),
                old(self).remaining() is Some ==> self.remaining() is Some && failure is None && old(
                    self,
                ).remaining()->Some_0 == buf@.take(wi as int) + self.remaining()->Some_0,
                stop ==> wi > 0 || failure is Some,
                refilled && wi == 0 ==> self.low < self.buffer@.len(),
            decreases (if stop { 0int } else { 1int }), (if refilled { 0int } else { 1int }), len - wi, self.buffer@.len() - self.low, (
                if self.escaped { 0int } else { 1int }),
        {
            let ghost r_before = self.remaining();
            let ghost bw = buf@.take(wi as int);
            if self.low >= self.buffer.len() {
                assert(self.buffer@.skip(self.low as int) =~= Seq::<u8>::empty());
                assert(self.tail() =~= Seq::<u8>::empty()) by {
                    assert(enc(Seq::<u8>::empty(), self.terminator, self.escape) =~= Seq::<u8>::empty());
                }
                if wi > 0 || refilled {
                    stop = true;
                } else {
                    assert(self.buffer@.take(self.low as int) =~= self.buffer@);
                    let mut tmp: Vec<u8> = vec![0u8; CHUNK_SIZE];
                    let ghost d0 = self.wrappee.delivered();
                    let ghost w_before = self.wrappee.remaining();
                    match self.wrappee.read(disk, tmp.as_mut_slice()) {
                        Ok(0) => {
                            assert(d0 + tmp@.take(0) =~= d0);
                            assert(self.buffer@.take(self.low as int) =~= self.buffer@);
                            buf[0] = self.terminator;
                            self.finished = true;
                            wi = 1;
                            stop = true;
                            assert(buf@.take(1) =~= seq![self.terminator]);
                            assert(sent0 + buf@.take(wi as int) =~= self.delivered());
                            proof {
                                if r_before is Some {
                                    let w = self.wrappee.remaining()->Some_0;
                                    assert(w.len() == 0);
                                    assert(enc(w, self.terminator, self.escape) =~= Seq::<u8>::empty());
                                    assert(r_before->Some_0 =~= seq![self.terminator]);
                                    assert(bw =~= Seq::<u8>::empty());
                                    assert(buf@.take(1) + Seq::<u8>::empty() =~= seq![self.terminator]);
                                }
                            }
                        },
                        Ok(n) => {
                            let ghost pulled0 = self.prefix@ + self.buffer@;
                            let ghost t0 = tmp@;
                            tmp.truncate(n);
                            assert(tmp@ =~= t0.take(n as int));
                            self.prefix = Ghost(pulled0);
                            self.buffer = tmp;
                            self.low = 0;
                            refilled = true;
                            assert((d0 + self.buffer@).skip(self.start@ as int) =~= pulled0 + self.buffer@);
                            assert(self.buffer@.take(0) =~= Seq::<u8>::empty());
                            assert(pulled0 + Seq::<u8>::empty() =~= pulled0);
                            assert(self.delivered() =~= sent0 + buf@.take(wi as int));
                            proof {
                                if r_before is Some {
                                    let w2 = self.wrappee.remaining()->Some_0;
                                    assert(w_before->Some_0 == self.buffer@ + w2);
                                    lemma_enc_concat(self.buffer@, w2, self.terminator, self.escape);
                                    assert(self.buffer@.skip(0) =~= self.buffer@);
                                    assert(r_before->Some_0 =~= self.remaining()->Some_0);
                                }
                            }
                        },
                        Err(e) => {
                            assert(d0 == self.wrappee.delivered());
                            failure = Some(e);
                            stop = true;
                        },
                    }
                }
            } else {
                let next = self.buffer[self.low];
                let ghost consumed = self.prefix@ + self.buffer@.take(self.low as int);
                let ghost b0 = buf@;
                let ghost before = self.delivered();
                let ghost w0 = wi;
                assert(before == sent0 + b0.take(w0 as int));
                let ghost rest = self.buffer@.skip(self.low + 1);
                proof {
                    lemma_enc_front(self.buffer@.skip(self.low as int), self.terminator, self.escape);
                    assert(self.buffer@.skip(self.low as int).drop_first() =~= rest);
                    assert(self.buffer@.skip(self.low as int)[0] == next);
                }
                let special = match self.escape {
                    Some(e) => next == e || next == self.terminator,
                    None => false,
                };
                if special && !self.escaped {
                    let e = match self.escape {
                        Some(e) => e,
                        None => 0,
                    };
                    buf[wi] = e;
                    wi = wi + 1;
                    self.escaped = true;
                    assert(buf@.take(wi as int) =~= b0.take(wi - 1) + seq![e]);
                    assert(enc(consumed, self.terminator, self.escape) + Seq::<u8>::empty() =~= enc(
                        consumed,
                        self.terminator,
                        self.escape,
                    ));
                    assert(self.delivered() =~= before + seq![e]);
                    assert(self.delivered() =~= sent0 + buf@.take(wi as int));
                    proof {
                        if r_before is Some {
                            assert(enc_byte(next, self.terminator, self.escape) =~= seq![e, next]);
                            assert(r_before->Some_0 =~= seq![e] + self.remaining()->Some_0);
                            assert(bw + r_before->Some_0 =~= buf@.take(wi as int) + self.remaining()->Some_0);
                        }
                    }
                } else {
                    buf[wi] = next;
                    wi = wi + 1;
                    let was_escaped = self.escaped;
                    self.low = self.low + 1;
                    self.escaped = false;
                    proof {
                        assert(self.prefix@ + self.buffer@.take(self.low as int) =~= consumed.push(next));
                        lemma_enc_push(consumed, next, self.terminator, self.escape);
                        assert(buf@.take(wi as int) =~= b0.take(wi - 1) + seq![next]);
                        if was_escaped {
                            assert(enc_byte(next, self.terminator, self.escape) =~= seq![self.escape->Some_0, next]);
                            assert(seq![self.escape->Some_0] + seq![next] =~= seq![self.escape->Some_0, next]);
                        } else {
                            assert(enc_byte(next, self.terminator, self.escape) =~= seq![next]);
                        }
                        assert(enc(consumed, self.terminator, self.escape) + Seq::<u8>::empty() =~= enc(
                            consumed,
                            self.terminator,
                            self.escape,
                        ));
                        assert(self.delivered() =~= before + seq![next]);
                        assert(self.delivered() =~= sent0 + buf@.take(wi as int));
                        if r_before is Some {
                            assert(self.buffer@.skip(self.low as int) =~= rest);
                            if !was_escaped {
                                assert(enc_byte(next, self.terminator, self.escape) =~= seq![next]);
                            }
                            assert(r_before->Some_0 =~= seq![next] + self.remaining()->Some_0);
                            assert(bw + r_before->Some_0 =~= buf@.take(wi as int) + self.remaining()->Some_0);
                        }
                    }
                }
            }
        }
        match failure {
            Some(e) => Err(e),
            None => Ok(wi),
        }
    }

    fn register_callback(&mut self, disk: &mut Disk, callback: Action) {
        let ghost d0 = *disk;
        self.base.register_callback(disk, callback);
        let ghost d1 = *disk;
        self.wrappee.register_callback(disk, callback);
        proof {
            lemma_only_appended_trans(d0, d1, *disk);
            if d0.next_id() < u64::MAX {
                lemma_has_run_kept(d1, *disk, callback);
            }
        }
    }

    fn unregister_callback(&mut self) {
        self.base.unregister_callback();
        self.wrappee.unregister_callback();
    }
}

} // verus!
