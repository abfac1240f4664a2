//! A stream that concatenates a sequence of wrappees.

use vstd::prelude::*;
use crate::error::{again, is_again, spec_is_again, Error};
use crate::reactor::{Action, Disk};
use crate::stream::{base, blob, copy_into, lemma_has_run_kept, lemma_only_appended_trans, only_appended, ByteStreamBody};

verus! {

/// Reads drain the head wrappee; at its end the next one takes over. An
/// error after some progress is latched and surfaced on the next read.
pub struct Stream<W: ByteStreamBody> {
    base: base::StreamBody,
    queue: Vec<W>,
    terminated: bool,
    exhausted: bool,
    pending_error: Option<Error>,
    notification_expected: bool,
    finished: Ghost<Seq<u8>>,
    head_start: Ghost<nat>,
    head_failure: Ghost<Option<Error>>,
}

impl<W: ByteStreamBody> Stream<W> {
    /// The installed callback.
    pub closed spec fn notifier(&self) -> Option<Action> {
        self.base.callback()
    }

    /// The wrappees still queued, head first.
    pub closed spec fn heads(&self) -> Seq<W> {
        self.queue@
    }

    pub closed spec fn is_terminated(&self) -> bool {
        self.terminated
    }

    pub closed spec fn is_exhausted(&self) -> bool {
        self.exhausted
    }

    pub closed spec fn latched(&self) -> Option<Error> {
        self.pending_error
    }

    /// What the wrappees `heads` will still hand out, head first, when all
    /// of it is determined.
    pub open spec fn contents_of(heads: Seq<W>) -> Option<Seq<u8>>
        decreases heads.len(),
    {
        if heads.len() == 0 {
            Some(Seq::empty())
        } else {
            match (heads[0].remaining(), Self::contents_of(heads.drop_first())) {
                (Some(a), Some(b)) => Some(a + b),
                _ => None,
            }
        }
    }

    /// `a` followed by `b`, when both are determined.
    pub open spec fn followed_by(a: Option<Seq<u8>>, b: Option<Seq<u8>>) -> Option<Seq<u8>> {
        match (a, b) {
            (Some(x), Some(y)) => Some(x + y),
            _ => None,
        }
    }

    pub proof fn lemma_contents_push(heads: Seq<W>, w: W)
        ensures
            Self::contents_of(heads.push(w)) == Self::followed_by(Self::contents_of(heads), w.remaining()),
        decreases heads.len(),
    {
        if heads.len() == 0 {
            assert(heads.push(w).drop_first() =~= Seq::<W>::empty());
            assert(heads.push(w)[0] == w);
            assert(Self::contents_of(heads.push(w).drop_first()) == Some(Seq::<u8>::empty()));
            assert(Self::contents_of(heads) == Some(Seq::<u8>::empty()));
            match w.remaining() {
                Some(a) => {
                    assert(a + Seq::<u8>::empty() =~= a);
                    assert(Seq::<u8>::empty() + a =~= a);
                },
                None => {},
            }
        } else {
            assert(heads.push(w).drop_first() =~= heads.drop_first().push(w));
            assert(heads.push(w)[0] == heads[0]);
            Self::lemma_contents_push(heads.drop_first(), w);
            match (heads[0].remaining(), Self::contents_of(heads.drop_first()), w.remaining()) {
                (Some(a), Some(b), Some(c)) => {
                    assert(a + (b + c) =~= (a + b) + c);
                },
                _ => {},
            }
        }
    }

    /// What the wrappees that already ended delivered through the queue.
    pub closed spec fn drained(&self) -> Seq<u8> {
        self.finished@
    }

    /// The error of the last failed head read during the last read, if any.
    pub closed spec fn head_error(&self) -> Option<Error> {
        self.head_failure@
    }

    /// Where the head stood when it became the head.
    pub closed spec fn head_origin(&self) -> nat {
        self.head_start@
    }

    pub fn new(disk: &mut Disk) -> (s: Stream<W>)
        requires
            old(disk).wf(),
        ensures
            final(disk).wf(),
            only_appended(*old(disk), *final(disk)),
            s.inv(),
            s.heads().len() == 0,
            !s.is_terminated(),
            !s.is_exhausted(),
            s.latched() is None,
            s.delivered() == Seq::<u8>::empty(),
    {
        Stream {
            base: base::StreamBody::new(disk),
            queue: Vec::new(),
            terminated: false,
            exhausted: false,
            pending_error: None,
            notification_expected: false,
            finished: Ghost(Seq::empty()),
            head_start: Ghost(0),
            head_failure: Ghost(None),
        }
    }

    /// Appends `wrappee` at the tail.
    pub fn enqueue(&mut self, disk: &mut Disk, wrappee: W)
        requires
            old(self).inv(),
            old(disk).wf(),
            wrappee.inv(),
            !old(self).is_terminated(),
        ensures
            final(self).inv(),
            final(disk).wf(),
            only_appended(*old(disk), *final(disk)),
            final(self).delivered() == old(self).delivered(),
            final(self).heads().len() == old(self).heads().len() + 1,
            final(self).heads().drop_last() == old(self).heads(),
            final(self).heads().last().delivered() == wrappee.delivered(),
            Self::contents_of(final(self).heads()) == Self::followed_by(
                Self::contents_of(old(self).heads()),
                wrappee.remaining(),
            ),
            final(self).is_terminated() == old(self).is_terminated(),
            final(self).latched() == old(self).latched(),
    {
        let mut wrappee = wrappee;
        match self.base.get_callback() {
            Some(cb) => wrappee.register_callback(disk, cb),
            None => {
                assert(disk.pending().take(disk.pending().len() as int) =~= disk.pending());
            },
        }
        if self.queue.len() == 0 {
            self.head_start = Ghost(wrappee.delivered().len());
            assert(wrappee.delivered().skip(self.head_start@ as int) =~= Seq::<u8>::empty());
            assert(self.finished@ + Seq::<u8>::empty() =~= self.finished@);
        }
        let ghost w1 = wrappee;
        self.queue.push(wrappee);
        assert(self.queue@.drop_last() =~= old(self).queue@);
        proof {
            Self::lemma_contents_push(old(self).queue@, w1);
            assert(self.queue@ =~= old(self).queue@.push(w1));
        }
    }

    /// Puts `wrappee` in front of the head.
    pub fn push(&mut self, disk: &mut Disk, wrappee: W)
        requires
            old(self).inv(),
            old(disk).wf(),
            wrappee.inv(),
            !old(self).is_exhausted(),
        ensures
            final(self).inv(),
            final(disk).wf(),
            only_appended(*old(disk), *final(disk)),
            final(self).delivered() == old(self).delivered(),
            final(self).heads() == seq![wrappee].add(old(self).heads()).update(0, final(self).heads()[0]),
            final(self).heads()[0].delivered() == wrappee.delivered(),
            Self::contents_of(final(self).heads()) == Self::followed_by(
                wrappee.remaining(),
                Self::contents_of(old(self).heads()),
            ),
            final(self).is_terminated() == old(self).is_terminated(),
            final(self).latched() == old(self).latched(),
    {
        let mut wrappee = wrappee;
        match self.base.get_callback() {
            Some(cb) => wrappee.register_callback(disk, cb),
            None => {
                assert(disk.pending().take(disk.pending().len() as int) =~= disk.pending());
            },
        }
        let ghost before = self.delivered();
        self.finished = Ghost(before);
        self.head_start = Ghost(wrappee.delivered().len());
        self.queue.insert(0, wrappee);
        assert(self.queue@[0].delivered().skip(self.head_start@ as int) =~= Seq::<u8>::empty());
        assert(before + Seq::<u8>::empty() =~= before);
        assert(self.queue@ =~= seq![self.queue@[0]].add(old(self).queue@));
        assert(self.queue@.drop_first() =~= old(self).queue@);
        assert(seq![wrappee].add(old(self).queue@).update(0, self.queue@[0]) =~= self.queue@);
    }

    /// Marks the queue complete: once the wrappees are drained, reads report
    /// end of stream. Notifies the callback.
    pub fn terminate(&mut self, disk: &mut Disk)
        requires
            old(self).inv(),
            old(disk).wf(),
            !old(self).is_terminated(),
        ensures
            final(self).inv(),
            final(disk).wf(),
            only_appended(*old(disk), *final(disk)),
            final(self).is_terminated(),
            old(self).latched() is None ==> final(self).remaining() == Self::contents_of(old(self).heads()),
            old(self).notifier() is Some && old(disk).next_id() < u64::MAX ==> final(disk).pending() == old(
                disk,
            ).pending().push(
                crate::reactor::TimerEntry {
                    uid: old(disk).next_id(),
                    expires: old(disk).recent_instant(),
                    task: crate::reactor::Task::Run(old(self).notifier()->Some_0),
                    canceled: false,
                },
            ),
            final(self).notifier() == old(self).notifier(),
            final(self).delivered() == old(self).delivered(),
            final(self).heads() == old(self).heads(),
            final(self).latched() == old(self).latched(),
    {
        self.terminated = true;
        self.base.invoke_callback(disk);
    }

    /// Queue composition: a terminated queue whose wrappees have determined
    /// content will hand out exactly their concatenation, head first; each
    /// read hands out the next bytes of it, and end of stream comes only
    /// once all of it went out.
    pub proof fn lemma_composition(&self)
        requires
            self.inv(),
            self.is_terminated(),
            self.latched() is None,
        ensures
            self.remaining() == Self::contents_of(self.heads()),
            self.heads().len() == 0 ==> self.remaining() == Some(Seq::<u8>::empty()),
    {
    }

    /// The queue hands out what its finished wrappees delivered, followed
    /// by what the head delivered since it became the head.
    pub proof fn lemma_concatenation(&self)
        requires
            self.inv(),
        ensures
            self.heads().len() == 0 ==> self.delivered() == self.drained(),
            self.heads().len() > 0 ==> self.delivered() == self.drained() + self.heads()[0].delivered().skip(
                self.head_origin() as int,
            ),
    {
    }
}

impl Stream<blob::Stream> {
    /// The byte sink of the queue: appends `bytes` as a blob.
    pub fn write(&mut self, disk: &mut Disk, bytes: Vec<u8>) -> (n: usize)
        requires
            old(self).inv(),
            old(disk).wf(),
            !old(self).is_terminated(),
        ensures
            final(self).inv(),
            final(disk).wf(),
            n == bytes@.len(),
            final(self).delivered() == old(self).delivered(),
            final(self).heads().len() == old(self).heads().len() + 1,
            Self::contents_of(final(self).heads()) == Self::followed_by(
                Self::contents_of(old(self).heads()),
                Some(bytes@),
            ),
            !final(self).is_terminated(),
    {
        let n = bytes.len();
        let ghost data = bytes@;
        let b = blob::Stream::new(disk, bytes);
        proof {
            b.lemma_content();
            assert(data.skip(0) =~= data);
        }
        self.enqueue(disk, b);
        n
    }
}

impl<W: ByteStreamBody> ByteStreamBody for Stream<W> {
    closed spec fn delivered(&self) -> Seq<u8> {
        if self.queue@.len() > 0 {
            self.finished@ + self.queue@[0].delivered().skip(self.head_start@ as int)
        } else {
            self.finished@
        }
    }

    /// Determined once the queue is terminated and every wrappee's content
    /// is determined.
    closed spec fn remaining(&self) -> Option<Seq<u8>> {
        if self.terminated && self.pending_error is None {
            Self::contents_of(self.queue@)
        } else {
            None
        }
    }

    closed spec fn inv(&self) -> bool {
        &&& forall|i: int| 0 <= i < self.queue@.len() ==> (#[trigger] self.queue@[i]).inv()
        &&& self.queue@.len() > 0 ==> self.head_start@ <= self.queue@[0].delivered().len()
        &&& self.exhausted ==> self.terminated
    }

    fn read(&mut self, disk: &mut Disk, buf: &mut [u8]) -> (r: Result<usize, Error>)
        ensures
            old(buf)@.len() > 0 && old(self).latched() is Some ==> r == Err::<usize, Error>(
                old(self).latched()->Some_0,
            ) && final(self).latched() is None,
            old(buf)@.len() > 0 && old(self).latched() is None && old(self).heads().len() == 0 ==> if old(self).is_terminated() {
                r == Ok::<usize, Error>(0) && final(self).is_exhausted()
            } else {
                r matches Err(e) && spec_is_again(e)
            },
            r == Ok::<usize, Error>(0) && old(buf)@.len() > 0 ==> final(self).is_terminated() && final(self).heads().len()
                == 0,
            final(self).is_terminated() == old(self).is_terminated(),
            old(buf)@.len() > 0 && old(self).remaining() is Some ==> r == Ok::<usize, Error>(
                if old(buf)@.len() < old(self).remaining()->Some_0.len() {
                    old(buf)@.len() as usize
                } else {
                    old(self).remaining()->Some_0.len() as usize
                },
            ),
            old(self).latched() is None && final(self).latched() is Some ==> (r matches Ok(n) && n > 0
                && !spec_is_again(final(self).latched()->Some_0)),
            old(self).latched() is None && r is Err ==> final(self).latched() is None && final(self).delivered()
                == old(self).delivered(),
            old(self).latched() is None && old(buf)@.len() > 0 ==> match final(self).head_error() {
                Some(e) => {
                    ||| (r == Err::<usize, Error>(e) && final(self).latched() is None)
                    ||| (r matches Ok(n) && n > 0 && final(self).latched() == if spec_is_again(e) {
                        None::<Error>
                    } else {
                        Some(e)
                    })
                },
                None => final(self).latched() is None && (r is Ok || (r matches Err(x) && spec_is_again(x))),
            },
    {
        if buf.len() == 0 {
            assert(buf@.take(0) =~= Seq::<u8>::empty());
            return Ok(0);
        }
        match self.pending_error {
            Some(e) => {
                self.pending_error = None;
                return Err(e);
            },
            None => {},
        }
        self.head_failure = Ghost(None);
        let ghost sent0 = self.delivered();
        let len = buf.len();
        let mut cursor: usize = 0;
        let mut stop = false;
        let mut failure: Option<Error> = None;
        assert(sent0 + buf@.take(0) =~= sent0);
        while cursor < len && self.queue.len() > 0 && !stop
            invariant
                self.inv(),
                disk.wf(),
                len == buf@.len(),
                buf@.len() == old(buf)@.len(),
                cursor <= len,
                self.terminated == old(self).terminated,
                self.delivered() == sent0 + buf@.take(cursor as int),
                failure is Some ==> cursor == 0 && stop,
                self.queue@.len() <= old(self).queue@.len(),
                old(self).queue@.len() == 0 ==> failure is None && cursor == 0,
                old(self).remaining() is Some ==> !stop && failure is None && self.pending_error is None,
                self.pending_error is Some ==> cursor > 0 && stop && !spec_is_again(self.pending_error->Some_0),
                self.head_failure@ is None ==> failure is None && self.pending_error is None && !stop,
                self.head_failure@ matches Some(e) ==> stop && ((cursor == 0 && failure == Some(e)
                    && self.pending_error is None) || (cursor > 0 && failure is None && (if spec_is_again(e) {
                    self.pending_error is None
                } else {
                    self.pending_error == Some(e)
                }))),
                old(self).remaining() is Some ==> self.remaining() is Some && old(self).remaining()->Some_0 == buf@.take(
                    cursor as int,
                ) + self.remaining()->Some_0,
            decreases len - cursor, self.queue@.len(), if stop { 0int } else { 1int },
        {
            let room: usize = len - cursor;
            let mut tmp: Vec<u8> = vec![0u8; room];
            let ghost q0 = self.queue@;
            let ghost before = self.delivered();
            let mut head = self.queue.remove(0);
            assert(q0[0] == head);
            assert(before == self.finished@ + head.delivered().skip(self.head_start@ as int));
            let ghost d0 = head.delivered();
            proof {
                if old(self).remaining() is Some {
                    assert(head.remaining() is Some);
                }
            }
            let result = head.read(disk, tmp.as_mut_slice());
            match result {
                Ok(0) => {
                    assert(d0 + tmp@.take(0) =~= d0);
                    assert(self.queue@ =~= q0.drop_first());
                    proof {
                        if old(self).remaining() is Some {
                            let a = q0[0].remaining()->Some_0;
                            assert(a.len() == 0);
                            assert(a + Self::contents_of(q0.drop_first())->Some_0 =~= Self::contents_of(
                                q0.drop_first(),
                            )->Some_0);
                        }
                    }
                    self.finished = Ghost(self.finished@ + head.delivered().skip(self.head_start@ as int));
                    if self.queue.len() > 0 {
                        self.head_start = Ghost(self.queue@[0].delivered().len());
                        assert(self.queue@[0].delivered().skip(self.head_start@ as int) =~= Seq::<u8>::empty());
                        assert(self.finished@ + Seq::<u8>::empty() =~= self.finished@);
                    }
                    assert forall|i: int| 0 <= i < self.queue@.len() implies (#[trigger] self.queue@[i]).inv() by {
                        assert(self.queue@[i] == q0[i + 1]);
                    }
                    assert(self.delivered() =~= sent0 + buf@.take(cursor as int));
                },
                Ok(n) => {
                    let ghost b0 = buf@;
                    copy_into(buf, cursor, tmp.as_slice(), n);
                    assert((d0 + tmp@.take(n as int)).skip(self.head_start@ as int) =~= d0.skip(
                        self.head_start@ as int,
                    ) + tmp@.take(n as int));
                    assert(buf@.take(cursor as int) =~= b0.take(cursor as int)) by {
                        assert(buf@.take((cursor + n) as int).take(cursor as int) =~= buf@.take(cursor as int));
                    }
                    let ghost c0 = cursor;
                    cursor = cursor + n;
                    self.queue.insert(0, head);
                    assert(self.queue@[0] == head);
                    assert(self.queue@.drop_first() =~= q0.drop_first());
                    assert(buf@.take(cursor as int) =~= b0.take(c0 as int) + tmp@.take(n as int));
                    proof {
                        if old(self).remaining() is Some {
                            let a = q0[0].remaining()->Some_0;
                            let a2 = head.remaining()->Some_0;
                            let rest = Self::contents_of(q0.drop_first())->Some_0;
                            assert(a == tmp@.take(n as int) + a2);
                            assert(b0.take(c0 as int) + (a + rest) =~= buf@.take(cursor as int) + (a2 + rest));
                        }
                    }
                    assert(self.delivered() =~= before + tmp@.take(n as int));
                    assert(self.delivered() =~= sent0 + buf@.take(cursor as int));
                    assert forall|i: int| 0 <= i < self.queue@.len() implies (#[trigger] self.queue@[i]).inv() by {
                        if i > 0 {
                            assert(self.queue@[i] == q0[i]);
                        }
                    }
                },
                Err(e) => {
                    self.head_failure = Ghost(Some(e));
                    if cursor == 0 {
                        if is_again(&e) {
                            self.notification_expected = true;
                        }
                        failure = Some(e);
                    } else if !is_again(&e) {
                        self.pending_error = Some(e);
                    }
                    stop = true;
                    self.queue.insert(0, head);
                    assert(self.queue@[0] == head);
                    assert(self.queue@.drop_first() =~= q0.drop_first());
                    assert(self.delivered() =~= sent0 + buf@.take(cursor as int));
                    assert forall|i: int| 0 <= i < self.queue@.len() implies (#[trigger] self.queue@[i]).inv() by {
                        if i > 0 {
                            assert(self.queue@[i] == q0[i]);
                        }
                    }
                },
            }
        }
        match failure {
            Some(e) => Err(e),
            None => {
                if cursor > 0 {
                    Ok(cursor)
                } else if self.terminated {
                    if self.queue.len() == 0 {
                        self.exhausted = true;
                        Ok(0)
                    } else {
                        Err(again())
                    }
                } else {
                    Err(again())
                }
            },
        }
    }

    fn register_callback(&mut self, disk: &mut Disk, callback: Action) {
        self.base.register_callback(disk, callback);
    }

    fn unregister_callback(&mut self) {
        self.base.unregister_callback();
    }
}

} // verus!
