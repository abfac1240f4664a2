//! Draining a byte stream into a descriptor, with back-pressure.

use vstd::prelude::*;
use crate::error::{is_again, spec_is_again, Error};
use crate::reactor::{Action, Disk};
use crate::stream::{only_appended, switch, ByteStreamBody};

verus! {

/// The most bytes held between a read from the source and the writes.
pub const BUF_SIZE: usize = 10000;

/// Where a drain stands.
#[derive(Clone, Copy, Debug)]
pub enum State {
    /// Still draining.
    Busy,
    /// Still draining, with the outcome to be discarded.
    Drifting,
    /// Finished, outcome not yet claimed.
    Final(Result<(), Error>),
    /// Outcome claimed.
    Stale,
}

impl State {
    /// Takes the state out, leaving `Stale` behind.
    pub fn consume(&mut self) -> (r: State)
        ensures
            r == *old(self),
            *final(self) is Stale,
    {
        let r = *self;
        *self = State::Stale;
        r
    }
}

/// What the drain asks of the descriptor next.
#[derive(Clone, Copy, Debug, PartialEq, Eq, Structural)]
pub enum Jockey {
    /// Write the buffered bytes `[from, to)`, then report with `wrote`.
    Write(usize, usize),
    /// Wait for the descriptor or the source to be ready again.
    Wait,
    /// The drain finished; nothing more to do.
    Finished,
}

/// The decisions of a drain from `source` into a nonblocking descriptor
/// that the caller writes to.
pub struct Linger<W: ByteStreamBody> {
    source: W,
    buf: Vec<u8>,
    cursor: usize,
    length: usize,
    callback: Option<Action>,
    jockey_action: Action,
    state: State,
    written: Ghost<Seq<u8>>,
    start: Ghost<nat>,
    announced: Ghost<bool>,
}

impl<W: ByteStreamBody> Linger<W> {
    pub closed spec fn source(&self) -> W {
        self.source
    }

    pub closed spec fn state(&self) -> State {
        self.state
    }

    /// Bytes written to the descriptor so far.
    pub closed spec fn sent(&self) -> Seq<u8> {
        self.written@
    }

    /// Bytes read from the source but not written yet.
    pub closed spec fn backlog(&self) -> Seq<u8> {
        self.buf@.subrange(self.cursor as int, self.length as int)
    }

    pub closed spec fn on_final(&self) -> Option<Action> {
        self.callback
    }

    pub closed spec fn jockey_step(&self) -> Action {
        self.jockey_action
    }

    /// Where the source stood when the drain took it over.
    pub closed spec fn origin(&self) -> nat {
        self.start@
    }

    /// Everything the source delivered since the drain took it over was
    /// written or waits in the backlog.
    pub proof fn lemma_accounting(&self)
        requires
            self.inv(),
        ensures
            self.origin() <= self.source().delivered().len(),
            self.source().delivered().skip(self.origin() as int) == self.sent() + self.backlog(),
            self.backlog().len() <= BUF_SIZE,
    {
    }

    /// Whether the drain itself scheduled its final callback.
    pub closed spec fn announced(&self) -> bool {
        self.announced@
    }

    /// Whether the drain still runs.
    pub open spec fn active(&self) -> bool {
        self.state() is Busy || self.state() is Drifting
    }

    pub closed spec fn backlog_from(&self) -> usize {
        self.cursor
    }

    pub closed spec fn backlog_to(&self) -> usize {
        self.length
    }

    pub closed spec fn buffer(&self) -> Seq<u8> {
        self.buf@
    }

    /// Everything the source delivered is written or waiting in the backlog.
    pub closed spec fn inv(&self) -> bool {
        &&& self.source.inv()
        &&& self.buf@.len() == BUF_SIZE
        &&& self.cursor <= self.length <= BUF_SIZE
        &&& self.start@ <= self.source.delivered().len()
        &&& self.source.delivered().skip(self.start@ as int) == self.written@ + self.buf@.subrange(
            self.cursor as int,
            self.length as int,
        )
    }

    /// A busy drain of `source`; `jockey` is the action through which the
    /// embedding program calls `jockey` when the descriptor or the source is
    /// ready.
    pub fn new(disk: &mut Disk, source: W, jockey: Action) -> (l: Linger<W>)
        requires
            old(disk).wf(),
            source.inv(),
        ensures
            final(disk).wf(),
            only_appended(*old(disk), *final(disk)),
            old(disk).next_id() < u64::MAX ==> crate::stream::has_run(final(disk).pending(), jockey),
            l.source().delivered() == source.delivered(),
            l.source().remaining() == source.remaining(),
            l.inv(),
            l.origin() == source.delivered().len(),
            l.backlog().len() == 0,
            !l.announced(),
            l.state() is Busy,
            l.sent() == Seq::<u8>::empty(),
            l.on_final() is None,
            l.jockey_step() == jockey,
    {
        let mut source = source;
        source.register_callback(disk, jockey);
        let l = Linger {
            source,
            buf: vec![0u8; BUF_SIZE],
            cursor: 0,
            length: 0,
            callback: None,
            jockey_action: jockey,
            state: State::Busy,
            written: Ghost(Seq::empty()),
            start: Ghost(source.delivered().len()),
            announced: Ghost(false),
        };
        assert(l.buf@.subrange(0, 0) =~= Seq::<u8>::empty());
        assert(l.source.delivered().skip(l.start@ as int) =~= Seq::<u8>::empty());
        assert(Seq::<u8>::empty() + Seq::<u8>::empty() =~= Seq::<u8>::empty());
        l
    }

    /// The buffered bytes `[from, to)` that a `Write` step names.
    pub fn bytes(&self, from: usize, to: usize) -> (r: &[u8])
        requires
            from <= to <= self.buffer().len(),
        ensures
            r@ == self.buffer().subrange(from as int, to as int),
    {
        let s = self.buf.as_slice();
        slice_subrange(s, from, to)
    }

    /// Installs the action fired once the drain finishes.
    pub fn register_callback(&mut self, callback: Action)
        requires
            old(self).inv(),
        ensures
            final(self).inv(),
            final(self).on_final() == Some(callback),
            final(self).state() == old(self).state(),
            final(self).sent() == old(self).sent(),
    {
        self.callback = Some(callback);
    }

    pub fn unregister_callback(&mut self)
        requires
            old(self).inv(),
        ensures
            final(self).inv(),
            final(self).on_final() is None,
            final(self).state() == old(self).state(),
            final(self).sent() == old(self).sent(),
    {
        self.callback = None;
    }

    fn done(&mut self, disk: &mut Disk, result: Result<(), Error>)
        requires
            old(disk).wf(),
            old(self).state is Busy || old(self).state is Drifting,
        ensures
            final(disk).wf(),
            only_appended(*old(disk), *final(disk)),
            old(self).state is Drifting ==> final(self).state is Stale,
            old(self).state is Busy ==> final(self).state == State::Final(result),
            final(self).source == old(self).source,
            final(self).buf == old(self).buf,
            final(self).cursor == old(self).cursor,
            final(self).length == old(self).length,
            final(self).written == old(self).written,
            final(self).callback == old(self).callback,
            final(self).jockey_action == old(self).jockey_action,
            final(self).start == old(self).start,
            old(self).state is Busy && old(self).callback is Some ==> crate::stream::has_run(
                final(disk).pending(),
                old(self).callback->Some_0,
            ) || final(disk).next_id() == u64::MAX,
            old(self).state is Drifting ==> *final(disk) == *old(disk),
            old(self).state is Drifting ==> final(self).announced == old(self).announced,
            old(self).state is Busy ==> final(self).announced@,
    {
        if let State::Drifting = self.state {
            self.state = State::Stale;
            assert(disk.pending().take(disk.pending().len() as int) =~= disk.pending());
        } else {
            self.state = State::Final(result);
            self.announced = Ghost(true);
            match self.callback {
                Some(cb) => {
                    disk.execute(cb);
                    assert(disk.pending().take(old(disk).pending().len() as int) =~= old(disk).pending());
                    proof {
                        if old(disk).next_id() < u64::MAX {
                            assert(disk.pending()[old(disk).pending().len() as int].task == crate::reactor::Task::Run(
                                cb,
                            ));
                        }
                    }
                },
                None => {
                    assert(disk.pending().take(disk.pending().len() as int) =~= disk.pending());
                },
            }
        }
    }

    /// The next step of the drain: write what is buffered, otherwise pull
    /// more from the source. End of the source finishes the drain with
    /// success, an error other than "again" with that error.
    pub fn jockey(&mut self, disk: &mut Disk) -> (r: Jockey)
        requires
            old(self).inv(),
            old(disk).wf(),
        ensures
            final(self).inv(),
            final(disk).wf(),
            final(self).sent() == old(self).sent(),
            match r {
                Jockey::Write(from, to) => {
                    &&& from < to <= BUF_SIZE
                    &&& to - from <= BUF_SIZE
                    &&& final(self).backlog() == final(self).buffer().subrange(from as int, to as int)
                    &&& final(self).state() == old(self).state()
                },
                Jockey::Wait => final(self).state() == old(self).state(),
                Jockey::Finished => !(old(self).state() is Busy || old(self).state() is Drifting) || (
                final(self).state() is Final || final(self).state() is Stale),
            },
            !(old(self).state() is Busy || old(self).state() is Drifting) ==> r is Finished && *final(self)
                == *old(self),
            old(self).state() is Drifting ==> final(self).announced() == old(self).announced(),
            final(self).announced() != old(self).announced() ==> old(self).state() is Busy
                && final(self).state() is Final && r is Finished,
            old(self).active() && old(self).backlog().len() > 0 ==> {
                &&& r == Jockey::Write(old(self).backlog_from(), old(self).backlog_to())
                &&& *final(self) == *old(self)
                &&& *final(disk) == *old(disk)
            },
            old(self).active() && old(self).backlog().len() == 0 ==> match r {
                Jockey::Write(from, to) => {
                    &&& from == 0 && 0 < to
                    &&& final(self).state() == old(self).state()
                    &&& final(self).source().delivered() == old(self).source().delivered() + final(self).backlog()
                },
                Jockey::Wait => {
                    &&& final(self).state() == old(self).state()
                    &&& final(self).source().delivered() == old(self).source().delivered()
                    &&& final(self).backlog().len() == 0
                },
                Jockey::Finished => {
                    &&& final(self).source().delivered() == old(self).source().delivered()
                    &&& final(self).backlog().len() == 0
                    &&& old(self).state() is Busy ==> (final(self).state() == State::Final(Ok(()))
                        || (final(self).state() matches State::Final(Err(e)) && !spec_is_again(e)))
                    &&& old(self).state() is Drifting ==> final(self).state() is Stale
                    &&& old(self).state() is Busy && old(self).on_final() is Some ==> crate::stream::has_run(
                        final(disk).pending(),
                        old(self).on_final()->Some_0,
                    ) || final(disk).next_id() == u64::MAX
                },
            },
            old(self).active() && old(self).backlog().len() == 0 && old(self).source().remaining() is Some ==> {
                &&& old(self).source().remaining()->Some_0.len() == 0 ==> r is Finished && (old(self).state() is Busy
                    ==> final(self).state() == State::Final(Ok(())))
                &&& old(self).source().remaining()->Some_0.len() > 0 ==> r is Write
            },
    {
        match self.state {
            State::Busy | State::Drifting => {},
            _ => {
                return Jockey::Finished;
            },
        }
        if self.cursor < self.length {
            return Jockey::Write(self.cursor, self.length);
        }
        let ghost d0 = self.source.delivered();
        let ghost w0 = self.written@;
        assert(self.buf@.subrange(self.cursor as int, self.length as int) =~= Seq::<u8>::empty());
        assert(w0 + Seq::<u8>::empty() =~= w0);
        match self.source.read(disk, self.buf.as_mut_slice()) {
            Ok(0) => {
                assert(d0 + self.buf@.take(0) =~= d0);
                self.cursor = 0;
                self.length = 0;
                assert(self.buf@.subrange(0, 0) =~= Seq::<u8>::empty());
                self.done(disk, Ok(()));
                Jockey::Finished
            },
            Ok(n) => {
                self.cursor = 0;
                self.length = n;
                assert(self.buf@.subrange(0, n as int) =~= self.buf@.take(n as int));
                assert((d0 + self.buf@.take(n as int)).skip(self.start@ as int) =~= d0.skip(self.start@ as int)
                    + self.buf@.take(n as int));
                Jockey::Write(0, n)
            },
            Err(e) => {
                self.cursor = 0;
                self.length = 0;
                assert(self.buf@.subrange(0, 0) =~= Seq::<u8>::empty());
                if is_again(&e) {
                    Jockey::Wait
                } else {
                    self.done(disk, Err(e));
                    Jockey::Finished
                }
            },
        }
    }

    /// Records the outcome of writing a `Write` step's bytes: `Ok(n)` moves
    /// the cursor past `n` bytes, "again" waits for readiness, another
    /// error finishes the drain with it.
    pub fn wrote(&mut self, disk: &mut Disk, result: Result<usize, Error>)
        requires
            old(self).inv(),
            old(disk).wf(),
            result matches Ok(n) ==> 0 < n <= old(self).backlog().len(),
        ensures
            final(self).inv(),
            final(disk).wf(),
            result is Ok ==> *final(disk) == *old(disk),
            result is Ok ==> final(self).announced() == old(self).announced(),
            old(self).state() is Drifting ==> final(self).announced() == old(self).announced(),
            final(self).announced() != old(self).announced() ==> old(self).state() is Busy
                && final(self).state() is Final,
            match result {
                Ok(n) => {
                    &&& final(self).sent() == old(self).sent() + old(self).backlog().take(n as int)
                    &&& final(self).backlog() == old(self).backlog().skip(n as int)
                    &&& final(self).state() == old(self).state()
                },
                Err(e) => {
                    &&& final(self).sent() == old(self).sent()
                    &&& spec_is_again(e) ==> final(self).state() == old(self).state()
                    &&& !spec_is_again(e) && old(self).state() is Busy ==> final(self).state() == State::Final(
                        Err(e),
                    )
                    &&& !spec_is_again(e) && old(self).state() is Drifting ==> final(self).state() is Stale
                },
            },
    {
        match result {
            Ok(n) => {
                let ghost b0 = self.backlog();
                let ghost w0 = self.written@;
                self.written = Ghost(w0 + b0.take(n as int));
                self.cursor = self.cursor + n;
                assert(self.backlog() =~= b0.skip(n as int));
                assert(w0 + b0.take(n as int) + b0.skip(n as int) =~= w0 + b0);
            },
            Err(e) => {
                if !is_again(&e) {
                    match self.state {
                        State::Busy | State::Drifting => {
                            self.done(disk, Err(e));
                        },
                        _ => {},
                    }
                }
            },
        }
    }

    /// Asks the reactor to run the jockey soon.
    pub fn prod(&self, disk: &mut Disk)
        requires
            old(disk).wf(),
        ensures
            final(disk).wf(),
            only_appended(*old(disk), *final(disk)),
            old(disk).next_id() < u64::MAX ==> crate::stream::has_run(final(disk).pending(), self.jockey_step()),
            old(disk).next_id() < u64::MAX ==> final(disk).pending() == old(disk).pending().push(
                crate::reactor::TimerEntry {
                    uid: old(disk).next_id(),
                    expires: old(disk).recent_instant(),
                    task: crate::reactor::Task::Run(self.jockey_step()),
                    canceled: false,
                },
            ),
            old(disk).next_id() == u64::MAX ==> final(disk).pending() == old(disk).pending(),
    {
        disk.execute(self.jockey_action);
        assert(disk.pending().take(old(disk).pending().len() as int) =~= old(disk).pending());
        proof {
            if old(disk).next_id() < u64::MAX {
                let i = old(disk).pending().len() as int;
                assert(disk.pending()[i].task == crate::reactor::Task::Run(self.jockey_action));
            }
        }
    }

    /// Detaches: a busy drain goes on but discards its outcome; a finished
    /// one is claimed at once.
    pub fn drift(&mut self)
        requires
            old(self).inv(),
        ensures
            final(self).inv(),
            final(self).sent() == old(self).sent(),
            final(self).state() == match old(self).state() {
                State::Busy => State::Drifting,
                State::Final(_) => State::Stale,
                s => s,
            },
    {
        match self.state {
            State::Busy => {
                self.state = State::Drifting;
            },
            State::Final(_) => {
                self.state.consume();
            },
            _ => {},
        }
    }

    /// The state; a final outcome is handed out once and then turns stale.
    pub fn poll(&mut self) -> (r: State)
        requires
            old(self).inv(),
        ensures
            final(self).inv(),
            r == old(self).state(),
            final(self).sent() == old(self).sent(),
            final(self).state() == if old(self).state() is Final {
                State::Stale
            } else {
                old(self).state()
            },
    {
        match self.state {
            State::Final(_) => self.state.consume(),
            s => s,
        }
    }

    /// Forcibly ends the drain; returns the state it was in.
    pub fn abort(&mut self) -> (r: State)
        requires
            old(self).inv(),
        ensures
            final(self).inv(),
            r == old(self).state(),
            final(self).state() is Stale,
            final(self).sent() == old(self).sent(),
    {
        self.state.consume()
    }
}

/// `s[from..to]`.
fn slice_subrange(s: &[u8], from: usize, to: usize) -> (r: &[u8])
    requires
        from <= to <= s@.len(),
    ensures
        r@ == s@.subrange(from as int, to as int),
{
    &s[from..to]
}

impl<E: ByteStreamBody> Linger<switch::Stream<E>> {
    /// Makes `egress` the source of all further bytes of the drain.
    pub fn switch_source(&mut self, disk: &mut Disk, egress: E)
        requires
            old(self).inv(),
            old(disk).wf(),
            egress.inv(),
        ensures
            final(self).inv(),
            final(disk).wf(),
            only_appended(*old(disk), *final(disk)),
            final(self).state() == old(self).state(),
            final(self).sent() == old(self).sent(),
            final(self).source().current().delivered() == egress.delivered(),
    {
        self.source.switch(disk, egress);
    }
}

} // verus!
