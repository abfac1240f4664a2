use vstd::prelude::*;
use crate::error::{time_exceeded, Error, ETIME};

verus! {

broadcast use vstd::std_specs::hash::group_hash_axioms;

/// Identity of a reactor-managed entity.
pub type UID = u64;

/// A monotonic instant, in nanoseconds since the reactor was created.
pub type Instant = u64;

/// Nanoseconds per second.
pub const NANOS_PER_SEC: u64 = 1_000_000_000;

/// Nanoseconds per millisecond.
pub const NANOS_PER_MILLI: u64 = 1_000_000;

/// At most this many immediate actions run before the loop polls for I/O.
pub const MAX_IO_STARVATION: u8 = 20;

/// At most this many ready descriptors are dispatched per loop iteration.
pub const MAX_IO_BURST: usize = 20;

/// A named callable. The callable itself lives with the embedding program,
/// which maps the identity to it; the reactor only decides when it runs.
#[derive(Clone, Copy, Debug, PartialEq, Eq, Structural)]
pub struct Action {
    pub uid: UID,
}

/// What a timer does when it fires: run an action, or deliver an event.
#[derive(Clone, Copy, Debug, PartialEq, Eq, Structural)]
pub enum Task {
    Run(Action),
    Perf(usize),
}

/// A timer as the reactor stores it.
#[derive(Clone, Copy, Debug, PartialEq, Eq, Structural)]
pub struct TimerEntry {
    pub uid: UID,
    pub expires: Instant,
    pub task: Task,
    pub canceled: bool,
}

/// The order in which timers fire: by expiry, then by identity.
pub open spec fn key_lt(e1: Instant, u1: UID, e2: Instant, u2: UID) -> bool {
    e1 < e2 || (e1 == e2 && u1 < u2)
}

pub open spec fn entry_lt(a: TimerEntry, b: TimerEntry) -> bool {
    key_lt(a.expires, a.uid, b.expires, b.uid)
}

/// How many entries of `s` deliver event `e`.
pub open spec fn perf_count(s: Seq<TimerEntry>, e: usize) -> nat
    decreases s.len(),
{
    if s.len() == 0 {
        0
    } else {
        (if s.last().task == Task::Perf(e) { 1nat } else { 0nat }) + perf_count(s.drop_last(), e)
    }
}

pub proof fn lemma_perf_count_push(s: Seq<TimerEntry>, x: TimerEntry, e: usize)
    ensures
        perf_count(s.push(x), e) == perf_count(s, e) + (if x.task == Task::Perf(e) { 1nat } else { 0nat }),
{
    assert(s.push(x).drop_last() =~= s);
}

pub proof fn lemma_perf_count_front(s: Seq<TimerEntry>, e: usize)
    requires
        s.len() > 0,
    ensures
        perf_count(s, e) == (if s[0].task == Task::Perf(e) { 1nat } else { 0nat }) + perf_count(s.drop_first(), e),
    decreases s.len(),
{
    if s.len() > 1 {
        lemma_perf_count_front(s.drop_last(), e);
        assert(s.drop_last().drop_first() =~= s.drop_first().drop_last());
    } else {
        assert(s.drop_first() =~= Seq::<TimerEntry>::empty());
        assert(s.drop_last() =~= Seq::<TimerEntry>::empty());
    }
}

pub proof fn lemma_perf_count_update(s: Seq<TimerEntry>, i: int, x: TimerEntry, e: usize)
    requires
        0 <= i < s.len(),
        s[i].task == x.task,
    ensures
        perf_count(s.update(i, x), e) == perf_count(s, e),
    decreases s.len(),
{
    if i < s.len() - 1 {
        lemma_perf_count_update(s.drop_last(), i, x, e);
        assert(s.update(i, x).drop_last() =~= s.drop_last().update(i, x));
    } else {
        assert(s.update(i, x).drop_last() =~= s.drop_last());
    }
}

pub proof fn lemma_perf_count_none(s: Seq<TimerEntry>, e: usize)
    requires
        forall|i: int| 0 <= i < s.len() ==> s[i].task != Task::Perf(e),
    ensures
        perf_count(s, e) == 0,
    decreases s.len(),
{
    if s.len() > 0 {
        lemma_perf_count_none(s.drop_last(), e);
    }
}


/// State of an event latch.
#[derive(Clone, Copy, Debug, PartialEq, Eq, Structural)]
pub enum EventState {
    Idle,
    Triggered,
    Canceled,
}

/// An event latch as the reactor stores it.
#[derive(Clone, Copy, Debug, PartialEq, Eq, Structural)]
pub struct EventBody {
    pub uid: UID,
    pub state: EventState,
    pub action: Action,
}

proof fn lemma_push_run(s: Seq<TimerEntry>, x: TimerEntry)
    requires
        x.task is Run,
    ensures
        forall|e: usize| perf_count(#[trigger] s.push(x), e) == perf_count(s, e),
{
    assert forall|e: usize| perf_count(#[trigger] s.push(x), e) == perf_count(s, e) by {
        lemma_perf_count_push(s, x, e);
    }
}

/// A handle on a timer of a reactor.
#[derive(Clone, Copy, Debug, PartialEq, Eq, Structural)]
pub struct Timer {
    pub uid: UID,
}

/// A handle on an event latch of a reactor.
#[derive(Clone, Copy, Debug, PartialEq, Eq, Structural)]
pub struct Event {
    pub index: usize,
}

/// Scoped ownership of a descriptor's registration.
#[derive(Clone, Copy, Debug, PartialEq, Eq, Structural)]
pub struct Registration {
    pub fd: i32,
    pub event: Event,
}

/// Registered descriptors name existing events.
pub open spec fn registrations_wf(reg: Map<i32, usize>, n_events: nat) -> bool {
    forall|fd: i32| #[trigger] reg.contains_key(fd) ==> reg[fd] < n_events
}

/// The monotonic clock of the standard library.
#[verifier::external_type_specification]
#[verifier::external_body]
pub struct ExStdInstant(std::time::Instant);

/// Relies on std::time::Instant::now: a reading of the monotonic clock.
#[verifier::external_body]
fn clock_now() -> (r: std::time::Instant) {
    std::time::Instant::now()
}

/// Relies on std::time::Instant::elapsed: the nanoseconds that passed since
/// `origin`. Nothing is promised of the value, which depends on the time.
#[verifier::external_body]
fn elapsed_nanos(origin: &std::time::Instant) -> (r: u128) {
    origin.elapsed().as_nanos()
}

/// The single-threaded reactor: an immediate FIFO, a set of scheduled
/// timers, event latches and the table of registered descriptors.
pub struct Disk {
    uid: UID,
    next_uid: u64,
    immediate: Vec<TimerEntry>,
    timers: Vec<TimerEntry>,
    events: Vec<EventBody>,
    registrations: std::collections::HashMap<i32, usize>,
    quit: bool,
    wake_requested: bool,
    recent: Instant,
    countdown: u8,
    origin: std::time::Instant,
}

impl Disk {
    /// The immediate FIFO, front first.
    pub closed spec fn pending(self) -> Seq<TimerEntry> {
        self.immediate@
    }

    /// The scheduled timers, in no particular order.
    pub closed spec fn scheduled(self) -> Seq<TimerEntry> {
        self.timers@
    }

    /// The event latches, indexed by event.
    pub closed spec fn event_table(self) -> Seq<EventBody> {
        self.events@
    }

    /// Registered descriptors with the event that each one triggers.
    pub closed spec fn registration_table(self) -> Map<i32, usize> {
        self.registrations@
    }

    /// The identity that the next entity receives.
    pub closed spec fn next_id(self) -> u64 {
        self.next_uid
    }

    pub closed spec fn recent_instant(self) -> Instant {
        self.recent
    }

    pub closed spec fn quit_requested(self) -> bool {
        self.quit
    }

    pub closed spec fn wake_pending(self) -> bool {
        self.wake_requested
    }

    /// Immediate actions left in the current loop iteration.
    pub closed spec fn budget(self) -> u8 {
        self.countdown
    }

    pub open spec fn pending_has(self, uid: UID) -> bool {
        exists|i: int| 0 <= i < self.pending().len() && self.pending()[i].uid == uid
    }

    pub open spec fn scheduled_has(self, uid: UID) -> bool {
        exists|i: int| 0 <= i < self.scheduled().len() && self.scheduled()[i].uid == uid
    }

    pub open spec fn registered(self, fd: i32) -> bool {
        self.registration_table().contains_key(fd)
    }

    /// The reactor's invariant.
    pub open spec fn wf(self) -> bool {
        let p = self.pending();
        let t = self.scheduled();
        let ev = self.event_table();
        let reg = self.registration_table();
        &&& forall|i: int| 0 <= i < p.len() ==> #[trigger] p[i].uid < self.next_id()
        &&& forall|i: int, j: int| 0 <= i < j < p.len() ==> #[trigger] p[i].uid < #[trigger] p[j].uid
        &&& forall|i: int| 0 <= i < t.len() ==> #[trigger] t[i].uid < self.next_id()
        &&& forall|i: int, j: int| 0 <= i < t.len() && 0 <= j < t.len() && i != j
            ==> #[trigger] t[i].uid != #[trigger] t[j].uid
        &&& forall|i: int, j: int| 0 <= i < p.len() && 0 <= j < t.len()
            ==> #[trigger] p[i].uid != #[trigger] t[j].uid
        &&& forall|i: int| 0 <= i < t.len() ==> (#[trigger] t[i]).task is Run && !t[i].canceled
        &&& forall|i: int| 0 <= i < p.len() ==> match (#[trigger] p[i]).task {
            Task::Perf(e) => e < ev.len() && !p[i].canceled,
            Task::Run(_) => true,
        }
        &&& forall|e: usize| e < ev.len() ==> #[trigger] perf_count(p, e) == if ev[e as int].state == EventState::Idle {
            0nat
        } else {
            1nat
        }
        &&& registrations_wf(reg, ev.len())
        &&& self.budget() <= MAX_IO_STARVATION
    }

    /// A new reactor with nothing to do.
    pub fn new() -> (d: Disk)
        ensures
            d.wf(),
            d.pending().len() == 0,
            d.scheduled().len() == 0,
            d.event_table().len() == 0,
            d.registration_table().len() == 0,
            !d.quit_requested(),
            !d.wake_pending(),
            d.next_id() == 1,
            d.recent_instant() == 0,
            d.budget() == MAX_IO_STARVATION,
    {
        Disk {
            uid: 0,
            next_uid: 1,
            immediate: Vec::new(),
            timers: Vec::new(),
            events: Vec::new(),
            registrations: std::collections::HashMap::new(),
            quit: false,
            wake_requested: false,
            recent: 0,
            countdown: MAX_IO_STARVATION,
            origin: clock_now(),
        }
    }

    /// The reactor's own identity.
    pub fn get_uid(&self) -> (r: UID) {
        self.uid
    }

    /// Reads the monotonic clock, caches the reading as the recent instant
    /// and returns it.
    pub fn now(&mut self) -> (t: Instant)
        requires
            old(self).wf(),
        ensures
            final(self).wf(),
            final(self).recent_instant() == t,
            final(self).pending() == old(self).pending(),
            final(self).scheduled() == old(self).scheduled(),
            final(self).event_table() == old(self).event_table(),
            final(self).registration_table() == old(self).registration_table(),
            final(self).next_id() == old(self).next_id(),
            final(self).quit_requested() == old(self).quit_requested(),
            final(self).wake_pending() == old(self).wake_pending(),
            final(self).budget() == old(self).budget(),
    {
        let n = elapsed_nanos(&self.origin);
        let t: u64 = if n > u64::MAX as u128 { u64::MAX } else { n as u64 };
        self.recent = t;
        t
    }

    /// The recent instant, as last read from the clock.
    pub fn recent(&self) -> (t: Instant)
        ensures
            t == self.recent_instant(),
    {
        self.recent
    }

    /// A fresh identity, or `None` once identities ran out.
    pub fn fresh_uid(&mut self) -> (r: Option<UID>)
        requires
            old(self).wf(),
        ensures
            final(self).wf(),
            r == (if old(self).next_id() < u64::MAX { Some(old(self).next_id()) } else { None::<UID> }),
            final(self).next_id() == (if old(self).next_id() < u64::MAX { old(self).next_id() + 1 } else { old(self).next_id() as int }),
            final(self).pending() == old(self).pending(),
            final(self).scheduled() == old(self).scheduled(),
            final(self).event_table() == old(self).event_table(),
            final(self).registration_table() == old(self).registration_table(),
            final(self).recent_instant() == old(self).recent_instant(),
            final(self).quit_requested() == old(self).quit_requested(),
            final(self).wake_pending() == old(self).wake_pending(),
            final(self).budget() == old(self).budget(),
    {
        if self.next_uid < u64::MAX {
            let u = self.next_uid;
            self.next_uid = self.next_uid + 1;
            Some(u)
        } else {
            None
        }
    }

    /// Whether the reactor's tables other than those named are unchanged.
    pub open spec fn same_tables(self, other: Disk) -> bool {
        &&& self.event_table() == other.event_table()
        &&& self.registration_table() == other.registration_table()
        &&& self.recent_instant() == other.recent_instant()
        &&& self.quit_requested() == other.quit_requested()
        &&& self.budget() == other.budget()
    }

    /// Appends a pending timer at the tail of the immediate FIFO, expiring at
    /// the recent instant.
    pub fn execute(&mut self, action: Action) -> (timer: Timer)
        requires
            old(self).wf(),
        ensures
            final(self).wf(),
            final(self).same_tables(*old(self)),
            final(self).scheduled() == old(self).scheduled(),
            final(self).next_id() == if old(self).next_id() < u64::MAX {
                old(self).next_id() + 1
            } else {
                old(self).next_id() as int
            },
            old(self).next_id() < u64::MAX ==> {
                &&& timer.uid == old(self).next_id()
                &&& final(self).pending() == old(self).pending().push(
                    TimerEntry {
                        uid: timer.uid,
                        expires: old(self).recent_instant(),
                        task: Task::Run(action),
                        canceled: false,
                    },
                )
                &&& final(self).wake_pending()
            },
            old(self).next_id() == u64::MAX ==> final(self).pending() == old(self).pending(),
    {
        match self.fresh_uid() {
            Some(uid) => {
                let entry = TimerEntry {
                    uid,
                    expires: self.recent,
                    task: Task::Run(action),
                    canceled: false,
                };
                let ghost fifo0 = self.immediate@;
                self.immediate.push(entry);
                proof {
                    lemma_push_run(fifo0, entry);
                    assert(self.immediate@ == fifo0.push(entry));
                    assert forall|e: usize| e < self.events@.len() implies #[trigger] perf_count(self.immediate@, e)
                        == perf_count(fifo0, e) by {
                        lemma_perf_count_push(fifo0, entry, e);
                    }
                }
                self.wake_requested = true;
                Timer { uid }
            },
            None => Timer { uid: u64::MAX },
        }
    }

    /// Inserts a scheduled timer that expires at `expires`.
    pub fn schedule(&mut self, expires: Instant, action: Action) -> (timer: Timer)
        requires
            old(self).wf(),
        ensures
            final(self).wf(),
            final(self).same_tables(*old(self)),
            final(self).pending() == old(self).pending(),
            final(self).next_id() == if old(self).next_id() < u64::MAX {
                old(self).next_id() + 1
            } else {
                old(self).next_id() as int
            },
            old(self).next_id() < u64::MAX ==> {
                &&& timer.uid == old(self).next_id()
                &&& final(self).scheduled() == old(self).scheduled().push(
                    TimerEntry { uid: timer.uid, expires, task: Task::Run(action), canceled: false },
                )
                &&& final(self).wake_pending()
            },
            old(self).next_id() == u64::MAX ==> final(self).scheduled() == old(self).scheduled(),
    {
        match self.fresh_uid() {
            Some(uid) => {
                self.timers.push(TimerEntry { uid, expires, task: Task::Run(action), canceled: false });
                self.wake_requested = true;
                Timer { uid }
            },
            None => Timer { uid: u64::MAX },
        }
    }

    /// Creates an idle event latch whose delivery runs `action`.
    pub fn make_event(&mut self, action: Action) -> (event: Event)
        requires
            old(self).wf(),
        ensures
            final(self).wf(),
            event.index == old(self).event_table().len(),
            final(self).event_table().len() == old(self).event_table().len() + 1,
            final(self).event_table().drop_last() == old(self).event_table(),
            final(self).event_table().last().state == EventState::Idle,
            final(self).event_table().last().action == action,
            final(self).pending() == old(self).pending(),
            final(self).scheduled() == old(self).scheduled(),
            final(self).registration_table() == old(self).registration_table(),
            final(self).recent_instant() == old(self).recent_instant(),
            final(self).quit_requested() == old(self).quit_requested(),
            final(self).budget() == old(self).budget(),
    {
        let uid = match self.fresh_uid() {
            Some(u) => u,
            None => u64::MAX,
        };
        let index = self.events.len();
        proof {
            lemma_perf_count_none(self.immediate@, index);
        }
        self.events.push(EventBody { uid, state: EventState::Idle, action });
        assert(self.events@.drop_last() =~= old(self).events@);
        Event { index }
    }

    /// Requests that the loop quit after the current batch.
    pub fn quit(&mut self)
        requires
            old(self).wf(),
        ensures
            final(self).wf(),
            final(self).quit_requested(),
            final(self).wake_pending(),
            final(self).pending() == old(self).pending(),
            final(self).scheduled() == old(self).scheduled(),
            final(self).event_table() == old(self).event_table(),
            final(self).registration_table() == old(self).registration_table(),
            final(self).budget() == old(self).budget(),
    {
        self.quit = true;
        self.wake_requested = true;
    }

    /// Whether the loop was asked to quit.
    pub fn is_quitting(&self) -> (r: bool)
        ensures
            r == self.quit_requested(),
    {
        self.quit
    }

    /// Reports, and clears, whether something happened that a loop blocked
    /// in another thread must be woken for.
    pub fn take_wake_request(&mut self) -> (r: bool)
        requires
            old(self).wf(),
        ensures
            final(self).wf(),
            r == old(self).wake_pending(),
            !final(self).wake_pending(),
            final(self).same_tables(*old(self)),
            final(self).pending() == old(self).pending(),
            final(self).scheduled() == old(self).scheduled(),
    {
        let r = self.wake_requested;
        self.wake_requested = false;
        r
    }

    /// The FIFO after canceling timer `uid`: a pending action of that identity
    /// becomes a tombstone that is skipped when popped.
    pub open spec fn tombstoned(p: Seq<TimerEntry>, uid: UID) -> Seq<TimerEntry> {
        Seq::new(
            p.len(),
            |i: int|
                if p[i].uid == uid && p[i].task is Run {
                    TimerEntry { canceled: true, ..p[i] }
                } else {
                    p[i]
                },
        )
    }

    fn find_scheduled(&self, uid: UID) -> (r: Option<usize>)
        ensures
            match r {
                Some(i) => i < self.timers@.len() && self.timers@[i as int].uid == uid,
                None => forall|k: int| 0 <= k < self.timers@.len() ==> self.timers@[k].uid != uid,
            },
    {
        let mut i: usize = 0;
        while i < self.timers.len()
            invariant
                0 <= i <= self.timers@.len(),
                forall|k: int| 0 <= k < i ==> self.timers@[k].uid != uid,
            decreases self.timers@.len() - i,
        {
            if self.timers[i].uid == uid {
                return Some(i);
            }
            i = i + 1;
        }
        None
    }

    fn find_pending_run(&self, uid: UID) -> (r: Option<usize>)
        ensures
            match r {
                Some(i) => i < self.immediate@.len() && self.immediate@[i as int].uid == uid
                    && self.immediate@[i as int].task is Run,
                None => forall|k: int|
                    0 <= k < self.immediate@.len() ==> !(self.immediate@[k].uid == uid
                        && self.immediate@[k].task is Run),
            },
    {
        let mut j: usize = 0;
        while j < self.immediate.len()
            invariant
                0 <= j <= self.immediate@.len(),
                forall|k: int| 0 <= k < j ==> !(self.immediate@[k].uid == uid && self.immediate@[k].task is Run),
            decreases self.immediate@.len() - j,
        {
            if self.immediate[j].uid == uid && matches!(self.immediate[j].task, Task::Run(_)) {
                return Some(j);
            }
            j = j + 1;
        }
        None
    }

    fn cancel_timer(&mut self, uid: UID)
        requires
            old(self).wf(),
        ensures
            final(self).wf(),
            final(self).same_tables(*old(self)),
            final(self).wake_pending() == old(self).wake_pending(),
            !final(self).scheduled_has(uid),
            forall|x: TimerEntry|
                #[trigger] final(self).scheduled().contains(x) <==> (old(self).scheduled().contains(x) && x.uid
                    != uid),
            final(self).pending() == Self::tombstoned(old(self).pending(), uid),
    {
        let found = self.find_scheduled(uid);
        if let Some(i) = found {
            let ghost t0 = self.timers@;
            self.timers.remove(i);
            assert forall|x: TimerEntry|
                #[trigger] self.timers@.contains(x) <==> (t0.contains(x) && x.uid != uid) by {
                if self.timers@.contains(x) {
                    let k = choose|k: int| 0 <= k < self.timers@.len() && self.timers@[k] == x;
                    if k < i {
                        assert(t0[k] == x);
                    } else {
                        assert(t0[k + 1] == x);
                    }
                }
                if t0.contains(x) && x.uid != uid {
                    let k = choose|k: int| 0 <= k < t0.len() && t0[k] == x;
                    if k < i {
                        assert(self.timers@[k] == x);
                    } else {
                        assert(k != i);
                        assert(self.timers@[k - 1] == x);
                    }
                }
            }
        } else {
            assert forall|x: TimerEntry|
                #[trigger] self.timers@.contains(x) <==> (old(self).timers@.contains(x) && x.uid != uid) by {
                if self.timers@.contains(x) {
                    let k = choose|k: int| 0 <= k < self.timers@.len() && self.timers@[k] == x;
                }
            }
        }
        let ghost mid = *self;
        let found = self.find_pending_run(uid);
        if let Some(j) = found {
            let old_entry = self.immediate[j];
            let entry = TimerEntry { canceled: true, ..old_entry };
            let ghost fifo0 = self.immediate@;
            self.immediate.set(j, entry);
            proof {
                assert forall|e: usize| e < self.events@.len() implies #[trigger] perf_count(self.immediate@, e)
                    == perf_count(fifo0, e) by {
                    lemma_perf_count_update(fifo0, j as int, entry, e);
                }
            }
            assert(self.immediate@ =~= Self::tombstoned(fifo0, uid));
        } else {
            assert(self.immediate@ =~= Self::tombstoned(mid.immediate@, uid));
        }
    }
}

impl Timer {
    /// Cancels the timer: a scheduled timer leaves the map, a pending one
    /// stays in the FIFO as a tombstone. Idempotent; a fired timer is left
    /// alone.
    pub fn cancel(&self, disk: &mut Disk)
        requires
            old(disk).wf(),
        ensures
            final(disk).wf(),
            final(disk).same_tables(*old(disk)),
            !final(disk).scheduled_has(self.uid),
            forall|x: TimerEntry|
                #[trigger] final(disk).scheduled().contains(x) <==> (old(disk).scheduled().contains(x) && x.uid
                    != self.uid),
            final(disk).pending() == Disk::tombstoned(old(disk).pending(), self.uid),
    {
        disk.cancel_timer(self.uid);
    }
}

impl Disk {
    /// The event table after event `index` moved to `state`.
    pub open spec fn with_event_state(self, index: usize, state: EventState) -> Seq<EventBody> {
        self.event_table().update(index as int, EventBody { state, ..self.event_table()[index as int] })
    }

    fn trigger_event(&mut self, index: usize)
        requires
            old(self).wf(),
            index < old(self).event_table().len(),
        ensures
            final(self).wf(),
            final(self).scheduled() == old(self).scheduled(),
            final(self).registration_table() == old(self).registration_table(),
            final(self).recent_instant() == old(self).recent_instant(),
            final(self).quit_requested() == old(self).quit_requested(),
            final(self).budget() == old(self).budget(),
            Event::trigger_post(*old(self), *final(self), index),
    {
        let body = self.events[index];
        match body.state {
            EventState::Idle => {
                match self.fresh_uid() {
                    Some(uid) => {
                        let entry = TimerEntry {
                            uid,
                            expires: self.recent,
                            task: Task::Perf(index),
                            canceled: false,
                        };
                        let ghost fifo0 = self.immediate@;
                        let ghost ev0 = self.events@;
                        self.immediate.push(entry);
                        self.events.set(index, EventBody { state: EventState::Triggered, ..body });
                        self.wake_requested = true;
                        proof {
                            assert forall|e: usize| e < self.events@.len() implies #[trigger] perf_count(
                                self.immediate@,
                                e,
                            ) == if self.events@[e as int].state == EventState::Idle {
                                0nat
                            } else {
                                1nat
                            } by {
                                lemma_perf_count_push(fifo0, entry, e);
                            }
                        }
                    },
                    None => {},
                }
            },
            EventState::Triggered => {},
            EventState::Canceled => {
                self.events.set(index, EventBody { state: EventState::Triggered, ..body });
                assert forall|e: usize| e < self.events@.len() implies #[trigger] perf_count(
                    self.immediate@,
                    e,
                ) == if self.events@[e as int].state == EventState::Idle {
                    0nat
                } else {
                    1nat
                } by {
                    assert(old(self).events@[e as int].state == EventState::Idle
                        <==> self.events@[e as int].state == EventState::Idle);
                }
            },
        }
    }

    fn cancel_event(&mut self, index: usize)
        requires
            old(self).wf(),
            index < old(self).event_table().len(),
        ensures
            final(self).wf(),
            final(self).pending() == old(self).pending(),
            final(self).scheduled() == old(self).scheduled(),
            final(self).registration_table() == old(self).registration_table(),
            final(self).recent_instant() == old(self).recent_instant(),
            final(self).quit_requested() == old(self).quit_requested(),
            final(self).budget() == old(self).budget(),
            final(self).wake_pending() == old(self).wake_pending(),
            final(self).event_table() == if old(self).event_table()[index as int].state == EventState::Triggered {
                old(self).with_event_state(index, EventState::Canceled)
            } else {
                old(self).event_table()
            },
            old(self).event_table()[index as int].state != EventState::Triggered ==> *final(self) == *old(self),
    {
        let body = self.events[index];
        if body.state == EventState::Triggered {
            self.events.set(index, EventBody { state: EventState::Canceled, ..body });
            assert forall|e: usize| e < self.events@.len() implies #[trigger] perf_count(self.immediate@, e)
                == if self.events@[e as int].state == EventState::Idle {
                0nat
            } else {
                1nat
            } by {
                assert(old(self).events@[e as int].state == EventState::Idle
                    <==> self.events@[e as int].state == EventState::Idle);
            }
        }
    }
}

impl Event {
    /// What triggering event `index` does: an idle latch becomes triggered
    /// and enqueues one delivery; a triggered latch coalesces the edge; a
    /// canceled latch is re-armed without a second delivery.
    pub open spec fn trigger_post(d0: Disk, d1: Disk, index: usize) -> bool {
        let st = d0.event_table()[index as int].state;
        match st {
            EventState::Idle => if d0.next_id() < u64::MAX {
                &&& d1.event_table() == d0.with_event_state(index, EventState::Triggered)
                &&& d1.pending() == d0.pending().push(
                    TimerEntry {
                        uid: d0.next_id(),
                        expires: d0.recent_instant(),
                        task: Task::Perf(index),
                        canceled: false,
                    },
                )
            } else {
                d1.event_table() == d0.event_table() && d1.pending() == d0.pending()
            },
            EventState::Triggered => d1.event_table() == d0.event_table() && d1.pending() == d0.pending(),
            EventState::Canceled => {
                &&& d1.event_table() == d0.with_event_state(index, EventState::Triggered)
                &&& d1.pending() == d0.pending()
            },
        }
    }

    /// Converts a readiness edge into at most one pending delivery.
    pub fn trigger(&self, disk: &mut Disk)
        requires
            old(disk).wf(),
        ensures
            final(disk).wf(),
            final(disk).scheduled() == old(disk).scheduled(),
            final(disk).registration_table() == old(disk).registration_table(),
            self.index < old(disk).event_table().len() ==> Event::trigger_post(*old(disk), *final(disk), self.index),
            self.index >= old(disk).event_table().len() ==> *final(disk) == *old(disk),
    {
        if self.index < disk.events.len() {
            disk.trigger_event(self.index);
        }
    }

    /// Marks a queued delivery dead; an idle or canceled latch is unchanged.
    pub fn cancel(&self, disk: &mut Disk)
        requires
            old(disk).wf(),
        ensures
            final(disk).wf(),
            final(disk).pending() == old(disk).pending(),
            final(disk).scheduled() == old(disk).scheduled(),
            self.index < old(disk).event_table().len() && old(disk).event_table()[self.index as int].state
                == EventState::Triggered ==> final(disk).event_table() == old(disk).with_event_state(
                self.index,
                EventState::Canceled,
            ),
            !(self.index < old(disk).event_table().len() && old(disk).event_table()[self.index as int].state
                == EventState::Triggered) ==> *final(disk) == *old(disk),
    {
        if self.index < disk.events.len() {
            disk.cancel_event(self.index);
        }
    }

    /// Every triggered or canceled latch has exactly one delivery waiting in
    /// the immediate FIFO; an idle one has none.
    pub proof fn lemma_one_delivery(&self, disk: &Disk)
        requires
            disk.wf(),
            self.index < disk.event_table().len(),
        ensures
            disk.event_table()[self.index as int].state == EventState::Triggered ==> perf_count(
                disk.pending(),
                self.index,
            ) == 1,
            disk.event_table()[self.index as int].state == EventState::Idle ==> perf_count(
                disk.pending(),
                self.index,
            ) == 0,
    {
    }
}

/// What the reactor should do next.
#[derive(Clone, Copy, Debug, PartialEq, Eq, Structural)]
pub enum NextStep {
    ImmediateAction,
    TimerExpired(usize),
    NextTimerExpiry(Instant),
    InfiniteWait,
}

/// A timer that fired, with the action to perform (none when an event's
/// delivery was canceled).
#[derive(Clone, Copy, Debug, PartialEq, Eq, Structural)]
pub struct Fired {
    pub uid: UID,
    pub expires: Instant,
    pub action: Option<Action>,
}

/// The outcome of popping a timer.
#[derive(Clone, Copy, Debug, PartialEq, Eq, Structural)]
pub enum Popped {
    TimerExpired(Fired),
    NextTimerExpiry(Instant),
    InfiniteWait,
}

impl Disk {
    /// Entry `i` is the earliest scheduled timer.
    pub open spec fn is_first_scheduled(self, i: int) -> bool {
        &&& 0 <= i < self.scheduled().len()
        &&& forall|k: int|
            0 <= k < self.scheduled().len() && k != i ==> entry_lt(self.scheduled()[i], #[trigger] self.scheduled()[k])
    }

    fn min_scheduled(&self) -> (r: Option<usize>)
        requires
            self.wf(),
        ensures
            match r {
                Some(i) => self.is_first_scheduled(i as int),
                None => self.scheduled().len() == 0,
            },
    {
        if self.timers.len() == 0 {
            return None;
        }
        let mut best: usize = 0;
        let mut i: usize = 1;
        while i < self.timers.len()
            invariant
                self.wf(),
                1 <= i <= self.timers@.len(),
                best < i,
                forall|k: int| 0 <= k < i && k != best ==> entry_lt(self.timers@[best as int], #[trigger] self.timers@[k]),
            decreases self.timers@.len() - i,
        {
            let a = self.timers[i];
            let b = self.timers[best];
            if a.expires < b.expires || (a.expires == b.expires && a.uid < b.uid) {
                assert(a.uid != b.uid);
                best = i;
            } else {
                assert(a.uid != b.uid);
            }
            i = i + 1;
        }
        Some(best)
    }

    /// Chooses the next step: the earlier of the first scheduled timer and
    /// the front of the immediate FIFO; a scheduled timer alone runs only
    /// once it expired.
    pub fn next_step(&mut self) -> (r: NextStep)
        requires
            old(self).wf(),
        ensures
            final(self).wf(),
            final(self).pending() == old(self).pending(),
            final(self).scheduled() == old(self).scheduled(),
            final(self).event_table() == old(self).event_table(),
            final(self).registration_table() == old(self).registration_table(),
            final(self).next_id() == old(self).next_id(),
            final(self).quit_requested() == old(self).quit_requested(),
            final(self).wake_pending() == old(self).wake_pending(),
            final(self).budget() == old(self).budget(),
            match r {
                NextStep::TimerExpired(i) => {
                    &&& final(self).is_first_scheduled(i as int)
                    &&& final(self).pending().len() > 0 ==> entry_lt(
                        final(self).scheduled()[i as int],
                        final(self).pending()[0],
                    )
                    &&& final(self).pending().len() == 0 ==> final(self).scheduled()[i as int].expires
                        <= final(self).recent_instant()
                },
                NextStep::ImmediateAction => {
                    &&& final(self).pending().len() > 0
                    &&& forall|k: int|
                        0 <= k < final(self).scheduled().len() ==> entry_lt(
                            final(self).pending()[0],
                            #[trigger] final(self).scheduled()[k],
                        )
                },
                NextStep::NextTimerExpiry(x) => {
                    &&& final(self).pending().len() == 0
                    &&& exists|i: int| final(self).is_first_scheduled(i) && final(self).scheduled()[i].expires == x
                    &&& x > final(self).recent_instant()
                },
                NextStep::InfiniteWait => final(self).pending().len() == 0 && final(self).scheduled().len() == 0,
            },
    {
        let now = self.now();
        match self.min_scheduled() {
            Some(i) => {
                let first = self.timers[i];
                if self.immediate.len() > 0 {
                    let front = self.immediate[0];
                    if first.expires < front.expires || (first.expires == front.expires && first.uid < front.uid) {
                        NextStep::TimerExpired(i)
                    } else {
                        assert(front.uid != first.uid);
                        assert forall|k: int| 0 <= k < self.timers@.len() implies entry_lt(
                            front,
                            #[trigger] self.timers@[k],
                        ) by {
                            assert(front.uid != self.timers@[k].uid);
                        }
                        NextStep::ImmediateAction
                    }
                } else if first.expires <= now {
                    NextStep::TimerExpired(i)
                } else {
                    NextStep::NextTimerExpiry(first.expires)
                }
            },
            None => {
                if self.immediate.len() > 0 {
                    NextStep::ImmediateAction
                } else {
                    NextStep::InfiniteWait
                }
            },
        }
    }
}

impl Disk {
    /// `fifo1` is `fifo0` without a prefix of `n` tombstones.
    pub open spec fn tombstones_dropped(fifo0: Seq<TimerEntry>, fifo1: Seq<TimerEntry>, n: int) -> bool {
        &&& 0 <= n <= fifo0.len()
        &&& fifo1 == fifo0.skip(n)
        &&& forall|j: int| 0 <= j < n ==> (#[trigger] fifo0[j]).canceled
    }

    /// How `f` left the reactor between `d0` and `d1`: either the earliest
    /// scheduled timer, or the first live entry of the immediate FIFO.
    pub open spec fn fired_from(d0: Disk, d1: Disk, f: Fired) -> bool {
        ||| exists|i: int, n: int|
            {
                &&& d0.is_first_scheduled(i)
                &&& #[trigger] d0.scheduled()[i].uid == f.uid
                &&& d0.scheduled()[i].expires == f.expires
                &&& f.action == Some(d0.scheduled()[i].task->Run_0)
                &&& d1.scheduled() == d0.scheduled().remove(i)
                &&& #[trigger] Disk::tombstones_dropped(d0.pending(), d1.pending(), n)
                &&& (d1.pending().len() > 0 ==> entry_lt(d0.scheduled()[i], d1.pending()[0]))
                &&& (d1.pending().len() == 0 ==> d0.scheduled()[i].expires <= d1.recent_instant())
                &&& d1.event_table() == d0.event_table()
            }
        ||| exists|n: int|
            {
                &&& #[trigger] Disk::tombstones_dropped(d0.pending(), d0.pending().skip(n), n)
                &&& n < d0.pending().len()
                &&& !d0.pending()[n].canceled
                &&& d0.pending()[n].uid == f.uid
                &&& d0.pending()[n].expires == f.expires
                &&& d1.pending() == d0.pending().skip(n + 1)
                &&& d1.scheduled() == d0.scheduled()
                &&& match d0.pending()[n].task {
                    Task::Run(a) => f.action == Some(a) && d1.event_table() == d0.event_table(),
                    Task::Perf(e) => {
                        &&& d1.event_table() == d0.with_event_state(e, EventState::Idle)
                        &&& f.action == if d0.event_table()[e as int].state == EventState::Triggered {
                            Some(d0.event_table()[e as int].action)
                        } else {
                            None
                        }
                    },
                }
            }
    }

    fn pop_front(&mut self) -> (r: (TimerEntry, Option<Action>))
        requires
            old(self).wf(),
            old(self).pending().len() > 0,
        ensures
            final(self).wf(),
            r.0 == old(self).pending()[0],
            final(self).pending() == old(self).pending().drop_first(),
            final(self).scheduled() == old(self).scheduled(),
            final(self).registration_table() == old(self).registration_table(),
            final(self).recent_instant() == old(self).recent_instant(),
            final(self).next_id() == old(self).next_id(),
            final(self).quit_requested() == old(self).quit_requested(),
            final(self).budget() == old(self).budget(),
            match r.0.task {
                Task::Run(a) => r.1 == Some(a) && final(self).event_table() == old(self).event_table(),
                Task::Perf(e) => {
                    &&& final(self).event_table() == old(self).with_event_state(e, EventState::Idle)
                    &&& r.1 == if old(self).event_table()[e as int].state == EventState::Triggered {
                        Some(old(self).event_table()[e as int].action)
                    } else {
                        None
                    }
                },
            },
    {
        let ghost fifo0 = self.immediate@;
        let entry = self.immediate.remove(0);
        assert(self.immediate@ =~= fifo0.drop_first());
        proof {
            assert forall|e: usize| #[trigger] perf_count(self.immediate@, e) + (if fifo0[0].task == Task::Perf(e) {
                1nat
            } else {
                0nat
            }) == perf_count(fifo0, e) by {
                lemma_perf_count_front(fifo0, e);
            }
        }
        match entry.task {
            Task::Run(a) => (entry, Some(a)),
            Task::Perf(e) => {
                let body = self.events[e];
                let act = if body.state == EventState::Triggered {
                    Some(body.action)
                } else {
                    None
                };
                self.events.set(e, EventBody { state: EventState::Idle, ..body });
                proof {
                    assert forall|e2: usize| e2 < self.events@.len() implies #[trigger] perf_count(
                        self.immediate@,
                        e2,
                    ) == if self.events@[e2 as int].state == EventState::Idle {
                        0nat
                    } else {
                        1nat
                    } by {
                        assert(perf_count(self.immediate@, e2) + (if fifo0[0].task == Task::Perf(e2) {
                            1nat
                        } else {
                            0nat
                        }) == perf_count(fifo0, e2));
                        if e2 != e {
                            assert(self.events@[e2 as int] == old(self).events@[e2 as int]);
                        }
                    }
                }
                (entry, act)
            },
        }
    }

    /// What one step of `poll` from `d0` to `d1` that returned `r` did.
    pub open spec fn poll_post(d0: Disk, d1: Disk, r: Popped) -> bool {
        match r {
            Popped::TimerExpired(f) => {
                &&& Disk::fired_from(d0, d1, f)
                &&& forall|k: int|
                    0 <= k < d1.scheduled().len() ==> key_lt(
                        f.expires,
                        f.uid,
                        (#[trigger] d1.scheduled()[k]).expires,
                        d1.scheduled()[k].uid,
                    )
            },
            Popped::NextTimerExpiry(x) => {
                &&& d1.pending().len() == 0
                &&& Disk::tombstones_dropped(d0.pending(), d1.pending(), d0.pending().len() as int)
                &&& d1.scheduled() == d0.scheduled()
                &&& d1.event_table() == d0.event_table()
                &&& exists|i: int| d1.is_first_scheduled(i) && d1.scheduled()[i].expires == x
                &&& x > d1.recent_instant()
            },
            Popped::InfiniteWait => {
                &&& d1.pending().len() == 0
                &&& Disk::tombstones_dropped(d0.pending(), d1.pending(), d0.pending().len() as int)
                &&& d1.scheduled().len() == 0
                &&& d1.scheduled() == d0.scheduled()
                &&& d1.event_table() == d0.event_table()
            },
        }
    }

    /// One step of the reactor: pops the next timer to run, skipping
    /// tombstones; otherwise reports the next expiry, or that nothing is left.
    /// The caller performs the fired action.
    pub fn poll(&mut self) -> (r: Popped)
        requires
            old(self).wf(),
        ensures
            final(self).wf(),
            final(self).registration_table() == old(self).registration_table(),
            final(self).next_id() == old(self).next_id(),
            final(self).quit_requested() == old(self).quit_requested(),
            final(self).budget() == old(self).budget(),
            Disk::poll_post(*old(self), *final(self), r),
    {
        let ghost n: int = 0;
        assert(old(self).pending().skip(0) =~= old(self).pending());
        loop
            invariant
                self.wf(),
                self.registration_table() == old(self).registration_table(),
                self.next_id() == old(self).next_id(),
                self.quit_requested() == old(self).quit_requested(),
                self.budget() == old(self).budget(),
                self.scheduled() == old(self).scheduled(),
                self.event_table() == old(self).event_table(),
                Disk::tombstones_dropped(old(self).pending(), self.pending(), n),
            decreases self.immediate@.len(),
        {
            let ghost d1 = *self;
            match self.next_step() {
                NextStep::ImmediateAction => {
                    let ghost d2 = *self;
                    let (entry, act) = self.pop_front();
                    if entry.canceled {
                        proof {
                            assert(old(self).pending()[n] == entry);
                            assert(self.pending() =~= old(self).pending().skip(n + 1));
                            n = n + 1;
                        }
                        continue;
                    }
                    let f = Fired { uid: entry.uid, expires: entry.expires, action: act };
                    proof {
                        assert(old(self).pending()[n] == entry);
                        assert(self.pending() =~= old(self).pending().skip(n + 1));
                        assert(Disk::tombstones_dropped(old(self).pending(), old(self).pending().skip(n), n));
                        assert forall|k: int| 0 <= k < self.scheduled().len() implies key_lt(
                            f.expires,
                            f.uid,
                            (#[trigger] self.scheduled()[k]).expires,
                            self.scheduled()[k].uid,
                        ) by {
                            assert(entry_lt(d2.pending()[0], d2.scheduled()[k]));
                        }
                    }
                    return Popped::TimerExpired(f);
                },
                NextStep::TimerExpired(i) => {
                    let ghost d2 = *self;
                    let entry = self.timers.remove(i);
                    let action = match entry.task {
                        Task::Run(a) => a,
                        Task::Perf(_) => Action { uid: 0 },
                    };
                    let f = Fired { uid: entry.uid, expires: entry.expires, action: Some(action) };
                    proof {
                        assert(self.scheduled() == d2.scheduled().remove(i as int));
                        assert(d2.scheduled()[i as int].uid == f.uid);
                        assert(Disk::tombstones_dropped(old(self).pending(), self.pending(), n));
                        assert forall|k: int| 0 <= k < self.scheduled().len() implies key_lt(
                            f.expires,
                            f.uid,
                            (#[trigger] self.scheduled()[k]).expires,
                            self.scheduled()[k].uid,
                        ) by {
                            if k < i {
                                assert(self.scheduled()[k] == d2.scheduled()[k]);
                            } else {
                                assert(self.scheduled()[k] == d2.scheduled()[k + 1]);
                            }
                        }
                    }
                    return Popped::TimerExpired(f);
                },
                NextStep::NextTimerExpiry(x) => {
                    proof {
                        assert(n == old(self).pending().len());
                    }
                    return Popped::NextTimerExpiry(x);
                },
                NextStep::InfiniteWait => {
                    proof {
                        assert(n == old(self).pending().len());
                    }
                    return Popped::InfiniteWait;
                },
            }
        }
    }
}

/// What the loop does next.
#[derive(Clone, Copy, Debug, PartialEq, Eq, Structural)]
pub enum LoopStep {
    /// Perform the fired timer's action, then ask again.
    Perform(Fired),
    /// Block in the poller for at most this many milliseconds (-1: no limit).
    Wait(i32),
    /// Leave the loop.
    Quit,
}

/// Milliseconds in `nanos`, rounded up.
pub open spec fn ceil_millis(nanos: nat) -> nat {
    ((nanos + 999_999) / 1_000_000) as nat
}

/// The poller timeout for waiting from `now` until `until`, capped by `cap`,
/// rounded up to whole milliseconds and clamped to the `i32` range.
pub open spec fn spec_ms_until(now: Instant, until: Instant, cap: Option<u64>) -> i32 {
    let d: nat = if until > now { (until - now) as nat } else { 0 };
    let d2: nat = match cap {
        Some(c) => if (c as nat) < d { c as nat } else { d },
        None => d,
    };
    if ceil_millis(d2) > i32::MAX { i32::MAX } else { ceil_millis(d2) as i32 }
}

/// Computes `spec_ms_until`.
pub fn ms_until(now: Instant, until: Instant, cap: Option<u64>) -> (r: i32)
    ensures
        r == spec_ms_until(now, until, cap),
        r >= 0,
{
    let mut d: u64 = if until > now { until - now } else { 0 };
    match cap {
        Some(c) => {
            if c < d {
                d = c;
            }
        },
        None => {},
    }
    let ms: u64 = d / NANOS_PER_MILLI + if d % NANOS_PER_MILLI != 0 { 1u64 } else { 0u64 };
    assert(ms == ceil_millis(d as nat)) by (nonlinear_arith)
        requires
            ms == d / 1_000_000 + if d % 1_000_000 != 0 { 1u64 } else { 0u64 },
            NANOS_PER_MILLI == 1_000_000,
    {
    }
    if ms > i32::MAX as u64 {
        i32::MAX
    } else {
        ms as i32
    }
}

/// `t` advanced by `n` units of `unit` nanoseconds, unless that overflows.
pub open spec fn spec_advance(t: Instant, n: u64, unit: u64) -> Option<Instant> {
    if t + n * unit <= u64::MAX {
        Some((t + n * unit) as u64)
    } else {
        None
    }
}

fn advance(t: Instant, n: u64, unit: u64) -> (r: Option<Instant>)
    ensures
        r == spec_advance(t, n, unit),
{
    assert((n as u128) * (unit as u128) <= 0xffff_ffff_ffff_ffff * 0xffff_ffff_ffff_ffffu128) by (nonlinear_arith)
        requires
            n <= 0xffff_ffff_ffff_ffffu64,
            unit <= 0xffff_ffff_ffff_ffffu64,
    {
    }
    let prod: u128 = (n as u128) * (unit as u128);
    assert(prod == n * unit) by (nonlinear_arith)
        requires
            prod == (n as u128) * (unit as u128),
    {
    }
    assert(n * unit <= u64::MAX * u64::MAX) by (nonlinear_arith)
        requires
            n <= u64::MAX,
            unit <= u64::MAX,
    {
    }
    if prod > u64::MAX as u128 {
        return None;
    }
    let sum: u128 = t as u128 + prod;
    if sum > u64::MAX as u128 {
        None
    } else {
        Some(sum as u64)
    }
}

impl Disk {
    /// Immediate actions already run in the current loop iteration.
    pub open spec fn actions_run(self) -> int {
        MAX_IO_STARVATION - self.budget()
    }

    /// The poller timeout until `until`, capped by `cap`, from a fresh clock
    /// reading.
    pub fn milliseconds_remaining(&mut self, until: Instant, cap: Option<u64>) -> (r: i32)
        requires
            old(self).wf(),
        ensures
            final(self).wf(),
            r == spec_ms_until(final(self).recent_instant(), until, cap),
            final(self).pending() == old(self).pending(),
            final(self).scheduled() == old(self).scheduled(),
            final(self).event_table() == old(self).event_table(),
            final(self).registration_table() == old(self).registration_table(),
            final(self).next_id() == old(self).next_id(),
            final(self).quit_requested() == old(self).quit_requested(),
            final(self).budget() == old(self).budget(),
    {
        let now = self.now();
        ms_until(now, until, cap)
    }

    /// The loop's decisions between two waits: runs immediate actions up to
    /// the starvation bound, stopping early when only a future timer is left;
    /// then quits if asked to, or waits for I/O until the next expiry.
    pub fn take_immediate_action(&mut self) -> (r: LoopStep)
        requires
            old(self).wf(),
        ensures
            final(self).wf(),
            final(self).registration_table() == old(self).registration_table(),
            final(self).quit_requested() == old(self).quit_requested(),
            0 <= final(self).actions_run() <= MAX_IO_STARVATION,
            match r {
                LoopStep::Perform(f) => {
                    &&& old(self).budget() > 0
                    &&& final(self).actions_run() == old(self).actions_run() + 1
                    &&& Disk::fired_from(*old(self), *final(self), f)
                },
                LoopStep::Wait(ms) => {
                    &&& !old(self).quit_requested()
                    &&& final(self).actions_run() == 0
                    &&& final(self).pending().len() > 0 ==> ms == 0
                },
                LoopStep::Quit => old(self).quit_requested() && final(self).actions_run() == 0,
            },
            old(self).budget() == 0 ==> r == LoopStep::Wait(0) || r == LoopStep::Quit,
            old(self).budget() > 0 ==> match r {
                LoopStep::Perform(f) => Disk::poll_post(*old(self), *final(self), Popped::TimerExpired(f)),
                _ => {
                    &&& final(self).pending().len() == 0
                    &&& Disk::tombstones_dropped(
                        old(self).pending(),
                        final(self).pending(),
                        old(self).pending().len() as int,
                    )
                    &&& final(self).scheduled() == old(self).scheduled()
                    &&& final(self).event_table() == old(self).event_table()
                },
            },
            old(self).budget() > 0 ==> (r matches LoopStep::Wait(ms) ==> {
                &&& final(self).scheduled().len() == 0 ==> ms == -1
                &&& final(self).scheduled().len() > 0 ==> exists|i: int|
                    final(self).is_first_scheduled(i) && ms == spec_ms_until(
                        final(self).recent_instant(),
                        #[trigger] final(self).scheduled()[i].expires,
                        None,
                    )
            }),
    {
        if self.countdown == 0 {
            // the batch is spent: poll for I/O without blocking
            self.countdown = MAX_IO_STARVATION;
            if self.quit {
                return LoopStep::Quit;
            }
            return LoopStep::Wait(0);
        }
        let next: Option<Instant>;
        let popped = self.poll();
        let ghost d_poll = *self;
        match popped {
            Popped::TimerExpired(f) => {
                self.countdown = self.countdown - 1;
                assert(self.pending() == d_poll.pending() && self.scheduled() == d_poll.scheduled()
                    && self.event_table() == d_poll.event_table() && self.recent_instant()
                    == d_poll.recent_instant());
                assert(Disk::poll_post(*old(self), *self, popped));
                return LoopStep::Perform(f);
            },
            Popped::NextTimerExpiry(x) => {
                next = Some(x);
            },
            Popped::InfiniteWait => {
                next = None;
            },
        }
        self.countdown = MAX_IO_STARVATION;
        assert(Disk::tombstones_dropped(old(self).pending(), d_poll.pending(), old(self).pending().len() as int));
        assert(self.pending() == d_poll.pending() && self.scheduled() == d_poll.scheduled()
            && self.event_table() == d_poll.event_table());
        if self.quit {
            return LoopStep::Quit;
        }
        match next {
            Some(x) => {
                let now = self.now();
                let ms = ms_until(now, x, None);
                proof {
                    let i = choose|i: int| d_poll.is_first_scheduled(i) && d_poll.scheduled()[i].expires == x;
                    assert(self.scheduled() == d_poll.scheduled());
                    assert(self.is_first_scheduled(i));
                    assert(ms == spec_ms_until(self.recent_instant(), self.scheduled()[i].expires, None));
                }
                LoopStep::Wait(ms)
            },
            None => LoopStep::Wait(-1),
        }
    }

    /// The instant `n` seconds from now, unless it overflows.
    pub fn in_secs(&mut self, n: u64) -> (r: Option<Instant>)
        requires
            old(self).wf(),
        ensures
            final(self).wf(),
            r == spec_advance(final(self).recent_instant(), n, NANOS_PER_SEC),
            final(self).pending() == old(self).pending(),
            final(self).scheduled() == old(self).scheduled(),
            final(self).event_table() == old(self).event_table(),
            final(self).registration_table() == old(self).registration_table(),
            final(self).next_id() == old(self).next_id(),
    {
        let now = self.now();
        advance(now, n, NANOS_PER_SEC)
    }

    /// The instant `n` milliseconds from now, unless it overflows.
    pub fn in_millis(&mut self, n: u64) -> (r: Option<Instant>)
        requires
            old(self).wf(),
        ensures
            final(self).wf(),
            r == spec_advance(final(self).recent_instant(), n, NANOS_PER_MILLI),
            final(self).pending() == old(self).pending(),
            final(self).scheduled() == old(self).scheduled(),
            final(self).event_table() == old(self).event_table(),
            final(self).registration_table() == old(self).registration_table(),
            final(self).next_id() == old(self).next_id(),
    {
        let now = self.now();
        advance(now, n, NANOS_PER_MILLI)
    }

    /// The instant `n` microseconds from now, unless it overflows.
    pub fn in_micross(&mut self, n: u64) -> (r: Option<Instant>)
        requires
            old(self).wf(),
        ensures
            final(self).wf(),
            r == spec_advance(final(self).recent_instant(), n, 1000),
            final(self).pending() == old(self).pending(),
            final(self).scheduled() == old(self).scheduled(),
            final(self).event_table() == old(self).event_table(),
            final(self).registration_table() == old(self).registration_table(),
            final(self).next_id() == old(self).next_id(),
    {
        let now = self.now();
        advance(now, n, 1000)
    }

    /// The instant `n` nanoseconds from now, unless it overflows.
    pub fn in_nanos(&mut self, n: u64) -> (r: Option<Instant>)
        requires
            old(self).wf(),
        ensures
            final(self).wf(),
            r == spec_advance(final(self).recent_instant(), n, 1),
            final(self).pending() == old(self).pending(),
            final(self).scheduled() == old(self).scheduled(),
            final(self).event_table() == old(self).event_table(),
            final(self).registration_table() == old(self).registration_table(),
            final(self).next_id() == old(self).next_id(),
    {
        let now = self.now();
        advance(now, n, 1)
    }
}

impl Disk {
    /// The event that readiness of `fd` triggers, if `fd` is registered.
    pub open spec fn spec_lookup(self, fd: i32) -> Option<usize> {
        if self.registered(fd) {
            Some(self.registration_table()[fd])
        } else {
            None
        }
    }

    /// The event registered for `fd`.
    pub fn lookup(&self, fd: i32) -> (r: Option<Event>)
        requires
            self.wf(),
        ensures
            match r {
                Some(ev) => self.spec_lookup(fd) == Some(ev.index) && ev.index < self.event_table().len(),
                None => self.spec_lookup(fd) is None,
            },
    {
        match self.registrations.get(&fd) {
            Some(e) => Some(Event { index: *e }),
            None => None,
        }
    }

    /// Registers `fd`: creates an idle event latch whose delivery runs
    /// `action`, and maps `fd` to it, replacing an earlier mapping.
    pub fn register(&mut self, fd: i32, action: Action) -> (r: Registration)
        requires
            old(self).wf(),
        ensures
            final(self).wf(),
            r.fd == fd,
            r.event.index == old(self).event_table().len(),
            final(self).spec_lookup(fd) == Some(r.event.index),
            final(self).event_table().len() == old(self).event_table().len() + 1,
            final(self).event_table().drop_last() == old(self).event_table(),
            final(self).event_table().last().state == EventState::Idle,
            final(self).event_table().last().action == action,
            forall|g: i32| g != fd ==> #[trigger] final(self).spec_lookup(g) == old(self).spec_lookup(g),
            final(self).pending() == old(self).pending(),
            final(self).scheduled() == old(self).scheduled(),
            final(self).wake_pending(),
    {
        let event = self.make_event(action);
        self.wake_requested = true;
        self.registrations.insert(fd, event.index);
        assert forall|g: i32| #[trigger] self.registrations@.contains_key(g) implies self.registrations@[g]
            < self.events@.len() by {
            if g != fd {
                assert(old(self).registrations@.contains_key(g));
            }
        }
        Registration { fd, event }
    }

    /// Removes the registration of `fd`; reports whether there was one.
    pub fn unregister(&mut self, fd: i32) -> (removed: bool)
        requires
            old(self).wf(),
        ensures
            final(self).wf(),
            removed == old(self).registered(fd),
            !final(self).registered(fd),
            forall|g: i32| g != fd ==> #[trigger] final(self).spec_lookup(g) == old(self).spec_lookup(g),
            final(self).pending() == old(self).pending(),
            final(self).scheduled() == old(self).scheduled(),
            final(self).event_table() == old(self).event_table(),
    {
        let r = self.registrations.remove(&fd);
        r.is_some()
    }

    /// What readiness of `fd` does to the reactor: the registered event is
    /// triggered; an unregistered descriptor changes nothing.
    pub open spec fn dispatch_step(d0: Disk, d1: Disk, fd: i32) -> bool {
        match d0.spec_lookup(fd) {
            Some(e) => {
                &&& e < d0.event_table().len()
                &&& Event::trigger_post(d0, d1, e)
                &&& d1.scheduled() == d0.scheduled()
                &&& d1.registration_table() == d0.registration_table()
            },
            None => d1 == d0,
        }
    }

    /// Triggers the events of the ready descriptors, at most
    /// `MAX_IO_BURST` of them; descriptors that are not registered are
    /// ignored. Returns how many entries of `ready` were looked at.
    pub fn dispatch_ready(&mut self, ready: &Vec<i32>) -> (n: usize)
        requires
            old(self).wf(),
        ensures
            final(self).wf(),
            n <= MAX_IO_BURST,
            n == if ready@.len() < MAX_IO_BURST { ready@.len() as usize } else { MAX_IO_BURST },
            final(self).scheduled() == old(self).scheduled(),
            final(self).registration_table() == old(self).registration_table(),
            exists|ds: Seq<Disk>|
                {
                    &&& ds.len() == n + 1
                    &&& ds[0] == *old(self)
                    &&& ds[n as int] == *final(self)
                    &&& forall|k: int| 0 <= k < n ==> #[trigger] Disk::dispatch_step(ds[k], ds[k + 1], ready@[k])
                },
    {
        let mut i: usize = 0;
        let ghost mut ds: Seq<Disk> = seq![*self];
        while i < ready.len() && i < MAX_IO_BURST
            invariant
                self.wf(),
                i <= ready@.len(),
                i <= MAX_IO_BURST,
                self.scheduled() == old(self).scheduled(),
                self.registration_table() == old(self).registration_table(),
                ds.len() == i + 1,
                ds[0] == *old(self),
                ds[i as int] == *self,
                forall|k: int| 0 <= k < i ==> #[trigger] Disk::dispatch_step(ds[k], ds[k + 1], ready@[k]),
            decreases ready@.len() - i,
        {
            let ghost before = *self;
            match self.lookup(ready[i]) {
                Some(ev) => ev.trigger(self),
                None => {},
            }
            proof {
                let ds0 = ds;
                ds = ds.push(*self);
                assert forall|k: int| 0 <= k < i + 1 implies #[trigger] Disk::dispatch_step(
                    ds[k],
                    ds[k + 1],
                    ready@[k],
                ) by {
                    if k < i {
                        assert(ds[k] == ds0[k]);
                        assert(ds[k + 1] == ds0[k + 1]);
                    } else {
                        assert(ds[k] == before);
                        assert(ds[k + 1] == *self);
                    }
                }
            }
            i = i + 1;
        }
        i
    }

    /// A timer is never both pending in the immediate FIFO and scheduled.
    pub proof fn lemma_timer_in_one_place(&self, timer: Timer)
        requires
            self.wf(),
        ensures
            !(self.pending_has(timer.uid) && self.scheduled_has(timer.uid)),
    {
        if self.pending_has(timer.uid) && self.scheduled_has(timer.uid) {
            let i = choose|i: int| 0 <= i < self.pending().len() && self.pending()[i].uid == timer.uid;
            let j = choose|j: int| 0 <= j < self.scheduled().len() && self.scheduled()[j].uid == timer.uid;
            assert(self.pending()[i].uid != self.scheduled()[j].uid);
        }
    }
}

impl Disk {
    /// One step of a flush with deadline `expires`: the "time exceeded" kind
    /// once the clock reached the deadline, otherwise one step of `poll`.
    /// The caller performs what fired, sleeps until a reported expiry, and
    /// stops at `InfiniteWait`.
    pub fn flush_step(&mut self, expires: Instant) -> (r: Result<Popped, Error>)
        requires
            old(self).wf(),
        ensures
            final(self).wf(),
            final(self).registration_table() == old(self).registration_table(),
            match r {
                Err(e) => {
                    &&& e.code == ETIME
                    &&& final(self).recent_instant() >= expires
                    &&& final(self).pending() == old(self).pending()
                    &&& final(self).scheduled() == old(self).scheduled()
                },
                Ok(p) => exists|mid: Disk|
                    {
                        &&& mid.recent_instant() < expires
                        &&& mid.pending() == old(self).pending()
                        &&& mid.scheduled() == old(self).scheduled()
                        &&& mid.event_table() == old(self).event_table()
                        &&& #[trigger] Disk::poll_post(mid, *final(self), p)
                    },
            },
    {
        let now = self.now();
        if now >= expires {
            return Err(time_exceeded());
        }
        let ghost mid = *self;
        let p = self.poll();
        assert(Disk::poll_post(mid, *self, p));
        Ok(p)
    }
}

impl Disk {
    /// With no scheduled timer, a live action at the front of the FIFO is
    /// what the next poll runs.
    pub proof fn lemma_poll_front(d0: Disk, d1: Disk, r: Popped)
        requires
            Disk::poll_post(d0, d1, r),
            d0.scheduled().len() == 0,
            d0.pending().len() > 0,
            !d0.pending()[0].canceled,
            d0.pending()[0].task is Run,
        ensures
            r == Popped::TimerExpired(
                Fired {
                    uid: d0.pending()[0].uid,
                    expires: d0.pending()[0].expires,
                    action: Some(d0.pending()[0].task->Run_0),
                },
            ),
            d1.pending() == d0.pending().drop_first(),
    {
        match r {
            Popped::TimerExpired(f) => {
                if exists|i: int, n: int|
                    {
                        &&& d0.is_first_scheduled(i)
                        &&& #[trigger] d0.scheduled()[i].uid == f.uid
                        &&& d0.scheduled()[i].expires == f.expires
                        &&& f.action == Some(d0.scheduled()[i].task->Run_0)
                        &&& d1.scheduled() == d0.scheduled().remove(i)
                        &&& #[trigger] Disk::tombstones_dropped(d0.pending(), d1.pending(), n)
                        &&& (d1.pending().len() > 0 ==> entry_lt(d0.scheduled()[i], d1.pending()[0]))
                        &&& (d1.pending().len() == 0 ==> d0.scheduled()[i].expires <= d1.recent_instant())
                        &&& d1.event_table() == d0.event_table()
                    } {
                    let (i, n) = choose|i: int, n: int|
                        {
                            &&& d0.is_first_scheduled(i)
                            &&& #[trigger] d0.scheduled()[i].uid == f.uid
                            &&& d0.scheduled()[i].expires == f.expires
                            &&& f.action == Some(d0.scheduled()[i].task->Run_0)
                            &&& d1.scheduled() == d0.scheduled().remove(i)
                            &&& #[trigger] Disk::tombstones_dropped(d0.pending(), d1.pending(), n)
                            &&& (d1.pending().len() > 0 ==> entry_lt(d0.scheduled()[i], d1.pending()[0]))
                            &&& (d1.pending().len() == 0 ==> d0.scheduled()[i].expires <= d1.recent_instant())
                            &&& d1.event_table() == d0.event_table()
                        };
                    assert(false);
                }
                let n = choose|n: int|
                    {
                        &&& #[trigger] Disk::tombstones_dropped(d0.pending(), d0.pending().skip(n), n)
                        &&& n < d0.pending().len()
                        &&& !d0.pending()[n].canceled
                        &&& d0.pending()[n].uid == f.uid
                        &&& d0.pending()[n].expires == f.expires
                        &&& d1.pending() == d0.pending().skip(n + 1)
                        &&& d1.scheduled() == d0.scheduled()
                        &&& match d0.pending()[n].task {
                            Task::Run(a) => f.action == Some(a) && d1.event_table() == d0.event_table(),
                            Task::Perf(e) => {
                                &&& d1.event_table() == d0.with_event_state(e, EventState::Idle)
                                &&& f.action == if d0.event_table()[e as int].state == EventState::Triggered {
                                    Some(d0.event_table()[e as int].action)
                                } else {
                                    None
                                }
                            },
                        }
                    };
                if n > 0 {
                    assert(d0.pending()[0].canceled);
                }
                assert(n == 0);
                assert(d0.pending().skip(1) =~= d0.pending().drop_first());
            },
            Popped::NextTimerExpiry(x) => {
                assert(d0.pending()[0].canceled);
            },
            Popped::InfiniteWait => {
                assert(d0.pending()[0].canceled);
            },
        }
    }
}

} // verus!
