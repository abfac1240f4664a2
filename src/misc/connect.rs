//! The decisions of an asynchronous connect, shared by TCP and Unix sockets.

use vstd::prelude::*;
use crate::error::{again, badf, Error, EAGAIN, EBADF, EINPROGRESS};
use crate::reactor::{Action, Disk, Task, TimerEntry};
use crate::stream::only_appended;

verus! {

/// Where a connect stands.
#[derive(Clone, Copy, Debug, PartialEq, Eq, Structural)]
pub enum State {
    /// The connect is in progress; the socket is registered.
    InProgress,
    /// The socket became ready; its status is still to be read.
    Triggered,
    /// The connect succeeded at once.
    Established,
    /// The outcome was taken.
    Done,
}

/// What `take` asks of the caller.
#[derive(Clone, Copy, Debug, PartialEq, Eq, Structural)]
pub enum Outcome {
    /// Read the socket's pending error and hand it to `socket_status`.
    CheckSocket,
    /// The socket is connected: build the stream pair on it.
    Connected,
}

/// The state of one connect and the action to run when it progresses.
pub struct ProgressBody {
    state: State,
    callback: Action,
}

impl ProgressBody {
    pub closed spec fn state(&self) -> State {
        self.state
    }

    pub closed spec fn action(&self) -> Action {
        self.callback
    }

    /// A connect that succeeded at once: `action` is scheduled right away.
    pub fn new_established(disk: &mut Disk, action: Action) -> (p: ProgressBody)
        requires
            old(disk).wf(),
        ensures
            final(disk).wf(),
            only_appended(*old(disk), *final(disk)),
            p.state() == State::Established,
            old(disk).next_id() < u64::MAX ==> final(disk).pending() == old(disk).pending().push(
                TimerEntry {
                    uid: old(disk).next_id(),
                    expires: old(disk).recent_instant(),
                    task: Task::Run(action),
                    canceled: false,
                },
            ),
    {
        disk.execute(action);
        assert(disk.pending().take(old(disk).pending().len() as int) =~= old(disk).pending());
        ProgressBody { state: State::Established, callback: action }
    }

    /// A connect in progress; `action` runs once the socket is ready.
    pub fn new_in_progress(action: Action) -> (p: ProgressBody)
        ensures
            p.state() == State::InProgress,
            p.action() == action,
    {
        ProgressBody { state: State::InProgress, callback: action }
    }

    /// The socket became ready: schedules the action once. Returns whether
    /// this was the first readiness, after which the registration can go.
    pub fn trigger(&mut self, disk: &mut Disk) -> (first: bool)
        requires
            old(disk).wf(),
        ensures
            final(disk).wf(),
            only_appended(*old(disk), *final(disk)),
            first == (old(self).state() == State::InProgress),
            first ==> final(self).state() == State::Triggered,
            !first ==> *final(self) == *old(self) && *final(disk) == *old(disk),
            first && old(disk).next_id() < u64::MAX ==> final(disk).pending() == old(disk).pending().push(
                TimerEntry {
                    uid: old(disk).next_id(),
                    expires: old(disk).recent_instant(),
                    task: Task::Run(old(self).action()),
                    canceled: false,
                },
            ),
    {
        if self.state == State::InProgress {
            self.state = State::Triggered;
            disk.execute(self.callback);
            assert(disk.pending().take(old(disk).pending().len() as int) =~= old(disk).pending());
            true
        } else {
            assert(disk.pending().take(disk.pending().len() as int) =~= disk.pending());
            false
        }
    }

    /// Takes the outcome: "again" while in progress, "bad descriptor" once
    /// taken; otherwise what is left to do, and the outcome is then taken.
    pub fn take(&mut self) -> (r: Result<Outcome, Error>)
        ensures
            match old(self).state() {
                State::InProgress => r == Err::<Outcome, Error>(Error { code: EAGAIN }) && *final(self)
                    == *old(self),
                State::Triggered => r == Ok::<Outcome, Error>(Outcome::CheckSocket) && final(self).state()
                    == State::Done,
                State::Established => r == Ok::<Outcome, Error>(Outcome::Connected) && final(self).state()
                    == State::Done,
                State::Done => r == Err::<Outcome, Error>(Error { code: EBADF }) && *final(self) == *old(self),
            },
    {
        match self.state {
            State::InProgress => Err(again()),
            State::Triggered => {
                self.state = State::Done;
                Ok(Outcome::CheckSocket)
            },
            State::Established => {
                self.state = State::Done;
                Ok(Outcome::Connected)
            },
            State::Done => Err(badf()),
        }
    }
}

/// The outcome of a connect from the socket's pending error number: zero is
/// success, anything else the error of that number.
pub fn socket_status(errno: i32) -> (r: Result<(), Error>)
    requires
        errno != EINPROGRESS,
        errno != EAGAIN,
    ensures
        errno == 0 ==> r is Ok,
        errno != 0 ==> r == Err::<(), Error>(Error { code: errno }),
{
    if errno == 0 {
        Ok(())
    } else {
        Err(Error::from_raw_os_error(errno))
    }
}

} // verus!
