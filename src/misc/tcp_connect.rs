//! Progress of an asynchronous Tcp connect.

use vstd::prelude::*;
use crate::error::{Error, EAGAIN, EBADF};
use crate::misc::connect::{Outcome, ProgressBody, State};
use crate::reactor::{Action, Disk};
use crate::stream::only_appended;

verus! {

/// The state machine of one Tcp connect; the embedding program owns the
/// socket and its registration.
pub struct TcpProgress {
    body: ProgressBody,
}

impl TcpProgress {
    pub closed spec fn state(&self) -> State {
        self.body.state()
    }

    /// The connect succeeded at once; `action` is scheduled.
    pub fn new_established(disk: &mut Disk, action: Action) -> (p: TcpProgress)
        requires
            old(disk).wf(),
        ensures
            final(disk).wf(),
            only_appended(*old(disk), *final(disk)),
            p.state() == State::Established,
    {
        TcpProgress { body: ProgressBody::new_established(disk, action) }
    }

    /// The connect is in progress; `action` runs once the socket is ready.
    pub fn new_in_progress(action: Action) -> (p: TcpProgress)
        ensures
            p.state() == State::InProgress,
    {
        TcpProgress { body: ProgressBody::new_in_progress(action) }
    }

    /// The socket became ready; true the first time.
    pub fn trigger(&mut self, disk: &mut Disk) -> (first: bool)
        requires
            old(disk).wf(),
        ensures
            final(disk).wf(),
            only_appended(*old(disk), *final(disk)),
            first == (old(self).state() == State::InProgress),
            first ==> final(self).state() == State::Triggered,
            !first ==> final(self).state() == old(self).state(),
    {
        self.body.trigger(disk)
    }

    /// Takes the outcome of the connect.
    pub fn take(&mut self) -> (r: Result<Outcome, Error>)
        ensures
            match old(self).state() {
                State::InProgress => r == Err::<Outcome, Error>(Error { code: EAGAIN }) && final(self).state()
                    == State::InProgress,
                State::Triggered => r == Ok::<Outcome, Error>(Outcome::CheckSocket) && final(self).state()
                    == State::Done,
                State::Established => r == Ok::<Outcome, Error>(Outcome::Connected) && final(self).state()
                    == State::Done,
                State::Done => r == Err::<Outcome, Error>(Error { code: EBADF }) && final(self).state()
                    == State::Done,
            },
    {
        self.body.take()
    }
}

} // verus!
