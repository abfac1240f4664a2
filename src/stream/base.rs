//! The part that every stream body shares: its identity and its callback.

use vstd::prelude::*;
use crate::reactor::{Action, Disk, Task, TimerEntry, UID};
use crate::stream::{has_run, only_appended};

verus! {

/// Identity and callback of a stream body.
pub struct StreamBody {
    uid: UID,
    callback: Option<Action>,
}

impl StreamBody {
    pub closed spec fn callback(&self) -> Option<Action> {
        self.callback
    }

    /// A body with a fresh identity and no callback.
    pub fn new(disk: &mut Disk) -> (b: StreamBody)
        requires
            old(disk).wf(),
        ensures
            final(disk).wf(),
            only_appended(*old(disk), *final(disk)),
            b.callback() is None,
    {
        let uid = match disk.fresh_uid() {
            Some(u) => u,
            None => u64::MAX,
        };
        assert(disk.pending().take(old(disk).pending().len() as int) =~= old(disk).pending());
        StreamBody { uid, callback: None }
    }

    pub fn get_uid(&self) -> (r: UID) {
        self.uid
    }

    pub fn get_callback(&self) -> (r: Option<Action>)
        ensures
            r == self.callback(),
    {
        self.callback
    }

    /// Schedules the callback, if one is installed.
    pub fn invoke_callback(&self, disk: &mut Disk)
        requires
            old(disk).wf(),
        ensures
            final(disk).wf(),
            final(disk).next_id() <= old(disk).next_id() + 1,
            only_appended(*old(disk), *final(disk)),
            match self.callback() {
                Some(cb) => old(disk).next_id() < u64::MAX ==> final(disk).pending() == old(disk).pending().push(
                    TimerEntry {
                        uid: old(disk).next_id(),
                        expires: old(disk).recent_instant(),
                        task: Task::Run(cb),
                        canceled: false,
                    },
                ),
                None => *final(disk) == *old(disk),
            },
    {
        match self.callback {
            Some(cb) => {
                disk.execute(cb);
                assert(disk.pending().take(old(disk).pending().len() as int) =~= old(disk).pending());
            },
            None => {
                assert(disk.pending().take(old(disk).pending().len() as int) =~= old(disk).pending());
            },
        }
    }

    /// Installs `callback` and schedules it once.
    pub fn register_callback(&mut self, disk: &mut Disk, callback: Action)
        requires
            old(disk).wf(),
        ensures
            final(disk).wf(),
            final(self).callback() == Some(callback),
            only_appended(*old(disk), *final(disk)),
            old(disk).next_id() < u64::MAX ==> has_run(final(disk).pending(), callback),
            old(disk).next_id() < u64::MAX ==> final(disk).pending() == old(disk).pending().push(
                TimerEntry {
                    uid: old(disk).next_id(),
                    expires: old(disk).recent_instant(),
                    task: Task::Run(callback),
                    canceled: false,
                },
            ),
    {
        disk.execute(callback);
        assert(disk.pending().take(old(disk).pending().len() as int) =~= old(disk).pending());
        proof {
            if old(disk).next_id() < u64::MAX {
                let i = old(disk).pending().len() as int;
                assert(disk.pending()[i].task == Task::Run(callback));
            }
        }
        self.callback = Some(callback);
    }

    pub fn unregister_callback(&mut self)
        ensures
            final(self).callback() is None,
    {
        self.callback = None;
    }
}

} // verus!
