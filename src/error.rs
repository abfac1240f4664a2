use vstd::prelude::*;

verus! {

/// Operating-system error numbers that the runtime produces itself.
pub const EBADF: i32 = 9;
pub const EAGAIN: i32 = 11;
pub const EINVAL: i32 = 22;
pub const ENOSPC: i32 = 28;
pub const ETIME: i32 = 62;
pub const EPROTO: i32 = 71;
pub const EINPROGRESS: i32 = 115;

/// An error kind, carried as its operating-system error number.
#[derive(Clone, Copy, Debug, PartialEq, Eq, Structural)]
pub struct Error {
    pub code: i32,
}

impl Error {
    pub fn from_raw_os_error(code: i32) -> (e: Error)
        ensures
            e.code == code,
    {
        Error { code }
    }

    pub fn raw_os_error(&self) -> (code: i32)
        ensures
            code == self.code,
    {
        self.code
    }
}

/// Operation on a dead or invalid handle.
pub fn badf() -> (e: Error)
    ensures
        e.code == EBADF,
{
    Error { code: EBADF }
}

/// Non-fatal "try later".
pub fn again() -> (e: Error)
    ensures
        e.code == EAGAIN,
{
    Error { code: EAGAIN }
}

/// A precondition of a constructor was violated.
pub fn inval() -> (e: Error)
    ensures
        e.code == EINVAL,
{
    Error { code: EINVAL }
}

/// A framing protocol was broken.
pub fn proto() -> (e: Error)
    ensures
        e.code == EPROTO,
{
    Error { code: EPROTO }
}

/// A bounded store overflowed.
pub fn nospc() -> (e: Error)
    ensures
        e.code == ENOSPC,
{
    Error { code: ENOSPC }
}

/// A deadline passed.
pub fn time_exceeded() -> (e: Error)
    ensures
        e.code == ETIME,
{
    Error { code: ETIME }
}

pub open spec fn spec_is_again(err: Error) -> bool {
    err.code == EAGAIN
}

/// Whether the error is the "try again later" kind.
pub fn is_again(err: &Error) -> (r: bool)
    ensures
        r == spec_is_again(*err),
{
    err.code == EAGAIN
}

/// Whether the error reports a connection still being established.
pub fn is_inprogress(err: &Error) -> (r: bool)
    ensures
        r == (err.code == EINPROGRESS),
{
    err.code == EINPROGRESS
}

} // verus!
