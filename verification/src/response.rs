//! Payloads paired with an optional diagnostic message.

use vstd::prelude::*;

verus! {

/// Severity of a diagnostic message attached to a [`Response`].
#[derive(Debug, Copy, Clone, PartialEq, Eq, Structural)]
pub enum Level {
    Info,
    Warning,
    Error,
}

/// Numeric rank of a severity level: higher means more severe.
pub open spec fn severity(level: Level) -> int {
    match level {
        Level::Info => 0,
        Level::Warning => 1,
        Level::Error => 2,
    }
}

impl Level {
    /// Raise the level to `new` if `new` is more severe; never lower it.
    pub fn escalate(&mut self, new: Level)
        ensures
            *final(self) == (if severity(new) > severity(*old(self)) {
                new
            } else {
                *old(self)
            }),
    {
        match (*self, new) {
            (Level::Error, _) => {}
            (Level::Warning, Level::Error) => {
                *self = Level::Error;
            }
            (Level::Info, Level::Error) => {
                *self = Level::Error;
            }
            (Level::Info, Level::Warning) => {
                *self = Level::Warning;
            }
            _ => {}
        }
    }
}

/// A payload together with an optional message of some severity.
#[derive(Debug)]
pub struct Response<T> {
    pub payload: T,
    pub message: Option<(Level, String)>,
}

impl<T> Response<T> {
    /// A response that carries only its payload.
    pub fn plain(data: T) -> (r: Response<T>)
        ensures
            r.payload == data,
            r.message is None,
    {
        Response { payload: data, message: None }
    }

    /// A response with an informational message.
    pub fn with_info(data: T, msg: &str) -> (r: Response<T>)
        ensures
            r.payload == data,
            r.message matches Some((level, text)) && level == Level::Info && text@ == msg@,
    {
        Response { payload: data, message: Some((Level::Info, msg.to_owned())) }
    }

    /// A response with a warning message.
    pub fn with_warning(data: T, msg: &str) -> (r: Response<T>)
        ensures
            r.payload == data,
            r.message matches Some((level, text)) && level == Level::Warning && text@ == msg@,
    {
        Response { payload: data, message: Some((Level::Warning, msg.to_owned())) }
    }

    /// A response with an error message.
    pub fn with_error(data: T, msg: &str) -> (r: Response<T>)
        ensures
            r.payload == data,
            r.message matches Some((level, text)) && level == Level::Error && text@ == msg@,
    {
        Response { payload: data, message: Some((Level::Error, msg.to_owned())) }
    }
}

} // verus!
