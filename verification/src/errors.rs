//! How a pick can end without a result.
use vstd::prelude::*;

verus! {

/// Why a pick returned no items.
#[derive(Debug, Clone, PartialEq, Eq)]
pub enum MatchError {
    /// Aborted with an exit code.
    Abort(i32),
    /// Replace the process with this command.
    Become(String),
    /// The event loop stopped.
    EventLoopClosed,
    /// Finished without a match.
    NoMatch,
    /// The terminal failed.
    TUIError(String),
}

/// The outcome of a pick that returns several items.
pub trait MatchResultExt<S> {
    /// The first item of a successful pick.
    fn first(self) -> Result<S, MatchError>;
}

impl<S> MatchResultExt<S> for Result<Vec<S>, MatchError> {
    /// The first element of a successful pick; `NoMatch` when it is empty, and
    /// any error is passed on.
    fn first(self) -> (out: Result<S, MatchError>)
        ensures
            match self {
                Ok(v) => if v@.len() > 0 {
                    out == Ok::<S, MatchError>(v@[0])
                } else {
                    out == Err::<S, MatchError>(MatchError::NoMatch)
                },
                Err(e) => out == Err::<S, MatchError>(e),
            },
    {
        match self {
            Ok(mut v) => {
                if v.len() > 0 {
                    Ok(v.remove(0))
                } else {
                    Err(MatchError::NoMatch)
                }
            },
            Err(e) => Err(e),
        }
    }
}

} // verus!
