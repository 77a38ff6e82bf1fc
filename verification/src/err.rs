//! The error taxonomy of the front-end server operations.

use vstd::prelude::*;

verus! {

/// Everything that a front-end operation can report instead of succeeding.
///
/// Validation errors carry the offending name(s) so that callers can show
/// them; `MaxedSeq` reports a logical clock that has reached its largest
/// value and can no longer hand out fresh timestamps.
#[derive(Debug, Clone, PartialEq, Eq)]
pub enum TribError {
    InvalidUsername(String),
    UsernameTaken(String),
    UserDoesNotExist(String),
    TribTooLong,
    WhoWhom(String),
    AlreadyFollowing(String, String),
    NotFollowing(String, String),
    FollowingTooMany,
    MaxedSeq,
}

} // verus!
