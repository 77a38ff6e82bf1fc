//! Core of the Tribbler microblogging service.
//!
//! Users sign up, post short messages ("tribs"), follow and unfollow one
//! another, and read a home feed that merges their own posts with those of
//! the users they follow.  All service state lives in a set of sharded
//! key-value back ends; a user name is hashed to pick the back end that
//! holds that user's data, and every key of a user is namespaced inside a
//! per-user "bin" on that back end.  A keeper round keeps the logical
//! clocks of the back ends aligned.

pub mod bin_client;
pub mod bin_user_client;
pub mod codec;
pub mod colon;
pub mod digits;
pub mod err;
pub mod front;
pub mod keeper;
pub mod ref_front;
pub mod storage;
pub mod strutil;
pub mod trib;
