//! A live index of which wireless devices are associated with which access
//! point, built from an access-point daemon's syslog stream.
//!
//! One raw log line at a time is decoded from its JSON envelope and run
//! through a small ordered-alternative grammar ([`parser::parse`]); the
//! resulting events are applied to a [`db::Database`] whose queries serve a
//! read API.

use vstd::prelude::*;

pub mod db;
pub mod order;
pub mod parser;

verus! {

/// A point in time: seconds and subsecond nanoseconds since the Unix epoch.
///
/// Log timestamps arrive as RFC 3339 text; they are carried through the
/// store opaquely and never compared, only overwritten (last arrival wins).
#[derive(Clone, Copy, PartialEq, Eq, Structural, Debug, Hash)]
pub struct Timestamp {
    pub secs: i64,
    pub nanos: u32,
}

/// Why a log line produced no event.
///
/// Neither error is fatal: the caller is expected to log the line and go on
/// with the next one.
#[derive(Debug, PartialEq, Eq)]
pub enum Error {
    /// The line is not a JSON object with string fields `host`, `program`,
    /// `message` and an RFC 3339 `timestamp`.
    Json(String),
    /// The message of an applicable line matches no recognized pattern.
    Parse(String),
}

} // verus!
