//! Verified core of a bidirectional CalDAV / iCalendar bridge.
//!
//! The library holds the parts worth proving: the ICS lexer and normaliser
//! with its semantic event equality, DTSTART / DTEND parsing, the CalDAV
//! multistatus parsing and URL handling, the forward and reverse
//! synchronisation logic, the entity store with its path-namespace
//! invariants, and the auto-sync registry model. Network, database and
//! HTTP plumbing stay outside and hand the library plain values.
pub mod api;
pub mod auto_sync;
pub mod caldav;
pub mod datetime;
pub mod ics;
pub mod laws;
pub mod reverse;
pub mod store;
pub mod sync;
pub mod text;
