//! The response shapes of the HTTP surface and the pure parts of its
//! handlers: status texts, result messages, the overlap projection, and the
//! anonymous-route path guard.
use vstd::prelude::*;
use crate::store::{Destination, Source, SourcePath};
use crate::text::{dec_str, spec_contains, spec_dec};

verus! {

pub struct HealthResponse {
    pub status: String,
}

pub struct DetailedHealthResponse {
    pub status: String,
    pub uptime_seconds: u64,
    pub source_count: usize,
    pub db_ok: bool,
}

pub struct SourceResponse {
    pub status: String,
    pub message: String,
    pub source: Option<Source>,
}

pub struct SourceListResponse {
    pub sources: Vec<Source>,
}

pub struct SyncResult {
    pub status: String,
    pub message: String,
    pub events: usize,
    pub calendars: usize,
}

pub struct SourcePathResponse {
    pub status: String,
    pub message: String,
    pub path: Option<SourcePath>,
}

pub struct SourcePathListResponse {
    pub paths: Vec<SourcePath>,
}

pub struct DestinationResponse {
    pub status: String,
    pub message: String,
    pub destination: Option<Destination>,
}

pub struct DestinationListResponse {
    pub destinations: Vec<Destination>,
}

pub struct ReverseSyncResult {
    pub status: String,
    pub message: String,
    pub uploaded: usize,
    pub skipped: usize,
    pub deleted: usize,
    pub total: usize,
}

pub struct OverlapQuery {
    pub caldav_url: String,
    pub calendar_name: String,
    pub exclude_id: Option<i64>,
}

pub struct OverlapEntry {
    pub id: i64,
    pub name: String,
    pub ics_url: String,
    pub sync_all: bool,
    pub keep_local: bool,
}

pub struct OverlapResponse {
    pub overlapping: Vec<OverlapEntry>,
}

/// The health probe: always `ok`.
pub fn health_response() -> (r: HealthResponse)
    ensures
        r.status@ == "ok"@,
{
    HealthResponse { status: String::from_str("ok") }
}

/// The detailed health probe: `ok` while the store answers, else
/// `degraded`, with uptime and source count as given.
pub fn detailed_health_response(uptime_seconds: u64, source_count: usize, db_ok: bool) -> (r:
    DetailedHealthResponse)
    ensures
        db_ok ==> r.status@ == "ok"@,
        !db_ok ==> r.status@ == "degraded"@,
        r.uptime_seconds == uptime_seconds,
        r.source_count == source_count,
        r.db_ok == db_ok,
{
    DetailedHealthResponse {
        status: if db_ok {
            String::from_str("ok")
        } else {
            String::from_str("degraded")
        },
        uptime_seconds,
        source_count,
        db_ok,
    }
}

/// The overlap warning: each overlapping destination projected to its
/// public fields.
pub fn overlap_entries(dests: &Vec<Destination>) -> (r: OverlapResponse)
    ensures
        r.overlapping@.len() == dests@.len(),
        forall|i: int|
            0 <= i < dests@.len() ==> {
                &&& (#[trigger] r.overlapping@[i]).id == dests@[i].id
                &&& r.overlapping@[i].name@ == dests@[i].name@
                &&& r.overlapping@[i].ics_url@ == dests@[i].ics_url@
                &&& r.overlapping@[i].sync_all == dests@[i].sync_all
                &&& r.overlapping@[i].keep_local == dests@[i].keep_local
            },
{
    let mut v: Vec<OverlapEntry> = Vec::new();
    let mut i: usize = 0;
    while i < dests.len()
        invariant
            0 <= i <= dests@.len(),
            v@.len() == i,
            forall|k: int|
                0 <= k < i ==> {
                    &&& (#[trigger] v@[k]).id == dests@[k].id
                    &&& v@[k].name@ == dests@[k].name@
                    &&& v@[k].ics_url@ == dests@[k].ics_url@
                    &&& v@[k].sync_all == dests@[k].sync_all
                    &&& v@[k].keep_local == dests@[k].keep_local
                },
        decreases dests@.len() - i,
    {
        let d = &dests[i];
        v.push(
            OverlapEntry {
                id: d.id,
                name: d.name.clone(),
                ics_url: d.ics_url.clone(),
                sync_all: d.sync_all,
                keep_local: d.keep_local,
            },
        );
        i = i + 1;
    }
    OverlapResponse { overlapping: v }
}

/// The anonymous serving route accepts a path only when it neither holds
/// `..` nor starts with `/`.
pub fn public_request_path_ok(path: &str) -> (r: bool)
    ensures
        r == !(spec_contains(path@, ".."@) || (path@.len() > 0 && path@[0] == '/')),
{
    let dots = crate::text::contains_substr(path, "..");
    let n = path.unicode_len();
    let slash = n > 0 && path.get_char(0) == '/';
    !(dots || slash)
}

/// The success message of a forward sync.
pub fn sync_result_message(events: usize, calendars: usize) -> (r: String)
    ensures
        r@ == "Synchronized "@ + spec_dec(events as nat) + " events from "@ + spec_dec(
            calendars as nat,
        ) + " calendars"@,
{
    let mut m = String::from_str("Synchronized ");
    let e = dec_str(events as u64);
    m.append(e.as_str());
    m.append(" events from ");
    let c = dec_str(calendars as u64);
    m.append(c.as_str());
    m.append(" calendars");
    m
}

/// The success message of a reverse sync.
pub fn reverse_result_message(uploaded: usize, total: usize, skipped: usize, deleted: usize) -> (r:
    String)
    ensures
        r@ == "Uploaded "@ + spec_dec(uploaded as nat) + " of "@ + spec_dec(total as nat)
            + " events ("@ + spec_dec(skipped as nat) + " unchanged, "@ + spec_dec(deleted as nat)
            + " deleted)"@,
{
    let mut m = String::from_str("Uploaded ");
    let u = dec_str(uploaded as u64);
    m.append(u.as_str());
    m.append(" of ");
    let t = dec_str(total as u64);
    m.append(t.as_str());
    m.append(" events (");
    let s = dec_str(skipped as u64);
    m.append(s.as_str());
    m.append(" unchanged, ");
    let d = dec_str(deleted as u64);
    m.append(d.as_str());
    m.append(" deleted)");
    m
}

/// A success response around an optional source.
pub fn source_success(message: &str, source: Option<Source>) -> (r: SourceResponse)
    ensures
        r.status@ == "success"@,
        r.message@ == message@,
        r.source == source,
{
    SourceResponse {
        status: String::from_str("success"),
        message: message.to_owned(),
        source,
    }
}

/// An error response with the failure's text.
pub fn source_error(message: &str) -> (r: SourceResponse)
    ensures
        r.status@ == "error"@,
        r.message@ == message@,
        r.source is None,
{
    SourceResponse { status: String::from_str("error"), message: message.to_owned(), source: None }
}

/// A success response around an optional destination.
pub fn destination_success(message: &str, destination: Option<Destination>) -> (r:
    DestinationResponse)
    ensures
        r.status@ == "success"@,
        r.message@ == message@,
        r.destination == destination,
{
    DestinationResponse {
        status: String::from_str("success"),
        message: message.to_owned(),
        destination,
    }
}

pub fn destination_error(message: &str) -> (r: DestinationResponse)
    ensures
        r.status@ == "error"@,
        r.message@ == message@,
        r.destination is None,
{
    DestinationResponse {
        status: String::from_str("error"),
        message: message.to_owned(),
        destination: None,
    }
}

/// A success response around an optional extra path.
pub fn source_path_success(message: &str, path: Option<SourcePath>) -> (r: SourcePathResponse)
    ensures
        r.status@ == "success"@,
        r.message@ == message@,
        r.path == path,
{
    SourcePathResponse {
        status: String::from_str("success"),
        message: message.to_owned(),
        path,
    }
}

pub fn source_path_error(message: &str) -> (r: SourcePathResponse)
    ensures
        r.status@ == "error"@,
        r.message@ == message@,
        r.path is None,
{
    SourcePathResponse {
        status: String::from_str("error"),
        message: message.to_owned(),
        path: None,
    }
}

/// The last-synced text of a status probe: the stored stamp, or `never`.
pub fn last_synced_message(last_synced: &Option<String>) -> (r: String)
    ensures
        match last_synced {
            Some(t) => r@ == "Last synced: "@ + t@,
            None => r@ == "Last synced: never"@,
        },
{
    let mut m = String::from_str("Last synced: ");
    match last_synced {
        Some(t) => {
            m.append(t.as_str());
            proof {
                reveal_strlit("Last synced: ");
            }
        },
        None => {
            m.append("never");
            proof {
                reveal_strlit("Last synced: ");
                reveal_strlit("never");
                reveal_strlit("Last synced: never");
                assert(m@ =~= "Last synced: never"@);
            }
        },
    }
    m
}

} // verus!
