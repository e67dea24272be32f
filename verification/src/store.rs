//! The entity store: Sources, Destinations, SourcePaths and ICS blobs, with
//! the path-namespace invariants (uniqueness, the reserved `public` prefix,
//! clearing semantics for the public alias, and password-keep-on-empty).
use vstd::prelude::*;
use crate::text::{contains_substr, has_prefix, spec_contains, spec_has_prefix, spec_trim, str_eq, trim_str};

verus! {

/// A CalDAV account mirrored outward as an ICS feed.
pub struct Source {
    pub id: i64,
    pub name: String,
    pub caldav_url: String,
    pub username: String,
    pub password: String,
    pub ics_path: String,
    pub sync_interval_secs: i64,
    pub last_synced: Option<String>,
    pub last_sync_status: Option<String>,
    pub last_sync_error: Option<String>,
    pub created_at: String,
    pub public_ics: bool,
    pub public_ics_path: Option<String>,
}

pub struct CreateSource {
    pub name: String,
    pub caldav_url: String,
    pub username: String,
    pub password: String,
    pub ics_path: String,
    pub sync_interval_secs: i64,
    pub public_ics: bool,
    pub public_ics_path: Option<String>,
}

pub struct UpdateSource {
    pub name: Option<String>,
    pub caldav_url: Option<String>,
    pub username: Option<String>,
    pub password: Option<String>,
    pub ics_path: Option<String>,
    pub sync_interval_secs: Option<i64>,
    pub public_ics: Option<bool>,
    pub public_ics_path: Option<String>,
}

/// An extra serving path for a Source's ICS feed.
pub struct SourcePath {
    pub id: i64,
    pub source_id: i64,
    pub path: String,
    pub is_public: bool,
    pub created_at: String,
}

pub struct CreateSourcePath {
    pub path: String,
    pub is_public: bool,
}

pub struct UpdateSourcePath {
    pub path: Option<String>,
    pub is_public: Option<bool>,
}

/// A remote ICS feed pushed into a CalDAV calendar.
pub struct Destination {
    pub id: i64,
    pub name: String,
    pub ics_url: String,
    pub caldav_url: String,
    pub calendar_name: String,
    pub username: String,
    pub password: String,
    pub sync_interval_secs: i64,
    pub sync_all: bool,
    pub keep_local: bool,
    pub last_synced: Option<String>,
    pub last_sync_status: Option<String>,
    pub last_sync_error: Option<String>,
    pub created_at: String,
}

pub struct CreateDestination {
    pub name: String,
    pub ics_url: String,
    pub caldav_url: String,
    pub calendar_name: String,
    pub username: String,
    pub password: String,
    pub sync_interval_secs: i64,
    pub sync_all: bool,
    pub keep_local: bool,
}

pub struct UpdateDestination {
    pub name: Option<String>,
    pub ics_url: Option<String>,
    pub caldav_url: Option<String>,
    pub calendar_name: Option<String>,
    pub username: Option<String>,
    pub password: Option<String>,
    pub sync_interval_secs: Option<i64>,
    pub sync_all: Option<bool>,
    pub keep_local: Option<bool>,
}

/// The latest aggregated ICS text of one Source.
pub struct IcsBlob {
    pub source_id: i64,
    pub content: String,
    pub updated_at: String,
}

/// Why a store mutation was rejected; user errors map to 4xx at the surface.
#[derive(Debug, Clone, Copy, PartialEq, Eq, Structural)]
pub enum StoreError {
    /// A required text field was empty or whitespace.
    EmptyField,
    /// A sync interval was negative.
    NegativeInterval,
    /// A path equalled `public` or started with `public/`.
    ReservedPath,
    /// A path collided with a path in its own table.
    DuplicatePath,
    /// A path collided with a path in another table.
    PathConflict,
    /// A path started with `/`.
    LeadingSlash,
    /// A path contained `..`.
    DotDot,
    /// A public alias equalled the source's own serving path.
    SamePath,
    /// The referenced entity does not exist.
    NotFound,
}

impl StoreError {
    /// A short description, for the HTTP surface.
    pub fn message(&self) -> (r: &'static str)
        ensures
            r@.len() > 0,
    {
        let m = match self {
            StoreError::EmptyField => "a required field cannot be empty",
            StoreError::NegativeInterval => "sync interval cannot be negative",
            StoreError::ReservedPath => "path is reserved for public ICS URLs",
            StoreError::DuplicatePath => "duplicate path is not allowed",
            StoreError::PathConflict => "path conflicts with an existing path",
            StoreError::LeadingSlash => "path must not start with /",
            StoreError::DotDot => "path must not contain ..",
            StoreError::SamePath => "public ICS path cannot equal the ICS path",
            StoreError::NotFound => "not found",
        };
        proof {
            reveal_strlit("a required field cannot be empty");
            reveal_strlit("sync interval cannot be negative");
            reveal_strlit("path is reserved for public ICS URLs");
            reveal_strlit("duplicate path is not allowed");
            reveal_strlit("path conflicts with an existing path");
            reveal_strlit("path must not start with /");
            reveal_strlit("path must not contain ..");
            reveal_strlit("public ICS path cannot equal the ICS path");
            reveal_strlit("not found");
        }
        m
    }
}

/// Is a text blank (empty after trimming)?
pub open spec fn spec_blank(s: Seq<char>) -> bool {
    spec_trim(s).len() == 0
}

pub fn is_blank(s: &str) -> (r: bool)
    ensures
        r == spec_blank(s@),
{
    let t = trim_str(s);
    t.as_str().unicode_len() == 0
}

/// Does a path fall in the reserved namespace (`public`, `public/...`)
/// after trimming?
pub open spec fn spec_reserved(p: Seq<char>) -> bool {
    spec_trim(p) == "public"@ || spec_has_prefix(spec_trim(p), "public/"@)
}

/// Reject a path that is reserved for the anonymous serving routes.
pub fn validate_ics_path(path: &str) -> (r: Result<(), StoreError>)
    ensures
        r is Ok <==> !spec_reserved(path@),
        r is Err ==> r == Result::<(), StoreError>::Err(StoreError::ReservedPath),
{
    let t = trim_str(path);
    let exact = str_eq(t.as_str(), "public");
    let pref = has_prefix(t.as_str(), "public/");
    if exact || pref {
        Err(StoreError::ReservedPath)
    } else {
        Ok(())
    }
}

/// Reject an empty or whitespace value for a required field.
pub fn require_non_empty(value: &str) -> (r: Result<(), StoreError>)
    ensures
        r is Ok <==> !spec_blank(value@),
        r is Err ==> r == Result::<(), StoreError>::Err(StoreError::EmptyField),
{
    if is_blank(value) {
        Err(StoreError::EmptyField)
    } else {
        Ok(())
    }
}

/// Reject a negative interval.
pub fn require_non_negative(value: i64) -> (r: Result<(), StoreError>)
    ensures
        r is Ok <==> value >= 0,
        r is Err ==> r == Result::<(), StoreError>::Err(StoreError::NegativeInterval),
{
    if value < 0 {
        Err(StoreError::NegativeInterval)
    } else {
        Ok(())
    }
}

/// Does an optional stored path hold exactly this value?
pub open spec fn opt_is(o: Option<String>, v: Seq<char>) -> bool {
    match o {
        Some(s) => s@ == v,
        None => false,
    }
}

pub fn clone_opt_string(o: &Option<String>) -> (r: Option<String>)
    ensures
        r == *o,
{
    match o {
        Some(s) => Some(s.clone()),
        None => None,
    }
}

// ---------------------------------------------------------------------------
// The store and its invariants
// ---------------------------------------------------------------------------

/// The relational store, modelled as vectors ordered by id.
pub struct Store {
    sources: Vec<Source>,
    source_paths: Vec<SourcePath>,
    destinations: Vec<Destination>,
    blobs: Vec<IcsBlob>,
    next_source_id: i64,
    next_source_path_id: i64,
    next_destination_id: i64,
}


/// The path-namespace invariants: the union of serving paths, public
/// aliases and extra paths is duplicate-free; no path is reserved; a
/// public alias never equals its own serving path; a source without the
/// public gate stores no alias.
pub open spec fn spec_paths_ok(ss: Seq<Source>, sps: Seq<SourcePath>) -> bool {
    &&& forall|i: int, j: int|
        0 <= i < j < ss.len() ==> (#[trigger] ss[i]).ics_path@ != (#[trigger] ss[j]).ics_path@
    &&& forall|i: int, j: int|
        0 <= i < ss.len() && 0 <= j < ss.len() ==> !opt_is(
            (#[trigger] ss[j]).public_ics_path,
            (#[trigger] ss[i]).ics_path@,
        )
    &&& forall|i: int, j: int|
        0 <= i < j < ss.len() ==> !((#[trigger] ss[i]).public_ics_path is Some && (
        #[trigger] ss[j]).public_ics_path is Some && ss[i].public_ics_path->0@
            == ss[j].public_ics_path->0@)
    &&& forall|i: int, j: int|
        0 <= i < ss.len() && 0 <= j < sps.len() ==> (#[trigger] sps[j]).path@ != (
        #[trigger] ss[i]).ics_path@ && !opt_is(ss[i].public_ics_path, sps[j].path@)
    &&& forall|i: int, j: int|
        0 <= i < j < sps.len() ==> (#[trigger] sps[i]).path@ != (#[trigger] sps[j]).path@
    &&& forall|i: int| 0 <= i < ss.len() ==> !spec_reserved((#[trigger] ss[i]).ics_path@)
    &&& forall|i: int|
        0 <= i < ss.len() ==> ((#[trigger] ss[i]).public_ics_path is Some ==> !spec_reserved(
            ss[i].public_ics_path->0@,
        ))
    &&& forall|i: int| 0 <= i < sps.len() ==> !spec_reserved((#[trigger] sps[i]).path@)
    &&& forall|i: int|
        0 <= i < ss.len() ==> !opt_is((#[trigger] ss[i]).public_ics_path, ss[i].ics_path@)
    &&& forall|i: int|
        0 <= i < ss.len() ==> (!(#[trigger] ss[i]).public_ics ==> ss[i].public_ics_path is None)
}

impl Store {
    pub closed spec fn sources(self) -> Seq<Source> {
        self.sources@
    }

    pub closed spec fn source_paths(self) -> Seq<SourcePath> {
        self.source_paths@
    }

    pub closed spec fn destinations(self) -> Seq<Destination> {
        self.destinations@
    }

    pub closed spec fn blobs(self) -> Seq<IcsBlob> {
        self.blobs@
    }

    pub closed spec fn next_source_id(self) -> i64 {
        self.next_source_id
    }

    pub closed spec fn next_source_path_id(self) -> i64 {
        self.next_source_path_id
    }

    pub closed spec fn next_destination_id(self) -> i64 {
        self.next_destination_id
    }

    /// Ids are positive, strictly increasing in table order, and below the
    /// next free id; blobs are keyed by source id.
    pub open spec fn ids_ok(self) -> bool {
        &&& forall|i: int, j: int|
            0 <= i < j < self.sources().len() ==> (#[trigger] self.sources()[i]).id < (
            #[trigger] self.sources()[j]).id
        &&& forall|i: int|
            0 <= i < self.sources().len() ==> 0 < (#[trigger] self.sources()[i]).id
                < self.next_source_id()
        &&& forall|i: int, j: int|
            0 <= i < j < self.source_paths().len() ==> (#[trigger] self.source_paths()[i]).id < (
            #[trigger] self.source_paths()[j]).id
        &&& forall|i: int|
            0 <= i < self.source_paths().len() ==> 0 < (#[trigger] self.source_paths()[i]).id
                < self.next_source_path_id()
        &&& forall|i: int, j: int|
            0 <= i < j < self.destinations().len() ==> (#[trigger] self.destinations()[i]).id < (
            #[trigger] self.destinations()[j]).id
        &&& forall|i: int|
            0 <= i < self.destinations().len() ==> 0 < (#[trigger] self.destinations()[i]).id
                < self.next_destination_id()
        &&& forall|i: int, j: int|
            0 <= i < j < self.blobs().len() ==> (#[trigger] self.blobs()[i]).source_id != (
            #[trigger] self.blobs()[j]).source_id
        &&& self.next_source_id() >= 1
        &&& self.next_source_path_id() >= 1
        &&& self.next_destination_id() >= 1
    }

    /// The path-namespace invariants, over this store's tables.
    pub open spec fn paths_ok(self) -> bool {
        spec_paths_ok(self.sources(), self.source_paths())
    }

    pub open spec fn wf(self) -> bool {
        self.ids_ok() && self.paths_ok()
    }

    /// An empty store.
    pub fn new() -> (r: Store)
        ensures
            r.wf(),
            r.sources().len() == 0,
            r.source_paths().len() == 0,
            r.destinations().len() == 0,
            r.blobs().len() == 0,
            r.next_source_id() == 1,
            r.next_source_path_id() == 1,
            r.next_destination_id() == 1,
    {
        Store {
            sources: Vec::new(),
            source_paths: Vec::new(),
            destinations: Vec::new(),
            blobs: Vec::new(),
            next_source_id: 1,
            next_source_path_id: 1,
            next_destination_id: 1,
        }
    }
}

} // verus!
// ---------------------------------------------------------------------------
// Lookups and clones
// ---------------------------------------------------------------------------

verus! {

pub fn clone_source(s: &Source) -> (r: Source)
    ensures
        r == *s,
{
    Source {
        id: s.id,
        name: s.name.clone(),
        caldav_url: s.caldav_url.clone(),
        username: s.username.clone(),
        password: s.password.clone(),
        ics_path: s.ics_path.clone(),
        sync_interval_secs: s.sync_interval_secs,
        last_synced: clone_opt_string(&s.last_synced),
        last_sync_status: clone_opt_string(&s.last_sync_status),
        last_sync_error: clone_opt_string(&s.last_sync_error),
        created_at: s.created_at.clone(),
        public_ics: s.public_ics,
        public_ics_path: clone_opt_string(&s.public_ics_path),
    }
}

pub fn clone_source_path(s: &SourcePath) -> (r: SourcePath)
    ensures
        r == *s,
{
    SourcePath {
        id: s.id,
        source_id: s.source_id,
        path: s.path.clone(),
        is_public: s.is_public,
        created_at: s.created_at.clone(),
    }
}

pub fn clone_destination(d: &Destination) -> (r: Destination)
    ensures
        r == *d,
{
    Destination {
        id: d.id,
        name: d.name.clone(),
        ics_url: d.ics_url.clone(),
        caldav_url: d.caldav_url.clone(),
        calendar_name: d.calendar_name.clone(),
        username: d.username.clone(),
        password: d.password.clone(),
        sync_interval_secs: d.sync_interval_secs,
        sync_all: d.sync_all,
        keep_local: d.keep_local,
        last_synced: clone_opt_string(&d.last_synced),
        last_sync_status: clone_opt_string(&d.last_sync_status),
        last_sync_error: clone_opt_string(&d.last_sync_error),
        created_at: d.created_at.clone(),
    }
}

impl Store {
    fn find_source(&self, id: i64) -> (r: Option<usize>)
        ensures
            match r {
                Some(i) => i < self.sources().len() && self.sources()[i as int].id == id,
                None => forall|i: int|
                    0 <= i < self.sources().len() ==> (#[trigger] self.sources()[i]).id != id,
            },
    {
        let mut i: usize = 0;
        while i < self.sources.len()
            invariant
                0 <= i <= self.sources().len(),
                forall|k: int| 0 <= k < i ==> (#[trigger] self.sources()[k]).id != id,
            decreases self.sources().len() - i,
        {
            if self.sources[i].id == id {
                return Some(i);
            }
            i = i + 1;
        }
        None
    }

    fn find_source_path(&self, id: i64) -> (r: Option<usize>)
        ensures
            match r {
                Some(i) => i < self.source_paths().len() && self.source_paths()[i as int].id == id,
                None => forall|i: int|
                    0 <= i < self.source_paths().len() ==> (#[trigger] self.source_paths()[i]).id
                        != id,
            },
    {
        let mut i: usize = 0;
        while i < self.source_paths.len()
            invariant
                0 <= i <= self.source_paths().len(),
                forall|k: int| 0 <= k < i ==> (#[trigger] self.source_paths()[k]).id != id,
            decreases self.source_paths().len() - i,
        {
            if self.source_paths[i].id == id {
                return Some(i);
            }
            i = i + 1;
        }
        None
    }

    fn find_destination(&self, id: i64) -> (r: Option<usize>)
        ensures
            match r {
                Some(i) => i < self.destinations().len() && self.destinations()[i as int].id == id,
                None => forall|i: int|
                    0 <= i < self.destinations().len() ==> (#[trigger] self.destinations()[i]).id
                        != id,
            },
    {
        let mut i: usize = 0;
        while i < self.destinations.len()
            invariant
                0 <= i <= self.destinations().len(),
                forall|k: int| 0 <= k < i ==> (#[trigger] self.destinations()[k]).id != id,
            decreases self.destinations().len() - i,
        {
            if self.destinations[i].id == id {
                return Some(i);
            }
            i = i + 1;
        }
        None
    }

    fn find_blob(&self, source_id: i64) -> (r: Option<usize>)
        ensures
            match r {
                Some(i) => i < self.blobs().len() && self.blobs()[i as int].source_id == source_id
                    && forall|k: int|
                        0 <= k < i ==> (#[trigger] self.blobs()[k]).source_id != source_id,
                None => forall|i: int|
                    0 <= i < self.blobs().len() ==> (#[trigger] self.blobs()[i]).source_id
                        != source_id,
            },
    {
        let mut i: usize = 0;
        while i < self.blobs.len()
            invariant
                0 <= i <= self.blobs().len(),
                forall|k: int| 0 <= k < i ==> (#[trigger] self.blobs()[k]).source_id != source_id,
            decreases self.blobs().len() - i,
        {
            if self.blobs[i].source_id == source_id {
                return Some(i);
            }
            i = i + 1;
        }
        None
    }

    /// All sources, in id order.
    pub fn list_sources(&self) -> (r: Result<Vec<Source>, StoreError>)
        ensures
            r is Ok,
            r->Ok_0@ == self.sources(),
    {
        let mut v: Vec<Source> = Vec::new();
        let mut i: usize = 0;
        while i < self.sources.len()
            invariant
                0 <= i <= self.sources().len(),
                v@ =~= self.sources().take(i as int),
            decreases self.sources().len() - i,
        {
            v.push(clone_source(&self.sources[i]));
            proof {
                assert(self.sources().take(i + 1) =~= self.sources().take(i as int).push(
                    self.sources()[i as int],
                ));
            }
            i = i + 1;
        }
        proof {
            assert(self.sources().take(self.sources().len() as int) =~= self.sources());
        }
        Ok(v)
    }

    /// One source by id.
    pub fn get_source(&self, id: i64) -> (r: Result<Option<Source>, StoreError>)
        ensures
            r is Ok,
            match r->Ok_0 {
                Some(s) => exists|i: int|
                    0 <= i < self.sources().len() && #[trigger] self.sources()[i] == s
                        && self.sources()[i].id == id,
                None => forall|i: int|
                    0 <= i < self.sources().len() ==> (#[trigger] self.sources()[i]).id != id,
            },
    {
        match self.find_source(id) {
            Some(i) => Ok(Some(clone_source(&self.sources[i]))),
            None => Ok(None),
        }
    }

    /// All destinations, in id order.
    pub fn list_destinations(&self) -> (r: Result<Vec<Destination>, StoreError>)
        ensures
            r is Ok,
            r->Ok_0@ == self.destinations(),
    {
        let mut v: Vec<Destination> = Vec::new();
        let mut i: usize = 0;
        while i < self.destinations.len()
            invariant
                0 <= i <= self.destinations().len(),
                v@ =~= self.destinations().take(i as int),
            decreases self.destinations().len() - i,
        {
            v.push(clone_destination(&self.destinations[i]));
            proof {
                assert(self.destinations().take(i + 1) =~= self.destinations().take(
                    i as int,
                ).push(self.destinations()[i as int]));
            }
            i = i + 1;
        }
        proof {
            assert(self.destinations().take(self.destinations().len() as int)
                =~= self.destinations());
        }
        Ok(v)
    }

    /// One destination by id.
    pub fn get_destination(&self, id: i64) -> (r: Result<Option<Destination>, StoreError>)
        ensures
            r is Ok,
            match r->Ok_0 {
                Some(d) => exists|i: int|
                    0 <= i < self.destinations().len() && #[trigger] self.destinations()[i] == d
                        && self.destinations()[i].id == id,
                None => forall|i: int|
                    0 <= i < self.destinations().len() ==> (#[trigger] self.destinations()[i]).id
                        != id,
            },
    {
        match self.find_destination(id) {
            Some(i) => Ok(Some(clone_destination(&self.destinations[i]))),
            None => Ok(None),
        }
    }
}

} // verus!
// ---------------------------------------------------------------------------
// Destinations
// ---------------------------------------------------------------------------

verus! {

/// The first validation failure of a destination-create request, or `None`.
pub open spec fn spec_create_dest_err(d: CreateDestination) -> Option<StoreError> {
    if spec_blank(d.name@) || spec_blank(d.ics_url@) || spec_blank(d.caldav_url@) || spec_blank(
        d.calendar_name@,
    ) || spec_blank(d.username@) || spec_blank(d.password@) {
        Some(StoreError::EmptyField)
    } else if d.sync_interval_secs < 0 {
        Some(StoreError::NegativeInterval)
    } else {
        None
    }
}

/// How a stored destination mirrors a create request.
pub open spec fn spec_dest_of_create(
    nd: Destination,
    d: CreateDestination,
    id: i64,
    now: Seq<char>,
) -> bool {
    &&& nd.id == id
    &&& nd.name@ == d.name@
    &&& nd.ics_url@ == d.ics_url@
    &&& nd.caldav_url@ == d.caldav_url@
    &&& nd.calendar_name@ == d.calendar_name@
    &&& nd.username@ == d.username@
    &&& nd.password@ == d.password@
    &&& nd.sync_interval_secs == d.sync_interval_secs
    &&& nd.sync_all == d.sync_all
    &&& nd.keep_local == d.keep_local
    &&& nd.last_synced is None
    &&& nd.last_sync_status is None
    &&& nd.last_sync_error is None
    &&& nd.created_at@ == now
}

/// The first validation failure of a destination-update request, or `None`.
pub open spec fn spec_update_dest_err(u: UpdateDestination) -> Option<StoreError> {
    if (u.name is Some && spec_blank(u.name->0@)) || (u.ics_url is Some && spec_blank(
        u.ics_url->0@,
    )) || (u.caldav_url is Some && spec_blank(u.caldav_url->0@)) || (u.calendar_name is Some
        && spec_blank(u.calendar_name->0@)) || (u.username is Some && spec_blank(u.username->0@)) {
        Some(StoreError::EmptyField)
    } else if u.sync_interval_secs is Some && u.sync_interval_secs->0 < 0 {
        Some(StoreError::NegativeInterval)
    } else {
        None
    }
}

/// How an updated destination mirrors the old row and the request: absent
/// fields keep their value, and a blank password keeps the old password.
pub open spec fn spec_dest_updated(nd: Destination, od: Destination, u: UpdateDestination) -> bool {
    &&& nd.id == od.id
    &&& nd.name@ == (if u.name is Some { u.name->0@ } else { od.name@ })
    &&& nd.ics_url@ == (if u.ics_url is Some { u.ics_url->0@ } else { od.ics_url@ })
    &&& nd.caldav_url@ == (if u.caldav_url is Some { u.caldav_url->0@ } else { od.caldav_url@ })
    &&& nd.calendar_name@ == (if u.calendar_name is Some {
        u.calendar_name->0@
    } else {
        od.calendar_name@
    })
    &&& nd.username@ == (if u.username is Some { u.username->0@ } else { od.username@ })
    &&& nd.password@ == (if u.password is Some && !spec_blank(u.password->0@) {
        u.password->0@
    } else {
        od.password@
    })
    &&& nd.sync_interval_secs == (if u.sync_interval_secs is Some {
        u.sync_interval_secs->0
    } else {
        od.sync_interval_secs
    })
    &&& nd.sync_all == (if u.sync_all is Some { u.sync_all->0 } else { od.sync_all })
    &&& nd.keep_local == (if u.keep_local is Some { u.keep_local->0 } else { od.keep_local })
    &&& nd.last_synced == od.last_synced
    &&& nd.last_sync_status == od.last_sync_status
    &&& nd.last_sync_error == od.last_sync_error
    &&& nd.created_at == od.created_at
}

impl Store {
    /// Create a destination after validating its fields.
    pub fn create_destination(&mut self, d: &CreateDestination, now: &str) -> (r: Result<
        i64,
        StoreError,
    >)
        requires
            old(self).wf(),
            old(self).next_destination_id() < i64::MAX,
        ensures
            final(self).wf(),
            final(self).sources() == old(self).sources(),
            final(self).source_paths() == old(self).source_paths(),
            final(self).blobs() == old(self).blobs(),
            match r {
                Ok(id) => {
                    &&& spec_create_dest_err(*d) is None
                    &&& id == old(self).next_destination_id()
                    &&& final(self).next_destination_id() == id + 1
                    &&& final(self).destinations().len() == old(self).destinations().len() + 1
                    &&& final(self).destinations().drop_last() == old(self).destinations()
                    &&& spec_dest_of_create(final(self).destinations().last(), *d, id, now@)
                },
                Err(e) => {
                    &&& spec_create_dest_err(*d) == Some(e)
                    &&& *final(self) == *old(self)
                },
            },
    {
        if let Err(e) = require_non_empty(d.name.as_str()) {
            return Err(e);
        }
        if let Err(e) = require_non_empty(d.ics_url.as_str()) {
            return Err(e);
        }
        if let Err(e) = require_non_empty(d.caldav_url.as_str()) {
            return Err(e);
        }
        if let Err(e) = require_non_empty(d.calendar_name.as_str()) {
            return Err(e);
        }
        if let Err(e) = require_non_empty(d.username.as_str()) {
            return Err(e);
        }
        if let Err(e) = require_non_empty(d.password.as_str()) {
            return Err(e);
        }
        if let Err(e) = require_non_negative(d.sync_interval_secs) {
            return Err(e);
        }
        let id = self.next_destination_id;
        let nd = Destination {
            id,
            name: d.name.clone(),
            ics_url: d.ics_url.clone(),
            caldav_url: d.caldav_url.clone(),
            calendar_name: d.calendar_name.clone(),
            username: d.username.clone(),
            password: d.password.clone(),
            sync_interval_secs: d.sync_interval_secs,
            sync_all: d.sync_all,
            keep_local: d.keep_local,
            last_synced: None,
            last_sync_status: None,
            last_sync_error: None,
            created_at: now.to_owned(),
        };
        self.destinations.push(nd);
        self.next_destination_id = id + 1;
        proof {
            assert(self.sources() == old(self).sources());
            assert(self.source_paths() == old(self).source_paths());
            assert(self.blobs() == old(self).blobs());
            assert(self.destinations().drop_last() =~= old(self).destinations());
        }
        Ok(id)
    }

    /// Update a destination; `Ok(false)` when the id is unknown.
    #[verifier::rlimit(100)]
    pub fn update_destination(&mut self, id: i64, u: &UpdateDestination) -> (r: Result<
        bool,
        StoreError,
    >)
        requires
            old(self).wf(),
        ensures
            final(self).wf(),
            final(self).sources() == old(self).sources(),
            final(self).source_paths() == old(self).source_paths(),
            final(self).blobs() == old(self).blobs(),
            final(self).next_destination_id() == old(self).next_destination_id(),
            match r {
                Ok(true) => {
                    &&& spec_update_dest_err(*u) is None
                    &&& final(self).destinations().len() == old(self).destinations().len()
                    &&& exists|i: int|
                        0 <= i < old(self).destinations().len() && (#[trigger] old(
                            self,
                        ).destinations()[i]).id == id && spec_dest_updated(
                            final(self).destinations()[i],
                            old(self).destinations()[i],
                            *u,
                        ) && (forall|j: int|
                            0 <= j < old(self).destinations().len() && j != i
                                ==> final(self).destinations()[j] == old(self).destinations()[j])
                },
                Ok(false) => {
                    &&& *final(self) == *old(self)
                    &&& forall|i: int|
                        0 <= i < old(self).destinations().len() ==> (#[trigger] old(
                            self,
                        ).destinations()[i]).id != id
                },
                Err(e) => {
                    &&& spec_update_dest_err(*u) == Some(e)
                    &&& *final(self) == *old(self)
                },
            },
    {
        let idx = match self.find_destination(id) {
            Some(i) => i,
            None => {
                return Ok(false);
            },
        };
        if let Some(v) = &u.name {
            if let Err(e) = require_non_empty(v.as_str()) {
                return Err(e);
            }
        }
        if let Some(v) = &u.ics_url {
            if let Err(e) = require_non_empty(v.as_str()) {
                return Err(e);
            }
        }
        if let Some(v) = &u.caldav_url {
            if let Err(e) = require_non_empty(v.as_str()) {
                return Err(e);
            }
        }
        if let Some(v) = &u.calendar_name {
            if let Err(e) = require_non_empty(v.as_str()) {
                return Err(e);
            }
        }
        if let Some(v) = &u.username {
            if let Err(e) = require_non_empty(v.as_str()) {
                return Err(e);
            }
        }
        if let Some(v) = u.sync_interval_secs {
            if let Err(e) = require_non_negative(v) {
                return Err(e);
            }
        }
        let od = self.destinations.remove(idx);
        let use_new_password = match &u.password {
            Some(p) => !is_blank(p.as_str()),
            None => false,
        };
        let nd = Destination {
            id: od.id,
            name: match &u.name {
                Some(v) => v.clone(),
                None => od.name,
            },
            ics_url: match &u.ics_url {
                Some(v) => v.clone(),
                None => od.ics_url,
            },
            caldav_url: match &u.caldav_url {
                Some(v) => v.clone(),
                None => od.caldav_url,
            },
            calendar_name: match &u.calendar_name {
                Some(v) => v.clone(),
                None => od.calendar_name,
            },
            username: match &u.username {
                Some(v) => v.clone(),
                None => od.username,
            },
            password: if use_new_password {
                match &u.password {
                    Some(p) => p.clone(),
                    None => od.password,
                }
            } else {
                od.password
            },
            sync_interval_secs: match u.sync_interval_secs {
                Some(v) => v,
                None => od.sync_interval_secs,
            },
            sync_all: match u.sync_all {
                Some(v) => v,
                None => od.sync_all,
            },
            keep_local: match u.keep_local {
                Some(v) => v,
                None => od.keep_local,
            },
            last_synced: od.last_synced,
            last_sync_status: od.last_sync_status,
            last_sync_error: od.last_sync_error,
            created_at: od.created_at,
        };
        self.destinations.insert(idx, nd);
        proof {
            assert(self.sources() == old(self).sources());
            assert(self.source_paths() == old(self).source_paths());
            assert(self.blobs() == old(self).blobs());
            let ds = self.destinations();
            let ods = old(self).destinations();
            ods.remove_ensures(idx as int);
            ods.remove(idx as int).insert_ensures(idx as int, nd);
            assert(ds.len() == ods.len());
            assert(ds[idx as int] == nd);
            assert(spec_dest_updated(nd, ods[idx as int], *u));
            assert(forall|j: int| 0 <= j < ods.len() && j != idx ==> ds[j] == ods[j]);
            assert forall|i: int, j: int| 0 <= i < j < ds.len() implies (#[trigger] ds[i]).id < (
            #[trigger] ds[j]).id by {
                assert(ods[i].id < ods[j].id);
                assert(ds[i].id == ods[i].id && ds[j].id == ods[j].id);
            }
            assert forall|i: int| 0 <= i < ds.len() implies 0 < (#[trigger] ds[i]).id < self
                .next_destination_id() by {
                assert(ds[i].id == ods[i].id);
            }
        }
        Ok(true)
    }

    /// Delete a destination; `Ok(false)` when the id is unknown.
    pub fn delete_destination(&mut self, id: i64) -> (r: Result<bool, StoreError>)
        requires
            old(self).wf(),
        ensures
            final(self).wf(),
            final(self).sources() == old(self).sources(),
            final(self).source_paths() == old(self).source_paths(),
            final(self).blobs() == old(self).blobs(),
            final(self).next_destination_id() == old(self).next_destination_id(),
            match r {
                Ok(true) => exists|i: int|
                    0 <= i < old(self).destinations().len() && (#[trigger] old(
                        self,
                    ).destinations()[i]).id == id && final(self).destinations() == old(
                        self,
                    ).destinations().remove(i),
                Ok(false) => {
                    &&& *final(self) == *old(self)
                    &&& forall|i: int|
                        0 <= i < old(self).destinations().len() ==> (#[trigger] old(
                            self,
                        ).destinations()[i]).id != id
                },
                Err(_) => false,
            },
    {
        match self.find_destination(id) {
            Some(i) => {
                self.destinations.remove(i);
                proof {
            assert(self.sources() == old(self).sources());
            assert(self.source_paths() == old(self).source_paths());
            assert(self.blobs() == old(self).blobs());
                    let ds = self.destinations();
                    let ods = old(self).destinations();
                    ods.remove_ensures(i as int);
                    assert(ds =~= ods.remove(i as int));
                    assert forall|p: int, q: int| 0 <= p < q < ds.len() implies (
                    #[trigger] ds[p]).id < (#[trigger] ds[q]).id by {
                        let p0 = if p < i { p } else { p + 1 };
                        let q0 = if q < i { q } else { q + 1 };
                        assert(ds[p] == ods[p0] && ds[q] == ods[q0]);
                    }
                    assert forall|p: int| 0 <= p < ds.len() implies 0 < (#[trigger] ds[p]).id
                        < self.next_destination_id() by {
                        let p0 = if p < i { p } else { p + 1 };
                        assert(ds[p] == ods[p0]);
                    }
                }
                Ok(true)
            },
            None => Ok(false),
        }
    }

    /// Stamp a destination's sync status and error text; only a successful
    /// tick (`status == "ok"`) also stamps the last-synced time. An unknown
    /// id changes nothing.
    pub fn update_destination_sync_status(
        &mut self,
        id: i64,
        status: &str,
        error: Option<&str>,
        now: &str,
    ) -> (r: Result<(), StoreError>)
        requires
            old(self).wf(),
        ensures
            r is Ok,
            final(self).wf(),
            final(self).sources() == old(self).sources(),
            final(self).source_paths() == old(self).source_paths(),
            final(self).blobs() == old(self).blobs(),
            final(self).next_destination_id() == old(self).next_destination_id(),
            final(self).destinations().len() == old(self).destinations().len(),
            (forall|i: int|
                0 <= i < old(self).destinations().len() ==> (#[trigger] old(
                    self,
                ).destinations()[i]).id != id) ==> *final(self) == *old(self),
            forall|i: int|
                0 <= i < old(self).destinations().len() && (#[trigger] old(
                    self,
                ).destinations()[i]).id == id ==> {
                    let nd = final(self).destinations()[i];
                    let od = old(self).destinations()[i];
                    &&& nd.last_sync_status is Some && nd.last_sync_status->0@ == status@
                    &&& (match (nd.last_sync_error, error) {
                        (Some(a), Some(b)) => a@ == b@,
                        (None, None) => true,
                        _ => false,
                    })
                    &&& (if status@ == "ok"@ {
                        nd.last_synced is Some && nd.last_synced->0@ == now@
                    } else {
                        nd.last_synced == od.last_synced
                    })
                    &&& nd.id == od.id && nd.name == od.name && nd.ics_url == od.ics_url
                        && nd.caldav_url == od.caldav_url && nd.calendar_name == od.calendar_name
                        && nd.username == od.username && nd.password == od.password
                        && nd.sync_interval_secs == od.sync_interval_secs && nd.sync_all
                        == od.sync_all && nd.keep_local == od.keep_local && nd.created_at
                        == od.created_at
                },
            forall|i: int|
                0 <= i < old(self).destinations().len() && (#[trigger] old(
                    self,
                ).destinations()[i]).id != id ==> final(self).destinations()[i] == old(
                    self,
                ).destinations()[i],
    {
        let idx = match self.find_destination(id) {
            Some(i) => i,
            None => {
                return Ok(());
            },
        };
        let od = self.destinations.remove(idx);
        let succeeded = str_eq(status, "ok");
        let nd = Destination {
            last_synced: if succeeded {
                Some(now.to_owned())
            } else {
                clone_opt_string(&od.last_synced)
            },
            last_sync_status: Some(status.to_owned()),
            last_sync_error: match error {
                Some(e) => Some(e.to_owned()),
                None => None,
            },
            ..od
        };
        self.destinations.insert(idx, nd);
        proof {
            assert(self.sources() == old(self).sources());
            assert(self.source_paths() == old(self).source_paths());
            assert(self.blobs() == old(self).blobs());
            let ds = self.destinations();
            let ods = old(self).destinations();
            ods.remove_ensures(idx as int);
            ods.remove(idx as int).insert_ensures(idx as int, nd);
            assert(ds[idx as int] == nd);
            assert(forall|j: int| 0 <= j < ods.len() && j != idx ==> ds[j] == ods[j]);
            assert forall|i: int, j: int| 0 <= i < j < ds.len() implies (#[trigger] ds[i]).id < (
            #[trigger] ds[j]).id by {
                assert(ods[i].id < ods[j].id);
                assert(ds[i].id == ods[i].id && ds[j].id == ods[j].id);
            }
            assert forall|i: int| 0 <= i < ds.len() implies 0 < (#[trigger] ds[i]).id < self
                .next_destination_id() by {
                assert(ds[i].id == ods[i].id);
            }
            assert forall|i: int|
                0 <= i < ods.len() && (#[trigger] ods[i]).id == id implies i == idx by {
                if i != idx {
                    if i < idx {
                        assert(ods[i].id < ods[idx as int].id);
                    } else {
                        assert(ods[idx as int].id < ods[i].id);
                    }
                }
            }
        }
        Ok(())
    }

    /// Destinations that target the same CalDAV calendar.
    pub fn find_overlapping_destinations(
        &self,
        caldav_url: &str,
        calendar_name: &str,
        exclude_id: Option<i64>,
    ) -> (r: Result<Vec<Destination>, StoreError>)
        ensures
            r is Ok,
            r->Ok_0@ == spec_overlaps(self.destinations(), caldav_url@, calendar_name@, exclude_id),
    {
        let mut v: Vec<Destination> = Vec::new();
        let mut i: usize = 0;
        proof {
            assert(v@ =~= spec_overlaps(
                self.destinations().take(0),
                caldav_url@,
                calendar_name@,
                exclude_id,
            ));
        }
        while i < self.destinations.len()
            invariant
                0 <= i <= self.destinations().len(),
                v@ =~= spec_overlaps(
                    self.destinations().take(i as int),
                    caldav_url@,
                    calendar_name@,
                    exclude_id,
                ),
            decreases self.destinations().len() - i,
        {
            let d = &self.destinations[i];
            let url_eq = str_eq(d.caldav_url.as_str(), caldav_url);
            let name_eq = str_eq(d.calendar_name.as_str(), calendar_name);
            let excluded = match exclude_id {
                Some(x) => d.id == x,
                None => false,
            };
            if url_eq && name_eq && !excluded {
                v.push(clone_destination(d));
            }
            proof {
                let pre = self.destinations().take(i as int);
                let nxt = self.destinations().take(i + 1);
                assert(nxt.drop_last() =~= pre);
                assert(nxt.last() == self.destinations()[i as int]);
            }
            i = i + 1;
        }
        proof {
            assert(self.destinations().take(self.destinations().len() as int)
                =~= self.destinations());
        }
        Ok(v)
    }
}

/// The destinations aimed at the given calendar, minus an excluded id,
/// in table order.
pub open spec fn spec_overlaps(
    ds: Seq<Destination>,
    url: Seq<char>,
    name: Seq<char>,
    exclude_id: Option<i64>,
) -> Seq<Destination>
    decreases ds.len(),
{
    if ds.len() == 0 {
        Seq::empty()
    } else {
        let rest = spec_overlaps(ds.drop_last(), url, name, exclude_id);
        let d = ds.last();
        if d.caldav_url@ == url && d.calendar_name@ == name && (match exclude_id {
            Some(x) => d.id != x,
            None => true,
        }) {
            rest.push(d)
        } else {
            rest
        }
    }
}

} // verus!
// ---------------------------------------------------------------------------
// Sources
// ---------------------------------------------------------------------------

verus! {

/// Is `p` taken by some source's serving path or public alias, apart from
/// the excluded source id?
pub open spec fn spec_src_taken(ss: Seq<Source>, p: Seq<char>, ex: Option<i64>) -> bool {
    exists|i: int|
        0 <= i < ss.len() && ((#[trigger] ss[i]).ics_path@ == p || opt_is(
            ss[i].public_ics_path,
            p,
        )) && (match ex {
            Some(x) => ss[i].id != x,
            None => true,
        })
}

/// Is `p` taken by some extra source path, apart from the excluded path id?
pub open spec fn spec_alias_taken(sps: Seq<SourcePath>, p: Seq<char>, ex: Option<i64>) -> bool {
    exists|j: int|
        0 <= j < sps.len() && (#[trigger] sps[j]).path@ == p && (match ex {
            Some(x) => sps[j].id != x,
            None => true,
        })
}

/// The first failure when validating a non-blank public alias `p`
/// (checked trimmed), or `None`.
pub open spec fn spec_validate_public_err(
    ss: Seq<Source>,
    sps: Seq<SourcePath>,
    p: Seq<char>,
    ex: Option<i64>,
) -> Option<StoreError> {
    let t = spec_trim(p);
    if t.len() > 0 && t[0] == '/' {
        Some(StoreError::LeadingSlash)
    } else if spec_contains(t, ".."@) {
        Some(StoreError::DotDot)
    } else if spec_reserved(t) {
        Some(StoreError::ReservedPath)
    } else if spec_src_taken(ss, t, ex) {
        Some(StoreError::DuplicatePath)
    } else if spec_alias_taken(sps, t, None) {
        Some(StoreError::PathConflict)
    } else {
        None
    }
}

/// The first validation failure of a source-create request, or `None`.
pub open spec fn spec_create_source_err(
    ss: Seq<Source>,
    sps: Seq<SourcePath>,
    c: CreateSource,
) -> Option<StoreError> {
    if spec_blank(c.name@) || spec_blank(c.caldav_url@) || spec_blank(c.username@) || spec_blank(
        c.password@,
    ) || spec_blank(c.ics_path@) {
        Some(StoreError::EmptyField)
    } else if spec_reserved(c.ics_path@) {
        Some(StoreError::ReservedPath)
    } else if c.sync_interval_secs < 0 {
        Some(StoreError::NegativeInterval)
    } else if spec_src_taken(ss, c.ics_path@, None) {
        Some(StoreError::DuplicatePath)
    } else if spec_alias_taken(sps, c.ics_path@, None) {
        Some(StoreError::PathConflict)
    } else if c.public_ics && c.public_ics_path is Some && !spec_blank(c.public_ics_path->0@) {
        match spec_validate_public_err(ss, sps, c.public_ics_path->0@, None) {
            Some(e) => Some(e),
            None => if spec_trim(c.public_ics_path->0@) == c.ics_path@ {
                Some(StoreError::SamePath)
            } else {
                None
            },
        }
    } else {
        None
    }
}

/// The public alias a successful create stores: the trimmed alias when the
/// gate is on and one was given, else nothing.
pub open spec fn spec_eff_create_pp(c: CreateSource) -> Option<Seq<char>> {
    if c.public_ics && c.public_ics_path is Some && !spec_blank(c.public_ics_path->0@) {
        Some(spec_trim(c.public_ics_path->0@))
    } else {
        None
    }
}

/// How a stored source mirrors a create request.
pub open spec fn spec_source_of_create(ns: Source, c: CreateSource, id: i64, now: Seq<char>) -> bool {
    &&& ns.id == id
    &&& ns.name@ == c.name@
    &&& ns.caldav_url@ == c.caldav_url@
    &&& ns.username@ == c.username@
    &&& ns.password@ == c.password@
    &&& ns.ics_path@ == c.ics_path@
    &&& ns.sync_interval_secs == c.sync_interval_secs
    &&& ns.last_synced is None
    &&& ns.last_sync_status is None
    &&& ns.last_sync_error is None
    &&& ns.created_at@ == now
    &&& ns.public_ics == c.public_ics
    &&& (match (ns.public_ics_path, spec_eff_create_pp(c)) {
        (Some(a), Some(b)) => a@ == b,
        (None, None) => true,
        _ => false,
    })
}

/// Pushing a source whose paths collide with nothing keeps the namespace
/// invariants.
proof fn lemma_paths_ok_push_source(ss: Seq<Source>, sps: Seq<SourcePath>, ns: Source)
    requires
        spec_paths_ok(ss, sps),
        forall|i: int|
            0 <= i < ss.len() ==> (#[trigger] ss[i]).ics_path@ != ns.ics_path@ && !opt_is(
                ss[i].public_ics_path,
                ns.ics_path@,
            ),
        forall|j: int| 0 <= j < sps.len() ==> (#[trigger] sps[j]).path@ != ns.ics_path@,
        !spec_reserved(ns.ics_path@),
        !ns.public_ics ==> ns.public_ics_path is None,
        !opt_is(ns.public_ics_path, ns.ics_path@),
        ns.public_ics_path is Some ==> !spec_reserved(ns.public_ics_path->0@),
        ns.public_ics_path is Some ==> forall|i: int|
            0 <= i < ss.len() ==> (#[trigger] ss[i]).ics_path@ != ns.public_ics_path->0@
                && !opt_is(ss[i].public_ics_path, ns.public_ics_path->0@),
        ns.public_ics_path is Some ==> forall|j: int|
            0 <= j < sps.len() ==> (#[trigger] sps[j]).path@ != ns.public_ics_path->0@,
    ensures
        spec_paths_ok(ss.push(ns), sps),
{
    let ts = ss.push(ns);
    assert(ts.len() == ss.len() + 1);
    assert(forall|i: int| 0 <= i < ss.len() ==> ts[i] == ss[i]);
    assert(ts[ss.len() as int] == ns);
    assert forall|i: int, j: int| 0 <= i < j < ts.len() implies (#[trigger] ts[i]).ics_path@ != (
    #[trigger] ts[j]).ics_path@ by {
        if j == ss.len() {
            assert(ss[i].ics_path@ != ns.ics_path@);
        }
    }
    assert forall|i: int, j: int| 0 <= i < ts.len() && 0 <= j < ts.len() implies !opt_is(
        (#[trigger] ts[j]).public_ics_path,
        (#[trigger] ts[i]).ics_path@,
    ) by {
        if i == ss.len() && j == ss.len() {
        } else if i == ss.len() {
            assert(!opt_is(ss[j].public_ics_path, ns.ics_path@));
        } else if j == ss.len() {
            if ns.public_ics_path is Some {
                assert(ss[i].ics_path@ != ns.public_ics_path->0@);
            }
        }
    }
    assert forall|i: int, j: int| 0 <= i < j < ts.len() implies !((
    #[trigger] ts[i]).public_ics_path is Some && (#[trigger] ts[j]).public_ics_path is Some
        && ts[i].public_ics_path->0@ == ts[j].public_ics_path->0@) by {
        if j == ss.len() {
            if ns.public_ics_path is Some {
                assert(!opt_is(ss[i].public_ics_path, ns.public_ics_path->0@));
            }
        }
    }
    assert forall|i: int, j: int| 0 <= i < ts.len() && 0 <= j < sps.len() implies (
    #[trigger] sps[j]).path@ != (#[trigger] ts[i]).ics_path@ && !opt_is(
        ts[i].public_ics_path,
        sps[j].path@,
    ) by {
        if i == ss.len() {
            assert(sps[j].path@ != ns.ics_path@);
            if ns.public_ics_path is Some {
                assert(sps[j].path@ != ns.public_ics_path->0@);
            }
        }
    }
}

impl Store {
    fn src_taken(&self, p: &str, ex: Option<i64>) -> (r: bool)
        ensures
            r == spec_src_taken(self.sources(), p@, ex),
    {
        let mut i: usize = 0;
        while i < self.sources.len()
            invariant
                0 <= i <= self.sources().len(),
                forall|k: int|
                    0 <= k < i ==> !(((#[trigger] self.sources()[k]).ics_path@ == p@ || opt_is(
                        self.sources()[k].public_ics_path,
                        p@,
                    )) && (match ex {
                        Some(x) => self.sources()[k].id != x,
                        None => true,
                    })),
            decreases self.sources().len() - i,
        {
            let s = &self.sources[i];
            let ics_eq = str_eq(s.ics_path.as_str(), p);
            let pub_eq = match &s.public_ics_path {
                Some(q) => str_eq(q.as_str(), p),
                None => false,
            };
            let included = match ex {
                Some(x) => s.id != x,
                None => true,
            };
            if (ics_eq || pub_eq) && included {
                return true;
            }
            i = i + 1;
        }
        false
    }

    fn alias_taken(&self, p: &str, ex: Option<i64>) -> (r: bool)
        ensures
            r == spec_alias_taken(self.source_paths(), p@, ex),
    {
        let mut i: usize = 0;
        while i < self.source_paths.len()
            invariant
                0 <= i <= self.source_paths().len(),
                forall|k: int|
                    0 <= k < i ==> !((#[trigger] self.source_paths()[k]).path@ == p@ && (match ex {
                        Some(x) => self.source_paths()[k].id != x,
                        None => true,
                    })),
            decreases self.source_paths().len() - i,
        {
            let sp = &self.source_paths[i];
            let path_eq = str_eq(sp.path.as_str(), p);
            let included = match ex {
                Some(x) => sp.id != x,
                None => true,
            };
            if path_eq && included {
                return true;
            }
            i = i + 1;
        }
        false
    }

    /// Validate a public alias (trimmed); `Ok` carries the trimmed alias.
    fn validate_public_path(&self, p: &str, ex: Option<i64>) -> (r: Result<String, StoreError>)
        ensures
            match r {
                Ok(t) => spec_validate_public_err(self.sources(), self.source_paths(), p@, ex)
                    is None && t@ == spec_trim(p@),
                Err(e) => spec_validate_public_err(self.sources(), self.source_paths(), p@, ex)
                    == Some(e),
            },
    {
        let t = trim_str(p);
        let leading = if t.as_str().unicode_len() > 0 {
            t.as_str().get_char(0) == '/'
        } else {
            false
        };
        if leading {
            return Err(StoreError::LeadingSlash);
        }
        if contains_substr(t.as_str(), "..") {
            return Err(StoreError::DotDot);
        }
        if let Err(e) = validate_ics_path(t.as_str()) {
            return Err(e);
        }
        if self.src_taken(t.as_str(), ex) {
            return Err(StoreError::DuplicatePath);
        }
        if self.alias_taken(t.as_str(), None) {
            return Err(StoreError::PathConflict);
        }
        Ok(t)
    }

    /// Create a source after validating its fields and its paths against
    /// the whole namespace.
    pub fn create_source(&mut self, c: &CreateSource, now: &str) -> (r: Result<i64, StoreError>)
        requires
            old(self).wf(),
            old(self).next_source_id() < i64::MAX,
        ensures
            final(self).wf(),
            final(self).destinations() == old(self).destinations(),
            final(self).source_paths() == old(self).source_paths(),
            final(self).blobs() == old(self).blobs(),
            match r {
                Ok(id) => {
                    &&& spec_create_source_err(old(self).sources(), old(self).source_paths(), *c)
                        is None
                    &&& id == old(self).next_source_id()
                    &&& final(self).next_source_id() == id + 1
                    &&& final(self).sources().len() == old(self).sources().len() + 1
                    &&& final(self).sources().drop_last() == old(self).sources()
                    &&& spec_source_of_create(final(self).sources().last(), *c, id, now@)
                },
                Err(e) => {
                    &&& spec_create_source_err(old(self).sources(), old(self).source_paths(), *c)
                        == Some(e)
                    &&& *final(self) == *old(self)
                },
            },
    {
        if let Err(e) = require_non_empty(c.name.as_str()) {
            return Err(e);
        }
        if let Err(e) = require_non_empty(c.caldav_url.as_str()) {
            return Err(e);
        }
        if let Err(e) = require_non_empty(c.username.as_str()) {
            return Err(e);
        }
        if let Err(e) = require_non_empty(c.password.as_str()) {
            return Err(e);
        }
        if let Err(e) = require_non_empty(c.ics_path.as_str()) {
            return Err(e);
        }
        if let Err(e) = validate_ics_path(c.ics_path.as_str()) {
            return Err(e);
        }
        if let Err(e) = require_non_negative(c.sync_interval_secs) {
            return Err(e);
        }
        if self.src_taken(c.ics_path.as_str(), None) {
            return Err(StoreError::DuplicatePath);
        }
        if self.alias_taken(c.ics_path.as_str(), None) {
            return Err(StoreError::PathConflict);
        }
        let mut public_path: Option<String> = None;
        if c.public_ics {
            if let Some(pp) = &c.public_ics_path {
                if !is_blank(pp.as_str()) {
                    match self.validate_public_path(pp.as_str(), None) {
                        Ok(t) => {
                            if str_eq(t.as_str(), c.ics_path.as_str()) {
                                return Err(StoreError::SamePath);
                            }
                            public_path = Some(t);
                        },
                        Err(e) => {
                            return Err(e);
                        },
                    }
                }
            }
        }
        let id = self.next_source_id;
        let ns = Source {
            id,
            name: c.name.clone(),
            caldav_url: c.caldav_url.clone(),
            username: c.username.clone(),
            password: c.password.clone(),
            ics_path: c.ics_path.clone(),
            sync_interval_secs: c.sync_interval_secs,
            last_synced: None,
            last_sync_status: None,
            last_sync_error: None,
            created_at: now.to_owned(),
            public_ics: c.public_ics,
            public_ics_path: public_path,
        };
        proof {
            lemma_paths_ok_push_source(old(self).sources(), old(self).source_paths(), ns);
        }
        self.sources.push(ns);
        self.next_source_id = id + 1;
        proof {
            assert(self.destinations() == old(self).destinations());
            assert(self.source_paths() == old(self).source_paths());
            assert(self.blobs() == old(self).blobs());
            assert(self.sources().drop_last() =~= old(self).sources());
            assert(self.sources() =~= old(self).sources().push(
                self.sources()[old(self).sources().len() as int],
            ));
        }
        Ok(id)
    }
}
} // verus!
// ---------------------------------------------------------------------------
// Source updates
// ---------------------------------------------------------------------------

verus! {

/// The public alias an update leaves behind once validation passed: the
/// gate off clears it; a blank request clears it; a given alias is stored
/// trimmed; no request keeps the old one.
pub open spec fn spec_eff_pp(os: Source, u: UpdateSource) -> Option<Seq<char>> {
    let gate = if u.public_ics is Some {
        u.public_ics->0
    } else {
        os.public_ics
    };
    if !gate {
        None
    } else {
        match u.public_ics_path {
            Some(p) => if spec_blank(p@) {
                None
            } else {
                Some(spec_trim(p@))
            },
            None => match os.public_ics_path {
                Some(q) => Some(q@),
                None => None,
            },
        }
    }
}

/// The serving path an update leaves behind.
pub open spec fn spec_eff_ics(os: Source, u: UpdateSource) -> Seq<char> {
    if u.ics_path is Some {
        u.ics_path->0@
    } else {
        os.ics_path@
    }
}

/// The first validation failure of a source-update request against the
/// existing row, or `None`.
pub open spec fn spec_update_source_err(
    ss: Seq<Source>,
    sps: Seq<SourcePath>,
    os: Source,
    u: UpdateSource,
) -> Option<StoreError> {
    if (u.name is Some && spec_blank(u.name->0@)) || (u.caldav_url is Some && spec_blank(
        u.caldav_url->0@,
    )) || (u.username is Some && spec_blank(u.username->0@)) || (u.ics_path is Some && spec_blank(
        u.ics_path->0@,
    )) {
        Some(StoreError::EmptyField)
    } else if u.ics_path is Some && spec_reserved(u.ics_path->0@) {
        Some(StoreError::ReservedPath)
    } else if u.sync_interval_secs is Some && u.sync_interval_secs->0 < 0 {
        Some(StoreError::NegativeInterval)
    } else if u.ics_path is Some && spec_src_taken(ss, u.ics_path->0@, Some(os.id)) {
        Some(StoreError::DuplicatePath)
    } else if u.ics_path is Some && spec_alias_taken(sps, u.ics_path->0@, None) {
        Some(StoreError::PathConflict)
    } else {
        let gate = if u.public_ics is Some {
            u.public_ics->0
        } else {
            os.public_ics
        };
        let verr = if gate && u.public_ics_path is Some && !spec_blank(u.public_ics_path->0@) {
            spec_validate_public_err(ss, sps, u.public_ics_path->0@, Some(os.id))
        } else {
            None
        };
        match verr {
            Some(e) => Some(e),
            None => {
                let pp = spec_eff_pp(os, u);
                if pp is Some && pp->0 == spec_eff_ics(os, u) {
                    Some(StoreError::SamePath)
                } else {
                    None
                }
            },
        }
    }
}

/// How an updated source mirrors the old row and the request: absent fields
/// keep their value, and a blank password keeps the old password.
pub open spec fn spec_source_updated(ns: Source, os: Source, u: UpdateSource) -> bool {
    &&& ns.id == os.id
    &&& ns.name@ == (if u.name is Some { u.name->0@ } else { os.name@ })
    &&& ns.caldav_url@ == (if u.caldav_url is Some { u.caldav_url->0@ } else { os.caldav_url@ })
    &&& ns.username@ == (if u.username is Some { u.username->0@ } else { os.username@ })
    &&& ns.password@ == (if u.password is Some && !spec_blank(u.password->0@) {
        u.password->0@
    } else {
        os.password@
    })
    &&& ns.ics_path@ == spec_eff_ics(os, u)
    &&& ns.sync_interval_secs == (if u.sync_interval_secs is Some {
        u.sync_interval_secs->0
    } else {
        os.sync_interval_secs
    })
    &&& ns.public_ics == (if u.public_ics is Some { u.public_ics->0 } else { os.public_ics })
    &&& (match (ns.public_ics_path, spec_eff_pp(os, u)) {
        (Some(a), Some(b)) => a@ == b,
        (None, None) => true,
        _ => false,
    })
    &&& ns.last_synced == os.last_synced
    &&& ns.last_sync_status == os.last_sync_status
    &&& ns.last_sync_error == os.last_sync_error
    &&& ns.created_at == os.created_at
}

/// Updating one source whose new paths collide with nothing keeps the
/// namespace invariants.
proof fn lemma_paths_ok_update_source(ss: Seq<Source>, sps: Seq<SourcePath>, idx: int, ns: Source)
    requires
        spec_paths_ok(ss, sps),
        0 <= idx < ss.len(),
        forall|i: int|
            0 <= i < ss.len() && i != idx ==> (#[trigger] ss[i]).ics_path@ != ns.ics_path@
                && !opt_is(ss[i].public_ics_path, ns.ics_path@),
        forall|j: int| 0 <= j < sps.len() ==> (#[trigger] sps[j]).path@ != ns.ics_path@,
        !spec_reserved(ns.ics_path@),
        !ns.public_ics ==> ns.public_ics_path is None,
        !opt_is(ns.public_ics_path, ns.ics_path@),
        ns.public_ics_path is Some ==> !spec_reserved(ns.public_ics_path->0@),
        ns.public_ics_path is Some ==> forall|i: int|
            0 <= i < ss.len() && i != idx ==> (#[trigger] ss[i]).ics_path@
                != ns.public_ics_path->0@ && !opt_is(
                ss[i].public_ics_path,
                ns.public_ics_path->0@,
            ),
        ns.public_ics_path is Some ==> forall|j: int|
            0 <= j < sps.len() ==> (#[trigger] sps[j]).path@ != ns.public_ics_path->0@,
    ensures
        spec_paths_ok(ss.update(idx, ns), sps),
{
    let ts = ss.update(idx, ns);
    assert(ts.len() == ss.len());
    assert(forall|i: int| 0 <= i < ss.len() && i != idx ==> ts[i] == ss[i]);
    assert(ts[idx] == ns);
    assert forall|i: int, j: int| 0 <= i < j < ts.len() implies (#[trigger] ts[i]).ics_path@ != (
    #[trigger] ts[j]).ics_path@ by {
        if i == idx {
            assert(ss[j].ics_path@ != ns.ics_path@);
        } else if j == idx {
            assert(ss[i].ics_path@ != ns.ics_path@);
        }
    }
    assert forall|i: int, j: int| 0 <= i < ts.len() && 0 <= j < ts.len() implies !opt_is(
        (#[trigger] ts[j]).public_ics_path,
        (#[trigger] ts[i]).ics_path@,
    ) by {
        if i == idx && j == idx {
        } else if i == idx {
            assert(!opt_is(ss[j].public_ics_path, ns.ics_path@));
        } else if j == idx {
            if ns.public_ics_path is Some {
                assert(ss[i].ics_path@ != ns.public_ics_path->0@);
            }
        }
    }
    assert forall|i: int, j: int| 0 <= i < j < ts.len() implies !((
    #[trigger] ts[i]).public_ics_path is Some && (#[trigger] ts[j]).public_ics_path is Some
        && ts[i].public_ics_path->0@ == ts[j].public_ics_path->0@) by {
        if i == idx && ns.public_ics_path is Some {
            assert(!opt_is(ss[j].public_ics_path, ns.public_ics_path->0@));
        } else if j == idx && ns.public_ics_path is Some {
            assert(!opt_is(ss[i].public_ics_path, ns.public_ics_path->0@));
        }
    }
    assert forall|i: int, j: int| 0 <= i < ts.len() && 0 <= j < sps.len() implies (
    #[trigger] sps[j]).path@ != (#[trigger] ts[i]).ics_path@ && !opt_is(
        ts[i].public_ics_path,
        sps[j].path@,
    ) by {
        if i == idx {
            assert(sps[j].path@ != ns.ics_path@);
            if ns.public_ics_path is Some {
                assert(sps[j].path@ != ns.public_ics_path->0@);
            }
        }
    }
}

/// Touching only non-path fields keeps the namespace invariants.
proof fn lemma_paths_ok_same_paths(ss: Seq<Source>, ts: Seq<Source>, sps: Seq<SourcePath>)
    requires
        spec_paths_ok(ss, sps),
        ts.len() == ss.len(),
        forall|i: int|
            0 <= i < ss.len() ==> (#[trigger] ts[i]).ics_path == ss[i].ics_path
                && ts[i].public_ics_path == ss[i].public_ics_path && ts[i].public_ics
                == ss[i].public_ics,
    ensures
        spec_paths_ok(ts, sps),
{
}

impl Store {
    /// Update a source; `Ok(false)` when the id is unknown.
    #[verifier::rlimit(100)]
    pub fn update_source(&mut self, id: i64, u: &UpdateSource) -> (r: Result<bool, StoreError>)
        requires
            old(self).wf(),
        ensures
            final(self).wf(),
            final(self).destinations() == old(self).destinations(),
            final(self).source_paths() == old(self).source_paths(),
            final(self).blobs() == old(self).blobs(),
            final(self).next_source_id() == old(self).next_source_id(),
            match r {
                Ok(true) => {
                    &&& final(self).sources().len() == old(self).sources().len()
                    &&& exists|i: int|
                        0 <= i < old(self).sources().len() && (#[trigger] old(
                            self,
                        ).sources()[i]).id == id && (spec_update_source_err(
                            old(self).sources(),
                            old(self).source_paths(),
                            old(self).sources()[i],
                            *u,
                        ) is None) && spec_source_updated(
                            final(self).sources()[i],
                            old(self).sources()[i],
                            *u,
                        ) && (forall|j: int|
                            0 <= j < old(self).sources().len() && j != i
                                ==> final(self).sources()[j] == old(self).sources()[j])
                },
                Ok(false) => {
                    &&& *final(self) == *old(self)
                    &&& forall|i: int|
                        0 <= i < old(self).sources().len() ==> (#[trigger] old(
                            self,
                        ).sources()[i]).id != id
                },
                Err(e) => {
                    &&& *final(self) == *old(self)
                    &&& exists|i: int|
                        0 <= i < old(self).sources().len() && (#[trigger] old(
                            self,
                        ).sources()[i]).id == id && spec_update_source_err(
                            old(self).sources(),
                            old(self).source_paths(),
                            old(self).sources()[i],
                            *u,
                        ) == Some(e)
                },
            },
    {
        let idx = match self.find_source(id) {
            Some(i) => i,
            None => {
                return Ok(false);
            },
        };
        proof {
            let ss = self.sources();
            assert forall|i: int| 0 <= i < ss.len() && i != idx implies (#[trigger] ss[i]).id
                != ss[idx as int].id by {
                if i < idx {
                    assert(ss[i].id < ss[idx as int].id);
                } else {
                    assert(ss[idx as int].id < ss[i].id);
                }
            }
        }
        if let Some(v) = &u.name {
            if let Err(e) = require_non_empty(v.as_str()) {
                return Err(e);
            }
        }
        if let Some(v) = &u.caldav_url {
            if let Err(e) = require_non_empty(v.as_str()) {
                return Err(e);
            }
        }
        if let Some(v) = &u.username {
            if let Err(e) = require_non_empty(v.as_str()) {
                return Err(e);
            }
        }
        if let Some(v) = &u.ics_path {
            if let Err(e) = require_non_empty(v.as_str()) {
                return Err(e);
            }
            if let Err(e) = validate_ics_path(v.as_str()) {
                return Err(e);
            }
        }
        if let Some(v) = u.sync_interval_secs {
            if let Err(e) = require_non_negative(v) {
                return Err(e);
            }
        }
        if let Some(v) = &u.ics_path {
            if self.src_taken(v.as_str(), Some(id)) {
                return Err(StoreError::DuplicatePath);
            }
            if self.alias_taken(v.as_str(), None) {
                return Err(StoreError::PathConflict);
            }
        }
        let eff_gate = match u.public_ics {
            Some(g) => g,
            None => self.sources[idx].public_ics,
        };
        let mut eff_pp: Option<String> = None;
        if eff_gate {
            match &u.public_ics_path {
                Some(p) => {
                    if !is_blank(p.as_str()) {
                        match self.validate_public_path(p.as_str(), Some(id)) {
                            Ok(t) => {
                                eff_pp = Some(t);
                            },
                            Err(e) => {
                                return Err(e);
                            },
                        }
                    }
                },
                None => {
                    eff_pp = clone_opt_string(&self.sources[idx].public_ics_path);
                },
            }
        }
        let same = match &eff_pp {
            Some(t) => {
                let eff_ics_eq = match &u.ics_path {
                    Some(v) => str_eq(t.as_str(), v.as_str()),
                    None => str_eq(t.as_str(), self.sources[idx].ics_path.as_str()),
                };
                eff_ics_eq
            },
            None => false,
        };
        if same {
            return Err(StoreError::SamePath);
        }
        let os = self.sources.remove(idx);
        let ns = Source {
            id: os.id,
            name: match &u.name {
                Some(v) => v.clone(),
                None => os.name,
            },
            caldav_url: match &u.caldav_url {
                Some(v) => v.clone(),
                None => os.caldav_url,
            },
            username: match &u.username {
                Some(v) => v.clone(),
                None => os.username,
            },
            password: match &u.password {
                Some(p) => if is_blank(p.as_str()) {
                    os.password
                } else {
                    p.clone()
                },
                None => os.password,
            },
            ics_path: match &u.ics_path {
                Some(v) => v.clone(),
                None => os.ics_path,
            },
            sync_interval_secs: match u.sync_interval_secs {
                Some(v) => v,
                None => os.sync_interval_secs,
            },
            last_synced: os.last_synced,
            last_sync_status: os.last_sync_status,
            last_sync_error: os.last_sync_error,
            created_at: os.created_at,
            public_ics: eff_gate,
            public_ics_path: eff_pp,
        };
        proof {
            let ss = old(self).sources();
            let sps = old(self).source_paths();
            let osv = ss[idx as int];
            assert(spec_source_updated(ns, osv, *u));
            assert(spec_update_source_err(ss, sps, osv, *u) is None);
            lemma_paths_ok_update_source(ss, sps, idx as int, ns);
        }
        self.sources.insert(idx, ns);
        proof {
            let ss = self.sources();
            let oss = old(self).sources();
            oss.remove_ensures(idx as int);
            oss.remove(idx as int).insert_ensures(idx as int, ns);
            assert(ss[idx as int] == ns);
            assert(forall|j: int| 0 <= j < oss.len() && j != idx ==> ss[j] == oss[j]);
            assert(ss =~= oss.update(idx as int, ns));
            assert(self.destinations() == old(self).destinations());
            assert(self.source_paths() == old(self).source_paths());
            assert(self.blobs() == old(self).blobs());
            assert forall|i: int, j: int| 0 <= i < j < ss.len() implies (#[trigger] ss[i]).id < (
            #[trigger] ss[j]).id by {
                assert(oss[i].id < oss[j].id);
                assert(ss[i].id == oss[i].id && ss[j].id == oss[j].id);
            }
            assert forall|i: int| 0 <= i < ss.len() implies 0 < (#[trigger] ss[i]).id < self
                .next_source_id() by {
                assert(ss[i].id == oss[i].id);
            }
        }
        Ok(true)
    }

    /// Stamp a source's last-synced time; an unknown id changes nothing.
    pub fn update_last_synced(&mut self, id: i64, now: &str) -> (r: Result<(), StoreError>)
        requires
            old(self).wf(),
        ensures
            r is Ok,
            final(self).wf(),
            final(self).destinations() == old(self).destinations(),
            final(self).source_paths() == old(self).source_paths(),
            final(self).blobs() == old(self).blobs(),
            final(self).next_source_id() == old(self).next_source_id(),
            final(self).sources().len() == old(self).sources().len(),
            (forall|i: int|
                0 <= i < old(self).sources().len() ==> (#[trigger] old(self).sources()[i]).id
                    != id) ==> *final(self) == *old(self),
            forall|i: int|
                0 <= i < old(self).sources().len() && (#[trigger] old(self).sources()[i]).id == id
                    ==> {
                    let ns = final(self).sources()[i];
                    let os = old(self).sources()[i];
                    &&& ns.last_synced is Some && ns.last_synced->0@ == now@
                    &&& ns.id == os.id && ns.name == os.name && ns.caldav_url == os.caldav_url
                        && ns.username == os.username && ns.password == os.password && ns.ics_path
                        == os.ics_path && ns.sync_interval_secs == os.sync_interval_secs
                        && ns.last_sync_status == os.last_sync_status && ns.last_sync_error
                        == os.last_sync_error && ns.created_at == os.created_at && ns.public_ics
                        == os.public_ics && ns.public_ics_path == os.public_ics_path
                },
            forall|i: int|
                0 <= i < old(self).sources().len() && (#[trigger] old(self).sources()[i]).id != id
                    ==> final(self).sources()[i] == old(self).sources()[i],
    {
        let idx = match self.find_source(id) {
            Some(i) => i,
            None => {
                return Ok(());
            },
        };
        let os = self.sources.remove(idx);
        let ns = Source { last_synced: Some(now.to_owned()), ..os };
        self.sources.insert(idx, ns);
        proof {
            self.lemma_source_field_update(*old(self), idx as int, ns, id);
        }
        Ok(())
    }

    /// Stamp a source's sync status and error text; an unknown id changes
    /// nothing.
    pub fn update_sync_status(
        &mut self,
        id: i64,
        status: &str,
        error: Option<&str>,
    ) -> (r: Result<(), StoreError>)
        requires
            old(self).wf(),
        ensures
            r is Ok,
            final(self).wf(),
            final(self).destinations() == old(self).destinations(),
            final(self).source_paths() == old(self).source_paths(),
            final(self).blobs() == old(self).blobs(),
            final(self).next_source_id() == old(self).next_source_id(),
            final(self).sources().len() == old(self).sources().len(),
            (forall|i: int|
                0 <= i < old(self).sources().len() ==> (#[trigger] old(self).sources()[i]).id
                    != id) ==> *final(self) == *old(self),
            forall|i: int|
                0 <= i < old(self).sources().len() && (#[trigger] old(self).sources()[i]).id == id
                    ==> {
                    let ns = final(self).sources()[i];
                    let os = old(self).sources()[i];
                    &&& ns.last_sync_status is Some && ns.last_sync_status->0@ == status@
                    &&& (match (ns.last_sync_error, error) {
                        (Some(a), Some(b)) => a@ == b@,
                        (None, None) => true,
                        _ => false,
                    })
                    &&& ns.id == os.id && ns.name == os.name && ns.caldav_url == os.caldav_url
                        && ns.username == os.username && ns.password == os.password && ns.ics_path
                        == os.ics_path && ns.sync_interval_secs == os.sync_interval_secs
                        && ns.last_synced == os.last_synced && ns.created_at == os.created_at
                        && ns.public_ics == os.public_ics && ns.public_ics_path
                        == os.public_ics_path
                },
            forall|i: int|
                0 <= i < old(self).sources().len() && (#[trigger] old(self).sources()[i]).id != id
                    ==> final(self).sources()[i] == old(self).sources()[i],
    {
        let idx = match self.find_source(id) {
            Some(i) => i,
            None => {
                return Ok(());
            },
        };
        let os = self.sources.remove(idx);
        let ns = Source {
            last_sync_status: Some(status.to_owned()),
            last_sync_error: match error {
                Some(e) => Some(e.to_owned()),
                None => None,
            },
            ..os
        };
        self.sources.insert(idx, ns);
        proof {
            self.lemma_source_field_update(*old(self), idx as int, ns, id);
        }
        Ok(())
    }

    /// After replacing the source at `idx` with one whose id and path
    /// fields are unchanged, the store is still well formed, the other rows
    /// are untouched, and `idx` is the only row carrying `id`.
    proof fn lemma_source_field_update(self, prev: Store, idx: int, ns: Source, id: i64)
        requires
            prev.wf(),
            0 <= idx < prev.sources().len(),
            prev.sources()[idx].id == id,
            self.sources() == prev.sources().remove(idx).insert(idx, ns),
            ns.id == prev.sources()[idx].id,
            ns.ics_path == prev.sources()[idx].ics_path,
            ns.public_ics_path == prev.sources()[idx].public_ics_path,
            ns.public_ics == prev.sources()[idx].public_ics,
            self.source_paths() == prev.source_paths(),
            self.destinations() == prev.destinations(),
            self.blobs() == prev.blobs(),
            self.next_source_id() == prev.next_source_id(),
            self.next_source_path_id() == prev.next_source_path_id(),
            self.next_destination_id() == prev.next_destination_id(),
        ensures
            self.wf(),
            self.sources().len() == prev.sources().len(),
            self.sources()[idx] == ns,
            forall|j: int|
                0 <= j < prev.sources().len() && j != idx ==> self.sources()[j]
                    == prev.sources()[j],
            forall|i: int|
                0 <= i < prev.sources().len() && (#[trigger] prev.sources()[i]).id == id ==> i
                    == idx,
    {
        let ss = self.sources();
        let oss = prev.sources();
        oss.remove_ensures(idx);
        oss.remove(idx).insert_ensures(idx, ns);
        assert(ss[idx] == ns);
        assert(forall|j: int| 0 <= j < oss.len() && j != idx ==> ss[j] == oss[j]);
        assert forall|i: int| 0 <= i < oss.len() && (#[trigger] oss[i]).id == id implies i
            == idx by {
            if i < idx {
                assert(oss[i].id < oss[idx].id);
            } else if i > idx {
                assert(oss[idx].id < oss[i].id);
            }
        }
        assert forall|i: int, j: int| 0 <= i < j < ss.len() implies (#[trigger] ss[i]).id < (
        #[trigger] ss[j]).id by {
            assert(oss[i].id < oss[j].id);
            assert(ss[i].id == oss[i].id && ss[j].id == oss[j].id);
        }
        assert forall|i: int| 0 <= i < ss.len() implies 0 < (#[trigger] ss[i]).id < self
            .next_source_id() by {
            assert(ss[i].id == oss[i].id);
        }
        lemma_paths_ok_same_paths(oss, ss, self.source_paths());
    }
}

} // verus!
// ---------------------------------------------------------------------------
// Source deletion and its cascade
// ---------------------------------------------------------------------------

verus! {

/// The extra paths that survive deleting a source.
pub open spec fn spec_drop_paths(sps: Seq<SourcePath>, sid: i64) -> Seq<SourcePath>
    decreases sps.len(),
{
    if sps.len() == 0 {
        Seq::empty()
    } else {
        let rest = spec_drop_paths(sps.drop_last(), sid);
        if sps.last().source_id != sid {
            rest.push(sps.last())
        } else {
            rest
        }
    }
}

/// The blobs that survive deleting a source.
pub open spec fn spec_drop_blobs(bs: Seq<IcsBlob>, sid: i64) -> Seq<IcsBlob>
    decreases bs.len(),
{
    if bs.len() == 0 {
        Seq::empty()
    } else {
        let rest = spec_drop_blobs(bs.drop_last(), sid);
        if bs.last().source_id != sid {
            rest.push(bs.last())
        } else {
            rest
        }
    }
}

/// The filtered path table is an order-preserving selection of the old one.
proof fn lemma_drop_paths_pairs(sps: Seq<SourcePath>, sid: i64)
    ensures
        spec_drop_paths(sps, sid).len() <= sps.len(),
        forall|k: int|
            0 <= k < spec_drop_paths(sps, sid).len() ==> exists|j: int|
                0 <= j < sps.len() && (#[trigger] spec_drop_paths(sps, sid)[k]) == sps[j],
        forall|k1: int, k2: int|
            0 <= k1 < k2 < spec_drop_paths(sps, sid).len() ==> exists|j1: int, j2: int|
                0 <= j1 < j2 < sps.len() && (#[trigger] spec_drop_paths(sps, sid)[k1]) == sps[j1]
                    && (#[trigger] spec_drop_paths(sps, sid)[k2]) == sps[j2],
    decreases sps.len(),
{
    let r = spec_drop_paths(sps, sid);
    if sps.len() == 0 {
    } else {
        let t = sps.drop_last();
        let rt = spec_drop_paths(t, sid);
        lemma_drop_paths_pairs(t, sid);
        assert(forall|j: int| 0 <= j < t.len() ==> #[trigger] t[j] == sps[j]);
        if sps.last().source_id != sid {
            assert(r == rt.push(sps.last()));
            assert forall|k: int| 0 <= k < r.len() implies exists|j: int|
                0 <= j < sps.len() && (#[trigger] r[k]) == sps[j] by {
                if k < rt.len() {
                    assert(r[k] == rt[k]);
                    let j = choose|j: int| 0 <= j < t.len() && rt[k] == t[j];
                    assert(r[k] == sps[j]);
                } else {
                    assert(r[k] == sps[sps.len() - 1]);
                }
            }
            assert forall|k1: int, k2: int| 0 <= k1 < k2 < r.len() implies exists|
                j1: int,
                j2: int,
            |
                0 <= j1 < j2 < sps.len() && (#[trigger] r[k1]) == sps[j1] && (#[trigger] r[k2])
                    == sps[j2] by {
                if k2 < rt.len() {
                    assert(r[k1] == rt[k1] && r[k2] == rt[k2]);
                    let (j1, j2) = choose|j1: int, j2: int|
                        0 <= j1 < j2 < t.len() && rt[k1] == t[j1] && rt[k2] == t[j2];
                    assert(r[k1] == sps[j1] && r[k2] == sps[j2]);
                } else {
                    assert(r[k2] == sps[sps.len() - 1]);
                    assert(r[k1] == rt[k1]);
                    let j1 = choose|j: int| 0 <= j < t.len() && rt[k1] == t[j];
                    assert(r[k1] == sps[j1]);
                    assert(j1 < sps.len() - 1);
                }
            }
        } else {
            assert(r == rt);
            assert forall|k: int| 0 <= k < r.len() implies exists|j: int|
                0 <= j < sps.len() && (#[trigger] r[k]) == sps[j] by {
                let j = choose|j: int| 0 <= j < t.len() && rt[k] == t[j];
                assert(r[k] == sps[j]);
            }
            assert forall|k1: int, k2: int| 0 <= k1 < k2 < r.len() implies exists|
                j1: int,
                j2: int,
            |
                0 <= j1 < j2 < sps.len() && (#[trigger] r[k1]) == sps[j1] && (#[trigger] r[k2])
                    == sps[j2] by {
                let (j1, j2) = choose|j1: int, j2: int|
                    0 <= j1 < j2 < t.len() && rt[k1] == t[j1] && rt[k2] == t[j2];
                assert(r[k1] == sps[j1] && r[k2] == sps[j2]);
            }
        }
    }
}

/// The filtered blob table is an order-preserving selection of the old one.
proof fn lemma_drop_blobs_pairs(bs: Seq<IcsBlob>, sid: i64)
    ensures
        forall|k1: int, k2: int|
            0 <= k1 < k2 < spec_drop_blobs(bs, sid).len() ==> exists|j1: int, j2: int|
                0 <= j1 < j2 < bs.len() && (#[trigger] spec_drop_blobs(bs, sid)[k1]) == bs[j1]
                    && (#[trigger] spec_drop_blobs(bs, sid)[k2]) == bs[j2],
    decreases bs.len(),
{
    let r = spec_drop_blobs(bs, sid);
    if bs.len() == 0 {
    } else {
        let t = bs.drop_last();
        let rt = spec_drop_blobs(t, sid);
        lemma_drop_blobs_pairs(t, sid);
        assert(forall|j: int| 0 <= j < t.len() ==> #[trigger] t[j] == bs[j]);
        assert forall|k: int| 0 <= k < rt.len() implies exists|j: int|
            0 <= j < t.len() && (#[trigger] rt[k]) == t[j] by {
            lemma_drop_blobs_single(t, sid, k);
        }
        if bs.last().source_id != sid {
            assert(r == rt.push(bs.last()));
            assert forall|k1: int, k2: int| 0 <= k1 < k2 < r.len() implies exists|
                j1: int,
                j2: int,
            |
                0 <= j1 < j2 < bs.len() && (#[trigger] r[k1]) == bs[j1] && (#[trigger] r[k2])
                    == bs[j2] by {
                if k2 < rt.len() {
                    assert(r[k1] == rt[k1] && r[k2] == rt[k2]);
                    let (j1, j2) = choose|j1: int, j2: int|
                        0 <= j1 < j2 < t.len() && rt[k1] == t[j1] && rt[k2] == t[j2];
                    assert(r[k1] == bs[j1] && r[k2] == bs[j2]);
                } else {
                    assert(r[k2] == bs[bs.len() - 1]);
                    assert(r[k1] == rt[k1]);
                    let j1 = choose|j: int| 0 <= j < t.len() && rt[k1] == t[j];
                    assert(r[k1] == bs[j1]);
                }
            }
        } else {
            assert(r == rt);
            assert forall|k1: int, k2: int| 0 <= k1 < k2 < r.len() implies exists|
                j1: int,
                j2: int,
            |
                0 <= j1 < j2 < bs.len() && (#[trigger] r[k1]) == bs[j1] && (#[trigger] r[k2])
                    == bs[j2] by {
                let (j1, j2) = choose|j1: int, j2: int|
                    0 <= j1 < j2 < t.len() && rt[k1] == t[j1] && rt[k2] == t[j2];
                assert(r[k1] == bs[j1] && r[k2] == bs[j2]);
            }
        }
    }
}

proof fn lemma_drop_blobs_single(bs: Seq<IcsBlob>, sid: i64, k: int)
    requires
        0 <= k < spec_drop_blobs(bs, sid).len(),
    ensures
        exists|j: int| 0 <= j < bs.len() && spec_drop_blobs(bs, sid)[k] == bs[j],
    decreases bs.len(),
{
    let r = spec_drop_blobs(bs, sid);
    let t = bs.drop_last();
    let rt = spec_drop_blobs(t, sid);
    assert(forall|j: int| 0 <= j < t.len() ==> #[trigger] t[j] == bs[j]);
    if bs.last().source_id != sid && k == rt.len() {
        assert(r[k] == bs[bs.len() - 1]);
    } else {
        lemma_drop_blobs_single(t, sid, k);
        let j = choose|j: int| 0 <= j < t.len() && rt[k] == t[j];
        assert(r[k] == bs[j]);
    }
}

impl Store {
    /// Delete a source; its extra paths and blob go with it.
    /// `Ok(false)` when the id is unknown.
    pub fn delete_source(&mut self, id: i64) -> (r: Result<bool, StoreError>)
        requires
            old(self).wf(),
        ensures
            final(self).wf(),
            final(self).destinations() == old(self).destinations(),
            final(self).next_source_id() == old(self).next_source_id(),
            match r {
                Ok(true) => {
                    &&& exists|i: int|
                        0 <= i < old(self).sources().len() && (#[trigger] old(
                            self,
                        ).sources()[i]).id == id && final(self).sources() == old(
                            self,
                        ).sources().remove(i)
                    &&& final(self).source_paths() == spec_drop_paths(
                        old(self).source_paths(),
                        id,
                    )
                    &&& final(self).blobs() == spec_drop_blobs(old(self).blobs(), id)
                },
                Ok(false) => {
                    &&& *final(self) == *old(self)
                    &&& forall|i: int|
                        0 <= i < old(self).sources().len() ==> (#[trigger] old(
                            self,
                        ).sources()[i]).id != id
                },
                Err(_) => false,
            },
    {
        let idx = match self.find_source(id) {
            Some(i) => i,
            None => {
                return Ok(false);
            },
        };
        self.sources.remove(idx);
        let mut kept_paths: Vec<SourcePath> = Vec::new();
        let mut k: usize = 0;
        let ghost osps = old(self).source_paths();
        proof {
            assert(osps.take(0) =~= Seq::<SourcePath>::empty());
            assert(kept_paths@ =~= spec_drop_paths(osps.take(0), id));
        }
        while k < self.source_paths.len()
            invariant
                0 <= k <= osps.len(),
                self.source_paths@ == osps,
                kept_paths@ =~= spec_drop_paths(osps.take(k as int), id),
            decreases osps.len() - k,
        {
            proof {
                assert(osps.take(k + 1).drop_last() =~= osps.take(k as int));
                assert(osps.take(k + 1).last() == osps[k as int]);
            }
            if self.source_paths[k].source_id != id {
                kept_paths.push(clone_source_path(&self.source_paths[k]));
            }
            k = k + 1;
        }
        proof {
            assert(osps.take(osps.len() as int) =~= osps);
        }
        self.source_paths = kept_paths;
        let mut kept_blobs: Vec<IcsBlob> = Vec::new();
        let mut b: usize = 0;
        let ghost obs = old(self).blobs();
        proof {
            assert(obs.take(0) =~= Seq::<IcsBlob>::empty());
            assert(kept_blobs@ =~= spec_drop_blobs(obs.take(0), id));
        }
        while b < self.blobs.len()
            invariant
                0 <= b <= obs.len(),
                self.blobs@ == obs,
                kept_blobs@ =~= spec_drop_blobs(obs.take(b as int), id),
            decreases obs.len() - b,
        {
            proof {
                assert(obs.take(b + 1).drop_last() =~= obs.take(b as int));
                assert(obs.take(b + 1).last() == obs[b as int]);
            }
            if self.blobs[b].source_id != id {
                kept_blobs.push(
                    IcsBlob {
                        source_id: self.blobs[b].source_id,
                        content: self.blobs[b].content.clone(),
                        updated_at: self.blobs[b].updated_at.clone(),
                    },
                );
            }
            b = b + 1;
        }
        proof {
            assert(obs.take(obs.len() as int) =~= obs);
        }
        self.blobs = kept_blobs;
        proof {
            let oss = old(self).sources();
            let ss = self.sources();
            let sps = self.source_paths();
            let bs = self.blobs();
            oss.remove_ensures(idx as int);
            assert(ss =~= oss.remove(idx as int));
            lemma_drop_paths_pairs(osps, id);
            lemma_drop_blobs_pairs(obs, id);
            // source ids stay increasing and bounded
            assert forall|p: int, q: int| 0 <= p < q < ss.len() implies (#[trigger] ss[p]).id < (
            #[trigger] ss[q]).id by {
                let p0 = if p < idx { p } else { p + 1 };
                let q0 = if q < idx { q } else { q + 1 };
                assert(ss[p] == oss[p0] && ss[q] == oss[q0]);
            }
            assert forall|p: int| 0 <= p < ss.len() implies 0 < (#[trigger] ss[p]).id < self
                .next_source_id() by {
                let p0 = if p < idx { p } else { p + 1 };
                assert(ss[p] == oss[p0]);
            }
            // path ids stay increasing and bounded
            assert forall|p: int, q: int| 0 <= p < q < sps.len() implies (#[trigger] sps[p]).id
                < (#[trigger] sps[q]).id by {
                let (j1, j2) = choose|j1: int, j2: int|
                    0 <= j1 < j2 < osps.len() && sps[p] == osps[j1] && sps[q] == osps[j2];
                assert(osps[j1].id < osps[j2].id);
            }
            assert forall|p: int| 0 <= p < sps.len() implies 0 < (#[trigger] sps[p]).id < self
                .next_source_path_id() by {
                let j = choose|j: int| 0 <= j < osps.len() && sps[p] == osps[j];
                assert(0 < osps[j].id < old(self).next_source_path_id());
            }
            // blob keys stay distinct
            assert forall|p: int, q: int| 0 <= p < q < bs.len() implies (
            #[trigger] bs[p]).source_id != (#[trigger] bs[q]).source_id by {
                let (j1, j2) = choose|j1: int, j2: int|
                    0 <= j1 < j2 < obs.len() && bs[p] == obs[j1] && bs[q] == obs[j2];
                assert(obs[j1].source_id != obs[j2].source_id);
            }
            // the path namespace only shrank
            assert forall|p: int, q: int| 0 <= p < q < ss.len() implies (
            #[trigger] ss[p]).ics_path@ != (#[trigger] ss[q]).ics_path@ by {
                let p0 = if p < idx { p } else { p + 1 };
                let q0 = if q < idx { q } else { q + 1 };
                assert(ss[p] == oss[p0] && ss[q] == oss[q0]);
            }
            assert forall|p: int, q: int| 0 <= p < ss.len() && 0 <= q < ss.len() implies !opt_is(
                (#[trigger] ss[q]).public_ics_path,
                (#[trigger] ss[p]).ics_path@,
            ) by {
                let p0 = if p < idx { p } else { p + 1 };
                let q0 = if q < idx { q } else { q + 1 };
                assert(ss[p] == oss[p0] && ss[q] == oss[q0]);
            }
            assert forall|p: int, q: int| 0 <= p < q < ss.len() implies !((
            #[trigger] ss[p]).public_ics_path is Some && (#[trigger] ss[q]).public_ics_path
                is Some && ss[p].public_ics_path->0@ == ss[q].public_ics_path->0@) by {
                let p0 = if p < idx { p } else { p + 1 };
                let q0 = if q < idx { q } else { q + 1 };
                assert(ss[p] == oss[p0] && ss[q] == oss[q0]);
            }
            assert forall|p: int, q: int| 0 <= p < ss.len() && 0 <= q < sps.len() implies (
            #[trigger] sps[q]).path@ != (#[trigger] ss[p]).ics_path@ && !opt_is(
                ss[p].public_ics_path,
                sps[q].path@,
            ) by {
                let p0 = if p < idx { p } else { p + 1 };
                let j = choose|j: int| 0 <= j < osps.len() && sps[q] == osps[j];
                assert(ss[p] == oss[p0]);
                assert(osps[j].path@ != oss[p0].ics_path@ && !opt_is(
                    oss[p0].public_ics_path,
                    osps[j].path@,
                ));
            }
            assert forall|p: int, q: int| 0 <= p < q < sps.len() implies (
            #[trigger] sps[p]).path@ != (#[trigger] sps[q]).path@ by {
                let (j1, j2) = choose|j1: int, j2: int|
                    0 <= j1 < j2 < osps.len() && sps[p] == osps[j1] && sps[q] == osps[j2];
                assert(osps[j1].path@ != osps[j2].path@);
            }
            assert forall|p: int| 0 <= p < ss.len() implies !spec_reserved(
                (#[trigger] ss[p]).ics_path@,
            ) && ((#[trigger] ss[p]).public_ics_path is Some ==> !spec_reserved(
                ss[p].public_ics_path->0@,
            )) && !opt_is(ss[p].public_ics_path, ss[p].ics_path@) && (!ss[p].public_ics
                ==> ss[p].public_ics_path is None) by {
                let p0 = if p < idx { p } else { p + 1 };
                assert(ss[p] == oss[p0]);
            }
            assert forall|p: int| 0 <= p < sps.len() implies !spec_reserved(
                (#[trigger] sps[p]).path@,
            ) by {
                let j = choose|j: int| 0 <= j < osps.len() && sps[p] == osps[j];
                assert(!spec_reserved(osps[j].path@));
            }
        }
        Ok(true)
    }
}

} // verus!
// ---------------------------------------------------------------------------
// ICS blobs and the serving queries
// ---------------------------------------------------------------------------

verus! {

/// The blob stored for a source id, scanned from the front.
pub open spec fn spec_blob_for(bs: Seq<IcsBlob>, sid: i64) -> Option<Seq<char>>
    decreases bs.len(),
{
    if bs.len() == 0 {
        None
    } else if bs[0].source_id == sid {
        Some(bs[0].content@)
    } else {
        spec_blob_for(bs.drop_first(), sid)
    }
}

proof fn lemma_blob_for_found(bs: Seq<IcsBlob>, sid: i64, i: int)
    requires
        0 <= i < bs.len(),
        bs[i].source_id == sid,
        forall|k: int| 0 <= k < i ==> (#[trigger] bs[k]).source_id != sid,
    ensures
        spec_blob_for(bs, sid) == Some(bs[i].content@),
    decreases bs.len(),
{
    if i > 0 {
        let t = bs.drop_first();
        assert(forall|k: int| 0 <= k < i - 1 ==> #[trigger] t[k] == bs[k + 1]);
        assert(t[i - 1] == bs[i]);
        lemma_blob_for_found(t, sid, i - 1);
    }
}

proof fn lemma_blob_for_absent(bs: Seq<IcsBlob>, sid: i64)
    requires
        forall|k: int| 0 <= k < bs.len() ==> (#[trigger] bs[k]).source_id != sid,
    ensures
        spec_blob_for(bs, sid) is None,
    decreases bs.len(),
{
    if bs.len() > 0 {
        let t = bs.drop_first();
        assert(forall|k: int| 0 <= k < t.len() ==> #[trigger] t[k] == bs[k + 1]);
        lemma_blob_for_absent(t, sid);
    }
}

/// The first source serving `p`, scanned from the front.
pub open spec fn spec_source_for_path(ss: Seq<Source>, p: Seq<char>) -> Option<i64>
    decreases ss.len(),
{
    if ss.len() == 0 {
        None
    } else if ss[0].ics_path@ == p {
        Some(ss[0].id)
    } else {
        spec_source_for_path(ss.drop_first(), p)
    }
}

/// The first extra path equal to `p`, scanned from the front.
pub open spec fn spec_alias_for_path(sps: Seq<SourcePath>, p: Seq<char>) -> Option<i64>
    decreases sps.len(),
{
    if sps.len() == 0 {
        None
    } else if sps[0].path@ == p {
        Some(sps[0].source_id)
    } else {
        spec_alias_for_path(sps.drop_first(), p)
    }
}

/// The first source whose enabled public alias is `p`.
pub open spec fn spec_source_for_public_path(ss: Seq<Source>, p: Seq<char>) -> Option<i64>
    decreases ss.len(),
{
    if ss.len() == 0 {
        None
    } else if ss[0].public_ics && opt_is(ss[0].public_ics_path, p) {
        Some(ss[0].id)
    } else {
        spec_source_for_public_path(ss.drop_first(), p)
    }
}

/// The first public extra path equal to `p`.
pub open spec fn spec_alias_for_public_path(sps: Seq<SourcePath>, p: Seq<char>) -> Option<i64>
    decreases sps.len(),
{
    if sps.len() == 0 {
        None
    } else if sps[0].is_public && sps[0].path@ == p {
        Some(sps[0].source_id)
    } else {
        spec_alias_for_public_path(sps.drop_first(), p)
    }
}

/// What serving `p` returns: the blob of the source whose serving path is
/// `p`, else the blob behind an extra path equal to `p`.
pub open spec fn spec_blob_by_path(
    ss: Seq<Source>,
    sps: Seq<SourcePath>,
    bs: Seq<IcsBlob>,
    p: Seq<char>,
) -> Option<Seq<char>> {
    match spec_source_for_path(ss, p) {
        Some(sid) => spec_blob_for(bs, sid),
        None => match spec_alias_for_path(sps, p) {
            Some(sid) => spec_blob_for(bs, sid),
            None => None,
        },
    }
}

/// What the anonymous route serves for `p`: only enabled public aliases and
/// public extra paths resolve.
pub open spec fn spec_blob_by_public_path(
    ss: Seq<Source>,
    sps: Seq<SourcePath>,
    bs: Seq<IcsBlob>,
    p: Seq<char>,
) -> Option<Seq<char>> {
    match spec_source_for_public_path(ss, p) {
        Some(sid) => spec_blob_for(bs, sid),
        None => match spec_alias_for_public_path(sps, p) {
            Some(sid) => spec_blob_for(bs, sid),
            None => None,
        },
    }
}

/// Does `p` resolve anonymously on the standard route: a source whose
/// serving path is `p`, public and without a custom alias, or a public
/// extra path?
pub open spec fn spec_is_public_standard(
    ss: Seq<Source>,
    sps: Seq<SourcePath>,
    p: Seq<char>,
) -> bool {
    (exists|i: int|
        0 <= i < ss.len() && (#[trigger] ss[i]).ics_path@ == p && ss[i].public_ics && (
        ss[i].public_ics_path is None || ss[i].public_ics_path->0@ == Seq::<char>::empty())) || (
    exists|j: int|
        0 <= j < sps.len() && (#[trigger] sps[j]).path@ == p && sps[j].is_public)
}

impl Store {
    /// Store or replace a source's aggregated ICS text; the source must
    /// exist.
    pub fn save_ics_data(&mut self, source_id: i64, content: &str, now: &str) -> (r: Result<
        (),
        StoreError,
    >)
        requires
            old(self).wf(),
        ensures
            final(self).wf(),
            final(self).sources() == old(self).sources(),
            final(self).source_paths() == old(self).source_paths(),
            final(self).destinations() == old(self).destinations(),
            match r {
                Ok(_) => {
                    &&& exists|i: int|
                        0 <= i < old(self).sources().len() && (#[trigger] old(
                            self,
                        ).sources()[i]).id == source_id
                    &&& spec_blob_for(final(self).blobs(), source_id) == Some(content@)
                    &&& exists|i: int|
                        0 <= i < final(self).blobs().len() && (#[trigger] final(self).blobs()[i]).source_id
                            == source_id && final(self).blobs()[i].content@ == content@
                            && final(self).blobs()[i].updated_at@ == now@
                    &&& forall|sid: i64|
                        sid != source_id ==> #[trigger] spec_blob_for(final(self).blobs(), sid)
                            == spec_blob_for(old(self).blobs(), sid)
                },
                Err(e) => {
                    &&& e == StoreError::NotFound
                    &&& *final(self) == *old(self)
                    &&& forall|i: int|
                        0 <= i < old(self).sources().len() ==> (#[trigger] old(
                            self,
                        ).sources()[i]).id != source_id
                },
            },
    {
        if self.find_source(source_id).is_none() {
            return Err(StoreError::NotFound);
        }
        let nb = IcsBlob { source_id, content: content.to_owned(), updated_at: now.to_owned() };
        match self.find_blob(source_id) {
            Some(i) => {
                self.blobs.remove(i);
                self.blobs.insert(i, nb);
                proof {
                    let bs = self.blobs();
                    let obs = old(self).blobs();
                    obs.remove_ensures(i as int);
                    obs.remove(i as int).insert_ensures(i as int, nb);
                    assert(bs[i as int] == nb);
                    assert(forall|j: int| 0 <= j < obs.len() && j != i ==> bs[j] == obs[j]);
                    assert forall|p: int, q: int| 0 <= p < q < bs.len() implies (
                    #[trigger] bs[p]).source_id != (#[trigger] bs[q]).source_id by {
                        assert(bs[p].source_id == obs[p].source_id);
                        assert(bs[q].source_id == obs[q].source_id);
                    }
                    assert forall|k: int|
                        0 <= k < i implies (#[trigger] bs[k]).source_id != source_id by {
                        assert(obs[k].source_id != obs[i as int].source_id);
                    }
                    lemma_blob_for_found(bs, source_id, i as int);
                    assert forall|sid: i64| sid != source_id implies #[trigger] spec_blob_for(
                        bs,
                        sid,
                    ) == spec_blob_for(obs, sid) by {
                        lemma_blob_for_frame(obs, bs, sid);
                    }
                }
            },
            None => {
                self.blobs.push(nb);
                proof {
                    let bs = self.blobs();
                    let obs = old(self).blobs();
                    assert(bs =~= obs.push(nb));
                    assert(forall|j: int| 0 <= j < obs.len() ==> #[trigger] bs[j] == obs[j]);
                    assert forall|p: int, q: int| 0 <= p < q < bs.len() implies (
                    #[trigger] bs[p]).source_id != (#[trigger] bs[q]).source_id by {
                        if q == obs.len() {
                            assert(obs[p].source_id != source_id);
                        }
                    }
                    assert forall|k: int|
                        0 <= k < obs.len() implies (#[trigger] bs[k]).source_id != source_id by {
                        assert(obs[k].source_id != source_id);
                    }
                    lemma_blob_for_found(bs, source_id, obs.len() as int);
                    assert forall|sid: i64| sid != source_id implies #[trigger] spec_blob_for(
                        bs,
                        sid,
                    ) == spec_blob_for(obs, sid) by {
                        lemma_blob_for_frame(obs, bs, sid);
                    }
                }
            },
        }
        Ok(())
    }

    /// The stored blob of a source.
    pub fn get_ics_data(&self, source_id: i64) -> (r: Result<Option<String>, StoreError>)
        ensures
            r is Ok,
            match r->Ok_0 {
                Some(s) => spec_blob_for(self.blobs(), source_id) == Some(s@),
                None => spec_blob_for(self.blobs(), source_id) is None,
            },
    {
        match self.find_blob(source_id) {
            Some(i) => {
                proof {
                    lemma_blob_for_found(self.blobs(), source_id, i as int);
                }
                Ok(Some(self.blobs[i].content.clone()))
            },
            None => {
                proof {
                    lemma_blob_for_absent(self.blobs(), source_id);
                }
                Ok(None)
            },
        }
    }
}

/// A blob untouched for other keys resolves the same.
proof fn lemma_blob_for_frame(obs: Seq<IcsBlob>, bs: Seq<IcsBlob>, sid: i64)
    requires
        bs.len() == obs.len() || bs.len() == obs.len() + 1,
        forall|j: int| 0 <= j < obs.len() ==> ((#[trigger] bs[j]).source_id == obs[j].source_id),
        forall|j: int|
            0 <= j < obs.len() ==> ((#[trigger] bs[j]).source_id == sid ==> bs[j] == obs[j]),
        bs.len() == obs.len() + 1 ==> bs[obs.len() as int].source_id != sid,
    ensures
        spec_blob_for(bs, sid) == spec_blob_for(obs, sid),
    decreases obs.len(),
{
    if obs.len() == 0 {
        if bs.len() == 1 {
            assert(spec_blob_for(bs, sid) == spec_blob_for(bs.drop_first(), sid));
            assert(bs.drop_first().len() == 0);
        }
    } else {
        let tb = bs.drop_first();
        let to = obs.drop_first();
        assert(forall|j: int| 0 <= j < to.len() ==> #[trigger] to[j] == obs[j + 1]);
        assert(forall|j: int| 0 <= j < tb.len() ==> #[trigger] tb[j] == bs[j + 1]);
        if bs[0].source_id == sid {
            assert(bs[0] == obs[0]);
        } else {
            lemma_blob_for_frame(to, tb, sid);
        }
    }
}

} // verus!
// ---------------------------------------------------------------------------
// Serving-path resolution
// ---------------------------------------------------------------------------

verus! {

proof fn lemma_source_for_path_found(ss: Seq<Source>, p: Seq<char>, i: int)
    requires
        0 <= i < ss.len(),
        ss[i].ics_path@ == p,
        forall|k: int| 0 <= k < i ==> (#[trigger] ss[k]).ics_path@ != p,
    ensures
        spec_source_for_path(ss, p) == Some(ss[i].id),
    decreases ss.len(),
{
    if i > 0 {
        let t = ss.drop_first();
        assert(forall|k: int| 0 <= k < i - 1 ==> #[trigger] t[k] == ss[k + 1]);
        assert(t[i - 1] == ss[i]);
        lemma_source_for_path_found(t, p, i - 1);
    }
}

proof fn lemma_source_for_path_absent(ss: Seq<Source>, p: Seq<char>)
    requires
        forall|k: int| 0 <= k < ss.len() ==> (#[trigger] ss[k]).ics_path@ != p,
    ensures
        spec_source_for_path(ss, p) is None,
    decreases ss.len(),
{
    if ss.len() > 0 {
        let t = ss.drop_first();
        assert(forall|k: int| 0 <= k < t.len() ==> #[trigger] t[k] == ss[k + 1]);
        lemma_source_for_path_absent(t, p);
    }
}

proof fn lemma_alias_for_path_found(sps: Seq<SourcePath>, p: Seq<char>, i: int)
    requires
        0 <= i < sps.len(),
        sps[i].path@ == p,
        forall|k: int| 0 <= k < i ==> (#[trigger] sps[k]).path@ != p,
    ensures
        spec_alias_for_path(sps, p) == Some(sps[i].source_id),
    decreases sps.len(),
{
    if i > 0 {
        let t = sps.drop_first();
        assert(forall|k: int| 0 <= k < i - 1 ==> #[trigger] t[k] == sps[k + 1]);
        assert(t[i - 1] == sps[i]);
        lemma_alias_for_path_found(t, p, i - 1);
    }
}

proof fn lemma_alias_for_path_absent(sps: Seq<SourcePath>, p: Seq<char>)
    requires
        forall|k: int| 0 <= k < sps.len() ==> (#[trigger] sps[k]).path@ != p,
    ensures
        spec_alias_for_path(sps, p) is None,
    decreases sps.len(),
{
    if sps.len() > 0 {
        let t = sps.drop_first();
        assert(forall|k: int| 0 <= k < t.len() ==> #[trigger] t[k] == sps[k + 1]);
        lemma_alias_for_path_absent(t, p);
    }
}

proof fn lemma_source_for_public_found(ss: Seq<Source>, p: Seq<char>, i: int)
    requires
        0 <= i < ss.len(),
        ss[i].public_ics && opt_is(ss[i].public_ics_path, p),
        forall|k: int|
            0 <= k < i ==> !((#[trigger] ss[k]).public_ics && opt_is(ss[k].public_ics_path, p)),
    ensures
        spec_source_for_public_path(ss, p) == Some(ss[i].id),
    decreases ss.len(),
{
    if i > 0 {
        let t = ss.drop_first();
        assert(forall|k: int| 0 <= k < i - 1 ==> #[trigger] t[k] == ss[k + 1]);
        assert(t[i - 1] == ss[i]);
        lemma_source_for_public_found(t, p, i - 1);
    }
}

proof fn lemma_source_for_public_absent(ss: Seq<Source>, p: Seq<char>)
    requires
        forall|k: int|
            0 <= k < ss.len() ==> !((#[trigger] ss[k]).public_ics && opt_is(
                ss[k].public_ics_path,
                p,
            )),
    ensures
        spec_source_for_public_path(ss, p) is None,
    decreases ss.len(),
{
    if ss.len() > 0 {
        let t = ss.drop_first();
        assert(forall|k: int| 0 <= k < t.len() ==> #[trigger] t[k] == ss[k + 1]);
        lemma_source_for_public_absent(t, p);
    }
}

proof fn lemma_alias_for_public_found(sps: Seq<SourcePath>, p: Seq<char>, i: int)
    requires
        0 <= i < sps.len(),
        sps[i].is_public && sps[i].path@ == p,
        forall|k: int| 0 <= k < i ==> !((#[trigger] sps[k]).is_public && sps[k].path@ == p),
    ensures
        spec_alias_for_public_path(sps, p) == Some(sps[i].source_id),
    decreases sps.len(),
{
    if i > 0 {
        let t = sps.drop_first();
        assert(forall|k: int| 0 <= k < i - 1 ==> #[trigger] t[k] == sps[k + 1]);
        assert(t[i - 1] == sps[i]);
        lemma_alias_for_public_found(t, p, i - 1);
    }
}

proof fn lemma_alias_for_public_absent(sps: Seq<SourcePath>, p: Seq<char>)
    requires
        forall|k: int| 0 <= k < sps.len() ==> !((#[trigger] sps[k]).is_public && sps[k].path@ == p),
    ensures
        spec_alias_for_public_path(sps, p) is None,
    decreases sps.len(),
{
    if sps.len() > 0 {
        let t = sps.drop_first();
        assert(forall|k: int| 0 <= k < t.len() ==> #[trigger] t[k] == sps[k + 1]);
        lemma_alias_for_public_absent(t, p);
    }
}

impl Store {
    /// Resolve a serving path against `ics_path` and the extra paths.
    pub fn get_ics_data_by_path(&self, path: &str) -> (r: Result<Option<String>, StoreError>)
        ensures
            r is Ok,
            match r->Ok_0 {
                Some(s) => spec_blob_by_path(
                    self.sources(),
                    self.source_paths(),
                    self.blobs(),
                    path@,
                ) == Some(s@),
                None => spec_blob_by_path(
                    self.sources(),
                    self.source_paths(),
                    self.blobs(),
                    path@,
                ) is None,
            },
    {
        let mut i: usize = 0;
        while i < self.sources.len()
            invariant
                0 <= i <= self.sources().len(),
                forall|k: int| 0 <= k < i ==> (#[trigger] self.sources()[k]).ics_path@ != path@,
            decreases self.sources().len() - i,
        {
            if str_eq(self.sources[i].ics_path.as_str(), path) {
                proof {
                    lemma_source_for_path_found(self.sources(), path@, i as int);
                }
                return self.get_ics_data(self.sources[i].id);
            }
            i = i + 1;
        }
        proof {
            lemma_source_for_path_absent(self.sources(), path@);
        }
        let mut j: usize = 0;
        while j < self.source_paths.len()
            invariant
                0 <= j <= self.source_paths().len(),
                spec_source_for_path(self.sources(), path@) is None,
                forall|k: int| 0 <= k < j ==> (#[trigger] self.source_paths()[k]).path@ != path@,
            decreases self.source_paths().len() - j,
        {
            if str_eq(self.source_paths[j].path.as_str(), path) {
                proof {
                    lemma_alias_for_path_found(self.source_paths(), path@, j as int);
                }
                return self.get_ics_data(self.source_paths[j].source_id);
            }
            j = j + 1;
        }
        proof {
            lemma_alias_for_path_absent(self.source_paths(), path@);
        }
        Ok(None)
    }

    /// Resolve an anonymous path against enabled public aliases and public
    /// extra paths only.
    pub fn get_ics_data_by_public_path(&self, path: &str) -> (r: Result<
        Option<String>,
        StoreError,
    >)
        ensures
            r is Ok,
            match r->Ok_0 {
                Some(s) => spec_blob_by_public_path(
                    self.sources(),
                    self.source_paths(),
                    self.blobs(),
                    path@,
                ) == Some(s@),
                None => spec_blob_by_public_path(
                    self.sources(),
                    self.source_paths(),
                    self.blobs(),
                    path@,
                ) is None,
            },
    {
        let mut i: usize = 0;
        while i < self.sources.len()
            invariant
                0 <= i <= self.sources().len(),
                forall|k: int|
                    0 <= k < i ==> !((#[trigger] self.sources()[k]).public_ics && opt_is(
                        self.sources()[k].public_ics_path,
                        path@,
                    )),
            decreases self.sources().len() - i,
        {
            let hit = self.sources[i].public_ics && (match &self.sources[i].public_ics_path {
                Some(q) => str_eq(q.as_str(), path),
                None => false,
            });
            if hit {
                proof {
                    lemma_source_for_public_found(self.sources(), path@, i as int);
                }
                return self.get_ics_data(self.sources[i].id);
            }
            i = i + 1;
        }
        proof {
            lemma_source_for_public_absent(self.sources(), path@);
        }
        let mut j: usize = 0;
        while j < self.source_paths.len()
            invariant
                0 <= j <= self.source_paths().len(),
                spec_source_for_public_path(self.sources(), path@) is None,
                forall|k: int|
                    0 <= k < j ==> !((#[trigger] self.source_paths()[k]).is_public
                        && self.source_paths()[k].path@ == path@),
            decreases self.source_paths().len() - j,
        {
            let hit = self.source_paths[j].is_public && str_eq(
                self.source_paths[j].path.as_str(),
                path,
            );
            if hit {
                proof {
                    lemma_alias_for_public_found(self.source_paths(), path@, j as int);
                }
                return self.get_ics_data(self.source_paths[j].source_id);
            }
            j = j + 1;
        }
        proof {
            lemma_alias_for_public_absent(self.source_paths(), path@);
        }
        Ok(None)
    }

    /// Should the standard route serve `path` without credentials?
    pub fn is_public_standard_ics(&self, ics_path: &str) -> (r: Result<bool, StoreError>)
        ensures
            r is Ok,
            r->Ok_0 == spec_is_public_standard(self.sources(), self.source_paths(), ics_path@),
    {
        let mut i: usize = 0;
        while i < self.sources.len()
            invariant
                0 <= i <= self.sources().len(),
                forall|k: int|
                    0 <= k < i ==> !((#[trigger] self.sources()[k]).ics_path@ == ics_path@
                        && self.sources()[k].public_ics && (self.sources()[k].public_ics_path
                        is None || self.sources()[k].public_ics_path->0@
                        == Seq::<char>::empty())),
            decreases self.sources().len() - i,
        {
            let s = &self.sources[i];
            let path_eq = str_eq(s.ics_path.as_str(), ics_path);
            let alias_clear = match &s.public_ics_path {
                Some(q) => q.as_str().unicode_len() == 0,
                None => true,
            };
            if path_eq && s.public_ics && alias_clear {
                proof {
                    let sv = self.sources()[i as int];
                    match sv.public_ics_path {
                        Some(q) => {
                            assert(q@ =~= Seq::<char>::empty());
                        },
                        None => {},
                    }
                    assert(sv.ics_path@ == ics_path@ && sv.public_ics && (sv.public_ics_path
                        is None || sv.public_ics_path->0@ == Seq::<char>::empty()));
                }
                return Ok(true);
            }
            proof {
                let sv = self.sources()[i as int];
                match sv.public_ics_path {
                    Some(q) => {
                        if q@.len() == 0 {
                            assert(q@ =~= Seq::<char>::empty());
                        } else {
                            assert(q@ != Seq::<char>::empty());
                        }
                    },
                    None => {},
                }
            }
            i = i + 1;
        }
        let mut j: usize = 0;
        while j < self.source_paths.len()
            invariant
                0 <= j <= self.source_paths().len(),
                forall|k: int|
                    0 <= k < self.sources().len() ==> !((#[trigger] self.sources()[k]).ics_path@
                        == ics_path@ && self.sources()[k].public_ics && (
                    self.sources()[k].public_ics_path is None
                        || self.sources()[k].public_ics_path->0@ == Seq::<char>::empty())),
                forall|k: int|
                    0 <= k < j ==> !((#[trigger] self.source_paths()[k]).path@ == ics_path@
                        && self.source_paths()[k].is_public),
            decreases self.source_paths().len() - j,
        {
            let sp = &self.source_paths[j];
            if str_eq(sp.path.as_str(), ics_path) && sp.is_public {
                return Ok(true);
            }
            j = j + 1;
        }
        Ok(false)
    }
}

} // verus!
// ---------------------------------------------------------------------------
// Extra source paths
// ---------------------------------------------------------------------------

verus! {

/// The first failure when validating an extra path (checked trimmed),
/// or `None`.
pub open spec fn spec_validate_alias_err(
    ss: Seq<Source>,
    sps: Seq<SourcePath>,
    p: Seq<char>,
    ex: Option<i64>,
) -> Option<StoreError> {
    let t = spec_trim(p);
    if t.len() == 0 {
        Some(StoreError::EmptyField)
    } else if spec_reserved(t) {
        Some(StoreError::ReservedPath)
    } else if t[0] == '/' {
        Some(StoreError::LeadingSlash)
    } else if spec_contains(t, ".."@) {
        Some(StoreError::DotDot)
    } else if spec_src_taken(ss, t, None) {
        Some(StoreError::PathConflict)
    } else if spec_alias_taken(sps, t, ex) {
        Some(StoreError::DuplicatePath)
    } else {
        None
    }
}

/// How a stored extra path mirrors a create request.
pub open spec fn spec_alias_of_create(
    np: SourcePath,
    c: CreateSourcePath,
    id: i64,
    source_id: i64,
    now: Seq<char>,
) -> bool {
    &&& np.id == id
    &&& np.source_id == source_id
    &&& np.path@ == spec_trim(c.path@)
    &&& np.is_public == c.is_public
    &&& np.created_at@ == now
}

/// Pushing an extra path that collides with nothing keeps the namespace
/// invariants.
proof fn lemma_paths_ok_push_alias(ss: Seq<Source>, sps: Seq<SourcePath>, np: SourcePath)
    requires
        spec_paths_ok(ss, sps),
        forall|i: int|
            0 <= i < ss.len() ==> (#[trigger] ss[i]).ics_path@ != np.path@ && !opt_is(
                ss[i].public_ics_path,
                np.path@,
            ),
        forall|j: int| 0 <= j < sps.len() ==> (#[trigger] sps[j]).path@ != np.path@,
        !spec_reserved(np.path@),
    ensures
        spec_paths_ok(ss, sps.push(np)),
{
    let ts = sps.push(np);
    assert(forall|j: int| 0 <= j < sps.len() ==> ts[j] == sps[j]);
    assert(ts[sps.len() as int] == np);
    assert forall|i: int, j: int| 0 <= i < ss.len() && 0 <= j < ts.len() implies (
    #[trigger] ts[j]).path@ != (#[trigger] ss[i]).ics_path@ && !opt_is(
        ss[i].public_ics_path,
        ts[j].path@,
    ) by {
        if j == sps.len() {
            assert(ss[i].ics_path@ != np.path@ && !opt_is(ss[i].public_ics_path, np.path@));
        }
    }
    assert forall|i: int, j: int| 0 <= i < j < ts.len() implies (#[trigger] ts[i]).path@ != (
    #[trigger] ts[j]).path@ by {
        if j == sps.len() {
            assert(sps[i].path@ != np.path@);
        }
    }
}

impl Store {
    /// Validate an extra path (trimmed); `Ok` carries the trimmed path.
    fn validate_source_path(&self, p: &str, ex: Option<i64>) -> (r: Result<String, StoreError>)
        ensures
            match r {
                Ok(t) => spec_validate_alias_err(self.sources(), self.source_paths(), p@, ex)
                    is None && t@ == spec_trim(p@),
                Err(e) => spec_validate_alias_err(self.sources(), self.source_paths(), p@, ex)
                    == Some(e),
            },
    {
        let t = trim_str(p);
        if t.as_str().unicode_len() == 0 {
            return Err(StoreError::EmptyField);
        }
        if let Err(e) = validate_ics_path(t.as_str()) {
            return Err(e);
        }
        if t.as_str().get_char(0) == '/' {
            return Err(StoreError::LeadingSlash);
        }
        if contains_substr(t.as_str(), "..") {
            return Err(StoreError::DotDot);
        }
        if self.src_taken(t.as_str(), None) {
            return Err(StoreError::PathConflict);
        }
        if self.alias_taken(t.as_str(), ex) {
            return Err(StoreError::DuplicatePath);
        }
        Ok(t)
    }

    /// All extra paths of one source, in id order.
    pub fn list_source_paths(&self, source_id: i64) -> (r: Result<Vec<SourcePath>, StoreError>)
        ensures
            r is Ok,
            r->Ok_0@ == spec_paths_of(self.source_paths(), source_id),
    {
        let mut v: Vec<SourcePath> = Vec::new();
        let mut i: usize = 0;
        proof {
            assert(v@ =~= spec_paths_of(self.source_paths().take(0), source_id));
        }
        while i < self.source_paths.len()
            invariant
                0 <= i <= self.source_paths().len(),
                v@ =~= spec_paths_of(self.source_paths().take(i as int), source_id),
            decreases self.source_paths().len() - i,
        {
            proof {
                let sps = self.source_paths();
                assert(sps.take(i + 1).drop_last() =~= sps.take(i as int));
                assert(sps.take(i + 1).last() == sps[i as int]);
            }
            if self.source_paths[i].source_id == source_id {
                v.push(clone_source_path(&self.source_paths[i]));
            }
            i = i + 1;
        }
        proof {
            assert(self.source_paths().take(self.source_paths().len() as int)
                =~= self.source_paths());
        }
        Ok(v)
    }

    /// One extra path by id.
    pub fn get_source_path(&self, id: i64) -> (r: Result<Option<SourcePath>, StoreError>)
        ensures
            r is Ok,
            match r->Ok_0 {
                Some(sp) => exists|i: int|
                    0 <= i < self.source_paths().len() && #[trigger] self.source_paths()[i] == sp
                        && self.source_paths()[i].id == id,
                None => forall|i: int|
                    0 <= i < self.source_paths().len() ==> (#[trigger] self.source_paths()[i]).id
                        != id,
            },
    {
        match self.find_source_path(id) {
            Some(i) => Ok(Some(clone_source_path(&self.source_paths[i]))),
            None => Ok(None),
        }
    }

    /// Create an extra path under a source; the source must exist and the
    /// path must be free in the whole namespace.
    pub fn create_source_path(
        &mut self,
        source_id: i64,
        c: &CreateSourcePath,
        now: &str,
    ) -> (r: Result<i64, StoreError>)
        requires
            old(self).wf(),
            old(self).next_source_path_id() < i64::MAX,
        ensures
            final(self).wf(),
            final(self).sources() == old(self).sources(),
            final(self).destinations() == old(self).destinations(),
            final(self).blobs() == old(self).blobs(),
            match r {
                Ok(id) => {
                    &&& exists|i: int|
                        0 <= i < old(self).sources().len() && (#[trigger] old(
                            self,
                        ).sources()[i]).id == source_id
                    &&& spec_validate_alias_err(
                        old(self).sources(),
                        old(self).source_paths(),
                        c.path@,
                        None,
                    ) is None
                    &&& id == old(self).next_source_path_id()
                    &&& final(self).next_source_path_id() == id + 1
                    &&& final(self).source_paths().len() == old(self).source_paths().len() + 1
                    &&& final(self).source_paths().drop_last() == old(self).source_paths()
                    &&& spec_alias_of_create(
                        final(self).source_paths().last(),
                        *c,
                        id,
                        source_id,
                        now@,
                    )
                },
                Err(e) => {
                    &&& *final(self) == *old(self)
                    &&& ((e == StoreError::NotFound && (forall|i: int|
                        0 <= i < old(self).sources().len() ==> (#[trigger] old(
                            self,
                        ).sources()[i]).id != source_id)) || ((exists|i: int|
                        0 <= i < old(self).sources().len() && (#[trigger] old(
                            self,
                        ).sources()[i]).id == source_id) && spec_validate_alias_err(
                        old(self).sources(),
                        old(self).source_paths(),
                        c.path@,
                        None,
                    ) == Some(e)))
                },
            },
    {
        if self.find_source(source_id).is_none() {
            return Err(StoreError::NotFound);
        }
        let t = match self.validate_source_path(c.path.as_str(), None) {
            Ok(t) => t,
            Err(e) => {
                return Err(e);
            },
        };
        let id = self.next_source_path_id;
        let np = SourcePath {
            id,
            source_id,
            path: t,
            is_public: c.is_public,
            created_at: now.to_owned(),
        };
        proof {
            lemma_paths_ok_push_alias(old(self).sources(), old(self).source_paths(), np);
        }
        self.source_paths.push(np);
        self.next_source_path_id = id + 1;
        proof {
            assert(self.sources() == old(self).sources());
            assert(self.destinations() == old(self).destinations());
            assert(self.blobs() == old(self).blobs());
            assert(self.source_paths().drop_last() =~= old(self).source_paths());
            assert(self.source_paths() =~= old(self).source_paths().push(
                self.source_paths().last(),
            ));
        }
        Ok(id)
    }

    /// Update an extra path; `Ok(false)` when the id is unknown.
    #[verifier::rlimit(100)]
    pub fn update_source_path(&mut self, id: i64, u: &UpdateSourcePath) -> (r: Result<
        bool,
        StoreError,
    >)
        requires
            old(self).wf(),
        ensures
            final(self).wf(),
            final(self).sources() == old(self).sources(),
            final(self).destinations() == old(self).destinations(),
            final(self).blobs() == old(self).blobs(),
            final(self).next_source_path_id() == old(self).next_source_path_id(),
            match r {
                Ok(true) => {
                    &&& final(self).source_paths().len() == old(self).source_paths().len()
                    &&& exists|i: int|
                        0 <= i < old(self).source_paths().len() && (#[trigger] old(
                            self,
                        ).source_paths()[i]).id == id && {
                            let np = final(self).source_paths()[i];
                            let op = old(self).source_paths()[i];
                            &&& np.id == op.id
                            &&& np.source_id == op.source_id
                            &&& np.path@ == (if u.path is Some {
                                spec_trim(u.path->0@)
                            } else {
                                op.path@
                            })
                            &&& np.is_public == (if u.is_public is Some {
                                u.is_public->0
                            } else {
                                op.is_public
                            })
                            &&& np.created_at == op.created_at
                            &&& (u.path is Some ==> spec_validate_alias_err(
                                old(self).sources(),
                                old(self).source_paths(),
                                u.path->0@,
                                Some(id),
                            ) is None)
                        } && (forall|j: int|
                            0 <= j < old(self).source_paths().len() && j != i
                                ==> final(self).source_paths()[j] == old(self).source_paths()[j])
                },
                Ok(false) => {
                    &&& *final(self) == *old(self)
                    &&& forall|i: int|
                        0 <= i < old(self).source_paths().len() ==> (#[trigger] old(
                            self,
                        ).source_paths()[i]).id != id
                },
                Err(e) => {
                    &&& *final(self) == *old(self)
                    &&& u.path is Some
                    &&& spec_validate_alias_err(
                        old(self).sources(),
                        old(self).source_paths(),
                        u.path->0@,
                        Some(id),
                    ) == Some(e)
                },
            },
    {
        let idx = match self.find_source_path(id) {
            Some(i) => i,
            None => {
                return Ok(false);
            },
        };
        proof {
            let sps = self.source_paths();
            assert forall|i: int| 0 <= i < sps.len() && i != idx implies (#[trigger] sps[i]).id
                != sps[idx as int].id by {
                if i < idx {
                    assert(sps[i].id < sps[idx as int].id);
                } else {
                    assert(sps[idx as int].id < sps[i].id);
                }
            }
        }
        let new_path = match &u.path {
            Some(p) => {
                match self.validate_source_path(p.as_str(), Some(id)) {
                    Ok(t) => Some(t),
                    Err(e) => {
                        return Err(e);
                    },
                }
            },
            None => None,
        };
        let op = self.source_paths.remove(idx);
        let np = SourcePath {
            id: op.id,
            source_id: op.source_id,
            path: match new_path {
                Some(t) => t,
                None => op.path,
            },
            is_public: match u.is_public {
                Some(b) => b,
                None => op.is_public,
            },
            created_at: op.created_at,
        };
        self.source_paths.insert(idx, np);
        proof {
            let sps = self.source_paths();
            let osps = old(self).source_paths();
            let ss = self.sources();
            osps.remove_ensures(idx as int);
            osps.remove(idx as int).insert_ensures(idx as int, np);
            assert(sps[idx as int] == np);
            assert(forall|j: int| 0 <= j < osps.len() && j != idx ==> sps[j] == osps[j]);
            assert(self.sources() == old(self).sources());
            assert(self.destinations() == old(self).destinations());
            assert(self.blobs() == old(self).blobs());
            assert forall|p: int, q: int| 0 <= p < q < sps.len() implies (#[trigger] sps[p]).id
                < (#[trigger] sps[q]).id by {
                assert(sps[p].id == osps[p].id && sps[q].id == osps[q].id);
                assert(osps[p].id < osps[q].id);
            }
            assert forall|p: int| 0 <= p < sps.len() implies 0 < (#[trigger] sps[p]).id < self
                .next_source_path_id() by {
                assert(sps[p].id == osps[p].id);
            }
            assert forall|i: int, j: int| 0 <= i < ss.len() && 0 <= j < sps.len() implies (
            #[trigger] sps[j]).path@ != (#[trigger] ss[i]).ics_path@ && !opt_is(
                ss[i].public_ics_path,
                sps[j].path@,
            ) by {
                if j == idx {
                    assert(!spec_src_taken(ss, np.path@, None) || osps[j].path@ == np.path@);
                }
            }
            assert forall|p: int, q: int| 0 <= p < q < sps.len() implies (
            #[trigger] sps[p]).path@ != (#[trigger] sps[q]).path@ by {
                if p == idx {
                    assert(osps[q].id != id);
                } else if q == idx {
                    assert(osps[p].id != id);
                }
            }
            assert forall|p: int| 0 <= p < sps.len() implies !spec_reserved(
                (#[trigger] sps[p]).path@,
            ) by {
                if p != idx {
                    assert(sps[p] == osps[p]);
                }
            }
        }
        Ok(true)
    }

    /// Delete an extra path; `Ok(false)` when the id is unknown.
    pub fn delete_source_path(&mut self, id: i64) -> (r: Result<bool, StoreError>)
        requires
            old(self).wf(),
        ensures
            final(self).wf(),
            final(self).sources() == old(self).sources(),
            final(self).destinations() == old(self).destinations(),
            final(self).blobs() == old(self).blobs(),
            final(self).next_source_path_id() == old(self).next_source_path_id(),
            match r {
                Ok(true) => exists|i: int|
                    0 <= i < old(self).source_paths().len() && (#[trigger] old(
                        self,
                    ).source_paths()[i]).id == id && final(self).source_paths() == old(
                        self,
                    ).source_paths().remove(i),
                Ok(false) => {
                    &&& *final(self) == *old(self)
                    &&& forall|i: int|
                        0 <= i < old(self).source_paths().len() ==> (#[trigger] old(
                            self,
                        ).source_paths()[i]).id != id
                },
                Err(_) => false,
            },
    {
        match self.find_source_path(id) {
            Some(i) => {
                self.source_paths.remove(i);
                proof {
                    assert(self.sources() == old(self).sources());
                    assert(self.destinations() == old(self).destinations());
                    assert(self.blobs() == old(self).blobs());
                    let sps = self.source_paths();
                    let osps = old(self).source_paths();
                    osps.remove_ensures(i as int);
                    assert(sps =~= osps.remove(i as int));
                    assert forall|p: int, q: int| 0 <= p < q < sps.len() implies (
                    #[trigger] sps[p]).id < (#[trigger] sps[q]).id by {
                        let p0 = if p < i { p } else { p + 1 };
                        let q0 = if q < i { q } else { q + 1 };
                        assert(sps[p] == osps[p0] && sps[q] == osps[q0]);
                    }
                    assert forall|p: int| 0 <= p < sps.len() implies 0 < (#[trigger] sps[p]).id
                        < self.next_source_path_id() by {
                        let p0 = if p < i { p } else { p + 1 };
                        assert(sps[p] == osps[p0]);
                    }
                    let ss = self.sources();
                    assert forall|p: int, q: int|
                        0 <= p < ss.len() && 0 <= q < sps.len() implies (
                    #[trigger] sps[q]).path@ != (#[trigger] ss[p]).ics_path@ && !opt_is(
                        ss[p].public_ics_path,
                        sps[q].path@,
                    ) by {
                        let q0 = if q < i { q } else { q + 1 };
                        assert(sps[q] == osps[q0]);
                    }
                    assert forall|p: int, q: int| 0 <= p < q < sps.len() implies (
                    #[trigger] sps[p]).path@ != (#[trigger] sps[q]).path@ by {
                        let p0 = if p < i { p } else { p + 1 };
                        let q0 = if q < i { q } else { q + 1 };
                        assert(sps[p] == osps[p0] && sps[q] == osps[q0]);
                    }
                    assert forall|p: int| 0 <= p < sps.len() implies !spec_reserved(
                        (#[trigger] sps[p]).path@,
                    ) by {
                        let p0 = if p < i { p } else { p + 1 };
                        assert(sps[p] == osps[p0]);
                    }
                }
                Ok(true)
            },
            None => Ok(false),
        }
    }
}

/// The extra paths belonging to one source, in table order.
pub open spec fn spec_paths_of(sps: Seq<SourcePath>, source_id: i64) -> Seq<SourcePath>
    decreases sps.len(),
{
    if sps.len() == 0 {
        Seq::empty()
    } else {
        let rest = spec_paths_of(sps.drop_last(), source_id);
        if sps.last().source_id == source_id {
            rest.push(sps.last())
        } else {
            rest
        }
    }
}

} // verus!
