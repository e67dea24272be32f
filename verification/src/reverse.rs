//! Reverse-sync planning: diff a downloaded ICS feed against the events
//! already on the CalDAV calendar, decide what to upload and what to
//! delete, and account for the outcome.
use vstd::prelude::*;
use crate::text::{dec_str, has_suffix, spec_dec, spec_has_suffix};
use crate::ics::{
    assoc_contains, assoc_find, events_equal, extract_events, lemma_assoc_find, spec_events_equal,
    spec_extract, EventMap,
};
use crate::datetime::{is_event_in_future, spec_is_future, DateTimeValue, DateValue};

verus! {

/// The outcome counters of one reverse-sync run.
#[derive(Debug)]
pub struct ReverseSyncStats {
    pub uploaded: usize,
    pub skipped: usize,
    pub deleted: usize,
    pub total: usize,
}

/// One PUT the plan asks for: the event resource URL and the VCALENDAR
/// body wrapping the UID's blocks.
pub struct UploadItem {
    pub uid: String,
    pub url: String,
    pub body: String,
}

/// What a reverse-sync run should do, decided before any write.
pub struct ReverseSyncPlan {
    /// The feed returned no events: touch nothing.
    pub empty_feed: bool,
    /// Events to PUT (new or changed).
    pub uploads: Vec<UploadItem>,
    /// Events already on the calendar and semantically unchanged.
    pub skipped: usize,
    /// All events considered for upload.
    pub total: usize,
    /// UIDs to DELETE as orphans (empty when `keep_local`).
    pub deletions: Vec<String>,
}

/// Strip every trailing `/`.
pub open spec fn spec_strip_slashes(s: Seq<char>) -> Seq<char>
    decreases s.len(),
{
    if s.len() > 0 && s.last() == '/' {
        spec_strip_slashes(s.drop_last())
    } else {
        s
    }
}

/// The effective calendar base URL: the CalDAV URL without trailing
/// slashes, with `/<calendar_name>/` appended unless it already ends in
/// the calendar name.
pub open spec fn spec_calendar_base(url: Seq<char>, name: Seq<char>) -> Seq<char> {
    let norm = spec_strip_slashes(url);
    if spec_has_suffix(norm, seq!['/'] + name) {
        norm + seq!['/']
    } else {
        norm + seq!['/'] + name + seq!['/']
    }
}

pub fn calendar_base(caldav_url: &str, calendar_name: &str) -> (r: String)
    ensures
        r@ == spec_calendar_base(caldav_url@, calendar_name@),
{
    let n = caldav_url.unicode_len();
    let mut end = n;
    proof {
        assert(caldav_url@.subrange(0, n as int) =~= caldav_url@);
    }
    while end > 0 && caldav_url.get_char(end - 1) == '/'
        invariant
            0 <= end <= n,
            n == caldav_url@.len(),
            spec_strip_slashes(caldav_url@) == spec_strip_slashes(
                caldav_url@.subrange(0, end as int),
            ),
        decreases end,
    {
        proof {
            let t = caldav_url@.subrange(0, end as int);
            assert(t.last() == caldav_url@[end - 1]);
            assert(t.drop_last() =~= caldav_url@.subrange(0, end - 1));
        }
        end = end - 1;
    }
    let norm = caldav_url.substring_char(0, end);
    proof {
        let t = caldav_url@.subrange(0, end as int);
        if end > 0 {
            assert(t.last() == caldav_url@[end - 1]);
        }
        assert(spec_strip_slashes(t) == t);
        assert(norm@ =~= t);
    }
    let mut slash_name = String::from_str("/");
    slash_name.append(calendar_name);
    proof {
        reveal_strlit("/");
        assert(slash_name@ =~= seq!['/'] + calendar_name@);
    }
    if has_suffix(norm, slash_name.as_str()) {
        let mut r = norm.to_owned();
        r.append("/");
        proof {
            reveal_strlit("/");
            assert(r@ =~= spec_strip_slashes(caldav_url@) + seq!['/']);
        }
        r
    } else {
        let mut r = norm.to_owned();
        r.append("/");
        r.append(calendar_name);
        r.append("/");
        proof {
            reveal_strlit("/");
            assert(r@ =~= spec_strip_slashes(caldav_url@) + seq!['/'] + calendar_name@
                + seq!['/']);
        }
        r
    }
}

/// The resource URL of one event: `<base><uid>.ics`, the UID verbatim.
pub open spec fn spec_event_url(base: Seq<char>, uid: Seq<char>) -> Seq<char> {
    base + uid + ".ics"@
}

pub fn event_url(base: &str, uid: &str) -> (r: String)
    ensures
        r@ == spec_event_url(base@, uid@),
{
    let mut r = base.to_owned();
    r.append(uid);
    r.append(".ics");
    r
}

/// The concatenation of the first `i` blocks.
pub open spec fn spec_concat(blocks: Seq<Seq<char>>, i: int) -> Seq<char>
    decreases i,
{
    if i <= 0 {
        Seq::empty()
    } else {
        spec_concat(blocks, i - 1) + blocks[i - 1]
    }
}

fn concat_all(blocks: &Vec<String>) -> (r: String)
    ensures
        r@ == spec_concat(blocks.deep_view(), blocks.deep_view().len() as int),
{
    let mut r = String::new();
    let mut i: usize = 0;
    proof {
        assert(r@ =~= spec_concat(blocks.deep_view(), 0));
    }
    while i < blocks.len()
        invariant
            0 <= i <= blocks.len(),
            r@ =~= spec_concat(blocks.deep_view(), i as int),
        decreases blocks.len() - i,
    {
        proof {
            assert(blocks@[i as int]@ == blocks.deep_view()[i as int]);
        }
        r.append(blocks[i].as_str());
        i = i + 1;
    }
    r
}

/// The VCALENDAR body uploaded for one UID: the standard header, the feed's
/// VTIMEZONE blocks, the UID's VEVENT blocks, and the closing line.
pub open spec fn spec_wrap_upload(tz: Seq<char>, blocks: Seq<Seq<char>>) -> Seq<char> {
    "BEGIN:VCALENDAR\r\nVERSION:2.0\r\nPRODID:-//CalDAV/ICS Sync//EN\r\n"@ + tz + spec_concat(
        blocks,
        blocks.len() as int,
    ) + "END:VCALENDAR\r\n"@
}

fn wrap_upload(tz: &str, blocks: &Vec<String>) -> (r: String)
    ensures
        r@ == spec_wrap_upload(tz@, blocks.deep_view()),
{
    let mut r = String::from_str(
        "BEGIN:VCALENDAR\r\nVERSION:2.0\r\nPRODID:-//CalDAV/ICS Sync//EN\r\n",
    );
    r.append(tz);
    let body = concat_all(blocks);
    r.append(body.as_str());
    r.append("END:VCALENDAR\r\n");
    r
}

/// Does a UID group qualify for syncing: always under `sync_all`, else
/// only when some block ends in the future.
pub open spec fn spec_included(
    blocks: Seq<Seq<char>>,
    sync_all: bool,
    today: DateValue,
    now: DateTimeValue,
) -> bool {
    sync_all || exists|k: int|
        0 <= k < blocks.len() && spec_is_future(#[trigger] blocks[k], today, now)
}

fn group_included(blocks: &Vec<String>, sync_all: bool, today: &DateValue, now: &DateTimeValue) -> (r:
    bool)
    ensures
        r == spec_included(blocks.deep_view(), sync_all, *today, *now),
{
    if sync_all {
        return true;
    }
    let mut k: usize = 0;
    while k < blocks.len()
        invariant
            0 <= k <= blocks.len(),
            forall|p: int|
                0 <= p < k ==> !spec_is_future(#[trigger] blocks.deep_view()[p], *today, *now),
        decreases blocks.len() - k,
    {
        proof {
            assert(blocks@[k as int]@ == blocks.deep_view()[k as int]);
        }
        if is_event_in_future(blocks[k].as_str(), today, now) {
            return true;
        }
        k = k + 1;
    }
    false
}

/// The upload accounting over the first `i` feed entries: which UIDs are
/// uploaded (with their blocks), how many are skipped as unchanged, and
/// how many are considered at all.
pub struct RevAcc {
    pub uploads: Seq<(Seq<char>, Seq<Seq<char>>)>,
    pub skipped: nat,
    pub total: nat,
}

pub open spec fn rev_step(
    acc: RevAcc,
    entry: (Seq<char>, Seq<Seq<char>>),
    existing: Seq<(Seq<char>, Seq<Seq<char>>)>,
    sync_all: bool,
    today: DateValue,
    now: DateTimeValue,
) -> RevAcc {
    if !spec_included(entry.1, sync_all, today, now) {
        acc
    } else {
        let f = assoc_find(existing, entry.0);
        if 0 <= f < existing.len() && spec_events_equal(existing[f].1, entry.1) {
            RevAcc { skipped: acc.skipped + 1, total: acc.total + 1, ..acc }
        } else {
            RevAcc {
                uploads: acc.uploads.push(entry),
                skipped: acc.skipped,
                total: acc.total + 1,
            }
        }
    }
}

pub open spec fn rev_scan(
    feed: Seq<(Seq<char>, Seq<Seq<char>>)>,
    i: int,
    existing: Seq<(Seq<char>, Seq<Seq<char>>)>,
    sync_all: bool,
    today: DateValue,
    now: DateTimeValue,
) -> RevAcc
    decreases i,
{
    if i <= 0 {
        RevAcc { uploads: Seq::empty(), skipped: 0, total: 0 }
    } else {
        rev_step(
            rev_scan(feed, i - 1, existing, sync_all, today, now),
            feed[i - 1],
            existing,
            sync_all,
            today,
            now,
        )
    }
}

/// The orphan UIDs among the first `i` existing entries: considered (all
/// under `sync_all`, else only future groups) and absent from the feed.
pub open spec fn del_scan(
    existing: Seq<(Seq<char>, Seq<Seq<char>>)>,
    i: int,
    feed: Seq<(Seq<char>, Seq<Seq<char>>)>,
    sync_all: bool,
    today: DateValue,
    now: DateTimeValue,
) -> Seq<Seq<char>>
    decreases i,
{
    if i <= 0 {
        Seq::empty()
    } else {
        let rest = del_scan(existing, i - 1, feed, sync_all, today, now);
        let e = existing[i - 1];
        if spec_included(e.1, sync_all, today, now) && !assoc_contains(feed, e.0) {
            rest.push(e.0)
        } else {
            rest
        }
    }
}

/// Decide a whole reverse-sync run: what to upload, what is unchanged, and
/// which orphans to delete. A feed with no events plans no write at all.
pub fn plan_reverse_sync(
    ics_text: &str,
    caldav_url: &str,
    calendar_name: &str,
    existing: &EventMap,
    sync_all: bool,
    keep_local: bool,
    today: &DateValue,
    now: &DateTimeValue,
) -> (r: ReverseSyncPlan)
    requires
        existing.wf(),
    ensures
        ({
            let feed = spec_extract(ics_text@).entries;
            let tz = spec_concat(
                spec_extract(ics_text@).tzs,
                spec_extract(ics_text@).tzs.len() as int,
            );
            let base = spec_calendar_base(caldav_url@, calendar_name@);
            let acc = rev_scan(
                feed,
                feed.len() as int,
                existing.entries(),
                sync_all,
                *today,
                *now,
            );
            let dels = del_scan(
                existing.entries(),
                existing.entries().len() as int,
                feed,
                sync_all,
                *today,
                *now,
            );
            &&& r.empty_feed == (feed.len() == 0)
            &&& (feed.len() == 0 ==> r.uploads@.len() == 0 && r.deletions@.len() == 0 && r.skipped
                == 0 && r.total == 0)
            &&& (feed.len() > 0 ==> {
                &&& r.skipped == acc.skipped
                &&& r.total == acc.total
                &&& r.uploads@.len() == acc.uploads.len()
                &&& (forall|k: int|
                    0 <= k < acc.uploads.len() ==> {
                        &&& (#[trigger] r.uploads@[k]).uid@ == acc.uploads[k].0
                        &&& r.uploads@[k].url@ == spec_event_url(base, acc.uploads[k].0)
                        &&& r.uploads@[k].body@ == spec_wrap_upload(tz, acc.uploads[k].1)
                    })
                &&& (keep_local ==> r.deletions@.len() == 0)
                &&& (!keep_local ==> r.deletions.deep_view() == dels)
            })
        }),
{
    let extracted = extract_events(ics_text);
    let ghost feed = spec_extract(ics_text@).entries;
    if extracted.events.is_empty() {
        return ReverseSyncPlan {
            empty_feed: true,
            uploads: Vec::new(),
            skipped: 0,
            total: 0,
            deletions: Vec::new(),
        };
    }
    let tz_block = concat_all(&extracted.vtimezones);
    let base = calendar_base(caldav_url, calendar_name);
    let mut uploads: Vec<UploadItem> = Vec::new();
    let mut skipped: usize = 0;
    let mut total: usize = 0;
    let n = extracted.events.len();
    let mut i: usize = 0;
    while i < n
        invariant
            0 <= i <= n,
            n == feed.len(),
            extracted.events.wf(),
            extracted.events.entries() == feed,
            existing.wf(),
            tz_block@ == spec_concat(
                spec_extract(ics_text@).tzs,
                spec_extract(ics_text@).tzs.len() as int,
            ),
            base@ == spec_calendar_base(caldav_url@, calendar_name@),
            skipped <= i,
            total <= i,
            ({
                let acc = rev_scan(feed, i as int, existing.entries(), sync_all, *today, *now);
                &&& skipped == acc.skipped
                &&& total == acc.total
                &&& uploads@.len() == acc.uploads.len()
                &&& (forall|k: int|
                    0 <= k < acc.uploads.len() ==> {
                        &&& (#[trigger] uploads@[k]).uid@ == acc.uploads[k].0
                        &&& uploads@[k].url@ == spec_event_url(base@, acc.uploads[k].0)
                        &&& uploads@[k].body@ == spec_wrap_upload(tz_block@, acc.uploads[k].1)
                    })
            }),
        decreases n - i,
    {
        let ghost acc = rev_scan(feed, i as int, existing.entries(), sync_all, *today, *now);
        proof {
            assert(rev_scan(feed, i + 1, existing.entries(), sync_all, *today, *now) == rev_step(
                acc,
                feed[i as int],
                existing.entries(),
                sync_all,
                *today,
                *now,
            ));
        }
        let uid = extracted.events.uid_at(i);
        let blocks = extracted.events.list_at(i);
        if group_included(blocks, sync_all, today, now) {
            let mut unchanged = false;
            match existing.get(uid.as_str()) {
                Some(ex) => {
                    proof {
                        lemma_assoc_find(existing.entries(), uid@);
                    }
                    if events_equal(ex, blocks) {
                        unchanged = true;
                    }
                },
                None => {
                    proof {
                        lemma_assoc_find(existing.entries(), uid@);
                    }
                },
            }
            if unchanged {
                skipped = skipped + 1;
            } else {
                let url = event_url(base.as_str(), uid.as_str());
                let body = wrap_upload(tz_block.as_str(), blocks);
                uploads.push(UploadItem { uid: uid.clone(), url, body });
            }
            total = total + 1;
        }
        i = i + 1;
    }
    let mut deletions: Vec<String> = Vec::new();
    if !keep_local {
        let m = existing.len();
        let mut j: usize = 0;
        while j < m
            invariant
                0 <= j <= m,
                m == existing.entries().len(),
                existing.wf(),
                extracted.events.wf(),
                extracted.events.entries() == feed,
                deletions.deep_view() == del_scan(
                    existing.entries(),
                    j as int,
                    feed,
                    sync_all,
                    *today,
                    *now,
                ),
            decreases m - j,
        {
            let uid = existing.uid_at(j);
            let blocks = existing.list_at(j);
            let ghost prev = deletions.deep_view();
            if group_included(blocks, sync_all, today, now) {
                let in_feed = extracted.events.contains_key(uid.as_str());
                if !in_feed {
                    deletions.push(uid.clone());
                    proof {
                        assert(deletions.deep_view() =~= prev.push(
                            existing.entries()[j as int].0,
                        ));
                    }
                }
            }
            j = j + 1;
        }
    }
    proof {
        if feed.len() == 0 {
            assert(false);
        }
    }
    ReverseSyncPlan { empty_feed: false, uploads, skipped, total, deletions }
}

/// The final accounting of a run: any failed PUT fails the whole run with
/// a message naming both counts; otherwise the four counters.
pub fn reverse_sync_outcome(
    uploaded: usize,
    errors: usize,
    skipped: usize,
    deleted: usize,
    total: usize,
) -> (r: Result<ReverseSyncStats, String>)
    ensures
        errors == 0 <==> r is Ok,
        match r {
            Ok(st) => st.uploaded == uploaded && st.skipped == skipped && st.deleted == deleted
                && st.total == total,
            Err(m) => m@ == "Uploaded "@ + spec_dec(uploaded as nat) + " events but "@ + spec_dec(
                errors as nat,
            ) + " failed"@,
        },
{
    if errors > 0 {
        let mut m = String::from_str("Uploaded ");
        let u = dec_str(uploaded as u64);
        m.append(u.as_str());
        m.append(" events but ");
        let e = dec_str(errors as u64);
        m.append(e.as_str());
        m.append(" failed");
        Err(m)
    } else {
        Ok(ReverseSyncStats { uploaded, skipped, deleted, total })
    }
}

} // verus!
