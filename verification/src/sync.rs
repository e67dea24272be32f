//! Forward-sync computation: picking the VEVENT portion out of each fetched
//! event payload, wrapping everything in one aggregated VCALENDAR, and the
//! Basic-auth header value.
use vstd::prelude::*;
use vstd::utf8::encode_utf8;
use crate::text::{spec_has_prefix, spec_has_suffix};
use crate::caldav::{find_sub_from, lemma_find_sub_is, spec_find_sub};

verus! {

/// The VEVENT portion of an ICS payload: from the first `BEGIN:VEVENT`
/// through the first following `END:VEVENT`, terminated by CRLF; `None`
/// when the payload holds no complete VEVENT.
pub open spec fn spec_vevent_portion(ics: Seq<char>) -> Option<Seq<char>> {
    let b = spec_find_sub(ics, "BEGIN:VEVENT"@);
    if 0 <= b < ics.len() {
        let rest = ics.subrange(b, ics.len() as int);
        let e = spec_find_sub(rest, "END:VEVENT"@);
        if 0 <= e < rest.len() && e + "END:VEVENT"@.len() <= rest.len() {
            Some(rest.subrange(0, e + "END:VEVENT"@.len()) + seq!['\r', '\n'])
        } else {
            None
        }
    } else {
        None
    }
}

/// Cut the VEVENT portion out of one fetched payload.
pub fn vevent_portion(ics: &str) -> (r: Option<String>)
    ensures
        match r {
            Some(s) => spec_vevent_portion(ics@) == Some(s@),
            None => spec_vevent_portion(ics@) is None,
        },
{
    proof {
        reveal_strlit("BEGIN:VEVENT");
        reveal_strlit("END:VEVENT");
    }
    let n = ics.unicode_len();
    let b = find_sub_from(ics, 0, "BEGIN:VEVENT");
    proof {
        lemma_find_sub_is(ics@, "BEGIN:VEVENT"@, b as int);
    }
    if b == n {
        return None;
    }
    let e = find_sub_from(ics, b, "END:VEVENT");
    proof {
        let rest = ics@.subrange(b as int, n as int);
        assert forall|k: int| 0 <= k < e - b implies !spec_has_prefix(
            #[trigger] rest.subrange(k, rest.len() as int),
            "END:VEVENT"@,
        ) by {
            assert(rest.subrange(k, rest.len() as int) =~= ics@.subrange(b + k, n as int));
        }
        if e < n {
            assert(rest.subrange(e - b, rest.len() as int) =~= ics@.subrange(e as int, n as int));
        }
        lemma_find_sub_is(rest, "END:VEVENT"@, e - b);
    }
    if e == n {
        return None;
    }
    let stop = e + 10;
    if stop > n {
        proof {
            let rest = ics@.subrange(b as int, n as int);
            assert(spec_has_prefix(rest.subrange(e - b, rest.len() as int), "END:VEVENT"@));
            assert(rest.len() - (e - b) >= 10);
            assert(false);
        }
    }
    let mut body = ics.substring_char(b, stop).to_owned();
    body.append("\r\n");
    proof {
        reveal_strlit("\r\n");
        let rest = ics@.subrange(b as int, n as int);
        assert(rest.subrange(0, e - b + 10) =~= ics@.subrange(b as int, stop as int));
        assert("\r\n"@ =~= seq!['\r', '\n']);
        assert(body@ =~= rest.subrange(0, e - b + 10) + seq!['\r', '\n']);
    }
    Some(body)
}

/// The fixed VCALENDAR header emitted on the wire.
pub open spec fn spec_calendar_header() -> Seq<char> {
    "BEGIN:VCALENDAR\r\nVERSION:2.0\r\nPRODID:-//CalDAV/ICS Sync//EN\r\n"@
}

/// The VEVENT portions of the first `i` payloads, concatenated.
pub open spec fn spec_portions(events: Seq<Seq<char>>, i: int) -> Seq<char>
    decreases i,
{
    if i <= 0 {
        Seq::empty()
    } else {
        spec_portions(events, i - 1) + (match spec_vevent_portion(events[i - 1]) {
            Some(p) => p,
            None => Seq::<char>::empty(),
        })
    }
}

/// The aggregated feed: header, VEVENT portions, closing line.
pub open spec fn spec_aggregate(events: Seq<Seq<char>>) -> Seq<char> {
    spec_calendar_header() + spec_portions(events, events.len() as int) + "END:VCALENDAR\r\n"@
}

/// Wrap all fetched event payloads into one aggregated VCALENDAR. The
/// output always opens with `BEGIN:VCALENDAR` and ends with
/// `END:VCALENDAR`, each CRLF-terminated.
pub fn aggregate_events(events: &Vec<String>) -> (r: String)
    ensures
        r@ == spec_aggregate(events.deep_view()),
        spec_has_prefix(r@, "BEGIN:VCALENDAR\r\n"@),
        spec_has_suffix(r@, "END:VCALENDAR\r\n"@),
{
    let mut out = String::from_str("BEGIN:VCALENDAR\r\nVERSION:2.0\r\nPRODID:-//CalDAV/ICS Sync//EN\r\n");
    let ghost dv = events.deep_view();
    let mut i: usize = 0;
    proof {
        assert(out@ =~= spec_calendar_header() + spec_portions(dv, 0));
    }
    while i < events.len()
        invariant
            0 <= i <= events.len(),
            dv == events.deep_view(),
            out@ =~= spec_calendar_header() + spec_portions(dv, i as int),
        decreases events.len() - i,
    {
        proof {
            assert(events@[i as int]@ == dv[i as int]);
        }
        match vevent_portion(events[i].as_str()) {
            Some(p) => {
                out.append(p.as_str());
            },
            None => {},
        }
        i = i + 1;
    }
    out.append("END:VCALENDAR\r\n");
    proof {
        reveal_strlit("BEGIN:VCALENDAR\r\nVERSION:2.0\r\nPRODID:-//CalDAV/ICS Sync//EN\r\n");
        reveal_strlit("END:VCALENDAR\r\n");
        reveal_strlit("BEGIN:VCALENDAR\r\n");
        let rr = out@;
        assert(rr =~= spec_aggregate(dv));
        assert(rr.subrange(0, 17) =~= "BEGIN:VCALENDAR\r\n"@);
        assert(rr.subrange(rr.len() - 15, rr.len() as int) =~= "END:VCALENDAR\r\n"@);
    }
    out
}

/// Flatten the per-calendar event payloads in calendar order.
pub open spec fn spec_flat(vv: Seq<Seq<Seq<char>>>, i: int) -> Seq<Seq<char>>
    decreases i,
{
    if i <= 0 {
        Seq::empty()
    } else {
        spec_flat(vv, i - 1) + vv[i - 1]
    }
}

/// The forward-sync output over the events fetched per calendar: the total
/// event count, the calendar count, and the aggregated feed.
pub fn build_sync_output(per_calendar: &Vec<Vec<String>>) -> (r: (usize, usize, String))
    ensures
        r.1 == per_calendar.deep_view().len(),
        r.0 == spec_flat(per_calendar.deep_view(), per_calendar.deep_view().len() as int).len(),
        r.2@ == spec_aggregate(
            spec_flat(per_calendar.deep_view(), per_calendar.deep_view().len() as int),
        ),
{
    let ghost dv = per_calendar.deep_view();
    let mut all: Vec<String> = Vec::new();
    let mut i: usize = 0;
    proof {
        assert(all.deep_view() =~= spec_flat(dv, 0));
    }
    while i < per_calendar.len()
        invariant
            0 <= i <= per_calendar.len(),
            dv == per_calendar.deep_view(),
            all.deep_view() =~= spec_flat(dv, i as int),
        decreases per_calendar.len() - i,
    {
        let lst = &per_calendar[i];
        let mut j: usize = 0;
        proof {
            assert(per_calendar@[i as int].deep_view() == dv[i as int]);
        }
        while j < lst.len()
            invariant
                0 <= j <= lst.len(),
                dv == per_calendar.deep_view(),
                i < per_calendar.len(),
                lst == per_calendar@[i as int],
                lst.deep_view() == dv[i as int],
                all.deep_view() =~= spec_flat(dv, i as int) + dv[i as int].take(j as int),
            decreases lst.len() - j,
        {
            let ghost prev = all.deep_view();
            all.push(lst[j].clone());
            proof {
                assert(all.deep_view() =~= prev.push(dv[i as int][j as int]));
                assert(dv[i as int].take(j + 1) =~= dv[i as int].take(j as int).push(
                    dv[i as int][j as int],
                ));
            }
            j = j + 1;
        }
        proof {
            assert(dv[i as int].take(dv[i as int].len() as int) =~= dv[i as int]);
            assert(all.deep_view() =~= spec_flat(dv, i + 1));
        }
        i = i + 1;
    }
    let count = all.len();
    let cals = per_calendar.len();
    let blob = aggregate_events(&all);
    (count, cals, blob)
}

/// What the base64 STANDARD engine returns for a byte string.
pub uninterp spec fn base64_of(bytes: Seq<u8>) -> Seq<char>;

/// Relies on base64's `Engine::encode` with the STANDARD engine: the output
/// depends on the input bytes alone, and an empty input encodes to an empty
/// string.
#[verifier::external_body]
fn b64_encode(s: &str) -> (r: String)
    ensures
        r@ == base64_of(encode_utf8(s@)),
        s@.len() == 0 ==> r@.len() == 0,
{
    base64::Engine::encode(&base64::engine::general_purpose::STANDARD, s.as_bytes())
}

/// The `Authorization` value for HTTP Basic auth:
/// `Basic base64(user:password)`.
pub fn basic_auth_header(username: &str, password: &str) -> (r: String)
    ensures
        r@ == "Basic "@ + base64_of(encode_utf8(username@ + seq![':'] + password@)),
{
    let mut auth = username.to_owned();
    auth.append(":");
    auth.append(password);
    proof {
        reveal_strlit(":");
        assert(auth@ =~= username@ + seq![':'] + password@);
    }
    let encoded = b64_encode(auth.as_str());
    let mut r = String::from_str("Basic ");
    r.append(encoded.as_str());
    r
}

} // verus!
