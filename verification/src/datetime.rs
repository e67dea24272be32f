//! DTSTART / DTEND parsing: date-only, floating, UTC and TZID-qualified
//! values, and the futureness test over an instant handed in by the caller.
use vstd::prelude::*;
use crate::text::{
    find_char_from, has_prefix, lemma_find_char, spec_find_char, spec_has_prefix, spec_lines,
    spec_trim, split_lines, str_eq, trim_str,
};
use crate::ics::{spec_unfold, unfold_lines};
use chrono::{Datelike, TimeZone, Timelike};

verus! {

/// A calendar date, as an all-day DTSTART / DTEND carries it.
#[derive(Debug, Clone, Copy, PartialEq, Eq, Structural)]
pub struct DateValue {
    pub year: u32,
    pub month: u32,
    pub day: u32,
}

/// A wall-clock or UTC timestamp, second precision.
#[derive(Debug, Clone, Copy, PartialEq, Eq, Structural)]
pub struct DateTimeValue {
    pub year: u32,
    pub month: u32,
    pub day: u32,
    pub hour: u32,
    pub minute: u32,
    pub second: u32,
}

pub open spec fn spec_is_leap(y: int) -> bool {
    y % 4 == 0 && (y % 100 != 0 || y % 400 == 0)
}

pub open spec fn spec_days_in_month(y: int, m: int) -> int {
    if m == 1 || m == 3 || m == 5 || m == 7 || m == 8 || m == 10 || m == 12 {
        31
    } else if m == 4 || m == 6 || m == 9 || m == 11 {
        30
    } else if m == 2 {
        if spec_is_leap(y) {
            29
        } else {
            28
        }
    } else {
        0
    }
}

impl DateValue {
    pub open spec fn wf(self) -> bool {
        1 <= self.month <= 12 && 1 <= self.day <= spec_days_in_month(
            self.year as int,
            self.month as int,
        )
    }
}

impl DateTimeValue {
    pub open spec fn wf(self) -> bool {
        1 <= self.month <= 12 && 1 <= self.day <= 31 && self.hour <= 23 && self.minute <= 59
            && self.second <= 59
    }
}

/// Chronological order on dates: `a` strictly after `b`.
pub open spec fn spec_date_after(a: DateValue, b: DateValue) -> bool {
    if a.year != b.year {
        a.year > b.year
    } else if a.month != b.month {
        a.month > b.month
    } else {
        a.day > b.day
    }
}

pub fn date_after(a: &DateValue, b: &DateValue) -> (r: bool)
    ensures
        r == spec_date_after(*a, *b),
{
    if a.year != b.year {
        a.year > b.year
    } else if a.month != b.month {
        a.month > b.month
    } else {
        a.day > b.day
    }
}

/// Chronological order on timestamps: `a` strictly after `b`.
pub open spec fn spec_dt_after(a: DateTimeValue, b: DateTimeValue) -> bool {
    if a.year != b.year {
        a.year > b.year
    } else if a.month != b.month {
        a.month > b.month
    } else if a.day != b.day {
        a.day > b.day
    } else if a.hour != b.hour {
        a.hour > b.hour
    } else if a.minute != b.minute {
        a.minute > b.minute
    } else {
        a.second > b.second
    }
}

pub fn dt_after(a: &DateTimeValue, b: &DateTimeValue) -> (r: bool)
    ensures
        r == spec_dt_after(*a, *b),
{
    if a.year != b.year {
        a.year > b.year
    } else if a.month != b.month {
        a.month > b.month
    } else if a.day != b.day {
        a.day > b.day
    } else if a.hour != b.hour {
        a.hour > b.hour
    } else if a.minute != b.minute {
        a.minute > b.minute
    } else {
        a.second > b.second
    }
}

pub open spec fn spec_is_digit(c: char) -> bool {
    48 <= (c as u32) <= 57
}

pub open spec fn spec_dval(c: char) -> int {
    (c as u32) - 48
}

pub open spec fn spec_all_digits(s: Seq<char>) -> bool {
    forall|i: int| 0 <= i < s.len() ==> spec_is_digit(#[trigger] s[i])
}

/// The number a digit string denotes.
pub open spec fn spec_num(s: Seq<char>) -> int
    decreases s.len(),
{
    if s.len() == 0 {
        0
    } else {
        spec_num(s.drop_last()) * 10 + spec_dval(s.last())
    }
}

proof fn lemma_num_bound(s: Seq<char>)
    requires
        spec_all_digits(s),
        s.len() <= 4,
    ensures
        0 <= spec_num(s) < 10000,
    decreases s.len(),
{
    if s.len() > 0 {
        let t = s.drop_last();
        assert(spec_all_digits(t));
        lemma_num_bound(t);
        assert(0 <= spec_dval(s.last()) <= 9);
        if s.len() == 1 {
            assert(spec_num(t) == 0);
        } else if s.len() == 2 {
            assert(t.len() == 1);
            assert(spec_num(t.drop_last()) == 0);
            assert(spec_num(t) <= 9);
        } else if s.len() == 3 {
            assert(t.len() == 2);
            assert(spec_num(t.drop_last().drop_last()) == 0);
            assert(spec_num(t.drop_last()) <= 9);
            assert(spec_num(t) <= 99);
        } else {
            assert(t.len() == 3);
            assert(spec_num(t.drop_last().drop_last().drop_last()) == 0);
            assert(spec_num(t.drop_last().drop_last()) <= 9);
            assert(spec_num(t.drop_last()) <= 99);
            assert(spec_num(t) <= 999);
        }
    }
}

/// Read the number in `s[from..to]` when it is all digits.
fn read_num(s: &str, from: usize, to: usize) -> (r: Option<u32>)
    requires
        from <= to <= s@.len(),
        to - from <= 4,
    ensures
        match r {
            Some(v) => spec_all_digits(s@.subrange(from as int, to as int)) && v == spec_num(
                s@.subrange(from as int, to as int),
            ) && v < 10000,
            None => !spec_all_digits(s@.subrange(from as int, to as int)),
        },
{
    let ghost whole = s@.subrange(from as int, to as int);
    let mut acc: u32 = 0;
    let mut i: usize = from;
    proof {
        assert(s@.subrange(from as int, from as int) =~= Seq::<char>::empty());
    }
    while i < to
        invariant
            from <= i <= to,
            to <= s@.len(),
            to - from <= 4,
            whole == s@.subrange(from as int, to as int),
            spec_all_digits(s@.subrange(from as int, i as int)),
            acc == spec_num(s@.subrange(from as int, i as int)),
            acc < 10000,
        decreases to - i,
    {
        let c = s.get_char(i);
        let v = c as u32;
        if v < 48 || v > 57 {
            proof {
                assert(whole[i - from] == s@[i as int]);
                assert(!spec_is_digit(whole[i - from]));
            }
            return None;
        }
        proof {
            let pre = s@.subrange(from as int, i as int);
            let next = s@.subrange(from as int, i + 1);
            assert(next.drop_last() =~= pre);
            assert(next.last() == s@[i as int]);
            assert(spec_all_digits(next)) by {
                assert(forall|k: int| 0 <= k < pre.len() ==> spec_is_digit(#[trigger] pre[k]));
                assert(forall|k: int|
                    0 <= k < next.len() - 1 ==> #[trigger] next[k] == pre[k]);
            }
            lemma_num_bound(next);
        }
        acc = acc * 10 + (v - 48);
        i = i + 1;
    }
    proof {
        assert(s@.subrange(from as int, to as int) =~= whole);
    }
    Some(acc)
}

/// What an 8-character `YYYYMMDD` value denotes, when valid.
pub open spec fn spec_parse_date(s: Seq<char>) -> Option<DateValue> {
    if s.len() == 8 && spec_all_digits(s) {
        let y = spec_num(s.subrange(0, 4));
        let m = spec_num(s.subrange(4, 6));
        let d = spec_num(s.subrange(6, 8));
        if 1 <= m <= 12 && 1 <= d <= spec_days_in_month(y, m) {
            Some(DateValue { year: y as u32, month: m as u32, day: d as u32 })
        } else {
            None
        }
    } else {
        None
    }
}

pub fn parse_date(s: &str) -> (r: Option<DateValue>)
    requires
        s@.len() == 8,
    ensures
        r == spec_parse_date(s@),
{
    let y = read_num(s, 0, 4);
    let m = read_num(s, 4, 6);
    let d = read_num(s, 6, 8);
    proof {
        if !spec_all_digits(s@) {
            assert(exists|i: int| 0 <= i < 8 && !spec_is_digit(#[trigger] s@[i]));
            let i = choose|i: int| 0 <= i < 8 && !spec_is_digit(#[trigger] s@[i]);
            if i < 4 {
                assert(s@.subrange(0, 4)[i] == s@[i]);
                assert(!spec_all_digits(s@.subrange(0, 4)));
            } else if i < 6 {
                assert(s@.subrange(4, 6)[i - 4] == s@[i]);
                assert(!spec_all_digits(s@.subrange(4, 6)));
            } else {
                assert(s@.subrange(6, 8)[i - 6] == s@[i]);
                assert(!spec_all_digits(s@.subrange(6, 8)));
            }
        } else {
            assert(spec_all_digits(s@.subrange(0, 4))) by {
                assert(forall|k: int|
                    0 <= k < 4 ==> #[trigger] s@.subrange(0, 4)[k] == s@[k]);
            }
            assert(spec_all_digits(s@.subrange(4, 6))) by {
                assert(forall|k: int|
                    0 <= k < 2 ==> #[trigger] s@.subrange(4, 6)[k] == s@[k + 4]);
            }
            assert(spec_all_digits(s@.subrange(6, 8))) by {
                assert(forall|k: int|
                    0 <= k < 2 ==> #[trigger] s@.subrange(6, 8)[k] == s@[k + 6]);
            }
        }
    }
    match (y, m, d) {
        (Some(y), Some(m), Some(d)) => {
            let dim = days_in_month(y, m);
            if 1 <= m && m <= 12 && 1 <= d && d <= dim {
                Some(DateValue { year: y, month: m, day: d })
            } else {
                None
            }
        },
        _ => None,
    }
}

fn days_in_month(y: u32, m: u32) -> (r: u32)
    ensures
        r == spec_days_in_month(y as int, m as int),
{
    if m == 1 || m == 3 || m == 5 || m == 7 || m == 8 || m == 10 || m == 12 {
        31
    } else if m == 4 || m == 6 || m == 9 || m == 11 {
        30
    } else if m == 2 {
        if y % 4 == 0 && (y % 100 != 0 || y % 400 == 0) {
            29
        } else {
            28
        }
    } else {
        0
    }
}

/// What a 15-character `YYYYMMDDTHHMMSS` value denotes, when valid.
pub open spec fn spec_parse_datetime(s: Seq<char>) -> Option<DateTimeValue> {
    if s.len() == 15 && s[8] == 'T' && spec_parse_date(s.subrange(0, 8)) is Some {
        let date = spec_parse_date(s.subrange(0, 8))->0;
        if spec_all_digits(s.subrange(9, 15)) {
            let h = spec_num(s.subrange(9, 11));
            let mi = spec_num(s.subrange(11, 13));
            let se = spec_num(s.subrange(13, 15));
            if h <= 23 && mi <= 59 && se <= 59 {
                Some(
                    DateTimeValue {
                        year: date.year,
                        month: date.month,
                        day: date.day,
                        hour: h as u32,
                        minute: mi as u32,
                        second: se as u32,
                    },
                )
            } else {
                None
            }
        } else {
            None
        }
    } else {
        None
    }
}

pub fn parse_datetime(s: &str) -> (r: Option<DateTimeValue>)
    requires
        s@.len() == 15,
    ensures
        r == spec_parse_datetime(s@),
{
    if s.get_char(8) != 'T' {
        return None;
    }
    let date = {
        let ds = s.substring_char(0, 8);
        proof {
            assert(ds@ =~= s@.subrange(0, 8));
        }
        parse_date(ds)
    };
    let date = match date {
        Some(d) => d,
        None => {
            return None;
        },
    };
    let h = read_num(s, 9, 11);
    let mi = read_num(s, 11, 13);
    let se = read_num(s, 13, 15);
    proof {
        if !spec_all_digits(s@.subrange(9, 15)) {
            let i = choose|i: int|
                0 <= i < 6 && !spec_is_digit(#[trigger] s@.subrange(9, 15)[i]);
            assert(s@.subrange(9, 15)[i] == s@[i + 9]);
            if i < 2 {
                assert(s@.subrange(9, 11)[i] == s@[i + 9]);
                assert(!spec_all_digits(s@.subrange(9, 11)));
            } else if i < 4 {
                assert(s@.subrange(11, 13)[i - 2] == s@[i + 9]);
                assert(!spec_all_digits(s@.subrange(11, 13)));
            } else {
                assert(s@.subrange(13, 15)[i - 4] == s@[i + 9]);
                assert(!spec_all_digits(s@.subrange(13, 15)));
            }
        } else {
            assert(spec_all_digits(s@.subrange(9, 11))) by {
                assert(forall|k: int|
                    0 <= k < 2 ==> #[trigger] s@.subrange(9, 11)[k] == s@.subrange(9, 15)[k]);
            }
            assert(spec_all_digits(s@.subrange(11, 13))) by {
                assert(forall|k: int|
                    0 <= k < 2 ==> #[trigger] s@.subrange(11, 13)[k] == s@.subrange(9, 15)[k
                        + 2]);
            }
            assert(spec_all_digits(s@.subrange(13, 15))) by {
                assert(forall|k: int|
                    0 <= k < 2 ==> #[trigger] s@.subrange(13, 15)[k] == s@.subrange(9, 15)[k
                        + 4]);
            }
        }
    }
    match (h, mi, se) {
        (Some(h), Some(mi), Some(se)) => {
            if h <= 23 && mi <= 59 && se <= 59 {
                Some(
                    DateTimeValue {
                        year: date.year,
                        month: date.month,
                        day: date.day,
                        hour: h,
                        minute: mi,
                        second: se,
                    },
                )
            } else {
                None
            }
        },
        _ => None,
    }
}

/// What converting a local wall-clock time in a named zone to UTC returns:
/// a function of the zone name and the local fields alone. `None` stands
/// for an unknown zone name or a local time that no instant maps to
/// (a DST gap).
pub uninterp spec fn tz_to_utc(zone: Seq<char>, local: DateTimeValue) -> Option<DateTimeValue>;

/// Relies on chrono_tz's zone table (`str::parse::<Tz>`) and chrono's
/// `from_local_datetime(..).earliest()`: the result depends on the zone name
/// and the local fields alone, and a returned instant is a valid timestamp.
#[verifier::external_body]
fn tz_convert(zone: &str, local: &DateTimeValue) -> (r: Option<DateTimeValue>)
    ensures
        r == tz_to_utc(zone@, *local),
        match r {
            Some(u) => u.wf(),
            None => true,
        },
{
    let tz: chrono_tz::Tz = match zone.parse() { Ok(t) => t, Err(_) => return None };
    let nd = match chrono::NaiveDate::from_ymd_opt(local.year as i32, local.month, local.day) {
        Some(d) => d,
        None => return None,
    };
    let nt = match nd.and_hms_opt(local.hour, local.minute, local.second) {
        Some(t) => t,
        None => return None,
    };
    let u = match tz.from_local_datetime(&nt).earliest() {
        Some(dt) => dt.naive_utc(),
        None => return None,
    };
    Some(DateTimeValue { year: u.year() as u32, month: u.month(), day: u.day(), hour: u.hour(), minute: u.minute(), second: u.second() })
}

/// An effective end: either an all-day date or an instant.
#[derive(Debug, Clone, Copy, PartialEq, Eq, Structural)]
pub enum EventEnd {
    Date(DateValue),
    DateTime(DateTimeValue),
}

/// Strip every trailing `Z` (the behaviour of `str::trim_end_matches('Z')`).
pub open spec fn spec_strip_z(s: Seq<char>) -> Seq<char>
    decreases s.len(),
{
    if s.len() > 0 && s.last() == 'Z' {
        spec_strip_z(s.drop_last())
    } else {
        s
    }
}

/// What parsing a DTSTART / DTEND value with an optional TZID denotes:
/// 8 digits are an all-day date; 15 characters are a wall-clock time, read
/// as UTC when suffixed `Z` or without a TZID, else converted from the
/// zone with a fall-back to the naive reading.
pub open spec fn spec_parse_ics_value(v: Seq<char>, tz: Option<Seq<char>>) -> Option<EventEnd> {
    let t = spec_trim(v);
    let is_utc = t.len() > 0 && t.last() == 'Z';
    let s = spec_strip_z(t);
    if s.len() == 8 {
        match spec_parse_date(s) {
            Some(d) => Some(EventEnd::Date(d)),
            None => None,
        }
    } else if s.len() == 15 {
        match spec_parse_datetime(s) {
            Some(n) => if is_utc || tz is None {
                Some(EventEnd::DateTime(n))
            } else {
                match tz_to_utc(tz->0, n) {
                    Some(u) => Some(EventEnd::DateTime(u)),
                    None => Some(EventEnd::DateTime(n)),
                }
            },
            None => None,
        }
    } else {
        None
    }
}

/// Parse one DTSTART / DTEND value, honouring a TZID parameter.
pub fn parse_ics_value(value: &str, tzid: Option<&str>) -> (r: Option<EventEnd>)
    ensures
        r == spec_parse_ics_value(
            value@,
            match tzid {
                Some(z) => Some(z@),
                None => None,
            },
        ),
{
    let trimmed = trim_str(value);
    let tn = trimmed.as_str().unicode_len();
    let is_utc = tn > 0 && trimmed.as_str().get_char(tn - 1) == 'Z';
    let mut end = tn;
    proof {
        assert(trimmed@.subrange(0, tn as int) =~= trimmed@);
    }
    while end > 0 && trimmed.as_str().get_char(end - 1) == 'Z'
        invariant
            0 <= end <= tn,
            tn == trimmed@.len(),
            spec_strip_z(trimmed@) == spec_strip_z(trimmed@.subrange(0, end as int)),
        decreases end,
    {
        proof {
            let t = trimmed@.subrange(0, end as int);
            assert(t.last() == trimmed@[end - 1]);
            assert(t.drop_last() =~= trimmed@.subrange(0, end - 1));
        }
        end = end - 1;
    }
    let stripped = trimmed.as_str().substring_char(0, end);
    proof {
        let t = trimmed@.subrange(0, end as int);
        if end > 0 {
            assert(t.last() == trimmed@[end - 1]);
        }
        assert(spec_strip_z(t) == t);
        assert(stripped@ =~= t);
        assert(trimmed@.subrange(0, tn as int) =~= trimmed@);
    }
    let n = stripped.unicode_len();
    if n == 8 {
        match parse_date(stripped) {
            Some(d) => Some(EventEnd::Date(d)),
            None => None,
        }
    } else if n == 15 {
        let naive = match parse_datetime(stripped) {
            Some(x) => x,
            None => {
                return None;
            },
        };
        if is_utc {
            return Some(EventEnd::DateTime(naive));
        }
        match tzid {
            None => Some(EventEnd::DateTime(naive)),
            Some(z) => {
                match tz_convert(z, &naive) {
                    Some(u) => Some(EventEnd::DateTime(u)),
                    None => Some(EventEnd::DateTime(naive)),
                }
            },
        }
    } else {
        None
    }
}

} // verus!
// ---------------------------------------------------------------------------
// Effective event end and futureness
// ---------------------------------------------------------------------------

verus! {

/// Split at `;`, with `str::split` semantics: an empty string gives one
/// empty piece, and separators at the edges give empty pieces.
pub open spec fn spec_split_semi(s: Seq<char>) -> Seq<Seq<char>>
    decreases s.len(),
{
    let i = spec_find_char(s, ';');
    if 0 <= i < s.len() {
        seq![s.subrange(0, i)] + spec_split_semi(s.subrange(i + 1, s.len() as int))
    } else {
        seq![s]
    }
}

fn split_semi(s: &str) -> (r: Vec<String>)
    ensures
        r.deep_view() == spec_split_semi(s@),
{
    let n = s.unicode_len();
    let mut r: Vec<String> = Vec::new();
    let mut start: usize = 0;
    proof {
        assert(s@.subrange(0, n as int) =~= s@);
    }
    loop
        invariant
            0 <= start <= n,
            n == s@.len(),
            r.deep_view() + spec_split_semi(s@.subrange(start as int, n as int))
                =~= spec_split_semi(s@),
        decreases n - start,
    {
        let ghost rest = s@.subrange(start as int, n as int);
        let ghost prev = r.deep_view();
        let j = find_char_from(s, start, ';');
        proof {
            lemma_find_char(rest, ';');
            assert(spec_find_char(rest, ';') == j - start);
        }
        if j == n {
            let piece = s.substring_char(start, n).to_owned();
            r.push(piece);
            proof {
                assert(spec_split_semi(rest) =~= seq![rest]);
                assert(r.deep_view() =~= prev.push(rest));
                assert(r.deep_view() =~= spec_split_semi(s@));
            }
            return r;
        }
        let piece = s.substring_char(start, j).to_owned();
        r.push(piece);
        proof {
            let raw = rest.subrange(0, (j - start) as int);
            assert(raw =~= s@.subrange(start as int, j as int));
            assert(piece@ =~= raw);
            assert(rest.subrange(j - start + 1, rest.len() as int) =~= s@.subrange(
                j + 1,
                n as int,
            ));
            assert(spec_split_semi(rest) =~= seq![raw] + spec_split_semi(
                s@.subrange(j + 1, n as int),
            ));
            assert(r.deep_view() =~= prev.push(raw));
            assert(r.deep_view() + spec_split_semi(s@.subrange(j + 1, n as int)) =~= prev
                + spec_split_semi(rest));
        }
        start = j + 1;
    }
}

/// The first `TZID=` parameter among the parts from index `i` on, stripped
/// of its marker.
pub open spec fn spec_find_tzid(parts: Seq<Seq<char>>, i: int) -> Option<Seq<char>>
    decreases parts.len() - i,
{
    if i < 0 || i >= parts.len() {
        None
    } else if spec_has_prefix(parts[i], "TZID="@) {
        Some(parts[i].skip("TZID="@.len() as int))
    } else {
        spec_find_tzid(parts, i + 1)
    }
}

/// The property name and TZID parameter of a content line's parameter part.
pub open spec fn spec_prop_name(params: Seq<char>) -> Seq<char> {
    let i = spec_find_char(params, ';');
    if 0 <= i <= params.len() {
        params.subrange(0, i)
    } else {
        params
    }
}

pub open spec fn spec_tzid_of(params: Seq<char>) -> Option<Seq<char>> {
    spec_find_tzid(spec_split_semi(params), 1)
}

/// The running DTSTART / DTEND values while scanning a block's lines: each
/// matching line overwrites the value, parsed or not.
pub struct PropScan {
    pub dtend: Option<EventEnd>,
    pub dtstart: Option<EventEnd>,
}

pub open spec fn spec_prop_step(st: PropScan, line: Seq<char>) -> PropScan {
    let t = spec_trim(line);
    let ci = spec_find_char(t, ':');
    if !(0 <= ci < t.len()) {
        st
    } else {
        let params = t.subrange(0, ci);
        let value = t.subrange(ci + 1, t.len() as int);
        let prop = spec_prop_name(params);
        let tz = spec_tzid_of(params);
        if prop == "DTEND"@ {
            PropScan { dtend: spec_parse_ics_value(value, tz), ..st }
        } else if prop == "DTSTART"@ {
            PropScan { dtstart: spec_parse_ics_value(value, tz), ..st }
        } else {
            st
        }
    }
}

pub open spec fn spec_prop_to(lines: Seq<Seq<char>>, i: int) -> PropScan
    decreases i,
{
    if i <= 0 {
        PropScan { dtend: None, dtstart: None }
    } else {
        spec_prop_step(spec_prop_to(lines, i - 1), lines[i - 1])
    }
}

/// The effective end of a VEVENT block: its last DTEND value when one
/// parsed, else its last DTSTART value.
pub open spec fn spec_event_end(text: Seq<char>) -> Option<EventEnd> {
    let uf = spec_unfold(spec_lines(text));
    let st = spec_prop_to(uf, uf.len() as int);
    match st.dtend {
        Some(e) => Some(e),
        None => st.dtstart,
    }
}

/// Find the effective end of a VEVENT block: DTEND when present, else
/// DTSTART, with TZID parameters honoured.
pub fn event_end_parsed(vevent_text: &str) -> (r: Option<EventEnd>)
    ensures
        r == spec_event_end(vevent_text@),
{
    let lines = split_lines(vevent_text);
    let unfolded = unfold_lines(&lines);
    let ghost uf = spec_unfold(spec_lines(vevent_text@));
    let mut dtend: Option<EventEnd> = None;
    let mut dtstart: Option<EventEnd> = None;
    let mut i: usize = 0;
    while i < unfolded.len()
        invariant
            0 <= i <= unfolded.len(),
            unfolded.deep_view() == uf,
            dtend == spec_prop_to(uf, i as int).dtend,
            dtstart == spec_prop_to(uf, i as int).dtstart,
        decreases unfolded.len() - i,
    {
        let ghost l = uf[i as int];
        proof {
            assert(unfolded@[i as int]@ == l);
            assert(spec_prop_to(uf, i + 1) == spec_prop_step(spec_prop_to(uf, i as int), l));
        }
        let t = trim_str(unfolded[i].as_str());
        let tn = t.as_str().unicode_len();
        let ci = find_char_from(t.as_str(), 0, ':');
        proof {
            assert(t@.subrange(0, t@.len() as int) =~= t@);
            assert(spec_find_char(t@, ':') == ci);
        }
        if ci < tn {
            let params = t.as_str().substring_char(0, ci);
            let value = t.as_str().substring_char(ci + 1, tn);
            proof {
                assert(params@ =~= t@.subrange(0, ci as int));
                assert(value@ =~= t@.subrange(ci + 1, t@.len() as int));
            }
            let si = find_char_from(params, 0, ';');
            let prop = params.substring_char(0, si);
            proof {
                assert(params@.subrange(0, params@.len() as int) =~= params@);
                assert(spec_find_char(params@, ';') == si);
                assert(prop@ =~= spec_prop_name(params@));
            }
            let is_end = str_eq(prop, "DTEND");
            let is_start = str_eq(prop, "DTSTART");
            if is_end || is_start {
                let parts = split_semi(params);
                let mut k: usize = 1;
                let mut tzid: Option<String> = None;
                let ghost pv = parts.deep_view();
                while k < parts.len() && tzid.is_none()
                    invariant
                        1 <= k,
                        pv == parts.deep_view(),
                        parts.len() == pv.len(),
                        match tzid {
                            None => spec_find_tzid(pv, 1) == spec_find_tzid(pv, k as int),
                            Some(z) => spec_find_tzid(pv, 1) == Some(z@),
                        },
                    decreases parts.len() - k, (if tzid is None { 1int } else { 0int }),
                {
                    proof {
                        reveal_strlit("TZID=");
                        assert(parts@[k as int]@ == pv[k as int]);
                    }
                    if has_prefix(parts[k].as_str(), "TZID=") {
                        let pn = parts[k].as_str().unicode_len();
                        let stripped = parts[k].as_str().substring_char(5, pn);
                        proof {
                            assert("TZID="@.len() == 5);
                            assert(stripped@ =~= pv[k as int].skip(5));
                            assert(spec_find_tzid(pv, k as int) == Some(pv[k as int].skip(5)));
                        }
                        tzid = Some(stripped.to_owned());
                    } else {
                        k = k + 1;
                    }
                }
                proof {
                    if tzid is None {
                        assert(k >= pv.len());
                        assert(spec_find_tzid(pv, k as int) is None);
                    }
                }
                let parsed = match &tzid {
                    Some(z) => parse_ics_value(value, Some(z.as_str())),
                    None => parse_ics_value(value, None),
                };
                proof {
                    match tzid {
                        Some(z) => {
                            assert(spec_tzid_of(params@) == Some(z@));
                        },
                        None => {
                            assert(spec_tzid_of(params@) is None);
                        },
                    }
                }
                if is_end {
                    dtend = parsed;
                } else {
                    dtstart = parsed;
                }
            }
        }
        i = i + 1;
    }
    match dtend {
        Some(e) => Some(e),
        None => dtstart,
    }
}

/// Is an event's effective end strictly after the given instant? An event
/// whose end cannot be read counts as future (fail open).
pub open spec fn spec_is_future(text: Seq<char>, today: DateValue, now: DateTimeValue) -> bool {
    match spec_event_end(text) {
        Some(EventEnd::Date(d)) => spec_date_after(d, today),
        Some(EventEnd::DateTime(t)) => spec_dt_after(t, now),
        None => true,
    }
}

/// The futureness test: dates compare against the caller's local date,
/// instants against the caller's UTC time.
pub fn is_event_in_future(vevent_text: &str, today: &DateValue, now: &DateTimeValue) -> (r: bool)
    ensures
        r == spec_is_future(vevent_text@, *today, *now),
{
    match event_end_parsed(vevent_text) {
        Some(EventEnd::Date(d)) => date_after(&d, today),
        Some(EventEnd::DateTime(t)) => dt_after(&t, now),
        None => true,
    }
}

} // verus!
