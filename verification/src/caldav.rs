//! CalDAV client logic: URL composition, the trailing-slash retry form, and
//! parsing of multistatus responses (calendar discovery and calendar-data
//! extraction, with XML entity decoding).
use vstd::prelude::*;
use crate::text::{
    find_char_from, has_prefix, lemma_find_char, spec_find_char, spec_has_prefix, str_eq,
};

verus! {

/// A URL with its trailing slash toggled: appended when absent, dropped
/// when present.
pub open spec fn spec_toggle_slash(u: Seq<char>) -> Seq<char> {
    if u.len() > 0 && u.last() == '/' {
        u.drop_last()
    } else {
        u.push('/')
    }
}

pub fn toggle_slash(url: &str) -> (r: String)
    ensures
        r@ == spec_toggle_slash(url@),
{
    let n = url.unicode_len();
    if n > 0 && url.get_char(n - 1) == '/' {
        let r = url.substring_char(0, n - 1).to_owned();
        proof {
            assert(r@ =~= url@.drop_last());
        }
        r
    } else {
        let mut r = url.to_owned();
        r.append("/");
        proof {
            reveal_strlit("/");
            assert(r@ =~= url@.push('/'));
        }
        r
    }
}

/// The scheme and authority of a URL: everything up to the first `/` after
/// `://`, or the whole URL when no such `/` exists.
pub open spec fn spec_origin(u: Seq<char>) -> Seq<char> {
    let m = spec_find_sub(u, "://"@);
    if m + 3 <= u.len() {
        let rest = u.subrange(m + 3, u.len() as int);
        let sl = spec_find_char(rest, '/');
        if 0 <= sl <= rest.len() {
            u.subrange(0, m + 3 + sl)
        } else {
            u
        }
    } else {
        u
    }
}

/// First index where `p` occurs in `s`, or the length when absent.
pub open spec fn spec_find_sub(s: Seq<char>, p: Seq<char>) -> int
    decreases s.len(),
{
    if spec_has_prefix(s, p) {
        0
    } else if s.len() == 0 {
        0
    } else {
        1 + spec_find_sub(s.drop_first(), p)
    }
}

pub proof fn lemma_find_sub_is(s: Seq<char>, p: Seq<char>, i: int)
    requires
        p.len() >= 1,
        0 <= i <= s.len(),
        i == s.len() || spec_has_prefix(s.subrange(i, s.len() as int), p),
        forall|k: int|
            0 <= k < i ==> !spec_has_prefix(#[trigger] s.subrange(k, s.len() as int), p),
    ensures
        spec_find_sub(s, p) == i,
    decreases s.len(),
{
    if spec_has_prefix(s, p) {
        if i > 0 {
            assert(s.subrange(0, s.len() as int) =~= s);
            assert(false);
        }
    } else if s.len() == 0 {
        assert(i == 0);
    } else {
        let t = s.drop_first();
        assert(i >= 1) by {
            if i == 0 {
                assert(s.subrange(0, s.len() as int) =~= s);
            }
        }
        assert forall|k: int| 0 <= k < i - 1 implies !spec_has_prefix(
            #[trigger] t.subrange(k, t.len() as int),
            p,
        ) by {
            assert(t.subrange(k, t.len() as int) =~= s.subrange(k + 1, s.len() as int));
        }
        if i < s.len() {
            assert(t.subrange(i - 1, t.len() as int) =~= s.subrange(i, s.len() as int));
        }
        lemma_find_sub_is(t, p, i - 1);
    }
}

/// First index at or after `from` where `p` occurs in `s`, or the length.
pub fn find_sub_from(s: &str, from: usize, p: &str) -> (r: usize)
    requires
        from <= s@.len(),
        p@.len() >= 1,
    ensures
        from <= r <= s@.len(),
        r < s@.len() ==> spec_has_prefix(s@.subrange(r as int, s@.len() as int), p@),
        forall|k: int|
            from <= k < r ==> !spec_has_prefix(#[trigger] s@.subrange(k, s@.len() as int), p@),
        r == s@.len() ==> forall|k: int|
            from <= k < s@.len() ==> !spec_has_prefix(
                #[trigger] s@.subrange(k, s@.len() as int),
                p@,
            ),
{
    let n = s.unicode_len();
    let pn = p.unicode_len();
    let mut i: usize = from;
    while i < n
        invariant
            from <= i <= n,
            n == s@.len(),
            pn == p@.len(),
            pn >= 1,
            forall|k: int|
                from <= k < i ==> !spec_has_prefix(#[trigger] s@.subrange(k, s@.len() as int), p@),
        decreases n - i,
    {
        if pn <= n - i {
            let mut j: usize = 0;
            let mut matches = true;
            while j < pn
                invariant
                    0 <= j <= pn,
                    pn == p@.len(),
                    n == s@.len(),
                    i + pn <= n,
                    matches == (forall|k: int| 0 <= k < j ==> s@[i + k] == p@[k]),
                decreases pn - j,
            {
                if s.get_char(i + j) != p.get_char(j) {
                    proof {
                        assert(s@[i + j as int] != p@[j as int]);
                        assert(!(forall|k: int| 0 <= k < j + 1 ==> s@[i + k] == p@[k]));
                    }
                    matches = false;
                    j = pn;
                } else {
                    proof {
                        assert(s@[i + j as int] == p@[j as int]);
                    }
                    j = j + 1;
                }
            }
            if matches {
                proof {
                    let t = s@.subrange(i as int, n as int);
                    assert(t.subrange(0, pn as int) =~= p@);
                }
                return i;
            }
            proof {
                let t = s@.subrange(i as int, n as int);
                let k = choose|k: int| 0 <= k < pn && s@[i + k] != p@[k];
                assert(t.subrange(0, pn as int)[k] == s@[i + k]);
                assert(!spec_has_prefix(t, p@));
            }
        } else {
            proof {
                let t = s@.subrange(i as int, n as int);
                assert(t.len() < pn);
                assert(!spec_has_prefix(t, p@));
            }
        }
        i = i + 1;
    }
    n
}

/// Compose the URL of a calendar: an href starting `/` is origin-relative,
/// an absolute href stands alone, and any other href is joined to the base
/// with exactly one `/` between them.
pub open spec fn spec_resolve_url(base: Seq<char>, href: Seq<char>) -> Seq<char> {
    if href.len() > 0 && href[0] == '/' {
        spec_origin(base) + href
    } else if spec_has_prefix(href, "http://"@) || spec_has_prefix(href, "https://"@) {
        href
    } else if base.len() > 0 && base.last() == '/' {
        base + href
    } else {
        base + seq!['/'] + href
    }
}

pub fn resolve_calendar_url(base: &str, href: &str) -> (r: String)
    ensures
        r@ == spec_resolve_url(base@, href@),
{
    let hn = href.unicode_len();
    let bn = base.unicode_len();
    if hn > 0 && href.get_char(0) == '/' {
        proof {
            reveal_strlit("://");
        }
        let m = find_sub_from(base, 0, "://");
        proof {
            if m < bn {
                assert(spec_has_prefix(base@.subrange(m as int, bn as int), "://"@));
                assert(m + 3 <= bn);
            }
            lemma_find_sub_is(base@, "://"@, m as int);
        }
        let origin_end = if m < bn {
            find_char_from(base, m + 3, '/')
        } else {
            bn
        };
        let mut r = base.substring_char(0, origin_end).to_owned();
        r.append(href);
        proof {
            if m < bn {
                let rest = base@.subrange(m + 3, bn as int);
                lemma_find_char(rest, '/');
                let sl = spec_find_char(rest, '/');
                assert(origin_end == m + 3 + sl);
                assert(base@.subrange(0, origin_end as int) =~= spec_origin(base@));
            } else {
                assert(spec_find_sub(base@, "://"@) == bn);
                assert(base@.subrange(0, bn as int) =~= base@);
                assert(base@.subrange(0, origin_end as int) =~= spec_origin(base@));
            }
            assert(r@ =~= spec_origin(base@) + href@);
        }
        r
    } else if has_prefix(href, "http://") || has_prefix(href, "https://") {
        href.to_owned()
    } else if bn > 0 && base.get_char(bn - 1) == '/' {
        let mut r = base.to_owned();
        r.append(href);
        r
    } else {
        let mut r = base.to_owned();
        r.append("/");
        r.append(href);
        proof {
            reveal_strlit("/");
            assert(r@ =~= base@ + seq!['/'] + href@);
        }
        r
    }
}

} // verus!
// ---------------------------------------------------------------------------
// Multistatus parsing
// ---------------------------------------------------------------------------

verus! {

/// The XML token stream: `(true, body)` for a tag (the text between `<`
/// and `>`), `(false, run)` for a text run.
pub open spec fn spec_tokenize(s: Seq<char>) -> Seq<(bool, Seq<char>)>
    decreases s.len(),
{
    if s.len() == 0 {
        Seq::empty()
    } else if s[0] == '<' {
        let j = spec_find_char(s, '>');
        if 0 <= j < s.len() {
            seq![(true, s.subrange(1, j))] + spec_tokenize(s.subrange(j + 1, s.len() as int))
        } else {
            seq![(true, s.subrange(1, s.len() as int))]
        }
    } else {
        let j = spec_find_char(s, '<');
        if 1 <= j <= s.len() {
            seq![(false, s.subrange(0, j))] + spec_tokenize(s.subrange(j, s.len() as int))
        } else {
            seq![(false, s)]
        }
    }
}

/// Tokenize an XML text into tags and text runs.
pub fn tokenize_xml(s: &str) -> (r: Vec<(bool, String)>)
    ensures
        r.deep_view() == spec_tokenize(s@),
{
    let n = s.unicode_len();
    let mut r: Vec<(bool, String)> = Vec::new();
    let mut pos: usize = 0;
    proof {
        assert(s@.subrange(0, n as int) =~= s@);
        assert(r.deep_view() + spec_tokenize(s@.subrange(0, n as int)) =~= spec_tokenize(s@));
    }
    while pos < n
        invariant
            0 <= pos <= n,
            n == s@.len(),
            r.deep_view() + spec_tokenize(s@.subrange(pos as int, n as int)) =~= spec_tokenize(
                s@,
            ),
        decreases n - pos,
    {
        let ghost rest = s@.subrange(pos as int, n as int);
        let ghost prev = r.deep_view();
        if s.get_char(pos) == '<' {
            let j = find_char_from(s, pos, '>');
            proof {
                lemma_find_char(rest, '>');
                assert(spec_find_char(rest, '>') == j - pos);
            }
            if j < n {
                let body = s.substring_char(pos + 1, j).to_owned();
                r.push((true, body));
                proof {
                    let jj = j - pos;
                    assert(rest.subrange(1, jj as int) =~= s@.subrange(pos + 1, j as int));
                    assert(rest.subrange(jj + 1, rest.len() as int) =~= s@.subrange(
                        j + 1,
                        n as int,
                    ));
                    assert(spec_tokenize(rest) =~= seq![(true, rest.subrange(1, jj as int))]
                        + spec_tokenize(s@.subrange(j + 1, n as int)));
                    assert(r.deep_view() =~= prev.push((true, rest.subrange(1, jj as int))));
                    assert(r.deep_view() + spec_tokenize(s@.subrange(j + 1, n as int)) =~= prev
                        + spec_tokenize(rest));
                }
                pos = j + 1;
            } else {
                let body = s.substring_char(pos + 1, n).to_owned();
                r.push((true, body));
                proof {
                    assert(rest.subrange(1, rest.len() as int) =~= s@.subrange(
                        pos + 1,
                        n as int,
                    ));
                    assert(spec_tokenize(rest) =~= seq![
                        (true, rest.subrange(1, rest.len() as int)),
                    ]);
                    assert(r.deep_view() =~= prev.push(
                        (true, rest.subrange(1, rest.len() as int)),
                    ));
                    assert(s@.subrange(n as int, n as int).len() == 0);
                    assert(r.deep_view() + spec_tokenize(s@.subrange(n as int, n as int)) =~= prev
                        + spec_tokenize(rest));
                }
                pos = n;
            }
        } else {
            let j = find_char_from(s, pos, '<');
            proof {
                lemma_find_char(rest, '<');
                assert(spec_find_char(rest, '<') == j - pos);
                assert(rest[0] != '<');
                assert(j - pos >= 1);
            }
            let piece = s.substring_char(pos, j).to_owned();
            r.push((false, piece));
            proof {
                let jj = j - pos;
                assert(1 <= jj <= rest.len());
                assert(rest.subrange(0, jj as int) =~= s@.subrange(pos as int, j as int));
                assert(rest.subrange(jj as int, rest.len() as int) =~= s@.subrange(
                    j as int,
                    n as int,
                ));
                assert(spec_tokenize(rest) =~= seq![(false, rest.subrange(0, jj as int))]
                    + spec_tokenize(rest.subrange(jj as int, rest.len() as int)));
                assert(r.deep_view() =~= prev.push((false, rest.subrange(0, jj as int))));
                assert(r.deep_view() + spec_tokenize(s@.subrange(j as int, n as int)) =~= prev
                    + spec_tokenize(rest));
            }
            pos = j;
        }
    }
    proof {
        assert(spec_tokenize(s@.subrange(n as int, n as int)).len() == 0);
        assert(r.deep_view() =~= spec_tokenize(s@));
    }
    r
}

/// Is this tag a closing tag?
pub open spec fn spec_tag_closing(t: Seq<char>) -> bool {
    t.len() > 0 && t[0] == '/'
}

/// The first index of a name-ending character (whitespace or `/`), or the
/// length.
pub open spec fn spec_name_end(s: Seq<char>) -> int
    decreases s.len(),
{
    if s.len() == 0 {
        0
    } else if s[0] == ' ' || s[0] == '\t' || s[0] == '\r' || s[0] == '\n' || s[0] == '/' {
        0
    } else {
        1 + spec_name_end(s.drop_first())
    }
}

/// The last `:` of a name, or -1.
pub open spec fn spec_rfind_colon(s: Seq<char>) -> int
    decreases s.len(),
{
    if s.len() == 0 {
        -1
    } else if s.last() == ':' {
        s.len() - 1
    } else {
        spec_rfind_colon(s.drop_last())
    }
}

/// The local name of a tag: strip a leading `/`, stop at whitespace or
/// `/`, and drop any namespace prefix up to the last `:`.
pub open spec fn spec_local_name(t: Seq<char>) -> Seq<char> {
    let body = if spec_tag_closing(t) {
        t.drop_first()
    } else {
        t
    };
    let e = spec_name_end(body);
    let name = if 0 <= e <= body.len() {
        body.subrange(0, e)
    } else {
        body
    };
    let c = spec_rfind_colon(name);
    if -1 <= c < name.len() {
        name.subrange(c + 1, name.len() as int)
    } else {
        name
    }
}

proof fn lemma_name_end(s: Seq<char>, i: int)
    requires
        0 <= i <= s.len(),
        i == s.len() || s[i] == ' ' || s[i] == '\t' || s[i] == '\r' || s[i] == '\n' || s[i] == '/',
        forall|k: int|
            0 <= k < i ==> !(s[k] == ' ' || s[k] == '\t' || s[k] == '\r' || s[k] == '\n' || (
            #[trigger] s[k]) == '/'),
    ensures
        spec_name_end(s) == i,
    decreases s.len(),
{
    if s.len() == 0 {
    } else if s[0] == ' ' || s[0] == '\t' || s[0] == '\r' || s[0] == '\n' || s[0] == '/' {
        assert(i == 0);
    } else {
        assert(i >= 1);
        let t = s.drop_first();
        assert(forall|k: int| 0 <= k < i - 1 ==> #[trigger] t[k] == s[k + 1]);
        lemma_name_end(t, i - 1);
    }
}

proof fn lemma_rfind_colon(s: Seq<char>, c: int)
    requires
        -1 <= c < s.len(),
        c == -1 || s[c] == ':',
        forall|k: int| c < k < s.len() ==> (#[trigger] s[k]) != ':',
    ensures
        spec_rfind_colon(s) == c,
    decreases s.len(),
{
    if s.len() == 0 {
    } else if s.last() == ':' {
        assert(c == s.len() - 1);
    } else {
        assert(c < s.len() - 1);
        let t = s.drop_last();
        assert(forall|k: int| 0 <= k < t.len() ==> #[trigger] t[k] == s[k]);
        lemma_rfind_colon(t, c);
    }
}

fn is_name_stop(c: char) -> (r: bool)
    ensures
        r == (c == ' ' || c == '\t' || c == '\r' || c == '\n' || c == '/'),
{
    c == ' ' || c == '\t' || c == '\r' || c == '\n' || c == '/'
}

/// The local name of a tag body.
pub fn local_name(t: &str) -> (r: String)
    ensures
        r@ == spec_local_name(t@),
{
    let n = t.unicode_len();
    let closing = n > 0 && t.get_char(0) == '/';
    let start: usize = if closing {
        1
    } else {
        0
    };
    let mut e: usize = start;
    while e < n && !is_name_stop(t.get_char(e))
        invariant
            start <= e <= n,
            n == t@.len(),
            start == (if spec_tag_closing(t@) {
                1int
            } else {
                0int
            }),
            forall|k: int|
                start <= k < e ==> !(t@[k] == ' ' || t@[k] == '\t' || t@[k] == '\r' || t@[k]
                    == '\n' || (#[trigger] t@[k]) == '/'),
        decreases n - e,
    {
        e = e + 1;
    }
    let ghost body = if spec_tag_closing(t@) {
        t@.drop_first()
    } else {
        t@
    };
    proof {
        assert(forall|k: int| 0 <= k < body.len() ==> #[trigger] body[k] == t@[k + start]);
        lemma_name_end(body, e - start);
    }
    let mut c: usize = e;
    while c > start && t.get_char(c - 1) != ':'
        invariant
            start <= c <= e <= n,
            n == t@.len(),
            forall|k: int| c <= k < e ==> (#[trigger] t@[k]) != ':',
        decreases c,
    {
        c = c - 1;
    }
    let r = t.substring_char(c, e).to_owned();
    proof {
        let name = body.subrange(0, e - start);
        assert(forall|k: int| 0 <= k < name.len() ==> #[trigger] name[k] == t@[k + start]);
        if c > start {
            assert(t@[c - 1] == ':');
            assert(name[c - 1 - start] == ':');
            lemma_rfind_colon(name, c - 1 - start);
        } else {
            lemma_rfind_colon(name, -1);
        }
        assert(r@ =~= spec_local_name(t@));
    }
    r
}

/// XML entity decoding for the five named entities and the CR / LF
/// character references; anything else passes through.
pub open spec fn spec_xml_decode(s: Seq<char>) -> Seq<char>
    decreases s.len(),
{
    if s.len() == 0 {
        Seq::empty()
    } else if spec_has_prefix(s, "&lt;"@) && s.len() >= 4 {
        seq!['<'] + spec_xml_decode(s.skip(4))
    } else if spec_has_prefix(s, "&gt;"@) && s.len() >= 4 {
        seq!['>'] + spec_xml_decode(s.skip(4))
    } else if spec_has_prefix(s, "&amp;"@) && s.len() >= 5 {
        seq!['&'] + spec_xml_decode(s.skip(5))
    } else if spec_has_prefix(s, "&quot;"@) && s.len() >= 6 {
        seq!['"'] + spec_xml_decode(s.skip(6))
    } else if spec_has_prefix(s, "&apos;"@) && s.len() >= 6 {
        seq!['\''] + spec_xml_decode(s.skip(6))
    } else if spec_has_prefix(s, "&#13;"@) && s.len() >= 5 {
        seq!['\r'] + spec_xml_decode(s.skip(5))
    } else if spec_has_prefix(s, "&#10;"@) && s.len() >= 5 {
        seq!['\n'] + spec_xml_decode(s.skip(5))
    } else {
        seq![s[0]] + spec_xml_decode(s.skip(1))
    }
}

fn decode_step(s: &str, pos: usize, out: &mut String) -> (step: usize)
    requires
        pos < s@.len(),
    ensures
        1 <= step <= s@.len() - pos,
        final(out)@ + spec_xml_decode(s@.subrange(pos + step, s@.len() as int)) == old(out)@
            + spec_xml_decode(s@.subrange(pos as int, s@.len() as int)),
{
    let n = s.unicode_len();
    let ghost rest = s@.subrange(pos as int, n as int);
    proof {
        assert(forall|k: int| 0 <= k < rest.len() ==> #[trigger] rest[k] == s@[pos + k]);
    }
    if has_prefix_from(s, pos, "&lt;") {
        out.append("<");
        proof {
            reveal_strlit("<");
            reveal_strlit("&lt;");
            assert(rest.skip(4) =~= s@.subrange(pos + 4, n as int));
            assert("<"@ =~= seq!['<']);
        }
        return 4;
    }
    if has_prefix_from(s, pos, "&gt;") {
        out.append(">");
        proof {
            reveal_strlit(">");
            reveal_strlit("&gt;");
            assert(rest.skip(4) =~= s@.subrange(pos + 4, n as int));
            assert(">"@ =~= seq!['>']);
        }
        return 4;
    }
    if has_prefix_from(s, pos, "&amp;") {
        out.append("&");
        proof {
            reveal_strlit("&");
            reveal_strlit("&amp;");
            reveal_strlit("&lt;");
            reveal_strlit("&gt;");
            assert(rest.skip(5) =~= s@.subrange(pos + 5, n as int));
            assert("&"@ =~= seq!['&']);
        }
        return 5;
    }
    if has_prefix_from(s, pos, "&quot;") {
        out.append("\"");
        proof {
            reveal_strlit("\"");
            reveal_strlit("&quot;");
            reveal_strlit("&lt;");
            reveal_strlit("&gt;");
            reveal_strlit("&amp;");
            assert(rest.skip(6) =~= s@.subrange(pos + 6, n as int));
            assert("\""@ =~= seq!['"']);
        }
        return 6;
    }
    if has_prefix_from(s, pos, "&apos;") {
        out.append("'");
        proof {
            reveal_strlit("'");
            reveal_strlit("&apos;");
            reveal_strlit("&lt;");
            reveal_strlit("&gt;");
            reveal_strlit("&amp;");
            reveal_strlit("&quot;");
            assert(rest.skip(6) =~= s@.subrange(pos + 6, n as int));
            assert("'"@ =~= seq!['\'']);
        }
        return 6;
    }
    if has_prefix_from(s, pos, "&#13;") {
        out.append("\r");
        proof {
            reveal_strlit("\r");
            reveal_strlit("&#13;");
            reveal_strlit("&lt;");
            reveal_strlit("&gt;");
            reveal_strlit("&amp;");
            reveal_strlit("&quot;");
            reveal_strlit("&apos;");
            assert(rest.skip(5) =~= s@.subrange(pos + 5, n as int));
            assert("\r"@ =~= seq!['\r']);
        }
        return 5;
    }
    if has_prefix_from(s, pos, "&#10;") {
        out.append("\n");
        proof {
            reveal_strlit("\n");
            reveal_strlit("&#10;");
            reveal_strlit("&lt;");
            reveal_strlit("&gt;");
            reveal_strlit("&amp;");
            reveal_strlit("&quot;");
            reveal_strlit("&apos;");
            reveal_strlit("&#13;");
            assert(rest.skip(5) =~= s@.subrange(pos + 5, n as int));
            assert("\n"@ =~= seq!['\n']);
        }
        return 5;
    }
    let piece = s.substring_char(pos, pos + 1);
    out.append(piece);
    proof {
        reveal_strlit("&lt;");
        reveal_strlit("&gt;");
        reveal_strlit("&amp;");
        reveal_strlit("&quot;");
        reveal_strlit("&apos;");
        reveal_strlit("&#13;");
        reveal_strlit("&#10;");
        assert(rest.skip(1) =~= s@.subrange(pos + 1, n as int));
        assert(piece@ =~= seq![rest[0]]);
    }
    1
}

fn has_prefix_from(s: &str, start: usize, p: &str) -> (r: bool)
    requires
        start <= s@.len(),
    ensures
        r == (spec_has_prefix(s@.subrange(start as int, s@.len() as int), p@)
            && s@.subrange(start as int, s@.len() as int).len() >= p@.len()),
{
    let pn = p.unicode_len();
    let n = s.unicode_len();
    if pn > n - start {
        return false;
    }
    let mut i: usize = 0;
    while i < pn
        invariant
            0 <= i <= pn,
            pn == p@.len(),
            n == s@.len(),
            start + pn <= n,
            forall|k: int| 0 <= k < i ==> s@[start + k] == p@[k],
        decreases pn - i,
    {
        if s.get_char(start + i) != p.get_char(i) {
            proof {
                let t = s@.subrange(start as int, n as int);
                assert(t.subrange(0, pn as int)[i as int] == s@[start + i]);
            }
            return false;
        }
        i = i + 1;
    }
    proof {
        let t = s@.subrange(start as int, n as int);
        assert(t.subrange(0, pn as int) =~= p@);
    }
    true
}

/// Decode XML entities in a text.
pub fn xml_decode(s: &str) -> (r: String)
    ensures
        r@ == spec_xml_decode(s@),
{
    let n = s.unicode_len();
    let mut out = String::new();
    let mut pos: usize = 0;
    proof {
        assert(s@.subrange(0, n as int) =~= s@);
    }
    while pos < n
        invariant
            0 <= pos <= n,
            n == s@.len(),
            out@ + spec_xml_decode(s@.subrange(pos as int, n as int)) =~= spec_xml_decode(s@),
        decreases n - pos,
    {
        let step = decode_step(s, pos, &mut out);
        pos = pos + step;
    }
    proof {
        assert(spec_xml_decode(s@.subrange(n as int, n as int)).len() == 0);
        assert(out@ =~= spec_xml_decode(s@));
    }
    out
}

} // verus!
// ---------------------------------------------------------------------------
// Multistatus scans
// ---------------------------------------------------------------------------

verus! {

/// The discovery scan: inside each `response`, remember the `href` text and
/// whether the `resourcetype` carried both `collection` and `calendar`.
pub struct CalScan {
    pub in_resp: bool,
    pub want_href: bool,
    pub in_rtype: bool,
    pub saw_col: bool,
    pub saw_cal: bool,
    pub href: Seq<char>,
    pub hrefs: Seq<Seq<char>>,
}

pub open spec fn spec_cal_init() -> CalScan {
    CalScan {
        in_resp: false,
        want_href: false,
        in_rtype: false,
        saw_col: false,
        saw_cal: false,
        href: Seq::empty(),
        hrefs: Seq::empty(),
    }
}

pub open spec fn cal_step(st: CalScan, tok: (bool, Seq<char>)) -> CalScan {
    if tok.0 {
        let nm = spec_local_name(tok.1);
        let closing = spec_tag_closing(tok.1);
        if nm == "response"@ {
            if closing {
                if st.in_resp && st.saw_col && st.saw_cal {
                    CalScan { in_resp: false, hrefs: st.hrefs.push(st.href), ..st }
                } else {
                    CalScan { in_resp: false, ..st }
                }
            } else {
                CalScan {
                    in_resp: true,
                    want_href: false,
                    in_rtype: false,
                    saw_col: false,
                    saw_cal: false,
                    href: Seq::empty(),
                    ..st
                }
            }
        } else if nm == "href"@ {
            CalScan { want_href: !closing, ..st }
        } else if nm == "resourcetype"@ {
            CalScan { in_rtype: !closing && st.in_resp, ..st }
        } else if nm == "collection"@ && !closing && st.in_resp && st.in_rtype {
            CalScan { saw_col: true, ..st }
        } else if nm == "calendar"@ && !closing && st.in_resp && st.in_rtype {
            CalScan { saw_cal: true, ..st }
        } else {
            st
        }
    } else {
        if st.in_resp && st.want_href {
            CalScan { href: st.href + tok.1, ..st }
        } else {
            st
        }
    }
}

pub open spec fn cal_scan_to(toks: Seq<(bool, Seq<char>)>, i: int) -> CalScan
    decreases i,
{
    if i <= 0 {
        spec_cal_init()
    } else {
        cal_step(cal_scan_to(toks, i - 1), toks[i - 1])
    }
}

/// The hrefs of the calendar collections in a PROPFIND multistatus body:
/// a response qualifies when its `resourcetype` holds both a `collection`
/// and a `calendar` element.
pub open spec fn spec_parse_calendars(xml: Seq<char>) -> Seq<Seq<char>> {
    let toks = spec_tokenize(xml);
    cal_scan_to(toks, toks.len() as int).hrefs
}

/// Parse a PROPFIND multistatus body: the href of every response whose
/// resourcetype holds both a collection and a calendar element.
pub fn parse_multistatus_calendars(xml: &str) -> (r: Vec<String>)
    ensures
        r.deep_view() == spec_parse_calendars(xml@),
{
    let toks = tokenize_xml(xml);
    let ghost tv = spec_tokenize(xml@);
    let mut in_resp = false;
    let mut want_href = false;
    let mut in_rtype = false;
    let mut saw_col = false;
    let mut saw_cal = false;
    let mut href = String::new();
    let mut hrefs: Vec<String> = Vec::new();
    let mut i: usize = 0;
    proof {
        assert(hrefs.deep_view() =~= cal_scan_to(tv, 0).hrefs);
        assert(href@ =~= cal_scan_to(tv, 0).href);
    }
    while i < toks.len()
        invariant
            0 <= i <= toks.len(),
            toks.deep_view() == tv,
            in_resp == cal_scan_to(tv, i as int).in_resp,
            want_href == cal_scan_to(tv, i as int).want_href,
            in_rtype == cal_scan_to(tv, i as int).in_rtype,
            saw_col == cal_scan_to(tv, i as int).saw_col,
            saw_cal == cal_scan_to(tv, i as int).saw_cal,
            href@ == cal_scan_to(tv, i as int).href,
            hrefs.deep_view() == cal_scan_to(tv, i as int).hrefs,
        decreases toks.len() - i,
    {
        let ghost st = cal_scan_to(tv, i as int);
        proof {
            assert(cal_scan_to(tv, i + 1) == cal_step(st, tv[i as int]));
            assert(toks@[i as int].0 == tv[i as int].0);
            assert(toks@[i as int].1@ == tv[i as int].1);
        }
        let is_tag = toks[i].0;
        if is_tag {
            let nm = local_name(toks[i].1.as_str());
            let closing = {
                let b = &toks[i].1;
                b.as_str().unicode_len() > 0 && b.as_str().get_char(0) == '/'
            };
            if str_eq(nm.as_str(), "response") {
                if closing {
                    if in_resp && saw_col && saw_cal {
                        hrefs.push(href.clone());
                        proof {
                            assert(hrefs.deep_view() =~= st.hrefs.push(st.href));
                        }
                    }
                    in_resp = false;
                } else {
                    in_resp = true;
                    want_href = false;
                    in_rtype = false;
                    saw_col = false;
                    saw_cal = false;
                    href = String::new();
                }
            } else if str_eq(nm.as_str(), "href") {
                want_href = !closing;
            } else if str_eq(nm.as_str(), "resourcetype") {
                in_rtype = !closing && in_resp;
            } else if str_eq(nm.as_str(), "collection") {
                if !closing && in_resp && in_rtype {
                    saw_col = true;
                }
            } else if str_eq(nm.as_str(), "calendar") {
                if !closing && in_resp && in_rtype {
                    saw_cal = true;
                }
            }
        } else {
            if in_resp && want_href {
                href.append(toks[i].1.as_str());
            }
        }
        i = i + 1;
    }
    hrefs
}

/// The calendar-data scan: capture the text run directly after each opening
/// `calendar-data` tag, entity-decoded.
pub struct DataScan {
    pub want: bool,
    pub out: Seq<Seq<char>>,
}

pub open spec fn data_step(st: DataScan, tok: (bool, Seq<char>)) -> DataScan {
    if tok.0 {
        let nm = spec_local_name(tok.1);
        if nm == "calendar-data"@ {
            DataScan { want: !spec_tag_closing(tok.1), ..st }
        } else {
            st
        }
    } else {
        if st.want {
            DataScan { want: false, out: st.out.push(spec_xml_decode(tok.1)) }
        } else {
            st
        }
    }
}

pub open spec fn data_scan_to(toks: Seq<(bool, Seq<char>)>, i: int) -> DataScan
    decreases i,
{
    if i <= 0 {
        DataScan { want: false, out: Seq::empty() }
    } else {
        data_step(data_scan_to(toks, i - 1), toks[i - 1])
    }
}

/// The decoded calendar-data payloads of a REPORT multistatus body.
pub open spec fn spec_parse_calendar_data(xml: Seq<char>) -> Seq<Seq<char>> {
    let toks = spec_tokenize(xml);
    data_scan_to(toks, toks.len() as int).out
}

/// Parse a REPORT multistatus body: every `calendar-data` text, decoded.
pub fn parse_multistatus_calendar_data(xml: &str) -> (r: Vec<String>)
    ensures
        r.deep_view() == spec_parse_calendar_data(xml@),
{
    let toks = tokenize_xml(xml);
    let ghost tv = spec_tokenize(xml@);
    let mut want = false;
    let mut out: Vec<String> = Vec::new();
    let mut i: usize = 0;
    proof {
        assert(out.deep_view() =~= data_scan_to(tv, 0).out);
    }
    while i < toks.len()
        invariant
            0 <= i <= toks.len(),
            toks.deep_view() == tv,
            want == data_scan_to(tv, i as int).want,
            out.deep_view() == data_scan_to(tv, i as int).out,
        decreases toks.len() - i,
    {
        let ghost st = data_scan_to(tv, i as int);
        proof {
            assert(data_scan_to(tv, i + 1) == data_step(st, tv[i as int]));
            assert(toks@[i as int].0 == tv[i as int].0);
            assert(toks@[i as int].1@ == tv[i as int].1);
        }
        let is_tag = toks[i].0;
        if is_tag {
            let nm = local_name(toks[i].1.as_str());
            if str_eq(nm.as_str(), "calendar-data") {
                let closing = {
                    let b = &toks[i].1;
                    b.as_str().unicode_len() > 0 && b.as_str().get_char(0) == '/'
                };
                want = !closing;
            }
        } else {
            if want {
                let decoded = xml_decode(toks[i].1.as_str());
                out.push(decoded);
                want = false;
                proof {
                    assert(out.deep_view() =~= st.out.push(spec_xml_decode(tv[i as int].1)));
                }
            }
        }
        i = i + 1;
    }
    out
}

} // verus!
