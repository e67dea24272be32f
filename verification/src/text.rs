//! Character-level text primitives: line splitting with the semantics of
//! `str::lines`, whitespace trimming, prefix tests, lexicographic comparison
//! of strings and sorting of string vectors.
use vstd::prelude::*;
use vstd::relations::{sorted_by, total_ordering};
use vstd::seq_lib::lemma_sorted_unique;

verus! {

/// The whitespace characters this library trims (the ASCII whitespace set).
pub open spec fn spec_is_space(c: char) -> bool {
    c == ' ' || c == '\t' || c == '\n' || c == '\r' || c == '\x0b' || c == '\x0c'
}

pub fn is_space_char(c: char) -> (r: bool)
    ensures
        r == spec_is_space(c),
{
    c == ' ' || c == '\t' || c == '\n' || c == '\r' || c == '\x0b' || c == '\x0c'
}

pub open spec fn spec_trim_start(s: Seq<char>) -> Seq<char>
    decreases s.len(),
{
    if s.len() > 0 && spec_is_space(s[0]) {
        spec_trim_start(s.drop_first())
    } else {
        s
    }
}

pub open spec fn spec_trim_end(s: Seq<char>) -> Seq<char>
    decreases s.len(),
{
    if s.len() > 0 && spec_is_space(s.last()) {
        spec_trim_end(s.drop_last())
    } else {
        s
    }
}

/// What trimming a string means: drop leading and trailing whitespace.
pub open spec fn spec_trim(s: Seq<char>) -> Seq<char> {
    spec_trim_end(spec_trim_start(s))
}

proof fn lemma_trim_start_at(s: Seq<char>, i: int)
    requires
        0 <= i <= s.len(),
        forall|k: int| 0 <= k < i ==> spec_is_space(s[k]),
        i == s.len() || !spec_is_space(s[i]),
    ensures
        spec_trim_start(s) =~= s.subrange(i, s.len() as int),
    decreases i,
{
    if i == 0 {
        if s.len() > 0 && spec_is_space(s[0]) {
            assert(false);
        }
    } else {
        let t = s.drop_first();
        assert(forall|k: int| 0 <= k < i - 1 ==> spec_is_space(t[k]));
        lemma_trim_start_at(t, i - 1);
    }
}

proof fn lemma_trim_end_at(s: Seq<char>, j: int)
    requires
        0 <= j <= s.len(),
        forall|k: int| j <= k < s.len() ==> spec_is_space(s[k]),
        j == 0 || !spec_is_space(s[j - 1]),
    ensures
        spec_trim_end(s) =~= s.subrange(0, j),
    decreases s.len() - j,
{
    if j == s.len() {
        if s.len() > 0 && spec_is_space(s.last()) {
            assert(s.last() == s[j - 1]);
            assert(false);
        }
    } else {
        assert(spec_is_space(s[s.len() - 1]));
        let t = s.drop_last();
        lemma_trim_end_at(t, j);
        assert(t.subrange(0, j) =~= s.subrange(0, j));
    }
}

/// Trim leading and trailing whitespace, as `str::trim` does for ASCII text.
pub fn trim_str(s: &str) -> (r: String)
    ensures
        r@ == spec_trim(s@),
{
    let n = s.unicode_len();
    let mut i: usize = 0;
    while i < n && is_space_char(s.get_char(i))
        invariant
            0 <= i <= n,
            n == s@.len(),
            forall|k: int| 0 <= k < i ==> spec_is_space(s@[k]),
        decreases n - i,
    {
        i = i + 1;
    }
    proof {
        lemma_trim_start_at(s@, i as int);
    }
    if i == n {
        let r = String::new();
        proof {
            assert(spec_trim_start(s@) =~= Seq::<char>::empty());
            assert(spec_trim(s@) =~= Seq::<char>::empty());
        }
        return r;
    }
    let mut j: usize = n;
    while j > i && is_space_char(s.get_char(j - 1))
        invariant
            i <= j <= n,
            n == s@.len(),
            i < n,
            !spec_is_space(s@[i as int]),
            forall|k: int| j <= k < n ==> spec_is_space(s@[k]),
        decreases j,
    {
        j = j - 1;
    }
    proof {
        if j == i {
            assert(spec_is_space(s@[i as int]));
            assert(false);
        }
    }
    let r = s.substring_char(i, j).to_owned();
    proof {
        let t = s@.subrange(i as int, n as int);
        assert(forall|k: int| (j - i) <= k < t.len() ==> spec_is_space(t[k]));
        assert(t[j - i - 1] == s@[j - 1]);
        lemma_trim_end_at(t, j - i);
        assert(r@ =~= t.subrange(0, j - i));
    }
    r
}

/// Index of the first occurrence of `c`, or the length when absent.
pub open spec fn spec_find_char(s: Seq<char>, c: char) -> int
    decreases s.len(),
{
    if s.len() == 0 {
        0
    } else if s[0] == c {
        0
    } else {
        1 + spec_find_char(s.drop_first(), c)
    }
}

pub proof fn lemma_find_char(s: Seq<char>, c: char)
    ensures
        0 <= spec_find_char(s, c) <= s.len(),
        spec_find_char(s, c) < s.len() ==> s[spec_find_char(s, c)] == c,
        forall|k: int| 0 <= k < spec_find_char(s, c) ==> s[k] != c,
    decreases s.len(),
{
    if s.len() > 0 && s[0] != c {
        let t = s.drop_first();
        lemma_find_char(t, c);
        assert forall|k: int| 0 <= k < spec_find_char(s, c) implies s[k] != c by {
            if k > 0 {
                assert(s[k] == t[k - 1]);
            }
        }
    }
}

pub proof fn lemma_find_char_is(s: Seq<char>, c: char, i: int)
    requires
        0 <= i <= s.len(),
        i == s.len() || s[i] == c,
        forall|k: int| 0 <= k < i ==> s[k] != c,
    ensures
        spec_find_char(s, c) == i,
    decreases s.len(),
{
    if s.len() == 0 {
    } else if s[0] == c {
        assert(i == 0);
    } else {
        assert(i >= 1);
        let t = s.drop_first();
        assert(forall|k: int| 0 <= k < i - 1 ==> t[k] != c);
        lemma_find_char_is(t, c, i - 1);
    }
}

/// First index of `c` at or after `from`, or the length when absent.
pub fn find_char_from(s: &str, from: usize, c: char) -> (r: usize)
    requires
        from <= s@.len(),
    ensures
        from <= r <= s@.len(),
        r == from + spec_find_char(s@.subrange(from as int, s@.len() as int), c),
        r < s@.len() ==> s@[r as int] == c,
        forall|k: int| from <= k < r ==> s@[k] != c,
{
    let n = s.unicode_len();
    let mut i: usize = from;
    while i < n && s.get_char(i) != c
        invariant
            from <= i <= n,
            n == s@.len(),
            forall|k: int| from <= k < i ==> s@[k] != c,
        decreases n - i,
    {
        i = i + 1;
    }
    proof {
        let t = s@.subrange(from as int, n as int);
        assert(forall|k: int| 0 <= k < i - from ==> t[k] != c);
        assert(i < n ==> t[i - from] == c);
        lemma_find_char_is(t, c, i - from);
    }
    i
}

/// Does `p` stand at the start of `s`?
pub open spec fn spec_has_prefix(s: Seq<char>, p: Seq<char>) -> bool {
    p.len() <= s.len() && s.subrange(0, p.len() as int) == p
}

pub fn has_prefix(s: &str, p: &str) -> (r: bool)
    ensures
        r == spec_has_prefix(s@, p@),
{
    let pn = p.unicode_len();
    let n = s.unicode_len();
    if pn > n {
        assert(!spec_has_prefix(s@, p@));
        return false;
    }
    let mut i: usize = 0;
    while i < pn
        invariant
            0 <= i <= pn,
            pn == p@.len(),
            n == s@.len(),
            pn <= n,
            forall|k: int| 0 <= k < i ==> s@[k] == p@[k],
        decreases pn - i,
    {
        if s.get_char(i) != p.get_char(i) {
            assert(s@.subrange(0, pn as int)[i as int] != p@[i as int]);
            return false;
        }
        i = i + 1;
    }
    proof {
        assert(s@.subrange(0, pn as int) =~= p@);
    }
    true
}

/// Does `p` stand at the end of `s`?
pub open spec fn spec_has_suffix(s: Seq<char>, p: Seq<char>) -> bool {
    p.len() <= s.len() && s.subrange(s.len() - p.len(), s.len() as int) == p
}

pub fn has_suffix(s: &str, p: &str) -> (r: bool)
    ensures
        r == spec_has_suffix(s@, p@),
{
    let pn = p.unicode_len();
    let n = s.unicode_len();
    if pn > n {
        assert(!spec_has_suffix(s@, p@));
        return false;
    }
    let off = n - pn;
    let mut i: usize = 0;
    while i < pn
        invariant
            0 <= i <= pn,
            pn == p@.len(),
            n == s@.len(),
            off == n - pn,
            forall|k: int| 0 <= k < i ==> s@[off + k] == p@[k],
        decreases pn - i,
    {
        if s.get_char(off + i) != p.get_char(i) {
            assert(s@.subrange(off as int, n as int)[i as int] != p@[i as int]);
            return false;
        }
        i = i + 1;
    }
    proof {
        assert(s@.subrange(off as int, n as int) =~= p@);
    }
    true
}

pub open spec fn spec_strip_cr(p: Seq<char>) -> Seq<char> {
    if p.len() > 0 && p.last() == '\r' {
        p.drop_last()
    } else {
        p
    }
}

/// The logical lines of a text, with the semantics of `str::lines`:
/// split at `\n`, strip one `\r` before each split point, keep a final
/// unterminated piece as it stands, and drop a final empty piece.
pub open spec fn spec_lines(s: Seq<char>) -> Seq<Seq<char>>
    decreases s.len(),
{
    if s.len() == 0 {
        Seq::empty()
    } else {
        let i = spec_find_char(s, '\n');
        if 0 <= i < s.len() {
            seq![spec_strip_cr(s.subrange(0, i))] + spec_lines(s.subrange(i + 1, s.len() as int))
        } else {
            seq![s]
        }
    }
}

/// Split a text into its logical lines.
pub fn split_lines(s: &str) -> (r: Vec<String>)
    ensures
        r.deep_view() == spec_lines(s@),
{
    let n = s.unicode_len();
    let mut r: Vec<String> = Vec::new();
    let mut start: usize = 0;
    proof {
        assert(s@.subrange(0, n as int) =~= s@);
        assert(r.deep_view() + spec_lines(s@.subrange(0, n as int)) =~= spec_lines(s@));
    }
    while start < n
        invariant
            0 <= start <= n,
            n == s@.len(),
            r.deep_view() + spec_lines(s@.subrange(start as int, n as int)) =~= spec_lines(s@),
        decreases n - start,
    {
        let ghost rest = s@.subrange(start as int, n as int);
        let ghost prev = r.deep_view();
        let j = find_char_from(s, start, '\n');
        proof {
            lemma_find_char(rest, '\n');
            assert(spec_find_char(rest, '\n') == j - start);
        }
        if j == n {
            let piece = s.substring_char(start, n).to_owned();
            r.push(piece);
            proof {
                assert(rest.len() > 0);
                assert(spec_lines(rest) =~= seq![rest]);
                assert(r.deep_view() =~= prev.push(rest));
                assert(s@.subrange(n as int, n as int).len() == 0);
                assert(r.deep_view() + spec_lines(s@.subrange(n as int, n as int))
                    =~= prev + spec_lines(rest));
            }
            start = n;
        } else {
            let end = if j > start && s.get_char(j - 1) == '\r' {
                j - 1
            } else {
                j
            };
            let piece = s.substring_char(start, end).to_owned();
            let ghost fc = j - start;
            proof {
                let raw = rest.subrange(0, fc as int);
                assert(raw =~= s@.subrange(start as int, j as int));
                if j > start && s@[j - 1] == '\r' {
                    assert(raw.len() > 0 && raw.last() == '\r');
                    assert(piece@ =~= raw.drop_last());
                    assert(piece@ =~= spec_strip_cr(raw));
                } else {
                    assert(!(raw.len() > 0 && raw.last() == '\r'));
                    assert(piece@ =~= spec_strip_cr(raw));
                }
            }
            r.push(piece);
            proof {
                let raw = rest.subrange(0, fc as int);
                assert(rest.subrange(fc + 1, rest.len() as int) =~= s@.subrange(
                    j + 1,
                    n as int,
                ));
                assert(spec_lines(rest) =~= seq![spec_strip_cr(raw)] + spec_lines(
                    s@.subrange(j + 1, n as int),
                ));
                assert(r.deep_view() =~= prev.push(spec_strip_cr(raw)));
                assert(r.deep_view() + spec_lines(s@.subrange(j + 1, n as int)) =~= prev
                    + spec_lines(rest));
            }
            start = j + 1;
        }
    }
    proof {
        assert(spec_lines(s@.subrange(n as int, n as int)) =~= Seq::<Seq<char>>::empty());
        assert(r.deep_view() =~= spec_lines(s@));
    }
    r
}

/// Join lines with `\n`, as `[String]::join` with that separator does.
pub open spec fn spec_join_lf(ls: Seq<Seq<char>>) -> Seq<char>
    decreases ls.len(),
{
    if ls.len() == 0 {
        Seq::empty()
    } else if ls.len() == 1 {
        ls[0]
    } else {
        spec_join_lf(ls.drop_last()) + seq!['\n'] + ls.last()
    }
}

pub fn join_lf(ls: &Vec<String>) -> (r: String)
    ensures
        r@ == spec_join_lf(ls.deep_view()),
{
    let mut r = String::new();
    let mut i: usize = 0;
    proof {
        assert(r@ =~= spec_join_lf(ls.deep_view().take(0)));
    }
    while i < ls.len()
        invariant
            0 <= i <= ls.len(),
            r@ =~= spec_join_lf(ls.deep_view().take(i as int)),
        decreases ls.len() - i,
    {
        let ghost before = r@;
        if i > 0 {
            r.append("\n");
        }
        r.append(ls[i].as_str());
        proof {
            reveal_strlit("\n");
            let dv = ls.deep_view();
            assert(dv[i as int] =~= ls@[i as int]@);
            assert(dv.take(i + 1).drop_last() =~= dv.take(i as int));
            assert(dv.take(i + 1).last() =~= dv[i as int]);
            if i > 0 {
                assert("\n"@ =~= seq!['\n']);
                assert(r@ =~= spec_join_lf(dv.take(i as int)) + seq!['\n'] + dv[i as int]);
                assert(r@ =~= spec_join_lf(dv.take(i + 1)));
            } else {
                assert(dv.take(1).len() == 1);
                assert(r@ =~= dv[0]);
                assert(spec_join_lf(dv.take(1)) =~= dv.take(1)[0]);
                assert(dv.take(1)[0] =~= dv[0]);
            }
        }
        i = i + 1;
    }
    proof {
        assert(ls.deep_view().take(ls.len() as int) =~= ls.deep_view());
    }
    r
}

/// Lexicographic order on character sequences (the order of `str`'s `Ord`).
pub open spec fn lex_le(a: Seq<char>, b: Seq<char>) -> bool
    decreases a.len(),
{
    if a.len() == 0 {
        true
    } else if b.len() == 0 {
        false
    } else if a[0] == b[0] {
        lex_le(a.drop_first(), b.drop_first())
    } else {
        (a[0] as u32) < (b[0] as u32)
    }
}

/// The order handed to `sort_by` in specifications.
pub open spec fn lex_leq() -> spec_fn(Seq<char>, Seq<char>) -> bool {
    |x: Seq<char>, y: Seq<char>| lex_le(x, y)
}

proof fn lemma_char_codes(a: char, b: char)
    requires
        a != b,
    ensures
        (a as u32) != (b as u32),
{
}

pub proof fn lemma_lex_le_total(a: Seq<char>, b: Seq<char>)
    ensures
        lex_le(a, b) || lex_le(b, a),
        lex_le(a, b) && lex_le(b, a) ==> a == b,
    decreases a.len(),
{
    if a.len() == 0 {
        if b.len() == 0 {
            assert(a =~= b);
        }
    } else if b.len() == 0 {
    } else if a[0] == b[0] {
        lemma_lex_le_total(a.drop_first(), b.drop_first());
        if lex_le(a, b) && lex_le(b, a) {
            let ta = a.drop_first();
            let tb = b.drop_first();
            assert(ta == tb);
            assert forall|k: int| 0 <= k < a.len() implies a[k] == b[k] by {
                if k > 0 {
                    assert(a[k] == ta[k - 1]);
                    assert(b[k] == tb[k - 1]);
                }
            }
            assert(a.len() == b.len());
            assert(a =~= b);
        }
    } else {
        lemma_char_codes(a[0], b[0]);
    }
}

pub proof fn lemma_lex_le_trans(a: Seq<char>, b: Seq<char>, c: Seq<char>)
    requires
        lex_le(a, b),
        lex_le(b, c),
    ensures
        lex_le(a, c),
    decreases a.len(),
{
    if a.len() == 0 {
    } else if b.len() == 0 {
        assert(false);
    } else if c.len() == 0 {
        assert(false);
    } else {
        if a[0] == b[0] && b[0] == c[0] {
            lemma_lex_le_trans(a.drop_first(), b.drop_first(), c.drop_first());
        } else if a[0] == b[0] {
        } else if b[0] == c[0] {
        } else {
            assert((a[0] as u32) < (b[0] as u32) && (b[0] as u32) < (c[0] as u32));
            assert((a[0] as u32) != (c[0] as u32));
            if a[0] == c[0] {
                assert((a[0] as u32) == (c[0] as u32));
            }
        }
    }
}

pub proof fn lemma_lex_total_ordering()
    ensures
        total_ordering(lex_leq()),
{
    let leq = lex_leq();
    assert forall|x: Seq<char>| #[trigger] leq(x, x) by {
        lemma_lex_le_total(x, x);
    }
    assert forall|x: Seq<char>, y: Seq<char>| #[trigger] leq(x, y) && #[trigger] leq(y, x)
        implies x == y by {
        lemma_lex_le_total(x, y);
    }
    assert forall|x: Seq<char>, y: Seq<char>, z: Seq<char>|
        #[trigger] leq(x, y) && #[trigger] leq(y, z) implies leq(x, z) by {
        lemma_lex_le_trans(x, y, z);
    }
    assert forall|x: Seq<char>, y: Seq<char>| !(#[trigger] leq(x, y)) implies leq(y, x) by {
        lemma_lex_le_total(x, y);
    }
}

/// Does `p` occur anywhere in `s`?
pub open spec fn spec_contains(s: Seq<char>, p: Seq<char>) -> bool {
    exists|i: int|
        0 <= i && i + p.len() <= s.len() && #[trigger] s.subrange(i, i + p.len()) == p
}

pub fn contains_substr(s: &str, p: &str) -> (r: bool)
    ensures
        r == spec_contains(s@, p@),
{
    let pn = p.unicode_len();
    let n = s.unicode_len();
    if pn > n {
        proof {
            assert(!spec_contains(s@, p@));
        }
        return false;
    }
    let mut i: usize = 0;
    while i <= n - pn
        invariant
            0 <= i,
            i <= n - pn + 1,
            pn <= n,
            pn == p@.len(),
            n == s@.len(),
            forall|k: int| 0 <= k < i ==> #[trigger] s@.subrange(k, k + p@.len()) != p@,
        decreases n - i,
    {
        let mut j: usize = 0;
        let mut matches = true;
        while j < pn
            invariant
                0 <= j <= pn,
                pn == p@.len(),
                n == s@.len(),
                i + pn <= n,
                matches == (forall|k: int| 0 <= k < j ==> s@[i + k] == p@[k]),
            decreases pn - j,
        {
            if s.get_char(i + j) != p.get_char(j) {
                proof {
                    assert(s@[i + j as int] != p@[j as int]);
                }
                matches = false;
                proof {
                    assert(!(forall|k: int| 0 <= k < j + 1 ==> s@[i + k] == p@[k]));
                }
                j = pn;
            } else {
                proof {
                    assert(s@[i + j as int] == p@[j as int]);
                }
                j = j + 1;
            }
        }
        if matches {
            proof {
                assert(s@.subrange(i as int, i + p@.len()) =~= p@);
            }
            return true;
        }
        proof {
            assert(exists|k: int| 0 <= k < pn && s@[i + k] != p@[k]);
            let k = choose|k: int| 0 <= k < pn && s@[i + k] != p@[k];
            assert(s@.subrange(i as int, i + p@.len())[k] == s@[i + k]);
            assert(s@.subrange(i as int, i + p@.len()) != p@);
        }
        i = i + 1;
    }
    proof {
        assert forall|k: int| 0 <= k && k + p@.len() <= s@.len() implies #[trigger] s@.subrange(
            k,
            k + p@.len(),
        ) != p@ by {
            assert(k < i);
        }
    }
    false
}

/// Character-for-character equality of two strings.
pub fn str_eq(a: &str, b: &str) -> (r: bool)
    ensures
        r == (a@ == b@),
{
    let an = a.unicode_len();
    let bn = b.unicode_len();
    if an != bn {
        assert(a@ != b@);
        return false;
    }
    let mut i: usize = 0;
    while i < an
        invariant
            0 <= i <= an,
            an == a@.len(),
            an == b@.len(),
            forall|k: int| 0 <= k < i ==> a@[k] == b@[k],
        decreases an - i,
    {
        if a.get_char(i) != b.get_char(i) {
            return false;
        }
        i = i + 1;
    }
    proof {
        assert(a@ =~= b@);
    }
    true
}

/// Compare two strings in lexicographic order.
pub fn str_le(a: &str, b: &str) -> (r: bool)
    ensures
        r == lex_le(a@, b@),
{
    let an = a.unicode_len();
    let bn = b.unicode_len();
    let mut i: usize = 0;
    proof {
        assert(a@.skip(0) =~= a@);
        assert(b@.skip(0) =~= b@);
    }
    while i < an && i < bn && a.get_char(i) == b.get_char(i)
        invariant
            0 <= i <= an,
            0 <= i <= bn,
            an == a@.len(),
            bn == b@.len(),
            lex_le(a@, b@) == lex_le(a@.skip(i as int), b@.skip(i as int)),
        decreases an - i,
    {
        proof {
            let sa = a@.skip(i as int);
            let sb = b@.skip(i as int);
            assert(sa[0] == a@[i as int]);
            assert(sb[0] == b@[i as int]);
            assert(sa.drop_first() =~= a@.skip(i + 1));
            assert(sb.drop_first() =~= b@.skip(i + 1));
        }
        i = i + 1;
    }
    proof {
        let sa = a@.skip(i as int);
        let sb = b@.skip(i as int);
        if i == an {
            assert(sa.len() == 0);
        } else if i == bn {
            assert(sa.len() > 0 && sb.len() == 0);
        } else {
            assert(sa[0] == a@[i as int] && sb[0] == b@[i as int]);
        }
    }
    if i == an {
        true
    } else if i == bn {
        false
    } else {
        (a.get_char(i) as u32) < (b.get_char(i) as u32)
    }
}

proof fn lemma_swap_multiset(s: Seq<Seq<char>>, i: int, j: int)
    requires
        0 <= i < j < s.len(),
    ensures
        s.update(i, s[j]).update(j, s[i]).to_multiset() == s.to_multiset(),
{
    broadcast use vstd::seq_lib::group_to_multiset_ensures;
    broadcast use vstd::multiset::group_multiset_axioms;

    let t = s.update(i, s[j]);
    let u = t.update(j, s[i]);
    assert(t[j] == s[j]);
    assert(t.to_multiset() == s.to_multiset().insert(s[j]).remove(s[i]));
    assert(u.to_multiset() == t.to_multiset().insert(s[i]).remove(t[j]));
    assert(s.to_multiset().contains(s[i])) by {
        assert(s.contains(s[i]));
    }
    assert(u.to_multiset() =~= s.to_multiset());
}

/// Sort a vector of strings in lexicographic order (what `Vec::sort` does).
pub fn sort_strings(v: &mut Vec<String>)
    ensures
        sorted_by(final(v).deep_view(), lex_leq()),
        final(v).deep_view().to_multiset() == old(v).deep_view().to_multiset(),
{
    let ghost orig = old(v).deep_view();
    let mut i: usize = 1;
    while i < v.len()
        invariant
            1 <= i,
            i <= v.len() || v.len() <= 1,
            v.deep_view().to_multiset() == orig.to_multiset(),
            v.deep_view().len() == orig.len(),
            forall|p: int, q: int|
                0 <= p < q < i && q < v.deep_view().len() ==> #[trigger] lex_le(
                    v.deep_view()[p],
                    v.deep_view()[q],
                ),
        decreases v.len() - i,
    {
        let mut j: usize = i;
        while j > 0 && !str_le(&v[j - 1], &v[j])
            invariant
                0 <= j <= i < v.deep_view().len(),
                v.deep_view().to_multiset() == orig.to_multiset(),
                v.deep_view().len() == orig.len(),
                forall|p: int, q: int|
                    0 <= p < q <= i && q != j ==> #[trigger] lex_le(
                        v.deep_view()[p],
                        v.deep_view()[q],
                    ),
            decreases j,
        {
            let ghost before = v.deep_view();
            proof {
                lemma_lex_le_total(before[j - 1], before[j as int]);
            }
            let x = v[j - 1].clone();
            let y = v[j].clone();
            v.set(j - 1, y);
            v.set(j, x);
            proof {
                let after = v.deep_view();
                assert(after =~= before.update(j - 1, before[j as int]).update(
                    j as int,
                    before[j - 1],
                ));
                lemma_swap_multiset(before, j - 1, j as int);
                assert forall|p: int, q: int| 0 <= p < q <= i && q != j - 1 implies
                    #[trigger] lex_le(after[p], after[q]) by {
                    if p == j - 1 && q == j {
                        assert(after[p] == before[j as int]);
                        assert(after[q] == before[j - 1]);
                    } else if p == j - 1 {
                        assert(after[p] == before[j as int]);
                        assert(lex_le(before[j as int], before[q]));
                    } else if q == j {
                        assert(after[q] == before[j - 1]);
                        assert(lex_le(before[p], before[j - 1]));
                    } else if p == j {
                        assert(after[p] == before[j - 1]);
                        assert(lex_le(before[j - 1], before[q]));
                    } else {
                        assert(after[p] == before[p] && after[q] == before[q]);
                    }
                }
            }
            j = j - 1;
        }
        proof {
            let dv = v.deep_view();
            if j > 0 {
                assert(lex_le(dv[j - 1], dv[j as int]));
                assert forall|p: int, q: int| 0 <= p < q <= i implies #[trigger] lex_le(
                    dv[p],
                    dv[q],
                ) by {
                    if q == j && p < j - 1 {
                        assert(lex_le(dv[p], dv[j - 1]));
                        lemma_lex_le_trans(dv[p], dv[j - 1], dv[j as int]);
                    }
                }
            } else {
                assert forall|p: int, q: int| 0 <= p < q <= i implies #[trigger] lex_le(
                    dv[p],
                    dv[q],
                ) by {
                    assert(q != 0);
                }
            }
        }
        i = i + 1;
    }
    proof {
        let dv = v.deep_view();
        assert forall|p: int, q: int| 0 <= p < q < dv.len() implies #[trigger] (lex_leq())(
            dv[p],
            dv[q],
        ) by {
            assert(lex_le(dv[p], dv[q]));
        }
        assert(sorted_by(dv, lex_leq()));
    }
}

/// Two sorted string vectors with the same contents are equal.
pub proof fn lemma_sorted_strings_unique(x: Seq<Seq<char>>, y: Seq<Seq<char>>)
    requires
        sorted_by(x, lex_leq()),
        sorted_by(y, lex_leq()),
        x.to_multiset() == y.to_multiset(),
    ensures
        x == y,
{
    lemma_lex_total_ordering();
    lemma_sorted_unique(x, y, lex_leq());
    assert(x =~= y);
}

} // verus!
// ---------------------------------------------------------------------------
// Decimal formatting
// ---------------------------------------------------------------------------

verus! {

pub open spec fn spec_digit_char(d: int) -> char {
    if d == 0 {
        '0'
    } else if d == 1 {
        '1'
    } else if d == 2 {
        '2'
    } else if d == 3 {
        '3'
    } else if d == 4 {
        '4'
    } else if d == 5 {
        '5'
    } else if d == 6 {
        '6'
    } else if d == 7 {
        '7'
    } else if d == 8 {
        '8'
    } else {
        '9'
    }
}

/// The decimal digits of a number, most significant first.
pub open spec fn spec_dec(n: nat) -> Seq<char>
    decreases n,
{
    if n < 10 {
        seq![spec_digit_char(n as int)]
    } else {
        spec_dec(n / 10).push(spec_digit_char((n % 10) as int))
    }
}

fn append_digit(out: &mut String, d: u64)
    requires
        d < 10,
    ensures
        final(out)@ == old(out)@.push(spec_digit_char(d as int)),
{
    let ghost before = out@;
    if d == 0 {
        out.append("0");
    } else if d == 1 {
        out.append("1");
    } else if d == 2 {
        out.append("2");
    } else if d == 3 {
        out.append("3");
    } else if d == 4 {
        out.append("4");
    } else if d == 5 {
        out.append("5");
    } else if d == 6 {
        out.append("6");
    } else if d == 7 {
        out.append("7");
    } else if d == 8 {
        out.append("8");
    } else {
        out.append("9");
    }
    proof {
        reveal_strlit("0");
        reveal_strlit("1");
        reveal_strlit("2");
        reveal_strlit("3");
        reveal_strlit("4");
        reveal_strlit("5");
        reveal_strlit("6");
        reveal_strlit("7");
        reveal_strlit("8");
        reveal_strlit("9");
        assert(out@ =~= before.push(spec_digit_char(d as int)));
    }
}

/// Write a number in decimal.
pub fn dec_str(n: u64) -> (r: String)
    ensures
        r@ == spec_dec(n as nat),
{
    let mut digits: Vec<u64> = Vec::new();
    let mut m: u64 = n;
    while m >= 10
        invariant
            forall|k: int| 0 <= k < digits@.len() ==> (#[trigger] digits@[k]) < 10,
            spec_dec(n as nat) =~= spec_dec(m as nat) + Seq::new(
                digits@.len(),
                |i: int| spec_digit_char(digits@[digits@.len() - 1 - i] as int),
            ),
        decreases m,
    {
        let ghost before = digits@;
        let d = m % 10;
        digits.push(d);
        m = m / 10;
        proof {
            let after = digits@;
            assert(spec_dec((m as nat) * 10 + d as nat) =~= spec_dec(m as nat).push(
                spec_digit_char(d as int),
            ));
            let tail_before = Seq::new(
                before.len(),
                |i: int| spec_digit_char(before[before.len() - 1 - i] as int),
            );
            let tail_after = Seq::new(
                after.len(),
                |i: int| spec_digit_char(after[after.len() - 1 - i] as int),
            );
            assert(tail_after =~= seq![spec_digit_char(d as int)] + tail_before);
            assert(spec_dec(n as nat) =~= spec_dec(m as nat) + tail_after);
        }
    }
    let mut out = String::new();
    append_digit(&mut out, m);
    let mut i: usize = digits.len();
    proof {
        assert(out@ =~= spec_dec(m as nat));
    }
    while i > 0
        invariant
            0 <= i <= digits@.len(),
            forall|k: int| 0 <= k < digits@.len() ==> (#[trigger] digits@[k]) < 10,
            out@ =~= spec_dec(m as nat) + Seq::new(
                (digits@.len() - i) as nat,
                |k: int| spec_digit_char(digits@[digits@.len() - 1 - k] as int),
            ),
            spec_dec(n as nat) =~= spec_dec(m as nat) + Seq::new(
                digits@.len(),
                |k: int| spec_digit_char(digits@[digits@.len() - 1 - k] as int),
            ),
        decreases i,
    {
        let ghost before = out@;
        append_digit(&mut out, digits[i - 1]);
        proof {
            let full = Seq::new(
                digits@.len(),
                |k: int| spec_digit_char(digits@[digits@.len() - 1 - k] as int),
            );
            assert(out@ =~= before.push(spec_digit_char(digits@[i - 1] as int)));
            assert(full[digits@.len() - i] == spec_digit_char(digits@[i - 1] as int));
            assert(out@ =~= spec_dec(m as nat) + full.subrange(0, digits@.len() - i + 1)) by {
                assert(full.subrange(0, digits@.len() - i + 1) =~= full.subrange(
                    0,
                    digits@.len() - i,
                ).push(full[digits@.len() - i]));
                assert(Seq::new(
                    (digits@.len() - i) as nat,
                    |k: int| spec_digit_char(digits@[digits@.len() - 1 - k] as int),
                ) =~= full.subrange(0, digits@.len() - i));
            }
            assert(Seq::new(
                (digits@.len() - (i - 1)) as nat,
                |k: int| spec_digit_char(digits@[digits@.len() - 1 - k] as int),
            ) =~= full.subrange(0, digits@.len() - i + 1));
        }
        i = i - 1;
    }
    proof {
        let full = Seq::new(
            digits@.len(),
            |k: int| spec_digit_char(digits@[digits@.len() - 1 - k] as int),
        );
        assert(Seq::new(
            (digits@.len() - 0) as nat,
            |k: int| spec_digit_char(digits@[digits@.len() - 1 - k] as int),
        ) =~= full);
        assert(out@ =~= spec_dec(n as nat));
    }
    out
}

} // verus!
