//! The ICS lexer and normaliser: RFC 5545 line unfolding, the volatile-field
//! filter, semantic VEVENT equality, and VEVENT / VTIMEZONE extraction.
use vstd::prelude::*;
use vstd::relations::sorted_by;
use crate::text::{
    has_prefix, join_lf, lemma_lex_total_ordering, lemma_sorted_strings_unique, lex_leq,
    sort_strings, spec_has_prefix, spec_join_lf, spec_lines, spec_trim, split_lines, str_eq,
    trim_str,
};

verus! {

/// A continuation line starts with a single space or horizontal tab.
pub open spec fn spec_is_continuation(line: Seq<char>) -> bool {
    line.len() > 0 && (line[0] == ' ' || line[0] == '\t')
}

/// One unfolding step folded over the logical lines read so far: a
/// continuation line loses its first character and joins the previous line.
pub open spec fn spec_unfold_to(ls: Seq<Seq<char>>, i: int) -> Seq<Seq<char>>
    decreases i,
{
    if i <= 0 {
        Seq::empty()
    } else {
        let prev = spec_unfold_to(ls, i - 1);
        let l = ls[i - 1];
        if spec_is_continuation(l) && prev.len() > 0 {
            prev.update(prev.len() - 1, prev.last() + l.drop_first())
        } else {
            prev.push(l)
        }
    }
}

/// The unfolded logical lines of a list of raw lines.
pub open spec fn spec_unfold(ls: Seq<Seq<char>>) -> Seq<Seq<char>> {
    spec_unfold_to(ls, ls.len() as int)
}

/// The unfolded text: logical lines joined with `\n`.
pub open spec fn spec_unfolded_text(s: Seq<char>) -> Seq<char> {
    spec_join_lf(spec_unfold(spec_lines(s)))
}

/// Merge continuation lines into their predecessors.
pub fn unfold_lines(ls: &Vec<String>) -> (r: Vec<String>)
    ensures
        r.deep_view() == spec_unfold(ls.deep_view()),
{
    let mut r: Vec<String> = Vec::new();
    let mut i: usize = 0;
    proof {
        assert(r.deep_view() =~= spec_unfold_to(ls.deep_view(), 0));
    }
    while i < ls.len()
        invariant
            0 <= i <= ls.len(),
            r.deep_view() =~= spec_unfold_to(ls.deep_view(), i as int),
        decreases ls.len() - i,
    {
        let ghost prev = r.deep_view();
        let ghost l = ls.deep_view()[i as int];
        let line = &ls[i];
        proof {
            assert(line@ =~= l);
        }
        let n = line.unicode_len();
        let cont = n > 0 && {
            let c = line.get_char(0);
            c == ' ' || c == '\t'
        };
        if cont && r.len() > 0 {
            let mut last = r.pop().unwrap();
            last.append(line.substring_char(1, n));
            r.push(last);
            proof {
                assert(line@.subrange(1, n as int) =~= l.drop_first());
                assert(r.deep_view() =~= prev.update(prev.len() - 1, prev.last() + l.drop_first()));
            }
        } else {
            r.push(line.clone());
            proof {
                assert(r.deep_view() =~= prev.push(l));
            }
        }
        i = i + 1;
    }
    proof {
        assert(r.deep_view() =~= spec_unfold(ls.deep_view()));
    }
    r
}

/// Unfold RFC 5545 folded lines; logical lines are joined with `\n`.
pub fn unfold_ics(text: &str) -> (r: String)
    ensures
        r@ == spec_unfolded_text(text@),
{
    let lines = split_lines(text);
    let unfolded = unfold_lines(&lines);
    join_lf(&unfolded)
}

/// A line carries a volatile field when it starts with the field name
/// followed directly by `:` or `;`.
pub open spec fn spec_starts_field(l: Seq<char>, f: Seq<char>) -> bool {
    l.len() > f.len() && l.subrange(0, f.len() as int) == f && (l[f.len() as int] == ':' || l[
        f.len() as int
    ] == ';')
}

/// The volatile fields: producers rewrite them on every export, so semantic
/// comparison must ignore them.
pub open spec fn spec_is_volatile(l: Seq<char>) -> bool {
    spec_starts_field(l, "DTSTAMP"@) || spec_starts_field(l, "SEQUENCE"@) || spec_starts_field(
        l,
        "LAST-MODIFIED"@,
    ) || spec_starts_field(l, "CREATED"@)
}

fn starts_field(line: &str, f: &str) -> (r: bool)
    ensures
        r == spec_starts_field(line@, f@),
{
    let fl = f.unicode_len();
    let n = line.unicode_len();
    if n <= fl {
        return false;
    }
    if !has_prefix(line, f) {
        return false;
    }
    let c = line.get_char(fl);
    c == ':' || c == ';'
}

pub fn is_volatile_line(line: &str) -> (r: bool)
    ensures
        r == spec_is_volatile(line@),
{
    starts_field(line, "DTSTAMP") || starts_field(line, "SEQUENCE") || starts_field(
        line,
        "LAST-MODIFIED",
    ) || starts_field(line, "CREATED")
}

/// A normalised line is kept when it is non-empty and not volatile.
pub open spec fn spec_kept(l: Seq<char>) -> bool {
    l.len() > 0 && !spec_is_volatile(l)
}

/// The trimmed, kept logical lines of a VEVENT block, in source order.
pub open spec fn spec_kept_lines(v: Seq<char>) -> Seq<Seq<char>> {
    spec_unfold(spec_lines(v)).map_values(|l: Seq<char>| spec_trim(l)).filter(
        |l: Seq<char>| spec_kept(l),
    )
}

/// The normal form of a VEVENT block: its kept lines, sorted.
pub open spec fn spec_normal_of(v: Seq<char>) -> Seq<Seq<char>> {
    spec_kept_lines(v).sort_by(lex_leq())
}

/// Normalise a VEVENT block: unfold, trim each line, drop empty and
/// volatile lines, and sort the rest lexicographically.
pub fn normalize_vevent(vevent_data: &str) -> (r: Vec<String>)
    ensures
        r.deep_view() == spec_normal_of(vevent_data@),
        sorted_by(r.deep_view(), lex_leq()),
{
    let lines = split_lines(vevent_data);
    let unfolded = unfold_lines(&lines);
    let mut kept: Vec<String> = Vec::new();
    let mut i: usize = 0;
    let ghost uf = spec_unfold(spec_lines(vevent_data@));
    let ghost trimmed = uf.map_values(|l: Seq<char>| spec_trim(l));
    let ghost keptp = |l: Seq<char>| spec_kept(l);
    proof {
        assert(kept.deep_view() =~= trimmed.take(0).filter(keptp)) by {
            reveal(Seq::filter);
        }
    }
    while i < unfolded.len()
        invariant
            0 <= i <= unfolded.len(),
            unfolded.deep_view() == uf,
            trimmed == uf.map_values(|l: Seq<char>| spec_trim(l)),
            keptp == (|l: Seq<char>| spec_kept(l)),
            i <= uf.len(),
            kept.deep_view() =~= trimmed.take(i as int).filter(keptp),
        decreases unfolded.len() - i,
    {
        let ghost prevkept = kept.deep_view();
        let t = trim_str(unfolded[i].as_str());
        proof {
            assert(uf[i as int] =~= unfolded@[i as int]@);
            assert(t@ == spec_trim(uf[i as int]));
            assert(trimmed[i as int] == spec_trim(uf[i as int]));
        }
        if t.as_str().unicode_len() > 0 && !is_volatile_line(t.as_str()) {
            kept.push(t);
            proof {
                assert(keptp(trimmed[i as int]));
            }
        } else {
            proof {
                assert(!keptp(trimmed[i as int]));
            }
        }
        proof {
            reveal(Seq::filter);
            assert(trimmed.take(i + 1).drop_last() =~= trimmed.take(i as int));
            assert(trimmed.take(i + 1).last() == trimmed[i as int]);
            if keptp(trimmed[i as int]) {
                assert(trimmed.take(i + 1).filter(keptp) =~= trimmed.take(i as int).filter(
                    keptp,
                ).push(trimmed[i as int]));
                assert(kept.deep_view() =~= prevkept.push(trimmed[i as int]));
            } else {
                assert(trimmed.take(i + 1).filter(keptp) =~= trimmed.take(i as int).filter(keptp));
            }
        }
        i = i + 1;
    }
    proof {
        assert(trimmed.take(uf.len() as int) =~= trimmed);
        assert(kept.deep_view() =~= spec_kept_lines(vevent_data@));
    }
    let ghost keptseq = kept.deep_view();
    sort_strings(&mut kept);
    proof {
        lemma_lex_total_ordering();
        keptseq.lemma_sort_by_ensures(lex_leq());
        lemma_sorted_strings_unique(kept.deep_view(), keptseq.sort_by(lex_leq()));
    }
    kept
}

/// The normal forms of a list of VEVENT blocks.
pub open spec fn spec_normals_of(a: Seq<Seq<char>>) -> Seq<Seq<Seq<char>>> {
    Seq::new(a.len(), |i: int| spec_normal_of(a[i]))
}

/// Semantic equality of two groups of VEVENT blocks: same cardinality, and
/// the same multiset of normal forms.
pub open spec fn spec_events_equal(a: Seq<Seq<char>>, b: Seq<Seq<char>>) -> bool {
    a.len() == b.len() && spec_normals_of(a).to_multiset() == spec_normals_of(b).to_multiset()
}

/// How often `x` occurs in `s`.
pub open spec fn count_occ(s: Seq<Seq<Seq<char>>>, x: Seq<Seq<char>>) -> nat
    decreases s.len(),
{
    if s.len() == 0 {
        0
    } else {
        count_occ(s.drop_last(), x) + if s.last() == x {
            1nat
        } else {
            0nat
        }
    }
}

pub proof fn lemma_count_occ_multiset(s: Seq<Seq<Seq<char>>>, x: Seq<Seq<char>>)
    ensures
        count_occ(s, x) == s.to_multiset().count(x),
    decreases s.len(),
{
    broadcast use vstd::seq_lib::group_to_multiset_ensures;
    broadcast use vstd::multiset::group_multiset_axioms;

    if s.len() == 0 {
        assert(s.to_multiset() =~= vstd::multiset::Multiset::empty());
    } else {
        let t = s.drop_last();
        lemma_count_occ_multiset(t, x);
        assert(s =~= t.push(s.last()));
        assert(t.push(s.last()).to_multiset() == t.to_multiset().insert(s.last()));
    }
}

proof fn lemma_counts_give_multiset_eq(x: Seq<Seq<Seq<char>>>, y: Seq<Seq<Seq<char>>>)
    requires
        x.len() == y.len(),
        forall|i: int| 0 <= i < x.len() ==> count_occ(x, #[trigger] x[i]) == count_occ(y, x[i]),
        forall|j: int| 0 <= j < y.len() ==> count_occ(x, #[trigger] y[j]) == count_occ(y, y[j]),
    ensures
        x.to_multiset() == y.to_multiset(),
{
    broadcast use vstd::seq_lib::group_to_multiset_ensures;
    broadcast use vstd::multiset::group_multiset_axioms;

    assert forall|e: Seq<Seq<char>>| x.to_multiset().count(e) == y.to_multiset().count(e) by {
        lemma_count_occ_multiset(x, e);
        lemma_count_occ_multiset(y, e);
        if x.to_multiset().count(e) > 0 {
            assert(x.contains(e));
            let i = choose|i: int| 0 <= i < x.len() && x[i] == e;
            assert(count_occ(x, x[i]) == count_occ(y, x[i]));
        } else if y.to_multiset().count(e) > 0 {
            assert(y.contains(e));
            let j = choose|j: int| 0 <= j < y.len() && y[j] == e;
            assert(count_occ(x, y[j]) == count_occ(y, y[j]));
        }
    }
    assert(x.to_multiset() =~= y.to_multiset());
}

/// Equality of two vectors of strings, by contents.
pub fn vec_str_eq(a: &Vec<String>, b: &Vec<String>) -> (r: bool)
    ensures
        r == (a.deep_view() == b.deep_view()),
{
    if a.len() != b.len() {
        proof {
            assert(a.deep_view().len() != b.deep_view().len());
        }
        return false;
    }
    let mut i: usize = 0;
    while i < a.len()
        invariant
            0 <= i <= a.len(),
            a.len() == b.len(),
            a.deep_view().len() == b.deep_view().len(),
            forall|k: int| 0 <= k < i ==> a.deep_view()[k] == b.deep_view()[k],
        decreases a.len() - i,
    {
        if !a[i].eq(&b[i]) {
            proof {
                assert(a.deep_view()[i as int] =~= a@[i as int]@);
                assert(b.deep_view()[i as int] =~= b@[i as int]@);
            }
            return false;
        }
        proof {
            assert(a.deep_view()[i as int] =~= a@[i as int]@);
            assert(b.deep_view()[i as int] =~= b@[i as int]@);
        }
        i = i + 1;
    }
    proof {
        assert(a.deep_view() =~= b.deep_view());
    }
    true
}

fn count_blocks(list: &Vec<Vec<String>>, x: &Vec<String>) -> (n: usize)
    ensures
        n == count_occ(list.deep_view(), x.deep_view()),
{
    let mut n: usize = 0;
    let mut i: usize = 0;
    let ghost dv = list.deep_view();
    proof {
        assert(dv.take(0) =~= Seq::<Seq<Seq<char>>>::empty());
    }
    while i < list.len()
        invariant
            0 <= i <= list.len(),
            dv == list.deep_view(),
            n <= i,
            n == count_occ(dv.take(i as int), x.deep_view()),
        decreases list.len() - i,
    {
        proof {
            assert(dv.take(i + 1).drop_last() =~= dv.take(i as int));
            assert(dv.take(i + 1).last() == dv[i as int]);
        }
        if vec_str_eq(&list[i], x) {
            proof {
                assert(list@[i as int].deep_view() == dv[i as int]);
            }
            n = n + 1;
        } else {
            proof {
                assert(list@[i as int].deep_view() == dv[i as int]);
            }
        }
        i = i + 1;
    }
    proof {
        assert(dv.take(list.len() as int) =~= dv);
    }
    n
}

/// Two groups of VEVENT blocks are equal when they have the same number of
/// blocks and the same multiset of normal forms.
pub fn events_equal(existing: &Vec<String>, incoming: &Vec<String>) -> (r: bool)
    ensures
        r == spec_events_equal(existing.deep_view(), incoming.deep_view()),
{
    if existing.len() != incoming.len() {
        proof {
            assert(existing.deep_view().len() != incoming.deep_view().len());
        }
        return false;
    }
    let mut na: Vec<Vec<String>> = Vec::new();
    let mut i: usize = 0;
    let ghost sa = spec_normals_of(existing.deep_view());
    while i < existing.len()
        invariant
            0 <= i <= existing.len(),
            sa == spec_normals_of(existing.deep_view()),
            na.deep_view() =~= sa.take(i as int),
        decreases existing.len() - i,
    {
        let ghost prev = na.deep_view();
        let norm = normalize_vevent(existing[i].as_str());
        proof {
            assert(existing@[i as int]@ == existing.deep_view()[i as int]);
        }
        na.push(norm);
        proof {
            assert(na.deep_view() =~= prev.push(spec_normal_of(existing.deep_view()[i as int])));
            assert(sa.take(i + 1) =~= sa.take(i as int).push(sa[i as int]));
        }
        i = i + 1;
    }
    proof {
        assert(na.deep_view() =~= sa);
    }
    let mut nb: Vec<Vec<String>> = Vec::new();
    let mut j: usize = 0;
    let ghost sb = spec_normals_of(incoming.deep_view());
    while j < incoming.len()
        invariant
            0 <= j <= incoming.len(),
            sb == spec_normals_of(incoming.deep_view()),
            nb.deep_view() =~= sb.take(j as int),
        decreases incoming.len() - j,
    {
        let ghost prev = nb.deep_view();
        let norm = normalize_vevent(incoming[j].as_str());
        proof {
            assert(incoming@[j as int]@ == incoming.deep_view()[j as int]);
        }
        nb.push(norm);
        proof {
            assert(nb.deep_view() =~= prev.push(spec_normal_of(incoming.deep_view()[j as int])));
            assert(sb.take(j + 1) =~= sb.take(j as int).push(sb[j as int]));
        }
        j = j + 1;
    }
    proof {
        assert(nb.deep_view() =~= sb);
    }
    let mut k: usize = 0;
    while k < na.len()
        invariant
            0 <= k <= na.len(),
            na.deep_view() == sa,
            nb.deep_view() == sb,
            sa == spec_normals_of(existing.deep_view()),
            sb == spec_normals_of(incoming.deep_view()),
            existing.deep_view().len() == incoming.deep_view().len(),
            forall|p: int| 0 <= p < k ==> count_occ(sa, #[trigger] sa[p]) == count_occ(sb, sa[p]),
        decreases na.len() - k,
    {
        let c1 = count_blocks(&na, &na[k]);
        let c2 = count_blocks(&nb, &na[k]);
        proof {
            assert(na@[k as int].deep_view() == sa[k as int]);
        }
        if c1 != c2 {
            proof {
                lemma_count_occ_multiset(sa, sa[k as int]);
                lemma_count_occ_multiset(sb, sa[k as int]);
                assert(sa.to_multiset() != sb.to_multiset());
            }
            return false;
        }
        k = k + 1;
    }
    let mut m: usize = 0;
    while m < nb.len()
        invariant
            0 <= m <= nb.len(),
            na.deep_view() == sa,
            nb.deep_view() == sb,
            sa == spec_normals_of(existing.deep_view()),
            sb == spec_normals_of(incoming.deep_view()),
            existing.deep_view().len() == incoming.deep_view().len(),
            forall|p: int| 0 <= p < sa.len() ==> count_occ(sa, #[trigger] sa[p]) == count_occ(
                sb,
                sa[p],
            ),
            forall|q: int| 0 <= q < m ==> count_occ(sa, #[trigger] sb[q]) == count_occ(sb, sb[q]),
        decreases nb.len() - m,
    {
        let c1 = count_blocks(&na, &nb[m]);
        let c2 = count_blocks(&nb, &nb[m]);
        proof {
            assert(nb@[m as int].deep_view() == sb[m as int]);
        }
        if c1 != c2 {
            proof {
                lemma_count_occ_multiset(sa, sb[m as int]);
                lemma_count_occ_multiset(sb, sb[m as int]);
                assert(sa.to_multiset() != sb.to_multiset());
            }
            return false;
        }
        m = m + 1;
    }
    proof {
        lemma_counts_give_multiset_eq(sa, sb);
    }
    true
}

} // verus!
// ---------------------------------------------------------------------------
// VEVENT / VTIMEZONE extraction
// ---------------------------------------------------------------------------

verus! {

/// Strip every copy of the prefix `p` from the front of `s`
/// (the behaviour of `str::trim_start_matches`).
pub open spec fn spec_strip_all(s: Seq<char>, p: Seq<char>) -> Seq<char>
    decreases s.len(),
{
    if p.len() > 0 && spec_has_prefix(s, p) && s.len() >= p.len() {
        spec_strip_all(s.skip(p.len() as int), p)
    } else {
        s
    }
}

fn has_prefix_at(s: &str, start: usize, p: &str) -> (r: bool)
    requires
        start <= s@.len(),
    ensures
        r == spec_has_prefix(s@.skip(start as int), p@),
{
    let pn = p.unicode_len();
    let n = s.unicode_len();
    if pn > n - start {
        assert(!spec_has_prefix(s@.skip(start as int), p@));
        return false;
    }
    let mut i: usize = 0;
    while i < pn
        invariant
            0 <= i <= pn,
            pn == p@.len(),
            n == s@.len(),
            start + pn <= n,
            forall|k: int| 0 <= k < i ==> s@[start + k] == p@[k],
        decreases pn - i,
    {
        if s.get_char(start + i) != p.get_char(i) {
            proof {
                let t = s@.skip(start as int);
                assert(t.subrange(0, pn as int)[i as int] == s@[start + i]);
            }
            return false;
        }
        i = i + 1;
    }
    proof {
        let t = s@.skip(start as int);
        assert(t.subrange(0, pn as int) =~= p@);
    }
    true
}

/// Strip every copy of a non-empty prefix, as `str::trim_start_matches` does.
pub fn strip_all_prefix(s: &str, p: &str) -> (r: String)
    requires
        p@.len() > 0,
    ensures
        r@ == spec_strip_all(s@, p@),
{
    let pn = p.unicode_len();
    let n = s.unicode_len();
    let mut start: usize = 0;
    proof {
        assert(s@.skip(0) =~= s@);
    }
    while has_prefix_at(s, start, p)
        invariant
            0 <= start <= n,
            pn == p@.len(),
            pn > 0,
            n == s@.len(),
            spec_strip_all(s@, p@) == spec_strip_all(s@.skip(start as int), p@),
        decreases n - start,
    {
        proof {
            let t = s@.skip(start as int);
            assert(t.skip(pn as int) =~= s@.skip(start + pn));
        }
        start = start + pn;
    }
    let r = s.substring_char(start, n).to_owned();
    proof {
        let t = s@.skip(start as int);
        assert(spec_strip_all(t, p@) == t);
        assert(r@ =~= t);
    }
    r
}

/// Are the keys of an association list pairwise distinct?
pub open spec fn keys_distinct(es: Seq<(Seq<char>, Seq<Seq<char>>)>) -> bool {
    forall|i: int, j: int| 0 <= i < j < es.len() ==> (#[trigger] es[i]).0 != (#[trigger] es[j]).0
}

/// First index holding key `k`, or the length when the key is absent.
pub open spec fn assoc_find(es: Seq<(Seq<char>, Seq<Seq<char>>)>, k: Seq<char>) -> int
    decreases es.len(),
{
    if es.len() == 0 {
        0
    } else if es[0].0 == k {
        0
    } else {
        1 + assoc_find(es.drop_first(), k)
    }
}

pub open spec fn assoc_contains(es: Seq<(Seq<char>, Seq<Seq<char>>)>, k: Seq<char>) -> bool {
    exists|i: int| 0 <= i < es.len() && (#[trigger] es[i]).0 == k
}

pub proof fn lemma_assoc_find(es: Seq<(Seq<char>, Seq<Seq<char>>)>, k: Seq<char>)
    ensures
        0 <= assoc_find(es, k) <= es.len(),
        assoc_find(es, k) < es.len() ==> es[assoc_find(es, k)].0 == k,
        forall|i: int| 0 <= i < assoc_find(es, k) ==> (#[trigger] es[i]).0 != k,
        (assoc_find(es, k) < es.len()) == assoc_contains(es, k),
    decreases es.len(),
{
    if es.len() == 0 {
    } else if es[0].0 == k {
    } else {
        let t = es.drop_first();
        lemma_assoc_find(t, k);
        assert forall|i: int| 0 <= i < assoc_find(es, k) implies (#[trigger] es[i]).0 != k by {
            if i > 0 {
                assert(es[i] == t[i - 1]);
            }
        }
        if assoc_find(es, k) < es.len() {
            assert(es[assoc_find(es, k)] == t[assoc_find(es, k) - 1]);
        }
        if assoc_contains(es, k) {
            let w = choose|i: int| 0 <= i < es.len() && (#[trigger] es[i]).0 == k;
            assert(w > 0);
            assert(t[w - 1] == es[w]);
            assert(assoc_contains(t, k));
        }
        if assoc_contains(t, k) {
            let w = choose|i: int| 0 <= i < t.len() && (#[trigger] t[i]).0 == k;
            assert(es[w + 1] == t[w]);
            assert(assoc_contains(es, k));
        }
    }
}

pub proof fn lemma_assoc_find_is(es: Seq<(Seq<char>, Seq<Seq<char>>)>, k: Seq<char>, i: int)
    requires
        0 <= i <= es.len(),
        i == es.len() || es[i].0 == k,
        forall|j: int| 0 <= j < i ==> (#[trigger] es[j]).0 != k,
    ensures
        assoc_find(es, k) == i,
    decreases es.len(),
{
    if es.len() == 0 {
    } else if es[0].0 == k {
        assert(i == 0);
    } else {
        assert(i >= 1);
        let t = es.drop_first();
        assert forall|j: int| 0 <= j < i - 1 implies (#[trigger] t[j]).0 != k by {
            assert(t[j] == es[j + 1]);
        }
        if i < es.len() {
            assert(t[i - 1] == es[i]);
        }
        lemma_assoc_find_is(t, k, i - 1);
    }
}

/// Append one block under a key: extend the key's list when present,
/// else add the key at the end with a singleton list.
pub open spec fn assoc_push(
    es: Seq<(Seq<char>, Seq<Seq<char>>)>,
    k: Seq<char>,
    v: Seq<char>,
) -> Seq<(Seq<char>, Seq<Seq<char>>)> {
    let i = assoc_find(es, k);
    if 0 <= i < es.len() {
        es.update(i, (k, es[i].1.push(v)))
    } else {
        es.push((k, seq![v]))
    }
}

/// Append a list of blocks under a key.
pub open spec fn assoc_extend(
    es: Seq<(Seq<char>, Seq<Seq<char>>)>,
    k: Seq<char>,
    vs: Seq<Seq<char>>,
) -> Seq<(Seq<char>, Seq<Seq<char>>)> {
    let i = assoc_find(es, k);
    if 0 <= i < es.len() {
        es.update(i, (k, es[i].1 + vs))
    } else {
        es.push((k, vs))
    }
}

/// A mapping from UID to the VEVENT blocks carrying it, in first-seen order.
pub struct EventMap {
    uids: Vec<String>,
    lists: Vec<Vec<String>>,
}

impl EventMap {
    /// The entries as an association list of (uid, blocks).
    pub closed spec fn entries(self) -> Seq<(Seq<char>, Seq<Seq<char>>)> {
        Seq::new(self.uids@.len(), |i: int| (self.uids@[i]@, self.lists@[i].deep_view()))
    }

    pub closed spec fn wf(self) -> bool {
        self.uids@.len() == self.lists@.len() && keys_distinct(self.entries())
    }

    pub fn new() -> (r: Self)
        ensures
            r.entries() == Seq::<(Seq<char>, Seq<Seq<char>>)>::empty(),
            r.wf(),
    {
        let r = EventMap { uids: Vec::new(), lists: Vec::new() };
        proof {
            assert(r.entries() =~= Seq::<(Seq<char>, Seq<Seq<char>>)>::empty());
        }
        r
    }

    fn find_idx(&self, uid: &str) -> (r: usize)
        requires
            self.wf(),
        ensures
            r == assoc_find(self.entries(), uid@),
    {
        let mut i: usize = 0;
        while i < self.uids.len()
            invariant
                self.wf(),
                0 <= i <= self.uids@.len(),
                forall|k: int| 0 <= k < i ==> (#[trigger] self.entries()[k]).0 != uid@,
            decreases self.uids@.len() - i,
        {
            let eq = str_eq(self.uids[i].as_str(), uid);
            if eq {
                proof {
                    assert(self.entries()[i as int].0 == uid@);
                    lemma_assoc_find_is(self.entries(), uid@, i as int);
                }
                return i;
            }
            proof {
                assert(self.entries()[i as int].0 == self.uids@[i as int]@);
                assert(self.entries()[i as int].0 != uid@);
            }
            i = i + 1;
        }
        proof {
            lemma_assoc_find_is(self.entries(), uid@, self.entries().len() as int);
        }
        self.uids.len()
    }

    pub fn len(&self) -> (r: usize)
        ensures
            r == self.entries().len(),
    {
        self.uids.len()
    }

    pub fn is_empty(&self) -> (r: bool)
        ensures
            r == (self.entries().len() == 0),
    {
        self.uids.len() == 0
    }

    pub fn contains_key(&self, uid: &str) -> (r: bool)
        requires
            self.wf(),
        ensures
            r == assoc_contains(self.entries(), uid@),
    {
        let i = self.find_idx(uid);
        proof {
            lemma_assoc_find(self.entries(), uid@);
        }
        i < self.uids.len()
    }

    /// The blocks stored under a UID, when the UID is present.
    pub fn get<'a>(&'a self, uid: &str) -> (r: Option<&'a Vec<String>>)
        requires
            self.wf(),
        ensures
            match r {
                Some(v) => assoc_contains(self.entries(), uid@) && v.deep_view() == self.entries()[
                    assoc_find(self.entries(), uid@)
                ].1,
                None => !assoc_contains(self.entries(), uid@),
            },
    {
        let i = self.find_idx(uid);
        proof {
            lemma_assoc_find(self.entries(), uid@);
        }
        if i < self.lists.len() {
            Some(&self.lists[i])
        } else {
            None
        }
    }

    pub fn uid_at<'a>(&'a self, i: usize) -> (r: &'a String)
        requires
            self.wf(),
            i < self.entries().len(),
        ensures
            r@ == self.entries()[i as int].0,
    {
        &self.uids[i]
    }

    pub fn list_at<'a>(&'a self, i: usize) -> (r: &'a Vec<String>)
        requires
            self.wf(),
            i < self.entries().len(),
        ensures
            r.deep_view() == self.entries()[i as int].1,
    {
        &self.lists[i]
    }

    /// Record one more block under a UID.
    pub fn push_block(&mut self, uid: String, block: String)
        requires
            old(self).wf(),
        ensures
            final(self).wf(),
            final(self).entries() == assoc_push(old(self).entries(), uid@, block@),
    {
        let ghost es = self.entries();
        let i = self.find_idx(uid.as_str());
        proof {
            lemma_assoc_find(es, uid@);
        }
        if i < self.lists.len() {
            let mut l = self.lists.remove(i);
            l.push(block);
            self.lists.insert(i, l);
            proof {
                assert(self.uids@ =~= old(self).uids@);
                let es2 = self.entries();
                let target = assoc_push(es, uid@, block@);
                assert forall|k: int| 0 <= k < es2.len() implies es2[k] == target[k] by {
                    if k == i {
                        assert(es2[k].0 =~= es[k].0);
                        assert(es[k].0 == uid@);
                        assert(es2[k].1 =~= es[k].1.push(block@));
                    } else {
                        assert(self.lists@[k] == old(self).lists@[k]);
                        assert(es2[k].0 =~= es[k].0);
                        assert(es2[k].1 =~= es[k].1);
                    }
                }
                assert(es2 =~= target);
                assert(keys_distinct(es2));
            }
        } else {
            self.uids.push(uid);
            let mut nl: Vec<String> = Vec::new();
            nl.push(block);
            self.lists.push(nl);
            proof {
                let es2 = self.entries();
                let target = assoc_push(es, uid@, block@);
                assert(nl.deep_view() =~= seq![block@]);
                assert forall|k: int| 0 <= k < es2.len() implies es2[k] == target[k] by {
                    if k < es.len() {
                        assert(self.uids@[k] == old(self).uids@[k]);
                        assert(self.lists@[k] == old(self).lists@[k]);
                        assert(es2[k].0 =~= es[k].0);
                        assert(es2[k].1 =~= es[k].1);
                    } else {
                        assert(es2[k].0 =~= uid@);
                        assert(es2[k].1 =~= seq![block@]);
                    }
                }
                assert(es2 =~= target);
                assert forall|p: int, q: int| 0 <= p < q < es2.len() implies (
                    #[trigger] es2[p]).0 != (#[trigger] es2[q]).0 by {
                    if q == es.len() {
                        assert(es2[p].0 == es[p].0);
                        assert(es2[q].0 == uid@);
                    }
                }
            }
        }
    }

    /// Append a list of blocks under a UID.
    pub fn extend_entry(&mut self, uid: &String, blocks: &Vec<String>)
        requires
            old(self).wf(),
        ensures
            final(self).wf(),
            final(self).entries() == assoc_extend(old(self).entries(), uid@, blocks.deep_view()),
    {
        let ghost es = self.entries();
        let i = self.find_idx(uid.as_str());
        proof {
            lemma_assoc_find(es, uid@);
        }
        let mut copy: Vec<String> = Vec::new();
        let mut j: usize = 0;
        while j < blocks.len()
            invariant
                0 <= j <= blocks.len(),
                copy.deep_view() =~= blocks.deep_view().take(j as int),
            decreases blocks.len() - j,
        {
            let ghost prev = copy.deep_view();
            copy.push(blocks[j].clone());
            proof {
                assert(copy.deep_view() =~= prev.push(blocks@[j as int]@));
                assert(blocks.deep_view().take(j + 1) =~= blocks.deep_view().take(
                    j as int,
                ).push(blocks.deep_view()[j as int]));
            }
            j = j + 1;
        }
        proof {
            assert(copy.deep_view() =~= blocks.deep_view());
        }
        if i < self.lists.len() {
            let mut l = self.lists.remove(i);
            let mut k: usize = 0;
            let ghost base = l.deep_view();
            while k < copy.len()
                invariant
                    0 <= k <= copy.len(),
                    copy.deep_view() == blocks.deep_view(),
                    l.deep_view() =~= base + blocks.deep_view().take(k as int),
                decreases copy.len() - k,
            {
                let ghost prev = l.deep_view();
                let b = copy[k].clone();
                l.push(b);
                proof {
                    assert(l.deep_view() =~= prev.push(copy@[k as int]@));
                    assert(copy@[k as int]@ == blocks.deep_view()[k as int]);
                    assert(base + blocks.deep_view().take(k + 1) =~= (base
                        + blocks.deep_view().take(k as int)).push(blocks.deep_view()[k as int]));
                }
                k = k + 1;
            }
            proof {
                assert(l.deep_view() =~= base + blocks.deep_view());
            }
            self.lists.insert(i, l);
            proof {
                assert(self.uids@ =~= old(self).uids@);
                let es2 = self.entries();
                let target = assoc_extend(es, uid@, blocks.deep_view());
                assert forall|k2: int| 0 <= k2 < es2.len() implies es2[k2] == target[k2] by {
                    if k2 == i {
                        assert(es[k2].0 == uid@);
                        assert(es2[k2].1 =~= es[k2].1 + blocks.deep_view());
                    } else {
                        assert(self.lists@[k2] == old(self).lists@[k2]);
                        assert(es2[k2].0 =~= es[k2].0);
                        assert(es2[k2].1 =~= es[k2].1);
                    }
                }
                assert(es2 =~= target);
                assert(keys_distinct(es2));
            }
        } else {
            self.uids.push(uid.clone());
            self.lists.push(copy);
            proof {
                let es2 = self.entries();
                let target = assoc_extend(es, uid@, blocks.deep_view());
                assert forall|k2: int| 0 <= k2 < es2.len() implies es2[k2] == target[k2] by {
                    if k2 < es.len() {
                        assert(self.uids@[k2] == old(self).uids@[k2]);
                        assert(self.lists@[k2] == old(self).lists@[k2]);
                        assert(es2[k2].0 =~= es[k2].0);
                        assert(es2[k2].1 =~= es[k2].1);
                    } else {
                        assert(es2[k2].0 =~= uid@);
                        assert(es2[k2].1 =~= blocks.deep_view());
                    }
                }
                assert(es2 =~= target);
                assert forall|p: int, q: int| 0 <= p < q < es2.len() implies (
                    #[trigger] es2[p]).0 != (#[trigger] es2[q]).0 by {
                    if q == es.len() {
                        assert(es2[p].0 == es[p].0);
                        assert(es2[q].0 == uid@);
                    }
                }
            }
        }
    }
}

} // verus!
// ---------------------------------------------------------------------------
// The extraction scan
// ---------------------------------------------------------------------------

verus! {

pub open spec fn spec_crlf() -> Seq<char> {
    seq!['\r', '\n']
}

/// The scanner's state while walking the unfolded logical lines.
pub struct ScanState {
    pub in_tz: bool,
    pub in_ev: bool,
    pub cur_ev: Seq<char>,
    pub cur_uid: Seq<char>,
    pub cur_tz: Seq<char>,
    pub entries: Seq<(Seq<char>, Seq<Seq<char>>)>,
    pub tzs: Seq<Seq<char>>,
}

pub open spec fn spec_scan_init() -> ScanState {
    ScanState {
        in_tz: false,
        in_ev: false,
        cur_ev: Seq::empty(),
        cur_uid: Seq::empty(),
        cur_tz: Seq::empty(),
        entries: Seq::empty(),
        tzs: Seq::empty(),
    }
}

/// One step of the extraction scan over a logical line. VTIMEZONE blocks are
/// captured verbatim; VEVENT blocks are collected under their UID, and blocks
/// without a UID are dropped.
pub open spec fn scan_step(st: ScanState, l: Seq<char>) -> ScanState {
    let st0 = if spec_has_prefix(l, "BEGIN:VTIMEZONE"@) {
        ScanState { in_tz: true, cur_tz: Seq::empty(), ..st }
    } else {
        st
    };
    if st0.in_tz {
        let acc = st0.cur_tz + l + spec_crlf();
        if spec_has_prefix(l, "END:VTIMEZONE"@) {
            ScanState { in_tz: false, cur_tz: acc, tzs: st0.tzs.push(acc), ..st0 }
        } else {
            ScanState { cur_tz: acc, ..st0 }
        }
    } else {
        let st1 = if spec_has_prefix(l, "BEGIN:VEVENT"@) {
            ScanState { in_ev: true, cur_ev: Seq::empty(), cur_uid: Seq::empty(), ..st0 }
        } else {
            st0
        };
        if st1.in_ev {
            let ev = st1.cur_ev + l + spec_crlf();
            let uid = if spec_has_prefix(l, "UID:"@) {
                spec_trim(spec_strip_all(l, "UID:"@))
            } else {
                st1.cur_uid
            };
            if spec_has_prefix(l, "END:VEVENT"@) {
                if uid.len() > 0 {
                    ScanState {
                        in_ev: false,
                        cur_ev: ev,
                        cur_uid: uid,
                        entries: assoc_push(st1.entries, uid, ev),
                        ..st1
                    }
                } else {
                    ScanState { in_ev: false, cur_ev: ev, cur_uid: uid, ..st1 }
                }
            } else {
                ScanState { cur_ev: ev, cur_uid: uid, ..st1 }
            }
        } else {
            st1
        }
    }
}

/// The scan state after the first `i` lines.
pub open spec fn scan_to(ls: Seq<Seq<char>>, i: int) -> ScanState
    decreases i,
{
    if i <= 0 {
        spec_scan_init()
    } else {
        scan_step(scan_to(ls, i - 1), ls[i - 1])
    }
}

/// What extraction returns on a text: the scan of its unfolded lines.
pub open spec fn spec_extract(text: Seq<char>) -> ScanState {
    let uf = spec_unfold(spec_lines(text));
    scan_to(uf, uf.len() as int)
}

/// The VEVENT blocks of an ICS text grouped by UID, and its VTIMEZONE
/// blocks, captured verbatim.
pub struct ExtractedEvents {
    pub events: EventMap,
    pub vtimezones: Vec<String>,
}

/// Scan an ICS text for VEVENT and VTIMEZONE blocks.
pub fn extract_events(ics_text: &str) -> (r: ExtractedEvents)
    ensures
        r.events.wf(),
        r.events.entries() == spec_extract(ics_text@).entries,
        r.vtimezones.deep_view() == spec_extract(ics_text@).tzs,
{
    let lines = split_lines(ics_text);
    let unfolded = unfold_lines(&lines);
    let ghost uf = spec_unfold(spec_lines(ics_text@));

    let mut in_tz: bool = false;
    let mut in_ev: bool = false;
    let mut cur_ev: String = String::new();
    let mut cur_uid: String = String::new();
    let mut cur_tz: String = String::new();
    let mut map = EventMap::new();
    let mut tzs: Vec<String> = Vec::new();
    let mut i: usize = 0;

    proof {
        assert(tzs.deep_view() =~= Seq::<Seq<char>>::empty());
        assert(cur_ev@ =~= Seq::<char>::empty());
    }
    while i < unfolded.len()
        invariant
            0 <= i <= unfolded.len(),
            unfolded.deep_view() == uf,
            map.wf(),
            in_tz == scan_to(uf, i as int).in_tz,
            in_ev == scan_to(uf, i as int).in_ev,
            cur_ev@ == scan_to(uf, i as int).cur_ev,
            cur_uid@ == scan_to(uf, i as int).cur_uid,
            cur_tz@ == scan_to(uf, i as int).cur_tz,
            map.entries() == scan_to(uf, i as int).entries,
            tzs.deep_view() == scan_to(uf, i as int).tzs,
        decreases unfolded.len() - i,
    {
        let ghost st = scan_to(uf, i as int);
        let ghost l = uf[i as int];
        let ghost stepped = scan_step(st, l);
        proof {
            assert(scan_to(uf, i + 1) == stepped);
            assert(unfolded@[i as int]@ == l);
        }
        let line = &unfolded[i];

        if has_prefix(line.as_str(), "BEGIN:VTIMEZONE") {
            in_tz = true;
            cur_tz = String::new();
        }
        if in_tz {
            cur_tz.append(line.as_str());
            cur_tz.append("\r\n");
            proof {
                reveal_strlit("\r\n");
                assert("\r\n"@ =~= spec_crlf());
            }
            if has_prefix(line.as_str(), "END:VTIMEZONE") {
                in_tz = false;
                tzs.push(cur_tz.clone());
                proof {
                    assert(tzs.deep_view() =~= st.tzs.push(cur_tz@));
                }
            }
        } else {
            if has_prefix(line.as_str(), "BEGIN:VEVENT") {
                in_ev = true;
                cur_ev = String::new();
                cur_uid = String::new();
            }
            if in_ev {
                cur_ev.append(line.as_str());
                cur_ev.append("\r\n");
                proof {
                    reveal_strlit("\r\n");
                    assert("\r\n"@ =~= spec_crlf());
                }
                if has_prefix(line.as_str(), "UID:") {
                    proof {
                        reveal_strlit("UID:");
                    }
                    let stripped = strip_all_prefix(line.as_str(), "UID:");
                    cur_uid = trim_str(stripped.as_str());
                }
                if has_prefix(line.as_str(), "END:VEVENT") {
                    in_ev = false;
                    if cur_uid.as_str().unicode_len() > 0 {
                        map.push_block(cur_uid.clone(), cur_ev.clone());
                    }
                }
            }
        }
        i = i + 1;
    }
    proof {
        assert(scan_to(uf, uf.len() as int) == spec_extract(ics_text@));
    }
    ExtractedEvents { events: map, vtimezones: tzs }
}

/// Fold a source map's entries into a destination map, appending each
/// UID's blocks.
pub open spec fn assoc_extend_to(
    es: Seq<(Seq<char>, Seq<Seq<char>>)>,
    src: Seq<(Seq<char>, Seq<Seq<char>>)>,
    j: int,
) -> Seq<(Seq<char>, Seq<Seq<char>>)>
    decreases j,
{
    if j <= 0 {
        es
    } else {
        let prev = assoc_extend_to(es, src, j - 1);
        assoc_extend(prev, src[j - 1].0, src[j - 1].1)
    }
}

/// The UID index that a list of ICS texts yields: each text's extracted
/// events merged in order.
pub open spec fn spec_index_to(texts: Seq<Seq<char>>, i: int) -> Seq<(Seq<char>, Seq<Seq<char>>)>
    decreases i,
{
    if i <= 0 {
        Seq::empty()
    } else {
        let prev = spec_index_to(texts, i - 1);
        let src = spec_extract(texts[i - 1]).entries;
        assoc_extend_to(prev, src, src.len() as int)
    }
}

/// Build one UID index over a list of ICS texts, as the reverse sync does
/// with the event payloads fetched from CalDAV.
pub fn index_events(ics_strings: &Vec<String>) -> (r: EventMap)
    ensures
        r.wf(),
        r.entries() == spec_index_to(ics_strings.deep_view(), ics_strings.deep_view().len() as int),
{
    let mut map = EventMap::new();
    let mut i: usize = 0;
    while i < ics_strings.len()
        invariant
            0 <= i <= ics_strings.len(),
            map.wf(),
            map.entries() == spec_index_to(ics_strings.deep_view(), i as int),
        decreases ics_strings.len() - i,
    {
        proof {
            assert(ics_strings@[i as int]@ == ics_strings.deep_view()[i as int]);
        }
        let ex = extract_events(ics_strings[i].as_str());
        let ghost src = spec_extract(ics_strings.deep_view()[i as int]).entries;
        let n = ex.events.len();
        let mut j: usize = 0;
        while j < n
            invariant
                0 <= j <= n,
                n == src.len(),
                ex.events.wf(),
                ex.events.entries() == src,
                map.wf(),
                map.entries() == assoc_extend_to(
                    spec_index_to(ics_strings.deep_view(), i as int),
                    src,
                    j as int,
                ),
            decreases n - j,
        {
            let uid = ex.events.uid_at(j).clone();
            let blocks = ex.events.list_at(j);
            map.extend_entry(&uid, blocks);
            j = j + 1;
        }
        i = i + 1;
    }
    map
}

} // verus!
