//! The library's cross-cutting laws, stated and proved over the spec
//! functions that the executable contracts use.
use vstd::prelude::*;
use crate::text::{lemma_lex_total_ordering, lex_leq};
use crate::ics::{
    assoc_contains, assoc_find, lemma_assoc_find, spec_events_equal, spec_is_continuation,
    spec_kept, spec_kept_lines, spec_normal_of, spec_normals_of, spec_unfold, spec_unfold_to,
};
use crate::text::spec_trim;
use crate::store::{opt_is, spec_paths_ok, spec_reserved, Source, SourcePath};
use crate::datetime::{DateTimeValue, DateValue};
use crate::reverse::{del_scan, rev_scan, spec_included};

verus! {

/// Normalise-then-compare is an equivalence relation: semantic VEVENT
/// group equality is reflexive, symmetric and transitive.
pub proof fn lemma_events_equal_equivalence(
    a: Seq<Seq<char>>,
    b: Seq<Seq<char>>,
    c: Seq<Seq<char>>,
)
    ensures
        spec_events_equal(a, a),
        spec_events_equal(a, b) ==> spec_events_equal(b, a),
        spec_events_equal(a, b) && spec_events_equal(b, c) ==> spec_events_equal(a, c),
{
}

/// Any rearrangement of a block that keeps the multiset of trimmed,
/// non-volatile logical lines — reordering lines, refolding, or injecting
/// volatile lines — leaves the normal form unchanged, so the two blocks
/// compare equal.
pub proof fn lemma_normal_of_same_kept(u: Seq<char>, v: Seq<char>)
    requires
        spec_kept_lines(u).to_multiset() == spec_kept_lines(v).to_multiset(),
    ensures
        spec_normal_of(u) == spec_normal_of(v),
        spec_events_equal(seq![u], seq![v]),
{
    lemma_lex_total_ordering();
    spec_kept_lines(u).lemma_sort_by_ensures(lex_leq());
    spec_kept_lines(v).lemma_sort_by_ensures(lex_leq());
    crate::text::lemma_sorted_strings_unique(spec_normal_of(u), spec_normal_of(v));
    assert(spec_normals_of(seq![u]) =~= seq![spec_normal_of(u)]);
    assert(spec_normals_of(seq![v]) =~= seq![spec_normal_of(v)]);
    assert(spec_normals_of(seq![u]) == spec_normals_of(seq![v]));
}

/// Path-namespace uniqueness and reservation: in a well-formed store the
/// serving paths, the stored public aliases and the extra paths are
/// pairwise distinct across all three namespaces, and none of them is
/// `public` or below `public/`. Every store mutation preserves this.
pub proof fn lemma_path_namespace(ss: Seq<Source>, sps: Seq<SourcePath>)
    requires
        spec_paths_ok(ss, sps),
    ensures
        forall|i: int, j: int|
            0 <= i < j < ss.len() ==> (#[trigger] ss[i]).ics_path@ != (#[trigger] ss[j]).ics_path@,
        forall|i: int, j: int|
            0 <= i < ss.len() && 0 <= j < ss.len() ==> !opt_is(
                (#[trigger] ss[j]).public_ics_path,
                (#[trigger] ss[i]).ics_path@,
            ),
        forall|i: int, j: int|
            0 <= i < j < ss.len() ==> !((#[trigger] ss[i]).public_ics_path is Some && (
            #[trigger] ss[j]).public_ics_path is Some && ss[i].public_ics_path->0@
                == ss[j].public_ics_path->0@),
        forall|i: int, j: int|
            0 <= i < ss.len() && 0 <= j < sps.len() ==> (#[trigger] sps[j]).path@ != (
            #[trigger] ss[i]).ics_path@ && !opt_is(ss[i].public_ics_path, sps[j].path@),
        forall|i: int, j: int|
            0 <= i < j < sps.len() ==> (#[trigger] sps[i]).path@ != (#[trigger] sps[j]).path@,
        forall|i: int| 0 <= i < ss.len() ==> !spec_reserved((#[trigger] ss[i]).ics_path@),
        forall|i: int|
            0 <= i < ss.len() ==> ((#[trigger] ss[i]).public_ics_path is Some ==> !spec_reserved(
                ss[i].public_ics_path->0@,
            )),
        forall|i: int| 0 <= i < sps.len() ==> !spec_reserved((#[trigger] sps[i]).path@),
{
}

/// Reverse-sync idempotence: when the calendar already holds every feed
/// group unchanged and no UID beyond the feed, the run uploads nothing,
/// skips every considered event, and deletes nothing.
pub proof fn lemma_reverse_sync_idempotent(
    feed: Seq<(Seq<char>, Seq<Seq<char>>)>,
    existing: Seq<(Seq<char>, Seq<Seq<char>>)>,
    sync_all: bool,
    today: DateValue,
    now: DateTimeValue,
    i: int,
)
    requires
        0 <= i <= feed.len(),
        forall|k: int|
            0 <= k < feed.len() ==> assoc_contains(existing, (#[trigger] feed[k]).0)
                && spec_events_equal(
                existing[assoc_find(existing, feed[k].0)].1,
                feed[k].1,
            ),
    ensures
        rev_scan(feed, i, existing, sync_all, today, now).uploads.len() == 0,
        rev_scan(feed, i, existing, sync_all, today, now).skipped == rev_scan(
            feed,
            i,
            existing,
            sync_all,
            today,
            now,
        ).total,
    decreases i,
{
    if i > 0 {
        lemma_reverse_sync_idempotent(feed, existing, sync_all, today, now, i - 1);
        let e = feed[i - 1];
        if spec_included(e.1, sync_all, today, now) {
            lemma_assoc_find(existing, e.0);
        }
    }
}

/// Reverse-sync orphan scan: when every remote UID also stands in the
/// feed, nothing is deleted.
pub proof fn lemma_no_orphans(
    existing: Seq<(Seq<char>, Seq<Seq<char>>)>,
    feed: Seq<(Seq<char>, Seq<Seq<char>>)>,
    sync_all: bool,
    today: DateValue,
    now: DateTimeValue,
    i: int,
)
    requires
        0 <= i <= existing.len(),
        forall|j: int| 0 <= j < existing.len() ==> assoc_contains(feed, (#[trigger] existing[j]).0),
    ensures
        del_scan(existing, i, feed, sync_all, today, now).len() == 0,
    decreases i,
{
    if i > 0 {
        lemma_no_orphans(existing, feed, sync_all, today, now, i - 1);
    }
}

} // verus!
// ---------------------------------------------------------------------------
// Unfolding invariance
// ---------------------------------------------------------------------------

verus! {

/// Running the unfolding fold over equal line runs from equal states gives
/// equal states.
proof fn lemma_unfold_tail(a: Seq<Seq<char>>, b: Seq<Seq<char>>, p: int, q: int, n: int)
    requires
        0 <= p,
        0 <= q,
        0 <= n,
        p + n <= a.len(),
        q + n <= b.len(),
        spec_unfold_to(a, p) == spec_unfold_to(b, q),
        forall|t: int| 0 <= t < n ==> #[trigger] a[p + t] == b[q + t],
    ensures
        spec_unfold_to(a, p + n) == spec_unfold_to(b, q + n),
    decreases n,
{
    if n > 0 {
        lemma_unfold_tail(a, b, p, q, n - 1);
        assert(a[p + n - 1] == b[q + n - 1]);
        assert(spec_unfold_to(a, p + n) == spec_unfold_to(b, q + n));
    }
}

/// Inserting a non-continuation line, not directly before a continuation
/// line, inserts it into the unfolded output at a fixed position and
/// leaves every other logical line alone.
proof fn lemma_unfold_insert(ls: Seq<Seq<char>>, i: int, l: Seq<char>, j: int)
    requires
        0 <= i <= j <= ls.len(),
        !spec_is_continuation(l),
        i < ls.len() ==> !spec_is_continuation(ls[i]),
    ensures
        spec_unfold_to(ls.insert(i, l), j + 1) == spec_unfold_to(ls, j).insert(
            spec_unfold_to(ls, i).len() as int,
            l,
        ),
        j > i ==> spec_unfold_to(ls, j).len() >= spec_unfold_to(ls, i).len() + 1,
        j == i ==> spec_unfold_to(ls, j).len() == spec_unfold_to(ls, i).len(),
    decreases j,
{
    let ls2 = ls.insert(i, l);
    let pos = spec_unfold_to(ls, i).len() as int;
    if j == i {
        assert(forall|t: int| 0 <= t < i ==> ls2[t] == ls[t]);
        lemma_unfold_tail(ls2, ls, 0, 0, i);
        assert(spec_unfold_to(ls2, i) == spec_unfold_to(ls, i));
        assert(ls2[i] == l);
        assert(spec_unfold_to(ls2, i + 1) == spec_unfold_to(ls2, i).push(l));
        assert(spec_unfold_to(ls, i).push(l) =~= spec_unfold_to(ls, i).insert(pos, l));
    } else {
        lemma_unfold_insert(ls, i, l, j - 1);
        let u = spec_unfold_to(ls, j - 1);
        let w = u.insert(pos, l);
        assert(spec_unfold_to(ls2, j) == w);
        assert(ls2[j] == ls[j - 1]);
        let line = ls[j - 1];
        assert(u.len() >= pos);
        if spec_is_continuation(line) && u.len() > 0 {
            assert(j - 1 > i) by {
                if j - 1 == i {
                    assert(!spec_is_continuation(ls[i]));
                }
            }
            assert(u.len() >= pos + 1);
            assert(w.len() == u.len() + 1);
            assert(w.last() == u.last()) by {
                assert(w[w.len() - 1] == u[u.len() - 1]);
            }
            let merged = u.update(u.len() - 1, u.last() + line.drop_first());
            assert(spec_unfold_to(ls, j) == merged);
            assert(spec_unfold_to(ls2, j + 1) == w.update(
                w.len() - 1,
                w.last() + line.drop_first(),
            ));
            assert(w.update(w.len() - 1, w.last() + line.drop_first()) =~= merged.insert(
                pos,
                l,
            ));
        } else {
            assert(spec_unfold_to(ls, j) == u.push(line));
            assert(spec_unfold_to(ls2, j + 1) == w.push(line));
            assert(w.push(line) =~= u.push(line).insert(pos, l));
        }
    }
}

/// Filtering drops an inserted element the predicate rejects.
proof fn lemma_filter_insert_dropped(s: Seq<Seq<char>>, pos: int, x: Seq<char>)
    requires
        0 <= pos <= s.len(),
        !spec_kept(x),
    ensures
        s.insert(pos, x).filter(|l: Seq<char>| spec_kept(l)) == s.filter(
            |l: Seq<char>| spec_kept(l),
        ),
    decreases s.len(),
{
    reveal(Seq::filter);
    let t = s.insert(pos, x);
    if pos == s.len() {
        assert(t.drop_last() =~= s);
        assert(t.last() == x);
    } else {
        assert(t.drop_last() =~= s.drop_last().insert(pos, x));
        assert(t.last() == s.last());
        lemma_filter_insert_dropped(s.drop_last(), pos, x);
    }
}

/// Volatile tolerance: injecting a line that normalisation drops (blank or
/// volatile once trimmed) anywhere it does not break a folded run leaves
/// the kept lines — and so the normal form — unchanged.
pub proof fn lemma_volatile_injection(ls: Seq<Seq<char>>, i: int, l: Seq<char>)
    requires
        0 <= i <= ls.len(),
        !spec_is_continuation(l),
        i < ls.len() ==> !spec_is_continuation(ls[i]),
        !spec_kept(spec_trim(l)),
    ensures
        spec_unfold(ls.insert(i, l)).map_values(|x: Seq<char>| spec_trim(x)).filter(
            |x: Seq<char>| spec_kept(x),
        ) == spec_unfold(ls).map_values(|x: Seq<char>| spec_trim(x)).filter(
            |x: Seq<char>| spec_kept(x),
        ),
{
    let ls2 = ls.insert(i, l);
    let pos = spec_unfold_to(ls, i).len() as int;
    lemma_unfold_insert(ls, i, l, ls.len() as int);
    assert(spec_unfold(ls2) == spec_unfold(ls).insert(pos, l)) by {
        assert(ls2.len() == ls.len() + 1);
    }
    let u = spec_unfold(ls);
    assert(0 <= pos <= u.len()) by {
        if i < ls.len() {
            lemma_unfold_insert(ls, i, l, ls.len() as int);
        }
    }
    let m = u.map_values(|x: Seq<char>| spec_trim(x));
    assert(spec_unfold(ls2).map_values(|x: Seq<char>| spec_trim(x)) =~= m.insert(
        pos,
        spec_trim(l),
    ));
    lemma_filter_insert_dropped(m, pos, spec_trim(l));
}

/// Refolding invariance: splitting one logical line anywhere, with a space
/// or tab as the continuation marker, unfolds back to the same logical
/// lines.
pub proof fn lemma_refold_split(ls: Seq<Seq<char>>, j: int, k: int, marker: char)
    requires
        0 <= j < ls.len(),
        1 <= k <= ls[j].len(),
        marker == ' ' || marker == '\t',
    ensures
        spec_unfold(
            ls.take(j) + seq![ls[j].subrange(0, k), seq![marker] + ls[j].skip(k)] + ls.skip(
                j + 1,
            ),
        ) == spec_unfold(ls),
{
    let l = ls[j];
    let a = l.subrange(0, k);
    let b = seq![marker] + l.skip(k);
    let ls2 = ls.take(j) + seq![a, b] + ls.skip(j + 1);
    assert(ls2.len() == ls.len() + 1);
    assert(forall|t: int| 0 <= t < j ==> ls2[t] == ls[t]);
    assert(ls2[j] == a && ls2[j + 1] == b);
    assert(forall|t: int| j + 2 <= t < ls2.len() ==> ls2[t] == ls[t - 1]);
    lemma_unfold_tail(ls2, ls, 0, 0, j);
    let u = spec_unfold_to(ls, j);
    assert(spec_unfold_to(ls2, j) == u);
    assert(spec_is_continuation(b));
    assert(b.drop_first() =~= l.skip(k));
    // the two primed steps give exactly the one unprimed step
    if spec_is_continuation(l) && u.len() > 0 {
        assert(spec_is_continuation(a)) by {
            assert(a[0] == l[0]);
        }
        let m1 = u.update(u.len() - 1, u.last() + a.drop_first());
        assert(spec_unfold_to(ls2, j + 1) == m1);
        assert(m1.len() == u.len() > 0);
        let m2 = m1.update(m1.len() - 1, m1.last() + b.drop_first());
        assert(spec_unfold_to(ls2, j + 2) == m2);
        let direct = u.update(u.len() - 1, u.last() + l.drop_first());
        assert(spec_unfold_to(ls, j + 1) == direct);
        assert(m2 =~= direct) by {
            assert(m1.last() == u.last() + a.drop_first());
            assert(a.drop_first() + l.skip(k) =~= l.drop_first());
            assert(u.last() + a.drop_first() + l.skip(k) =~= u.last() + l.drop_first());
        }
    } else {
        assert(spec_unfold_to(ls2, j + 1) == u.push(a)) by {
            if spec_is_continuation(a) {
                assert(a[0] == l[0]);
                assert(spec_is_continuation(l));
                assert(u.len() == 0);
            }
        }
        let w = u.push(a);
        assert(w.len() > 0);
        let m2 = w.update(w.len() - 1, w.last() + b.drop_first());
        assert(spec_unfold_to(ls2, j + 2) == m2);
        assert(spec_unfold_to(ls, j + 1) == u.push(l));
        assert(m2 =~= u.push(l)) by {
            assert(w.last() == a);
            assert(a + l.skip(k) =~= l);
        }
    }
    lemma_unfold_tail(ls2, ls, j + 2, j + 1, ls.len() - j - 1);
    assert(spec_unfold_to(ls2, ls2.len() as int) == spec_unfold_to(ls, ls.len() as int));
}

} // verus!
