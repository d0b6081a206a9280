//! Snapshot ordering: entries sorted by modification time, newest first, with
//! ties kept in original traversal order (a stable sort, no secondary key).

use vstd::prelude::*;

verus! {

use crate::files::{EntryModel, FileEntry};

/// Newest first: `modified` never increases along the sequence.
pub open spec fn sorted_desc(s: Seq<EntryModel>) -> bool {
    forall|i: int, j: int| 0 <= i < j < s.len() ==> s[i].modified >= s[j].modified
}

/// Insertion of `e` behind every entry at least as new: the position a stable
/// descending sort gives the latest-come entry.
pub open spec fn insert_desc(s: Seq<EntryModel>, e: EntryModel) -> Seq<EntryModel>
    decreases s.len(),
{
    if s.len() == 0 {
        seq![e]
    } else if s[0].modified >= e.modified {
        seq![s[0]] + insert_desc(s.drop_first(), e)
    } else {
        seq![e] + s
    }
}

/// Stable descending sort by `modified`: entries are inserted one by one, in
/// traversal order, each behind its equals.
pub open spec fn sort_by_modified_spec(s: Seq<EntryModel>) -> Seq<EntryModel>
    decreases s.len(),
{
    if s.len() == 0 {
        Seq::empty()
    } else {
        insert_desc(sort_by_modified_spec(s.drop_last()), s.last())
    }
}

/// The subsequence of entries whose modification time is `v`, in order.
pub open spec fn with_modified(s: Seq<EntryModel>, v: u64) -> Seq<EntryModel>
    decreases s.len(),
{
    if s.len() == 0 {
        Seq::empty()
    } else if s[0].modified == v {
        seq![s[0]] + with_modified(s.drop_first(), v)
    } else {
        with_modified(s.drop_first(), v)
    }
}

pub proof fn lemma_insert_desc_len(s: Seq<EntryModel>, e: EntryModel)
    ensures
        insert_desc(s, e).len() == s.len() + 1,
    decreases s.len(),
{
    if s.len() > 0 && s[0].modified >= e.modified {
        lemma_insert_desc_len(s.drop_first(), e);
    }
}

/// Where the insertion lands: after the (contiguous) entries at least as new,
/// before the rest.
pub proof fn lemma_insert_desc_at(s: Seq<EntryModel>, e: EntryModel, p: int)
    requires
        0 <= p <= s.len(),
        forall|k: int| 0 <= k < p ==> s[k].modified >= e.modified,
        p == s.len() || s[p].modified < e.modified,
    ensures
        insert_desc(s, e) =~= s.subrange(0, p) + seq![e] + s.subrange(p, s.len() as int),
    decreases s.len(),
{
    if s.len() == 0 {
    } else if p == 0 {
        assert(s[0].modified < e.modified);
    } else {
        assert(s[0].modified >= e.modified);
        lemma_insert_desc_at(s.drop_first(), e, p - 1);
        assert(s.drop_first().subrange(0, p - 1) =~= s.subrange(1, p));
        assert(s.drop_first().subrange(p - 1, s.drop_first().len() as int) =~= s.subrange(
            p,
            s.len() as int,
        ));
    }
}

proof fn lemma_insert_desc_upper(s: Seq<EntryModel>, e: EntryModel, b: u64)
    requires
        forall|i: int| 0 <= i < s.len() ==> s[i].modified <= b,
        e.modified <= b,
    ensures
        forall|j: int|
            0 <= j < insert_desc(s, e).len() ==> insert_desc(s, e)[j].modified <= b,
    decreases s.len(),
{
    let r = insert_desc(s, e);
    if s.len() == 0 {
        assert forall|j: int| 0 <= j < r.len() implies r[j].modified <= b by {
            assert(r[j] == e);
        }
    } else if s[0].modified >= e.modified {
        assert(forall|i: int|
            0 <= i < s.drop_first().len() ==> s.drop_first()[i].modified <= b);
        lemma_insert_desc_upper(s.drop_first(), e, b);
        let u = insert_desc(s.drop_first(), e);
        assert forall|j: int| 0 <= j < r.len() implies r[j].modified <= b by {
            if j == 0 {
                assert(r[j] == s[0]);
            } else {
                assert(r[j] == u[j - 1]);
            }
        }
    } else {
        assert forall|j: int| 0 <= j < r.len() implies r[j].modified <= b by {
            if j == 0 {
                assert(r[j] == e);
            } else {
                assert(r[j] == s[j - 1]);
            }
        }
    }
}

proof fn lemma_with_modified_single(x: EntryModel, v: u64)
    ensures
        with_modified(seq![x], v) =~= (if x.modified == v {
            seq![x]
        } else {
            Seq::<EntryModel>::empty()
        }),
{
    assert(seq![x].drop_first() =~= Seq::<EntryModel>::empty());
    assert(with_modified(seq![x].drop_first(), v) == with_modified(
        Seq::<EntryModel>::empty(),
        v,
    ));
    assert(seq![x][0] == x);
    if x.modified == v {
        assert(with_modified(seq![x], v) =~= seq![x]);
    }
}

pub proof fn lemma_insert_desc_sorted(s: Seq<EntryModel>, e: EntryModel)
    requires
        sorted_desc(s),
    ensures
        sorted_desc(insert_desc(s, e)),
    decreases s.len(),
{
    let r = insert_desc(s, e);
    lemma_insert_desc_len(s, e);
    if s.len() == 0 {
    } else if s[0].modified >= e.modified {
        let t = s.drop_first();
        assert(sorted_desc(t));
        lemma_insert_desc_sorted(t, e);
        lemma_insert_desc_len(t, e);
        assert(forall|i: int| 0 <= i < t.len() ==> t[i].modified <= s[0].modified);
        lemma_insert_desc_upper(t, e, s[0].modified);
        let u = insert_desc(t, e);
        assert forall|i: int, j: int| 0 <= i < j < r.len() implies r[i].modified
            >= r[j].modified by {
            if i == 0 {
                assert(r[j] == u[j - 1]);
            } else {
                assert(r[i] == u[i - 1] && r[j] == u[j - 1]);
            }
        }
    } else {
        assert forall|i: int, j: int| 0 <= i < j < r.len() implies r[i].modified
            >= r[j].modified by {
            if i == 0 {
                assert(r[j] == s[j - 1]);
                if j - 1 > 0 {
                    assert(s[0].modified >= s[j - 1].modified);
                }
            }
        }
    }
}

pub proof fn lemma_sort_sorted(s: Seq<EntryModel>)
    ensures
        sorted_desc(sort_by_modified_spec(s)),
    decreases s.len(),
{
    if s.len() > 0 {
        lemma_sort_sorted(s.drop_last());
        lemma_insert_desc_sorted(sort_by_modified_spec(s.drop_last()), s.last());
    }
}

proof fn lemma_with_modified_concat(a: Seq<EntryModel>, b: Seq<EntryModel>, v: u64)
    ensures
        with_modified(a + b, v) =~= with_modified(a, v) + with_modified(b, v),
    decreases a.len(),
{
    if a.len() == 0 {
        assert(a + b =~= b);
    } else {
        assert((a + b).drop_first() =~= a.drop_first() + b);
        lemma_with_modified_concat(a.drop_first(), b, v);
        assert((a + b)[0] == a[0]);
        if a[0].modified == v {
            assert(seq![a[0]] + (with_modified(a.drop_first(), v) + with_modified(b, v)) =~= (
            seq![a[0]] + with_modified(a.drop_first(), v)) + with_modified(b, v));
        }
    }
}

proof fn lemma_with_modified_all_ne(s: Seq<EntryModel>, v: u64)
    requires
        forall|i: int| 0 <= i < s.len() ==> s[i].modified != v,
    ensures
        with_modified(s, v) =~= Seq::<EntryModel>::empty(),
    decreases s.len(),
{
    if s.len() > 0 {
        assert(forall|i: int|
            0 <= i < s.drop_first().len() ==> s.drop_first()[i].modified != v);
        lemma_with_modified_all_ne(s.drop_first(), v);
    }
}

proof fn lemma_insert_desc_stable(s: Seq<EntryModel>, e: EntryModel, v: u64)
    requires
        sorted_desc(s),
    ensures
        with_modified(insert_desc(s, e), v) =~= with_modified(s, v) + (if e.modified == v {
            seq![e]
        } else {
            Seq::<EntryModel>::empty()
        }),
    decreases s.len(),
{
    let tail: Seq<EntryModel> = if e.modified == v {
        seq![e]
    } else {
        Seq::<EntryModel>::empty()
    };
    if s.len() == 0 {
        lemma_with_modified_single(e, v);
        assert(with_modified(seq![e], v) =~= tail);
    } else if s[0].modified >= e.modified {
        let t = s.drop_first();
        assert(sorted_desc(t));
        lemma_insert_desc_stable(t, e, v);
        let r = insert_desc(s, e);
        assert(r =~= seq![s[0]] + insert_desc(t, e));
        lemma_with_modified_concat(seq![s[0]], insert_desc(t, e), v);
        lemma_with_modified_concat(seq![s[0]], t, v);
        assert(with_modified(seq![s[0]], v) + (with_modified(t, v) + tail) =~= (with_modified(
            seq![s[0]],
            v,
        ) + with_modified(t, v)) + tail);
        assert(seq![s[0]] + t =~= s);
    } else {
        let r = insert_desc(s, e);
        assert(r =~= seq![e] + s);
        lemma_with_modified_concat(seq![e], s, v);
        lemma_with_modified_single(e, v);
        if e.modified == v {
            assert forall|i: int| 0 <= i < s.len() implies s[i].modified != v by {
                if i > 0 {
                    assert(s[0].modified >= s[i].modified);
                }
            }
            lemma_with_modified_all_ne(s, v);
            assert(with_modified(seq![e], v) =~= seq![e]);
            assert(with_modified(r, v) =~= seq![e]);
            assert(with_modified(s, v) + tail =~= seq![e]);
        } else {
            assert(with_modified(seq![e], v) =~= Seq::<EntryModel>::empty());
            assert(with_modified(r, v) =~= with_modified(s, v));
            assert(with_modified(s, v) + tail =~= with_modified(s, v));
        }
    }
}

proof fn lemma_with_modified_push(s: Seq<EntryModel>, x: EntryModel, v: u64)
    ensures
        with_modified(s.push(x), v) =~= with_modified(s, v) + (if x.modified == v {
            seq![x]
        } else {
            Seq::<EntryModel>::empty()
        }),
{
    assert(s.push(x) =~= s + seq![x]);
    lemma_with_modified_concat(s, seq![x], v);
    lemma_with_modified_single(x, v);
}

/// Stability: sorting never reorders entries that share a modification time;
/// for every time `v`, the entries carrying `v` come out in the order they
/// went in.
pub proof fn lemma_sort_stable(s: Seq<EntryModel>, v: u64)
    ensures
        with_modified(sort_by_modified_spec(s), v) =~= with_modified(s, v),
    decreases s.len(),
{
    if s.len() > 0 {
        let dl = s.drop_last();
        lemma_sort_stable(dl, v);
        lemma_sort_sorted(dl);
        lemma_insert_desc_stable(sort_by_modified_spec(dl), s.last(), v);
        lemma_with_modified_push(dl, s.last(), v);
        assert(dl.push(s.last()) =~= s);
    }
}

pub proof fn lemma_contains_concat(a: Seq<EntryModel>, b: Seq<EntryModel>, x: EntryModel)
    ensures
        (a + b).contains(x) == (a.contains(x) || b.contains(x)),
{
    if a.contains(x) {
        let i = choose|i: int| 0 <= i < a.len() && a[i] == x;
        assert((a + b)[i] == x);
    }
    if b.contains(x) {
        let i = choose|i: int| 0 <= i < b.len() && b[i] == x;
        assert((a + b)[a.len() + i] == x);
    }
    if (a + b).contains(x) {
        let i = choose|i: int| 0 <= i < (a + b).len() && (a + b)[i] == x;
        if i < a.len() {
            assert(a[i] == x);
        } else {
            assert(b[i - a.len()] == x);
        }
    }
}

proof fn lemma_insert_desc_contains(s: Seq<EntryModel>, e: EntryModel, x: EntryModel)
    ensures
        insert_desc(s, e).contains(x) == (x == e || s.contains(x)),
    decreases s.len(),
{
    if s.len() == 0 {
        assert(seq![e][0] == e);
        assert(insert_desc(s, e).contains(x) == (x == e));
    } else if s[0].modified >= e.modified {
        let t = s.drop_first();
        lemma_insert_desc_contains(t, e, x);
        lemma_contains_concat(seq![s[0]], insert_desc(t, e), x);
        lemma_contains_concat(seq![s[0]], t, x);
        assert(seq![s[0]] + t =~= s);
        assert(seq![s[0]].contains(x) == (x == s[0]));
    } else {
        lemma_contains_concat(seq![e], s, x);
        assert(seq![e][0] == e);
        assert(seq![e].contains(x) == (x == e));
    }
}

/// Sorting neither loses nor invents entries.
pub proof fn lemma_sort_contains(s: Seq<EntryModel>, x: EntryModel)
    ensures
        sort_by_modified_spec(s).contains(x) == s.contains(x),
    decreases s.len(),
{
    if s.len() > 0 {
        let dl = s.drop_last();
        lemma_sort_contains(dl, x);
        lemma_insert_desc_contains(sort_by_modified_spec(dl), s.last(), x);
        lemma_contains_concat(dl, seq![s.last()], x);
        assert(dl + seq![s.last()] =~= s);
        assert(seq![s.last()][0] == s.last());
        assert(seq![s.last()].contains(x) == (x == s.last()));
    }
}

/// No two entries share a path.
pub open spec fn unique_paths(s: Seq<EntryModel>) -> bool {
    forall|i: int, j: int| 0 <= i < j < s.len() ==> s[i].path != s[j].path
}

/// Some entry carries this path.
pub open spec fn has_path(s: Seq<EntryModel>, pth: Seq<char>) -> bool {
    exists|i: int| 0 <= i < s.len() && s[i].path == pth
}

proof fn lemma_has_path_concat(a: Seq<EntryModel>, b: Seq<EntryModel>, pth: Seq<char>)
    ensures
        has_path(a + b, pth) == (has_path(a, pth) || has_path(b, pth)),
{
    if has_path(a, pth) {
        let i = choose|i: int| 0 <= i < a.len() && a[i].path == pth;
        assert((a + b)[i].path == pth);
    }
    if has_path(b, pth) {
        let i = choose|i: int| 0 <= i < b.len() && b[i].path == pth;
        assert((a + b)[a.len() + i].path == pth);
    }
    if has_path(a + b, pth) {
        let i = choose|i: int| 0 <= i < (a + b).len() && (a + b)[i].path == pth;
        if i < a.len() {
            assert(a[i].path == pth);
        } else {
            assert(b[i - a.len()].path == pth);
        }
    }
}

proof fn lemma_insert_desc_has_path(s: Seq<EntryModel>, e: EntryModel, pth: Seq<char>)
    ensures
        has_path(insert_desc(s, e), pth) == (has_path(s, pth) || e.path == pth),
    decreases s.len(),
{
    if s.len() == 0 {
        assert(insert_desc(s, e)[0] == e);
        assert(has_path(insert_desc(s, e), pth) == (e.path == pth));
    } else if s[0].modified >= e.modified {
        let t = s.drop_first();
        lemma_insert_desc_has_path(t, e, pth);
        lemma_has_path_concat(seq![s[0]], insert_desc(t, e), pth);
        lemma_has_path_concat(seq![s[0]], t, pth);
        assert(seq![s[0]] + t =~= s);
        assert(seq![s[0]][0] == s[0]);
        assert(has_path(seq![s[0]], pth) == (s[0].path == pth));
    } else {
        lemma_has_path_concat(seq![e], s, pth);
        assert(seq![e][0] == e);
        assert(has_path(seq![e], pth) == (e.path == pth));
    }
}

proof fn lemma_insert_desc_unique(s: Seq<EntryModel>, e: EntryModel)
    requires
        unique_paths(s),
        !has_path(s, e.path),
    ensures
        unique_paths(insert_desc(s, e)),
    decreases s.len(),
{
    let r = insert_desc(s, e);
    lemma_insert_desc_len(s, e);
    if s.len() == 0 {
    } else if s[0].modified >= e.modified {
        let t = s.drop_first();
        assert(unique_paths(t));
        assert(!has_path(t, e.path)) by {
            if has_path(t, e.path) {
                let i = choose|i: int| 0 <= i < t.len() && t[i].path == e.path;
                assert(s[i + 1].path == e.path);
            }
        }
        lemma_insert_desc_unique(t, e);
        lemma_insert_desc_len(t, e);
        let u = insert_desc(t, e);
        assert(!has_path(u, s[0].path)) by {
            lemma_insert_desc_has_path(t, e, s[0].path);
            if has_path(t, s[0].path) {
                let i = choose|i: int| 0 <= i < t.len() && t[i].path == s[0].path;
                assert(s[i + 1].path == s[0].path);
            }
            if e.path == s[0].path {
                assert(s[0].path == e.path && has_path(s, e.path));
            }
        }
        assert forall|i: int, j: int| 0 <= i < j < r.len() implies r[i].path != r[j].path by {
            if i == 0 {
                assert(r[j] == u[j - 1]);
                if r[0].path == u[j - 1].path {
                    assert(has_path(u, s[0].path));
                }
            } else {
                assert(r[i] == u[i - 1] && r[j] == u[j - 1]);
            }
        }
    } else {
        assert forall|i: int, j: int| 0 <= i < j < r.len() implies r[i].path != r[j].path by {
            if i == 0 {
                assert(r[j] == s[j - 1]);
                if r[0].path == s[j - 1].path {
                    assert(has_path(s, e.path));
                }
            } else {
                assert(r[i] == s[i - 1] && r[j] == s[j - 1]);
            }
        }
    }
}

proof fn lemma_sort_has_path(s: Seq<EntryModel>, pth: Seq<char>)
    ensures
        has_path(sort_by_modified_spec(s), pth) == has_path(s, pth),
    decreases s.len(),
{
    if s.len() > 0 {
        let dl = s.drop_last();
        lemma_sort_has_path(dl, pth);
        lemma_insert_desc_has_path(sort_by_modified_spec(dl), s.last(), pth);
        lemma_has_path_concat(dl, seq![s.last()], pth);
        assert(dl + seq![s.last()] =~= s);
        assert(seq![s.last()][0] == s.last());
        assert(has_path(seq![s.last()], pth) == (s.last().path == pth));
    }
}

/// Sorting keeps paths pairwise distinct.
pub proof fn lemma_sort_unique_paths(s: Seq<EntryModel>)
    requires
        unique_paths(s),
    ensures
        unique_paths(sort_by_modified_spec(s)),
    decreases s.len(),
{
    if s.len() > 0 {
        let dl = s.drop_last();
        assert(unique_paths(dl));
        lemma_sort_unique_paths(dl);
        assert(!has_path(dl, s.last().path)) by {
            if has_path(dl, s.last().path) {
                let i = choose|i: int| 0 <= i < dl.len() && dl[i].path == s.last().path;
                assert(s[i].path == s[s.len() - 1].path);
            }
        }
        lemma_sort_has_path(dl, s.last().path);
        lemma_insert_desc_unique(sort_by_modified_spec(dl), s.last());
    }
}

/// Sorts a snapshot by `modified`, newest first, keeping ties in their
/// original order.
#[verifier::loop_isolation(false)]
pub fn sort_entries(entries: Vec<FileEntry>) -> (r: Vec<FileEntry>)
    ensures
        r.deep_view() == sort_by_modified_spec(entries.deep_view()),
{
    let ghost orig = entries.deep_view();
    let mut input = entries;
    let mut sorted: Vec<FileEntry> = Vec::new();
    let ghost mut t: int = 0;
    while input.len() > 0
        invariant
            0 <= t <= orig.len(),
            input.deep_view() =~= orig.skip(t),
            sorted.deep_view() =~= sort_by_modified_spec(orig.subrange(0, t)),
        decreases input.len(),
    {
        let ghost pre = input.deep_view();
        let ghost preseq = input@;
        let e = input.remove(0);
        proof {
            assert(pre[0] == preseq[0].deep_view());
            assert(e.deep_view() == orig[t]);
            assert forall|j: int| 0 <= j < input.deep_view().len() implies input.deep_view()[j]
                == orig.skip(t + 1)[j] by {
                assert(input.deep_view()[j] == input@[j].deep_view());
                assert(input@[j] == preseq[j + 1]);
                assert(pre[j + 1] == preseq[j + 1].deep_view());
            }
            assert(input.deep_view() =~= orig.skip(t + 1));
        }
        let ghost before = sorted.deep_view();
        let mut p: usize = 0;
        while p < sorted.len() && sorted[p].modified >= e.modified
            invariant
                0 <= p <= sorted.len(),
                sorted.deep_view() == before,
                forall|k: int| 0 <= k < p ==> before[k].modified >= e.deep_view().modified,
        decreases sorted.len() - p,
        {
            p += 1;
        }
        sorted.insert(p, e);
        proof {
            lemma_insert_desc_at(before, e.deep_view(), p as int);
            assert(sorted.deep_view() =~= before.subrange(0, p as int) + seq![e.deep_view()]
                + before.subrange(p as int, before.len() as int));
            assert(sorted.deep_view() =~= insert_desc(before, e.deep_view()));
            let pre = orig.subrange(0, t + 1);
            assert(pre.drop_last() =~= orig.subrange(0, t));
            assert(pre.last() == orig[t]);
            assert(sort_by_modified_spec(pre) == insert_desc(
                sort_by_modified_spec(orig.subrange(0, t)),
                orig[t],
            ));
            t = t + 1;
        }
    }
    proof {
        assert(orig.subrange(0, t) =~= orig);
    }
    sorted
}

} // verus!
