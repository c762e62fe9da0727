use vstd::prelude::*;
use crate::enums::{Filter, ItemFilter, OrderBy};
use crate::file_set::{
    distinct_in_order, file_name_of, grouped_by_kind, key_lt, placed_before, selected, selects,
    sort_keys, sorted_stably, text_lt, union_of, views_of_strings, lemma_selected_within, EntryInfo,
    EntryKind, FileSet, KeyView,
};

verus! {

broadcast use Seq::lemma_filter_push;

/// What metadata reads give for each of `paths`, where `read` is the state of the file system.
pub open spec fn read_all(paths: Seq<Seq<char>>, read: spec_fn(Seq<char>) -> Option<EntryInfo>) -> Seq<Option<EntryInfo>> {
    Seq::new(paths.len(), |i: int| read(paths[i]))
}

/// The key by which entries are ordered by name.
pub open spec fn name_key(path: Seq<char>) -> KeyView {
    (0, file_name_of(path))
}

/// Paths that come distinct, as a directory listing gives them, are kept
/// as they are, in their order.
pub proof fn lemma_distinct_paths_kept(paths: Seq<Seq<char>>)
    requires
        paths.no_duplicates(),
    ensures
        distinct_in_order(paths) == paths,
    decreases paths.len(),
{
    if paths.len() > 0 {
        let rest = paths.drop_last();
        lemma_distinct_paths_kept(rest);
        if rest.contains(paths.last()) {
            let j = choose|j: int| 0 <= j < rest.len() && rest[j] == paths.last();
            assert(paths[j] == paths[paths.len() - 1]);
        }
        assert(rest.push(paths.last()) =~= paths);
    }
}

/// Two copies of the paths of one set, as `to_vec` gives them, hold the same
/// paths in the same order.
pub proof fn lemma_copies_agree(set: FileSet, first: Seq<String>, second: Seq<String>)
    requires
        views_of_strings(first) == set@,
        views_of_strings(second) == set@,
    ensures
        views_of_strings(first) == views_of_strings(second),
        first.len() == second.len(),
{
    assert(first.len() == views_of_strings(first).len());
    assert(second.len() == views_of_strings(second).len());
}

/// Under one state of the file system, filtering selects exactly the paths
/// that the criterion accepts.
pub proof fn lemma_selected_as_filter(paths: Seq<Seq<char>>, read: spec_fn(Seq<char>) -> Option<EntryInfo>, filter: Filter)
    ensures
        selected(paths, read_all(paths, read), filter) == paths.filter(|p: Seq<char>| selects(filter, p, read(p))),
    decreases paths.len(),
{
    let keep = |p: Seq<char>| selects(filter, p, read(p));
    if paths.len() == 0 {
        assert(paths.filter(keep) =~= Seq::<Seq<char>>::empty()) by {
            reveal(Seq::filter);
        }
    } else {
        let rest = paths.drop_last();
        assert(read_all(paths, read).take(paths.len() - 1) =~= read_all(rest, read));
        lemma_selected_as_filter(rest, read, filter);
        assert(rest.push(paths.last()) =~= paths);
        assert(rest.push(paths.last()).filter(keep) == if keep(paths.last()) {
            rest.filter(keep).push(paths.last())
        } else {
            rest.filter(keep)
        });
    }
}

/// A second filter by one predicate changes nothing.
proof fn lemma_filter_twice(s: Seq<Seq<char>>, keep: spec_fn(Seq<char>) -> bool)
    ensures
        s.filter(keep).filter(keep) == s.filter(keep),
    decreases s.len(),
{
    if s.len() == 0 {
        assert(s.filter(keep) =~= Seq::<Seq<char>>::empty()) by {
            reveal(Seq::filter);
        }
        assert(s.filter(keep).filter(keep) =~= Seq::<Seq<char>>::empty()) by {
            reveal(Seq::filter);
        }
    } else {
        let rest = s.drop_last();
        lemma_filter_twice(rest, keep);
        assert(rest.push(s.last()) =~= s);
        assert(rest.push(s.last()).filter(keep) == if keep(s.last()) {
            rest.filter(keep).push(s.last())
        } else {
            rest.filter(keep)
        });
        if keep(s.last()) {
            assert(rest.filter(keep).push(s.last()).filter(keep) == rest.filter(keep).filter(keep).push(s.last()));
        }
    }
}

/// Filtering twice by one criterion, under one state of the file system,
/// gives what filtering once gives.
pub proof fn lemma_filter_idempotent(paths: Seq<Seq<char>>, read: spec_fn(Seq<char>) -> Option<EntryInfo>, filter: Filter)
    ensures
        ({
            let once = selected(paths, read_all(paths, read), filter);
            selected(once, read_all(once, read), filter) == once
        }),
{
    let once = selected(paths, read_all(paths, read), filter);
    lemma_selected_as_filter(paths, read, filter);
    lemma_selected_as_filter(once, read, filter);
    lemma_filter_twice(paths, |p: Seq<char>| selects(filter, p, read(p)));
}

/// What `filter` selects and what `exclude` keeps split the entries in two:
/// each entry is in exactly one of them.
pub proof fn lemma_filter_exclude_partition(paths: Seq<Seq<char>>, infos: Seq<Option<EntryInfo>>, filter: Filter)
    ensures
        ({
            let kept = selected(paths, infos, filter);
            let rest = paths.filter(|p: Seq<char>| !kept.contains(p));
            &&& forall|p: Seq<char>| paths.contains(p) <==> kept.contains(p) || rest.contains(p)
            &&& forall|p: Seq<char>| !(kept.contains(p) && rest.contains(p))
        }),
{
    let kept = selected(paths, infos, filter);
    let keep = |p: Seq<char>| !kept.contains(p);
    let rest = paths.filter(keep);
    lemma_selected_within(paths, infos, filter);
    assert forall|p: Seq<char>| paths.contains(p) <==> kept.contains(p) || rest.contains(p) by {
        if rest.contains(p) {
            paths.lemma_filter_contains_rev(keep, p);
        }
        if paths.contains(p) && !kept.contains(p) {
            let j = choose|j: int| 0 <= j < paths.len() && paths[j] == p;
            paths.lemma_filter_contains(keep, j);
        }
    }
    assert forall|p: Seq<char>| !(kept.contains(p) && rest.contains(p)) by {
        if rest.contains(p) {
            let j = choose|j: int| 0 <= j < rest.len() && rest[j] == p;
            paths.lemma_filter_pred(keep, j);
        }
    }
}

/// Reversing twice gives back the original order.
pub proof fn lemma_reverse_involution(paths: Seq<Seq<char>>)
    ensures
        paths.reverse().reverse() == paths,
{
    assert(paths.reverse().reverse() =~= paths);
}

proof fn lemma_text_lt_asymmetric(a: Seq<char>, b: Seq<char>)
    ensures
        !(text_lt(a, b) && text_lt(b, a)),
        !text_lt(a, a),
    decreases a.len(),
{
    if a.len() > 0 && b.len() > 0 && a[0] == b[0] {
        lemma_text_lt_asymmetric(a.drop_first(), b.drop_first());
    }
    if a.len() > 0 {
        lemma_text_lt_asymmetric(a.drop_first(), a.drop_first());
    }
}

proof fn lemma_key_lt_asymmetric(a: KeyView, b: KeyView)
    ensures
        !(key_lt(a, b) && key_lt(b, a)),
        !key_lt(a, a),
{
    if let (Some(x), Some(y)) = (a.1, b.1) {
        lemma_text_lt_asymmetric(x, y);
    }
    if let Some(x) = a.1 {
        lemma_text_lt_asymmetric(x, x);
    }
}

/// A result of ordering by name has its name keys in non-decreasing order.
pub proof fn lemma_order_by_name_nondecreasing(paths: Seq<Seq<char>>, infos: Seq<Option<EntryInfo>>, sorted: Seq<Seq<char>>)
    requires
        paths.no_duplicates(),
        sorted_stably(paths, sort_keys(OrderBy::Name, paths, infos), sorted),
    ensures
        forall|i: int, j: int| 0 <= i < j < sorted.len() ==> !key_lt(name_key(#[trigger] sorted[j]), name_key(#[trigger] sorted[i])),
{
    let keys = sort_keys(OrderBy::Name, paths, infos);
    assert forall|i: int, j: int| 0 <= i < j < sorted.len() implies !key_lt(name_key(#[trigger] sorted[j]), name_key(#[trigger] sorted[i])) by {
        let x = sorted[i];
        let y = sorted[j];
        assert(sorted.contains(x));
        assert(sorted.contains(y));
        assert(placed_before(paths, keys, x, y));
        assert(paths[paths.index_of(x)] == x);
        assert(paths[paths.index_of(y)] == y);
        lemma_key_lt_asymmetric(name_key(x), name_key(y));
    }
}

/// A strictly increasing map of `0..n` into `0..n` leaves each position in place.
proof fn lemma_increasing_at_least(f: Seq<int>, i: int)
    requires
        0 <= i < f.len(),
        forall|a: int| 0 <= a < f.len() ==> 0 <= #[trigger] f[a],
        forall|a: int, b: int| 0 <= a < b < f.len() ==> #[trigger] f[a] < #[trigger] f[b],
    ensures
        f[i] >= i,
    decreases i,
{
    if i > 0 {
        lemma_increasing_at_least(f, i - 1);
    }
}

proof fn lemma_increasing_at_most(f: Seq<int>, i: int)
    requires
        0 <= i < f.len(),
        forall|a: int| 0 <= a < f.len() ==> #[trigger] f[a] < f.len(),
        forall|a: int, b: int| 0 <= a < b < f.len() ==> #[trigger] f[a] < #[trigger] f[b],
    ensures
        f[i] <= i,
    decreases f.len() - i,
{
    if i < f.len() - 1 {
        lemma_increasing_at_most(f, i + 1);
    }
}

/// Ordering by name a second time changes nothing.
pub proof fn lemma_order_by_name_idempotent(
    paths: Seq<Seq<char>>,
    infos: Seq<Option<EntryInfo>>,
    sorted: Seq<Seq<char>>,
    infos_again: Seq<Option<EntryInfo>>,
    again: Seq<Seq<char>>,
)
    requires
        paths.no_duplicates(),
        sorted_stably(paths, sort_keys(OrderBy::Name, paths, infos), sorted),
        sorted_stably(sorted, sort_keys(OrderBy::Name, sorted, infos_again), again),
    ensures
        again == sorted,
{
    lemma_order_by_name_nondecreasing(paths, infos, sorted);
    let keys = sort_keys(OrderBy::Name, sorted, infos_again);
    let n = sorted.len();
    let f = Seq::new(n, |i: int| sorted.index_of(again[i]));
    assert forall|a: int| 0 <= a < n implies 0 <= #[trigger] f[a] < n && sorted[f[a]] == again[a] by {
        assert(again.contains(again[a]));
        assert(sorted.contains(again[a]));
    }
    assert forall|a: int, b: int| 0 <= a < b < n implies #[trigger] f[a] < #[trigger] f[b] by {
        let x = again[a];
        let y = again[b];
        assert(placed_before(sorted, keys, x, y));
        assert(x != y);
        assert(f[a] != f[b]);
        assert(keys[f[a]] == name_key(x));
        assert(keys[f[b]] == name_key(y));
        lemma_key_lt_asymmetric(name_key(x), name_key(y));
        if f[b] < f[a] {
            assert(!key_lt(name_key(sorted[f[a]]), name_key(sorted[f[b]])));
        }
    }
    assert forall|a: int| 0 <= a < n implies again[a] == sorted[a] by {
        lemma_increasing_at_least(f, a);
        lemma_increasing_at_most(f, a);
    }
    assert(again =~= sorted);
}

/// Ordering by name and then reversing gives the entries from the last to
/// the first, with name keys in non-increasing order.
pub proof fn lemma_order_by_name_reversed(paths: Seq<Seq<char>>, infos: Seq<Option<EntryInfo>>, sorted: Seq<Seq<char>>)
    requires
        paths.no_duplicates(),
        sorted_stably(paths, sort_keys(OrderBy::Name, paths, infos), sorted),
    ensures
        forall|i: int| 0 <= i < sorted.len() ==> #[trigger] sorted.reverse()[i] == sorted[sorted.len() - 1 - i],
        forall|i: int, j: int| 0 <= i < j < sorted.len()
            ==> !key_lt(name_key(#[trigger] sorted.reverse()[i]), name_key(#[trigger] sorted.reverse()[j])),
{
    lemma_order_by_name_nondecreasing(paths, infos, sorted);
    let n = sorted.len();
    assert forall|i: int, j: int| 0 <= i < j < n
        implies !key_lt(name_key(#[trigger] sorted.reverse()[i]), name_key(#[trigger] sorted.reverse()[j])) by {
        assert(sorted.reverse()[i] == sorted[n - 1 - i]);
        assert(sorted.reverse()[j] == sorted[n - 1 - j]);
        assert(!key_lt(name_key(sorted[n - 1 - i]), name_key(sorted[n - 1 - j])));
    }
}

/// Directories rank 0, files 1, symbolic links 2; anything else, or an entry
/// whose metadata could not be read, 3.
pub open spec fn kind_rank(info: Option<EntryInfo>) -> int {
    match info {
        Some(i) => match i.kind {
            EntryKind::Directory => 0,
            EntryKind::File => 1,
            EntryKind::Symlink => 2,
            EntryKind::Other => 3,
        },
        None => 3,
    }
}

/// Every element of `s.filter(keep)` beyond a prefix `pre` satisfies `keep`.
proof fn lemma_filtered_tail(pre: Seq<Seq<char>>, s: Seq<Seq<char>>, keep: spec_fn(Seq<char>) -> bool, outer: spec_fn(Seq<char>) -> bool, i: int)
    requires
        pre.len() <= i < pre.len() + s.filter(outer).len(),
        forall|p: Seq<char>| s.contains(p) ==> keep(p),
    ensures
        keep((pre + s.filter(outer))[i]),
{
    let x = (pre + s.filter(outer))[i];
    assert(s.filter(outer)[i - pre.len()] == x);
    assert(s.filter(outer).contains(x));
    s.lemma_filter_contains_rev(outer, x);
}

/// Under one state of the file system, ordering by kind puts every
/// directory before every file, and every file before every symbolic link;
/// it keeps entries of these kinds alone.
pub proof fn lemma_order_by_item_groups(paths: Seq<Seq<char>>, read: spec_fn(Seq<char>) -> Option<EntryInfo>)
    ensures
        ({
            let grouped = grouped_by_kind(paths, read_all(paths, read));
            &&& forall|i: int| 0 <= i < grouped.len() ==> kind_rank(read(#[trigger] grouped[i])) < 3
            &&& forall|i: int, j: int| 0 <= i < j < grouped.len()
                ==> kind_rank(read(#[trigger] grouped[i])) <= kind_rank(read(#[trigger] grouped[j]))
        }),
{
    let infos = read_all(paths, read);
    let dir = Filter::Item(ItemFilter::Directory);
    let file = Filter::Item(ItemFilter::File);
    let link = Filter::Item(ItemFilter::Symlink);
    let d = selected(paths, infos, dir);
    let f = selected(paths, infos, file);
    let l = selected(paths, infos, link);
    lemma_selected_as_filter(paths, read, dir);
    lemma_selected_as_filter(paths, read, file);
    lemma_selected_as_filter(paths, read, link);
    let u = union_of(d, f);
    let g = grouped_by_kind(paths, infos);
    assert(g == union_of(u, l));
    let is_rank = |r: int| (|p: Seq<char>| kind_rank(read(p)) == r);
    assert forall|p: Seq<char>| d.contains(p) implies kind_rank(read(p)) == 0 by {
        paths.lemma_filter_contains_rev(|q: Seq<char>| selects(dir, q, read(q)), p);
        let j = choose|j: int| 0 <= j < d.len() && d[j] == p;
        paths.lemma_filter_pred(|q: Seq<char>| selects(dir, q, read(q)), j);
    }
    assert forall|p: Seq<char>| f.contains(p) implies kind_rank(read(p)) == 1 by {
        let j = choose|j: int| 0 <= j < f.len() && f[j] == p;
        paths.lemma_filter_pred(|q: Seq<char>| selects(file, q, read(q)), j);
    }
    assert forall|p: Seq<char>| l.contains(p) implies kind_rank(read(p)) == 2 by {
        let j = choose|j: int| 0 <= j < l.len() && l[j] == p;
        paths.lemma_filter_pred(|q: Seq<char>| selects(link, q, read(q)), j);
    }
    let rank_at = |i: int| if i < d.len() { 0int } else if i < u.len() { 1int } else { 2int };
    assert forall|i: int| 0 <= i < g.len() implies kind_rank(read(#[trigger] g[i])) == rank_at(i) by {
        if i < d.len() {
            assert(g[i] == d[i]);
            assert(d.contains(d[i]));
        } else if i < u.len() {
            assert(g[i] == u[i]);
            lemma_filtered_tail(d, f, is_rank(1), |p: Seq<char>| !d.contains(p), i);
        } else {
            lemma_filtered_tail(u, l, is_rank(2), |p: Seq<char>| !u.contains(p), i);
        }
    }
}

} // verus!
