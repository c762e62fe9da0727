use vstd::prelude::*;
use vstd::seq_lib::lemma_no_dup_in_concat;
use indexmap::IndexSet;
use crate::enums::{Filter, ItemFilter, OrderBy, TextFilterBy, VisibilityFilter};

verus! {

#[verifier::external_type_specification]
#[verifier::external_body]
#[verifier::reject_recursive_types(T)]
#[verifier::reject_recursive_types(S)]
pub struct ExIndexSet<T, S>(IndexSet<T, S>);

/// The paths that an `IndexSet` holds, in its order.
pub uninterp spec fn paths_of(set: IndexSet<String>) -> Seq<Seq<char>>;

/// The last component of a path, as `Path::file_name` gives it.
pub uninterp spec fn file_name_of(path: Seq<char>) -> Option<Seq<char>>;

/// The extension of a path, as `Path::extension` gives it.
pub uninterp spec fn extension_of(path: Seq<char>) -> Option<Seq<char>>;

pub open spec fn opt_view(o: Option<String>) -> Option<Seq<char>> {
    match o {
        Some(s) => Some(s@),
        None => None,
    }
}

/// Relies on `IndexSet::new`: a set with no items.
#[verifier::external_body]
fn empty_set() -> (r: IndexSet<String>)
    ensures
        paths_of(r) == Seq::<Seq<char>>::empty(),
{
    IndexSet::new()
}

/// Relies on `IndexSet::insert`: a value not yet present goes at the end;
/// otherwise the set stays as it was.
#[verifier::external_body]
fn insert_path(set: &mut IndexSet<String>, path: String) -> (r: bool)
    ensures
        paths_of(*old(set)).contains(path@) ==> !r && paths_of(*final(set)) == paths_of(*old(set)),
        !paths_of(*old(set)).contains(path@) ==> r && paths_of(*final(set)) == paths_of(*old(set)).push(path@),
{
    set.insert(path)
}

/// Relies on `IndexSet::len`.
#[verifier::external_body]
fn set_len(set: &IndexSet<String>) -> (r: usize)
    ensures
        r == paths_of(*set).len(),
{
    set.len()
}

/// Relies on `IndexSet::get_index`: the value at a position, if the position is in range.
#[verifier::external_body]
fn path_at(set: &IndexSet<String>, index: usize) -> (r: Option<&String>)
    ensures
        r.is_some() == (index < paths_of(*set).len()),
        r.is_some() ==> r.unwrap()@ == paths_of(*set)[index as int],
{
    set.get_index(index)
}

/// Relies on `Path::file_name`, read lossily as text.
#[verifier::external_body]
fn file_name(path: &String) -> (r: Option<String>)
    ensures
        opt_view(r) == file_name_of(path@),
{
    match std::path::Path::new(path.as_str()).file_name() {
        Some(name) => Some(name.to_string_lossy().into_owned()),
        None => None,
    }
}

/// Relies on `Path::extension`, read lossily as text.
#[verifier::external_body]
fn extension(path: &String) -> (r: Option<String>)
    ensures
        opt_view(r) == extension_of(path@),
{
    match std::path::Path::new(path.as_str()).extension() {
        Some(ext) => Some(ext.to_string_lossy().into_owned()),
        None => None,
    }
}

/// Relies on `str::starts_with` with a string pattern.
#[verifier::external_body]
fn starts_with(text: &str, prefix: &str) -> (r: bool)
    ensures
        r == prefix@.is_prefix_of(text@),
{
    text.starts_with(prefix)
}

/// Relies on `IndexSet::clone`.
#[verifier::external_body]
fn clone_set(set: &IndexSet<String>) -> (r: IndexSet<String>)
    ensures
        paths_of(r) == paths_of(*set),
{
    set.clone()
}

/// Relies on `IndexSet::difference`, collected into a new set: the values of
/// `set` that are not in `other`, in the order of `set`.
#[verifier::external_body]
fn set_difference(set: &IndexSet<String>, other: &IndexSet<String>) -> (r: IndexSet<String>)
    ensures
        paths_of(r) == paths_of(*set).filter(|p: Seq<char>| !paths_of(*other).contains(p)),
{
    set.difference(other).cloned().collect()
}

/// Relies on `IndexSet::union`, collected into a new set: the values of `set`
/// in their order, then those of `other` that are not in `set`, in theirs.
#[verifier::external_body]
fn set_union(set: &IndexSet<String>, other: &IndexSet<String>) -> (r: IndexSet<String>)
    ensures
        paths_of(r) == union_of(paths_of(*set), paths_of(*other)),
{
    set.union(other).cloned().collect()
}

/// Relies on `IndexSet::sort_by_key`, a stable sort. The key of each value is
/// the one that `key_for` finds for it among `paths` and `keys`. A key
/// `(u64, Option<String>)` is ordered by its number, then by its text, `None`
/// first; `String`s compare byte by byte, which for UTF-8 is the order of
/// their characters' code points.
#[verifier::external_body]
fn sort_by_keys(set: &mut IndexSet<String>, paths: &Vec<String>, keys: &Vec<(u64, Option<String>)>)
    requires
        views_of_strings(paths@) == paths_of(*old(set)),
        keys@.len() == paths@.len(),
        paths_of(*old(set)).no_duplicates(),
    ensures
        sorted_stably(paths_of(*old(set)), key_views(keys@), paths_of(*final(set))),
{
    set.sort_by_key(|path| key_for(paths, keys, path))
}

/// The values of `a` in order, then those of `b` that are not in `a`.
pub open spec fn union_of(a: Seq<Seq<char>>, b: Seq<Seq<char>>) -> Seq<Seq<char>> {
    a + b.filter(|p: Seq<char>| !a.contains(p))
}

/// A sort key: a number, then an optional text.
pub type KeyView = (u64, Option<Seq<char>>);

pub open spec fn key_view(k: (u64, Option<String>)) -> KeyView {
    (k.0, opt_view(k.1))
}

pub open spec fn key_views(keys: Seq<(u64, Option<String>)>) -> Seq<KeyView> {
    keys.map_values(|k: (u64, Option<String>)| key_view(k))
}

/// Lexicographic order of texts by code point; a proper prefix comes first.
pub open spec fn text_lt(a: Seq<char>, b: Seq<char>) -> bool
    decreases a.len(),
{
    if a.len() == 0 {
        b.len() > 0
    } else if b.len() == 0 {
        false
    } else if a[0] != b[0] {
        (a[0] as u32) < (b[0] as u32)
    } else {
        text_lt(a.drop_first(), b.drop_first())
    }
}

pub open spec fn key_lt(a: KeyView, b: KeyView) -> bool {
    ||| a.0 < b.0
    ||| a.0 == b.0 && match (a.1, b.1) {
        (None, Some(_)) => true,
        (Some(x), Some(y)) => text_lt(x, y),
        _ => false,
    }
}

/// Whether a stable sort of `before` by `keys` puts `x` ahead of `y`.
pub open spec fn placed_before(before: Seq<Seq<char>>, keys: Seq<KeyView>, x: Seq<char>, y: Seq<char>) -> bool {
    let i = before.index_of(x);
    let j = before.index_of(y);
    key_lt(keys[i], keys[j]) || (keys[i] == keys[j] && i < j)
}

/// `after` is `before` sorted stably by `keys`, where `keys[i]` is the key of `before[i]`.
pub open spec fn sorted_stably(before: Seq<Seq<char>>, keys: Seq<KeyView>, after: Seq<Seq<char>>) -> bool {
    &&& after.len() == before.len()
    &&& after.no_duplicates()
    &&& forall|p: Seq<char>| after.contains(p) <==> before.contains(p)
    &&& forall|i: int, j: int| 0 <= i < j < after.len() ==> placed_before(before, keys, #[trigger] after[i], #[trigger] after[j])
}

/// The key of the first of `paths` equal to `path`.
fn key_for(paths: &Vec<String>, keys: &Vec<(u64, Option<String>)>, path: &String) -> (r: (u64, Option<String>))
    ensures
        forall|i: int|
            0 <= i < paths@.len() && i < keys@.len() && paths@[i]@ == path@ && (forall|k: int| 0 <= k < i ==> paths@[k]@ != path@)
                ==> key_view(r) == key_view(#[trigger] keys@[i]),
{
    let mut i: usize = 0;
    while i < paths.len() && i < keys.len()
        invariant
            i <= paths@.len(),
            forall|k: int| 0 <= k < i ==> paths@[k]@ != path@,
        decreases paths@.len() - i,
    {
        if paths[i] == *path {
            let text = match &keys[i].1 {
                Some(t) => Some(t.clone()),
                None => None,
            };
            return (keys[i].0, text);
        }
        i += 1;
    }
    (0, None)
}

/// The kind of a directory entry, read without following a symbolic link.
#[derive(Clone, Copy, Debug, PartialEq, Eq, Structural)]
pub enum EntryKind {
    Directory,
    File,
    Symlink,
    Other,
}

/// What a link-aware metadata read tells of an entry.
#[derive(Clone, Copy, Debug, PartialEq, Eq, Structural)]
pub struct EntryInfo {
    pub kind: EntryKind,
    pub size: u64,
}

pub open spec fn kind_selected(item: ItemFilter, kind: EntryKind) -> bool {
    match item {
        ItemFilter::Directory => kind == EntryKind::Directory,
        ItemFilter::File => kind == EntryKind::File,
        ItemFilter::Symlink => kind == EntryKind::Symlink,
    }
}

pub open spec fn is_hidden_name(name: Seq<char>) -> bool {
    name.len() > 0 && name[0] == '.'
}

/// The part of a path that a text criterion reads.
pub open spec fn text_part(by: TextFilterBy, path: Seq<char>) -> Option<Seq<char>> {
    match by {
        TextFilterBy::Extension => extension_of(path),
        TextFilterBy::Name => file_name_of(path),
    }
}

/// Whether `filter` selects the entry at `path`, whose metadata read gave `info`
/// (`None` where it could not be read).
pub open spec fn selects(filter: Filter, path: Seq<char>, info: Option<EntryInfo>) -> bool {
    match filter {
        Filter::Item(item) => match info {
            Some(i) => kind_selected(item, i.kind),
            None => false,
        },
        Filter::Text(by, text) => match text_part(by, path) {
            Some(part) => text@.is_prefix_of(part),
            None => false,
        },
        Filter::Visibility(visibility) => match file_name_of(path) {
            Some(name) => is_hidden_name(name) == (visibility == VisibilityFilter::Hidden),
            None => false,
        },
    }
}

/// The paths that `filter` selects, in order; `infos[i]` is what was read of `paths[i]`.
pub open spec fn selected(paths: Seq<Seq<char>>, infos: Seq<Option<EntryInfo>>, filter: Filter) -> Seq<Seq<char>>
    decreases paths.len(),
{
    if paths.len() == 0 {
        Seq::empty()
    } else {
        let last = paths.len() - 1;
        let rest = selected(paths.drop_last(), infos.take(last), filter);
        if selects(filter, paths[last], infos[last]) {
            rest.push(paths[last])
        } else {
            rest
        }
    }
}

/// The first occurrence of each path, in order.
pub open spec fn distinct_in_order(paths: Seq<Seq<char>>) -> Seq<Seq<char>>
    decreases paths.len(),
{
    if paths.len() == 0 {
        Seq::empty()
    } else {
        let rest = distinct_in_order(paths.drop_last());
        if rest.contains(paths.last()) {
            rest
        } else {
            rest.push(paths.last())
        }
    }
}

pub open spec fn views_of_strings(v: Seq<String>) -> Seq<Seq<char>> {
    v.map_values(|s: String| s@)
}

/// Every path that `selected` keeps comes from `paths`.
pub proof fn lemma_selected_within(paths: Seq<Seq<char>>, infos: Seq<Option<EntryInfo>>, filter: Filter)
    ensures
        forall|p: Seq<char>| selected(paths, infos, filter).contains(p) ==> paths.contains(p),
    decreases paths.len(),
{
    if paths.len() > 0 {
        let last = paths.len() - 1;
        lemma_selected_within(paths.drop_last(), infos.take(last), filter);
        assert forall|p: Seq<char>| selected(paths, infos, filter).contains(p) implies paths.contains(p) by {
            let rest = selected(paths.drop_last(), infos.take(last), filter);
            if rest.contains(p) {
                assert(paths.drop_last().contains(p));
                let j = choose|j: int| 0 <= j < paths.drop_last().len() && paths.drop_last()[j] == p;
                assert(paths[j] == p);
            } else {
                let k = choose|k: int| 0 <= k < selected(paths, infos, filter).len() && selected(paths, infos, filter)[k] == p;
                assert(k == rest.len());
                assert(paths[last] == p);
            }
        }
    }
}

/// Filtering keeps a sequence free of duplicates.
proof fn lemma_filter_keeps_distinct(s: Seq<Seq<char>>, keep: spec_fn(Seq<char>) -> bool)
    requires
        s.no_duplicates(),
    ensures
        s.filter(keep).no_duplicates(),
        forall|p: Seq<char>| s.filter(keep).contains(p) <==> s.contains(p) && keep(p),
    decreases s.len(),
{
    broadcast use Seq::lemma_filter_push;
    if s.len() > 0 {
        let rest = s.drop_last();
        assert(rest.push(s.last()) =~= s);
        assert(rest.no_duplicates());
        lemma_filter_keeps_distinct(rest, keep);
        assert forall|p: Seq<char>| s.contains(p) <==> rest.contains(p) || p == s.last() by {
            if s.contains(p) && p != s.last() {
                let j = choose|j: int| 0 <= j < s.len() && s[j] == p;
                assert(rest[j] == p);
            }
            if rest.contains(p) {
                let j = choose|j: int| 0 <= j < rest.len() && rest[j] == p;
                assert(s[j] == p);
            }
            if p == s.last() {
                assert(s[s.len() - 1] == p);
            }
        }
        assert(!rest.contains(s.last()));
        assert forall|p: Seq<char>| #[trigger] s.filter(keep).contains(p) <==> s.contains(p) && keep(p) by {
            if keep(s.last()) {
                assert(s.filter(keep) == rest.filter(keep).push(s.last()));
                if s.filter(keep).contains(p) && p != s.last() {
                    let j = choose|j: int| 0 <= j < s.filter(keep).len() && s.filter(keep)[j] == p;
                    assert(rest.filter(keep)[j] == p);
                }
                if rest.filter(keep).contains(p) {
                    let j = choose|j: int| 0 <= j < rest.filter(keep).len() && rest.filter(keep)[j] == p;
                    assert(s.filter(keep)[j] == p);
                }
                if p == s.last() {
                    assert(s.filter(keep)[rest.filter(keep).len() as int] == p);
                }
            }
        }
    }
}

/// A union of two sequences free of duplicates is free of them, and holds what either holds.
proof fn lemma_union_distinct(a: Seq<Seq<char>>, b: Seq<Seq<char>>)
    requires
        a.no_duplicates(),
        b.no_duplicates(),
    ensures
        union_of(a, b).no_duplicates(),
        forall|p: Seq<char>| union_of(a, b).contains(p) <==> a.contains(p) || b.contains(p),
{
    let keep = |p: Seq<char>| !a.contains(p);
    let rest = b.filter(keep);
    lemma_filter_keeps_distinct(b, keep);
    assert forall|i: int, j: int| 0 <= i < a.len() && 0 <= j < rest.len() implies a[i] != rest[j] by {
        assert(rest.contains(rest[j]));
    }
    lemma_no_dup_in_concat(a, rest);
    assert forall|p: Seq<char>| union_of(a, b).contains(p) <==> a.contains(p) || b.contains(p) by {
        let u = union_of(a, b);
        if u.contains(p) {
            let j = choose|j: int| 0 <= j < u.len() && u[j] == p;
            if j >= a.len() {
                assert(rest[j - a.len()] == p);
                assert(rest.contains(p));
            } else {
                assert(a[j] == p);
            }
        }
        if a.contains(p) {
            let j = choose|j: int| 0 <= j < a.len() && a[j] == p;
            assert(u[j] == p);
        } else if b.contains(p) {
            assert(rest.contains(p));
            let j = choose|j: int| 0 <= j < rest.len() && rest[j] == p;
            assert(u[a.len() + j] == p);
        }
    }
}

/// Directories, then files, then symbolic links, each group in its order;
/// entries of no such kind, or whose metadata could not be read, are left out.
pub open spec fn grouped_by_kind(paths: Seq<Seq<char>>, infos: Seq<Option<EntryInfo>>) -> Seq<Seq<char>> {
    union_of(
        union_of(
            selected(paths, infos, Filter::Item(ItemFilter::Directory)),
            selected(paths, infos, Filter::Item(ItemFilter::File)),
        ),
        selected(paths, infos, Filter::Item(ItemFilter::Symlink)),
    )
}

/// The size that orders an entry: its length, or 0 where its metadata could not be read.
pub open spec fn size_of(info: Option<EntryInfo>) -> u64 {
    match info {
        Some(i) => i.size,
        None => 0,
    }
}

/// The key by which `order_by` sorts an entry.
pub open spec fn sort_key(order_by: OrderBy, path: Seq<char>, info: Option<EntryInfo>) -> KeyView {
    match order_by {
        OrderBy::Extension => (0, extension_of(path)),
        OrderBy::Name => (0, file_name_of(path)),
        _ => (size_of(info), None),
    }
}

pub open spec fn sort_keys(order_by: OrderBy, paths: Seq<Seq<char>>, infos: Seq<Option<EntryInfo>>) -> Seq<KeyView> {
    Seq::new(paths.len(), |i: int| sort_key(order_by, paths[i], infos[i]))
}

fn sort_key_of(order_by: OrderBy, path: &String, info: Option<EntryInfo>) -> (r: (u64, Option<String>))
    ensures
        key_view(r) == sort_key(order_by, path@, info),
{
    match order_by {
        OrderBy::Extension => (0, extension(path)),
        OrderBy::Name => (0, file_name(path)),
        _ => {
            let size = match info {
                Some(i) => i.size,
                None => 0,
            };
            (size, None)
        },
    }
}

/// The entries of one directory: distinct paths in a chosen order.
pub struct FileSet {
    index_set: IndexSet<String>,
}

impl View for FileSet {
    type V = Seq<Seq<char>>;

    closed spec fn view(&self) -> Seq<Seq<char>> {
        paths_of(self.index_set)
    }
}

fn selects_entry(filter: Filter, path: &String, info: Option<EntryInfo>) -> (r: bool)
    ensures
        r == selects(filter, path@, info),
{
    match filter {
        Filter::Item(item) => match info {
            Some(i) => match item {
                ItemFilter::Directory => i.kind == EntryKind::Directory,
                ItemFilter::File => i.kind == EntryKind::File,
                ItemFilter::Symlink => i.kind == EntryKind::Symlink,
            },
            None => false,
        },
        Filter::Text(by, text) => {
            let part = match by {
                TextFilterBy::Extension => extension(path),
                TextFilterBy::Name => file_name(path),
            };
            match part {
                Some(part) => starts_with(part.as_str(), text),
                None => false,
            }
        },
        Filter::Visibility(visibility) => match file_name(path) {
            Some(name) => {
                let hidden = starts_with(name.as_str(), ".");
                proof {
                    reveal_strlit(".");
                    if hidden {
                        assert(name@.subrange(0, 1)[0] == name@[0]);
                    } else if is_hidden_name(name@) {
                        assert("."@ =~= name@.subrange(0, 1));
                    }
                }
                hidden == (visibility == VisibilityFilter::Hidden)
            },
            None => false,
        },
    }
}

impl FileSet {
    /// No path occurs twice.
    #[verifier::type_invariant]
    spec fn inv(&self) -> bool {
        paths_of(self.index_set).no_duplicates()
    }

    /// No path occurs twice: what every `FileSet` keeps.
    pub open spec fn wf(&self) -> bool {
        self@.no_duplicates()
    }

    /// The set of the given paths, each kept at its first occurrence.
    pub fn from_paths(paths: Vec<String>) -> (r: FileSet)
        ensures
            r.wf(),
            r@ == distinct_in_order(views_of_strings(paths@)),
    {
        let mut index_set = empty_set();
        let mut i: usize = 0;
        while i < paths.len()
            invariant
                i <= paths@.len(),
                paths_of(index_set) == distinct_in_order(views_of_strings(paths@).take(i as int)),
                paths_of(index_set).no_duplicates(),
            decreases paths@.len() - i,
        {
            let ghost before = paths_of(index_set);
            proof {
                assert(views_of_strings(paths@).take(i + 1).drop_last() =~= views_of_strings(paths@).take(i as int));
            }
            insert_path(&mut index_set, paths[i].clone());
            i += 1;
        }
        proof {
            assert(views_of_strings(paths@).take(paths@.len() as int) =~= views_of_strings(paths@));
        }
        FileSet { index_set }
    }

    /// A copy of the paths, in order.
    pub fn to_vec(&self) -> (r: Vec<String>)
        ensures
            views_of_strings(r@) == self@,
    {
        let n = set_len(&self.index_set);
        let mut r: Vec<String> = Vec::new();
        let mut i: usize = 0;
        while i < n
            invariant
                n == self@.len(),
                i <= n,
                views_of_strings(r@) =~= self@.take(i as int),
            decreases n - i,
        {
            let path = path_at(&self.index_set, i).unwrap();
            let ghost before = r@;
            r.push(path.clone());
            proof {
                assert(views_of_strings(r@) =~= views_of_strings(before).push(path@));
                assert(self@.take(i + 1) =~= self@.take(i as int).push(self@[i as int]));
            }
            i += 1;
        }
        r
    }

    pub fn len(&self) -> (r: usize)
        ensures
            r == self@.len(),
    {
        set_len(&self.index_set)
    }

    pub fn is_empty(&self) -> (r: bool)
        ensures
            r == (self@.len() == 0),
    {
        set_len(&self.index_set) == 0
    }

    /// The entries that `filter` selects, in their order; `infos[i]` is what a
    /// metadata read of the `i`-th entry gave.
    pub fn filter(&self, filter: Filter, infos: &Vec<Option<EntryInfo>>) -> (r: FileSet)
        requires
            infos@.len() == self@.len(),
        ensures
            r.wf(),
            r@ == selected(self@, infos@, filter),
    {
        proof {
            use_type_invariant(self);
        }
        let n = set_len(&self.index_set);
        let mut index_set = empty_set();
        let mut i: usize = 0;
        while i < n
            invariant
                self.wf(),
                n == self@.len(),
                infos@.len() == n,
                i <= n,
                paths_of(index_set) == selected(self@.take(i as int), infos@.take(i as int), filter),
                paths_of(index_set).no_duplicates(),
            decreases n - i,
        {
            let path = path_at(&self.index_set, i).unwrap();
            proof {
                assert(self@.take(i + 1).drop_last() =~= self@.take(i as int));
                assert(infos@.take(i + 1).take(i as int) =~= infos@.take(i as int));
                lemma_selected_within(self@.take(i as int), infos@.take(i as int), filter);
                if paths_of(index_set).contains(path@) {
                    assert(self@.take(i as int).contains(path@));
                    let j = choose|j: int| 0 <= j < i && self@.take(i as int)[j] == path@;
                    assert(self@[j] == self@[i as int]);
                }
            }
            if selects_entry(filter, path, infos[i]) {
                insert_path(&mut index_set, path.clone());
            }
            i += 1;
        }
        proof {
            assert(self@.take(n as int) =~= self@);
            assert(infos@.take(n as int) =~= infos@);
        }
        FileSet { index_set }
    }

    /// The entries that `filter` does not select, in their order: those of
    /// `self` less the result of `self.filter(filter, infos)`.
    pub fn exclude(&self, filter: Filter, infos: &Vec<Option<EntryInfo>>) -> (r: FileSet)
        requires
            infos@.len() == self@.len(),
        ensures
            r.wf(),
            r@ == self@.filter(|p: Seq<char>| !selected(self@, infos@, filter).contains(p)),
    {
        proof {
            use_type_invariant(self);
        }
        let items_to_exclude = self.filter(filter, infos);
        let index_set = set_difference(&self.index_set, &items_to_exclude.index_set);
        proof {
            lemma_filter_keeps_distinct(self@, |p: Seq<char>| !selected(self@, infos@, filter).contains(p));
        }
        FileSet { index_set }
    }

    /// The entries reordered by `order_by`; `infos[i]` is what a metadata
    /// read of the `i`-th entry gave.
    pub fn order_by(&self, order_by: OrderBy, infos: &Vec<Option<EntryInfo>>) -> (r: FileSet)
        requires
            infos@.len() == self@.len(),
        ensures
            r.wf(),
            order_by == OrderBy::Item ==> r@ == grouped_by_kind(self@, infos@),
            order_by != OrderBy::Item ==> sorted_stably(self@, sort_keys(order_by, self@, infos@), r@),
    {
        match order_by {
            OrderBy::Item => self.order_by_item(infos),
            _ => self.order_by_extension_name_size(order_by, infos),
        }
    }

    fn order_by_item(&self, infos: &Vec<Option<EntryInfo>>) -> (r: FileSet)
        requires
            infos@.len() == self@.len(),
        ensures
            r.wf(),
            r@ == grouped_by_kind(self@, infos@),
    {
        proof {
            use_type_invariant(self);
        }
        let directories = self.filter(Filter::Item(ItemFilter::Directory), infos);
        let files = self.filter(Filter::Item(ItemFilter::File), infos);
        let symlinks = self.filter(Filter::Item(ItemFilter::Symlink), infos);
        let directories_and_files = set_union(&directories.index_set, &files.index_set);
        let index_set = set_union(&directories_and_files, &symlinks.index_set);
        proof {
            lemma_union_distinct(directories@, files@);
            lemma_union_distinct(paths_of(directories_and_files), symlinks@);
        }
        FileSet { index_set }
    }

    fn order_by_extension_name_size(&self, order_by: OrderBy, infos: &Vec<Option<EntryInfo>>) -> (r: FileSet)
        requires
            infos@.len() == self@.len(),
        ensures
            r.wf(),
            sorted_stably(self@, sort_keys(order_by, self@, infos@), r@),
    {
        proof {
            use_type_invariant(self);
        }
        let paths = self.to_vec();
        let mut keys: Vec<(u64, Option<String>)> = Vec::new();
        let mut i: usize = 0;
        while i < paths.len()
            invariant
                views_of_strings(paths@) == self@,
                infos@.len() == self@.len(),
                i <= paths@.len(),
                key_views(keys@) =~= sort_keys(order_by, self@, infos@).take(i as int),
            decreases paths@.len() - i,
        {
            let key = sort_key_of(order_by, &paths[i], infos[i]);
            let ghost before = keys@;
            keys.push(key);
            proof {
                assert(paths@[i as int]@ == self@[i as int]);
                assert(key_views(keys@) =~= key_views(before).push(key_view(key)));
            }
            i += 1;
        }
        proof {
            assert(sort_keys(order_by, self@, infos@).take(paths@.len() as int) =~= sort_keys(order_by, self@, infos@));
        }
        let mut index_set = clone_set(&self.index_set);
        sort_by_keys(&mut index_set, &paths, &keys);
        FileSet { index_set }
    }

    /// The entries in the reverse order.
    pub fn reverse(&self) -> (r: FileSet)
        ensures
            r.wf(),
            r@ == self@.reverse(),
    {
        proof {
            use_type_invariant(self);
        }
        let n = set_len(&self.index_set);
        let mut index_set = empty_set();
        let mut i: usize = n;
        while i > 0
            invariant
                self.wf(),
                n == self@.len(),
                i <= n,
                paths_of(index_set) =~= self@.subrange(i as int, n as int).reverse(),
                paths_of(index_set).no_duplicates(),
            decreases i,
        {
            i -= 1;
            let path = path_at(&self.index_set, i).unwrap();
            proof {
                if paths_of(index_set).contains(path@) {
                    let j = choose|j: int| 0 <= j < paths_of(index_set).len() && paths_of(index_set)[j] == path@;
                    assert(self@[n - 1 - j] == self@[i as int]);
                }
                assert(self@.subrange(i as int, n as int).reverse() =~= self@.subrange(i + 1, n as int).reverse().push(self@[i as int]));
            }
            insert_path(&mut index_set, path.clone());
        }
        proof {
            assert(self@.subrange(0, n as int) =~= self@);
        }
        FileSet { index_set }
    }
}

} // verus!
