//! The entries of a tree, by path.
use vstd::hash_map::StringHashMap;
use vstd::prelude::*;

use crate::path;
use crate::transport;
use crate::transport::EntryKind;
use crate::transport::EntryView;
use crate::transport::FileEntry;

verus! {

/// Whether an entry for `p` is in the list.
pub open spec fn lists(order: Seq<EntryView>, p: Seq<char>) -> bool {
    exists|i: int| 0 <= i < order.len() && (#[trigger] order[i]).rel_path == p
}

/// The entry for `p` in the list.
pub open spec fn entry_at(order: Seq<EntryView>, p: Seq<char>) -> EntryView {
    order[choose|i: int| 0 <= i < order.len() && (#[trigger] order[i]).rel_path == p]
}

/// No two entries of the list have the same path.
pub open spec fn distinct(order: Seq<EntryView>) -> bool {
    forall|i: int, j: int|
        0 <= i < j < order.len() ==> (#[trigger] order[i]).rel_path != (#[trigger] order[j]).rel_path
}

/// Every entry of the list is under its plain path.
pub open spec fn plain_paths(order: Seq<EntryView>) -> bool {
    forall|i: int|
        0 <= i < order.len() ==> path::normal((#[trigger] order[i]).rel_path) == order[i].rel_path
}

/// A list of entries as a map from path to entry.
pub open spec fn as_map(order: Seq<EntryView>) -> Map<Seq<char>, EntryView> {
    Map::new(|p: Seq<char>| lists(order, p), |p: Seq<char>| entry_at(order, p))
}

/// The entry under its plain path.
pub open spec fn plain_entry(e: EntryView) -> EntryView {
    EntryView { rel_path: path::normal(e.rel_path), ..e }
}

/// For each path, the last entry of the given kind.
pub open spec fn latest(entries: Seq<EntryView>, kind: EntryKind) -> Map<Seq<char>, EntryView>
    decreases entries.len(),
{
    if entries.len() == 0 {
        Map::empty()
    } else {
        let before = latest(entries.drop_last(), kind);
        let e = plain_entry(entries.last());
        if e.kind == kind {
            before.insert(e.rel_path, e)
        } else {
            before
        }
    }
}

/// What the map has for a path comes from one of the entries.
pub proof fn lemma_latest_comes_from(entries: Seq<EntryView>, kind: EntryKind, p: Seq<char>) -> (i:
    int)
    requires
        latest(entries, kind).contains_key(p),
    ensures
        0 <= i < entries.len(),
        entries[i].kind == kind,
        path::normal(entries[i].rel_path) == p,
    decreases entries.len(),
{
    let last = entries.last();
    if last.kind == kind && path::normal(last.rel_path) == p {
        entries.len() - 1
    } else {
        lemma_latest_comes_from(entries.drop_last(), kind, p)
    }
}

/// Every entry of the kind has a place in the map.
pub proof fn lemma_latest_has(entries: Seq<EntryView>, kind: EntryKind, i: int)
    requires
        0 <= i < entries.len(),
        entries[i].kind == kind,
    ensures
        latest(entries, kind).contains_key(path::normal(entries[i].rel_path)),
    decreases entries.len(),
{
    if i < entries.len() - 1 {
        assert(entries.drop_last()[i] == entries[i]);
        lemma_latest_has(entries.drop_last(), kind, i);
    }
}

/// How many of the entries are of the given kind.
pub open spec fn count(entries: Seq<EntryView>, kind: EntryKind) -> nat
    decreases entries.len(),
{
    if entries.len() == 0 {
        0
    } else {
        count(entries.drop_last(), kind) + if entries.last().kind == kind {
            1nat
        } else {
            0nat
        }
    }
}

/// Entries by path. It keeps the order in which the paths came.
pub struct PathMap {
    entries: Vec<FileEntry>,
    slots: StringHashMap<usize>,
}

impl View for PathMap {
    type V = Map<Seq<char>, EntryView>;

    open spec fn view(&self) -> Map<Seq<char>, EntryView> {
        as_map(self.order())
    }
}

/// An entry of the list is what the map gives for its path.
pub proof fn lemma_entry_at(order: Seq<EntryView>, i: int)
    requires
        distinct(order),
        0 <= i < order.len(),
    ensures
        lists(order, order[i].rel_path),
        entry_at(order, order[i].rel_path) == order[i],
        as_map(order).contains_key(order[i].rel_path),
        as_map(order)[order[i].rel_path] == order[i],
{
    let p = order[i].rel_path;
    assert(lists(order, p));
    let k = choose|k: int| 0 <= k < order.len() && (#[trigger] order[k]).rel_path == p;
    assert(0 <= k < order.len() && order[k].rel_path == p);
    if k < i {
        assert(order[k].rel_path != order[i].rel_path);
    } else if i < k {
        assert(order[i].rel_path != order[k].rel_path);
    }
}

/// What one more entry adds to a list.
pub proof fn lemma_lists_push(order: Seq<EntryView>, e: EntryView)
    ensures
        forall|p: Seq<char>| #[trigger]
            lists(order.push(e), p) <==> lists(order, p) || p == e.rel_path,
        distinct(order) && !lists(order, e.rel_path) ==> distinct(order.push(e)),
{
    let grown = order.push(e);
    assert forall|p: Seq<char>| #[trigger] lists(grown, p) <==> lists(order, p) || p
        == e.rel_path by {
        if lists(grown, p) {
            let i = choose|i: int| 0 <= i < grown.len() && (#[trigger] grown[i]).rel_path == p;
            if i < order.len() {
                assert(order[i].rel_path == p);
            }
        }
        if lists(order, p) {
            let i = choose|i: int| 0 <= i < order.len() && (#[trigger] order[i]).rel_path == p;
            assert(grown[i].rel_path == p);
        }
        assert(grown[order.len() as int].rel_path == e.rel_path);
    }
    if distinct(order) && !lists(order, e.rel_path) {
        assert forall|i: int, j: int| 0 <= i < j < grown.len() implies (
        #[trigger] grown[i]).rel_path != (#[trigger] grown[j]).rel_path by {
            if j == order.len() {
                assert(order[i].rel_path != e.rel_path);
            } else {
                assert(order[i].rel_path != order[j].rel_path);
            }
        }
    }
}

proof fn lemma_as_map_push(order: Seq<EntryView>, e: EntryView)
    requires
        distinct(order),
        !lists(order, e.rel_path),
    ensures
        distinct(order.push(e)),
        as_map(order.push(e)) == as_map(order).insert(e.rel_path, e),
{
    let grown = order.push(e);
    lemma_lists_push(order, e);
    assert forall|p: Seq<char>|
        as_map(grown).contains_key(p) <==> as_map(order).insert(e.rel_path, e).contains_key(p) by {
        assert(lists(grown, p) <==> lists(order, p) || p == e.rel_path);
    }
    assert forall|p: Seq<char>| as_map(grown).contains_key(p) implies as_map(grown)[p] == as_map(
        order,
    ).insert(e.rel_path, e)[p] by {
        let i = choose|i: int| 0 <= i < grown.len() && (#[trigger] grown[i]).rel_path == p;
        lemma_entry_at(grown, i);
        if i < order.len() {
            lemma_entry_at(order, i);
        }
    }
    assert(as_map(grown) =~= as_map(order).insert(e.rel_path, e));
}

proof fn lemma_as_map_update(order: Seq<EntryView>, at: int, e: EntryView)
    requires
        distinct(order),
        0 <= at < order.len(),
        order[at].rel_path == e.rel_path,
    ensures
        distinct(order.update(at, e)),
        as_map(order.update(at, e)) == as_map(order).insert(e.rel_path, e),
{
    let new = order.update(at, e);
    assert forall|i: int| 0 <= i < order.len() implies (#[trigger] new[i]).rel_path
        == order[i].rel_path by {}
    assert forall|i: int, j: int| 0 <= i < j < new.len() implies (#[trigger] new[i]).rel_path != (
    #[trigger] new[j]).rel_path by {
        assert(order[i].rel_path != order[j].rel_path);
    }
    assert forall|p: Seq<char>|
        as_map(new).contains_key(p) <==> as_map(order).insert(e.rel_path, e).contains_key(p) by {
        if as_map(new).contains_key(p) {
            let i = choose|i: int| 0 <= i < new.len() && (#[trigger] new[i]).rel_path == p;
            assert(order[i].rel_path == p);
        }
        if as_map(order).contains_key(p) {
            let i = choose|i: int| 0 <= i < order.len() && (#[trigger] order[i]).rel_path == p;
            assert(new[i].rel_path == p);
        }
        assert(new[at].rel_path == e.rel_path);
    }
    assert forall|p: Seq<char>| as_map(new).contains_key(p) implies as_map(new)[p] == as_map(
        order,
    ).insert(e.rel_path, e)[p] by {
        let i = choose|i: int| 0 <= i < new.len() && (#[trigger] new[i]).rel_path == p;
        lemma_entry_at(new, i);
        lemma_entry_at(order, i);
        if i != at {
            if i < at {
                assert(order[i].rel_path != order[at].rel_path);
            } else {
                assert(order[at].rel_path != order[i].rel_path);
            }
        }
    }
    assert(as_map(new) =~= as_map(order).insert(e.rel_path, e));
}

impl PathMap {
    /// The entries in the order in which their paths first came.
    pub closed spec fn order(&self) -> Seq<EntryView> {
        transport::entry_views(self.entries@)
    }

    /// Every path is plain and leads to its entry, and none is there twice.
    pub closed spec fn wf(&self) -> bool {
        let order = transport::entry_views(self.entries@);
        &&& distinct(order)
        &&& plain_paths(order)
        &&& forall|i: int|
            0 <= i < order.len() ==> {
                &&& self.slots@.contains_key((#[trigger] order[i]).rel_path)
                &&& self.slots@[order[i].rel_path] == i
            }
        &&& forall|p: Seq<char>| #[trigger]
            self.slots@.contains_key(p) ==> {
                &&& self.slots@[p] < order.len()
                &&& order[self.slots@[p] as int].rel_path == p
            }
    }

    /// The paths of a well-formed map are distinct and plain.
    pub proof fn lemma_paths(&self)
        requires
            self.wf(),
        ensures
            distinct(self.order()),
            plain_paths(self.order()),
    {
    }

    /// No entries.
    pub fn new() -> (r: PathMap)
        ensures
            r.wf(),
            r.order() == Seq::<EntryView>::empty(),
            r@ == Map::<Seq<char>, EntryView>::empty(),
    {
        let r = PathMap { entries: Vec::new(), slots: StringHashMap::new() };
        assert(r.order() =~= Seq::empty());
        assert(r@ =~= Map::<Seq<char>, EntryView>::empty());
        r
    }

    /// Puts `entry` at its plain path, in place of what was there.
    pub fn insert(&mut self, entry: &FileEntry)
        requires
            old(self).wf(),
        ensures
            final(self).wf(),
            final(self)@ == old(self)@.insert(
                path::normal(entry@.rel_path),
                plain_entry(entry@),
            ),
    {
        let e = FileEntry {
            rel_path: path::plain(entry.rel_path.as_str()),
            len: entry.len,
            mtime: entry.mtime,
            kind: entry.kind,
            mode: entry.mode,
        };
        let ghost before = self.order();
        let ghost v = e@;
        proof {
            assert(v =~= plain_entry(entry@));
            path::lemma_normal(entry@.rel_path);
        }
        let at: Option<usize> = match self.slots.get(e.rel_path.as_str()) {
            Some(i) => Some(*i),
            None => None,
        };
        match at {
            Some(i) => {
                proof {
                    lemma_as_map_update(before, i as int, v);
                }
                self.entries.set(i, e);
                assert(self.order() =~= before.update(i as int, v));
                assert forall|k: int| 0 <= k < self.order().len() implies (
                #[trigger] self.order()[k]).rel_path == before[k].rel_path by {}
            },
            None => {
                proof {
                    assert(!lists(before, v.rel_path)) by {
                        if lists(before, v.rel_path) {
                            let i = choose|i: int|
                                0 <= i < before.len() && (#[trigger] before[i]).rel_path
                                    == v.rel_path;
                            assert(self.slots@.contains_key(before[i].rel_path));
                        }
                    }
                    lemma_as_map_push(before, v);
                }
                self.slots.insert(e.rel_path.clone(), self.entries.len());
                self.entries.push(e);
                assert(self.order() =~= before.push(v));
                assert forall|k: int| 0 <= k < self.order().len() implies {
                    &&& self.slots@.contains_key((#[trigger] self.order()[k]).rel_path)
                    &&& self.slots@[self.order()[k].rel_path] == k
                } by {
                    if k < before.len() {
                        assert(self.order()[k] == before[k]);
                    }
                }
                assert forall|p: Seq<char>| #[trigger] self.slots@.contains_key(p) implies {
                    &&& self.slots@[p] < self.order().len()
                    &&& self.order()[self.slots@[p] as int].rel_path == p
                } by {
                    if p != v.rel_path {
                        assert(self.order()[self.slots@[p] as int] == before[self.slots@[p] as int]);
                    }
                }
            },
        }
    }

    /// The entry at the plain path `p`.
    pub fn get(&self, p: &str) -> (r: Option<&FileEntry>)
        requires
            self.wf(),
        ensures
            match r {
                Some(e) => self@.contains_key(p@) && e@ == self@[p@] && e@.rel_path == p@,
                None => !self@.contains_key(p@),
            },
    {
        match self.slots.get(p) {
            Some(i) => {
                proof {
                    lemma_entry_at(self.order(), *i as int);
                }
                Some(&self.entries[*i])
            },
            None => {
                proof {
                    if lists(self.order(), p@) {
                        let i = choose|i: int|
                            0 <= i < self.order().len() && (#[trigger] self.order()[i]).rel_path
                                == p@;
                        assert(self.slots@.contains_key(self.order()[i].rel_path));
                    }
                }
                None
            },
        }
    }

    /// Whether there is an entry at the plain path `p`.
    pub fn contains_key(&self, p: &str) -> (r: bool)
        requires
            self.wf(),
        ensures
            r == self@.contains_key(p@),
    {
        self.get(p).is_some()
    }

    /// How many entries there are.
    pub fn len(&self) -> (r: usize)
        ensures
            r == self.order().len(),
    {
        self.entries.len()
    }

    /// The entry whose path came `i`th.
    pub fn at(&self, i: usize) -> (r: &FileEntry)
        requires
            i < self.order().len(),
        ensures
            r@ == self.order()[i as int],
    {
        &self.entries[i]
    }
}

/// A tree's files and directories by path, and how many symbolic links it has.
pub struct Indexed {
    pub files: PathMap,
    pub dirs: PathMap,
    pub symlinks: usize,
}

impl Indexed {
    /// Both maps are well formed.
    pub open spec fn wf(&self) -> bool {
        self.files.wf() && self.dirs.wf()
    }
}

/// Splits entries into files and directories, by plain path, the last of several winning.
/// Symbolic links are counted and dropped.
pub fn index(entries: Vec<FileEntry>) -> (r: Indexed)
    ensures
        r.wf(),
        r.files@ == latest(transport::entry_views(entries@), EntryKind::File),
        r.dirs@ == latest(transport::entry_views(entries@), EntryKind::Dir),
        r.symlinks == count(transport::entry_views(entries@), EntryKind::Symlink),
{
    let ghost all = transport::entry_views(entries@);
    let mut files = PathMap::new();
    let mut dirs = PathMap::new();
    let mut symlinks: usize = 0;
    let mut i: usize = 0;
    assert(all.take(0).len() == 0);
    while i < entries.len()
        invariant
            i <= entries@.len(),
            all == transport::entry_views(entries@),
            files.wf(),
            dirs.wf(),
            files@ == latest(all.take(i as int), EntryKind::File),
            dirs@ == latest(all.take(i as int), EntryKind::Dir),
            symlinks == count(all.take(i as int), EntryKind::Symlink),
            symlinks <= i,
        decreases entries@.len() - i,
    {
        proof {
            assert(all.take(i + 1).drop_last() =~= all.take(i as int));
            assert(all.take(i + 1).last() == entries@[i as int]@);
        }
        let e = &entries[i];
        match e.kind {
            EntryKind::File => {
                files.insert(e);
            },
            EntryKind::Dir => {
                dirs.insert(e);
            },
            EntryKind::Symlink => {
                symlinks = symlinks + 1;
            },
        }
        i = i + 1;
    }
    assert(all.take(i as int) =~= all);
    Indexed { files, dirs, symlinks }
}


/// Of several entries for a path the last one of a kind counts, with everything that it says, under
/// the plain text of the path; a path that no entry of the kind has is not there.
pub proof fn law_last_entry_counts(entries: Seq<EntryView>, kind: EntryKind, i: int, p: Seq<char>)
    requires
        0 <= i < entries.len(),
        entries[i].kind == kind,
        forall|k: int|
            i < k < entries.len() && (#[trigger] entries[k]).kind == kind ==> path::normal(
                entries[k].rel_path,
            ) != path::normal(entries[i].rel_path),
    ensures
        latest(entries, kind).contains_key(path::normal(entries[i].rel_path)),
        latest(entries, kind)[path::normal(entries[i].rel_path)] == (EntryView {
            rel_path: path::normal(entries[i].rel_path),
            len: entries[i].len,
            mtime: entries[i].mtime,
            kind: entries[i].kind,
            mode: entries[i].mode,
        }),
        (forall|k: int|
            0 <= k < entries.len() && (#[trigger] entries[k]).kind == kind ==> path::normal(
                entries[k].rel_path,
            ) != p) ==> !latest(entries, kind).contains_key(p),
    decreases entries.len(),
{
    if latest(entries, kind).contains_key(p) {
        let k = lemma_latest_comes_from(entries, kind, p);
        assert(entries[k].kind == kind);
    }
    let head = entries.drop_last();
    if i < head.len() {
        assert(head[i] == entries[i]);
        assert forall|k: int| i < k < head.len() && (#[trigger] head[k]).kind == kind implies
            path::normal(head[k].rel_path) != path::normal(head[i].rel_path) by {
            assert(head[k] == entries[k]);
        }
        law_last_entry_counts(head, kind, i, p);
        assert(entries[entries.len() - 1] == entries.last());
    }
}

/// One entry more of a kind adds one to their number, and one of another kind does not.
pub proof fn law_entries_are_counted(entries: Seq<EntryView>, e: EntryView, kind: EntryKind)
    ensures
        count(Seq::empty(), kind) == 0,
        e.kind == kind ==> count(entries.push(e), kind) == count(entries, kind) + 1,
        e.kind != kind ==> count(entries.push(e), kind) == count(entries, kind),
{
    assert(entries.push(e).drop_last() =~= entries);
}

} // verus!
