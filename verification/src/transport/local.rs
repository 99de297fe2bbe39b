//! A tree on this machine: which entries a listing has, and where and how files are written.
use vstd::prelude::*;

use crate::config::DSYNC_DIR;
use crate::error::DsyncError;
use crate::error::ErrorView;
use crate::ignore_rules::IgnoreSet;
use crate::path;
use crate::sync::scan;
use crate::text;
use crate::text::chars_of;
use crate::text::glue;
use crate::transport;
use crate::transport::EntryKind;
use crate::transport::EntryView;
use crate::transport::FileEntry;

verus! {

/// A tree on this machine.
#[derive(Debug, Clone)]
pub struct LocalTransport {
    root: String,
}

impl LocalTransport {
    /// The tree's root.
    pub closed spec fn root(&self) -> Seq<char> {
        self.root@
    }

    /// The tree at `root`.
    pub fn new(root: String) -> (r: LocalTransport)
        ensures
            r.root() == root@,
    {
        LocalTransport { root }
    }

    /// The path of `rel` in this tree.
    pub fn abs(&self, rel: &str) -> (r: String)
        ensures
            r@ == path::under(self.root(), rel@),
    {
        path::join(self.root.as_str(), rel)
    }
}

/// What a failed look at `path` comes to, where nothing being there is no failure.
pub fn unless_absent(path: &str, not_found: bool, reason: &str) -> (r: Result<(), DsyncError>)
    ensures
        match r {
            Ok(_) => not_found,
            Err(e) => !not_found && e@ == (ErrorView::Io { path: path@, source: reason@ }),
        },
{
    if not_found {
        Ok(())
    } else {
        Err(DsyncError::io(path, reason))
    }
}

/// Whether `rel` is left out of a listing. Without rules, only the configuration is.
pub open spec fn is_left_out(rel: Seq<char>, is_dir: bool, ignore: Option<&IgnoreSet>) -> bool {
    match ignore {
        Some(set) => set.ignores(rel, is_dir),
        None => path::within(rel, DSYNC_DIR@),
    }
}

/// Something that was found in a directory.
pub struct Found {
    /// Its name in the directory.
    pub name: String,
    pub kind: EntryKind,
    /// Bytes.
    pub len: u64,
    /// Milliseconds since 1970.
    pub mtime: i64,
    /// Unix permission bits.
    pub mode: u32,
}

/// Whether `name` can be a name in a directory.
pub open spec fn is_name(name: Seq<char>) -> bool {
    name.len() > 0 && !name.contains('/')
}

/// The entry for what was found in the directory `dir`. Only files have a length.
pub open spec fn entry_of(dir: Seq<char>, found: Found) -> EntryView {
    EntryView {
        rel_path: path::under(dir, found.name@),
        len: if found.kind == EntryKind::File {
            found.len
        } else {
            0
        },
        mtime: found.mtime,
        kind: found.kind,
        mode: found.mode,
    }
}

/// How far a listing has come: the entries so far, and the directories still to be read, the next
/// one last.
#[verifier::ext_equal]
pub struct Listing {
    pub entries: Seq<EntryView>,
    pub pending: Seq<Seq<char>>,
}

/// Whether what was found in `dir` is left out of a listing.
pub open spec fn skips(dir: Seq<char>, found: Found, ignore: Option<&IgnoreSet>) -> bool {
    let e = entry_of(dir, found);
    is_left_out(e.rel_path, e.kind == EntryKind::Dir, ignore)
}

/// The listing once something was found in `dir`. A directory is still to be read.
pub open spec fn noted(
    l: Listing,
    dir: Seq<char>,
    found: Found,
    ignore: Option<&IgnoreSet>,
) -> Listing {
    let e = entry_of(dir, found);
    if skips(dir, found, ignore) {
        l
    } else {
        Listing {
            entries: l.entries.push(e),
            pending: if e.kind == EntryKind::Dir {
                l.pending.push(e.rel_path)
            } else {
                l.pending
            },
        }
    }
}

/// A listing under way: the entries so far, and the directories still to be read.
pub struct Walk {
    entries: Vec<FileEntry>,
    pending: Vec<String>,
}

impl Walk {
    /// The entries so far.
    pub closed spec fn entries(&self) -> Seq<EntryView> {
        transport::entry_views(self.entries@)
    }

    /// The directories still to be read, the next one last.
    pub closed spec fn pending(&self) -> Seq<Seq<char>> {
        text::views(self.pending@)
    }

    /// How far the listing has come.
    pub open spec fn state(&self) -> Listing {
        Listing { entries: self.entries(), pending: self.pending() }
    }

    /// No entry is left out, and each directory still to be read is the root or a listed
    /// directory. So nothing is looked for in a directory that is left out, nor behind a symbolic
    /// link.
    pub open spec fn wf(&self, ignore: Option<&IgnoreSet>) -> bool {
        &&& forall|i: int|
            0 <= i < self.entries().len() ==> !is_left_out(
                (#[trigger] self.entries()[i]).rel_path,
                self.entries()[i].kind == EntryKind::Dir,
                ignore,
            )
        &&& forall|i: int|
            0 <= i < self.pending().len() ==> is_listed_dir(
                self.entries(),
                #[trigger] self.pending()[i],
            )
    }

    /// A listing that has not looked at anything.
    pub fn new() -> (r: Walk)
        ensures
            r.state() == first_state(),
            forall|ignore: Option<&IgnoreSet>| #[trigger] r.wf(ignore),
    {
        let mut pending: Vec<String> = Vec::new();
        pending.push(String::new());
        let r = Walk { entries: Vec::new(), pending };
        assert(r.state() =~= first_state());
        r
    }

    /// The directory to read next; none when the listing is complete.
    pub fn next_dir(&mut self) -> (r: Option<String>)
        ensures
            final(self).entries() == old(self).entries(),
            match r {
                Some(d) => {
                    &&& old(self).pending().len() > 0
                    &&& d@ == old(self).pending().last()
                    &&& final(self).pending() == old(self).pending().drop_last()
                },
                None => {
                    &&& old(self).pending().len() == 0
                    &&& final(self).pending() == old(self).pending()
                },
            },
            forall|ignore: Option<&IgnoreSet>| #[trigger]
                old(self).wf(ignore) ==> final(self).wf(ignore),
    {
        let ghost before = self.pending();
        let r = self.pending.pop();
        proof {
            if before.len() > 0 {
                assert(self.pending() =~= before.drop_last());
            }
        }
        r
    }

    /// Takes note of what was found in the directory `dir`.
    pub fn visit(&mut self, dir: &str, found: Found, ignore: Option<&IgnoreSet>)
        requires
            is_name(found.name@),
            !path::rooted(dir@),
        ensures
            final(self).state() == noted(old(self).state(), dir@, found, ignore),
            old(self).wf(ignore) ==> final(self).wf(ignore),
    {
        let ghost before = self.entries();
        let ghost waiting = self.pending();
        let rel = path::join(dir, found.name.as_str());
        proof {
            assert(!path::rooted(found.name@)) by {
                if path::rooted(found.name@) {
                    assert(found.name@[0] == '/');
                }
            }
            assert(!path::rooted(rel@));
        }
        let is_dir = found.kind == EntryKind::Dir;
        let out = match ignore {
            Some(set) => set.is_ignored(rel.as_str(), is_dir),
            None => path::starts_with(rel.as_str(), DSYNC_DIR),
        };
        if out {
            return;
        }
        let len: u64 = if found.kind == EntryKind::File {
            found.len
        } else {
            0
        };
        let ghost e = entry_of(dir@, found);
        if is_dir {
            self.pending.push(rel.clone());
            assert(self.pending() =~= waiting.push(e.rel_path));
        }
        self.entries.push(
            FileEntry {
                rel_path: rel,
                len,
                mtime: found.mtime,
                kind: found.kind,
                mode: found.mode,
            },
        );
        proof {
            assert(self.entries() =~= before.push(e));
            if old(self).wf(ignore) {
                assert forall|i: int| 0 <= i < self.entries().len() implies !is_left_out(
                    (#[trigger] self.entries()[i]).rel_path,
                    self.entries()[i].kind == EntryKind::Dir,
                    ignore,
                ) by {
                    if i < before.len() {
                        assert(before[i] == self.entries()[i]);
                    }
                }
                assert forall|i: int| 0 <= i < self.pending().len() implies is_listed_dir(
                    self.entries(),
                    #[trigger] self.pending()[i],
                ) by {
                    if i < waiting.len() {
                        assert(waiting[i] == self.pending()[i]);
                        let d = waiting[i];
                        if d.len() > 0 {
                            let k = choose|k: int|
                                0 <= k < before.len() && (#[trigger] before[k]).rel_path == d
                                    && before[k].kind == EntryKind::Dir;
                            assert(self.entries()[k] == before[k]);
                        }
                    } else {
                        assert(self.entries()[before.len() as int] == e);
                    }
                }
            }
        }
    }

    /// The entries.
    pub fn finish(self) -> (r: Vec<FileEntry>)
        ensures
            transport::entry_views(r@) == self.entries(),
    {
        self.entries
    }
}

/// Whether `d` is the root or a directory among the entries.
pub open spec fn is_listed_dir(entries: Seq<EntryView>, d: Seq<char>) -> bool {
    d.len() == 0 || exists|k: int|
        0 <= k < entries.len() && (#[trigger] entries[k]).rel_path == d && entries[k].kind
            == EntryKind::Dir
}

/// A listing that has not looked at anything: the root is to be read.
pub open spec fn first_state() -> Listing {
    Listing { entries: Seq::empty(), pending: seq![Seq::<char>::empty()] }
}

/// The listing once all of `content` was found in `dir`.
pub open spec fn all_noted(
    l: Listing,
    dir: Seq<char>,
    content: Seq<Found>,
    ignore: Option<&IgnoreSet>,
) -> Listing
    decreases content.len(),
{
    if content.len() == 0 {
        l
    } else {
        noted(all_noted(l, dir, content.drop_last(), ignore), dir, content.last(), ignore)
    }
}

/// The listing of a tree once `n` directories were read. `tree` says what is in a directory.
pub open spec fn after_dirs(
    tree: spec_fn(Seq<char>) -> Seq<Found>,
    ignore: Option<&IgnoreSet>,
    n: nat,
) -> Listing
    decreases n,
{
    if n == 0 {
        first_state()
    } else {
        let l = after_dirs(tree, ignore, (n - 1) as nat);
        if l.pending.len() == 0 {
            l
        } else {
            let dir = l.pending.last();
            all_noted(Listing { pending: l.pending.drop_last(), ..l }, dir, tree(dir), ignore)
        }
    }
}

/// Whether all that is in `dir` and not left out is among the entries.
pub open spec fn lists_all_of(
    entries: Seq<EntryView>,
    dir: Seq<char>,
    content: Seq<Found>,
    ignore: Option<&IgnoreSet>,
) -> bool {
    forall|k: int|
        0 <= k < content.len() && !skips(dir, #[trigger] content[k], ignore) ==> entries.contains(
            entry_of(dir, content[k]),
        )
}

/// Whether an entry is for something in `dir` that is not left out.
pub open spec fn stems_from(
    e: EntryView,
    dir: Seq<char>,
    content: Seq<Found>,
    ignore: Option<&IgnoreSet>,
) -> bool {
    exists|k: int|
        0 <= k < content.len() && !skips(dir, #[trigger] content[k], ignore) && e == entry_of(
            dir,
            content[k],
        )
}

proof fn lemma_all_noted(
    l: Listing,
    dir: Seq<char>,
    content: Seq<Found>,
    ignore: Option<&IgnoreSet>,
)
    ensures
        ({
            let m = all_noted(l, dir, content, ignore);
            &&& l.entries.is_prefix_of(m.entries)
            &&& l.pending.is_prefix_of(m.pending)
            &&& lists_all_of(m.entries, dir, content, ignore)
            &&& forall|i: int|
                l.entries.len() <= i < m.entries.len() ==> {
                    &&& stems_from(#[trigger] m.entries[i], dir, content, ignore)
                    &&& m.entries[i].kind == EntryKind::Dir ==> m.pending.contains(
                        m.entries[i].rel_path,
                    )
                }
        }),
    decreases content.len(),
{
    if content.len() > 0 {
        let head = content.drop_last();
        let found = content.last();
        let before = all_noted(l, dir, head, ignore);
        let m = all_noted(l, dir, content, ignore);
        let e = entry_of(dir, found);
        lemma_all_noted(l, dir, head, ignore);
        assert forall|i: int| 0 <= i < before.entries.len() implies #[trigger] m.entries[i]
            == before.entries[i] by {}
        assert forall|i: int| 0 <= i < before.pending.len() implies #[trigger] m.pending[i]
            == before.pending[i] by {}
        assert(l.entries =~= m.entries.take(l.entries.len() as int)) by {
            assert(l.entries =~= before.entries.take(l.entries.len() as int));
        }
        assert(l.pending =~= m.pending.take(l.pending.len() as int)) by {
            assert(l.pending =~= before.pending.take(l.pending.len() as int));
        }
        assert forall|k: int|
            0 <= k < content.len() && !skips(dir, #[trigger] content[k], ignore) implies m.entries.contains(
            entry_of(dir, content[k]),
        ) by {
            if k < head.len() {
                assert(head[k] == content[k]);
                let x = entry_of(dir, content[k]);
                assert(before.entries.contains(x));
                let i = choose|i: int| 0 <= i < before.entries.len() && before.entries[i] == x;
                assert(m.entries[i] == x);
            } else {
                assert(m.entries[m.entries.len() - 1] == e);
            }
        }
        assert forall|i: int| l.entries.len() <= i < m.entries.len() implies {
            &&& stems_from(#[trigger] m.entries[i], dir, content, ignore)
            &&& m.entries[i].kind == EntryKind::Dir ==> m.pending.contains(m.entries[i].rel_path)
        } by {
            if i < before.entries.len() {
                let x = before.entries[i];
                assert(m.entries[i] == x);
                let k = choose|k: int|
                    0 <= k < head.len() && !skips(dir, #[trigger] head[k], ignore) && x == entry_of(
                        dir,
                        head[k],
                    );
                assert(content[k] == head[k]);
                if x.kind == EntryKind::Dir {
                    let j = choose|j: int|
                        0 <= j < before.pending.len() && before.pending[j] == x.rel_path;
                    assert(m.pending[j] == x.rel_path);
                }
            } else {
                assert(content[content.len() - 1] == found);
                assert(m.entries[i] == e);
                if e.kind == EntryKind::Dir {
                    assert(m.pending[m.pending.len() - 1] == e.rel_path);
                }
            }
        }
    }
}

/// While a listing is under way, what is in a listed directory is listed too, unless the directory
/// is still to be read; and every entry is for something in a listed directory.
proof fn lemma_listing(
    tree: spec_fn(Seq<char>) -> Seq<Found>,
    ignore: Option<&IgnoreSet>,
    n: nat,
)
    ensures
        ({
            let l = after_dirs(tree, ignore, n);
            &&& forall|d: Seq<char>| #[trigger]
                is_listed_dir(l.entries, d) ==> l.pending.contains(d) || lists_all_of(
                    l.entries,
                    d,
                    tree(d),
                    ignore,
                )
            &&& forall|i: int|
                0 <= i < l.pending.len() ==> is_listed_dir(l.entries, #[trigger] l.pending[i])
            &&& forall|i: int|
                0 <= i < l.entries.len() ==> is_listed(tree, ignore, l.entries, #[trigger] l.entries[i])
        }),
    decreases n,
{
    let m = after_dirs(tree, ignore, n);
    if n == 0 {
        assert(m.pending[0] == Seq::<char>::empty());
        assert forall|d: Seq<char>| #[trigger] is_listed_dir(m.entries, d) implies m.pending.contains(
            d,
        ) by {
            assert(d =~= Seq::<char>::empty());
        }
    } else {
        let l = after_dirs(tree, ignore, (n - 1) as nat);
        lemma_listing(tree, ignore, (n - 1) as nat);
        if l.pending.len() > 0 {
            let dir = l.pending.last();
            let popped = Listing { pending: l.pending.drop_last(), ..l };
            lemma_all_noted(popped, dir, tree(dir), ignore);
            assert(is_listed_dir(l.entries, l.pending[l.pending.len() - 1]));
            lemma_grown(l.entries, m.entries);
            assert(popped.pending =~= m.pending.take(popped.pending.len() as int));
            assert forall|d: Seq<char>| #[trigger] is_listed_dir(m.entries, d) implies
                m.pending.contains(d) || lists_all_of(m.entries, d, tree(d), ignore) by {
                if d != dir {
                    if is_listed_dir(l.entries, d) {
                        if l.pending.contains(d) {
                            let j = choose|j: int| 0 <= j < l.pending.len() && l.pending[j] == d;
                            assert(popped.pending[j] == d);
                            assert(m.pending[j] == d);
                        } else {
                            lemma_still_lists_all(l.entries, m.entries, d, tree(d), ignore);
                        }
                    } else {
                        let k = choose|k: int|
                            0 <= k < m.entries.len() && (#[trigger] m.entries[k]).rel_path == d
                                && m.entries[k].kind == EntryKind::Dir;
                        if k < l.entries.len() {
                            assert(l.entries[k] == m.entries[k]);
                        }
                        assert(m.pending.contains(m.entries[k].rel_path));
                    }
                }
            }
            assert forall|i: int| 0 <= i < m.pending.len() implies is_listed_dir(
                m.entries,
                #[trigger] m.pending[i],
            ) by {
                lemma_pending_is_listed(popped, dir, tree(dir), ignore, i);
                if i < popped.pending.len() {
                    assert(m.pending[i] == m.pending.take(popped.pending.len() as int)[i]);
                    assert(popped.pending[i] == l.pending[i]);
                }
            }
            assert forall|i: int| 0 <= i < m.entries.len() implies is_listed(
                tree,
                ignore,
                m.entries,
                #[trigger] m.entries[i],
            ) by {
                if i < l.entries.len() {
                    assert(l.entries[i] == m.entries[i]);
                    let d = choose|d: Seq<char>| #[trigger]
                        is_listed_dir(l.entries, d) && stems_from(l.entries[i], d, tree(d), ignore);
                    assert(is_listed_dir(m.entries, d));
                } else {
                    assert(is_listed_dir(m.entries, dir));
                }
            }
        }
    }
}

/// More entries list no fewer directories.
proof fn lemma_grown(few: Seq<EntryView>, many: Seq<EntryView>)
    requires
        few.is_prefix_of(many),
    ensures
        forall|d: Seq<char>| #[trigger] is_listed_dir(few, d) ==> is_listed_dir(many, d),
{
    assert forall|d: Seq<char>| #[trigger] is_listed_dir(few, d) implies is_listed_dir(many, d) by {
        if d.len() > 0 {
            let k = choose|k: int|
                0 <= k < few.len() && (#[trigger] few[k]).rel_path == d && few[k].kind
                    == EntryKind::Dir;
            assert(many[k] == few[k]);
        }
    }
}

/// More entries list no less of a directory.
proof fn lemma_still_lists_all(
    few: Seq<EntryView>,
    many: Seq<EntryView>,
    d: Seq<char>,
    content: Seq<Found>,
    ignore: Option<&IgnoreSet>,
)
    requires
        few.is_prefix_of(many),
        lists_all_of(few, d, content, ignore),
    ensures
        lists_all_of(many, d, content, ignore),
{
    assert forall|k: int|
        0 <= k < content.len() && !skips(d, #[trigger] content[k], ignore) implies many.contains(
        entry_of(d, content[k]),
    ) by {
        let x = entry_of(d, content[k]);
        assert(few.contains(x));
        let i = choose|i: int| 0 <= i < few.len() && few[i] == x;
        assert(many[i] == x);
    }
}

/// What is to be read after a directory was to be read before, or is a directory found there.
proof fn lemma_pending_is_listed(
    l: Listing,
    dir: Seq<char>,
    content: Seq<Found>,
    ignore: Option<&IgnoreSet>,
    i: int,
)
    requires
        0 <= i < all_noted(l, dir, content, ignore).pending.len(),
    ensures
        i < l.pending.len() || is_listed_dir(
            all_noted(l, dir, content, ignore).entries,
            all_noted(l, dir, content, ignore).pending[i],
        ),
    decreases content.len(),
{
    if content.len() > 0 {
        let before = all_noted(l, dir, content.drop_last(), ignore);
        let m = all_noted(l, dir, content, ignore);
        if i < before.pending.len() {
            lemma_pending_is_listed(l, dir, content.drop_last(), ignore, i);
            assert(before.entries.is_prefix_of(m.entries)) by {
                assert(before.entries =~= m.entries.take(before.entries.len() as int));
            }
            lemma_grown(before.entries, m.entries);
        } else {
            assert(m.entries[m.entries.len() - 1] == entry_of(dir, content.last()));
        }
    }
}

/// Whether an entry is for something in a listed directory of the tree that is not left out.
pub open spec fn is_listed(
    tree: spec_fn(Seq<char>) -> Seq<Found>,
    ignore: Option<&IgnoreSet>,
    entries: Seq<EntryView>,
    e: EntryView,
) -> bool {
    exists|d: Seq<char>| #[trigger]
        is_listed_dir(entries, d) && stems_from(e, d, tree(d), ignore)
}

/// A finished listing has an entry for everything in the root and in the listed directories that
/// is not left out, and for nothing else.
pub proof fn law_listing_is_complete(
    tree: spec_fn(Seq<char>) -> Seq<Found>,
    ignore: Option<&IgnoreSet>,
    n: nat,
    e: EntryView,
)
    requires
        after_dirs(tree, ignore, n).pending.len() == 0,
    ensures
        after_dirs(tree, ignore, n).entries.contains(e) <==> is_listed(
            tree,
            ignore,
            after_dirs(tree, ignore, n).entries,
            e,
        ),
{
    lemma_listing(tree, ignore, n);
    let l = after_dirs(tree, ignore, n);
    if is_listed(tree, ignore, l.entries, e) {
        let d = choose|d: Seq<char>| #[trigger]
            is_listed_dir(l.entries, d) && stems_from(e, d, tree(d), ignore);
        assert(lists_all_of(l.entries, d, tree(d), ignore));
    }
}

/// Whether what was found in a directory has names, all different.
pub open spec fn is_content(content: Seq<Found>) -> bool {
    &&& forall|k: int| 0 <= k < content.len() ==> is_name((#[trigger] content[k]).name@)
    &&& forall|j: int, k: int|
        0 <= j < k < content.len() ==> (#[trigger] content[j]).name@ != (
        #[trigger] content[k]).name@
}

/// Whether `d` is empty or does not end in a slash.
spec fn is_dir_text(d: Seq<char>) -> bool {
    d.len() == 0 || d.last() != '/'
}

/// The path of a name in a directory tells both.
proof fn lemma_under_tells(d: Seq<char>, name: Seq<char>, e: Seq<char>, other: Seq<char>)
    requires
        is_dir_text(d),
        is_dir_text(e),
        is_name(name),
        is_name(other),
        path::under(d, name) == path::under(e, other),
    ensures
        d == e,
        name == other,
{
    let p = path::under(d, name);
    assert(!path::rooted(name)) by {
        if path::rooted(name) {
            assert(name.contains('/'));
        }
    }
    assert(!path::rooted(other)) by {
        if path::rooted(other) {
            assert(other.contains('/'));
        }
    }
    let a = p.len() - name.len();
    let b = p.len() - other.len();
    assert(name =~= p.skip(a));
    assert(other =~= p.skip(b));
    assert(d.len() > 0 ==> p[a - 1] == '/');
    assert(e.len() > 0 ==> p[b - 1] == '/');
    if a < b {
        assert(name[b - 1 - a] == '/');
    } else if b < a {
        assert(other[a - 1 - b] == '/');
    }
    if d.len() > 0 {
        assert(d =~= p.take(a - 1));
        assert(e =~= p.take(a - 1));
    }
}

/// Whether an entry of the list is the path of a name in one of the directories.
spec fn is_in_some(dirs: Seq<Seq<char>>, p: Seq<char>) -> bool {
    exists|d: Seq<char>, name: Seq<char>|
        dirs.contains(d) && is_name(name) && p == #[trigger] path::under(d, name)
}

/// Whether `d` is the root or the path of an entry.
spec fn is_root_or_listed(entries: Seq<EntryView>, d: Seq<char>) -> bool {
    d.len() == 0 || scan::lists(entries, d)
}

/// What holds of a listing under way, the directories of `read` having been read.
spec fn is_tidy(l: Listing, read: Seq<Seq<char>>) -> bool {
    &&& scan::distinct(l.entries)
    &&& forall|i: int|
        0 <= i < l.entries.len() ==> is_in_some(read, (#[trigger] l.entries[i]).rel_path)
    &&& forall|d: Seq<char>| #[trigger] read.contains(d) ==> is_root_or_listed(l.entries, d)
    &&& forall|d: Seq<char>| #[trigger] l.pending.contains(d) ==> is_root_or_listed(l.entries, d)
    &&& forall|d: Seq<char>| #[trigger] l.pending.contains(d) ==> !read.contains(d)
    &&& l.pending.no_duplicates()
}

/// The path of a name does not end in a slash.
proof fn lemma_under_is_dir_text(d: Seq<char>, name: Seq<char>)
    requires
        is_name(name),
    ensures
        path::under(d, name).len() > 0,
        is_dir_text(path::under(d, name)),
{
    let p = path::under(d, name);
    assert(!path::rooted(name)) by {
        if path::rooted(name) {
            assert(name.contains('/'));
        }
    }
    assert(p.last() == name.last());
    assert(name.contains(name.last()));
}

/// The root and the entries of a tidy listing do not end in a slash.
proof fn lemma_tidy_is_dir_text(l: Listing, read: Seq<Seq<char>>, d: Seq<char>)
    requires
        is_tidy(l, read),
        is_root_or_listed(l.entries, d),
    ensures
        is_dir_text(d),
{
    if d.len() > 0 {
        let i = choose|i: int| 0 <= i < l.entries.len() && (#[trigger] l.entries[i]).rel_path == d;
        let (e, name) = choose|e: Seq<char>, name: Seq<char>|
            read.contains(e) && is_name(name) && l.entries[i].rel_path == #[trigger] path::under(
                e,
                name,
            );
        lemma_under_is_dir_text(e, name);
    }
}

/// Reading one more directory keeps a listing tidy.
proof fn lemma_noted_is_tidy(
    l: Listing,
    read: Seq<Seq<char>>,
    dir: Seq<char>,
    content: Seq<Found>,
    ignore: Option<&IgnoreSet>,
)
    requires
        is_tidy(l, read),
        read.contains(dir),
        is_dir_text(dir),
        is_content(content),
        forall|name: Seq<char>|
            is_name(name) ==> !scan::lists(l.entries, #[trigger] path::under(dir, name)),
    ensures
        is_tidy(all_noted(l, dir, content, ignore), read),
        forall|p: Seq<char>| #[trigger]
            scan::lists(all_noted(l, dir, content, ignore).entries, p) ==> scan::lists(l.entries, p)
                || exists|k: int|
                0 <= k < content.len() && p == path::under(dir, (#[trigger] content[k]).name@),
    decreases content.len(),
{
    let m = all_noted(l, dir, content, ignore);
    if content.len() > 0 {
        let head = content.drop_last();
        let found = content.last();
        let n = content.len() - 1;
        assert(content[n] == found);
        assert(is_content(head)) by {
            assert forall|k: int| 0 <= k < head.len() implies is_name(
                (#[trigger] head[k]).name@,
            ) by {
                assert(head[k] == content[k]);
            }
            assert forall|j: int, k: int| 0 <= j < k < head.len() implies (
            #[trigger] head[j]).name@ != (#[trigger] head[k]).name@ by {
                assert(head[j] == content[j] && head[k] == content[k]);
            }
        }
        lemma_noted_is_tidy(l, read, dir, head, ignore);
        let before = all_noted(l, dir, head, ignore);
        let e = entry_of(dir, found);
        let p = e.rel_path;
        if !skips(dir, found, ignore) {
            assert(!scan::lists(before.entries, p)) by {
                if scan::lists(before.entries, p) {
                    assert(!scan::lists(l.entries, path::under(dir, found.name@)));
                    let k = choose|k: int|
                        0 <= k < head.len() && p == path::under(dir, (#[trigger] head[k]).name@);
                    assert(head[k] == content[k]);
                    lemma_under_tells(dir, found.name@, dir, head[k].name@);
                    assert(content[k].name@ != content[n].name@);
                }
            }
            scan::lemma_lists_push(before.entries, e);
            assert(m.entries == before.entries.push(e));
            assert(is_in_some(read, p)) by {
                assert(is_name(content[n].name@));
                assert(p == path::under(dir, found.name@));
            }
            assert forall|i: int| 0 <= i < m.entries.len() implies is_in_some(
                read,
                (#[trigger] m.entries[i]).rel_path,
            ) by {
                if i < before.entries.len() {
                    assert(m.entries[i] == before.entries[i]);
                }
            }
            assert forall|d: Seq<char>| #[trigger] read.contains(d) implies is_root_or_listed(
                m.entries,
                d,
            ) by {
                assert(is_root_or_listed(before.entries, d));
            }
            lemma_under_is_dir_text(dir, found.name@);
            assert(!before.pending.contains(p)) by {
                if before.pending.contains(p) {
                    assert(is_root_or_listed(before.entries, p));
                }
            }
            assert(!read.contains(p)) by {
                if read.contains(p) {
                    assert(is_root_or_listed(before.entries, p));
                }
            }
            assert forall|d: Seq<char>| #[trigger] m.pending.contains(d) implies {
                &&& is_root_or_listed(m.entries, d)
                &&& !read.contains(d)
            } by {
                let k = choose|k: int| 0 <= k < m.pending.len() && m.pending[k] == d;
                if k < before.pending.len() {
                    assert(before.pending[k] == d);
                    assert(before.pending.contains(d));
                    assert(is_root_or_listed(before.entries, d));
                } else {
                    assert(d == p);
                }
            }
            assert(m.pending.no_duplicates()) by {
                assert forall|j: int, k: int|
                    0 <= j < m.pending.len() && 0 <= k < m.pending.len() && j
                        != k implies m.pending[j] != m.pending[k] by {
                    if j == before.pending.len() {
                        assert(before.pending.contains(before.pending[k]));
                    } else if k == before.pending.len() {
                        assert(before.pending.contains(before.pending[j]));
                    }
                }
            }
        }
        assert forall|q: Seq<char>| #[trigger] scan::lists(m.entries, q) implies scan::lists(
            l.entries,
            q,
        ) || exists|k: int|
            0 <= k < content.len() && q == path::under(dir, (#[trigger] content[k]).name@) by {
            if scan::lists(before.entries, q) {
                if !scan::lists(l.entries, q) {
                    let k = choose|k: int|
                        0 <= k < head.len() && q == path::under(dir, (#[trigger] head[k]).name@);
                    assert(content[k] == head[k]);
                }
            } else {
                assert(q == path::under(dir, content[n].name@));
            }
        }
    }
}

/// The directories that were read, once `n` were.
spec fn dirs_read(
    tree: spec_fn(Seq<char>) -> Seq<Found>,
    ignore: Option<&IgnoreSet>,
    n: nat,
) -> Seq<Seq<char>>
    decreases n,
{
    if n == 0 {
        Seq::empty()
    } else {
        let l = after_dirs(tree, ignore, (n - 1) as nat);
        let before = dirs_read(tree, ignore, (n - 1) as nat);
        if l.pending.len() == 0 {
            before
        } else {
            before.push(l.pending.last())
        }
    }
}

proof fn lemma_listing_is_tidy(
    tree: spec_fn(Seq<char>) -> Seq<Found>,
    ignore: Option<&IgnoreSet>,
    n: nat,
)
    requires
        forall|d: Seq<char>| is_content(#[trigger] tree(d)),
    ensures
        is_tidy(after_dirs(tree, ignore, n), dirs_read(tree, ignore, n)),
    decreases n,
{
    if n > 0 {
        let l = after_dirs(tree, ignore, (n - 1) as nat);
        let read = dirs_read(tree, ignore, (n - 1) as nat);
        lemma_listing_is_tidy(tree, ignore, (n - 1) as nat);
        if l.pending.len() > 0 {
            let at = l.pending.len() - 1;
            let dir = l.pending.last();
            let popped = Listing { pending: l.pending.drop_last(), ..l };
            let grown = read.push(dir);
            assert(l.pending[at] == dir);
            assert(l.pending.contains(dir));
            assert(grown[read.len() as int] == dir);
            assert forall|d: Seq<char>| #[trigger] grown.contains(d) <==> (read.contains(d) || d
                == dir) by {
                if read.contains(d) {
                    let k = choose|k: int| 0 <= k < read.len() && read[k] == d;
                    assert(grown[k] == d);
                }
                if grown.contains(d) {
                    let k = choose|k: int| 0 <= k < grown.len() && grown[k] == d;
                    if k < read.len() {
                        assert(read[k] == d);
                    }
                }
            }
            assert forall|d: Seq<char>| #[trigger] popped.pending.contains(d) implies
                l.pending.contains(d) && d != dir by {
                let k = choose|k: int| 0 <= k < popped.pending.len() && popped.pending[k] == d;
                assert(l.pending[k] == d);
            }
            assert forall|i: int| 0 <= i < popped.entries.len() implies is_in_some(
                grown,
                (#[trigger] popped.entries[i]).rel_path,
            ) by {
                assert(is_in_some(read, l.entries[i].rel_path));
                let (e, name) = choose|e: Seq<char>, name: Seq<char>|
                    read.contains(e) && is_name(name) && l.entries[i].rel_path
                        == #[trigger] path::under(e, name);
                assert(grown.contains(e));
            }
            assert(is_tidy(popped, grown));
            lemma_tidy_is_dir_text(l, read, dir);
            assert forall|name: Seq<char>| is_name(name) implies !scan::lists(
                l.entries,
                #[trigger] path::under(dir, name),
            ) by {
                let p = path::under(dir, name);
                if scan::lists(l.entries, p) {
                    let i = choose|i: int|
                        0 <= i < l.entries.len() && (#[trigger] l.entries[i]).rel_path == p;
                    assert(is_in_some(read, l.entries[i].rel_path));
                    let (e, other) = choose|e: Seq<char>, other: Seq<char>|
                        read.contains(e) && is_name(other) && l.entries[i].rel_path
                            == #[trigger] path::under(e, other);
                    assert(is_root_or_listed(l.entries, e));
                    lemma_tidy_is_dir_text(l, read, e);
                    lemma_under_tells(dir, name, e, other);
                }
            }
            assert(is_content(tree(dir)));
            lemma_noted_is_tidy(popped, grown, dir, tree(dir), ignore);
        }
    } else {
        let first = first_state();
        assert forall|d: Seq<char>| #[trigger] first.pending.contains(d) implies d.len() == 0 by {
            let k = choose|k: int| 0 <= k < first.pending.len() && first.pending[k] == d;
            assert(first.pending[0].len() == 0);
        }
    }
}

/// A listing holds no path twice, if the names in each directory are different.
pub proof fn law_listing_has_no_path_twice(
    tree: spec_fn(Seq<char>) -> Seq<Found>,
    ignore: Option<&IgnoreSet>,
    n: nat,
)
    requires
        forall|d: Seq<char>| is_content(#[trigger] tree(d)),
    ensures
        scan::distinct(after_dirs(tree, ignore, n).entries),
{
    lemma_listing_is_tidy(tree, ignore, n);
}

/// A modification time in milliseconds as seconds and nanoseconds.
pub open spec fn split_time(ms: int) -> (int, int) {
    (ms / 1000, ms % 1000 * 1_000_000)
}

/// A modification time in milliseconds as seconds and nanoseconds.
pub fn split_mtime(mtime_ms: i64) -> (r: (i64, u32))
    ensures
        (r.0 as int, r.1 as int) == split_time(mtime_ms as int),
        r.1 < 1_000_000_000,
{
    let ms: i128 = mtime_ms as i128;
    let shifted: i128 = ms + 0x8000_0000_0000_0000 * 1000;
    proof {
        assert(shifted % 1000 == ms % 1000);
        assert(shifted / 1000 == ms / 1000 + 0x8000_0000_0000_0000);
    }
    let secs: i128 = shifted / 1000 - 0x8000_0000_0000_0000;
    let rest: i128 = shifted % 1000;
    (secs as i64, (rest * 1_000_000) as u32)
}

/// The lowest 64 bits of `n`, as a signed number.
pub open spec fn low_signed(n: nat) -> int {
    let low = n % 0x1_0000_0000_0000_0000;
    if low < 0x8000_0000_0000_0000 {
        low as int
    } else {
        low - 0x1_0000_0000_0000_0000
    }
}

/// The modification time that lies `millis` after 1970, or before.
pub open spec fn time_of(before_epoch: bool, millis: nat) -> int {
    let n = low_signed(millis);
    if before_epoch && n != i64::MIN {
        -n
    } else {
        n
    }
}

/// The modification time that lies `millis` after 1970, or before.
pub fn mtime_ms(before_epoch: bool, millis: u128) -> (r: i64)
    ensures
        r == time_of(before_epoch, millis as nat),
{
    let low: u128 = millis % 0x1_0000_0000_0000_0000;
    let n: i64 = if low < 0x8000_0000_0000_0000 {
        low as i64
    } else {
        (low as i128 - 0x1_0000_0000_0000_0000) as i64
    };
    if before_epoch && n != i64::MIN {
        -n
    } else {
        n
    }
}

/// A modification time that is written and read again is the same.
pub proof fn law_mtime_survives(ms: i64)
    requires
        ms != i64::MIN,
    ensures
        ({
            let (secs, nanos) = split_time(ms as int);
            &&& 0 <= nanos < 1_000_000_000
            &&& secs * 1_000_000_000 + nanos == ms * 1_000_000
        }),
        time_of(
            ms < 0,
            if ms < 0 {
                (-ms) as nat
            } else {
                ms as nat
            },
        ) == ms,
{
}

/// The permission bits to set: none are set if they are not known.
pub fn mode_to_set(mode: u32) -> (r: Option<u32>)
    ensures
        r == if mode != 0 {
            Some(mode)
        } else {
            None
        },
{
    if mode != 0 {
        Some(mode)
    } else {
        None
    }
}

/// The directory that holds `path`, if there is one.
pub open spec fn parent(path: Seq<char>) -> Option<Seq<char>> {
    let cs = path::comps(path);
    if cs.len() == 0 || cs.last() == seq!['/'] {
        None
    } else {
        Some(path::joined(cs.drop_last()))
    }
}

/// The directory that holds `path`.
pub fn parent_dir(path: &str) -> (r: Result<String, DsyncError>)
    ensures
        match r {
            Ok(d) => parent(path@) == Some(d@),
            Err(e) => parent(path@) is None && e@ == ErrorView::Other("no parent dir for "@ + path@),
        },
{
    let parts = path::components(path);
    let ghost cs = path::comps(path@);
    proof {
        path::lemma_comps_proper(path@);
        assert(text::views(parts@).len() == parts@.len());
    }
    let n = parts.len();
    if n == 0 {
        return Err(DsyncError::Other(glue("no parent dir for ", path)));
    }
    let last = chars_of(parts[n - 1].as_str());
    assert(cs.last() == parts@[n - 1]@);
    if last.len() == 1 && last[0] == '/' {
        assert(cs.last() =~= seq!['/']);
        return Err(DsyncError::Other(glue("no parent dir for ", path)));
    }
    assert(cs.take(n - 1) =~= cs.drop_last());
    Ok(path::join_components(&parts, n - 1))
}

/// The name of the file that is written before it takes the place of `name`.
pub open spec fn tmp_name(name: Option<Seq<char>>) -> Seq<char> {
    match name {
        Some(n) => ".dsync.tmp."@ + n,
        None => ".dsync.tmp."@ + "file"@,
    }
}

/// Where `path` is written before it is moved into place: beside it.
pub open spec fn tmp_for(path: Seq<char>) -> Seq<char> {
    match path::file_name(path) {
        Some(n) => path::under(path::joined(path::comps(path).drop_last()), tmp_name(Some(n))),
        None => path::under(path, tmp_name(None)),
    }
}

/// Where `path` is written before it is moved into place.
pub fn tmp_path(path: &str) -> (r: String)
    ensures
        r@ == tmp_for(path@),
{
    match path::name_of(path) {
        Some(n) => {
            let parts = path::components(path);
            let ghost cs = path::comps(path@);
            proof {
                path::lemma_comps_proper(path@);
                assert(text::views(parts@).len() == parts@.len());
                assert(cs.take(cs.len() - 1) =~= cs.drop_last());
            }
            let dir = path::join_components(&parts, parts.len() - 1);
            path::join(dir.as_str(), glue(".dsync.tmp.", n.as_str()).as_str())
        },
        None => path::join(path, glue(".dsync.tmp.", "file").as_str()),
    }
}

/// A file is written in the directory that it belongs to, and two files are never written to the
/// same place.
pub proof fn law_files_are_written_apart(p: Seq<char>, q: Seq<char>)
    requires
        path::file_name(p) is Some,
        path::file_name(q) is Some,
    ensures
        path::comps(tmp_for(p)) == path::comps(p).drop_last().push(
            tmp_name(path::file_name(p)),
        ),
        path::comps(tmp_for(p)) == path::comps(tmp_for(q)) ==> path::comps(p) == path::comps(q),
{
    lemma_tmp_comps(p);
    lemma_tmp_comps(q);
    let a = path::comps(p);
    let b = path::comps(q);
    if path::comps(tmp_for(p)) == path::comps(tmp_for(q)) {
        let x = a.drop_last().push(".dsync.tmp."@ + a.last());
        let y = b.drop_last().push(".dsync.tmp."@ + b.last());
        assert(x =~= y);
        assert(x.last() == y.last());
        assert(x.drop_last() =~= a.drop_last());
        assert(y.drop_last() =~= b.drop_last());
        let n = ".dsync.tmp."@.len() as int;
        assert((".dsync.tmp."@ + a.last()).skip(n) =~= a.last());
        assert((".dsync.tmp."@ + b.last()).skip(n) =~= b.last());
        assert(a =~= a.drop_last().push(a.last()));
        assert(b =~= b.drop_last().push(b.last()));
    }
}

proof fn lemma_tmp_comps(p: Seq<char>)
    requires
        path::file_name(p) is Some,
    ensures
        path::comps(tmp_for(p)) == path::comps(p).drop_last().push(
            tmp_name(path::file_name(p)),
        ),
{
    let cs = path::comps(p);
    let head = cs.drop_last();
    let name = tmp_name(path::file_name(p));
    path::lemma_comps_proper(p);
    path::lemma_proper_take(cs, cs.len() - 1);
    assert(cs.take(cs.len() - 1) =~= head);
    reveal_strlit(".dsync.tmp.");
    assert(name[0] == '.' && name[1] == 'd');
    assert(!name.contains('/')) by {
        let i = cs.len() - 1;
        assert(cs[i] == cs.last());
        assert(!cs[i].contains('/'));
        if name.contains('/') {
            let k = choose|k: int| 0 <= k < name.len() && name[k] == '/';
            if k < 11 {
                assert(name[k] == ".dsync.tmp."@[k]);
            } else {
                assert(cs.last()[k - 11] == '/');
            }
        }
    }
    if head.len() == 0 {
        assert(path::joined(head).len() == 0);
        assert(tmp_for(p) =~= name);
        path::lemma_single(name);
        assert(head.push(name) =~= seq![name]);
    } else {
        path::lemma_comps_joined(head);
        path::lemma_comps_under(path::joined(head), name);
    }
}


/// What is found in a directory is listed under the directory's path, a slash and its name, with the
/// time, the kind and the permissions that were found, and the length if it is a file.
pub proof fn law_entries_say_what_was_found(dir: Seq<char>, found: Found)
    requires
        is_name(found.name@),
        dir.len() > 0 ==> dir[dir.len() - 1] != '/',
    ensures
        dir.len() == 0 ==> entry_of(dir, found).rel_path == found.name@,
        dir.len() > 0 ==> entry_of(dir, found).rel_path == dir + seq!['/'] + found.name@,
        found.kind == EntryKind::File ==> entry_of(dir, found).len == found.len,
        found.kind != EntryKind::File ==> entry_of(dir, found).len == 0,
        entry_of(dir, found).mtime == found.mtime,
        entry_of(dir, found).kind == found.kind,
        entry_of(dir, found).mode == found.mode,
{
    let name = found.name@;
    assert(name[0] != '/') by {
        assert(name.contains(name[0]));
    }
    path::law_path_below_a_directory(dir, name);
}

/// What is found is listed unless the rules keep it out, and only directories that are listed are
/// read; nothing that was listed before changes.
pub proof fn law_found_things_are_listed(
    l: Listing,
    dir: Seq<char>,
    found: Found,
    ignore: Option<&IgnoreSet>,
    set: &IgnoreSet,
)
    ensures
        is_left_out(entry_of(dir, found).rel_path, found.kind == EntryKind::Dir, ignore) ==> noted(
            l,
            dir,
            found,
            ignore,
        ) == l,
        !is_left_out(entry_of(dir, found).rel_path, found.kind == EntryKind::Dir, ignore) ==> noted(
            l,
            dir,
            found,
            ignore,
        ).entries == l.entries.push(entry_of(dir, found)),
        !is_left_out(entry_of(dir, found).rel_path, found.kind == EntryKind::Dir, ignore)
            && found.kind == EntryKind::Dir ==> noted(l, dir, found, ignore).pending
            == l.pending.push(entry_of(dir, found).rel_path),
        found.kind != EntryKind::Dir ==> noted(l, dir, found, ignore).pending == l.pending,
        is_left_out(entry_of(dir, found).rel_path, found.kind == EntryKind::Dir, Some(set))
            <==> set.ignores(entry_of(dir, found).rel_path, found.kind == EntryKind::Dir),
{
}

/// Without rules everything is listed but the configuration directory and what is in it.
pub proof fn law_without_rules_only_the_configuration_stays_out(rel: Seq<char>, is_dir: bool)
    ensures
        is_left_out(rel, is_dir, None) <==> path::comps(rel).len() > 0 && path::comps(rel)[0]
            == ".dsync"@,
{
    reveal_strlit(".dsync");
    let d = ".dsync"@;
    assert(!d.contains('/'));
    path::lemma_single(d);
    let cs = path::comps(rel);
    let one = seq![d];
    assert(path::comps(d) == one);
    if cs.len() > 0 && cs[0] == d {
        assert(cs.subrange(0, 1) =~= one);
    }
    if one.is_prefix_of(cs) {
        assert(cs.subrange(0, 1)[0] == one[0]);
    }
}

/// The directory that holds a path is the path without its last name.
pub proof fn law_parent_is_the_path_without_its_name(p: Seq<char>, name: Seq<char>)
    requires
        p.len() > 0,
        name.len() > 0,
        !name.contains('/'),
        name != seq!['.'],
    ensures
        parent(p + seq!['/'] + name) == Some(path::normal(p)),
        parent(name) == Some(Seq::<char>::empty()),
        parent(seq!['/']) is None,
        parent(Seq::<char>::empty()) is None,
{
    path::law_name_is_one_component_more(p, name);
    assert(path::comps(p).push(name).drop_last() =~= path::comps(p));
    assert(name != seq!['/']) by {
        if name == seq!['/'] {
            assert(name[0] == '/');
            assert(name.contains(name[0]));
        }
    }
    let one = seq![name];
    assert(one.drop_last() =~= Seq::<Seq<char>>::empty());
}

/// A file is first written beside its place, under its name with `.dsync.tmp.` before it.
pub proof fn law_files_are_first_written_beside_their_place(p: Seq<char>, name: Seq<char>)
    requires
        p.len() > 0,
        name.len() > 0,
        !name.contains('/'),
        name != seq!['.'],
        name != seq!['.', '.'],
    ensures
        tmp_for(p + seq!['/'] + name) == path::under(path::normal(p), ".dsync.tmp."@ + name),
        tmp_for(name) == ".dsync.tmp."@ + name,
{
    path::law_name_is_the_last_component(p, name);
    path::law_name_is_one_component_more(p, name);
    assert(path::comps(p).push(name).drop_last() =~= path::comps(p));
    let one = seq![name];
    assert(one.drop_last() =~= Seq::<Seq<char>>::empty());
    reveal_strlit(".dsync.tmp.");
    let t = ".dsync.tmp."@ + name;
    assert(t[0] == '.');
    path::law_path_below_a_directory(Seq::<char>::empty(), t);
}

/// A time too far away keeps its lowest 64 bits.
pub proof fn law_far_times_keep_their_lowest_bits(n: nat)
    ensures
        i64::MIN <= low_signed(n) <= i64::MAX,
        (n - low_signed(n)) % 0x1_0000_0000_0000_0000 == 0,
        n <= i64::MAX ==> time_of(false, n) == n && time_of(true, n) == -(n as int),
{
    let low = n % 0x1_0000_0000_0000_0000;
    let q = n / 0x1_0000_0000_0000_0000;
    assert(n == q * 0x1_0000_0000_0000_0000 + low);
}

} // verus!
