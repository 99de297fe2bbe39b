//! What a run does to the receiver.
use vstd::prelude::*;

use crate::hash;
use crate::ignore_rules::IgnoreSet;
use crate::path;
use crate::sync;
use crate::sync::plan;
use crate::sync::plan::DigestPair;
use crate::sync::plan::SyncPlan;
use crate::sync::scan;
use crate::sync::scan::Indexed;
use crate::sync::StepView;
use crate::text;
use crate::transport::local;
use crate::transport::local::Found;
use crate::transport::EntryKind;
use crate::transport::EntryView;

verus! {

/// What a side holds: its files with their contents, and its directories. Symbolic links, and the
/// configuration, which no listing shows, do not count.
#[verifier::ext_equal]
pub struct TreeView {
    pub files: Map<Seq<char>, Seq<u8>>,
    pub dirs: Set<Seq<char>>,
}

impl TreeView {
    /// Whether there is something at `p`.
    pub open spec fn has(self, p: Seq<char>) -> bool {
        self.files.contains_key(p) || self.dirs.contains(p)
    }

    /// Whether nothing lies below `p`.
    pub open spec fn is_clear(self, p: Seq<char>) -> bool {
        forall|q: Seq<char>| #[trigger] path::lies_below(q, p) ==> !self.has(q)
    }

    /// The tree without what stands at `p`. A directory that holds something stays.
    pub open spec fn removed(self, p: Seq<char>) -> TreeView {
        TreeView {
            files: self.files.remove(p),
            dirs: if self.is_clear(p) {
                self.dirs.remove(p)
            } else {
                self.dirs
            },
        }
    }

    /// Whether every directory above `p` is there.
    pub open spec fn leads_to(self, p: Seq<char>) -> bool {
        forall|q: Seq<char>| #[trigger]
            is_above(q, p) ==> self.dirs.contains(q) && !self.files.contains_key(q)
    }
}

/// Whether `q` is the plain path of a directory above `p`, other than the root of the tree.
pub open spec fn is_above(q: Seq<char>, p: Seq<char>) -> bool {
    path::normal(q) == q && path::comps(q).len() > 0 && path::lies_below(p, q)
}

/// The receiver after one step. `source` is what the sender's files hold.
pub open spec fn after_step(
    tree: TreeView,
    step: StepView,
    source: Map<Seq<char>, Seq<u8>>,
) -> TreeView {
    match step {
        StepView::Remove(p) => tree.removed(p),
        StepView::Mkdir(p, _) => TreeView { dirs: tree.dirs.insert(p), ..tree },
        StepView::Transfer(items) => {
            let paths = plan::item_paths(items);
            TreeView {
                files: Map::new(
                    |p: Seq<char>| tree.files.contains_key(p) || paths.contains(p),
                    |p: Seq<char>|
                        if paths.contains(p) {
                            source[p]
                        } else {
                            tree.files[p]
                        },
                ),
                dirs: tree.dirs,
            }
        },
        StepView::Delete(p) => tree.removed(p),
        StepView::Prune(p) => tree.removed(p),
    }
}

/// Whether a step can be done on the tree: a directory can be removed only when nothing lies below
/// it, and a directory or a file can be created only where nothing of the other kind stands, in
/// directories that are there. A try to remove a directory may come to nothing.
pub open spec fn works(tree: TreeView, step: StepView) -> bool {
    match step {
        StepView::Remove(p) => tree.dirs.contains(p) ==> tree.is_clear(p),
        StepView::Mkdir(p, _) => !tree.files.contains_key(p) && tree.leads_to(p),
        StepView::Transfer(items) => forall|p: Seq<char>| #[trigger]
            plan::item_paths(items).contains(p) ==> !tree.dirs.contains(p) && tree.leads_to(p),
        StepView::Delete(p) => tree.dirs.contains(p) ==> tree.is_clear(p),
        StepView::Prune(_) => true,
    }
}

/// The receiver after all the steps.
pub open spec fn after_steps(
    tree: TreeView,
    steps: Seq<StepView>,
    source: Map<Seq<char>, Seq<u8>>,
) -> TreeView
    decreases steps.len(),
{
    if steps.len() == 0 {
        tree
    } else {
        after_step(after_steps(tree, steps.drop_last(), source), steps.last(), source)
    }
}

/// Whether each of the steps can be done when its turn comes.
pub open spec fn goes_through(
    tree: TreeView,
    steps: Seq<StepView>,
    source: Map<Seq<char>, Seq<u8>>,
) -> bool
    decreases steps.len(),
{
    steps.len() == 0 || {
        &&& goes_through(tree, steps.drop_last(), source)
        &&& works(after_steps(tree, steps.drop_last(), source), steps.last())
    }
}

/// Whether no path is listed both as a file and as a directory.
pub open spec fn one_kind(tree: &Indexed) -> bool {
    forall|p: Seq<char>|
        !(#[trigger] tree.files@.contains_key(p) && tree.dirs@.contains_key(p))
}

/// Whether `p` is listed.
pub open spec fn is_listed(tree: &Indexed, p: Seq<char>) -> bool {
    tree.files@.contains_key(p) || tree.dirs@.contains_key(p)
}

/// Whether the listing is one of a tree: every path has one kind and a name, and the directories
/// above it are listed too.
pub open spec fn is_tree(tree: &Indexed) -> bool {
    &&& one_kind(tree)
    &&& forall|p: Seq<char>| #[trigger] is_listed(tree, p) ==> path::comps(p).len() > 0
    &&& forall|p: Seq<char>, q: Seq<char>|
        #![trigger is_above(q, p)]
        is_listed(tree, p) && is_above(q, p) ==> tree.dirs@.contains_key(q)
}

/// A path of a finished listing is plain and has a name, and the directories above it are listed.
proof fn lemma_listed_path(
    tree: spec_fn(Seq<char>) -> Seq<Found>,
    ignore: Option<&IgnoreSet>,
    n: nat,
    p: Seq<char>,
)
    requires
        forall|d: Seq<char>| local::is_content(#[trigger] tree(d)),
        forall|d: Seq<char>, k: int|
            0 <= k < tree(d).len() ==> (#[trigger] tree(d)[k]).name@ != seq!['.'],
        local::after_dirs(tree, ignore, n).pending.len() == 0,
        scan::lists(local::after_dirs(tree, ignore, n).entries, p),
    ensures
        path::normal(p) == p,
        path::comps(p).len() > 0,
        p.last() != '/',
        forall|q: Seq<char>| #[trigger]
            is_above(q, p) ==> local::is_listed_dir(
                local::after_dirs(tree, ignore, n).entries,
                q,
            ),
    decreases p.len(),
{
    let entries = local::after_dirs(tree, ignore, n).entries;
    let i = choose|i: int| 0 <= i < entries.len() && (#[trigger] entries[i]).rel_path == p;
    let e = entries[i];
    assert(entries.contains(e));
    local::law_listing_is_complete(tree, ignore, n, e);
    let d = choose|d: Seq<char>| #[trigger]
        local::is_listed_dir(entries, d) && local::stems_from(e, d, tree(d), ignore);
    let content = tree(d);
    let k = choose|k: int|
        0 <= k < content.len() && !local::skips(d, #[trigger] content[k], ignore) && e
            == local::entry_of(d, content[k]);
    let name = content[k].name@;
    assert(local::is_content(tree(d)));
    assert(local::is_name(name));
    assert(tree(d)[k].name@ != seq!['.']);
    assert(!path::rooted(name)) by {
        if path::rooted(name) {
            assert(name.contains('/'));
        }
    }
    assert(name.contains(name.last()));
    assert(p.last() == name.last());
    if d.len() == 0 {
        assert(p =~= name);
        path::lemma_single(name);
    } else {
        let j = choose|j: int|
            0 <= j < entries.len() && (#[trigger] entries[j]).rel_path == d && entries[j].kind
                == EntryKind::Dir;
        assert(scan::lists(entries, d));
        lemma_listed_path(tree, ignore, n, d);
        path::lemma_comps_under(d, name);
        let cd = path::comps(d);
        let cp = path::comps(p);
        assert(cp == cd.push(name));
        assert(cp.drop_last() =~= cd);
        assert forall|q: Seq<char>| #[trigger] is_above(q, p) implies local::is_listed_dir(
            entries,
            q,
        ) by {
            let cq = path::comps(q);
            assert(cq =~= cd.take(cq.len() as int)) by {
                assert(cq =~= cp.take(cq.len() as int));
            }
            if cq.len() == cd.len() {
                assert(cq =~= cd);
                assert(q == d);
            } else {
                assert(is_above(q, d));
            }
        }
    }
}

/// What is made of a finished listing is a tree, if the names in each directory are different and
/// none of them stands for the directory itself.
pub proof fn law_listing_is_a_tree(
    tree: spec_fn(Seq<char>) -> Seq<Found>,
    ignore: Option<&IgnoreSet>,
    n: nat,
    listed: &Indexed,
)
    requires
        forall|d: Seq<char>| local::is_content(#[trigger] tree(d)),
        forall|d: Seq<char>, k: int|
            0 <= k < tree(d).len() ==> (#[trigger] tree(d)[k]).name@ != seq!['.'],
        local::after_dirs(tree, ignore, n).pending.len() == 0,
        listed.files@ == scan::latest(
            local::after_dirs(tree, ignore, n).entries,
            EntryKind::File,
        ),
        listed.dirs@ == scan::latest(local::after_dirs(tree, ignore, n).entries, EntryKind::Dir),
    ensures
        is_tree(listed),
{
    let entries = local::after_dirs(tree, ignore, n).entries;
    local::law_listing_has_no_path_twice(tree, ignore, n);
    assert forall|p: Seq<char>|
        !(#[trigger] listed.files@.contains_key(p) && listed.dirs@.contains_key(p)) by {
        if listed.files@.contains_key(p) && listed.dirs@.contains_key(p) {
            let i = scan::lemma_latest_comes_from(entries, EntryKind::File, p);
            let j = scan::lemma_latest_comes_from(entries, EntryKind::Dir, p);
            lemma_listed_path(tree, ignore, n, entries[i].rel_path);
            lemma_listed_path(tree, ignore, n, entries[j].rel_path);
            if i < j {
                assert(entries[i].rel_path != entries[j].rel_path);
            } else if j < i {
                assert(entries[j].rel_path != entries[i].rel_path);
            }
        }
    }
    assert forall|p: Seq<char>| #[trigger] is_listed(listed, p) implies {
        &&& path::comps(p).len() > 0
        &&& forall|q: Seq<char>| #[trigger] is_above(q, p) ==> listed.dirs@.contains_key(q)
    } by {
        let kind = if listed.files@.contains_key(p) {
            EntryKind::File
        } else {
            EntryKind::Dir
        };
        let i = scan::lemma_latest_comes_from(entries, kind, p);
        lemma_listed_path(tree, ignore, n, entries[i].rel_path);
        assert forall|q: Seq<char>| #[trigger] is_above(q, p) implies listed.dirs@.contains_key(
            q,
        ) by {
            assert(local::is_listed_dir(entries, q));
            assert(q.len() > 0) by {
                if q.len() == 0 {
                    assert(q =~= path::joined(Seq::empty()));
                    path::lemma_comps_joined(Seq::empty());
                }
            }
            let k = choose|k: int|
                0 <= k < entries.len() && (#[trigger] entries[k]).rel_path == q && entries[k].kind
                    == EntryKind::Dir;
            scan::lemma_latest_has(entries, EntryKind::Dir, k);
        }
    }
}

/// Whether the listing shows what there is.
pub open spec fn shows(tree: &Indexed, there: TreeView) -> bool {
    &&& forall|p: Seq<char>| #[trigger]
        there.files.contains_key(p) <==> tree.files@.contains_key(p)
    &&& forall|p: Seq<char>| #[trigger] there.dirs.contains(p) <==> tree.dirs@.contains_key(p)
}

/// Whether every directory of the receiver that gives way to a file can be emptied: what lies
/// below it goes, since extraneous files are to go and it is not ignored.
pub open spec fn clearable(
    sender: &Indexed,
    receiver: &Indexed,
    ignore: &IgnoreSet,
    delete: bool,
) -> bool {
    forall|top: Seq<char>, p: Seq<char>| #[trigger]
        path::lies_below(p, top) && sender.files@.contains_key(top) && receiver.dirs@.contains_key(
            top,
        ) ==> {
            &&& receiver.files@.contains_key(p) ==> delete && !ignore.ignores(p, false)
            &&& receiver.dirs@.contains_key(p) ==> delete && !ignore.ignores(p, true)
        }
}

proof fn lemma_after_append(
    tree: TreeView,
    a: Seq<StepView>,
    b: Seq<StepView>,
    source: Map<Seq<char>, Seq<u8>>,
)
    ensures
        after_steps(tree, a + b, source) == after_steps(after_steps(tree, a, source), b, source),
        goes_through(tree, a + b, source) <==> goes_through(tree, a, source) && goes_through(
            after_steps(tree, a, source),
            b,
            source,
        ),
    decreases b.len(),
{
    if b.len() == 0 {
        assert(a + b =~= a);
    } else {
        assert((a + b).drop_last() =~= a + b.drop_last());
        assert((a + b).last() == b.last());
        lemma_after_append(tree, a, b.drop_last(), source);
    }
}

proof fn lemma_push_contains(list: Seq<Seq<char>>, p: Seq<char>)
    requires
        list.len() > 0,
    ensures
        list.contains(p) <==> (list.drop_last().contains(p) || p == list.last()),
{
    let head = list.drop_last();
    if list.contains(p) {
        let k = choose|k: int| 0 <= k < list.len() && list[k] == p;
        if k < head.len() {
            assert(head[k] == p);
        }
    }
    if head.contains(p) {
        let k = choose|k: int| 0 <= k < head.len() && head[k] == p;
        assert(list[k] == p);
    }
    assert(list[list.len() - 1] == list.last());
}

/// What lies below a path that lies below a third lies below the third.
proof fn lemma_below_below(p: Seq<char>, q: Seq<char>, top: Seq<char>)
    requires
        path::lies_below(p, q),
        path::lies_below(q, top),
    ensures
        path::lies_below(p, top),
{
    let cp = path::comps(p);
    let cq = path::comps(q);
    let ct = path::comps(top);
    assert(ct =~= cp.take(ct.len() as int)) by {
        assert forall|i: int| 0 <= i < ct.len() implies ct[i] == cp[i] by {
            assert(cq.take(ct.len() as int)[i] == cq[i]);
            assert(cp.take(cq.len() as int)[i] == cp[i]);
        }
    }
}

/// Which of the paths are picked.
proof fn lemma_picked(list: Seq<Seq<char>>, tops: Seq<Seq<char>>, under: bool)
    ensures
        forall|p: Seq<char>| #[trigger]
            sync::picked(list, tops, under).contains(p) <==> list.contains(p) && sync::below_any(
                tops,
                p,
            ) == under,
        plan::deep_first(list) ==> plan::deep_first(sync::picked(list, tops, under)),
    decreases list.len(),
{
    let some = sync::picked(list, tops, under);
    if list.len() > 0 {
        let head = list.drop_last();
        let before = sync::picked(head, tops, under);
        lemma_picked(head, tops, under);
        assert forall|p: Seq<char>| #[trigger] some.contains(p) <==> list.contains(p)
            && sync::below_any(tops, p) == under by {
            lemma_push_contains(list, p);
            if sync::below_any(tops, list.last()) == under {
                assert(some.drop_last() =~= before);
                lemma_push_contains(some, p);
            }
        }
        if plan::deep_first(list) {
            assert(plan::deep_first(head)) by {
                assert forall|i: int, j: int| 0 <= i < j < head.len() implies path::comps(
                    #[trigger] head[i],
                ).len() >= path::comps(#[trigger] head[j]).len() by {
                    assert(head[i] == list[i] && head[j] == list[j]);
                }
            }
            assert forall|i: int, j: int| 0 <= i < j < some.len() implies path::comps(
                #[trigger] some[i],
            ).len() >= path::comps(#[trigger] some[j]).len() by {
                assert(some[i] == before[i]);
                if j < before.len() {
                    assert(some[j] == before[j]);
                } else {
                    assert(before.contains(before[i]));
                    let k = choose|k: int| 0 <= k < head.len() && head[k] == before[i];
                    assert(list[k] == some[i]);
                    assert(list[list.len() - 1] == some[j]);
                }
            }
        }
    } else {
        assert forall|p: Seq<char>| !(#[trigger] some.contains(p)) && !list.contains(p) by {}
    }
}

/// Whether the step takes away what stands at `p`.
spec fn takes(step: StepView, p: Seq<char>) -> bool {
    step == StepView::Remove(p) || step == StepView::Delete(p) || step == StepView::Prune(p)
}

/// Whether each of the steps takes away what stands at one of the paths.
spec fn takes_away(steps: Seq<StepView>, list: Seq<Seq<char>>) -> bool {
    &&& steps.len() == list.len()
    &&& forall|i: int| 0 <= i < list.len() ==> takes(#[trigger] steps[i], list[i])
}

proof fn lemma_takes_away_head(steps: Seq<StepView>, list: Seq<Seq<char>>)
    requires
        takes_away(steps, list),
        steps.len() > 0,
    ensures
        takes_away(steps.drop_last(), list.drop_last()),
        takes(steps.last(), list.last()),
{
    let head = list.drop_last();
    assert forall|i: int| 0 <= i < head.len() implies takes(
        #[trigger] steps.drop_last()[i],
        head[i],
    ) by {
        assert(takes(steps[i], list[i]));
    }
    assert(takes(steps[steps.len() - 1], list[list.len() - 1]));
}

/// Steps that take paths away leave the rest as it is.
proof fn lemma_after_removals(
    tree: TreeView,
    steps: Seq<StepView>,
    list: Seq<Seq<char>>,
    source: Map<Seq<char>, Seq<u8>>,
)
    requires
        takes_away(steps, list),
    ensures
        forall|p: Seq<char>| #[trigger]
            after_steps(tree, steps, source).files.contains_key(p) <==> (tree.files.contains_key(p)
                && !list.contains(p)),
        forall|p: Seq<char>|
            tree.files.contains_key(p) && !list.contains(p) ==> #[trigger] after_steps(
                tree,
                steps,
                source,
            ).files[p] == tree.files[p],
        forall|p: Seq<char>| #[trigger]
            after_steps(tree, steps, source).dirs.contains(p) ==> tree.dirs.contains(p),
        forall|p: Seq<char>|
            tree.dirs.contains(p) && !list.contains(p) ==> #[trigger] after_steps(
                tree,
                steps,
                source,
            ).dirs.contains(p),
    decreases steps.len(),
{
    if steps.len() > 0 {
        let head = list.drop_last();
        lemma_takes_away_head(steps, list);
        lemma_after_removals(tree, steps.drop_last(), head, source);
        assert forall|p: Seq<char>| #[trigger] list.contains(p) <==> (head.contains(p) || p
            == list.last()) by {
            lemma_push_contains(list, p);
        }
        let before = after_steps(tree, steps.drop_last(), source);
        let after = after_steps(tree, steps, source);
        assert(after == before.removed(list.last()));
        assert forall|p: Seq<char>|
            tree.files.contains_key(p) && !list.contains(p) implies #[trigger] after.files[p]
            == tree.files[p] by {
            assert(!head.contains(p));
            assert(before.files[p] == tree.files[p]);
        }
        assert forall|p: Seq<char>|
            tree.dirs.contains(p) && !list.contains(p) implies #[trigger] after.dirs.contains(p) by {
            assert(!head.contains(p));
            assert(before.dirs.contains(p));
        }
        assert forall|p: Seq<char>| #[trigger] after.dirs.contains(p) implies tree.dirs.contains(
            p,
        ) by {
            assert(before.dirs.contains(p));
        }
    } else {
        assert forall|p: Seq<char>| !(#[trigger] list.contains(p)) by {}
    }
}

/// A path that is clear stays so while steps only take paths away.
proof fn lemma_stays_clear(
    tree: TreeView,
    steps: Seq<StepView>,
    list: Seq<Seq<char>>,
    source: Map<Seq<char>, Seq<u8>>,
    p: Seq<char>,
)
    requires
        takes_away(steps, list),
        tree.is_clear(p),
    ensures
        after_steps(tree, steps, source).is_clear(p),
{
    lemma_after_removals(tree, steps, list, source);
    let after = after_steps(tree, steps, source);
    assert forall|q: Seq<char>| #[trigger] path::lies_below(q, p) implies !after.has(q) by {
        assert(!tree.has(q));
    }
}

/// Whether the directories among the paths are clear.
spec fn all_clear(tree: TreeView, list: Seq<Seq<char>>) -> bool {
    forall|p: Seq<char>| #[trigger] list.contains(p) && tree.dirs.contains(p) ==> tree.is_clear(p)
}

/// Removals go through where every directory among the paths is clear, and then none is left.
proof fn lemma_removals_go_through(
    tree: TreeView,
    steps: Seq<StepView>,
    list: Seq<Seq<char>>,
    source: Map<Seq<char>, Seq<u8>>,
)
    requires
        takes_away(steps, list),
        forall|i: int| 0 <= i < steps.len() ==> !(#[trigger] steps[i] is Prune),
    ensures
        all_clear(tree, list) ==> goes_through(tree, steps, source),
        goes_through(tree, steps, source) ==> forall|p: Seq<char>| #[trigger]
            list.contains(p) ==> !after_steps(tree, steps, source).dirs.contains(p),
    decreases steps.len(),
{
    if steps.len() > 0 {
        let head = list.drop_last();
        let last = list.last();
        lemma_takes_away_head(steps, list);
        assert forall|i: int| 0 <= i < steps.len() - 1 implies !(
        #[trigger] steps.drop_last()[i] is Prune) by {
            assert(!(steps[i] is Prune));
        }
        assert(!(steps[steps.len() - 1] is Prune));
        lemma_removals_go_through(tree, steps.drop_last(), head, source);
        lemma_after_removals(tree, steps.drop_last(), head, source);
        assert forall|p: Seq<char>| #[trigger] list.contains(p) <==> (head.contains(p) || p
            == last) by {
            lemma_push_contains(list, p);
        }
        let before = after_steps(tree, steps.drop_last(), source);
        let after = after_steps(tree, steps, source);
        assert(after == before.removed(last));
        if all_clear(tree, list) {
            assert(all_clear(tree, head)) by {
                assert forall|p: Seq<char>| #[trigger]
                    head.contains(p) && tree.dirs.contains(p) implies tree.is_clear(p) by {
                    assert(list.contains(p));
                }
            }
            assert(list.contains(last));
            if before.dirs.contains(last) {
                assert(tree.dirs.contains(last));
                lemma_stays_clear(tree, steps.drop_last(), head, source, last);
            }
            assert(works(before, steps.last()));
        }
        if goes_through(tree, steps, source) {
            assert(works(before, steps.last()));
            assert forall|p: Seq<char>| #[trigger] list.contains(p) implies !after.dirs.contains(
                p,
            ) by {
                if p != last {
                    assert(head.contains(p));
                    assert(!before.dirs.contains(p));
                }
            }
        }
    } else {
        assert forall|p: Seq<char>| !(#[trigger] list.contains(p)) by {}
    }
}

/// Tries to remove directories, what they hold before themselves, leave those below which
/// something lies, and no others.
proof fn lemma_after_prunings(
    tree: TreeView,
    list: Seq<Seq<char>>,
    source: Map<Seq<char>, Seq<u8>>,
)
    requires
        plan::deep_first(list),
    ensures
        goes_through(tree, sync::prunings(list), source),
        forall|p: Seq<char>| #[trigger]
            list.contains(p) && tree.dirs.contains(p) ==> (after_steps(
                tree,
                sync::prunings(list),
                source,
            ).dirs.contains(p) <==> !after_steps(tree, sync::prunings(list), source).is_clear(p)),
    decreases list.len(),
{
    let steps = sync::prunings(list);
    if list.len() > 0 {
        let head = list.drop_last();
        let last = list.last();
        assert(plan::deep_first(head)) by {
            assert forall|i: int, j: int| 0 <= i < j < head.len() implies path::comps(
                #[trigger] head[i],
            ).len() >= path::comps(#[trigger] head[j]).len() by {
                assert(head[i] == list[i] && head[j] == list[j]);
            }
        }
        lemma_after_prunings(tree, head, source);
        assert(steps.drop_last() =~= sync::prunings(head));
        let before = after_steps(tree, sync::prunings(head), source);
        let after = after_steps(tree, steps, source);
        assert(after == before.removed(last));
        assert(takes_away(sync::prunings(head), head));
        lemma_after_removals(tree, sync::prunings(head), head, source);
        assert forall|p: Seq<char>| #[trigger]
            list.contains(p) && tree.dirs.contains(p) implies (after.dirs.contains(p)
            <==> !after.is_clear(p)) by {
            lemma_push_contains(list, p);
            // nothing below p is taken away by the last try
            let n = list.len() - 1;
            let k = choose|k: int| 0 <= k < list.len() && list[k] == p;
            assert(list[n] == last);
            assert(path::comps(p).len() >= path::comps(last).len());
            assert(before.is_clear(p) == after.is_clear(p)) by {
                assert forall|q: Seq<char>| #[trigger] path::lies_below(q, p) implies before.has(q)
                    == after.has(q) by {
                    assert(q != last);
                }
            }
            if p == last && !head.contains(p) {
                assert(before.dirs.contains(p));
            }
        }
    }
}

/// A directory goes if everything that lies below it, and itself, is tried, what they hold before
/// themselves.
proof fn lemma_prunings_clear(
    tree: TreeView,
    list: Seq<Seq<char>>,
    source: Map<Seq<char>, Seq<u8>>,
    top: Seq<char>,
)
    requires
        plan::deep_first(list),
        forall|p: Seq<char>| #[trigger]
            path::lies_below(p, top) ==> !tree.files.contains_key(p) && (tree.dirs.contains(p)
                ==> list.contains(p)),
    ensures
        after_steps(tree, sync::prunings(list), source).is_clear(top),
    decreases list.len(),
{
    let steps = sync::prunings(list);
    let after = after_steps(tree, steps, source);
    if list.len() > 0 {
        let head = list.drop_last();
        let last = list.last();
        assert(plan::deep_first(head)) by {
            assert forall|i: int, j: int| 0 <= i < j < head.len() implies path::comps(
                #[trigger] head[i],
            ).len() >= path::comps(#[trigger] head[j]).len() by {
                assert(head[i] == list[i] && head[j] == list[j]);
            }
        }
        assert(steps.drop_last() =~= sync::prunings(head));
        let before = after_steps(tree, sync::prunings(head), source);
        assert(after == before.removed(last));
        assert(takes_away(sync::prunings(head), head));
        assert(takes_away(steps, list));
        lemma_after_removals(tree, sync::prunings(head), head, source);
        lemma_after_removals(tree, steps, list, source);
        assert forall|p: Seq<char>| #[trigger] path::lies_below(p, top) implies !after.has(p) by {
            assert(!tree.files.contains_key(p));
            if tree.dirs.contains(p) {
                lemma_push_contains(list, p);
                // everything below p is tried before the last one
                assert forall|q: Seq<char>| #[trigger] path::lies_below(q, p) implies {
                    &&& !tree.files.contains_key(q)
                    &&& tree.dirs.contains(q) ==> head.contains(q)
                } by {
                    lemma_below_below(q, p, top);
                    lemma_push_contains(list, q);
                    let k = choose|k: int| 0 <= k < list.len() && list[k] == p;
                    assert(list[list.len() - 1] == last);
                    assert(path::comps(p).len() >= path::comps(last).len());
                }
                lemma_prunings_clear(tree, head, source, p);
                if p != last {
                    lemma_after_prunings(tree, head, source);
                    assert(!before.dirs.contains(p));
                }
            }
        }
    } else {
        assert forall|p: Seq<char>| #[trigger] path::lies_below(p, top) implies !after.has(p) by {
            assert(!list.contains(p));
        }
    }
}

/// Creations add the directories and nothing else.
proof fn lemma_after_creations(
    tree: TreeView,
    list: Seq<Seq<char>>,
    sender: &Indexed,
    source: Map<Seq<char>, Seq<u8>>,
)
    ensures
        after_steps(tree, sync::creations(list, sender), source).files == tree.files,
        forall|p: Seq<char>| #[trigger]
            after_steps(tree, sync::creations(list, sender), source).dirs.contains(p)
                <==> tree.dirs.contains(p) || list.contains(p),
    decreases list.len(),
{
    let steps = sync::creations(list, sender);
    if list.len() > 0 {
        let head = list.drop_last();
        lemma_after_creations(tree, head, sender, source);
        assert(steps.drop_last() =~= sync::creations(head, sender));
        let after = after_steps(tree, steps, source);
        assert forall|p: Seq<char>| #[trigger] after.dirs.contains(p) <==> tree.dirs.contains(p)
            || list.contains(p) by {
            lemma_push_contains(list, p);
            assert(after_steps(tree, sync::creations(head, sender), source).dirs.contains(p) <==> (
            tree.dirs.contains(p) || head.contains(p)));
        }
    } else {
        assert forall|p: Seq<char>| !(#[trigger] list.contains(p)) by {}
    }
}

/// Creations go through if no file stands at the paths or above them, and what is above them is
/// there or is created too.
proof fn lemma_creations_go_through(
    tree: TreeView,
    list: Seq<Seq<char>>,
    sender: &Indexed,
    source: Map<Seq<char>, Seq<u8>>,
)
    requires
        plan::shallow_first(list),
        forall|p: Seq<char>| #[trigger] list.contains(p) ==> !tree.files.contains_key(p),
        forall|p: Seq<char>, q: Seq<char>|
            #![trigger is_above(q, p)]
            list.contains(p) && is_above(q, p) ==> !tree.files.contains_key(q) && (
            tree.dirs.contains(q) || list.contains(q)),
    ensures
        goes_through(tree, sync::creations(list, sender), source),
    decreases list.len(),
{
    let steps = sync::creations(list, sender);
    if list.len() > 0 {
        let head = list.drop_last();
        let last = list.last();
        assert(list[list.len() - 1] == last);
        assert forall|p: Seq<char>| #[trigger] list.contains(p) <==> (head.contains(p) || p
            == last) by {
            lemma_push_contains(list, p);
        }
        assert(list.contains(last));
        assert(plan::shallow_first(head)) by {
            assert forall|i: int, j: int| 0 <= i < j < head.len() implies path::comps(
                #[trigger] head[i],
            ).len() <= path::comps(#[trigger] head[j]).len() by {
                assert(head[i] == list[i] && head[j] == list[j]);
            }
        }
        assert forall|p: Seq<char>, q: Seq<char>|
            #![trigger is_above(q, p)]
            list.contains(p) && is_above(q, p) implies !tree.files.contains_key(q) && (
        tree.dirs.contains(q) || head.contains(q)) by {
            if q == last {
                let k = choose|k: int| 0 <= k < list.len() && list[k] == p;
                assert(path::comps(list[k]).len() <= path::comps(list[list.len() - 1]).len());
            }
        }
        assert forall|p: Seq<char>| #[trigger] head.contains(p) implies list.contains(p) by {
            lemma_push_contains(list, p);
        }
        lemma_creations_go_through(tree, head, sender, source);
        lemma_after_creations(tree, head, sender, source);
        assert(steps.drop_last() =~= sync::creations(head, sender));
        let before = after_steps(tree, sync::creations(head, sender), source);
        assert forall|q: Seq<char>| #[trigger] is_above(q, last) implies before.dirs.contains(q)
            && !before.files.contains_key(q) by {}
        assert(works(before, steps.last()));
    }
}

/// The clearings before what has the wrong kind is removed, or those at the end, if there are any.
spec fn clearings_of(
    plan: &SyncPlan,
    prune: Seq<Seq<char>>,
    delete: bool,
    under: bool,
) -> Seq<StepView> {
    if delete {
        sync::clearings(text::views(plan.delete@), prune, text::views(plan.retype@), under)
    } else {
        Seq::empty()
    }
}

/// The receiver after each stage of a run: once what lies below paths of the wrong kind is
/// cleared, once these are removed, once the directories are created, and once the files are
/// transferred.
spec fn stages(
    plan: &SyncPlan,
    sender: &Indexed,
    prune: Seq<Seq<char>>,
    delete: bool,
    before: TreeView,
    source: Map<Seq<char>, Seq<u8>>,
) -> (TreeView, TreeView, TreeView, TreeView) {
    let t1 = after_steps(before, clearings_of(plan, prune, delete, true), source);
    let t2 = after_steps(t1, sync::removals(text::views(plan.retype@)), source);
    let t3 = after_steps(t2, sync::creations(text::views(plan.create_dirs@), sender), source);
    let t4 = after_step(t3, StepView::Transfer(plan.transfer@), source);
    (t1, t2, t3, t4)
}

/// The steps of a run, stage by stage.
proof fn lemma_stages(
    plan: &SyncPlan,
    sender: &Indexed,
    prune: Seq<Seq<char>>,
    delete: bool,
    before: TreeView,
    source: Map<Seq<char>, Seq<u8>>,
)
    ensures
        ({
            let (t1, t2, t3, t4) = stages(plan, sender, prune, delete, before, source);
            let whole = sync::script(plan, sender, prune, delete, false);
            let c1 = clearings_of(plan, prune, delete, true);
            let s1 = sync::removals(text::views(plan.retype@));
            let s2 = sync::creations(text::views(plan.create_dirs@), sender);
            let c2 = clearings_of(plan, prune, delete, false);
            &&& after_steps(before, whole, source) == after_steps(t4, c2, source)
            &&& goes_through(before, whole, source) <==> {
                &&& goes_through(before, c1, source)
                &&& goes_through(t1, s1, source)
                &&& goes_through(t2, s2, source)
                &&& works(t3, StepView::Transfer(plan.transfer@))
                &&& goes_through(t4, c2, source)
            }
        }),
{
    let (t1, t2, t3, t4) = stages(plan, sender, prune, delete, before, source);
    let whole = sync::script(plan, sender, prune, delete, false);
    let c1 = clearings_of(plan, prune, delete, true);
    let s1 = sync::removals(text::views(plan.retype@));
    let s2 = sync::creations(text::views(plan.create_dirs@), sender);
    let s3 = seq![StepView::Transfer(plan.transfer@)];
    let c2 = clearings_of(plan, prune, delete, false);
    assert(s3.drop_last().len() == 0);
    assert(after_steps(t3, s3.drop_last(), source) == t3);
    assert(goes_through(t3, s3.drop_last(), source));
    assert(after_steps(t3, s3, source) == t4);
    lemma_after_append(t1, s1, s2, source);
    lemma_after_append(t1, s1 + s2, s3, source);
    lemma_after_append(before, c1, s1 + s2 + s3, source);
    lemma_after_append(before, c1 + (s1 + s2 + s3), c2, source);
    assert(whole =~= c1 + (s1 + s2 + s3) + c2);
}

/// What clearings of extraneous files and directories do.
proof fn lemma_after_clearings(
    tree: TreeView,
    gone: Seq<Seq<char>>,
    prune: Seq<Seq<char>>,
    tops: Seq<Seq<char>>,
    under: bool,
    source: Map<Seq<char>, Seq<u8>>,
)
    requires
        plan::deep_first(prune),
        forall|p: Seq<char>| #[trigger] gone.contains(p) ==> !tree.dirs.contains(p),
        forall|p: Seq<char>| #[trigger] prune.contains(p) ==> !tree.files.contains_key(p),
    ensures
        ({
            let steps = sync::clearings(gone, prune, tops, under);
            let after = after_steps(tree, steps, source);
            &&& goes_through(tree, steps, source)
            &&& forall|p: Seq<char>| #[trigger]
                after.files.contains_key(p) <==> tree.files.contains_key(p) && !(gone.contains(p)
                    && sync::below_any(tops, p) == under)
            &&& forall|p: Seq<char>| #[trigger]
                after.files.contains_key(p) ==> after.files[p] == tree.files[p]
            &&& forall|p: Seq<char>| #[trigger] after.dirs.contains(p) ==> tree.dirs.contains(p)
            &&& forall|p: Seq<char>| #[trigger]
                tree.dirs.contains(p) ==> {
                    if prune.contains(p) && sync::below_any(tops, p) == under {
                        after.dirs.contains(p) <==> !after.is_clear(p)
                    } else {
                        after.dirs.contains(p)
                    }
                }
        }),
{
    let g = sync::picked(gone, tops, under);
    let d = sync::picked(prune, tops, under);
    let sg = sync::deletions(g);
    let sd = sync::prunings(d);
    lemma_picked(gone, tops, under);
    lemma_picked(prune, tops, under);
    let mid = after_steps(tree, sg, source);
    lemma_after_append(tree, sg, sd, source);
    assert(takes_away(sg, g));
    assert(takes_away(sd, d));
    lemma_after_removals(tree, sg, g, source);
    lemma_after_removals(mid, sd, d, source);
    assert(all_clear(tree, g));
    lemma_removals_go_through(tree, sg, g, source);
    lemma_after_prunings(mid, d, source);
    let after = after_steps(tree, sync::clearings(gone, prune, tops, under), source);
    assert(after == after_steps(mid, sd, source));
    assert forall|p: Seq<char>| #[trigger] after.files.contains_key(p) <==> tree.files.contains_key(
        p,
    ) && !(gone.contains(p) && sync::below_any(tops, p) == under) by {
        assert(mid.files.contains_key(p) <==> tree.files.contains_key(p) && !g.contains(p));
        if d.contains(p) {
            assert(prune.contains(p));
        }
    }
    assert forall|p: Seq<char>| #[trigger] after.files.contains_key(p) implies after.files[p]
        == tree.files[p] by {
        assert(mid.files.contains_key(p));
        assert(mid.files[p] == tree.files[p]);
    }
    assert forall|p: Seq<char>| #[trigger] after.dirs.contains(p) implies tree.dirs.contains(p) by {
        assert(mid.dirs.contains(p));
    }
    assert forall|p: Seq<char>| #[trigger] tree.dirs.contains(p) implies {
        if prune.contains(p) && sync::below_any(tops, p) == under {
            after.dirs.contains(p) <==> !after.is_clear(p)
        } else {
            after.dirs.contains(p)
        }
    } by {
        if g.contains(p) {
            assert(gone.contains(p));
        }
        assert(mid.dirs.contains(p));
        if d.contains(p) {
        } else {
            assert(after.dirs.contains(p));
        }
    }
}

/// Clearings clear a path if everything that lies below it goes.
proof fn lemma_clearings_clear(
    tree: TreeView,
    gone: Seq<Seq<char>>,
    prune: Seq<Seq<char>>,
    tops: Seq<Seq<char>>,
    source: Map<Seq<char>, Seq<u8>>,
    top: Seq<char>,
)
    requires
        plan::deep_first(prune),
        tops.contains(top),
        forall|p: Seq<char>| #[trigger]
            path::lies_below(p, top) ==> {
                &&& tree.files.contains_key(p) ==> gone.contains(p)
                &&& tree.dirs.contains(p) ==> prune.contains(p)
            },
    ensures
        after_steps(tree, sync::clearings(gone, prune, tops, true), source).is_clear(top),
{
    let g = sync::picked(gone, tops, true);
    let d = sync::picked(prune, tops, true);
    let sg = sync::deletions(g);
    let sd = sync::prunings(d);
    lemma_picked(gone, tops, true);
    lemma_picked(prune, tops, true);
    let mid = after_steps(tree, sg, source);
    lemma_after_append(tree, sg, sd, source);
    assert(takes_away(sg, g));
    lemma_after_removals(tree, sg, g, source);
    let k = choose|k: int| 0 <= k < tops.len() && tops[k] == top;
    assert forall|p: Seq<char>| #[trigger] path::lies_below(p, top) implies {
        &&& !mid.files.contains_key(p)
        &&& mid.dirs.contains(p) ==> d.contains(p)
    } by {
        assert(path::lies_below(p, tops[k]));
        assert(sync::below_any(tops, p));
        if tree.files.contains_key(p) {
            assert(g.contains(p));
        }
        if mid.dirs.contains(p) {
            assert(tree.dirs.contains(p));
            assert(d.contains(p));
        }
    }
    lemma_prunings_clear(mid, d, source, top);
}

/// A run: a plan for what two trees list, the directories to prune, and what the receiver holds.
pub open spec fn is_run(
    plan: &SyncPlan,
    sender: &Indexed,
    receiver: &Indexed,
    ignore: &IgnoreSet,
    delete: bool,
    digests: Option<Seq<DigestPair>>,
    prune: Seq<Seq<char>>,
    before: TreeView,
) -> bool {
    &&& sender.wf()
    &&& receiver.wf()
    &&& is_tree(sender)
    &&& is_tree(receiver)
    &&& plan::is_plan(plan, sender, receiver, ignore, delete, digests)
    &&& plan::exactly(prune, |p: Seq<char>| plan::is_prunable(sender, receiver, ignore, p))
    &&& plan::deep_first(prune)
    &&& shows(receiver, before)
}

/// The listed paths of a well-formed listing are plain.
proof fn lemma_listed_is_plain(tree: &Indexed, p: Seq<char>)
    requires
        tree.wf(),
        is_listed(tree, p),
    ensures
        path::normal(p) == p,
{
    tree.files.lemma_paths();
    tree.dirs.lemma_paths();
    if tree.files@.contains_key(p) {
        let order = tree.files.order();
        let i = choose|i: int| 0 <= i < order.len() && (#[trigger] order[i]).rel_path == p;
        assert(path::normal(order[i].rel_path) == order[i].rel_path);
    } else {
        let order = tree.dirs.order();
        let i = choose|i: int| 0 <= i < order.len() && (#[trigger] order[i]).rel_path == p;
        assert(path::normal(order[i].rel_path) == order[i].rel_path);
    }
}

/// What the sender lists nothing under is no directory above one of its paths.
proof fn lemma_nothing_below(sender: &Indexed, receiver: &Indexed, top: Seq<char>, p: Seq<char>)
    requires
        is_tree(sender),
        is_tree(receiver),
        receiver.wf(),
        is_listed(receiver, top),
        !sender.dirs@.contains_key(top),
        path::lies_below(p, top),
    ensures
        !is_listed(sender, p),
{
    lemma_listed_is_plain(receiver, top);
    assert(is_above(top, p));
}

/// What the stages of a run leave, path by path.
proof fn lemma_run_stages(
    plan: &SyncPlan,
    sender: &Indexed,
    receiver: &Indexed,
    ignore: &IgnoreSet,
    delete: bool,
    digests: Option<Seq<DigestPair>>,
    prune: Seq<Seq<char>>,
    before: TreeView,
    source: Map<Seq<char>, Seq<u8>>,
)
    requires
        is_run(plan, sender, receiver, ignore, delete, digests, prune, before),
    ensures
        ({
            let (t1, t2, t3, t4) = stages(plan, sender, prune, delete, before, source);
            let retype = text::views(plan.retype@);
            let dirs = text::views(plan.create_dirs@);
            let paths = plan::item_paths(plan.transfer@);
            let gone = text::views(plan.delete@);
            &&& goes_through(before, clearings_of(plan, prune, delete, true), source)
            &&& forall|p: Seq<char>| #[trigger]
                t1.files.contains_key(p) <==> before.files.contains_key(p) && !(gone.contains(p)
                    && sync::below_any(retype, p))
            &&& forall|p: Seq<char>| #[trigger]
                t1.files.contains_key(p) ==> t1.files[p] == before.files[p]
            &&& forall|p: Seq<char>| #[trigger] t1.dirs.contains(p) ==> before.dirs.contains(p)
            &&& forall|p: Seq<char>| #[trigger]
                before.dirs.contains(p) ==> {
                    if delete && prune.contains(p) && sync::below_any(retype, p) {
                        t1.dirs.contains(p) <==> !t1.is_clear(p)
                    } else {
                        t1.dirs.contains(p)
                    }
                }
            &&& forall|p: Seq<char>| #[trigger]
                t2.files.contains_key(p) <==> t1.files.contains_key(p) && !retype.contains(p)
            &&& forall|p: Seq<char>| #[trigger]
                t2.files.contains_key(p) ==> t2.files[p] == t1.files[p]
            &&& forall|p: Seq<char>| #[trigger] t2.dirs.contains(p) ==> t1.dirs.contains(p)
            &&& forall|p: Seq<char>|
                t1.dirs.contains(p) && !retype.contains(p) ==> #[trigger] t2.dirs.contains(p)
            &&& t3.files == t2.files
            &&& forall|p: Seq<char>| #[trigger]
                t3.dirs.contains(p) <==> t2.dirs.contains(p) || dirs.contains(p)
            &&& forall|p: Seq<char>| #[trigger]
                t4.files.contains_key(p) <==> t3.files.contains_key(p) || paths.contains(p)
            &&& forall|p: Seq<char>| #[trigger]
                t4.files.contains_key(p) ==> t4.files[p] == if paths.contains(p) {
                    source[p]
                } else {
                    t3.files[p]
                }
            &&& t4.dirs == t3.dirs
        }),
{
    let (t1, t2, t3, t4) = stages(plan, sender, prune, delete, before, source);
    let retype = text::views(plan.retype@);
    let dirs = text::views(plan.create_dirs@);
    let gone = text::views(plan.delete@);
    assert forall|p: Seq<char>| #[trigger] gone.contains(p) implies !before.dirs.contains(p) by {
        assert(receiver.files@.contains_key(p));
    }
    assert forall|p: Seq<char>| #[trigger] prune.contains(p) implies !before.files.contains_key(
        p,
    ) by {
        assert(plan::is_prunable(sender, receiver, ignore, p));
        assert(!(receiver.files@.contains_key(p) && receiver.dirs@.contains_key(p)));
    }
    if delete {
        lemma_after_clearings(before, gone, prune, retype, true, source);
    } else {
        assert forall|p: Seq<char>| !gone.contains(p) by {}
    }
    assert(takes_away(sync::removals(retype), retype));
    lemma_after_removals(t1, sync::removals(retype), retype, source);
    lemma_after_creations(t2, dirs, sender, source);
    assert forall|p: Seq<char>| #[trigger] t2.files.contains_key(p) implies t2.files[p]
        == t1.files[p] by {
        assert(t1.files.contains_key(p) && !retype.contains(p));
    }
}

/// The last clearings of a run.
proof fn lemma_last_stage(
    plan: &SyncPlan,
    sender: &Indexed,
    receiver: &Indexed,
    ignore: &IgnoreSet,
    delete: bool,
    digests: Option<Seq<DigestPair>>,
    prune: Seq<Seq<char>>,
    before: TreeView,
    source: Map<Seq<char>, Seq<u8>>,
)
    requires
        is_run(plan, sender, receiver, ignore, delete, digests, prune, before),
    ensures
        ({
            let (t1, t2, t3, t4) = stages(plan, sender, prune, delete, before, source);
            let retype = text::views(plan.retype@);
            let gone = text::views(plan.delete@);
            let after = after_steps(
                before,
                sync::script(plan, sender, prune, delete, false),
                source,
            );
            &&& goes_through(t4, clearings_of(plan, prune, delete, false), source)
            &&& forall|p: Seq<char>| #[trigger]
                after.files.contains_key(p) <==> t4.files.contains_key(p) && !(gone.contains(p)
                    && !sync::below_any(retype, p))
            &&& forall|p: Seq<char>| #[trigger]
                after.files.contains_key(p) ==> after.files[p] == t4.files[p]
            &&& forall|p: Seq<char>| #[trigger] after.dirs.contains(p) ==> t4.dirs.contains(p)
            &&& forall|p: Seq<char>| #[trigger]
                t4.dirs.contains(p) ==> {
                    if delete && prune.contains(p) && !sync::below_any(retype, p) {
                        after.dirs.contains(p) <==> !after.is_clear(p)
                    } else {
                        after.dirs.contains(p)
                    }
                }
        }),
{
    let (t1, t2, t3, t4) = stages(plan, sender, prune, delete, before, source);
    let retype = text::views(plan.retype@);
    let dirs = text::views(plan.create_dirs@);
    let paths = plan::item_paths(plan.transfer@);
    let gone = text::views(plan.delete@);
    lemma_stages(plan, sender, prune, delete, before, source);
    lemma_run_stages(plan, sender, receiver, ignore, delete, digests, prune, before, source);
    assert forall|p: Seq<char>| #[trigger] gone.contains(p) implies !t4.dirs.contains(p) by {
        assert(plan::is_extraneous(sender, receiver, ignore, p));
        assert(!dirs.contains(p)) by {
            if dirs.contains(p) {
                assert(plan::needs_dir(sender, receiver, p));
            }
        }
        assert(!before.dirs.contains(p));
        assert(!t1.dirs.contains(p));
        assert(!t2.dirs.contains(p));
    }
    assert forall|p: Seq<char>| #[trigger] prune.contains(p) implies !t4.files.contains_key(p) by {
        assert(plan::is_prunable(sender, receiver, ignore, p));
        assert(!(receiver.files@.contains_key(p) && receiver.dirs@.contains_key(p)));
        assert(!before.files.contains_key(p));
        assert(!t1.files.contains_key(p));
        assert(!t2.files.contains_key(p));
        assert(!paths.contains(p)) by {
            if paths.contains(p) {
                assert(plan::needs_transfer(sender, receiver, digests, p));
            }
        }
    }
    if delete {
        lemma_after_clearings(t4, gone, prune, retype, false, source);
    } else {
        assert forall|p: Seq<char>| !gone.contains(p) by {}
    }
}

/// A run goes through if every directory of the receiver that gives way to a file can be emptied:
/// each of its steps can be done when its turn comes.
pub proof fn law_run_goes_through(
    plan: &SyncPlan,
    sender: &Indexed,
    receiver: &Indexed,
    ignore: &IgnoreSet,
    delete: bool,
    digests: Option<Seq<DigestPair>>,
    prune: Seq<Seq<char>>,
    before: TreeView,
    source: Map<Seq<char>, Seq<u8>>,
)
    requires
        is_run(plan, sender, receiver, ignore, delete, digests, prune, before),
        clearable(sender, receiver, ignore, delete),
    ensures
        goes_through(before, sync::script(plan, sender, prune, delete, false), source),
{
    let (t1, t2, t3, t4) = stages(plan, sender, prune, delete, before, source);
    let retype = text::views(plan.retype@);
    let dirs = text::views(plan.create_dirs@);
    let paths = plan::item_paths(plan.transfer@);
    let gone = text::views(plan.delete@);
    lemma_stages(plan, sender, prune, delete, before, source);
    lemma_run_stages(plan, sender, receiver, ignore, delete, digests, prune, before, source);
    lemma_last_stage(plan, sender, receiver, ignore, delete, digests, prune, before, source);
    // what has the wrong kind can be removed
    assert forall|p: Seq<char>| #[trigger] retype.contains(p) && t1.dirs.contains(p) implies t1.is_clear(
        p,
    ) by {
        assert(plan::needs_retype(sender, receiver, p));
        assert(before.dirs.contains(p));
        assert(!(receiver.files@.contains_key(p) && receiver.dirs@.contains_key(p)));
        assert(sender.files@.contains_key(p));
        assert(!(sender.files@.contains_key(p) && sender.dirs@.contains_key(p)));
        assert forall|q: Seq<char>| #[trigger] path::lies_below(q, p) implies {
            &&& before.files.contains_key(q) ==> delete && gone.contains(q)
            &&& before.dirs.contains(q) ==> delete && prune.contains(q)
        } by {
            lemma_nothing_below(sender, receiver, p, q);
            if before.files.contains_key(q) {
                assert(plan::is_extraneous(sender, receiver, ignore, q));
            }
            if before.dirs.contains(q) {
                assert(plan::is_prunable(sender, receiver, ignore, q));
            }
        }
        if delete {
            lemma_clearings_clear(before, gone, prune, retype, source, p);
        }
    }
    assert(all_clear(t1, retype));
    assert(takes_away(sync::removals(retype), retype));
    lemma_removals_go_through(t1, sync::removals(retype), retype, source);
    // the sender's directories are no files any more
    assert forall|p: Seq<char>| #[trigger] sender.dirs@.contains_key(p) implies {
        &&& !t2.files.contains_key(p)
        &&& t2.dirs.contains(p) || dirs.contains(p)
    } by {
        assert(!(sender.files@.contains_key(p) && sender.dirs@.contains_key(p)));
        assert(before.files.contains_key(p) <==> receiver.files@.contains_key(p));
        if receiver.files@.contains_key(p) {
            assert(plan::needs_retype(sender, receiver, p));
            assert(retype.contains(p));
        }
        assert(before.dirs.contains(p) <==> receiver.dirs@.contains_key(p));
        if receiver.dirs@.contains_key(p) {
            assert(!(receiver.files@.contains_key(p) && receiver.dirs@.contains_key(p)));
            assert(!plan::needs_retype(sender, receiver, p));
            assert(!retype.contains(p));
            assert(!plan::is_prunable(sender, receiver, ignore, p));
            assert(!prune.contains(p));
            assert(t1.dirs.contains(p));
            assert(t2.dirs.contains(p));
        } else {
            assert(plan::needs_dir(sender, receiver, p));
        }
    }
    assert forall|p: Seq<char>| #[trigger] dirs.contains(p) implies sender.dirs@.contains_key(p) by {
        assert(plan::needs_dir(sender, receiver, p));
    }
    assert forall|p: Seq<char>, q: Seq<char>|
        #![trigger is_above(q, p)]
        dirs.contains(p) && is_above(q, p) implies !t2.files.contains_key(q) && (t2.dirs.contains(q)
        || dirs.contains(q)) by {
        assert(is_listed(sender, p));
        assert(sender.dirs@.contains_key(q));
    }
    lemma_creations_go_through(t2, dirs, sender, source);
    // the files can be transferred
    assert forall|p: Seq<char>| #[trigger] paths.contains(p) implies !t3.dirs.contains(p)
        && t3.leads_to(p) by {
        assert(plan::needs_transfer(sender, receiver, digests, p));
        assert(!(sender.files@.contains_key(p) && sender.dirs@.contains_key(p)));
        assert(!dirs.contains(p));
        if t2.dirs.contains(p) {
            assert(t1.dirs.contains(p));
            assert(before.dirs.contains(p));
            assert(plan::needs_retype(sender, receiver, p));
            assert(retype.contains(p));
        }
        assert forall|q: Seq<char>| #[trigger] is_above(q, p) implies t3.dirs.contains(q)
            && !t3.files.contains_key(q) by {
            assert(is_listed(sender, p));
            assert(sender.dirs@.contains_key(q));
        }
    }
}

/// What the receiver has after a run that went through, path by path. A file of the sender is
/// there, with the sender's content where it was transferred and as it was otherwise. Anything
/// else that is left was there before, unchanged: it is no directory of the sender, and if
/// extraneous files are to go, it is ignored.
pub proof fn law_outcome_of_a_run(
    plan: &SyncPlan,
    sender: &Indexed,
    receiver: &Indexed,
    ignore: &IgnoreSet,
    delete: bool,
    digests: Option<Seq<DigestPair>>,
    prune: Seq<Seq<char>>,
    before: TreeView,
    source: Map<Seq<char>, Seq<u8>>,
)
    requires
        is_run(plan, sender, receiver, ignore, delete, digests, prune, before),
        goes_through(before, sync::script(plan, sender, prune, delete, false), source),
    ensures
        ({
            let after = after_steps(
                before,
                sync::script(plan, sender, prune, delete, false),
                source,
            ).files;
            &&& forall|p: Seq<char>|
                sender.files@.contains_key(p) ==> {
                    &&& #[trigger] after.contains_key(p)
                    &&& after[p] == if plan::needs_transfer(sender, receiver, digests, p) {
                        source[p]
                    } else {
                        before.files[p]
                    }
                }
            &&& forall|p: Seq<char>|
                !sender.files@.contains_key(p) ==> {
                    &&& #[trigger] after.contains_key(p) <==> {
                        &&& before.files.contains_key(p)
                        &&& !sender.dirs@.contains_key(p)
                        &&& delete ==> ignore.ignores(p, false)
                    }
                    &&& after.contains_key(p) ==> after[p] == before.files[p]
                }
        }),
{
    let (t1, t2, t3, t4) = stages(plan, sender, prune, delete, before, source);
    let retype = text::views(plan.retype@);
    let paths = plan::item_paths(plan.transfer@);
    let gone = text::views(plan.delete@);
    let after = after_steps(before, sync::script(plan, sender, prune, delete, false), source).files;
    lemma_run_stages(plan, sender, receiver, ignore, delete, digests, prune, before, source);
    lemma_last_stage(plan, sender, receiver, ignore, delete, digests, prune, before, source);
    assert forall|p: Seq<char>| sender.files@.contains_key(p) implies {
        &&& #[trigger] after.contains_key(p)
        &&& after[p] == if plan::needs_transfer(sender, receiver, digests, p) {
            source[p]
        } else {
            before.files[p]
        }
    } by {
        assert(paths.contains(p) == plan::needs_transfer(sender, receiver, digests, p));
        assert(gone.contains(p) == (delete && plan::is_extraneous(sender, receiver, ignore, p)));
        assert(retype.contains(p) == plan::needs_retype(sender, receiver, p));
        assert(before.files.contains_key(p) == receiver.files@.contains_key(p));
        assert(!(sender.files@.contains_key(p) && sender.dirs@.contains_key(p)));
        assert(!(receiver.files@.contains_key(p) && receiver.dirs@.contains_key(p)));
        if !paths.contains(p) {
            assert(t1.files.contains_key(p));
            assert(t2.files.contains_key(p));
            assert(t4.files.contains_key(p));
            assert(t4.files[p] == t3.files[p]);
        } else {
            assert(t4.files.contains_key(p));
            assert(t4.files[p] == source[p]);
        }
        assert(after.contains_key(p));
        assert(after[p] == t4.files[p]);
    }
    assert forall|p: Seq<char>| !sender.files@.contains_key(p) implies {
        &&& #[trigger] after.contains_key(p) <==> {
            &&& before.files.contains_key(p)
            &&& !sender.dirs@.contains_key(p)
            &&& delete ==> ignore.ignores(p, false)
        }
        &&& after.contains_key(p) ==> after[p] == before.files[p]
    } by {
        assert(paths.contains(p) == plan::needs_transfer(sender, receiver, digests, p));
        assert(gone.contains(p) == (delete && plan::is_extraneous(sender, receiver, ignore, p)));
        assert(retype.contains(p) == plan::needs_retype(sender, receiver, p));
        assert(before.files.contains_key(p) == receiver.files@.contains_key(p));
        assert(t1.files.contains_key(p) <==> before.files.contains_key(p) && !(gone.contains(p)
            && sync::below_any(retype, p)));
        assert(t2.files.contains_key(p) <==> t1.files.contains_key(p) && !retype.contains(p));
        assert(t4.files.contains_key(p) <==> t2.files.contains_key(p));
    }
}

/// Which directories the receiver has after a run that went through: all of the sender's, and of
/// its own those that are no file of the sender. If extraneous ones are to go, one that is not
/// ignored is left only where something lies below it.
pub proof fn law_directories_after_a_run(
    plan: &SyncPlan,
    sender: &Indexed,
    receiver: &Indexed,
    ignore: &IgnoreSet,
    delete: bool,
    digests: Option<Seq<DigestPair>>,
    prune: Seq<Seq<char>>,
    before: TreeView,
    source: Map<Seq<char>, Seq<u8>>,
    p: Seq<char>,
)
    requires
        is_run(plan, sender, receiver, ignore, delete, digests, prune, before),
        goes_through(before, sync::script(plan, sender, prune, delete, false), source),
    ensures
        ({
            let after = after_steps(
                before,
                sync::script(plan, sender, prune, delete, false),
                source,
            );
            after.dirs.contains(p) <==> {
                ||| sender.dirs@.contains_key(p)
                ||| {
                    &&& before.dirs.contains(p)
                    &&& !sender.files@.contains_key(p)
                    &&& delete ==> ignore.ignores(p, true) || !after.is_clear(p)
                }
            }
        }),
{
    let (t1, t2, t3, t4) = stages(plan, sender, prune, delete, before, source);
    let retype = text::views(plan.retype@);
    let dirs = text::views(plan.create_dirs@);
    let after = after_steps(before, sync::script(plan, sender, prune, delete, false), source);
    lemma_stages(plan, sender, prune, delete, before, source);
    lemma_run_stages(plan, sender, receiver, ignore, delete, digests, prune, before, source);
    lemma_last_stage(plan, sender, receiver, ignore, delete, digests, prune, before, source);
    assert(takes_away(sync::removals(retype), retype));
    lemma_removals_go_through(t1, sync::removals(retype), retype, source);
    assert(retype.contains(p) == plan::needs_retype(sender, receiver, p));
    assert(dirs.contains(p) == plan::needs_dir(sender, receiver, p));
    assert(prune.contains(p) == plan::is_prunable(sender, receiver, ignore, p));
    assert(before.dirs.contains(p) == receiver.dirs@.contains_key(p));
    assert(before.files.contains_key(p) == receiver.files@.contains_key(p));
    assert(!(sender.files@.contains_key(p) && sender.dirs@.contains_key(p)));
    assert(!(receiver.files@.contains_key(p) && receiver.dirs@.contains_key(p)));
    if sender.dirs@.contains_key(p) {
        if receiver.dirs@.contains_key(p) {
            assert(t1.dirs.contains(p));
            assert(t2.dirs.contains(p));
        }
        assert(t3.dirs.contains(p));
        assert(after.dirs.contains(p));
    } else if retype.contains(p) {
        assert(!t2.dirs.contains(p));
        assert(!t3.dirs.contains(p));
        assert(!after.dirs.contains(p));
        if before.dirs.contains(p) {
            assert(sender.files@.contains_key(p));
        }
    } else if !before.dirs.contains(p) {
        assert(!t1.dirs.contains(p));
        assert(!t2.dirs.contains(p));
        assert(!t3.dirs.contains(p));
    } else if !(delete && prune.contains(p)) {
        assert(t1.dirs.contains(p));
        assert(t2.dirs.contains(p));
        assert(t3.dirs.contains(p));
        assert(after.dirs.contains(p));
    } else if !sync::below_any(retype, p) {
        assert(t1.dirs.contains(p));
        assert(t2.dirs.contains(p));
        assert(t3.dirs.contains(p));
    } else {
        // it lay below a directory that gave way to a file
        let k = choose|k: int| 0 <= k < retype.len() && path::lies_below(p, #[trigger] retype[k]);
        let top = retype[k];
        assert(retype.contains(top));
        assert(plan::needs_retype(sender, receiver, top));
        if receiver.files@.contains_key(top) {
            lemma_listed_is_plain(receiver, top);
            assert(path::comps(top).len() > 0) by {
                assert(is_listed(receiver, top));
            }
            assert(is_listed(receiver, p));
            assert(is_above(top, p));
        }
        assert(before.dirs.contains(top));
        assert(sender.files@.contains_key(top));
        assert(!(sender.files@.contains_key(top) && sender.dirs@.contains_key(top)));
        lemma_gives_way(
            plan,
            sender,
            receiver,
            ignore,
            delete,
            digests,
            prune,
            before,
            source,
            top,
            p,
        );
    }
}

/// What lay below a directory that gave way to a file is gone after a run that went through, and
/// nothing came in its place.
proof fn lemma_gives_way(
    plan: &SyncPlan,
    sender: &Indexed,
    receiver: &Indexed,
    ignore: &IgnoreSet,
    delete: bool,
    digests: Option<Seq<DigestPair>>,
    prune: Seq<Seq<char>>,
    before: TreeView,
    source: Map<Seq<char>, Seq<u8>>,
    top: Seq<char>,
    p: Seq<char>,
)
    requires
        is_run(plan, sender, receiver, ignore, delete, digests, prune, before),
        goes_through(before, sync::script(plan, sender, prune, delete, false), source),
        sender.files@.contains_key(top),
        receiver.dirs@.contains_key(top),
        path::lies_below(p, top),
    ensures
        ({
            let after = after_steps(
                before,
                sync::script(plan, sender, prune, delete, false),
                source,
            );
            !after.has(p) && after.is_clear(p)
        }),
{
    let (t1, t2, t3, t4) = stages(plan, sender, prune, delete, before, source);
    let retype = text::views(plan.retype@);
    let dirs = text::views(plan.create_dirs@);
    let paths = plan::item_paths(plan.transfer@);
    let after = after_steps(before, sync::script(plan, sender, prune, delete, false), source);
    lemma_stages(plan, sender, prune, delete, before, source);
    lemma_run_stages(plan, sender, receiver, ignore, delete, digests, prune, before, source);
    lemma_last_stage(plan, sender, receiver, ignore, delete, digests, prune, before, source);
    assert(!(sender.files@.contains_key(top) && sender.dirs@.contains_key(top)));
    assert(!(receiver.files@.contains_key(top) && receiver.dirs@.contains_key(top)));
    assert(plan::needs_retype(sender, receiver, top));
    assert(retype.contains(top));
    assert(takes_away(sync::removals(retype), retype));
    lemma_removals_go_through(t1, sync::removals(retype), retype, source);
    assert(before.dirs.contains(top));
    assert(!plan::is_prunable(sender, receiver, ignore, top));
    assert(!prune.contains(top));
    assert(t1.dirs.contains(top));
    lemma_removed_was_clear(t1, retype, source, top);
    assert forall|q: Seq<char>| #[trigger] path::lies_below(q, top) implies !after.has(q) by {
        lemma_nothing_below(sender, receiver, top, q);
        assert(!t2.has(q));
        if paths.contains(q) {
            assert(plan::needs_transfer(sender, receiver, digests, q));
        }
        if dirs.contains(q) {
            assert(plan::needs_dir(sender, receiver, q));
        }
        assert(!t4.files.contains_key(q));
        assert(!t4.dirs.contains(q));
    }
    assert forall|q: Seq<char>| #[trigger] path::lies_below(q, p) implies !after.has(q) by {
        lemma_below_below(q, p, top);
    }
}

/// After removals that went through, nothing lies below a path where a directory was.
proof fn lemma_removed_was_clear(
    tree: TreeView,
    list: Seq<Seq<char>>,
    source: Map<Seq<char>, Seq<u8>>,
    top: Seq<char>,
)
    requires
        goes_through(tree, sync::removals(list), source),
        list.contains(top),
        tree.dirs.contains(top),
    ensures
        after_steps(tree, sync::removals(list), source).is_clear(top),
    decreases list.len(),
{
    let steps = sync::removals(list);
    let head = list.drop_last();
    let last = list.last();
    lemma_push_contains(list, top);
    assert(steps.drop_last() =~= sync::removals(head));
    assert(takes_away(sync::removals(head), head));
    let mid = after_steps(tree, sync::removals(head), source);
    let after = after_steps(tree, steps, source);
    assert(after == mid.removed(last));
    assert(works(mid, steps.last()));
    if head.contains(top) {
        lemma_removed_was_clear(tree, head, source, top);
    } else {
        lemma_after_removals(tree, sync::removals(head), head, source);
        assert(mid.dirs.contains(top));
    }
    assert forall|q: Seq<char>| #[trigger] path::lies_below(q, top) implies !after.has(q) by {
        assert(!mid.has(q));
    }
}

/// A file of the sender takes the place of a directory of the receiver, whatever lies in it, if
/// all of that can go: the run goes through, and the file is there with the sender's content.
pub proof fn law_file_replaces_directory(
    plan: &SyncPlan,
    sender: &Indexed,
    receiver: &Indexed,
    ignore: &IgnoreSet,
    delete: bool,
    digests: Option<Seq<DigestPair>>,
    prune: Seq<Seq<char>>,
    before: TreeView,
    source: Map<Seq<char>, Seq<u8>>,
    p: Seq<char>,
)
    requires
        is_run(plan, sender, receiver, ignore, delete, digests, prune, before),
        clearable(sender, receiver, ignore, delete),
        sender.files@.contains_key(p),
        receiver.dirs@.contains_key(p),
    ensures
        ({
            let steps = sync::script(plan, sender, prune, delete, false);
            let after = after_steps(before, steps, source);
            &&& goes_through(before, steps, source)
            &&& after.files.contains_key(p)
            &&& after.files[p] == source[p]
            &&& !after.dirs.contains(p)
            &&& after.is_clear(p)
        }),
{
    law_run_goes_through(plan, sender, receiver, ignore, delete, digests, prune, before, source);
    law_outcome_of_a_run(plan, sender, receiver, ignore, delete, digests, prune, before, source);
    law_directories_after_a_run(
        plan,
        sender,
        receiver,
        ignore,
        delete,
        digests,
        prune,
        before,
        source,
        p,
    );
    let after = after_steps(before, sync::script(plan, sender, prune, delete, false), source);
    assert(!(sender.files@.contains_key(p) && sender.dirs@.contains_key(p)));
    assert(!(receiver.files@.contains_key(p) && receiver.dirs@.contains_key(p)));
    assert(after.files.contains_key(p));
    assert forall|q: Seq<char>| #[trigger] path::lies_below(q, p) implies !after.has(q) by {
        lemma_gives_way(
            plan,
            sender,
            receiver,
            ignore,
            delete,
            digests,
            prune,
            before,
            source,
            p,
            q,
        );
    }
}

/// What is ignored is never sent: where the sender's listing holds nothing that is ignored, no
/// ignored file is transferred.
pub proof fn law_ignored_files_are_not_sent(
    plan: &SyncPlan,
    entries: Seq<EntryView>,
    sender: &Indexed,
    receiver: &Indexed,
    ignore: &IgnoreSet,
    delete: bool,
    digests: Option<Seq<DigestPair>>,
    p: Seq<char>,
)
    requires
        forall|i: int|
            0 <= i < entries.len() ==> !local::is_left_out(
                (#[trigger] entries[i]).rel_path,
                entries[i].kind == EntryKind::Dir,
                Some(ignore),
            ),
        sender.files@ == scan::latest(entries, EntryKind::File),
        plan::is_plan(plan, sender, receiver, ignore, delete, digests),
        plan::item_paths(plan.transfer@).contains(p),
    ensures
        !ignore.ignores(p, false),
{
    assert(plan::needs_transfer(sender, receiver, digests, p));
    let i = scan::lemma_latest_comes_from(entries, EntryKind::File, p);
    path::lemma_normal(entries[i].rel_path);
}

/// Whether the digests are those of the common files: of what the sender's hold, and of what the
/// receiver's hold.
pub open spec fn are_digests_of(
    pairs: Seq<DigestPair>,
    sender: &Indexed,
    receiver: &Indexed,
    source: Map<Seq<char>, Seq<u8>>,
    held: Map<Seq<char>, Seq<u8>>,
) -> bool {
    let both = plan::common(sender.files.order(), receiver.files@);
    &&& pairs.len() == both.len()
    &&& forall|j: int|
        0 <= j < both.len() ==> {
            &&& (#[trigger] pairs[j]).sender@ == hash::blake3_of(source[both[j]])
            &&& pairs[j].receiver@ == hash::blake3_of(held[both[j]])
        }
}

/// With the digests of the common files at hand, a file that both sides have is transferred
/// exactly if its digests differ.
proof fn lemma_digests_decide(
    sender: &Indexed,
    receiver: &Indexed,
    pairs: Seq<DigestPair>,
    source: Map<Seq<char>, Seq<u8>>,
    held: Map<Seq<char>, Seq<u8>>,
    p: Seq<char>,
)
    requires
        sender.wf(),
        are_digests_of(pairs, sender, receiver, source, held),
        sender.files@.contains_key(p),
        receiver.files@.contains_key(p),
    ensures
        plan::needs_transfer(sender, receiver, Some(pairs), p) <==> hash::blake3_of(source[p])
            != hash::blake3_of(held[p]),
{
    let both = plan::common(sender.files.order(), receiver.files@);
    sender.files.lemma_paths();
    plan::lemma_common_has(sender.files.order(), receiver.files@, p);
    let j = choose|j: int| 0 <= j < both.len() && both[j] == p;
    assert(pairs[j].sender@ == hash::blake3_of(source[both[j]]));
    assert(pairs[j].receiver@ == hash::blake3_of(held[both[j]]));
    if plan::needs_transfer(sender, receiver, Some(pairs), p) {
        let k = choose|k: int|
            0 <= k < both.len() && #[trigger] both[k] == p && pairs[k].sender@
                != pairs[k].receiver@;
        assert(pairs[k].sender@ == hash::blake3_of(source[both[k]]));
        assert(pairs[k].receiver@ == hash::blake3_of(held[both[k]]));
    }
}

/// Compared by content, every file of the sender ends up on the receiver with the same digest.
pub proof fn law_contents_agree_after_a_checksum_run(
    plan: &SyncPlan,
    sender: &Indexed,
    receiver: &Indexed,
    ignore: &IgnoreSet,
    delete: bool,
    pairs: Seq<DigestPair>,
    prune: Seq<Seq<char>>,
    before: TreeView,
    source: Map<Seq<char>, Seq<u8>>,
    p: Seq<char>,
)
    requires
        is_run(plan, sender, receiver, ignore, delete, Some(pairs), prune, before),
        goes_through(before, sync::script(plan, sender, prune, delete, false), source),
        are_digests_of(pairs, sender, receiver, source, before.files),
        sender.files@.contains_key(p),
    ensures
        ({
            let after = after_steps(
                before,
                sync::script(plan, sender, prune, delete, false),
                source,
            ).files;
            after.contains_key(p) && hash::blake3_of(after[p]) == hash::blake3_of(source[p])
        }),
{
    law_outcome_of_a_run(
        plan,
        sender,
        receiver,
        ignore,
        delete,
        Some(pairs),
        prune,
        before,
        source,
    );
    let after = after_steps(before, sync::script(plan, sender, prune, delete, false), source).files;
    assert(after.contains_key(p));
    if !plan::needs_transfer(sender, receiver, Some(pairs), p) {
        lemma_digests_decide(sender, receiver, pairs, source, before.files, p);
    }
}

/// When extraneous files are to go, only the sender's files and ignored ones are left.
pub proof fn law_nothing_extraneous_is_left(
    plan: &SyncPlan,
    sender: &Indexed,
    receiver: &Indexed,
    ignore: &IgnoreSet,
    digests: Option<Seq<DigestPair>>,
    prune: Seq<Seq<char>>,
    before: TreeView,
    source: Map<Seq<char>, Seq<u8>>,
    p: Seq<char>,
)
    requires
        is_run(plan, sender, receiver, ignore, true, digests, prune, before),
        goes_through(before, sync::script(plan, sender, prune, true, false), source),
        after_steps(
            before,
            sync::script(plan, sender, prune, true, false),
            source,
        ).files.contains_key(p),
    ensures
        sender.files@.contains_key(p) || ignore.ignores(p, false),
{
    law_outcome_of_a_run(plan, sender, receiver, ignore, true, digests, prune, before, source);
}

/// An ignored file of the receiver is still there, unchanged, if the sender lists nothing under
/// its path.
pub proof fn law_ignored_files_stay(
    plan: &SyncPlan,
    sender: &Indexed,
    receiver: &Indexed,
    ignore: &IgnoreSet,
    delete: bool,
    digests: Option<Seq<DigestPair>>,
    prune: Seq<Seq<char>>,
    before: TreeView,
    source: Map<Seq<char>, Seq<u8>>,
    p: Seq<char>,
)
    requires
        is_run(plan, sender, receiver, ignore, delete, digests, prune, before),
        goes_through(before, sync::script(plan, sender, prune, delete, false), source),
        before.files.contains_key(p),
        ignore.ignores(p, false),
        !is_listed(sender, p),
    ensures
        ({
            let after = after_steps(
                before,
                sync::script(plan, sender, prune, delete, false),
                source,
            ).files;
            after.contains_key(p) && after[p] == before.files[p]
        }),
{
    law_outcome_of_a_run(plan, sender, receiver, ignore, delete, digests, prune, before, source);
    let after = after_steps(before, sync::script(plan, sender, prune, delete, false), source).files;
    assert(after.contains_key(p));
}

/// Without deletion every file of the receiver stays, unless the sender has a directory there.
pub proof fn law_extraneous_files_stay_without_delete(
    plan: &SyncPlan,
    sender: &Indexed,
    receiver: &Indexed,
    ignore: &IgnoreSet,
    digests: Option<Seq<DigestPair>>,
    prune: Seq<Seq<char>>,
    before: TreeView,
    source: Map<Seq<char>, Seq<u8>>,
    p: Seq<char>,
)
    requires
        is_run(plan, sender, receiver, ignore, false, digests, prune, before),
        goes_through(before, sync::script(plan, sender, prune, false, false), source),
        before.files.contains_key(p),
        !sender.dirs@.contains_key(p),
    ensures
        after_steps(
            before,
            sync::script(plan, sender, prune, false, false),
            source,
        ).files.contains_key(p),
{
    law_outcome_of_a_run(plan, sender, receiver, ignore, false, digests, prune, before, source);
    let after = after_steps(before, sync::script(plan, sender, prune, false, false), source).files;
    assert(after.contains_key(p));
}

/// A dry run leaves everything as it is.
pub proof fn law_dry_run_changes_nothing(
    plan: &SyncPlan,
    sender: &Indexed,
    prune: Seq<Seq<char>>,
    delete: bool,
    before: TreeView,
    source: Map<Seq<char>, Seq<u8>>,
)
    ensures
        sync::script(plan, sender, prune, delete, true).len() == 0,
        after_steps(before, sync::script(plan, sender, prune, delete, true), source) == before,
{
}

/// Whether the listing `later` is what the receiver shows after a run: what it holds then, where
/// the run transferred a file, with the sender's size and time, and elsewhere as it was listed
/// before.
pub open spec fn is_listed_after(
    later: &Indexed,
    sender: &Indexed,
    receiver: &Indexed,
    digests: Option<Seq<DigestPair>>,
    after: TreeView,
) -> bool {
    &&& shows(later, after)
    &&& forall|p: Seq<char>|
        sender.files@.contains_key(p) && #[trigger] later.files@.contains_key(p) ==> {
            if plan::needs_transfer(sender, receiver, digests, p) {
                &&& later.files@[p].len == sender.files@[p].len
                &&& later.files@[p].mtime == sender.files@[p].mtime
            } else {
                later.files@[p] == receiver.files@[p]
            }
        }
}

/// Whether two runs compare files in the same way: both by size and time, or both by digests of
/// what the files hold.
pub open spec fn same_comparison(
    sender: &Indexed,
    receiver: &Indexed,
    digests: Option<Seq<DigestPair>>,
    before: TreeView,
    later: &Indexed,
    again: Option<Seq<DigestPair>>,
    after: TreeView,
    source: Map<Seq<char>, Seq<u8>>,
) -> bool {
    match (digests, again) {
        (None, None) => true,
        (Some(pairs), Some(anew)) => {
            &&& are_digests_of(pairs, sender, receiver, source, before.files)
            &&& are_digests_of(anew, sender, later, source, after.files)
        },
        _ => false,
    }
}

/// A second run right after one that went through finds nothing to do, whether it compares by size
/// and time or by content: nothing has the wrong kind, no directory is lacking, no file is
/// transferred or deleted, and every file of the sender counts as unchanged.
pub proof fn law_second_run_finds_nothing_to_do(
    plan: &SyncPlan,
    sender: &Indexed,
    receiver: &Indexed,
    ignore: &IgnoreSet,
    delete: bool,
    digests: Option<Seq<DigestPair>>,
    prune: Seq<Seq<char>>,
    before: TreeView,
    source: Map<Seq<char>, Seq<u8>>,
    later: &Indexed,
    second: &SyncPlan,
    again: Option<Seq<DigestPair>>,
    prune_again: Seq<Seq<char>>,
)
    requires
        is_run(plan, sender, receiver, ignore, delete, digests, prune, before),
        goes_through(before, sync::script(plan, sender, prune, delete, false), source),
        ({
            let after = after_steps(
                before,
                sync::script(plan, sender, prune, delete, false),
                source,
            );
            &&& is_listed_after(later, sender, receiver, digests, after)
            &&& same_comparison(
                sender,
                receiver,
                digests,
                before,
                later,
                again,
                after,
                source,
            )
        }),
        plan::is_plan(second, sender, later, ignore, delete, again),
    ensures
        second.retype@.len() == 0,
        second.create_dirs@.len() == 0,
        second.transfer@.len() == 0,
        second.delete@.len() == 0,
        second.total_bytes == 0,
        sync::count_deletions(sync::script(second, sender, prune_again, delete, false)) == 0,
        sync::unchanged(sender.files.order().len() as int, second.transfer@.len() as int)
            == sender.files.order().len(),
{
    let after = after_steps(before, sync::script(plan, sender, prune, delete, false), source);
    law_outcome_of_a_run(plan, sender, receiver, ignore, delete, digests, prune, before, source);
    assert forall|p: Seq<char>| !(#[trigger] plan::needs_transfer(sender, later, again, p)) by {
        if plan::needs_transfer(sender, later, again, p) {
            assert(sender.files@.contains_key(p));
            assert(after.files.contains_key(p));
            assert(later.files@.contains_key(p));
            assert(before.files.contains_key(p) == receiver.files@.contains_key(p));
            match (digests, again) {
                (Some(pairs), Some(anew)) => {
                    lemma_digests_decide(sender, later, anew, source, after.files, p);
                    if receiver.files@.contains_key(p) {
                        lemma_digests_decide(sender, receiver, pairs, source, before.files, p);
                    }
                },
                _ => {},
            }
        }
    }
    assert forall|p: Seq<char>| !(#[trigger] plan::is_extraneous(sender, later, ignore, p)) || !delete by {
        if plan::is_extraneous(sender, later, ignore, p) {
            assert(after.files.contains_key(p));
        }
    }
    assert forall|p: Seq<char>| {
        &&& !(#[trigger] plan::needs_retype(sender, later, p))
        &&& !plan::needs_dir(sender, later, p)
    } by {
        assert(after.files.contains_key(p) <==> later.files@.contains_key(p));
        assert(after.dirs.contains(p) <==> later.dirs@.contains_key(p));
        assert(!(sender.files@.contains_key(p) && sender.dirs@.contains_key(p)));
        law_directories_after_a_run(
            plan,
            sender,
            receiver,
            ignore,
            delete,
            digests,
            prune,
            before,
            source,
            p,
        );
    }
    let retype = text::views(second.retype@);
    let dirs = text::views(second.create_dirs@);
    let paths = plan::item_paths(second.transfer@);
    let gone = text::views(second.delete@);
    if retype.len() > 0 {
        assert(retype.contains(retype[0]));
        assert(plan::needs_retype(sender, later, retype[0]));
    }
    if dirs.len() > 0 {
        assert(dirs.contains(dirs[0]));
        assert(!plan::needs_retype(sender, later, dirs[0]));
        assert(plan::needs_dir(sender, later, dirs[0]));
    }
    if paths.len() > 0 {
        assert(paths.contains(paths[0]));
        assert(plan::needs_transfer(sender, later, again, paths[0]));
    }
    if gone.len() > 0 {
        assert(gone.contains(gone[0]));
        assert(plan::is_extraneous(sender, later, ignore, gone[0]));
    }
    let whole = sync::script(second, sender, prune_again, delete, false);
    assert(sync::picked(gone, retype, true).len() == 0);
    assert(sync::picked(gone, retype, false).len() == 0);
    assert forall|i: int| 0 <= i < whole.len() implies !(#[trigger] whole[i] is Delete) by {}
    lemma_no_deletions(whole);
}

proof fn lemma_no_deletions(steps: Seq<StepView>)
    requires
        forall|i: int| 0 <= i < steps.len() ==> !(#[trigger] steps[i] is Delete),
    ensures
        sync::count_deletions(steps) == 0,
    decreases steps.len(),
{
    if steps.len() > 0 {
        assert forall|i: int| 0 <= i < steps.len() - 1 implies !(
        #[trigger] steps.drop_last()[i] is Delete) by {
            assert(!(steps[i] is Delete));
        }
        lemma_no_deletions(steps.drop_last());
        assert(!(steps[steps.len() - 1] is Delete));
    }
}

} // verus!
