//! What has to be done to make the receiver like the sender.
use vstd::prelude::*;

use crate::hash::same_digest;
use crate::ignore_rules::IgnoreSet;
use crate::path;
use crate::sync::scan;
use crate::sync::scan::Indexed;
use crate::sync::scan::PathMap;
use crate::text;
use crate::transport::EntryView;

verus! {

/// How far apart, in milliseconds, two modification times of an unchanged file may be.
pub const MTIME_TOLERANCE_MS: i64 = 2000;

/// One file to transfer.
#[derive(Clone, Debug)]
pub struct TransferItem {
    pub rel: String,
    pub sender_len: u64,
    pub sender_mtime: i64,
    pub sender_mode: u32,
    /// Whether the receiver has an older version to start from.
    pub basis_exists: bool,
}

/// What has to be done on the receiver.
#[derive(Debug)]
pub struct SyncPlan {
    /// Paths that hold a file where a directory belongs, or the reverse. They go first.
    pub retype: Vec<String>,
    /// Directories to create, parents before what they hold.
    pub create_dirs: Vec<String>,
    /// New and changed files.
    pub transfer: Vec<TransferItem>,
    /// Files that the sender does not have.
    pub delete: Vec<String>,
    /// The sizes of the files to transfer, together.
    pub total_bytes: u64,
}

/// The digests of one file on both sides.
pub struct DigestPair {
    pub sender: [u8; 32],
    pub receiver: [u8; 32],
}

/// Whether size and time say that a file is unchanged.
pub open spec fn looks_unchanged(s: EntryView, r: EntryView) -> bool {
    s.len == r.len && -MTIME_TOLERANCE_MS <= s.mtime - r.mtime <= MTIME_TOLERANCE_MS
}

/// The paths of the listed files that the other side has too, in order.
pub open spec fn common(
    order: Seq<EntryView>,
    other: Map<Seq<char>, EntryView>,
) -> Seq<Seq<char>>
    decreases order.len(),
{
    if order.len() == 0 {
        Seq::empty()
    } else {
        let before = common(order.drop_last(), other);
        if other.contains_key(order.last().rel_path) {
            before.push(order.last().rel_path)
        } else {
            before
        }
    }
}

/// Whether the digests of the common file `p` differ.
pub open spec fn digests_differ(
    common: Seq<Seq<char>>,
    pairs: Seq<DigestPair>,
    p: Seq<char>,
) -> bool {
    exists|j: int|
        0 <= j < common.len() && #[trigger] common[j] == p && pairs[j].sender@ != pairs[j].receiver@
}

/// Whether the sender's file `p` has to be transferred. With digests at hand they decide,
/// otherwise size and time.
pub open spec fn needs_transfer(
    sender: &Indexed,
    receiver: &Indexed,
    digests: Option<Seq<DigestPair>>,
    p: Seq<char>,
) -> bool {
    &&& sender.files@.contains_key(p)
    &&& receiver.files@.contains_key(p) ==> match digests {
        None => !looks_unchanged(sender.files@[p], receiver.files@[p]),
        Some(pairs) => digests_differ(common(sender.files.order(), receiver.files@), pairs, p),
    }
}

/// Whether `p` has to be cleared because it changes between file and directory.
pub open spec fn needs_retype(sender: &Indexed, receiver: &Indexed, p: Seq<char>) -> bool {
    ||| sender.dirs@.contains_key(p) && receiver.files@.contains_key(p)
    ||| sender.files@.contains_key(p) && receiver.dirs@.contains_key(p)
}

/// Whether the receiver lacks the sender's directory `p`.
pub open spec fn needs_dir(sender: &Indexed, receiver: &Indexed, p: Seq<char>) -> bool {
    sender.dirs@.contains_key(p) && !receiver.dirs@.contains_key(p)
}

/// Whether the receiver's file `p` is extraneous: nothing stands there on the sender, and it is
/// not ignored.
pub open spec fn is_extraneous(
    sender: &Indexed,
    receiver: &Indexed,
    ignore: &IgnoreSet,
    p: Seq<char>,
) -> bool {
    &&& receiver.files@.contains_key(p)
    &&& !sender.files@.contains_key(p)
    &&& !sender.dirs@.contains_key(p)
    &&& !ignore.ignores(p, false)
}

/// Whether the list holds exactly the wanted paths, each once.
pub open spec fn exactly(list: Seq<Seq<char>>, wanted: spec_fn(Seq<char>) -> bool) -> bool {
    &&& list.no_duplicates()
    &&& forall|p: Seq<char>| #[trigger] list.contains(p) <==> wanted(p)
}

/// Whether no path stands before one with fewer components.
pub open spec fn shallow_first(list: Seq<Seq<char>>) -> bool {
    forall|i: int, j: int|
        0 <= i < j < list.len() ==> path::comps(#[trigger] list[i]).len() <= path::comps(
            #[trigger] list[j],
        ).len()
}

/// Whether no path stands before one with more components.
pub open spec fn deep_first(list: Seq<Seq<char>>) -> bool {
    forall|i: int, j: int|
        0 <= i < j < list.len() ==> path::comps(#[trigger] list[i]).len() >= path::comps(
            #[trigger] list[j],
        ).len()
}

/// Whether each path comes before the next.
pub open spec fn in_path_order(list: Seq<Seq<char>>) -> bool {
    forall|i: int, j: int|
        0 <= i < j < list.len() ==> path::path_precedes(#[trigger] list[i], #[trigger] list[j])
}

/// The paths of the items.
pub open spec fn item_paths(items: Seq<TransferItem>) -> Seq<Seq<char>> {
    Seq::new(items.len(), |i: int| items[i].rel@)
}

/// The sizes of the items, together.
pub open spec fn sum_of_sizes(items: Seq<TransferItem>) -> nat
    decreases items.len(),
{
    if items.len() == 0 {
        0
    } else {
        sum_of_sizes(items.drop_last()) + items.last().sender_len as nat
    }
}

/// Whether an item says of its file what both sides say.
pub open spec fn item_is_true(sender: &Indexed, receiver: &Indexed, item: TransferItem) -> bool {
    let s = sender.files@[item.rel@];
    &&& item.sender_len == s.len
    &&& item.sender_mtime == s.mtime
    &&& item.sender_mode == s.mode
    &&& item.basis_exists == (receiver.files@.contains_key(item.rel@)
        && !receiver.dirs@.contains_key(item.rel@))
}

/// Whether `plan` is what has to be done.
pub open spec fn is_plan(
    plan: &SyncPlan,
    sender: &Indexed,
    receiver: &Indexed,
    ignore: &IgnoreSet,
    delete: bool,
    digests: Option<Seq<DigestPair>>,
) -> bool {
    &&& exactly(text::views(plan.retype@), |p: Seq<char>| needs_retype(sender, receiver, p))
    &&& in_path_order(text::views(plan.retype@))
    &&& exactly(text::views(plan.create_dirs@), |p: Seq<char>| needs_dir(sender, receiver, p))
    &&& shallow_first(text::views(plan.create_dirs@))
    &&& exactly(
        item_paths(plan.transfer@),
        |p: Seq<char>| needs_transfer(sender, receiver, digests, p),
    )
    &&& forall|i: int|
        0 <= i < plan.transfer@.len() ==> item_is_true(
            sender,
            receiver,
            #[trigger] plan.transfer@[i],
        )
    &&& exactly(
        text::views(plan.delete@),
        |p: Seq<char>| delete && is_extraneous(sender, receiver, ignore, p),
    )
    &&& plan.total_bytes == if sum_of_sizes(plan.transfer@) <= u64::MAX {
        sum_of_sizes(plan.transfer@) as u64
    } else {
        u64::MAX
    }
}

proof fn lemma_lists_step(order: Seq<EntryView>, i: int)
    requires
        0 <= i < order.len(),
    ensures
        forall|p: Seq<char>| #[trigger]
            scan::lists(order.take(i + 1), p) <==> (scan::lists(order.take(i), p) || p
                == order[i].rel_path),
{
    assert forall|p: Seq<char>| #[trigger]
        scan::lists(order.take(i + 1), p) <==> (scan::lists(order.take(i), p) || p
            == order[i].rel_path) by {
        if scan::lists(order.take(i + 1), p) {
            let k = choose|k: int|
                0 <= k < order.take(i + 1).len() && (#[trigger] order.take(i + 1)[k]).rel_path == p;
            if k < i {
                assert(order.take(i)[k].rel_path == p);
            }
        }
        if scan::lists(order.take(i), p) {
            let k = choose|k: int|
                0 <= k < order.take(i).len() && (#[trigger] order.take(i)[k]).rel_path == p;
            assert(order.take(i + 1)[k].rel_path == p);
        }
        assert(order.take(i + 1)[i].rel_path == order[i].rel_path);
    }
}

proof fn lemma_not_yet_listed(order: Seq<EntryView>, i: int)
    requires
        scan::distinct(order),
        0 <= i < order.len(),
    ensures
        !scan::lists(order.take(i), order[i].rel_path),
{
    if scan::lists(order.take(i), order[i].rel_path) {
        let k = choose|k: int|
            0 <= k < order.take(i).len() && (#[trigger] order.take(i)[k]).rel_path
                == order[i].rel_path;
        assert(order[k].rel_path == order[i].rel_path);
    }
}

/// One more path that was not in the list.
proof fn lemma_push_path(list: Seq<Seq<char>>, q: Seq<char>)
    requires
        list.no_duplicates(),
        !list.contains(q),
    ensures
        list.push(q).no_duplicates(),
        forall|p: Seq<char>| #[trigger] list.push(q).contains(p) <==> (list.contains(p) || p == q),
{
    let grown = list.push(q);
    assert forall|p: Seq<char>| #[trigger] grown.contains(p) <==> (list.contains(p) || p == q) by {
        if list.contains(p) {
            let k = choose|k: int| 0 <= k < list.len() && list[k] == p;
            assert(grown[k] == p);
        }
        if grown.contains(p) {
            let k = choose|k: int| 0 <= k < grown.len() && grown[k] == p;
            if k < list.len() {
                assert(list[k] == p);
            }
        }
        assert(grown[list.len() as int] == q);
    }
    assert forall|i: int, j: int|
        0 <= i < grown.len() && 0 <= j < grown.len() && i != j implies grown[i] != grown[j] by {
        if i == list.len() {
            assert(list.contains(list[j]));
        } else if j == list.len() {
            assert(list.contains(list[i]));
        }
    }
}

/// The paths of `list`, those with fewer components first.
pub fn shallow_to_deep(list: &Vec<String>) -> (r: Vec<String>)
    requires
        text::views(list@).no_duplicates(),
    ensures
        exactly(text::views(r@), |p: Seq<char>| text::views(list@).contains(p)),
        shallow_first(text::views(r@)),
{
    let ghost all = text::views(list@);
    let n = list.len();
    let mut depths: Vec<usize> = Vec::new();
    let mut deepest: usize = 0;
    let mut i: usize = 0;
    while i < n
        invariant
            i <= n == list@.len(),
            all == text::views(list@),
            depths@.len() == i,
            forall|k: int| 0 <= k < i ==> #[trigger] depths@[k] == path::comps(all[k]).len(),
            forall|k: int| 0 <= k < i ==> #[trigger] depths@[k] <= deepest,
        decreases n - i,
    {
        let d = path::depth(list[i].as_str());
        assert(all[i as int] == list@[i as int]@);
        if d > deepest {
            deepest = d;
        }
        depths.push(d);
        i = i + 1;
    }
    let mut out: Vec<String> = Vec::new();
    let mut d: usize = 0;
    let mut more = true;
    while more
        invariant
            n == list@.len(),
            all == text::views(list@),
            all.len() == n,
            all.no_duplicates(),
            depths@.len() == n,
            d <= deepest,
            forall|k: int| 0 <= k < n ==> #[trigger] depths@[k] == path::comps(all[k]).len(),
            forall|k: int| 0 <= k < n ==> #[trigger] depths@[k] <= deepest,
            text::views(out@).no_duplicates(),
            shallow_first(text::views(out@)),
            forall|p: Seq<char>| #[trigger]
                text::views(out@).contains(p) ==> all.contains(p) && (more ==> path::comps(p).len()
                    < d),
            forall|k: int|
                0 <= k < n && (!more || depths@[k] < d) ==> text::views(out@).contains(
                    #[trigger] all[k],
                ),
        decreases
            deepest - d,
            if more {
                1int
            } else {
                0int
            },
    {
        let mut i: usize = 0;
        while i < n
            invariant
                i <= n == list@.len(),
                all == text::views(list@),
                all.len() == n,
                all.no_duplicates(),
                depths@.len() == n,
                forall|k: int| 0 <= k < n ==> #[trigger] depths@[k] == path::comps(all[k]).len(),
                text::views(out@).no_duplicates(),
                shallow_first(text::views(out@)),
                forall|p: Seq<char>| #[trigger]
                    text::views(out@).contains(p) ==> all.contains(p) && path::comps(p).len() <= d
                        && (path::comps(p).len() == d ==> exists|k: int| 0 <= k < i && all[k] == p),
                forall|k: int|
                    0 <= k < n && (depths@[k] < d || (depths@[k] == d && k < i)) ==> text::views(
                        out@,
                    ).contains(#[trigger] all[k]),
            decreases n - i,
        {
            if depths[i] == d {
                let ghost before = text::views(out@);
                let ghost q = all[i as int];
                proof {
                    assert(depths@[i as int] == path::comps(q).len());
                    if before.contains(q) {
                        let k = choose|k: int| 0 <= k < i && all[k] == q;
                        assert(all[k] != all[i as int]);
                    }
                    lemma_push_path(before, q);
                    assert forall|a: int| 0 <= a < before.len() implies path::comps(
                        #[trigger] before[a],
                    ).len() <= d by {
                        assert(before.contains(before[a]));
                    }
                    assert(all.contains(q));
                }
                out.push(list[i].clone());
                proof {
                    assert(text::views(out@) =~= before.push(q));
                    assert forall|p: Seq<char>| #[trigger]
                        text::views(out@).contains(p) && path::comps(p).len() == d implies exists|
                        k: int,
                    | 0 <= k < i + 1 && all[k] == p by {
                        if p == q {
                            assert(all[i as int] == p);
                        } else {
                            assert(before.contains(p));
                            let k = choose|k: int| 0 <= k < i && all[k] == p;
                            assert(0 <= k < i + 1 && all[k] == p);
                        }
                    }
                    assert forall|k: int|
                        0 <= k < n && (depths@[k] < d || (depths@[k] == d && k < i + 1)) implies text::views(
                        out@,
                    ).contains(#[trigger] all[k]) by {
                        if k != i {
                            assert(before.contains(all[k]));
                        }
                    }
                }
            } else {
                proof {
                    assert forall|p: Seq<char>| #[trigger]
                        text::views(out@).contains(p) && path::comps(p).len() == d implies exists|
                        k: int,
                    | 0 <= k < i + 1 && all[k] == p by {
                        let k = choose|k: int| 0 <= k < i && all[k] == p;
                        assert(0 <= k < i + 1 && all[k] == p);
                    }
                }
            }
            i = i + 1;
        }
        if d == deepest {
            more = false;
        } else {
            d = d + 1;
        }
    }
    proof {
        assert forall|p: Seq<char>| #[trigger]
            text::views(out@).contains(p) <==> text::views(list@).contains(p) by {
            if all.contains(p) {
                let k = choose|k: int| 0 <= k < all.len() && all[k] == p;
                assert(text::views(out@).contains(all[k]));
            }
        }
    }
    out
}

/// Adds a plain path to plain paths in path order, once.
fn insert_in_order(list: &mut Vec<String>, q: &str)
    requires
        in_path_order(text::views(old(list)@)),
        forall|i: int|
            0 <= i < old(list)@.len() ==> path::normal(#[trigger] text::views(old(list)@)[i])
                == text::views(old(list)@)[i],
        path::normal(q@) == q@,
    ensures
        in_path_order(text::views(final(list)@)),
        forall|i: int|
            0 <= i < final(list)@.len() ==> path::normal(#[trigger] text::views(final(list)@)[i])
                == text::views(final(list)@)[i],
        forall|p: Seq<char>| #[trigger]
            text::views(final(list)@).contains(p) <==> (text::views(old(list)@).contains(p) || p
                == q@),
{
    let ghost before = text::views(list@);
    let mut i: usize = 0;
    while i < list.len() && path::path_comes_before(list[i].as_str(), q)
        invariant
            i <= list@.len(),
            before == text::views(list@),
            forall|k: int| 0 <= k < i ==> path::path_precedes(#[trigger] before[k], q@),
        decreases list@.len() - i,
    {
        i = i + 1;
    }
    if i < list.len() && !path::path_comes_before(q, list[i].as_str()) {
        proof {
            path::lemma_components_order(path::comps(q@), path::comps(before[i as int]));
            path::law_normal_decides_sameness(q@, before[i as int]);
            assert(before[i as int] == q@);
            assert(before.contains(q@));
        }
        return;
    }
    list.insert(i, q.to_owned());
    proof {
        let after = text::views(list@);
        assert(after =~= before.insert(i as int, q@));
        assert forall|a: int, b: int| 0 <= a < b < after.len() implies path::path_precedes(
            #[trigger] after[a],
            #[trigger] after[b],
        ) by {
            if b < i {
                assert(after[a] == before[a] && after[b] == before[b]);
            } else if b == i {
                assert(after[a] == before[a]);
            } else if a == i {
                assert(after[b] == before[b - 1]);
                if b - 1 > i {
                    assert(path::path_precedes(before[i as int], before[b - 1]));
                    path::lemma_components_transitive(
                        path::comps(q@),
                        path::comps(before[i as int]),
                        path::comps(before[b - 1]),
                    );
                }
            } else if a < i {
                assert(after[a] == before[a] && after[b] == before[b - 1]);
            } else {
                assert(after[a] == before[a - 1] && after[b] == before[b - 1]);
            }
        }
        assert forall|k: int| 0 <= k < after.len() implies path::normal(#[trigger] after[k])
            == after[k] by {
            if k < i {
                assert(after[k] == before[k]);
            } else if k > i {
                assert(after[k] == before[k - 1]);
            }
        }
        assert forall|p: Seq<char>| #[trigger] after.contains(p) <==> (before.contains(p) || p
            == q@) by {
            if before.contains(p) {
                let k = choose|k: int| 0 <= k < before.len() && before[k] == p;
                if k < i {
                    assert(after[k] == p);
                } else {
                    assert(after[k + 1] == p);
                }
            }
            assert(after[i as int] == q@);
            if after.contains(p) {
                let k = choose|k: int| 0 <= k < after.len() && after[k] == p;
                if k < i {
                    assert(before[k] == p);
                } else if k > i {
                    assert(before[k - 1] == p);
                }
            }
        }
    }
}

/// Paths in path order are all different.
proof fn lemma_in_order_no_duplicates(list: Seq<Seq<char>>)
    requires
        in_path_order(list),
    ensures
        list.no_duplicates(),
{
    assert forall|i: int, j: int|
        0 <= i < list.len() && 0 <= j < list.len() && i != j implies list[i] != list[j] by {
        path::lemma_components_order(path::comps(list[i]), path::comps(list[j]));
        if i < j {
            assert(path::path_precedes(list[i], list[j]));
        } else {
            assert(path::path_precedes(list[j], list[i]));
        }
    }
}

/// Adds to `list` the paths that are in both maps.
fn add_shared(list: &mut Vec<String>, a: &PathMap, b: &PathMap)
    requires
        a.wf(),
        b.wf(),
        in_path_order(text::views(old(list)@)),
        forall|i: int|
            0 <= i < old(list)@.len() ==> path::normal(#[trigger] text::views(old(list)@)[i])
                == text::views(old(list)@)[i],
    ensures
        in_path_order(text::views(final(list)@)),
        forall|i: int|
            0 <= i < final(list)@.len() ==> path::normal(#[trigger] text::views(final(list)@)[i])
                == text::views(final(list)@)[i],
        forall|p: Seq<char>| #[trigger]
            text::views(final(list)@).contains(p) <==> (text::views(old(list)@).contains(p) || (
            a@.contains_key(p) && b@.contains_key(p))),
{
    let ghost before = text::views(list@);
    let ghost order = a.order();
    let n = a.len();
    let mut i: usize = 0;
    proof {
        a.lemma_paths();
        assert(order.take(0).len() == 0);
    }
    while i < n
        invariant
            i <= n == order.len(),
            order == a.order(),
            a.wf(),
            b.wf(),
            scan::plain_paths(order),
            in_path_order(text::views(list@)),
            forall|k: int|
                0 <= k < list@.len() ==> path::normal(#[trigger] text::views(list@)[k])
                    == text::views(list@)[k],
            forall|p: Seq<char>| #[trigger]
                text::views(list@).contains(p) <==> (before.contains(p) || (scan::lists(
                    order.take(i as int),
                    p,
                ) && b@.contains_key(p))),
        decreases n - i,
    {
        let e = a.at(i);
        proof {
            lemma_lists_step(order, i as int);
            assert(path::normal(order[i as int].rel_path) == order[i as int].rel_path);
        }
        if b.contains_key(e.rel_path.as_str()) {
            insert_in_order(list, e.rel_path.as_str());
        }
        i = i + 1;
    }
    assert(order.take(i as int) =~= order);
}

/// The paths of `a` that are not in `b`.
fn missing(a: &PathMap, b: &PathMap) -> (r: Vec<String>)
    requires
        a.wf(),
        b.wf(),
    ensures
        exactly(text::views(r@), |p: Seq<char>| a@.contains_key(p) && !b@.contains_key(p)),
{
    let ghost order = a.order();
    let n = a.len();
    let mut out: Vec<String> = Vec::new();
    let mut i: usize = 0;
    proof {
        a.lemma_paths();
        assert(order.take(0).len() == 0);
    }
    while i < n
        invariant
            i <= n == order.len(),
            order == a.order(),
            a.wf(),
            b.wf(),
            scan::distinct(order),
            text::views(out@).no_duplicates(),
            forall|p: Seq<char>| #[trigger]
                text::views(out@).contains(p) <==> (scan::lists(order.take(i as int), p)
                    && !b@.contains_key(p)),
        decreases n - i,
    {
        let e = a.at(i);
        let ghost q = e@.rel_path;
        proof {
            lemma_lists_step(order, i as int);
            lemma_not_yet_listed(order, i as int);
        }
        if !b.contains_key(e.rel_path.as_str()) {
            let ghost before = text::views(out@);
            proof {
                lemma_push_path(before, q);
            }
            out.push(e.rel_path.clone());
            assert(text::views(out@) =~= before.push(q));
        }
        i = i + 1;
    }
    assert(order.take(i as int) =~= order);
    out
}

/// The sender's files that the receiver has too: those whose digests a comparison by content
/// needs, in the order in which `build` takes them.
pub fn common_files(sender: &Indexed, receiver: &Indexed) -> (r: Vec<String>)
    requires
        sender.wf(),
        receiver.wf(),
    ensures
        text::views(r@) == common(sender.files.order(), receiver.files@),
{
    let ghost order = sender.files.order();
    let n = sender.files.len();
    let mut out: Vec<String> = Vec::new();
    let mut i: usize = 0;
    assert(order.take(0).len() == 0);
    assert(text::views(out@) =~= common(order.take(0), receiver.files@));
    while i < n
        invariant
            i <= n == order.len(),
            order == sender.files.order(),
            receiver.wf(),
            text::views(out@) == common(order.take(i as int), receiver.files@),
        decreases n - i,
    {
        let e = sender.files.at(i);
        proof {
            assert(order.take(i + 1).drop_last() =~= order.take(i as int));
            assert(order.take(i + 1).last() == order[i as int]);
        }
        if receiver.files.contains_key(e.rel_path.as_str()) {
            let ghost before = text::views(out@);
            out.push(e.rel_path.clone());
            assert(text::views(out@) =~= before.push(e@.rel_path));
        }
        i = i + 1;
    }
    assert(order.take(i as int) =~= order);
    out
}

/// What the common paths of a list are: its own, in order, each once.
proof fn lemma_common(order: Seq<EntryView>, other: Map<Seq<char>, EntryView>, i: int)
    requires
        scan::distinct(order),
        0 <= i <= order.len(),
    ensures
        common(order.take(i), other).is_prefix_of(common(order, other)),
        common(order, other).no_duplicates(),
        forall|p: Seq<char>| #[trigger]
            common(order, other).contains(p) ==> scan::lists(order, p) && other.contains_key(p),
    decreases order.len(),
{
    let all = common(order, other);
    if order.len() == 0 {
        assert(order.take(i) =~= order);
    } else {
        let head = order.drop_last();
        assert(scan::distinct(head)) by {
            assert forall|a: int, b: int| 0 <= a < b < head.len() implies (
            #[trigger] head[a]).rel_path != (#[trigger] head[b]).rel_path by {
                assert(order[a].rel_path != order[b].rel_path);
            }
        }
        let q = order.last().rel_path;
        let before = common(head, other);
        if i < order.len() {
            lemma_common(head, other, i);
            assert(head.take(i) =~= order.take(i));
            assert(common(order.take(i), other) =~= all.take(
                common(order.take(i), other).len() as int,
            )) by {
                assert(common(order.take(i), other) =~= before.take(
                    common(order.take(i), other).len() as int,
                ));
            }
        } else {
            lemma_common(head, other, head.len() as int);
            assert(order.take(i) =~= order);
        }
        assert forall|p: Seq<char>| scan::lists(head, p) implies scan::lists(order, p) by {
            let k = choose|k: int| 0 <= k < head.len() && (#[trigger] head[k]).rel_path == p;
            assert(order[k].rel_path == p);
        }
        assert(order[order.len() - 1].rel_path == q);
        assert(!scan::lists(head, q)) by {
            assert(order.take(order.len() - 1) =~= head);
            lemma_not_yet_listed(order, order.len() - 1);
        }
        if other.contains_key(q) {
            lemma_push_path(before, q);
        }
    }
}

/// A listed path that the other side has too is among the common ones.
pub proof fn lemma_common_has(
    order: Seq<EntryView>,
    other: Map<Seq<char>, EntryView>,
    p: Seq<char>,
)
    requires
        scan::lists(order, p),
        other.contains_key(p),
    ensures
        common(order, other).contains(p),
    decreases order.len(),
{
    let k = choose|k: int| 0 <= k < order.len() && (#[trigger] order[k]).rel_path == p;
    let all = common(order, other);
    if k == order.len() - 1 {
        assert(all[all.len() - 1] == p);
    } else {
        let head = order.drop_last();
        assert(head[k].rel_path == p);
        lemma_common_has(head, other, p);
        let before = common(head, other);
        let j = choose|j: int| 0 <= j < before.len() && before[j] == p;
        assert(all[j] == p);
    }
}

/// The items to transfer, and their sizes together.
fn transfers(
    sender: &Indexed,
    receiver: &Indexed,
    digests: Option<&Vec<DigestPair>>,
) -> (r: (Vec<TransferItem>, u64))
    requires
        sender.wf(),
        receiver.wf(),
        digests matches Some(pairs) ==> pairs@.len() == common(
            sender.files.order(),
            receiver.files@,
        ).len(),
    ensures
        exactly(
            item_paths(r.0@),
            |p: Seq<char>|
                needs_transfer(
                    sender,
                    receiver,
                    match digests {
                        Some(v) => Some(v@),
                        None => None,
                    },
                    p,
                ),
        ),
        forall|i: int|
            0 <= i < r.0@.len() ==> item_is_true(sender, receiver, #[trigger] r.0@[i]),
        r.1 == if sum_of_sizes(r.0@) <= u64::MAX {
            sum_of_sizes(r.0@) as u64
        } else {
            u64::MAX
        },
{
    let ghost order = sender.files.order();
    let ghost both = common(order, receiver.files@);
    let ghost dg: Option<Seq<DigestPair>> = match digests {
        Some(v) => Some(v@),
        None => None,
    };
    let n = sender.files.len();
    let mut items: Vec<TransferItem> = Vec::new();
    let mut total: u64 = 0;
    let mut j: usize = 0;
    let mut i: usize = 0;
    proof {
        sender.files.lemma_paths();
        assert(order.take(0).len() == 0);
        assert(common(order.take(0), receiver.files@).len() == 0);
    }
    while i < n
        invariant
            i <= n == order.len(),
            order == sender.files.order(),
            both == common(order, receiver.files@),
            sender.wf(),
            receiver.wf(),
            scan::distinct(order),
            dg == (match digests {
                Some(v) => Some(v@),
                None => None,
            }),
            digests matches Some(pairs) ==> pairs@.len() == both.len(),
            j == common(order.take(i as int), receiver.files@).len(),
            j <= i,
            item_paths(items@).no_duplicates(),
            forall|p: Seq<char>| #[trigger]
                item_paths(items@).contains(p) <==> (scan::lists(order.take(i as int), p)
                    && needs_transfer(sender, receiver, dg, p)),
            forall|k: int|
                0 <= k < items@.len() ==> item_is_true(sender, receiver, #[trigger] items@[k]),
            total == if sum_of_sizes(items@) <= u64::MAX {
                sum_of_sizes(items@)
            } else {
                u64::MAX as nat
            },
        decreases n - i,
    {
        let e = sender.files.at(i);
        let ghost q = e@.rel_path;
        proof {
            lemma_lists_step(order, i as int);
            lemma_not_yet_listed(order, i as int);
            scan::lemma_entry_at(order, i as int);
            assert(order.take(i + 1).drop_last() =~= order.take(i as int));
            assert(order.take(i + 1).last() == order[i as int]);
            lemma_common(order, receiver.files@, i + 1);
        }
        let there = receiver.files.get(e.rel_path.as_str());
        let changed = match there {
            None => true,
            Some(re) => {
                match digests {
                    Some(pairs) => {
                        proof {
                            let upto = common(order.take(i + 1), receiver.files@);
                            assert(upto[j as int] == q);
                            assert(both[j as int] == q) by {
                                assert(upto =~= both.take(upto.len() as int));
                            }
                            assert(digests_differ(both, pairs@, q) == (pairs@[j as int].sender@
                                != pairs@[j as int].receiver@)) by {
                                if digests_differ(both, pairs@, q) {
                                    let k = choose|k: int|
                                        0 <= k < both.len() && #[trigger] both[k] == q
                                            && pairs@[k].sender@ != pairs@[k].receiver@;
                                    assert(k == j);
                                }
                            }
                        }
                        let same = same_digest(&pairs[j].sender, &pairs[j].receiver);
                        j = j + 1;
                        !same
                    },
                    None => {
                        j = j + 1;
                        let apart: i128 = (e.mtime as i128) - (re.mtime as i128);
                        !(e.len == re.len && -(MTIME_TOLERANCE_MS as i128) <= apart && apart <= (
                        MTIME_TOLERANCE_MS as i128))
                    },
                }
            },
        };
        assert(changed == needs_transfer(sender, receiver, dg, q));
        if changed {
            let ghost before = items@;
            let basis_exists = there.is_some() && !receiver.dirs.contains_key(e.rel_path.as_str());
            let item = TransferItem {
                rel: e.rel_path.clone(),
                sender_len: e.len,
                sender_mtime: e.mtime,
                sender_mode: e.mode,
                basis_exists,
            };
            assert(item_is_true(sender, receiver, item));
            items.push(item);
            total = total.saturating_add(e.len);
            proof {
                lemma_push_path(item_paths(before), q);
                assert(item_paths(items@) =~= item_paths(before).push(q));
                assert(items@.drop_last() =~= before);
            }
        }
        i = i + 1;
    }
    assert(order.take(i as int) =~= order);
    (items, total)
}

/// Whether the listed paths that the sender does not have can be put to the ignore rules: none of
/// them starts at the root.
pub open spec fn others_are_relative(sender: &Indexed, listed: Map<Seq<char>, EntryView>) -> bool {
    forall|p: Seq<char>|
        #![trigger listed.contains_key(p)]
        listed.contains_key(p) && !sender.files@.contains_key(p) && !sender.dirs@.contains_key(p)
            ==> !path::rooted(p)
}

/// Whether the listed paths that the sender does not have can be put to the ignore rules.
pub fn can_be_judged(sender: &Indexed, listed: &PathMap) -> (r: bool)
    requires
        sender.wf(),
        listed.wf(),
    ensures
        r == others_are_relative(sender, listed@),
{
    let ghost order = listed.order();
    let n = listed.len();
    let mut i: usize = 0;
    proof {
        listed.lemma_paths();
    }
    while i < n
        invariant
            i <= n == order.len(),
            order == listed.order(),
            scan::distinct(order),
            sender.wf(),
            forall|k: int|
                0 <= k < i && !sender.files@.contains_key((#[trigger] order[k]).rel_path)
                    && !sender.dirs@.contains_key(order[k].rel_path) ==> !path::rooted(
                    order[k].rel_path,
                ),
        decreases n - i,
    {
        let e = listed.at(i);
        let rel = e.rel_path.as_str();
        if path::is_absolute(rel) && !sender.files.contains_key(rel) && !sender.dirs.contains_key(
            rel,
        ) {
            proof {
                scan::lemma_entry_at(order, i as int);
                assert(listed@.contains_key(e@.rel_path));
            }
            return false;
        }
        i = i + 1;
    }
    true
}

/// The receiver's files that nothing on the sender stands for and that are not ignored.
fn extraneous(sender: &Indexed, receiver: &Indexed, ignore: &IgnoreSet) -> (r: Vec<String>)
    requires
        sender.wf(),
        receiver.wf(),
        others_are_relative(sender, receiver.files@),
    ensures
        exactly(text::views(r@), |p: Seq<char>| is_extraneous(sender, receiver, ignore, p)),
{
    let ghost order = receiver.files.order();
    let n = receiver.files.len();
    let mut out: Vec<String> = Vec::new();
    let mut i: usize = 0;
    proof {
        receiver.files.lemma_paths();
        assert(order.take(0).len() == 0);
    }
    while i < n
        invariant
            i <= n == order.len(),
            order == receiver.files.order(),
            sender.wf(),
            scan::distinct(order),
            others_are_relative(sender, receiver.files@),
            text::views(out@).no_duplicates(),
            forall|p: Seq<char>| #[trigger]
                text::views(out@).contains(p) <==> (scan::lists(order.take(i as int), p)
                    && is_extraneous(sender, receiver, ignore, p)),
        decreases n - i,
    {
        let e = receiver.files.at(i);
        let rel = e.rel_path.as_str();
        let ghost q = e@.rel_path;
        proof {
            lemma_lists_step(order, i as int);
            lemma_not_yet_listed(order, i as int);
            scan::lemma_entry_at(order, i as int);
            assert(receiver.files@.contains_key(q));
        }
        if !sender.files.contains_key(rel) && !sender.dirs.contains_key(rel) && !ignore.is_ignored(
            rel,
            false,
        ) {
            let ghost before = text::views(out@);
            proof {
                lemma_push_path(before, q);
            }
            out.push(e.rel_path.clone());
            assert(text::views(out@) =~= before.push(q));
        }
        i = i + 1;
    }
    assert(order.take(i as int) =~= order);
    out
}

/// Whether the receiver's directory `p` goes once it is empty: nothing stands there on the
/// sender, and it is not ignored.
pub open spec fn is_prunable(
    sender: &Indexed,
    receiver: &Indexed,
    ignore: &IgnoreSet,
    p: Seq<char>,
) -> bool {
    &&& receiver.dirs@.contains_key(p)
    &&& !sender.dirs@.contains_key(p)
    &&& !sender.files@.contains_key(p)
    &&& !ignore.ignores(p, true)
}

/// The receiver's directories to remove if they are empty, what they hold before themselves.
pub fn prunable(sender: &Indexed, receiver: &Indexed, ignore: &IgnoreSet) -> (r: Vec<String>)
    requires
        sender.wf(),
        receiver.wf(),
        others_are_relative(sender, receiver.dirs@),
    ensures
        exactly(text::views(r@), |p: Seq<char>| is_prunable(sender, receiver, ignore, p)),
        deep_first(text::views(r@)),
{
    let ghost order = receiver.dirs.order();
    let n = receiver.dirs.len();
    let mut found: Vec<String> = Vec::new();
    let mut i: usize = 0;
    proof {
        receiver.dirs.lemma_paths();
        assert(order.take(0).len() == 0);
    }
    while i < n
        invariant
            i <= n == order.len(),
            order == receiver.dirs.order(),
            sender.wf(),
            scan::distinct(order),
            others_are_relative(sender, receiver.dirs@),
            text::views(found@).no_duplicates(),
            forall|p: Seq<char>| #[trigger]
                text::views(found@).contains(p) <==> (scan::lists(order.take(i as int), p)
                    && is_prunable(sender, receiver, ignore, p)),
        decreases n - i,
    {
        let e = receiver.dirs.at(i);
        let rel = e.rel_path.as_str();
        let ghost q = e@.rel_path;
        proof {
            lemma_lists_step(order, i as int);
            lemma_not_yet_listed(order, i as int);
            scan::lemma_entry_at(order, i as int);
            assert(receiver.dirs@.contains_key(q));
        }
        if !sender.dirs.contains_key(rel) && !sender.files.contains_key(rel) && !ignore.is_ignored(
            rel,
            true,
        ) {
            let ghost before = text::views(found@);
            proof {
                lemma_push_path(before, q);
            }
            found.push(e.rel_path.clone());
            assert(text::views(found@) =~= before.push(q));
        }
        i = i + 1;
    }
    assert(order.take(i as int) =~= order);
    let upward = shallow_to_deep(&found);
    reversed(&upward)
}

/// The list from its end to its start.
fn reversed(list: &Vec<String>) -> (r: Vec<String>)
    requires
        text::views(list@).no_duplicates(),
        shallow_first(text::views(list@)),
    ensures
        exactly(text::views(r@), |p: Seq<char>| text::views(list@).contains(p)),
        deep_first(text::views(r@)),
{
    let ghost all = text::views(list@);
    let n = list.len();
    let mut out: Vec<String> = Vec::new();
    let mut i: usize = 0;
    while i < n
        invariant
            i <= n == list@.len(),
            all == text::views(list@),
            out@.len() == i,
            forall|k: int| 0 <= k < i ==> (#[trigger] out@[k])@ == all[n - 1 - k],
        decreases n - i,
    {
        out.push(list[n - 1 - i].clone());
        i = i + 1;
    }
    proof {
        let back = text::views(out@);
        assert forall|p: Seq<char>| #[trigger] back.contains(p) <==> all.contains(p) by {
            if back.contains(p) {
                let k = choose|k: int| 0 <= k < back.len() && back[k] == p;
                assert(out@[k]@ == p);
                assert(all[n - 1 - k] == p);
            }
            if all.contains(p) {
                let k = choose|k: int| 0 <= k < all.len() && all[k] == p;
                assert(out@[n - 1 - k]@ == p);
                assert(back[n - 1 - k] == p);
            }
        }
        assert forall|a: int, b: int|
            0 <= a < back.len() && 0 <= b < back.len() && a != b implies back[a] != back[b] by {
            assert(out@[a]@ == all[n - 1 - a]);
            assert(out@[b]@ == all[n - 1 - b]);
        }
        assert forall|a: int, b: int| 0 <= a < b < back.len() implies path::comps(
            #[trigger] back[a],
        ).len() >= path::comps(#[trigger] back[b]).len() by {
            assert(out@[a]@ == all[n - 1 - a]);
            assert(out@[b]@ == all[n - 1 - b]);
        }
    }
    out
}

/// Compares the two sides. `digests`, when given, holds the digests of `common_files`, in their
/// order, and takes the place of the comparison by size and time. `delete` asks for what the
/// sender lacks to go.
pub fn build(
    sender: &Indexed,
    receiver: &Indexed,
    ignore: &IgnoreSet,
    delete: bool,
    digests: Option<&Vec<DigestPair>>,
) -> (plan: SyncPlan)
    requires
        sender.wf(),
        receiver.wf(),
        delete ==> others_are_relative(sender, receiver.files@),
        digests matches Some(pairs) ==> pairs@.len() == common(
            sender.files.order(),
            receiver.files@,
        ).len(),
    ensures
        is_plan(
            &plan,
            sender,
            receiver,
            ignore,
            delete,
            match digests {
                Some(v) => Some(v@),
                None => None,
            },
        ),
{
    let mut retype: Vec<String> = Vec::new();
    add_shared(&mut retype, &sender.dirs, &receiver.files);
    add_shared(&mut retype, &sender.files, &receiver.dirs);
    proof {
        lemma_in_order_no_duplicates(text::views(retype@));
    }
    let lacking = missing(&sender.dirs, &receiver.dirs);
    let create_dirs = shallow_to_deep(&lacking);
    let (transfer, total_bytes) = transfers(sender, receiver, digests);
    let gone = if delete {
        extraneous(sender, receiver, ignore)
    } else {
        Vec::new()
    };
    SyncPlan { retype, create_dirs, transfer, delete: gone, total_bytes }
}


/// Without digests, a file that both sides have is transferred exactly if its sizes differ or its
/// modification times are more than two seconds apart, whichever side is the newer one.
pub proof fn law_size_and_time_decide(
    plan: &SyncPlan,
    sender: &Indexed,
    receiver: &Indexed,
    ignore: &IgnoreSet,
    delete: bool,
    p: Seq<char>,
)
    requires
        is_plan(plan, sender, receiver, ignore, delete, None),
        sender.files@.contains_key(p),
        receiver.files@.contains_key(p),
    ensures
        sender.files@[p].len != receiver.files@[p].len ==> item_paths(plan.transfer@).contains(p),
        sender.files@[p].mtime - receiver.files@[p].mtime > 2000 ==> item_paths(
            plan.transfer@,
        ).contains(p),
        receiver.files@[p].mtime - sender.files@[p].mtime > 2000 ==> item_paths(
            plan.transfer@,
        ).contains(p),
        item_paths(plan.transfer@).contains(p) ==> sender.files@[p].len != receiver.files@[p].len
            || sender.files@[p].mtime - receiver.files@[p].mtime > 2000
            || receiver.files@[p].mtime - sender.files@[p].mtime > 2000,
{
}

/// Without digests it does not matter which side sends: a file that both sides have goes one way
/// exactly if it goes the other way.
pub proof fn law_change_is_mutual(
    there: &SyncPlan,
    back: &SyncPlan,
    a: &Indexed,
    b: &Indexed,
    ignore: &IgnoreSet,
    delete: bool,
    p: Seq<char>,
)
    requires
        is_plan(there, a, b, ignore, delete, None),
        is_plan(back, b, a, ignore, delete, None),
        a.files@.contains_key(p),
        b.files@.contains_key(p),
    ensures
        item_paths(there.transfer@).contains(p) <==> item_paths(back.transfer@).contains(p),
{
}

/// A file that only the sender has is transferred, and nothing is that the sender does not have,
/// with digests and without.
pub proof fn law_new_files_are_transferred(
    plan: &SyncPlan,
    sender: &Indexed,
    receiver: &Indexed,
    ignore: &IgnoreSet,
    delete: bool,
    digests: Option<Seq<DigestPair>>,
    p: Seq<char>,
)
    requires
        is_plan(plan, sender, receiver, ignore, delete, digests),
    ensures
        sender.files@.contains_key(p) && !receiver.files@.contains_key(p) ==> item_paths(
            plan.transfer@,
        ).contains(p),
        !sender.files@.contains_key(p) ==> !item_paths(plan.transfer@).contains(p),
{
}

/// The common files are those of the sender that the receiver has too, and they stand in the order
/// in which the sender lists them: `place[j]` is where the `j`th of them stands there.
pub proof fn law_common_files_keep_their_order(
    order: Seq<EntryView>,
    other: Map<Seq<char>, EntryView>,
) -> (place: Seq<int>)
    ensures
        place.len() == common(order, other).len(),
        forall|j: int|
            0 <= j < place.len() ==> {
                &&& 0 <= #[trigger] place[j] < order.len()
                &&& common(order, other)[j] == order[place[j]].rel_path
            },
        forall|i: int, j: int| 0 <= i < j < place.len() ==> place[i] < place[j],
        forall|k: int|
            0 <= k < order.len() ==> (other.contains_key((#[trigger] order[k]).rel_path)
                <==> place.contains(k)),
    decreases order.len(),
{
    if order.len() == 0 {
        Seq::empty()
    } else {
        let before = order.drop_last();
        let p0 = law_common_files_keep_their_order(before, other);
        let n = before.len() as int;
        if other.contains_key(order.last().rel_path) {
            let place = p0.push(n);
            assert forall|k: int| 0 <= k < order.len() implies (other.contains_key(
                (#[trigger] order[k]).rel_path,
            ) <==> place.contains(k)) by {
                if k < n {
                    assert(before[k] == order[k]);
                    if p0.contains(k) {
                        let j = choose|j: int| 0 <= j < p0.len() && p0[j] == k;
                        assert(place[j] == k);
                    }
                    if place.contains(k) {
                        let j = choose|j: int| 0 <= j < place.len() && place[j] == k;
                        assert(j != p0.len());
                        assert(p0[j] == k);
                    }
                } else {
                    assert(place[p0.len() as int] == k);
                }
            }
            assert forall|j: int| 0 <= j < place.len() implies {
                &&& 0 <= #[trigger] place[j] < order.len()
                &&& common(order, other)[j] == order[place[j]].rel_path
            } by {
                if j < p0.len() {
                    assert(0 <= p0[j] < before.len());
                    assert(before[p0[j]] == order[p0[j]]);
                }
            }
            assert forall|i: int, j: int| 0 <= i < j < place.len() implies place[i] < place[j] by {
                assert(0 <= p0[i] < before.len());
                if j < p0.len() {
                    assert(p0[i] < p0[j]);
                }
            }
            place
        } else {
            assert forall|k: int| 0 <= k < order.len() implies (other.contains_key(
                (#[trigger] order[k]).rel_path,
            ) <==> p0.contains(k)) by {
                if k < n {
                    assert(before[k] == order[k]);
                } else if p0.contains(k) {
                    let j = choose|j: int| 0 <= j < p0.len() && p0[j] == k;
                    assert(0 <= p0[j] < before.len());
                }
            }
            assert forall|j: int| 0 <= j < p0.len() implies {
                &&& 0 <= #[trigger] p0[j] < order.len()
                &&& common(order, other)[j] == order[p0[j]].rel_path
            } by {
                assert(0 <= p0[j] < before.len());
                assert(before[p0[j]] == order[p0[j]]);
            }
            p0
        }
    }
}

/// With digests, the `j`th common file is transferred exactly if the two digests for it differ,
/// whatever its sizes and times are.
pub proof fn law_digests_decide(
    plan: &SyncPlan,
    sender: &Indexed,
    receiver: &Indexed,
    ignore: &IgnoreSet,
    delete: bool,
    pairs: Seq<DigestPair>,
    j: int,
)
    requires
        is_plan(plan, sender, receiver, ignore, delete, Some(pairs)),
        sender.files.wf(),
        0 <= j < common(sender.files.order(), receiver.files@).len(),
    ensures
        item_paths(plan.transfer@).contains(common(sender.files.order(), receiver.files@)[j])
            <==> pairs[j].sender@ != pairs[j].receiver@,
{
    let order = sender.files.order();
    let shared = common(order, receiver.files@);
    let place = law_common_files_keep_their_order(order, receiver.files@);
    let p = shared[j];
    sender.files.lemma_paths();
    assert(0 <= place[j] < order.len());
    assert(scan::lists(order, p)) by {
        assert(order[place[j]].rel_path == p);
    }
    assert(receiver.files@.contains_key(p)) by {
        assert(place.contains(place[j]));
        assert(receiver.files@.contains_key(order[place[j]].rel_path));
    }
    assert forall|k: int| 0 <= k < shared.len() && #[trigger] shared[k] == p implies k == j by {
        assert(0 <= place[k] < order.len());
        assert(order[place[k]].rel_path == order[place[j]].rel_path);
        if k < j {
            assert(place[k] < place[j]);
        } else if j < k {
            assert(place[j] < place[k]);
        }
    }
}

/// What is transferred carries the sender's size, time and permissions, and starts from the
/// receiver's version exactly if the receiver has a file there and no directory.
pub proof fn law_items_describe_the_senders_files(
    plan: &SyncPlan,
    sender: &Indexed,
    receiver: &Indexed,
    ignore: &IgnoreSet,
    delete: bool,
    digests: Option<Seq<DigestPair>>,
    i: int,
)
    requires
        is_plan(plan, sender, receiver, ignore, delete, digests),
        0 <= i < plan.transfer@.len(),
    ensures
        sender.files@.contains_key(plan.transfer@[i].rel@),
        plan.transfer@[i].sender_len == sender.files@[plan.transfer@[i].rel@].len,
        plan.transfer@[i].sender_mtime == sender.files@[plan.transfer@[i].rel@].mtime,
        plan.transfer@[i].sender_mode == sender.files@[plan.transfer@[i].rel@].mode,
        receiver.dirs@.contains_key(plan.transfer@[i].rel@) ==> !plan.transfer@[i].basis_exists,
        !receiver.files@.contains_key(plan.transfer@[i].rel@) ==> !plan.transfer@[i].basis_exists,
        receiver.files@.contains_key(plan.transfer@[i].rel@) && !receiver.dirs@.contains_key(
            plan.transfer@[i].rel@,
        ) ==> plan.transfer@[i].basis_exists,
{
    assert(item_paths(plan.transfer@)[i] == plan.transfer@[i].rel@);
    assert(item_paths(plan.transfer@).contains(plan.transfer@[i].rel@));
    assert(item_is_true(sender, receiver, plan.transfer@[i]));
}

/// A path is cleared exactly if one side has a file where the other has a directory; a directory is
/// created exactly if only the sender has it.
pub proof fn law_kinds_are_brought_in_line(
    plan: &SyncPlan,
    sender: &Indexed,
    receiver: &Indexed,
    ignore: &IgnoreSet,
    delete: bool,
    digests: Option<Seq<DigestPair>>,
    p: Seq<char>,
)
    requires
        is_plan(plan, sender, receiver, ignore, delete, digests),
    ensures
        text::views(plan.retype@).contains(p) <==> (sender.files@.contains_key(p)
            && receiver.dirs@.contains_key(p)) || (sender.dirs@.contains_key(p)
            && receiver.files@.contains_key(p)),
        text::views(plan.create_dirs@).contains(p) <==> sender.dirs@.contains_key(p)
            && !receiver.dirs@.contains_key(p),
{
    let wanted = |q: Seq<char>| needs_retype(sender, receiver, q);
    assert(wanted(p) == needs_retype(sender, receiver, p));
    let missing = |q: Seq<char>| needs_dir(sender, receiver, q);
    assert(missing(p) == needs_dir(sender, receiver, p));
}

/// A file is deleted exactly if deleting is asked for, the receiver has it, the sender has neither a
/// file nor a directory there, and it is not ignored.
pub proof fn law_only_strays_are_deleted(
    plan: &SyncPlan,
    sender: &Indexed,
    receiver: &Indexed,
    ignore: &IgnoreSet,
    delete: bool,
    digests: Option<Seq<DigestPair>>,
    p: Seq<char>,
)
    requires
        is_plan(plan, sender, receiver, ignore, delete, digests),
    ensures
        !delete ==> plan.delete@.len() == 0,
        text::views(plan.delete@).contains(p) ==> receiver.files@.contains_key(p),
        sender.files@.contains_key(p) ==> !text::views(plan.delete@).contains(p),
        sender.dirs@.contains_key(p) ==> !text::views(plan.delete@).contains(p),
        ignore.ignores(p, false) ==> !text::views(plan.delete@).contains(p),
        delete && receiver.files@.contains_key(p) && !sender.files@.contains_key(p)
            && !sender.dirs@.contains_key(p) && !ignore.ignores(p, false) ==> text::views(
            plan.delete@,
        ).contains(p),
{
    let wanted = |q: Seq<char>| delete && is_extraneous(sender, receiver, ignore, q);
    assert(wanted(p) == (delete && is_extraneous(sender, receiver, ignore, p)));
    if plan.delete@.len() > 0 {
        let q = text::views(plan.delete@)[0];
        assert(text::views(plan.delete@).contains(q));
        assert(wanted(q));
    }
}

/// No list of a plan names a path twice.
pub proof fn law_nothing_is_planned_twice(
    plan: &SyncPlan,
    sender: &Indexed,
    receiver: &Indexed,
    ignore: &IgnoreSet,
    delete: bool,
    digests: Option<Seq<DigestPair>>,
    i: int,
    j: int,
)
    requires
        is_plan(plan, sender, receiver, ignore, delete, digests),
        0 <= i < j,
    ensures
        j < plan.retype@.len() ==> plan.retype@[i]@ != plan.retype@[j]@,
        j < plan.create_dirs@.len() ==> plan.create_dirs@[i]@ != plan.create_dirs@[j]@,
        j < plan.transfer@.len() ==> plan.transfer@[i].rel@ != plan.transfer@[j].rel@,
        j < plan.delete@.len() ==> plan.delete@[i]@ != plan.delete@[j]@,
{
    if j < plan.retype@.len() {
        assert(text::views(plan.retype@)[i] != text::views(plan.retype@)[j]);
    }
    if j < plan.create_dirs@.len() {
        assert(text::views(plan.create_dirs@)[i] != text::views(plan.create_dirs@)[j]);
    }
    if j < plan.transfer@.len() {
        assert(item_paths(plan.transfer@)[i] != item_paths(plan.transfer@)[j]);
    }
    if j < plan.delete@.len() {
        assert(text::views(plan.delete@)[i] != text::views(plan.delete@)[j]);
    }
}

/// A directory is created before every directory in it.
pub proof fn law_parents_are_created_first(
    plan: &SyncPlan,
    sender: &Indexed,
    receiver: &Indexed,
    ignore: &IgnoreSet,
    delete: bool,
    digests: Option<Seq<DigestPair>>,
    i: int,
    j: int,
)
    requires
        is_plan(plan, sender, receiver, ignore, delete, digests),
        0 <= i < plan.create_dirs@.len(),
        0 <= j < plan.create_dirs@.len(),
        path::within(plan.create_dirs@[j]@, plan.create_dirs@[i]@),
        path::comps(plan.create_dirs@[i]@) != path::comps(plan.create_dirs@[j]@),
    ensures
        i < j,
{
    let list = text::views(plan.create_dirs@);
    let a = path::comps(list[i]);
    let b = path::comps(list[j]);
    if a.len() == b.len() {
        assert(a =~= b);
    }
    if j < i {
        assert(path::comps(list[j]).len() <= path::comps(list[i]).len());
    }
}

/// The bytes to transfer are the sizes of the items added up: one item more adds its size.
pub proof fn law_sizes_add_up(items: Seq<TransferItem>, item: TransferItem)
    ensures
        sum_of_sizes(Seq::empty()) == 0,
        sum_of_sizes(items.push(item)) == sum_of_sizes(items) + item.sender_len,
{
    assert(items.push(item).drop_last() =~= items);
}

/// The total of a plan is the sum of the sizes, or the largest number there is if that is smaller.
pub proof fn law_total_is_the_sum(
    plan: &SyncPlan,
    sender: &Indexed,
    receiver: &Indexed,
    ignore: &IgnoreSet,
    delete: bool,
    digests: Option<Seq<DigestPair>>,
)
    requires
        is_plan(plan, sender, receiver, ignore, delete, digests),
    ensures
        plan.total_bytes <= sum_of_sizes(plan.transfer@),
        plan.total_bytes < u64::MAX ==> plan.total_bytes == sum_of_sizes(plan.transfer@),
{
}


/// A directory of the receiver goes when it is empty exactly if the sender has neither a directory
/// nor a file there and it is not ignored.
pub proof fn law_only_stray_directories_are_pruned(
    sender: &Indexed,
    receiver: &Indexed,
    ignore: &IgnoreSet,
    p: Seq<char>,
)
    ensures
        !receiver.dirs@.contains_key(p) ==> !is_prunable(sender, receiver, ignore, p),
        sender.dirs@.contains_key(p) ==> !is_prunable(sender, receiver, ignore, p),
        sender.files@.contains_key(p) ==> !is_prunable(sender, receiver, ignore, p),
        ignore.ignores(p, true) ==> !is_prunable(sender, receiver, ignore, p),
        receiver.dirs@.contains_key(p) && !sender.dirs@.contains_key(p)
            && !sender.files@.contains_key(p) && !ignore.ignores(p, true) ==> is_prunable(
            sender,
            receiver,
            ignore,
            p,
        ),
{
}

/// In a list with the deepest paths first, what lies in a directory stands before it.
pub proof fn law_contents_are_pruned_first(list: Seq<Seq<char>>, i: int, j: int)
    requires
        deep_first(list),
        0 <= i < list.len(),
        0 <= j < list.len(),
        path::lies_below(list[i], list[j]),
    ensures
        i < j,
{
    if j < i {
        assert(path::comps(list[j]).len() >= path::comps(list[i]).len());
    }
}

/// Of two paths to be cleared, a directory stands before what lies in it.
pub proof fn law_cleared_paths_are_in_order(
    plan: &SyncPlan,
    sender: &Indexed,
    receiver: &Indexed,
    ignore: &IgnoreSet,
    delete: bool,
    digests: Option<Seq<DigestPair>>,
    i: int,
    j: int,
)
    requires
        is_plan(plan, sender, receiver, ignore, delete, digests),
        0 <= i < plan.retype@.len(),
        0 <= j < plan.retype@.len(),
        path::lies_below(plan.retype@[j]@, plan.retype@[i]@),
    ensures
        i < j,
{
    let list = text::views(plan.retype@);
    let a = path::comps(list[i]);
    let b = path::comps(list[j]);
    let x = b[a.len() as int];
    let r = b.skip(a.len() as int + 1);
    assert(b =~= a + seq![x] + r);
    path::law_directories_come_before_their_contents(a, x, x, r, r);
    if j < i {
        assert(path::path_precedes(list[j], list[i]));
    }
}

} // verus!
