//! Slash-separated paths as text.
//!
//! A path is read as its components: the root, if it starts with a slash, and the names between
//! slashes. Empty names do not count, nor does `.`, except in front. Two paths that differ only
//! in such names are the same path.
use vstd::prelude::*;

use crate::text;
use crate::text::chars_of;
use crate::text::find_char;
use crate::text::string_of;

verus! {

/// The parts of `p` between slashes, empty ones among them.
pub open spec fn segments(p: Seq<char>) -> Seq<Seq<char>>
    decreases p.len(),
    via segments_shrink
{
    let n = text::find(p, '/');
    if n >= p.len() {
        seq![p]
    } else {
        seq![p.take(n)] + segments(p.skip(n + 1))
    }
}

#[via_fn]
proof fn segments_shrink(p: Seq<char>) {
    text::lemma_find(p, '/');
}

/// The segments that count. `front` says whether the first one may be `.`.
pub open spec fn named(segs: Seq<Seq<char>>, front: bool) -> Seq<Seq<char>>
    decreases segs.len(),
{
    if segs.len() == 0 {
        Seq::empty()
    } else {
        let s = segs[0];
        let rest = named(segs.drop_first(), false);
        if s.len() == 0 || (s == seq!['.'] && !front) {
            rest
        } else {
            seq![s] + rest
        }
    }
}

/// Whether `p` starts at the root.
pub open spec fn rooted(p: Seq<char>) -> bool {
    p.len() > 0 && p[0] == '/'
}

/// The components of `p`.
pub open spec fn comps(p: Seq<char>) -> Seq<Seq<char>> {
    if rooted(p) {
        seq![seq!['/']] + named(segments(p), false)
    } else {
        named(segments(p), true)
    }
}

/// The path text of a list of components.
pub open spec fn joined(cs: Seq<Seq<char>>) -> Seq<char>
    decreases cs.len(),
{
    if cs.len() == 0 {
        Seq::empty()
    } else if cs.len() == 1 {
        cs[0]
    } else {
        under(joined(cs.drop_last()), cs.last())
    }
}

/// `rel` below `base`: an absolute `rel` stands for itself.
pub open spec fn under(base: Seq<char>, rel: Seq<char>) -> Seq<char> {
    if rooted(rel) {
        rel
    } else if base.len() == 0 || base.last() == '/' {
        base + rel
    } else {
        base.push('/') + rel
    }
}

/// The plainest text of the same path.
pub open spec fn normal(p: Seq<char>) -> Seq<char> {
    joined(comps(p))
}

/// Whether `prefix` is `p` or one of the directories above it.
pub open spec fn within(p: Seq<char>, prefix: Seq<char>) -> bool {
    comps(prefix).is_prefix_of(comps(p))
}

/// Whether `p` lies below `top`, at whatever depth.
pub open spec fn lies_below(p: Seq<char>, top: Seq<char>) -> bool {
    within(p, top) && comps(p).len() > comps(top).len()
}

/// A list of components that some path has.
pub open spec fn proper(cs: Seq<Seq<char>>) -> bool {
    forall|i: int|
        0 <= i < cs.len() ==> {
            &&& (#[trigger] cs[i]).len() > 0
            &&& i > 0 ==> cs[i] != seq!['.']
            &&& (i > 0 || cs[i] != seq!['/']) ==> !cs[i].contains('/')
        }
}

/// The name that a path ends in, if it ends in one.
pub open spec fn file_name(p: Seq<char>) -> Option<Seq<char>> {
    let cs = comps(p);
    if cs.len() == 0 || cs.last() == seq!['/'] || cs.last() == seq!['.'] || cs.last() == seq![
        '.',
        '.',
    ] {
        None
    } else {
        Some(cs.last())
    }
}

proof fn lemma_segments_no_slash(p: Seq<char>)
    ensures
        segments(p).len() > 0,
        forall|i: int| 0 <= i < segments(p).len() ==> !(#[trigger] segments(p)[i]).contains('/'),
    decreases p.len(),
{
    text::lemma_find(p, '/');
    let n = text::find(p, '/');
    if n < p.len() {
        lemma_segments_no_slash(p.skip(n + 1));
        assert forall|i: int| 0 <= i < segments(p).len() implies !(#[trigger] segments(
            p,
        )[i]).contains('/') by {
            if i == 0 {
                assert(segments(p)[0] == p.take(n));
            } else {
                assert(segments(p)[i] == segments(p.skip(n + 1))[i - 1]);
            }
        }
    } else {
        assert(segments(p) == seq![p]);
        assert(!p.contains('/'));
    }
}

proof fn lemma_named_proper(segs: Seq<Seq<char>>, front: bool)
    requires
        forall|i: int| 0 <= i < segs.len() ==> !(#[trigger] segs[i]).contains('/'),
    ensures
        forall|i: int|
            0 <= i < named(segs, front).len() ==> {
                let c = #[trigger] named(segs, front)[i];
                &&& c.len() > 0
                &&& (i > 0 || !front) ==> c != seq!['.']
                &&& !c.contains('/')
            },
    decreases segs.len(),
{
    if segs.len() > 0 {
        let rest = segs.drop_first();
        assert forall|i: int| 0 <= i < rest.len() implies !(#[trigger] rest[i]).contains('/') by {
            assert(rest[i] == segs[i + 1]);
        }
        lemma_named_proper(rest, false);
        let s = segs[0];
        assert(!s.contains('/'));
        if !(s.len() == 0 || (s == seq!['.'] && !front)) {
            assert forall|i: int| 0 <= i < named(segs, front).len() implies {
                let c = #[trigger] named(segs, front)[i];
                &&& c.len() > 0
                &&& (i > 0 || !front) ==> c != seq!['.']
                &&& !c.contains('/')
            } by {
                if i > 0 {
                    assert(named(segs, front)[i] == named(rest, false)[i - 1]);
                }
            }
        } else {
            assert(named(segs, front) == named(rest, false));
        }
    }
}

/// The components of a path are names without slashes.
pub proof fn lemma_comps_proper(p: Seq<char>)
    ensures
        proper(comps(p)),
{
    lemma_segments_no_slash(p);
    if rooted(p) {
        lemma_named_proper(segments(p), false);
        let cs = comps(p);
        let tail = named(segments(p), false);
        assert forall|i: int| 0 <= i < cs.len() implies {
            &&& (#[trigger] cs[i]).len() > 0
            &&& i > 0 ==> cs[i] != seq!['.']
            &&& (i > 0 || cs[i] != seq!['/']) ==> !cs[i].contains('/')
        } by {
            if i > 0 {
                assert(cs[i] == tail[i - 1]);
            }
        }
    } else {
        lemma_named_proper(segments(p), true);
    }
}

proof fn lemma_segments_append(h: Seq<char>, c: Seq<char>)
    requires
        !c.contains('/'),
    ensures
        segments(h.push('/') + c) == segments(h).push(c),
    decreases h.len(),
{
    let p = h.push('/') + c;
    text::lemma_find(h, '/');
    let n = text::find(h, '/');
    if n < h.len() {
        text::lemma_find_is(p, '/', n);
        assert(p.take(n) =~= h.take(n));
        assert(p.skip(n + 1) =~= h.skip(n + 1).push('/') + c);
        lemma_segments_append(h.skip(n + 1), c);
        assert(segments(p) =~= segments(h).push(c));
    } else {
        assert forall|k: int| 0 <= k < h.len() implies p[k] != '/' by {
            assert(p[k] == h[k]);
        }
        text::lemma_find_is(p, '/', h.len() as int);
        assert(p.take(h.len() as int) =~= h);
        assert(p.skip(h.len() as int + 1) =~= c);
        text::lemma_find(c, '/');
        assert(text::find(c, '/') == c.len()) by {
            if text::find(c, '/') < c.len() {
                assert(c.contains(c[text::find(c, '/')]));
            }
        }
        assert(segments(c) == seq![c]);
        assert(segments(h) == seq![h]);
        assert(segments(p) =~= seq![h].push(c));
    }
}

proof fn lemma_named_push(segs: Seq<Seq<char>>, c: Seq<char>, front: bool)
    requires
        segs.len() > 0,
        c.len() > 0,
        c != seq!['.'],
    ensures
        named(segs.push(c), front) == named(segs, front).push(c),
    decreases segs.len(),
{
    let rest = segs.drop_first();
    assert(segs.push(c).drop_first() =~= rest.push(c));
    assert(segs.push(c)[0] == segs[0]);
    if rest.len() > 0 {
        lemma_named_push(rest, c, false);
    } else {
        let one = rest.push(c);
        assert(one[0] == c);
        assert(one.drop_first().len() == 0);
        assert(named(one.drop_first(), false).len() == 0);
        assert(named(one, false) =~= seq![c]);
        assert(named(rest, false).len() == 0);
        assert(named(one, false) =~= named(rest, false).push(c));
    }
    assert(named(segs.push(c), front) =~= named(segs, front).push(c));
}

/// A name put below a path becomes its last component.
pub proof fn lemma_comps_under(h: Seq<char>, c: Seq<char>)
    requires
        h.len() > 0,
        c.len() > 0,
        !c.contains('/'),
        c != seq!['.'],
    ensures
        comps(under(h, c)) == comps(h).push(c),
{
    assert(c[0] != '/') by {
        assert(c.contains(c[0]));
    }
    let p = under(h, c);
    lemma_segments_no_slash(h);
    if h.last() == '/' {
        let g = h.drop_last();
        assert(p =~= g.push('/') + c);
        lemma_segments_append(g, c);
        let e = Seq::<char>::empty();
        assert(!e.contains('/'));
        assert(h =~= g.push('/') + e);
        lemma_segments_append(g, e);
        assert(segments(h) =~= segments(g).push(e));
        assert(segments(p) =~= segments(g).push(c));
        lemma_segments_no_slash(g);
        lemma_named_push(segments(g), c, !rooted(h));
        lemma_named_push_empty(segments(g), !rooted(h));
    } else {
        lemma_segments_append(h, c);
        lemma_named_push(segments(h), c, !rooted(h));
    }
    assert(p[0] == h[0]);
    assert(comps(p) =~= comps(h).push(c));
}

proof fn lemma_named_push_empty(segs: Seq<Seq<char>>, front: bool)
    ensures
        named(segs.push(Seq::<char>::empty()), front) == named(segs, front),
    decreases segs.len(),
{
    let e = Seq::<char>::empty();
    if segs.len() > 0 {
        let rest = segs.drop_first();
        assert(segs.push(e).drop_first() =~= rest.push(e));
        assert(segs.push(e)[0] == segs[0]);
        lemma_named_push_empty(rest, false);
    } else {
        let one = segs.push(e);
        assert(one[0].len() == 0);
        assert(one.drop_first().len() == 0);
        assert(named(one.drop_first(), false).len() == 0);
        assert(named(one, front) =~= named(segs, front));
    }
}

/// Joining components and splitting the text again gives them back.
pub proof fn lemma_comps_joined(cs: Seq<Seq<char>>)
    requires
        proper(cs),
    ensures
        comps(joined(cs)) == cs,
        cs.len() > 0 ==> joined(cs).len() > 0,
    decreases cs.len(),
{
    if cs.len() == 0 {
        let e = Seq::<char>::empty();
        assert(text::find(e, '/') == 0);
        assert(segments(e) == seq![e]);
        assert(seq![e].drop_first().len() == 0);
        assert(named(seq![e].drop_first(), false).len() == 0);
        assert(named(seq![e], true) =~= Seq::empty());
    } else if cs.len() == 1 {
        let c = cs[0];
        if c == seq!['/'] {
            assert(text::find(c, '/') == 0);
            let e = Seq::<char>::empty();
            assert(c.take(0) =~= e);
            assert(c.skip(1) =~= e);
            assert(text::find(e, '/') == 0);
            assert(segments(e) == seq![e]);
            assert(segments(c) =~= seq![e, e]);
            lemma_named_push_empty(seq![e], false);
            lemma_named_push_empty(Seq::empty(), false);
            assert(seq![e].push(e) =~= seq![e, e]);
            assert(Seq::empty().push(e) =~= seq![e]);
            assert(named(seq![e, e], false).len() == 0);
            assert(comps(c) =~= cs);
        } else {
            text::lemma_find(c, '/');
            assert(text::find(c, '/') == c.len()) by {
                if text::find(c, '/') < c.len() {
                    assert(c.contains(c[text::find(c, '/')]));
                }
            }
            assert(segments(c) == seq![c]);
            assert(seq![c].drop_first().len() == 0);
            assert(named(seq![c].drop_first(), false).len() == 0);
            assert(named(seq![c], true) =~= seq![c]);
            assert(!rooted(c)) by {
                assert(c.contains(c[0]));
            }
            assert(comps(c) =~= cs);
        }
    } else {
        let head = cs.drop_last();
        lemma_proper_take(cs, cs.len() - 1);
        assert(cs.take(cs.len() - 1) =~= head);
        lemma_comps_joined(head);
        let c = cs[cs.len() - 1];
        assert(!c.contains('/'));
        lemma_comps_under(joined(head), c);
        assert(head.push(c) =~= cs);
    }
}

/// The plain text of a path has the path's components.
pub proof fn lemma_normal(p: Seq<char>)
    ensures
        comps(normal(p)) == comps(p),
        normal(normal(p)) == normal(p),
{
    lemma_comps_proper(p);
    lemma_comps_joined(comps(p));
}

/// Two paths are the same, component for component, exactly when their plain texts are.
pub proof fn law_normal_decides_sameness(p: Seq<char>, q: Seq<char>)
    ensures
        normal(p) == normal(q) <==> comps(p) == comps(q),
{
    lemma_normal(p);
    lemma_normal(q);
}

/// A name alone is a path with that one component.
pub proof fn lemma_single(c: Seq<char>)
    requires
        c.len() > 0,
        !c.contains('/'),
    ensures
        comps(c) == seq![c],
{
    let cs = seq![c];
    assert(proper(cs)) by {
        assert(cs[0] != seq!['/']) by {
            if cs[0] == seq!['/'] {
                assert(c[0] == '/');
                assert(c.contains(c[0]));
            }
        }
    }
    lemma_comps_joined(cs);
}

/// A relative path without empty names.
pub open spec fn plain_relative(p: Seq<char>) -> bool {
    &&& !rooted(p)
    &&& forall|i: int| 0 <= i < p.len() - 1 && p[i] == '/' ==> #[trigger] p[i + 1] != '/'
}

/// The text of relative components is a relative path without empty names.
pub proof fn lemma_joined_plain(cs: Seq<Seq<char>>)
    requires
        proper(cs),
        cs.len() > 0 ==> cs[0] != seq!['/'],
    ensures
        plain_relative(joined(cs)),
        cs.len() > 0 ==> joined(cs).len() > 0 && joined(cs).last() != '/',
    decreases cs.len(),
{
    if cs.len() == 1 {
        let c = cs[0];
        assert forall|i: int| 0 <= i < c.len() implies c[i] != '/' by {
            assert(c.contains(c[i]));
        }
    } else if cs.len() > 1 {
        let head = cs.drop_last();
        lemma_proper_take(cs, cs.len() - 1);
        assert(cs.take(cs.len() - 1) =~= head);
        lemma_joined_plain(head);
        let h = joined(head);
        let c = cs[cs.len() - 1];
        assert forall|i: int| 0 <= i < c.len() implies c[i] != '/' by {
            assert(c.contains(c[i]));
        }
        let p = joined(cs);
        assert(p == h.push('/') + c);
        assert forall|i: int| 0 <= i < p.len() - 1 && p[i] == '/' implies #[trigger] p[i + 1]
            != '/' by {
            if i + 1 < h.len() {
                assert(h[i] == '/');
            } else if i + 1 == h.len() {
                assert(h.last() == '/');
            } else {
                assert(p[i + 1] == c[i - h.len()]);
            }
        }
    }
}

/// A part of a path's components from the front is a path's components too.
pub proof fn lemma_proper_take(cs: Seq<Seq<char>>, k: int)
    requires
        proper(cs),
        0 <= k <= cs.len(),
    ensures
        proper(cs.take(k)),
{
    assert forall|i: int| 0 <= i < k implies {
        &&& (#[trigger] cs.take(k)[i]).len() > 0
        &&& i > 0 ==> cs.take(k)[i] != seq!['.']
        &&& (i > 0 || cs.take(k)[i] != seq!['/']) ==> !cs.take(k)[i].contains('/')
    } by {
        assert(cs.take(k)[i] == cs[i]);
    }
}

/// A relative path has no root among its components.
pub proof fn lemma_relative_comps(p: Seq<char>)
    requires
        !rooted(p),
    ensures
        comps(p).len() > 0 ==> comps(p)[0] != seq!['/'],
{
    lemma_segments_no_slash(p);
    lemma_named_proper(segments(p), true);
    if comps(p).len() > 0 && comps(p)[0] == seq!['/'] {
        assert(comps(p)[0][0] == '/');
        assert(comps(p)[0].contains('/'));
    }
}

/// Where a component leads from a list of components: `..` leads back up, and not above the root.
pub open spec fn step_to(base: Seq<Seq<char>>, c: Seq<char>) -> Seq<Seq<char>> {
    if c == seq!['.'] && base.len() > 0 {
        base
    } else if c == seq!['.', '.'] && base.len() > 0 && base.last() == seq!['/'] {
        base
    } else if c == seq!['.', '.'] && base.len() > 0 && base.last() != seq!['.'] && base.last()
        != seq!['.', '.'] {
        base.drop_last()
    } else {
        base.push(c)
    }
}

/// Where `rest` leads from `base`, going by the names alone.
pub open spec fn settled(base: Seq<Seq<char>>, rest: Seq<Seq<char>>) -> Seq<Seq<char>>
    decreases rest.len(),
{
    if rest.len() == 0 {
        base
    } else {
        step_to(settled(base, rest.drop_last()), rest.last())
    }
}

/// The path to which the components from the place `from` on lead from `base`.
pub fn settle(base: &str, parts: &Vec<String>, from: usize) -> (r: String)
    requires
        from <= parts@.len(),
        proper(text::views(parts@)),
        from == 0 ==> base@.len() == 0,
    ensures
        r@ == joined(settled(comps(base@), text::views(parts@).skip(from as int))),
{
    let mut out = components(base);
    let ghost start = comps(base@);
    let ghost all = text::views(parts@);
    let ghost rest = all.skip(from as int);
    proof {
        lemma_comps_proper(base@);
        assert(rest.take(0).len() == 0);
        assert(text::views(out@).len() == out@.len());
        if from == 0 {
            lemma_comps_joined(Seq::empty());
            assert(base@ =~= joined(Seq::empty()));
        }
    }
    let mut i: usize = from;
    while i < parts.len()
        invariant
            from <= i <= parts@.len(),
            all == text::views(parts@),
            rest == all.skip(from as int),
            proper(all),
            from == 0 ==> start.len() == 0,
            text::views(out@) == settled(start, rest.take(i - from)),
            proper(text::views(out@)),
            i == 0 ==> out@.len() == 0,
        decreases parts@.len() - i,
    {
        let ghost before = text::views(out@);
        let ghost c = all[i as int];
        let ghost after = settled(start, rest.take(i - from + 1));
        let chars = chars_of(parts[i].as_str());
        let n = out.len();
        proof {
            assert(all[i as int] == parts@[i as int]@);
            assert(rest.take(i - from + 1).drop_last() =~= rest.take(i - from));
            assert(rest.take(i - from + 1).last() == c);
            assert(after == step_to(before, c));
            assert(before.len() == n);
            assert(chars@ == c);
            lemma_proper_step(before, c, i == 0);
        }
        let dot = chars.len() == 1 && chars[0] == '.';
        let dots = chars.len() == 2 && chars[0] == '.' && chars[1] == '.';
        assert(dot == (c =~= seq!['.']));
        assert(dots == (c =~= seq!['.', '.']));
        if n > 0 && dot {
            assert(after =~= before);
        } else if n > 0 && dots {
            let last = chars_of(out[n - 1].as_str());
            let ghost l = before.last();
            assert(l == out@[n - 1]@);
            let root = last.len() == 1 && last[0] == '/';
            let stays = (last.len() == 1 && last[0] == '.') || (last.len() == 2 && last[0] == '.'
                && last[1] == '.');
            assert(root == (l =~= seq!['/']));
            assert(stays == (l =~= seq!['.'] || l =~= seq!['.', '.']));
            if root {
                assert(after =~= before);
            } else if stays {
                out.push(parts[i].clone());
                assert(text::views(out@) =~= before.push(c));
            } else {
                out.pop();
                assert(text::views(out@) =~= before.drop_last());
            }
        } else {
            out.push(parts[i].clone());
            assert(text::views(out@) =~= before.push(c));
        }
        i = i + 1;
    }
    proof {
        assert(rest.take(i - from) =~= rest);
        assert(text::views(out@).len() == out@.len());
        assert(text::views(out@).take(out@.len() as int) =~= text::views(out@));
    }
    join_components(&out, out.len())
}

proof fn lemma_proper_step(base: Seq<Seq<char>>, c: Seq<char>, first: bool)
    requires
        proper(base),
        c.len() > 0,
        first || !c.contains('/'),
        first ==> base.len() == 0 && (c != seq!['/'] ==> !c.contains('/')),
    ensures
        proper(step_to(base, c)),
{
    let r = step_to(base, c);
    assert forall|i: int| 0 <= i < r.len() implies {
        &&& (#[trigger] r[i]).len() > 0
        &&& i > 0 ==> r[i] != seq!['.']
        &&& (i > 0 || r[i] != seq!['/']) ==> !r[i].contains('/')
    } by {
        if i < base.len() {
            assert(r[i] == base[i]);
        }
    }
}

/// The components of `p`.
pub fn components(p: &str) -> (r: Vec<String>)
    ensures
        text::views(r@) == comps(p@),
{
    let chars = chars_of(p);
    let n = chars.len();
    let mut out: Vec<String> = Vec::new();
    let root = n > 0 && chars[0] == '/';
    if root {
        out.push(string_of(&chars, 0, 1));
        assert(chars@.subrange(0, 1) =~= seq!['/']);
        assert(text::views(out@) =~= seq![seq!['/']]);
    }
    let mut front = !root;
    let mut i: usize = 0;
    let mut more = true;
    assert(chars@.skip(0) =~= p@);
    assert(text::views(out@) + named(segments(p@), front) =~= comps(p@));
    while more
        invariant
            n == chars@.len(),
            i <= n,
            more ==> text::views(out@) + named(segments(chars@.skip(i as int)), front) == comps(p@),
            !more ==> text::views(out@) == comps(p@),
        decreases
            n - i,
            if more {
                1int
            } else {
                0int
            },
    {
        let ghost rest = chars@.skip(i as int);
        let ghost before = text::views(out@);
        let ghost segs = segments(rest);
        let end = find_char(&chars, i, n, '/');
        proof {
            assert(chars@.subrange(i as int, n as int) =~= rest);
            text::lemma_find(rest, '/');
            assert(segs[0] =~= chars@.subrange(i as int, end as int));
        }
        let skip = i == end || (end - i == 1 && chars[i] == '.' && !front);
        proof {
            assert((segs[0] == seq!['.']) == (end - i == 1 && chars@[i as int] == '.')) by {
                if end - i == 1 && chars@[i as int] == '.' {
                    assert(segs[0] =~= seq!['.']);
                }
            }
        }
        if !skip {
            out.push(string_of(&chars, i, end));
            assert(text::views(out@) =~= before.push(segs[0]));
        }
        front = false;
        if end < n {
            i = end + 1;
            proof {
                assert(rest.skip(text::find(rest, '/') + 1) =~= chars@.skip(i as int));
                assert(segs.drop_first() =~= segments(chars@.skip(i as int)));
                assert(text::views(out@) + named(segs.drop_first(), false) =~= comps(p@));
            }
        } else {
            more = false;
            proof {
                assert(segs.drop_first().len() == 0);
                assert(named(segs.drop_first(), false).len() == 0);
                assert(text::views(out@) =~= comps(p@));
            }
        }
    }
    out
}

/// Whether `p` starts at the root.
pub fn is_absolute(p: &str) -> (r: bool)
    ensures
        r == rooted(p@),
{
    let chars = chars_of(p);
    chars.len() > 0 && chars[0] == '/'
}

/// `rel` below `base`.
pub fn join(base: &str, rel: &str) -> (r: String)
    ensures
        r@ == under(base@, rel@),
{
    if is_absolute(rel) {
        return rel.to_owned();
    }
    let chars = chars_of(base);
    let mut out = base.to_owned();
    if chars.len() > 0 && chars[chars.len() - 1] != '/' {
        out.push('/');
    }
    out.append(rel);
    out
}

/// How many components `p` has.
pub fn depth(p: &str) -> (r: usize)
    ensures
        r == comps(p@).len(),
{
    let cs = components(p);
    assert(text::views(cs@).len() == cs@.len());
    cs.len()
}

/// Whether `prefix` is `p` or one of the directories above it.
pub fn starts_with(p: &str, prefix: &str) -> (r: bool)
    ensures
        r == within(p@, prefix@),
{
    let a = components(p);
    let b = components(prefix);
    proof {
        assert(text::views(a@).len() == a@.len());
        assert(text::views(b@).len() == b@.len());
    }
    if b.len() > a.len() {
        return false;
    }
    let mut i: usize = 0;
    while i < b.len()
        invariant
            i <= b@.len() <= a@.len(),
            text::views(a@) == comps(p@),
            text::views(b@) == comps(prefix@),
            forall|k: int| 0 <= k < i ==> comps(p@)[k] == comps(prefix@)[k],
        decreases b@.len() - i,
    {
        proof {
            assert(text::views(a@)[i as int] == a@[i as int]@);
            assert(text::views(b@)[i as int] == b@[i as int]@);
        }
        if a[i] != b[i] {
            assert(comps(prefix@)[i as int] != comps(p@)[i as int]);
            return false;
        }
        i = i + 1;
    }
    assert(text::views(b@).len() == b@.len());
    assert(comps(p@).take(b@.len() as int) =~= comps(prefix@));
    true
}

/// Whether `p` lies below `top`, at whatever depth.
pub fn is_below(p: &str, top: &str) -> (r: bool)
    ensures
        r == lies_below(p@, top@),
{
    starts_with(p, top) && depth(p) > depth(top)
}

/// The path text of the first `n` components.
pub fn join_components(cs: &Vec<String>, n: usize) -> (r: String)
    requires
        n <= cs@.len(),
        proper(text::views(cs@)),
    ensures
        r@ == joined(text::views(cs@).take(n as int)),
{
    let ghost all = text::views(cs@);
    let mut out = String::new();
    let mut i: usize = 0;
    assert(joined(all.take(0)) =~= Seq::empty());
    while i < n
        invariant
            i <= n <= cs@.len(),
            all == text::views(cs@),
            proper(all),
            out@ == joined(all.take(i as int)),
        decreases n - i,
    {
        assert(all[i as int] == cs@[i as int]@);
        assert(all.take(i + 1).drop_last() =~= all.take(i as int));
        if i == 0 {
            out = cs[i].clone();
        } else {
            out = join(out.as_str(), cs[i].as_str());
        }
        i = i + 1;
    }
    out
}

/// The plainest text of the same path.
pub fn plain(p: &str) -> (r: String)
    ensures
        r@ == normal(p@),
{
    let cs = components(p);
    proof {
        lemma_comps_proper(p@);
        assert(text::views(cs@).len() == cs@.len());
        assert(comps(p@).take(cs@.len() as int) =~= comps(p@));
    }
    join_components(&cs, cs.len())
}

/// The name that a path ends in, if it ends in one.
pub fn name_of(p: &str) -> (r: Option<String>)
    ensures
        match r {
            Some(n) => file_name(p@) == Some(n@),
            None => file_name(p@) is None,
        },
{
    let mut cs = components(p);
    assert(text::views(cs@).len() == cs@.len());
    match cs.pop() {
        None => None,
        Some(last) => {
            let ghost c = comps(p@);
            assert(c.last() == last@);
            let chars = chars_of(last.as_str());
            let dots = (chars.len() == 1 && (chars[0] == '.' || chars[0] == '/')) || (chars.len()
                == 2 && chars[0] == '.' && chars[1] == '.');
            proof {
                assert(dots == (last@ == seq!['/'] || last@ == seq!['.'] || last@ == seq![
                    '.',
                    '.',
                ])) by {
                    if dots {
                        assert(last@ =~= seq!['/'] || last@ =~= seq!['.'] || last@ =~= seq![
                            '.',
                            '.',
                        ]);
                    }
                }
            }
            if dots {
                None
            } else {
                Some(last)
            }
        },
    }
}

/// Where a component ranks: the root before `.`, `.` before `..`, and names last.
pub open spec fn rank(c: Seq<char>) -> int {
    if c == seq!['/'] {
        0
    } else if c == seq!['.'] {
        1
    } else if c == seq!['.', '.'] {
        2
    } else {
        3
    }
}

/// Whether component `a` comes before component `b`.
pub open spec fn component_precedes(a: Seq<char>, b: Seq<char>) -> bool {
    rank(a) < rank(b) || (rank(a) == rank(b) && text::precedes(a, b))
}

/// Whether one list of components comes before another.
pub open spec fn components_precede(a: Seq<Seq<char>>, b: Seq<Seq<char>>) -> bool
    decreases b.len(),
{
    if b.len() == 0 {
        false
    } else if a.len() == 0 {
        true
    } else {
        component_precedes(a[0], b[0]) || (a[0] == b[0] && components_precede(
            a.drop_first(),
            b.drop_first(),
        ))
    }
}

/// Whether path `p` comes before path `q`, component by component.
pub open spec fn path_precedes(p: Seq<char>, q: Seq<char>) -> bool {
    components_precede(comps(p), comps(q))
}

proof fn lemma_component_order(a: Seq<char>, b: Seq<char>, c: Seq<char>)
    ensures
        a == b || component_precedes(a, b) || component_precedes(b, a),
        !component_precedes(a, a),
        !(component_precedes(a, b) && component_precedes(b, a)),
        component_precedes(a, b) && component_precedes(b, c) ==> component_precedes(a, c),
{
    text::lemma_precedes_total(a, b);
    text::lemma_precedes_strict(a, b);
    if text::precedes(a, b) && text::precedes(b, c) {
        text::lemma_precedes_transitive(a, b, c);
    }
}

/// The order of component lists is total and strict.
pub proof fn lemma_components_order(a: Seq<Seq<char>>, b: Seq<Seq<char>>)
    ensures
        a == b || components_precede(a, b) || components_precede(b, a),
        !components_precede(a, a),
        !(components_precede(a, b) && components_precede(b, a)),
    decreases a.len(),
{
    if a.len() > 0 {
        lemma_components_order(a.drop_first(), a.drop_first());
        lemma_component_order(a[0], a[0], a[0]);
    }
    if a.len() > 0 && b.len() > 0 {
        lemma_component_order(a[0], b[0], b[0]);
        lemma_components_order(a.drop_first(), b.drop_first());
        if a[0] == b[0] && a.drop_first() == b.drop_first() {
            assert(a =~= seq![a[0]] + a.drop_first());
            assert(b =~= seq![b[0]] + b.drop_first());
        }
    } else if a.len() == b.len() {
        assert(a =~= b);
    }
}

/// What comes before comes before what follows.
pub proof fn lemma_components_transitive(
    a: Seq<Seq<char>>,
    b: Seq<Seq<char>>,
    c: Seq<Seq<char>>,
)
    requires
        components_precede(a, b),
        components_precede(b, c),
    ensures
        components_precede(a, c),
    decreases c.len(),
{
    if a.len() > 0 && b.len() > 0 && c.len() > 0 {
        lemma_component_order(a[0], b[0], c[0]);
        if a[0] == b[0] && b[0] == c[0] && !component_precedes(a[0], b[0]) && !component_precedes(
            b[0],
            c[0],
        ) {
            lemma_components_transitive(a.drop_first(), b.drop_first(), c.drop_first());
        }
    }
}

fn component_rank(c: &String) -> (r: u8)
    ensures
        r == rank(c@),
{
    let chars = chars_of(c.as_str());
    if chars.len() == 1 && chars[0] == '/' {
        assert(c@ =~= seq!['/']);
        0
    } else if chars.len() == 1 && chars[0] == '.' {
        assert(c@ =~= seq!['.']);
        1
    } else if chars.len() == 2 && chars[0] == '.' && chars[1] == '.' {
        assert(c@ =~= seq!['.', '.']);
        2
    } else {
        3
    }
}

/// Whether path `p` comes before path `q`.
pub fn path_comes_before(p: &str, q: &str) -> (r: bool)
    ensures
        r == path_precedes(p@, q@),
{
    let a = components(p);
    let b = components(q);
    let ghost x = comps(p@);
    let ghost y = comps(q@);
    let mut i: usize = 0;
    assert(x.skip(0) =~= x);
    assert(y.skip(0) =~= y);
    assert(text::views(a@).len() == a@.len());
    assert(text::views(b@).len() == b@.len());
    while i < a.len() && i < b.len() && a[i] == b[i]
        invariant
            i <= a@.len(),
            i <= b@.len(),
            x == text::views(a@),
            y == text::views(b@),
            x.len() == a@.len(),
            y.len() == b@.len(),
            components_precede(comps(p@), comps(q@)) == components_precede(
                x.skip(i as int),
                y.skip(i as int),
            ),
        decreases a@.len() - i,
    {
        proof {
            assert(x[i as int] == a@[i as int]@);
            assert(y[i as int] == b@[i as int]@);
            lemma_component_order(x[i as int], x[i as int], x[i as int]);
            assert(x.skip(i as int).drop_first() =~= x.skip(i + 1));
            assert(y.skip(i as int).drop_first() =~= y.skip(i + 1));
        }
        i = i + 1;
    }
    if i == b.len() {
        false
    } else if i == a.len() {
        true
    } else {
        proof {
            assert(x[i as int] == a@[i as int]@);
            assert(y[i as int] == b@[i as int]@);
        }
        let ra = component_rank(&a[i]);
        let rb = component_rank(&b[i]);
        ra < rb || (ra == rb && text::comes_before(a[i].as_str(), b[i].as_str()))
    }
}


/// A name is a path of one component; behind a path and a slash it is one component more, and
/// further slashes and single dots between them make no difference.
pub proof fn law_name_is_one_component_more(p: Seq<char>, c: Seq<char>)
    requires
        c.len() > 0,
        !c.contains('/'),
        c != seq!['.'],
    ensures
        comps(Seq::<char>::empty()) == Seq::<Seq<char>>::empty(),
        comps(seq!['/']) == seq![seq!['/']],
        comps(seq!['.']) == seq![seq!['.']],
        comps(c) == seq![c],
        comps(seq!['/'] + c) == seq![seq!['/'], c],
        p.len() > 0 ==> comps(p + seq!['/'] + c) == comps(p).push(c),
        p.len() > 0 ==> comps(p + seq!['/', '/'] + c) == comps(p).push(c),
        p.len() > 0 ==> comps(p + seq!['/', '.', '/'] + c) == comps(p).push(c),
        p.len() > 0 ==> comps(p + seq!['/']) == comps(p),
{
    lemma_comps_joined(Seq::<Seq<char>>::empty());
    assert(joined(Seq::<Seq<char>>::empty()) == Seq::<char>::empty());
    lemma_single(c);
    let here = seq!['.'];
    assert(!here.contains('/'));
    lemma_single(here);
    let root = seq![seq!['/']];
    assert(proper(root));
    lemma_comps_joined(root);
    let r = seq!['/'];
    assert(joined(root) == r);
    assert(c[0] != '/') by {
        assert(c.contains(c[0]));
    }
    lemma_comps_under(r, c);
    assert(under(r, c) == r + c);
    assert(root.push(c) =~= seq![seq!['/'], c]);
    if p.len() > 0 {
        lemma_comps_slash(p);
        let q = p.push('/');
        assert(q =~= p + seq!['/']);
        lemma_comps_under(q, c);
        assert(under(q, c) =~= p + seq!['/'] + c);
        lemma_comps_slash(q);
        let qq = q.push('/');
        lemma_comps_under(qq, c);
        assert(under(qq, c) =~= p + seq!['/', '/'] + c);
        lemma_comps_dot(p);
        let d = p + seq!['/', '.'];
        lemma_comps_slash(d);
        let dd = d.push('/');
        lemma_comps_under(dd, c);
        assert(under(dd, c) =~= p + seq!['/', '.', '/'] + c);
    }
}

proof fn lemma_comps_slash(p: Seq<char>)
    requires
        p.len() > 0,
    ensures
        comps(p.push('/')) == comps(p),
{
    let e = Seq::<char>::empty();
    assert(!e.contains('/'));
    assert(p.push('/') + e =~= p.push('/'));
    lemma_segments_append(p, e);
    assert(segments(p.push('/')) =~= segments(p).push(e));
    lemma_named_push_empty(segments(p), !rooted(p));
    assert(p.push('/')[0] == p[0]);
}

proof fn lemma_named_push_dot(segs: Seq<Seq<char>>, front: bool)
    requires
        segs.len() > 0 || !front,
    ensures
        named(segs.push(seq!['.']), front) == named(segs, front),
    decreases segs.len(),
{
    let e = seq!['.'];
    if segs.len() > 0 {
        let rest = segs.drop_first();
        assert(segs.push(e).drop_first() =~= rest.push(e));
        assert(segs.push(e)[0] == segs[0]);
        lemma_named_push_dot(rest, false);
    } else {
        let one = segs.push(e);
        assert(one[0] == e);
        assert(one.drop_first().len() == 0);
        assert(named(one.drop_first(), false).len() == 0);
        assert(named(one, front) =~= named(segs, front));
    }
}

proof fn lemma_comps_dot(p: Seq<char>)
    requires
        p.len() > 0,
    ensures
        comps(p + seq!['/', '.']) == comps(p),
{
    let d = seq!['.'];
    assert(!d.contains('/'));
    assert(p.push('/') + d =~= p + seq!['/', '.']);
    lemma_segments_append(p, d);
    assert(segments(p + seq!['/', '.']) =~= segments(p).push(d));
    lemma_segments_no_slash(p);
    lemma_named_push_dot(segments(p), !rooted(p));
    assert((p + seq!['/', '.'])[0] == p[0]);
}

/// The plain text of a path keeps it, name by name: it is the plain text of the directory above, a
/// slash and the name. A path whose text is plain already is not changed.
pub proof fn law_plain_text_is_built_name_by_name(p: Seq<char>, c: Seq<char>)
    requires
        c.len() > 0,
        !c.contains('/'),
        c != seq!['.'],
        p.len() > 0,
        p[0] != '/',
    ensures
        normal(c) == c,
        normal(p + seq!['/'] + c) == normal(p) + seq!['/'] + c,
        normal(p) == p ==> normal(p + seq!['/'] + c) == p + seq!['/'] + c,
{
    law_name_is_one_component_more(p, c);
    let cs = comps(p);
    assert(cs.push(c).drop_last() =~= cs);
    lemma_comps_proper(p);
    lemma_relative_comps(p);
    lemma_joined_plain(cs);
    assert(c[0] != '/') by {
        assert(c.contains(c[0]));
    }
    assert(cs.len() > 0) by {
        lemma_some_component(p);
    }
    assert(normal(p + seq!['/'] + c) =~= normal(p) + seq!['/'] + c);
}

/// A relative path that is not empty has a component.
proof fn lemma_some_component(p: Seq<char>)
    requires
        p.len() > 0,
        p[0] != '/',
    ensures
        comps(p).len() > 0,
{
    let segs = segments(p);
    let n = text::find(p, '/');
    text::lemma_find(p, '/');
    assert(n > 0);
    if n >= p.len() {
        assert(segs[0] == p);
    } else {
        assert(segs[0] == p.take(n));
    }
    assert(segs[0].len() > 0);
}

/// A path lies within every directory above it and within itself, and within nothing else.
pub proof fn law_path_lies_within_its_directories(p: Seq<char>, c: Seq<char>, q: Seq<char>)
    requires
        p.len() > 0,
        c.len() > 0,
        !c.contains('/'),
        c != seq!['.'],
    ensures
        within(p, p),
        within(p + seq!['/'] + c, p),
        !within(p, p + seq!['/'] + c),
        lies_below(p + seq!['/'] + c, p),
        !lies_below(p, p),
        within(p + seq!['/'] + c, q) <==> within(p, q) || comps(q) == comps(p).push(c),
{
    law_name_is_one_component_more(p, c);
    let a = comps(p);
    let b = a.push(c);
    let d = comps(q);
    assert(a.is_prefix_of(a));
    assert(b.take(a.len() as int) =~= a);
    if d.is_prefix_of(b) && d.len() <= a.len() {
        assert(b.take(d.len() as int) =~= a.take(d.len() as int));
    }
    if d.is_prefix_of(b) && d.len() > a.len() {
        assert(b.take(d.len() as int) =~= b);
    }
    if d.is_prefix_of(a) {
        assert(b.take(d.len() as int) =~= a.take(d.len() as int));
    }
}

/// A relative path put below a directory stands behind it and a slash; an absolute one stands for
/// itself, and one below nothing too.
pub proof fn law_path_below_a_directory(base: Seq<char>, rel: Seq<char>)
    ensures
        rel.len() > 0 && rel[0] == '/' ==> under(base, rel) == rel,
        (rel.len() == 0 || rel[0] != '/') && base.len() > 0 && base[base.len() - 1] != '/'
            ==> under(base, rel) == base + seq!['/'] + rel,
        (rel.len() == 0 || rel[0] != '/') && base.len() > 0 && base[base.len() - 1] == '/'
            ==> under(base, rel) == base + rel,
        base.len() == 0 ==> under(base, rel) == rel,
{
    assert(base.push('/') + rel =~= base + seq!['/'] + rel);
    if base.len() == 0 {
        assert(base + rel =~= rel);
    }
}

/// The name of a path is its last component. The root, a single dot and two dots are no names.
pub proof fn law_name_is_the_last_component(p: Seq<char>, c: Seq<char>)
    requires
        p.len() > 0,
        c.len() > 0,
        !c.contains('/'),
        c != seq!['.'],
    ensures
        c != seq!['.', '.'] ==> file_name(p + seq!['/'] + c) == Some(c),
        c != seq!['.', '.'] ==> file_name(c) == Some(c),
        file_name(p + seq!['/', '.', '.']) is None,
        file_name(seq!['/']) is None,
        file_name(Seq::<char>::empty()) is None,
{
    law_name_is_one_component_more(p, c);
    let up = seq!['.', '.'];
    assert(!up.contains('/'));
    assert(up != seq!['.']) by {
        assert(up.len() == 2);
    }
    law_name_is_one_component_more(p, up);
    assert(p + seq!['/'] + up =~= p + seq!['/', '.', '.']);
    assert(c != seq!['/']) by {
        if c == seq!['/'] {
            assert(c[0] == '/');
            assert(c.contains(c[0]));
        }
    }
}

/// A directory comes before what lies in it, and of two paths that part ways the names at the fork
/// decide.
pub proof fn law_directories_come_before_their_contents(
    a: Seq<Seq<char>>,
    x: Seq<char>,
    y: Seq<char>,
    r: Seq<Seq<char>>,
    s: Seq<Seq<char>>,
)
    ensures
        components_precede(a, a + seq![x] + r),
        !components_precede(a + seq![x] + r, a),
        rank(x) == 3 && rank(y) == 3 && x != y ==> (components_precede(
            a + seq![x] + r,
            a + seq![y] + s,
        ) <==> text::precedes(x, y)),
    decreases a.len(),
{
    let p = a + seq![x] + r;
    let q = a + seq![y] + s;
    if a.len() > 0 {
        let b = a.drop_first();
        law_directories_come_before_their_contents(b, x, y, r, s);
        assert(p.drop_first() =~= b + seq![x] + r);
        assert(q.drop_first() =~= b + seq![y] + s);
        assert(p[0] == a[0] && q[0] == a[0]);
        lemma_component_order(a[0], a[0], a[0]);
    } else {
        assert(p[0] == x && q[0] == y);
    }
}

/// Two dots lead back up to the directory above a name, a single dot leads nowhere else, and the
/// root has nothing above it.
pub proof fn law_two_dots_lead_back_up(
    base: Seq<Seq<char>>,
    rest: Seq<Seq<char>>,
    name: Seq<char>,
)
    requires
        name != seq!['/'],
        name != seq!['.'],
        name != seq!['.', '.'],
    ensures
        settled(base, Seq::empty()) == base,
        settled(base, rest.push(name)) == settled(base, rest).push(name),
        settled(base, rest.push(name).push(seq!['.', '.'])) == settled(base, rest),
        settled(base, rest).len() > 0 ==> settled(base, rest.push(seq!['.'])) == settled(
            base,
            rest,
        ),
        settled(seq![seq!['/']], seq![seq!['.', '.']]) == seq![seq!['/']],
{
    let up = seq!['.', '.'];
    let dot = seq!['.'];
    assert(up != dot) by {
        assert(up.len() == 2);
    }
    assert(rest.push(name).drop_last() =~= rest);
    let more = rest.push(name);
    assert(more.push(up).drop_last() =~= more);
    let there = settled(base, rest).push(name);
    assert(settled(base, more) == there);
    assert(there.last() == name);
    assert(step_to(there, up) == there.drop_last());
    assert(more.push(up).last() == up);
    assert(settled(base, more.push(up)) == step_to(settled(base, more.push(up).drop_last()), up));
    assert(there.drop_last() =~= settled(base, rest));
    assert(rest.push(dot).drop_last() =~= rest);
    let one = seq![up];
    assert(one.drop_last() =~= Seq::<Seq<char>>::empty());
    assert(settled(seq![seq!['/']], one.drop_last()) == seq![seq!['/']]);
}

/// Among the components in one place the root comes first, then a single dot, then two dots, and then
/// the names.
pub proof fn law_dots_come_before_names(name: Seq<char>)
    requires
        name != seq!['/'],
        name != seq!['.'],
        name != seq!['.', '.'],
    ensures
        component_precedes(seq!['/'], seq!['.']),
        component_precedes(seq!['.'], seq!['.', '.']),
        component_precedes(seq!['.', '.'], name),
        !component_precedes(name, seq!['.', '.']),
        rank(name) == 3,
{
    let root = seq!['/'];
    let dot = seq!['.'];
    let up = seq!['.', '.'];
    assert(root[0] != dot[0]);
    assert(up.len() == 2 && dot.len() == 1 && root.len() == 1);
    assert(up != dot && up != root);
}

} // verus!
