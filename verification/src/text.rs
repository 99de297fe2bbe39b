//! Characters, lines and words of text.
//!
//! Text is viewed as a sequence of characters. The functions here split, trim and measure it;
//! each says what it returns over that view.
use vstd::prelude::*;

verus! {

/// `String::push`: puts one character at the end.
pub assume_specification[ String::push ](s: &mut String, c: char)
    ensures
        final(s)@ == old(s)@.push(c),
;

/// A character with the Unicode `White_Space` property.
pub open spec fn is_space(c: char) -> bool {
    ||| '\u{9}' <= c <= '\u{d}'
    ||| c == '\u{20}'
    ||| c == '\u{85}'
    ||| c == '\u{a0}'
    ||| c == '\u{1680}'
    ||| '\u{2000}' <= c <= '\u{200a}'
    ||| c == '\u{2028}'
    ||| c == '\u{2029}'
    ||| c == '\u{202f}'
    ||| c == '\u{205f}'
    ||| c == '\u{3000}'
}

/// Whether `c` is white space.
pub fn char_is_space(c: char) -> (r: bool)
    ensures
        r == is_space(c),
{
    ('\u{9}' <= c && c <= '\u{d}') || c == '\u{20}' || c == '\u{85}' || c == '\u{a0}' || c
        == '\u{1680}' || ('\u{2000}' <= c && c <= '\u{200a}') || c == '\u{2028}' || c == '\u{2029}'
        || c == '\u{202f}' || c == '\u{205f}' || c == '\u{3000}'
}

/// The characters of `s`, in order.
pub fn chars_of(s: &str) -> (r: Vec<char>)
    ensures
        r@ == s@,
{
    let mut out: Vec<char> = Vec::new();
    for c in it: s.chars()
        invariant
            out@ == it.seq().take(it.index()),
            it.seq() == s@,
    {
        out.push(c);
        assert(it.seq().take(it.index() + 1) =~= it.seq().take(it.index()).push(c));
    }
    assert(s@.take(s@.len() as int) =~= s@);
    out
}

/// The text made of the characters `chars[from..to]`.
pub fn string_of(chars: &Vec<char>, from: usize, to: usize) -> (r: String)
    requires
        from <= to <= chars@.len(),
    ensures
        r@ == chars@.subrange(from as int, to as int),
{
    let mut out = String::new();
    let mut i: usize = from;
    while i < to
        invariant
            from <= i <= to <= chars@.len(),
            out@ == chars@.subrange(from as int, i as int),
        decreases to - i,
    {
        out.push(chars[i]);
        assert(chars@.subrange(from as int, i + 1) =~= chars@.subrange(from as int, i as int).push(
            chars@[i as int],
        ));
        i = i + 1;
    }
    out
}

/// `a` followed by `b`.
pub fn glue(a: &str, b: &str) -> (r: String)
    ensures
        r@ == a@ + b@,
{
    let mut out = a.to_owned();
    out.append(b);
    out
}

/// `a`, `b` and `c` one after the other.
pub fn glue3(a: &str, b: &str, c: &str) -> (r: String)
    ensures
        r@ == a@ + b@ + c@,
{
    let mut out = a.to_owned();
    out.append(b);
    out.append(c);
    out
}

/// The views of a list of texts.
pub open spec fn views(v: Seq<String>) -> Seq<Seq<char>> {
    Seq::new(v.len(), |i: int| v[i]@)
}

/// Whether two texts are the same.
pub fn same(a: &str, b: &str) -> (r: bool)
    ensures
        r == (a@ == b@),
{
    a.to_owned() == b.to_owned()
}

/// The view of a text that may be missing.
pub open spec fn opt(o: Option<String>) -> Option<Seq<char>> {
    match o {
        Some(s) => Some(s@),
        None => None,
    }
}

/// The view of a borrowed text that may be missing.
pub open spec fn opt_str(o: Option<&str>) -> Option<Seq<char>> {
    match o {
        Some(s) => Some(s@),
        None => None,
    }
}

/// `s` without its leading white space.
pub open spec fn trim_start(s: Seq<char>) -> Seq<char>
    decreases s.len(),
{
    if s.len() > 0 && is_space(s[0]) {
        trim_start(s.drop_first())
    } else {
        s
    }
}

/// `s` without its trailing white space.
pub open spec fn trim_end(s: Seq<char>) -> Seq<char>
    decreases s.len(),
{
    if s.len() > 0 && is_space(s.last()) {
        trim_end(s.drop_last())
    } else {
        s
    }
}

/// `s` without white space at either end.
pub open spec fn trimmed(s: Seq<char>) -> Seq<char> {
    trim_end(trim_start(s))
}

/// Trimming cuts at the first and last characters that are not white space.
pub proof fn lemma_trim_start_cut(s: Seq<char>, i: int)
    requires
        0 <= i <= s.len(),
        forall|k: int| 0 <= k < i ==> is_space(s[k]),
        i < s.len() ==> !is_space(s[i]),
    ensures
        trim_start(s) == s.skip(i),
    decreases i,
{
    if i > 0 {
        assert(is_space(s[0]));
        assert forall|k: int| 0 <= k < i - 1 implies is_space(s.drop_first()[k]) by {
            assert(is_space(s[k + 1]));
        }
        lemma_trim_start_cut(s.drop_first(), i - 1);
        assert(s.drop_first().skip(i - 1) =~= s.skip(i));
    } else {
        assert(s.skip(0) =~= s);
    }
}

/// Trimming the end cuts after the last character that is not white space.
pub proof fn lemma_trim_end_cut(s: Seq<char>, j: int)
    requires
        0 <= j <= s.len(),
        forall|k: int| j <= k < s.len() ==> is_space(s[k]),
        j > 0 ==> !is_space(s[j - 1]),
    ensures
        trim_end(s) == s.take(j),
    decreases s.len() - j,
{
    if j < s.len() {
        assert(is_space(s[s.len() - 1]));
        lemma_trim_end_cut(s.drop_last(), j);
        assert(s.drop_last().take(j) =~= s.take(j));
    } else {
        assert(s.take(j) =~= s);
    }
}

/// Where the trimmed part of `chars[from..to]` starts and ends.
pub fn trim_range(chars: &Vec<char>, from: usize, to: usize) -> (r: (usize, usize))
    requires
        from <= to <= chars@.len(),
    ensures
        from <= r.0 <= r.1 <= to,
        chars@.subrange(r.0 as int, r.1 as int) == trimmed(
            chars@.subrange(from as int, to as int),
        ),
{
    let ghost s = chars@.subrange(from as int, to as int);
    let mut i: usize = from;
    while i < to && char_is_space(chars[i])
        invariant
            from <= i <= to <= chars@.len(),
            forall|k: int| from <= k < i ==> is_space(chars@[k]),
        decreases to - i,
    {
        i = i + 1;
    }
    proof {
        lemma_trim_start_cut(s, i - from);
    }
    let mut j: usize = to;
    while i < j && char_is_space(chars[j - 1])
        invariant
            from <= i <= j <= to <= chars@.len(),
            forall|k: int| j <= k < to ==> is_space(chars@[k]),
        decreases j,
    {
        j = j - 1;
    }
    proof {
        let t = trim_start(s);
        assert(t =~= chars@.subrange(i as int, to as int));
        lemma_trim_end_cut(t, j - i);
        assert(t.take(j - i) =~= chars@.subrange(i as int, j as int));
    }
    (i, j)
}

/// `s` without white space at either end.
pub fn trim(s: &str) -> (r: String)
    ensures
        r@ == trimmed(s@),
{
    let chars = chars_of(s);
    let (i, j) = trim_range(&chars, 0, chars.len());
    proof {
        assert(chars@.subrange(0, chars@.len() as int) =~= s@);
    }
    string_of(&chars, i, j)
}

/// Trimming twice is trimming once.
pub proof fn lemma_trim_idempotent(s: Seq<char>)
    ensures
        trimmed(trimmed(s)) == trimmed(s),
{
    let t = trim_start(s);
    lemma_trim_start_head(s);
    lemma_trim_end_prefix(t);
    let u = trim_end(t);
    if u.len() > 0 {
        assert(u[0] == t[0]);
    }
    assert(trim_start(u) == u);
    lemma_trim_end_last(t);
    assert(trim_end(u) == u);
}

proof fn lemma_trim_start_head(s: Seq<char>)
    ensures
        trim_start(s).len() > 0 ==> !is_space(trim_start(s)[0]),
    decreases s.len(),
{
    if s.len() > 0 && is_space(s[0]) {
        lemma_trim_start_head(s.drop_first());
    }
}

proof fn lemma_trim_end_last(s: Seq<char>)
    ensures
        trim_end(s).len() > 0 ==> !is_space(trim_end(s).last()),
    decreases s.len(),
{
    if s.len() > 0 && is_space(s.last()) {
        lemma_trim_end_last(s.drop_last());
    }
}

proof fn lemma_trim_end_prefix(s: Seq<char>)
    ensures
        trim_end(s).len() <= s.len(),
        trim_end(s) == s.take(trim_end(s).len() as int),
    decreases s.len(),
{
    if s.len() > 0 && is_space(s.last()) {
        lemma_trim_end_prefix(s.drop_last());
        assert(s.drop_last().take(trim_end(s).len() as int) =~= s.take(trim_end(s).len() as int));
    } else {
        assert(s.take(s.len() as int) =~= s);
    }
}

/// The index of the first `c` in `s`; the length of `s` when there is none.
pub open spec fn find(s: Seq<char>, c: char) -> int
    decreases s.len(),
{
    if s.len() == 0 || s[0] == c {
        0
    } else {
        1 + find(s.drop_first(), c)
    }
}

/// What singles out the index that `find` returns.
pub proof fn lemma_find_is(s: Seq<char>, c: char, i: int)
    requires
        0 <= i <= s.len(),
        forall|k: int| 0 <= k < i ==> s[k] != c,
        i < s.len() ==> s[i] == c,
    ensures
        find(s, c) == i,
    decreases i,
{
    if i > 0 {
        assert(s[0] != c);
        assert forall|k: int| 0 <= k < i - 1 implies s.drop_first()[k] != c by {
            assert(s[k + 1] != c);
        }
        lemma_find_is(s.drop_first(), c, i - 1);
    }
}

/// `find` gives an index within the text, at the first occurrence.
pub proof fn lemma_find(s: Seq<char>, c: char)
    ensures
        0 <= find(s, c) <= s.len(),
        find(s, c) < s.len() ==> s[find(s, c)] == c,
        forall|k: int| 0 <= k < find(s, c) ==> s[k] != c,
    decreases s.len(),
{
    if s.len() > 0 && s[0] != c {
        lemma_find(s.drop_first(), c);
        assert forall|k: int| 0 <= k < find(s, c) implies s[k] != c by {
            if k > 0 {
                assert(s[k] == s.drop_first()[k - 1]);
            }
        }
    }
}

/// The index of the first `c` in `chars[from..to]`, or `to`.
pub fn find_char(chars: &Vec<char>, from: usize, to: usize, c: char) -> (r: usize)
    requires
        from <= to <= chars@.len(),
    ensures
        from <= r <= to,
        r - from == find(chars@.subrange(from as int, to as int), c),
        r < to ==> chars@[r as int] == c,
        forall|k: int| from <= k < r ==> chars@[k] != c,
{
    let mut i: usize = from;
    while i < to && chars[i] != c
        invariant
            from <= i <= to <= chars@.len(),
            forall|k: int| from <= k < i ==> chars@[k] != c,
        decreases to - i,
    {
        i = i + 1;
    }
    proof {
        lemma_find_is(chars@.subrange(from as int, to as int), c, i - from);
    }
    i
}

/// The index of the last `c` in `s`, if there is one.
pub open spec fn find_last(s: Seq<char>, c: char) -> Option<int>
    decreases s.len(),
{
    if s.len() == 0 {
        None
    } else if s.last() == c {
        Some(s.len() - 1)
    } else {
        find_last(s.drop_last(), c)
    }
}

/// The index of the last `c` in `s`, if there is one.
pub fn find_last_char(chars: &Vec<char>, from: usize, to: usize, c: char) -> (r: Option<usize>)
    requires
        from <= to <= chars@.len(),
    ensures
        match r {
            Some(i) => from <= i < to && find_last(chars@.subrange(from as int, to as int), c)
                == Some(i - from),
            None => find_last(chars@.subrange(from as int, to as int), c) is None,
        },
{
    let ghost s = chars@.subrange(from as int, to as int);
    let mut i: usize = to;
    assert(chars@.subrange(from as int, i as int) =~= s);
    while i > from
        invariant
            from <= i <= to <= chars@.len(),
            s == chars@.subrange(from as int, to as int),
            find_last(s, c) == find_last(chars@.subrange(from as int, i as int), c),
        decreases i - from,
    {
        let ghost now = chars@.subrange(from as int, i as int);
        assert(now.last() == chars@[i - 1]);
        assert(now.drop_last() =~= chars@.subrange(from as int, i - 1));
        if chars[i - 1] == c {
            return Some(i - 1);
        }
        i = i - 1;
    }
    None
}

/// Whether `chars` starts with `prefix`.
pub fn starts_with(chars: &Vec<char>, prefix: &str) -> (r: bool)
    ensures
        r == prefix@.is_prefix_of(chars@),
{
    let p = chars_of(prefix);
    if p.len() > chars.len() {
        return false;
    }
    let mut i: usize = 0;
    while i < p.len()
        invariant
            i <= p@.len() <= chars@.len(),
            p@ == prefix@,
            forall|k: int| 0 <= k < i ==> chars@[k] == p@[k],
        decreases p@.len() - i,
    {
        if chars[i] != p[i] {
            assert(chars@.take(p@.len() as int)[i as int] != p@[i as int]);
            return false;
        }
        i = i + 1;
    }
    assert(p@ =~= chars@.take(p@.len() as int));
    true
}

/// The lines of `s`: what stands between line feeds, a carriage return before a line feed
/// dropped with it. A last line feed starts no further line.
pub open spec fn lines(s: Seq<char>) -> Seq<Seq<char>>
    decreases s.len(),
    via lines_shrink
{
    let n = find(s, '\n');
    if s.len() == 0 {
        Seq::empty()
    } else if n >= s.len() {
        seq![s]
    } else {
        seq![without_return(s.take(n))] + lines(s.skip(n + 1))
    }
}

#[via_fn]
proof fn lines_shrink(s: Seq<char>) {
    lemma_find(s, '\n');
}

/// A text with these lines, each ended.
pub open spec fn unlines(ls: Seq<Seq<char>>) -> Seq<char>
    decreases ls.len(),
{
    if ls.len() == 0 {
        Seq::empty()
    } else {
        unlines(ls.drop_last()) + ls.last() + seq!['\n']
    }
}

/// A text with these lines, each ended.
pub fn join_lines(ls: &Vec<String>) -> (r: String)
    ensures
        r@ == unlines(views(ls@)),
{
    let mut out = String::new();
    let ghost all = views(ls@);
    let mut i: usize = 0;
    assert(all.take(0).len() == 0);
    assert(out@ =~= unlines(all.take(0)));
    while i < ls.len()
        invariant
            i <= ls@.len(),
            all == views(ls@),
            out@ == unlines(all.take(i as int)),
        decreases ls@.len() - i,
    {
        let ghost before = out@;
        out.append(ls[i].as_str());
        out.push('\n');
        proof {
            assert(all.take(i + 1).drop_last() =~= all.take(i as int));
            assert(all.take(i + 1).last() == all[i as int]);
            assert(out@ =~= before + all[i as int] + seq!['\n']);
        }
        i = i + 1;
    }
    assert(all.take(i as int) =~= all);
    out
}

/// Whether `s` ends in a carriage return.
pub open spec fn ends_in_return(s: Seq<char>) -> bool {
    s.len() > 0 && s.last() == '\r'
}

/// The lines as they are read back: each without a carriage return at its end.
pub open spec fn without_returns(ls: Seq<Seq<char>>) -> Seq<Seq<char>> {
    Seq::new(ls.len(), |i: int| without_return(ls[i]))
}

/// The lines of an ended line and a text are that line and the lines of the text.
proof fn lemma_lines_cons(l: Seq<char>, rest: Seq<char>)
    requires
        !l.contains('\n'),
    ensures
        lines(l + seq!['\n'] + rest) == seq![without_return(l)] + lines(rest),
{
    let s = l + seq!['\n'] + rest;
    assert forall|k: int| 0 <= k < l.len() implies s[k] != '\n' by {
        assert(l.contains(l[k]));
    }
    lemma_find_is(s, '\n', l.len() as int);
    assert(s.take(l.len() as int) =~= l);
    assert(s.skip((l.len() + 1) as int) =~= rest);
}

/// The lines of a text that was put together from lines are these lines, each without a carriage
/// return at its end.
pub proof fn lemma_lines_of_unlines(ls: Seq<Seq<char>>)
    requires
        forall|i: int| 0 <= i < ls.len() ==> !(#[trigger] ls[i]).contains('\n'),
    ensures
        lines(unlines(ls)) == without_returns(ls),
        (forall|i: int| 0 <= i < ls.len() ==> !ends_in_return(#[trigger] ls[i]))
            ==> without_returns(ls) == ls,
{
    lemma_lines_of_unlines_then(ls, Seq::empty());
    assert(unlines(ls) + Seq::<char>::empty() =~= unlines(ls));
    assert(lines(Seq::<char>::empty()) =~= Seq::empty());
    assert(without_returns(ls) + Seq::<Seq<char>>::empty() =~= without_returns(ls));
    if forall|i: int| 0 <= i < ls.len() ==> !ends_in_return(#[trigger] ls[i]) {
        assert(without_returns(ls) =~= ls);
    }
}

proof fn lemma_lines_of_unlines_then(ls: Seq<Seq<char>>, rest: Seq<char>)
    requires
        forall|i: int| 0 <= i < ls.len() ==> !(#[trigger] ls[i]).contains('\n'),
    ensures
        lines(unlines(ls) + rest) == without_returns(ls) + lines(rest),
    decreases ls.len(),
{
    if ls.len() == 0 {
        assert(unlines(ls) + rest =~= rest);
        assert(without_returns(ls) + lines(rest) =~= lines(rest));
    } else {
        let head = ls.drop_last();
        let tail = ls.last() + seq!['\n'] + rest;
        assert forall|i: int| 0 <= i < head.len() implies !(#[trigger] head[i]).contains('\n') by {
            assert(!ls[i].contains('\n'));
        }
        assert(!ls[ls.len() - 1].contains('\n'));
        assert(unlines(ls) + rest =~= unlines(head) + tail);
        lemma_lines_of_unlines_then(head, tail);
        lemma_lines_cons(ls.last(), rest);
        assert(without_returns(head) + (seq![without_return(ls.last())] + lines(rest))
            =~= without_returns(ls) + lines(rest));
    }
}

/// A carriage return at the end is trimmed away anyhow.
pub proof fn lemma_trim_without_return(s: Seq<char>)
    ensures
        trimmed(without_return(s)) == trimmed(s),
{
    if ends_in_return(s) {
        let head = s.drop_last();
        assert(is_space('\r'));
        assert(s =~= head.push('\r'));
        lemma_trim_start_push(head, '\r');
        if trim_start(head).len() > 0 {
            let t = trim_start(head).push('\r');
            assert(t.drop_last() =~= trim_start(head));
            assert(trim_end(t) == trim_end(t.drop_last()));
        } else {
            assert(trim_start(head) =~= Seq::<char>::empty());
        }
    }
}

/// White space behind a text stays when its front is trimmed, unless nothing else is left.
proof fn lemma_trim_start_push(s: Seq<char>, c: char)
    requires
        is_space(c),
    ensures
        trim_start(s.push(c)) == if trim_start(s).len() > 0 {
            trim_start(s).push(c)
        } else {
            Seq::empty()
        },
    decreases s.len(),
{
    let t = s.push(c);
    if s.len() == 0 {
        assert(t[0] == c);
        assert(t.drop_first().len() == 0);
        assert(trim_start(t.drop_first()) =~= Seq::empty());
    } else {
        assert(t[0] == s[0]);
        if is_space(s[0]) {
            assert(t.drop_first() =~= s.drop_first().push(c));
            lemma_trim_start_push(s.drop_first(), c);
        }
    }
}

/// A line holds no line feed.
pub proof fn lemma_lines_hold_no_feed(s: Seq<char>)
    ensures
        forall|i: int| 0 <= i < lines(s).len() ==> !(#[trigger] lines(s)[i]).contains('\n'),
    decreases s.len(),
{
    let n = find(s, '\n');
    lemma_find(s, '\n');
    if s.len() > 0 && n < s.len() {
        lemma_lines_hold_no_feed(s.skip(n + 1));
        let first = without_return(s.take(n));
        assert(!first.contains('\n')) by {
            if first.contains('\n') {
                let k = choose|k: int| 0 <= k < first.len() && first[k] == '\n';
                assert(s[k] == '\n');
            }
        }
        let rest = lines(s.skip(n + 1));
        assert forall|i: int| 0 <= i < lines(s).len() implies !(#[trigger] lines(s)[i]).contains(
            '\n',
        ) by {
            if i > 0 {
                assert(lines(s)[i] == rest[i - 1]);
            }
        }
    } else if s.len() > 0 {
        assert(!s.contains('\n')) by {
            if s.contains('\n') {
                let k = choose|k: int| 0 <= k < s.len() && s[k] == '\n';
                assert(k < n);
            }
        }
    }
}

/// `s` without one carriage return at its end.
pub open spec fn without_return(s: Seq<char>) -> Seq<char> {
    if ends_in_return(s) {
        s.drop_last()
    } else {
        s
    }
}

/// The lines of `s`.
pub fn split_lines(s: &str) -> (r: Vec<String>)
    ensures
        views(r@) == lines(s@),
{
    let chars = chars_of(s);
    let mut out: Vec<String> = Vec::new();
    let mut i: usize = 0;
    assert(chars@.skip(0) =~= s@);
    assert(views(out@) + lines(s@) =~= lines(s@));
    while i < chars.len()
        invariant
            i <= chars@.len(),
            chars@ == s@,
            views(out@) + lines(chars@.skip(i as int)) == lines(s@),
        decreases chars@.len() - i,
    {
        let ghost rest = chars@.skip(i as int);
        let ghost before = views(out@);
        let n = find_char(&chars, i, chars.len(), '\n');
        assert(chars@.subrange(i as int, chars@.len() as int) =~= rest);
        if n == chars.len() {
            out.push(string_of(&chars, i, n));
            assert(views(out@) =~= before.push(rest));
            assert(lines(rest) == seq![rest]);
            assert(chars@.skip(n as int).len() == 0);
            assert(views(out@) + lines(chars@.skip(n as int)) =~= before + lines(rest));
            i = n;
        } else {
            let end = if n > i && chars[n - 1] == '\r' {
                n - 1
            } else {
                n
            };
            out.push(string_of(&chars, i, end));
            assert(without_return(rest.take(n - i)) =~= chars@.subrange(i as int, end as int));
            assert(views(out@) =~= before.push(chars@.subrange(i as int, end as int)));
            assert(rest.skip(n - i + 1) =~= chars@.skip(n + 1));
            assert(views(out@) + lines(chars@.skip(n + 1)) =~= before + lines(rest));
            i = n + 1;
        }
    }
    assert(chars@.skip(i as int).len() == 0);
    assert(views(out@) + lines(chars@.skip(i as int)) =~= views(out@));
    out
}

/// How many characters stand before the first white space.
pub open spec fn word_len(s: Seq<char>) -> int
    decreases s.len(),
{
    if s.len() == 0 || is_space(s[0]) {
        0
    } else {
        1 + word_len(s.drop_first())
    }
}

proof fn lemma_word_len_is(s: Seq<char>, i: int)
    requires
        0 <= i <= s.len(),
        forall|k: int| 0 <= k < i ==> !is_space(s[k]),
        i < s.len() ==> is_space(s[i]),
    ensures
        word_len(s) == i,
    decreases i,
{
    if i > 0 {
        assert(!is_space(s[0]));
        assert forall|k: int| 0 <= k < i - 1 implies !is_space(s.drop_first()[k]) by {
            assert(!is_space(s[k + 1]));
        }
        lemma_word_len_is(s.drop_first(), i - 1);
    }
}

proof fn lemma_word_len(s: Seq<char>)
    ensures
        0 <= word_len(s) <= s.len(),
        s.len() > 0 && !is_space(s[0]) ==> word_len(s) > 0,
    decreases s.len(),
{
    if s.len() > 0 && !is_space(s[0]) {
        lemma_word_len(s.drop_first());
    }
}

proof fn lemma_trim_start_len(s: Seq<char>)
    ensures
        trim_start(s).len() <= s.len(),
    decreases s.len(),
{
    if s.len() > 0 && is_space(s[0]) {
        lemma_trim_start_len(s.drop_first());
    }
}

/// The words of `s`: its longest runs without white space.
pub open spec fn words(s: Seq<char>) -> Seq<Seq<char>>
    decreases s.len(),
    via words_shrink
{
    let t = trim_start(s);
    if t.len() == 0 {
        Seq::empty()
    } else {
        seq![t.take(word_len(t))] + words(t.skip(word_len(t)))
    }
}

#[via_fn]
proof fn words_shrink(s: Seq<char>) {
    let t = trim_start(s);
    lemma_trim_start_len(s);
    lemma_trim_start_head(s);
    lemma_word_len(t);
}

/// The words of `s`.
pub fn split_words(s: &str) -> (r: Vec<String>)
    ensures
        views(r@) == words(s@),
{
    let chars = chars_of(s);
    let mut out: Vec<String> = Vec::new();
    let mut i: usize = 0;
    assert(chars@.skip(0) =~= s@);
    assert(views(out@) + words(s@) =~= words(s@));
    while i < chars.len()
        invariant
            i <= chars@.len(),
            chars@ == s@,
            views(out@) + words(chars@.skip(i as int)) == words(s@),
        decreases chars@.len() - i,
    {
        let ghost rest = chars@.skip(i as int);
        let ghost before = views(out@);
        let mut a: usize = i;
        while a < chars.len() && char_is_space(chars[a])
            invariant
                i <= a <= chars@.len(),
                forall|k: int| i <= k < a ==> is_space(chars@[k]),
            decreases chars@.len() - a,
        {
            a = a + 1;
        }
        let mut b: usize = a;
        while b < chars.len() && !char_is_space(chars[b])
            invariant
                a <= b <= chars@.len(),
                forall|k: int| a <= k < b ==> !is_space(chars@[k]),
            decreases chars@.len() - b,
        {
            b = b + 1;
        }
        proof {
            lemma_trim_start_cut(rest, a - i);
            let t = rest.skip(a - i);
            assert(t =~= chars@.skip(a as int));
            lemma_word_len_is(t, b - a);
            assert(t.take(b - a) =~= chars@.subrange(a as int, b as int));
            assert(t.skip(b - a) =~= chars@.skip(b as int));
        }
        if a < chars.len() {
            out.push(string_of(&chars, a, b));
            assert(views(out@) =~= before.push(chars@.subrange(a as int, b as int)));
            assert(views(out@) + words(chars@.skip(b as int)) =~= before + words(rest));
        } else {
            assert(words(rest).len() == 0);
            assert(trim_start(chars@.skip(b as int)).len() == 0);
            assert(words(chars@.skip(b as int)) =~= words(rest));
        }
        i = b;
    }
    assert(chars@.skip(i as int).len() == 0);
    assert(views(out@) + words(chars@.skip(i as int)) =~= views(out@));
    out
}

/// The digit `d`, for `d` below ten.
pub open spec fn digit(d: int) -> char {
    (d + '0' as int) as char
}

/// `n` in decimal, without leading zeros.
pub open spec fn decimal(n: nat) -> Seq<char>
    decreases n,
{
    if n < 10 {
        seq![digit(n as int)]
    } else {
        decimal(n / 10).push(digit((n % 10) as int))
    }
}

fn push_digit(out: &mut String, d: u64)
    requires
        d < 10,
    ensures
        final(out)@ == old(out)@.push(digit(d as int)),
{
    let c: u8 = 48u8 + (d as u8);
    out.push(c as char);
}

/// `n` in decimal.
pub fn show_u64(n: u64) -> (r: String)
    ensures
        r@ == decimal(n as nat),
    decreases n,
{
    if n < 10 {
        let mut out = String::new();
        push_digit(&mut out, n);
        assert(out@ =~= seq![digit(n as int)]);
        out
    } else {
        let mut out = show_u64(n / 10);
        push_digit(&mut out, n % 10);
        out
    }
}

/// `n` in decimal, with a leading minus sign below zero.
pub open spec fn signed_decimal(n: int) -> Seq<char> {
    if n < 0 {
        seq!['-'] + decimal((-n) as nat)
    } else {
        decimal(n as nat)
    }
}

/// `n` in decimal.
pub fn show_i32(n: i32) -> (r: String)
    ensures
        r@ == signed_decimal(n as int),
{
    if n < 0 {
        let mut out = String::new();
        out.push('-');
        let magnitude: i64 = -(n as i64);
        let rest = show_u64(magnitude as u64);
        out.append(rest.as_str());
        assert(out@ =~= seq!['-'] + rest@);
        out
    } else {
        show_u64(n as u64)
    }
}

/// Whether `c` is an ASCII digit.
pub open spec fn is_digit(c: char) -> bool {
    '0' <= c <= '9'
}

/// The number that a run of digits writes.
pub open spec fn number(s: Seq<char>) -> nat
    decreases s.len(),
{
    if s.len() == 0 {
        0
    } else {
        number(s.drop_last()) * 10 + (s.last() as int - '0' as int) as nat
    }
}

/// Whether `s` is made of digits, at least one.
pub open spec fn all_digits(s: Seq<char>) -> bool {
    &&& s.len() > 0
    &&& forall|k: int| 0 <= k < s.len() ==> is_digit(#[trigger] s[k])
}

/// `s` without one plus sign at its start.
pub open spec fn without_plus(s: Seq<char>) -> Seq<char> {
    if s.len() > 0 && s[0] == '+' {
        s.drop_first()
    } else {
        s
    }
}

/// The 16-bit number that `s` writes: digits, a plus sign before them allowed.
pub open spec fn u16_of(s: Seq<char>) -> Option<u16> {
    let d = without_plus(s);
    if all_digits(d) && number(d) <= u16::MAX {
        Some(number(d) as u16)
    } else {
        None
    }
}

/// Reads a 16-bit number from `chars[from..to]`.
pub fn parse_u16(chars: &Vec<char>, from: usize, to: usize) -> (r: Option<u16>)
    requires
        from <= to <= chars@.len(),
    ensures
        r == u16_of(chars@.subrange(from as int, to as int)),
{
    let ghost s = chars@.subrange(from as int, to as int);
    let start: usize = if from < to && chars[from] == '+' {
        from + 1
    } else {
        from
    };
    let ghost d = without_plus(s);
    assert(d =~= chars@.subrange(start as int, to as int));
    if start == to {
        return None;
    }
    let mut value: u32 = 0;
    let mut i: usize = start;
    assert(d.take(0).len() == 0);
    while i < to
        invariant
            from <= start <= i <= to <= chars@.len(),
            d == chars@.subrange(start as int, to as int),
            d == without_plus(chars@.subrange(from as int, to as int)),
            d.len() > 0,
            forall|k: int| 0 <= k < i - start ==> is_digit(#[trigger] d[k]),
            value == if number(d.take(i - start)) <= u16::MAX {
                number(d.take(i - start))
            } else {
                0x10000
            },
        decreases to - i,
    {
        let c = chars[i];
        assert(d[i - start] == c);
        if !('0' <= c && c <= '9') {
            assert(!all_digits(d));
            return None;
        }
        assert(d.take(i - start + 1).drop_last() =~= d.take(i - start));
        let wider: u32 = value * 10 + ((c as u32) - ('0' as u32));
        value = if value > 65535 || wider > 65535 {
            0x10000
        } else {
            wider
        };
        i = i + 1;
    }
    proof {
        assert(d.take(i - start) =~= d);
    }
    if value <= 65535 {
        Some(value as u16)
    } else {
        None
    }
}

/// Whether `a` comes before `b`, character by character.
pub open spec fn precedes(a: Seq<char>, b: Seq<char>) -> bool
    decreases b.len(),
{
    if b.len() == 0 {
        false
    } else if a.len() == 0 {
        true
    } else {
        a[0] < b[0] || (a[0] == b[0] && precedes(a.drop_first(), b.drop_first()))
    }
}

/// The order of texts is total: of two different texts one comes before the other.
pub proof fn lemma_precedes_total(a: Seq<char>, b: Seq<char>)
    ensures
        a == b || precedes(a, b) || precedes(b, a),
    decreases b.len(),
{
    if a.len() == 0 || b.len() == 0 {
        if a.len() == b.len() {
            assert(a =~= b);
        }
    } else if a[0] == b[0] {
        lemma_precedes_total(a.drop_first(), b.drop_first());
        if a.drop_first() == b.drop_first() {
            assert(a =~= seq![a[0]] + a.drop_first());
            assert(b =~= seq![b[0]] + b.drop_first());
        }
    }
}

/// No text comes before itself, and no two before each other.
pub proof fn lemma_precedes_strict(a: Seq<char>, b: Seq<char>)
    ensures
        !precedes(a, a),
        !(precedes(a, b) && precedes(b, a)),
    decreases a.len(),
{
    if a.len() > 0 {
        lemma_precedes_strict(a.drop_first(), a.drop_first());
    }
    if a.len() > 0 && b.len() > 0 {
        lemma_precedes_strict(a.drop_first(), b.drop_first());
    }
}

/// What comes before comes before what follows.
pub proof fn lemma_precedes_transitive(a: Seq<char>, b: Seq<char>, c: Seq<char>)
    requires
        precedes(a, b),
        precedes(b, c),
    ensures
        precedes(a, c),
    decreases c.len(),
{
    if a.len() > 0 && b.len() > 0 && c.len() > 0 && a[0] == b[0] && b[0] == c[0] {
        lemma_precedes_transitive(a.drop_first(), b.drop_first(), c.drop_first());
    }
}

/// Whether `a` comes before `b`.
pub fn comes_before(a: &str, b: &str) -> (r: bool)
    ensures
        r == precedes(a@, b@),
{
    let x = chars_of(a);
    let y = chars_of(b);
    let mut i: usize = 0;
    assert(x@.skip(0) =~= a@);
    assert(y@.skip(0) =~= b@);
    while i < x.len() && i < y.len() && x[i] == y[i]
        invariant
            i <= x@.len(),
            i <= y@.len(),
            precedes(a@, b@) == precedes(x@.skip(i as int), y@.skip(i as int)),
        decreases x@.len() - i,
    {
        assert(x@.skip(i as int).drop_first() =~= x@.skip(i + 1));
        assert(y@.skip(i as int).drop_first() =~= y@.skip(i + 1));
        i = i + 1;
    }
    if i == y.len() {
        false
    } else if i == x.len() {
        true
    } else {
        x[i] < y[i]
    }
}


/// Among the ASCII characters white space is the space and the five control characters from the
/// tabulator to the carriage return, and nothing else.
pub proof fn law_ascii_white_space(c: char)
    requires
        c <= '\u{7f}',
    ensures
        is_space(c) <==> c == ' ' || c == '\t' || c == '\n' || c == '\u{b}' || c == '\u{c}' || c
            == '\r',
{
}

/// Trimming takes white space off both ends, however much there is, and nothing else: what starts
/// and ends in other characters comes out as it was.
pub proof fn law_trimming_takes_white_space_only(a: Seq<char>, s: Seq<char>, b: Seq<char>)
    requires
        forall|k: int| 0 <= k < a.len() ==> is_space(#[trigger] a[k]),
        forall|k: int| 0 <= k < b.len() ==> is_space(#[trigger] b[k]),
        s.len() > 0 ==> !is_space(s[0]) && !is_space(s[s.len() - 1]),
    ensures
        trimmed(a + s + b) == s,
{
    let t = a + s + b;
    if s.len() > 0 {
        let i = a.len() as int;
        assert(t[i] == s[0]);
        assert forall|k: int| 0 <= k < i implies is_space(t[k]) by {
            assert(t[k] == a[k]);
        }
        lemma_trim_start_cut(t, i);
        let u = t.skip(i);
        assert(u =~= s + b);
        assert forall|k: int| s.len() <= k < u.len() implies is_space(u[k]) by {
            assert(u[k] == b[k - s.len()]);
        }
        assert(u[s.len() - 1] == s[s.len() - 1]);
        lemma_trim_end_cut(u, s.len() as int);
        assert(u.take(s.len() as int) =~= s);
    } else {
        assert forall|k: int| 0 <= k < t.len() implies is_space(t[k]) by {
            if k < a.len() {
                assert(t[k] == a[k]);
            } else {
                assert(t[k] == b[k - a.len()]);
            }
        }
        lemma_trim_start_cut(t, t.len() as int);
        assert(t.skip(t.len() as int) =~= s);
    }
}

/// Every text is what trimming leaves of it, between white space.
pub proof fn law_trimmed_text_is_the_middle(s: Seq<char>) -> (r: (Seq<char>, Seq<char>))
    ensures
        s == r.0 + trimmed(s) + r.1,
        forall|k: int| 0 <= k < r.0.len() ==> is_space(#[trigger] r.0[k]),
        forall|k: int| 0 <= k < r.1.len() ==> is_space(#[trigger] r.1[k]),
        trimmed(s).len() > 0 ==> !is_space(trimmed(s)[0]) && !is_space(
            trimmed(s)[trimmed(s).len() - 1],
        ),
{
    let i = lemma_space_ahead(s);
    lemma_trim_start_cut(s, i);
    let t = s.skip(i);
    let j = lemma_space_behind(t);
    lemma_trim_end_cut(t, j);
    let a = s.take(i);
    let b = t.skip(j);
    assert(s =~= a + t.take(j) + b);
    if j > 0 {
        assert(t.take(j)[0] == s[i]);
    }
    (a, b)
}

/// Where the white space in front of `s` ends.
proof fn lemma_space_ahead(s: Seq<char>) -> (i: int)
    ensures
        0 <= i <= s.len(),
        forall|k: int| 0 <= k < i ==> is_space(s[k]),
        i < s.len() ==> !is_space(s[i]),
    decreases s.len(),
{
    if s.len() == 0 || !is_space(s[0]) {
        0
    } else {
        let i = lemma_space_ahead(s.drop_first());
        assert forall|k: int| 0 <= k < i + 1 implies is_space(s[k]) by {
            if k > 0 {
                assert(s.drop_first()[k - 1] == s[k]);
            }
        }
        i + 1
    }
}

/// Where the white space at the end of `s` starts.
proof fn lemma_space_behind(s: Seq<char>) -> (j: int)
    ensures
        0 <= j <= s.len(),
        forall|k: int| j <= k < s.len() ==> is_space(s[k]),
        j > 0 ==> !is_space(s[j - 1]),
    decreases s.len(),
{
    if s.len() == 0 || !is_space(s.last()) {
        s.len() as int
    } else {
        let j = lemma_space_behind(s.drop_last());
        assert forall|k: int| j <= k < s.len() implies is_space(s[k]) by {
            if k < s.len() - 1 {
                assert(s.drop_last()[k] == s[k]);
            }
        }
        j
    }
}

/// A text is read line by line: an ended line, by a line feed alone or with a carriage return before
/// it, is the first line, and the lines of the rest follow. A last line need not be ended.
pub proof fn law_text_is_read_line_by_line(l: Seq<char>, rest: Seq<char>)
    requires
        !l.contains('\n'),
        l.len() > 0 ==> l[l.len() - 1] != '\r',
    ensures
        lines(l + seq!['\n'] + rest) == seq![l] + lines(rest),
        lines(l + seq!['\r', '\n'] + rest) == seq![l] + lines(rest),
        l.len() > 0 ==> lines(l) == seq![l],
        lines(Seq::<char>::empty()) == Seq::<Seq<char>>::empty(),
{
    lemma_lines_cons(l, rest);
    let m = l.push('\r');
    assert(!m.contains('\n')) by {
        if m.contains('\n') {
            let k = choose|k: int| 0 <= k < m.len() && m[k] == '\n';
            assert(l[k] == '\n');
        }
    }
    lemma_lines_cons(m, rest);
    assert(m.drop_last() =~= l);
    assert(m + seq!['\n'] + rest =~= l + seq!['\r', '\n'] + rest);
    assert(lines(Seq::<char>::empty()) =~= Seq::<Seq<char>>::empty());
    if l.len() > 0 {
        assert forall|k: int| 0 <= k < l.len() implies l[k] != '\n' by {
            assert(l.contains(l[k]));
        }
        lemma_find_is(l, '\n', l.len() as int);
    }
}

/// Putting lines together ends each of them with a line feed, in order.
pub proof fn law_lines_are_put_one_after_the_other(ls: Seq<Seq<char>>, l: Seq<char>)
    ensures
        unlines(Seq::<Seq<char>>::empty()) == Seq::<char>::empty(),
        unlines(ls.push(l)) == unlines(ls) + l + seq!['\n'],
        unlines(seq![l] + ls) == l + seq!['\n'] + unlines(ls),
    decreases ls.len(),
{
    assert(unlines(Seq::<Seq<char>>::empty()) =~= Seq::<char>::empty());
    assert(ls.push(l).drop_last() =~= ls);
    if ls.len() == 0 {
        assert(seq![l] + ls =~= ls.push(l));
        assert(unlines(seq![l] + ls) =~= l + seq!['\n'] + unlines(ls));
    } else {
        law_lines_are_put_one_after_the_other(ls.drop_last(), l);
        assert((seq![l] + ls).drop_last() =~= seq![l] + ls.drop_last());
        assert(unlines(seq![l] + ls) =~= l + seq!['\n'] + unlines(ls));
    }
}

/// The words of a text come one by one, in order, however much white space stands between them.
pub proof fn law_words_come_one_by_one(w: Seq<char>, c: char, rest: Seq<char>)
    requires
        w.len() > 0,
        forall|k: int| 0 <= k < w.len() ==> !is_space(#[trigger] w[k]),
        is_space(c),
    ensures
        words(Seq::<char>::empty()) == Seq::<Seq<char>>::empty(),
        words(seq![c] + rest) == words(rest),
        words(w) == seq![w],
        words(w + seq![c] + rest) == seq![w] + words(rest),
{
    let e = Seq::<char>::empty();
    assert(words(e) =~= Seq::<Seq<char>>::empty());
    let s = seq![c] + rest;
    assert(s.drop_first() =~= rest);
    assert(trim_start(s) == trim_start(rest));
    lemma_word_len_is(w, w.len() as int);
    assert(trim_start(w) == w);
    assert(w.take(w.len() as int) =~= w);
    assert(w.skip(w.len() as int) =~= e);
    assert(words(w) =~= seq![w]);
    let t = w + seq![c] + rest;
    assert(t[0] == w[0]);
    assert forall|k: int| 0 <= k < w.len() implies !is_space(t[k]) by {
        assert(t[k] == w[k]);
    }
    assert(t[w.len() as int] == c);
    lemma_word_len_is(t, w.len() as int);
    assert(trim_start(t) == t);
    assert(t.take(w.len() as int) =~= w);
    assert(t.skip(w.len() as int) =~= s);
    assert(words(s) == words(rest));
}

/// A number is written digit by digit, the highest first: one digit below ten, and otherwise the
/// digits of the tenth part before the last digit.
pub proof fn law_numbers_are_written_digit_by_digit(n: nat, d: nat)
    requires
        d < 10,
    ensures
        decimal(d) == seq![('0' as int + d) as char],
        n > 0 ==> decimal(10 * n + d) == decimal(n) + decimal(d),
{
    assert(n > 0 ==> (10 * n + d) / 10 == n && (10 * n + d) % 10 == d);
    assert(n > 0 ==> decimal(10 * n + d) =~= decimal(n) + decimal(d));
}

/// What is written in decimal is read back, as far as sixteen bits reach; a plus sign may stand
/// before it.
pub proof fn law_written_numbers_are_read_back(n: nat)
    ensures
        n <= 65535 ==> u16_of(decimal(n)) == Some(n as u16),
        n <= 65535 ==> u16_of(seq!['+'] + decimal(n)) == Some(n as u16),
        n > 65535 ==> u16_of(decimal(n)) is None,
{
    lemma_decimal_is_read(n);
    let d = decimal(n);
    assert(is_digit(d[0]));
    let p = seq!['+'] + d;
    assert(p.drop_first() =~= d);
}

proof fn lemma_decimal_is_read(n: nat)
    ensures
        all_digits(decimal(n)),
        number(decimal(n)) == n,
    decreases n,
{
    if n < 10 {
        let d = decimal(n);
        assert(d[0] == digit(n as int));
        assert(d.drop_last().len() == 0);
        assert(number(d.drop_last()) == 0);
    } else {
        lemma_decimal_is_read(n / 10);
        let h = decimal(n / 10);
        let d = decimal(n);
        assert(d.drop_last() =~= h);
        assert forall|k: int| 0 <= k < d.len() implies is_digit(#[trigger] d[k]) by {
            if k < h.len() {
                assert(d[k] == h[k]);
            }
        }
    }
}

/// A text with anything but digits in it is no number, but for one plus sign in front; nor is a text
/// without digits.
pub proof fn law_only_digits_are_read(s: Seq<char>, k: int)
    requires
        s.len() == 0 || s == seq!['+'] || (0 <= k < s.len() && !('0' <= s[k] <= '9') && (k > 0
            || s[k] != '+')),
    ensures
        u16_of(s) is None,
{
    let d = without_plus(s);
    if s.len() > 0 && s != seq!['+'] {
        if s[0] == '+' {
            assert(d[k - 1] == s[k]);
            assert(!is_digit(d[k - 1]));
        } else {
            assert(!is_digit(d[k]));
        }
    } else if s.len() > 0 {
        assert(d.len() == 0);
    }
}

/// The first character in which two texts differ decides which comes first, and a text comes before
/// all that it starts.
pub proof fn law_first_difference_decides_the_order(
    p: Seq<char>,
    a: char,
    x: Seq<char>,
    b: char,
    y: Seq<char>,
)
    requires
        a < b,
    ensures
        precedes(p + seq![a] + x, p + seq![b] + y),
        !precedes(p + seq![b] + y, p + seq![a] + x),
        precedes(p, p + seq![a] + x),
        !precedes(p + seq![a] + x, p),
    decreases p.len(),
{
    let s = p + seq![a] + x;
    let t = p + seq![b] + y;
    if p.len() > 0 {
        let q = p.drop_first();
        law_first_difference_decides_the_order(q, a, x, b, y);
        assert(s.drop_first() =~= q + seq![a] + x);
        assert(t.drop_first() =~= q + seq![b] + y);
        assert(s[0] == p[0] && t[0] == p[0]);
    } else {
        assert(s[0] == a && t[0] == b);
    }
}


/// The last occurrence is the one with none behind it.
pub proof fn law_last_occurrence_has_none_behind_it(s: Seq<char>, c: char, t: Seq<char>)
    requires
        !t.contains(c),
    ensures
        find_last(s + seq![c] + t, c) == Some(s.len() as int),
        find_last(t, c) is None,
    decreases t.len(),
{
    let all = s + seq![c] + t;
    if t.len() == 0 {
        assert(all.last() == c);
    } else {
        assert(t.contains(t[t.len() - 1]));
        let u = t.drop_last();
        assert(!u.contains(c)) by {
            if u.contains(c) {
                let k = choose|k: int| 0 <= k < u.len() && u[k] == c;
                assert(t[k] == c);
            }
        }
        law_last_occurrence_has_none_behind_it(s, c, u);
        assert(all.drop_last() =~= s + seq![c] + u);
        assert(all.last() == t.last());
    }
}

/// The first occurrence is the one with none before it.
pub proof fn law_first_occurrence_has_none_before_it(s: Seq<char>, c: char, t: Seq<char>)
    requires
        !s.contains(c),
    ensures
        find(s + seq![c] + t, c) == s.len(),
        find(s, c) == s.len(),
{
    let all = s + seq![c] + t;
    assert forall|k: int| 0 <= k < s.len() implies s[k] != c && all[k] != c by {
        assert(s.contains(s[k]));
        assert(all[k] == s[k]);
    }
    lemma_find_is(all, c, s.len() as int);
    lemma_find_is(s, c, s.len() as int);
}

/// A number below zero is written with a minus sign before its size, and any other as it is.
pub proof fn law_numbers_below_zero_have_a_sign(n: nat)
    ensures
        n > 0 ==> signed_decimal(-(n as int)) == seq!['-'] + decimal(n),
        signed_decimal(n as int) == decimal(n),
{
}

} // verus!
