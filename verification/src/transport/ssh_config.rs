//! What the user's SSH configuration says of a host.
//!
//! A small part of OpenSSH's grammar: one directive to a line, a keyword and its value with white
//! space or `=` between them, in blocks that start with `Host` and patterns. What stands before
//! the first block holds for all hosts. Of several values for a keyword the first counts. `Match`
//! blocks are passed over.
use vstd::prelude::*;

use crate::os_path;
use crate::path;
use crate::text;
use crate::text::char_is_space;
use crate::text::chars_of;
use crate::text::find_char;
use crate::text::string_of;

verus! {

/// What is known of a host.
#[derive(Debug, Clone)]
pub struct HostConfig {
    pub hostname: Option<String>,
    pub user: Option<String>,
    pub port: Option<u16>,
    pub identity_file: Option<String>,
}

/// What is known of a host, with texts as sequences of characters.
#[verifier::ext_equal]
pub struct HostView {
    pub hostname: Option<Seq<char>>,
    pub user: Option<Seq<char>>,
    pub port: Option<u16>,
    pub identity_file: Option<Seq<char>>,
}

impl View for HostConfig {
    type V = HostView;

    open spec fn view(&self) -> HostView {
        HostView {
            hostname: text::opt(self.hostname),
            user: text::opt(self.user),
            port: self.port,
            identity_file: text::opt(self.identity_file),
        }
    }
}

/// Whether a pattern with `*` for any run and `?` for any one character matches all of `s`.
pub open spec fn glob(p: Seq<char>, s: Seq<char>) -> bool
    decreases p.len(), s.len(),
{
    if p.len() == 0 {
        s.len() == 0
    } else if p[0] == '*' {
        glob(p.drop_first(), s) || (s.len() > 0 && glob(p, s.drop_first()))
    } else {
        s.len() > 0 && (p[0] == '?' || p[0] == s[0]) && glob(p.drop_first(), s.drop_first())
    }
}

/// A star matches a run of any length: what follows it in the pattern matches what is left.
pub proof fn law_star_matches_any_run(p: Seq<char>, s: Seq<char>)
    requires
        p.len() > 0,
        p[0] == '*',
    ensures
        glob(p, s) <==> exists|k: int|
            0 <= k <= s.len() && #[trigger] glob(p.drop_first(), s.skip(k)),
    decreases s.len(),
{
    let q = p.drop_first();
    assert(s.skip(0) =~= s);
    if s.len() > 0 {
        let t = s.drop_first();
        law_star_matches_any_run(p, t);
        if glob(p, t) {
            let k = choose|k: int| 0 <= k <= t.len() && #[trigger] glob(q, t.skip(k));
            assert(t.skip(k) =~= s.skip(k + 1));
            assert(glob(q, s.skip(k + 1)));
        }
    }
    if glob(q, s) {
        assert(glob(q, s.skip(0)));
    }
    if exists|k: int| 0 <= k <= s.len() && #[trigger] glob(q, s.skip(k)) {
        let k = choose|k: int| 0 <= k <= s.len() && #[trigger] glob(q, s.skip(k));
        if k > 0 {
            let t = s.drop_first();
            assert(t.skip(k - 1) =~= s.skip(k));
            assert(glob(q, t.skip(k - 1)));
        }
    }
}

fn glob_from(p: &Vec<char>, i: usize, s: &Vec<char>, j: usize) -> (r: bool)
    requires
        i <= p@.len(),
        j <= s@.len(),
    ensures
        r == glob(p@.skip(i as int), s@.skip(j as int)),
    decreases p@.len() - i, s@.len() - j,
{
    let ghost ps = p@.skip(i as int);
    let ghost ss = s@.skip(j as int);
    if i == p.len() {
        return j == s.len();
    }
    assert(ps.drop_first() =~= p@.skip(i + 1));
    if j < s.len() {
        assert(ss.drop_first() =~= s@.skip(j + 1));
    }
    if p[i] == '*' {
        if glob_from(p, i + 1, s, j) {
            return true;
        }
        return j < s.len() && glob_from(p, i, s, j + 1);
    }
    j < s.len() && (p[i] == '?' || p[i] == s[j]) && glob_from(p, i + 1, s, j + 1)
}

/// Whether `pattern` matches all of `s`.
pub fn glob_match(pattern: &str, s: &str) -> (r: bool)
    ensures
        r == glob(pattern@, s@),
{
    let p = chars_of(pattern);
    let t = chars_of(s);
    assert(p@.skip(0) =~= p@);
    assert(t@.skip(0) =~= t@);
    glob_from(&p, 0, &t, 0)
}

/// Whether a pattern says what to leave out.
pub open spec fn is_negated(pattern: Seq<char>) -> bool {
    pattern.len() > 0 && pattern[0] == '!'
}

/// Whether a block with these patterns is about `alias`: one of them matches, and none with `!`
/// in front does.
pub open spec fn is_about(patterns: Seq<Seq<char>>, alias: Seq<char>) -> bool {
    &&& exists|i: int|
        0 <= i < patterns.len() && !is_negated(#[trigger] patterns[i]) && glob(patterns[i], alias)
    &&& forall|i: int|
        0 <= i < patterns.len() && is_negated(#[trigger] patterns[i]) ==> !glob(
            patterns[i].drop_first(),
            alias,
        )
}

/// Whether a block with these patterns, white space between them, is about `alias`.
pub fn host_block_matches(patterns: &str, alias: &str) -> (r: bool)
    ensures
        r == is_about(text::words(patterns@), alias@),
{
    let words = text::split_words(patterns);
    let ghost ws = text::words(patterns@);
    let mut matched = false;
    let mut i: usize = 0;
    while i < words.len()
        invariant
            i <= words@.len(),
            ws == text::words(patterns@),
            text::views(words@) == ws,
            matched == exists|k: int|
                0 <= k < i && !is_negated(#[trigger] ws[k]) && glob(ws[k], alias@),
            forall|k: int|
                0 <= k < i && is_negated(#[trigger] ws[k]) ==> !glob(ws[k].drop_first(), alias@),
        decreases words@.len() - i,
    {
        let chars = chars_of(words[i].as_str());
        assert(chars@ == ws[i as int]);
        if chars.len() > 0 && chars[0] == '!' {
            let rest = string_of(&chars, 1, chars.len());
            assert(rest@ =~= ws[i as int].drop_first());
            if glob_match(rest.as_str(), alias) {
                assert(is_negated(ws[i as int]));
                return false;
            }
        } else if glob_match(words[i].as_str(), alias) {
            matched = true;
            assert(!is_negated(ws[i as int]) && glob(ws[i as int], alias@));
        }
        i = i + 1;
    }
    assert(text::views(words@).len() == words@.len());
    matched
}

/// A character between a keyword and its value.
pub open spec fn separates(c: char) -> bool {
    text::is_space(c) || c == '='
}

/// How many characters of `s` come before the first separator.
pub open spec fn keyword_len(s: Seq<char>) -> int
    decreases s.len(),
{
    if s.len() == 0 || separates(s[0]) {
        0
    } else {
        1 + keyword_len(s.drop_first())
    }
}

/// `s` without its leading separators.
pub open spec fn after_separators(s: Seq<char>) -> Seq<char>
    decreases s.len(),
{
    if s.len() > 0 && separates(s[0]) {
        after_separators(s.drop_first())
    } else {
        s
    }
}

/// `s` without the double quotes around it, if there are two.
pub open spec fn unquoted(s: Seq<char>) -> Seq<char> {
    if s.len() >= 2 && s[0] == '"' && s.last() == '"' {
        s.subrange(1, s.len() - 1)
    } else {
        s
    }
}

/// The keyword and the value of a line, if it has both.
pub open spec fn key_and_value(line: Seq<char>) -> Option<(Seq<char>, Seq<char>)> {
    let n = keyword_len(line);
    let value = unquoted(text::trimmed(after_separators(line.skip(n))));
    if n == 0 || n >= line.len() || value.len() == 0 {
        None
    } else {
        Some((line.take(n), value))
    }
}

proof fn lemma_keyword_len_is(s: Seq<char>, i: int)
    requires
        0 <= i <= s.len(),
        forall|k: int| 0 <= k < i ==> !separates(s[k]),
        i < s.len() ==> separates(s[i]),
    ensures
        keyword_len(s) == i,
    decreases i,
{
    if i > 0 {
        assert(!separates(s[0]));
        assert forall|k: int| 0 <= k < i - 1 implies !separates(s.drop_first()[k]) by {
            assert(!separates(s[k + 1]));
        }
        lemma_keyword_len_is(s.drop_first(), i - 1);
    }
}

proof fn lemma_after_separators_is(s: Seq<char>, i: int)
    requires
        0 <= i <= s.len(),
        forall|k: int| 0 <= k < i ==> separates(s[k]),
        i < s.len() ==> !separates(s[i]),
    ensures
        after_separators(s) == s.skip(i),
    decreases i,
{
    if i > 0 {
        assert(separates(s[0]));
        assert forall|k: int| 0 <= k < i - 1 implies separates(s.drop_first()[k]) by {
            assert(separates(s[k + 1]));
        }
        lemma_after_separators_is(s.drop_first(), i - 1);
        assert(s.drop_first().skip(i - 1) =~= s.skip(i));
    } else {
        assert(s.skip(0) =~= s);
    }
}

fn is_separator(c: char) -> (r: bool)
    ensures
        r == separates(c),
{
    char_is_space(c) || c == '='
}

/// The keyword and the value of a line, if it has both. White space, `=` or both stand between
/// them, and double quotes around the value do not count.
pub fn split_kv(line: &str) -> (r: Option<(String, String)>)
    ensures
        match r {
            Some(kv) => key_and_value(line@) == Some((kv.0@, kv.1@)),
            None => key_and_value(line@) is None,
        },
{
    let chars = chars_of(line);
    let len = chars.len();
    let mut n: usize = 0;
    while n < len && !is_separator(chars[n])
        invariant
            n <= len == chars@.len(),
            forall|k: int| 0 <= k < n ==> !separates(chars@[k]),
        decreases len - n,
    {
        n = n + 1;
    }
    proof {
        lemma_keyword_len_is(line@, n as int);
    }
    if n == 0 || n == len {
        return None;
    }
    let mut v: usize = n;
    while v < len && is_separator(chars[v])
        invariant
            n <= v <= len == chars@.len(),
            forall|k: int| n <= k < v ==> separates(chars@[k]),
        decreases len - v,
    {
        v = v + 1;
    }
    let ghost rest = line@.skip(n as int);
    proof {
        assert forall|k: int| 0 <= k < v - n implies separates(rest[k]) by {
            assert(separates(chars@[k + n]));
        }
        lemma_after_separators_is(rest, v - n);
        assert(rest.skip(v - n) =~= chars@.subrange(v as int, len as int));
    }
    let (a, b) = text::trim_range(&chars, v, len);
    let ghost value = chars@.subrange(a as int, b as int);
    let quoted = b - a >= 2 && chars[a] == '"' && chars[b - 1] == '"';
    let (from, to) = if quoted {
        (a + 1, b - 1)
    } else {
        (a, b)
    };
    proof {
        if quoted {
            assert(chars@.subrange(from as int, to as int) =~= value.subrange(1, value.len() - 1));
        }
        assert(unquoted(value) == chars@.subrange(from as int, to as int));
        assert(chars@.subrange(0, n as int) =~= line@.take(n as int));
    }
    if from == to {
        return None;
    }
    Some((string_of(&chars, 0, n), string_of(&chars, from, to)))
}

/// A line without its comment.
pub open spec fn without_comment(line: Seq<char>) -> Seq<char> {
    line.take(text::find(line, '#'))
}

/// A line without its comment.
pub fn strip_comment(line: &str) -> (r: String)
    ensures
        r@ == without_comment(line@),
{
    let chars = chars_of(line);
    let n = find_char(&chars, 0, chars.len(), '#');
    proof {
        assert(chars@.subrange(0, chars@.len() as int) =~= line@);
        assert(chars@.subrange(0, n as int) =~= line@.take(n as int));
    }
    string_of(&chars, 0, n)
}

/// The lower case of an ASCII letter; any other character as it is.
pub open spec fn lower(c: char) -> char {
    if 'A' <= c <= 'Z' {
        (c as int + 32) as char
    } else {
        c
    }
}

/// `s` with its ASCII letters in lower case.
pub open spec fn lowered(s: Seq<char>) -> Seq<char> {
    Seq::new(s.len(), |i: int| lower(s[i]))
}

fn lower_char(c: char) -> (r: char)
    ensures
        r == lower(c),
{
    if 'A' <= c && c <= 'Z' {
        let code: u8 = c as u8;
        (code + 32) as char
    } else {
        c
    }
}

/// `s` with its ASCII letters in lower case.
fn to_lower(s: &str) -> (r: String)
    ensures
        r@ == lowered(s@),
{
    let chars = chars_of(s);
    let mut out = String::new();
    let mut i: usize = 0;
    while i < chars.len()
        invariant
            i <= chars@.len(),
            chars@ == s@,
            out@ == lowered(s@).take(i as int),
        decreases chars@.len() - i,
    {
        out.push(lower_char(chars[i]));
        assert(lowered(s@).take(i + 1) =~= lowered(s@).take(i as int).push(lowered(s@)[i as int]));
        i = i + 1;
    }
    assert(lowered(s@).take(i as int) =~= lowered(s@));
    out
}

/// The directive on a line, with its keyword in lower case.
pub open spec fn directive(line: Seq<char>) -> Option<(Seq<char>, Seq<char>)> {
    match key_and_value(text::trimmed(without_comment(line))) {
        Some((k, v)) => Some((lowered(k), v)),
        None => None,
    }
}

/// Whether what follows these lines is about `alias`.
pub open spec fn in_scope(lines: Seq<Seq<char>>, alias: Seq<char>) -> bool
    decreases lines.len(),
{
    if lines.len() == 0 {
        true
    } else {
        match directive(lines.last()) {
            Some((k, v)) => if k == "host"@ {
                is_about(text::words(v), alias)
            } else if k == "match"@ {
                false
            } else {
                in_scope(lines.drop_last(), alias)
            },
            None => in_scope(lines.drop_last(), alias),
        }
    }
}

/// The directives in these lines that hold for `alias`, in order.
pub open spec fn settings(lines: Seq<Seq<char>>, alias: Seq<char>) -> Seq<(Seq<char>, Seq<char>)>
    decreases lines.len(),
{
    if lines.len() == 0 {
        Seq::empty()
    } else {
        let before = settings(lines.drop_last(), alias);
        match directive(lines.last()) {
            Some((k, v)) => if k != "host"@ && k != "match"@ && in_scope(lines.drop_last(), alias) {
                before.push((k, v))
            } else {
                before
            },
            None => before,
        }
    }
}

/// The first value for a keyword.
pub open spec fn first_value(
    settings: Seq<(Seq<char>, Seq<char>)>,
    key: Seq<char>,
) -> Option<Seq<char>>
    decreases settings.len(),
{
    if settings.len() == 0 {
        None
    } else {
        match first_value(settings.drop_last(), key) {
            Some(v) => Some(v),
            None => if settings.last().0 == key {
                Some(settings.last().1)
            } else {
                None
            },
        }
    }
}

/// The first value for `port` that is a port number.
pub open spec fn first_port(settings: Seq<(Seq<char>, Seq<char>)>) -> Option<u16>
    decreases settings.len(),
{
    if settings.len() == 0 {
        None
    } else {
        match first_port(settings.drop_last()) {
            Some(p) => Some(p),
            None => if settings.last().0 == "port"@ {
                text::u16_of(settings.last().1)
            } else {
                None
            },
        }
    }
}

/// A path with `~` in front taken for the home directory, if there is one.
pub open spec fn with_home(value: Seq<char>, home: Option<Seq<char>>) -> Seq<char> {
    match home {
        Some(h) => if value == seq!['~'] {
            h
        } else if value.len() >= 2 && value[0] == '~' && value[1] == '/' {
            path::under(h, value.skip(2))
        } else {
            value
        },
        None => value,
    }
}

/// What the configuration `text` says of `alias`.
pub open spec fn resolved(
    text: Seq<char>,
    alias: Seq<char>,
    home: Option<Seq<char>>,
) -> HostView {
    let found = settings(text::lines(text), alias);
    HostView {
        hostname: first_value(found, "hostname"@),
        user: first_value(found, "user"@),
        port: first_port(found),
        identity_file: match first_value(found, "identityfile"@) {
            Some(v) => Some(with_home(v, home)),
            None => None,
        },
    }
}

/// A value that came first stays, whatever follows.
pub proof fn law_first_value_counts(
    earlier: Seq<(Seq<char>, Seq<char>)>,
    later: Seq<(Seq<char>, Seq<char>)>,
    key: Seq<char>,
)
    requires
        first_value(earlier, key) is Some,
    ensures
        first_value(earlier + later, key) == first_value(earlier, key),
    decreases later.len(),
{
    if later.len() > 0 {
        law_first_value_counts(earlier, later.drop_last(), key);
        assert((earlier + later).drop_last() =~= earlier + later.drop_last());
    } else {
        assert(earlier + later =~= earlier);
    }
}

/// Where no line holds for a host, nothing is known of it.
pub proof fn law_no_settings_no_values(text: Seq<char>, alias: Seq<char>, home: Option<Seq<char>>)
    requires
        settings(text::lines(text), alias).len() == 0,
    ensures
        resolved(text, alias, home) == (HostView {
            hostname: None,
            user: None,
            port: None,
            identity_file: None,
        }),
{
}

/// A pattern without `*` and `?` matches only itself.
pub proof fn law_plain_pattern_matches_itself(p: Seq<char>, s: Seq<char>)
    requires
        !p.contains('*'),
        !p.contains('?'),
    ensures
        glob(p, s) <==> p == s,
    decreases p.len(),
{
    if p.len() == 0 {
        if s.len() == 0 {
            assert(p =~= s);
        }
    } else {
        assert(p.contains(p[0]));
        let q = p.drop_first();
        assert forall|c: char| !p.contains(c) implies !q.contains(c) by {
            if q.contains(c) {
                let k = choose|k: int| 0 <= k < q.len() && q[k] == c;
                assert(p[k + 1] == c);
            }
        }
        if s.len() > 0 {
            law_plain_pattern_matches_itself(q, s.drop_first());
            if p[0] == s[0] && q == s.drop_first() {
                assert(p =~= seq![p[0]] + q);
                assert(s =~= seq![s[0]] + s.drop_first());
            }
        }
    }
}

/// `dirs::home_dir`: the user's home directory, if it is known, as the operating system's bytes.
/// Which it is depends on the environment, and is left open.
#[verifier::external_body]
fn home_bytes() -> (r: Option<Vec<u8>>) {
    match dirs::home_dir() {
        Some(p) => Some(p.into_os_string().into_encoded_bytes()),
        None => None,
    }
}

/// The text of a home directory, if it is known.
pub open spec fn home_text(home: Option<Seq<u8>>) -> Option<Seq<char>> {
    match home {
        Some(b) => Some(os_path::path_text(b)),
        None => None,
    }
}

/// The user's home directory, if it is known.
pub(crate) fn home_dir() -> (r: Option<String>)
    ensures
        exists|home: Option<Seq<u8>>| text::opt(r) == #[trigger] home_text(home),
{
    match home_bytes() {
        Some(b) => {
            let t = os_path::to_text(&b);
            assert(Some(t@) == home_text(Some(b@)));
            Some(t)
        },
        None => {
            assert(home_text(None) is None);
            None
        },
    }
}

/// `value` with `~` in front taken for the home directory.
pub fn expand_tilde(value: &str, home: Option<&str>) -> (r: String)
    ensures
        r@ == with_home(
            value@,
            match home {
                Some(h) => Some(h@),
                None => None,
            },
        ),
{
    match home {
        Some(h) => {
            let chars = chars_of(value);
            if chars.len() == 1 && chars[0] == '~' {
                assert(value@ =~= seq!['~']);
                return h.to_owned();
            }
            if chars.len() >= 2 && chars[0] == '~' && chars[1] == '/' {
                let rest = string_of(&chars, 2, chars.len());
                assert(rest@ =~= value@.skip(2));
                assert(value@ != seq!['~']);
                return path::join(h, rest.as_str());
            }
            value.to_owned()
        },
        None => value.to_owned(),
    }
}

/// Keeps the value that is there already, and takes `value` otherwise.
fn set_first(slot: &mut Option<String>, value: String)
    ensures
        text::opt(*final(slot)) == match text::opt(*old(slot)) {
            Some(v) => Some(v),
            None => Some(value@),
        },
{
    if slot.is_none() {
        *slot = Some(value);
    }
}

/// What the configuration `text` says of `alias`, with this home directory.
pub fn resolve_with(text: &str, alias: &str, home: Option<&str>) -> (r: HostConfig)
    ensures
        r@ == resolved(
            text@,
            alias@,
            match home {
                Some(h) => Some(h@),
                None => None,
            },
        ),
{
    let lines = text::split_lines(text);
    let ghost ls = text::lines(text@);
    let ghost hv: Option<Seq<char>> = match home {
        Some(h) => Some(h@),
        None => None,
    };
    let mut hostname: Option<String> = None;
    let mut user: Option<String> = None;
    let mut port: Option<u16> = None;
    let mut identity: Option<String> = None;
    let mut in_match = true;
    let mut i: usize = 0;
    assert(text::views(lines@).len() == lines@.len());
    assert(ls.take(0).len() == 0);
    while i < lines.len()
        invariant
            i <= lines@.len() == ls.len(),
            text::views(lines@) == ls,
            in_match == in_scope(ls.take(i as int), alias@),
            text::opt(hostname) == first_value(settings(ls.take(i as int), alias@), "hostname"@),
            text::opt(user) == first_value(settings(ls.take(i as int), alias@), "user"@),
            port == first_port(settings(ls.take(i as int), alias@)),
            text::opt(identity) == first_value(
                settings(ls.take(i as int), alias@),
                "identityfile"@,
            ),
        decreases lines@.len() - i,
    {
        let ghost before = settings(ls.take(i as int), alias@);
        let ghost after = settings(ls.take(i + 1), alias@);
        proof {
            assert(ls.take(i + 1).drop_last() =~= ls.take(i as int));
            assert(ls.take(i + 1).last() == ls[i as int]);
            assert(ls[i as int] == lines@[i as int]@);
            reveal_strlit("host");
            reveal_strlit("match");
            reveal_strlit("hostname");
            reveal_strlit("user");
            reveal_strlit("port");
            reveal_strlit("identityfile");
        }
        let bare = strip_comment(lines[i].as_str());
        let line = text::trim(bare.as_str());
        if let Some((k, value)) = split_kv(line.as_str()) {
            let key = to_lower(k.as_str());
            assert(directive(ls[i as int]) == Some((key@, value@)));
            if text::same(key.as_str(), "host") {
                in_match = host_block_matches(value.as_str(), alias);
            } else if text::same(key.as_str(), "match") {
                in_match = false;
            } else if in_match {
                proof {
                    assert(after.drop_last() =~= before);
                    assert(after.last() == (key@, value@));
                    assert("hostname"@.len() == 8 && "user"@.len() == 4 && "port"@.len() == 4
                        && "identityfile"@.len() == 12);
                    assert("user"@[0] == 'u' && "port"@[0] == 'p');
                }
                if text::same(key.as_str(), "hostname") {
                    set_first(&mut hostname, value);
                } else if text::same(key.as_str(), "user") {
                    set_first(&mut user, value);
                } else if text::same(key.as_str(), "port") {
                    if port.is_none() {
                        let chars = chars_of(value.as_str());
                        assert(chars@.subrange(0, chars@.len() as int) =~= value@);
                        port = text::parse_u16(&chars, 0, chars.len());
                    }
                } else if text::same(key.as_str(), "identityfile") {
                    set_first(&mut identity, value);
                }
            }
        }
        i = i + 1;
    }
    assert(ls.take(i as int) =~= ls);
    let identity_file = match identity {
        Some(v) => Some(expand_tilde(v.as_str(), home)),
        None => None,
    };
    HostConfig { hostname, user, port, identity_file }
}

/// What the configuration `text` says of `alias`. A path with `~` in front is taken for one in
/// the user's home directory, wherever that is.
pub fn parse_and_resolve(text: &str, alias: &str) -> (r: HostConfig)
    ensures
        exists|home: Option<Seq<u8>>| r@ == resolved(text@, alias@, #[trigger] home_text(home)),
{
    let home = home_dir();
    let ghost at = choose|at: Option<Seq<u8>>| text::opt(home) == #[trigger] home_text(at);
    match home {
        Some(h) => {
            assert(home_text(at) == Some(h@));
            resolve_with(text, alias, Some(h.as_str()))
        },
        None => {
            assert(home_text(at) is None);
            resolve_with(text, alias, None)
        },
    }
}


/// A question mark matches any one character, any other character but the star only itself, and the
/// empty pattern nothing but the empty text.
pub proof fn law_patterns_match_character_by_character(p: Seq<char>, c: char, s: Seq<char>, d: char)
    requires
        c != '*',
        c != '?',
    ensures
        glob(seq!['?'] + p, seq![d] + s) <==> glob(p, s),
        glob(seq![c] + p, seq![d] + s) <==> c == d && glob(p, s),
        !glob(seq!['?'] + p, Seq::empty()),
        !glob(seq![c] + p, Seq::empty()),
        glob(Seq::empty(), s) <==> s.len() == 0,
{
    let a = seq!['?'] + p;
    let b = seq![c] + p;
    let t = seq![d] + s;
    assert(a.drop_first() =~= p);
    assert(b.drop_first() =~= p);
    assert(t.drop_first() =~= s);
}

/// A block is about a host if a pattern of it matches and none that starts with `!` does behind the
/// mark; with one that does, or with none that matches, it is not, whatever the others are.
pub proof fn law_block_is_about_what_it_names(
    patterns: Seq<Seq<char>>,
    alias: Seq<char>,
    i: int,
)
    requires
        0 <= i < patterns.len(),
        patterns[i].len() > 0,
    ensures
        patterns[i][0] == '!' && glob(patterns[i].skip(1), alias) ==> !is_about(patterns, alias),
        patterns[i][0] != '!' && glob(patterns[i], alias) && (forall|k: int|
            0 <= k < patterns.len() && (#[trigger] patterns[k]).len() > 0 ==> patterns[k][0] != '!')
            ==> is_about(patterns, alias),
        (forall|k: int|
            0 <= k < patterns.len() && (#[trigger] patterns[k]).len() > 0 ==> patterns[k][0] == '!'
                || !glob(patterns[k], alias)) && (forall|k: int|
            0 <= k < patterns.len() ==> (#[trigger] patterns[k]).len() > 0) ==> !is_about(
            patterns,
            alias,
        ),
{
    assert(patterns[i].skip(1) =~= patterns[i].drop_first());
    if patterns[i][0] == '!' {
        assert(is_negated(patterns[i]));
    } else {
        assert(!is_negated(patterns[i]));
    }
}

/// Whether `s` is the word `w` in letters of either case.
pub open spec fn is_word(s: Seq<char>, w: Seq<char>) -> bool {
    &&& s.len() == w.len()
    &&& forall|i: int|
        0 <= i < w.len() ==> (#[trigger] s[i]) == w[i] || ('A' <= s[i] <= 'Z' && s[i] as int + 32
            == w[i] as int)
}

/// Whether every character is a space or a tabulator.
pub open spec fn is_gap(s: Seq<char>) -> bool {
    forall|i: int| 0 <= i < s.len() ==> (#[trigger] s[i]) == ' ' || s[i] == '\t'
}

/// Whether `s` can stand for itself as a keyword: it is not empty and has neither white space nor
/// `=` nor `#` in it.
pub open spec fn is_keyword(s: Seq<char>) -> bool {
    &&& s.len() > 0
    &&& forall|i: int|
        0 <= i < s.len() ==> !text::is_space(#[trigger] s[i]) && s[i] != '=' && s[i] != '#'
}

/// Whether `s` can stand for itself as a value, without quotes: it is not empty, has no `#` and no
/// line feed in it, no white space at its ends, no `=` in front and no quotes around it.
pub open spec fn is_value(s: Seq<char>) -> bool {
    &&& s.len() > 0
    &&& !text::is_space(s[0]) && s[0] != '=' && !text::is_space(s[s.len() - 1])
    &&& !(s.len() >= 2 && s[0] == '"' && s[s.len() - 1] == '"')
    &&& forall|i: int| 0 <= i < s.len() ==> (#[trigger] s[i]) != '#' && s[i] != '\n'
}

proof fn lemma_directive_is(
    a: Seq<char>,
    key: Seq<char>,
    sep: Seq<char>,
    shown: Seq<char>,
    b: Seq<char>,
    note: Seq<char>,
)
    requires
        is_gap(a),
        is_keyword(key),
        sep.len() > 0,
        forall|i: int|
            0 <= i < sep.len() ==> (#[trigger] sep[i]) == ' ' || sep[i] == '\t' || sep[i] == '=',
        shown.len() > 0,
        !text::is_space(shown[0]) && shown[0] != '=' && !text::is_space(shown[shown.len() - 1]),
        forall|i: int| 0 <= i < shown.len() ==> (#[trigger] shown[i]) != '#',
        is_gap(b),
        note.len() > 0 ==> note[0] == '#',
    ensures
        unquoted(shown).len() > 0 ==> directive(a + key + sep + shown + b + note) == Some(
            (lowered(key), unquoted(shown)),
        ),
{
    let line = a + key + sep + shown + b + note;
    let core = key + sep + shown;
    let n = a.len() + core.len() + b.len();
    assert(line =~= a + core + b + note);
    assert forall|k: int| 0 <= k < n implies line[k] != '#' by {
        let i = k - a.len();
        if k < a.len() {
            assert(line[k] == a[k]);
        } else if i < key.len() {
            assert(line[k] == key[i]);
        } else if i < key.len() + sep.len() {
            assert(line[k] == sep[i - key.len()]);
        } else if i < core.len() {
            assert(line[k] == shown[i - key.len() - sep.len()]);
        } else {
            assert(line[k] == b[i - core.len()]);
        }
    }
    if note.len() > 0 {
        assert(line[n as int] == note[0]);
    }
    text::lemma_find_is(line, '#', n as int);
    assert(line.take(n as int) =~= a + core + b);
    assert(core[0] == key[0]);
    assert(core[core.len() - 1] == shown[shown.len() - 1]);
    assert forall|k: int| 0 <= k < a.len() implies text::is_space(#[trigger] a[k]) by {}
    assert forall|k: int| 0 <= k < b.len() implies text::is_space(#[trigger] b[k]) by {}
    text::law_trimming_takes_white_space_only(a, core, b);
    let m = key.len() as int;
    assert forall|k: int| 0 <= k < m implies !separates(core[k]) by {
        assert(core[k] == key[k]);
    }
    assert(core[m] == sep[0]);
    lemma_keyword_len_is(core, m);
    let rest = core.skip(m);
    assert(rest =~= sep + shown);
    assert forall|k: int| 0 <= k < sep.len() implies separates(rest[k]) by {
        assert(rest[k] == sep[k]);
    }
    assert(rest[sep.len() as int] == shown[0]);
    lemma_after_separators_is(rest, sep.len() as int);
    assert(rest.skip(sep.len() as int) =~= shown);
    let e = Seq::<char>::empty();
    text::law_trimming_takes_white_space_only(e, shown, e);
    assert(e + shown + e =~= shown);
    assert(core.take(m) =~= key);
}

proof fn lemma_word_lowered(s: Seq<char>, w: Seq<char>)
    requires
        is_word(s, w),
        forall|i: int| 0 <= i < w.len() ==> 'a' <= (#[trigger] w[i]) <= 'z',
    ensures
        lowered(s) == w,
        s.len() > 0 ==> is_keyword(s),
{
    assert forall|i: int| 0 <= i < w.len() implies lower(s[i]) == w[i] by {
        assert(s[i] == w[i] || ('A' <= s[i] <= 'Z' && s[i] as int + 32 == w[i] as int));
        assert('a' <= w[i] <= 'z');
    }
    assert(lowered(s) =~= w);
    assert forall|i: int| 0 <= i < s.len() implies !text::is_space(#[trigger] s[i]) && s[i] != '='
        && s[i] != '#' by {
        assert(s[i] == w[i] || ('A' <= s[i] <= 'Z' && s[i] as int + 32 == w[i] as int));
        assert('a' <= w[i] <= 'z');
    }
}

/// A line gives its value character for character, capitals too: what stands behind the keyword and
/// the spaces, tabulators and `=` after it, without a comment and white space at its end, and
/// without the quotes around it, between which white space counts too. The keyword counts in letters
/// of either case.
pub proof fn law_value_is_taken_as_it_stands(
    a: Seq<char>,
    key: Seq<char>,
    word: Seq<char>,
    sep: Seq<char>,
    v: Seq<char>,
    w: Seq<char>,
    b: Seq<char>,
    note: Seq<char>,
)
    requires
        is_gap(a),
        word.len() > 0,
        forall|i: int| 0 <= i < word.len() ==> 'a' <= (#[trigger] word[i]) <= 'z',
        is_word(key, word),
        sep.len() > 0,
        forall|i: int|
            0 <= i < sep.len() ==> (#[trigger] sep[i]) == ' ' || sep[i] == '\t' || sep[i] == '=',
        is_value(v),
        w.len() > 0,
        !w.contains('#'),
        is_gap(b),
        note.len() > 0 ==> note[0] == '#',
    ensures
        directive(a + key + sep + v + b + note) == Some((word, v)),
        directive(a + key + sep + (seq!['"'] + w + seq!['"']) + b + note) == Some((word, w)),
{
    lemma_word_lowered(key, word);
    lemma_directive_is(a, key, sep, v, b, note);
    let q = seq!['"'] + w + seq!['"'];
    assert forall|i: int| 0 <= i < q.len() implies (#[trigger] q[i]) != '#' by {
        if 0 < i < q.len() - 1 {
            assert(q[i] == w[i - 1]);
            assert(w.contains(w[i - 1]));
        }
    }
    assert(q[0] == '"' && q[q.len() - 1] == '"');
    assert(q.subrange(1, q.len() - 1) =~= w);
    lemma_directive_is(a, key, sep, q, b, note);
}

/// What the first lines say is said first, whatever lines follow.
proof fn lemma_settings_start(first: Seq<Seq<char>>, more: Seq<Seq<char>>, alias: Seq<char>) -> (later:
    Seq<(Seq<char>, Seq<char>)>)
    ensures
        settings(first + more, alias) == settings(first, alias) + later,
    decreases more.len(),
{
    if more.len() == 0 {
        assert(first + more =~= first);
        assert(settings(first, alias) + Seq::<(Seq<char>, Seq<char>)>::empty() =~= settings(
            first,
            alias,
        ));
        Seq::empty()
    } else {
        let l0 = lemma_settings_start(first, more.drop_last(), alias);
        let all = first + more;
        assert(all.drop_last() =~= first + more.drop_last());
        let before = settings(all.drop_last(), alias);
        let after = settings(all, alias);
        if after.len() > before.len() {
            let later = l0.push(after.last());
            assert(after =~= settings(first, alias) + later);
            later
        } else {
            l0
        }
    }
}

/// Lines that say the same and leave the same in scope can stand for each other.
proof fn lemma_settings_same_start(
    one: Seq<Seq<char>>,
    other: Seq<Seq<char>>,
    more: Seq<Seq<char>>,
    alias: Seq<char>,
)
    requires
        settings(one, alias) == settings(other, alias),
        in_scope(one, alias) == in_scope(other, alias),
    ensures
        settings(one + more, alias) == settings(other + more, alias),
        in_scope(one + more, alias) == in_scope(other + more, alias),
    decreases more.len(),
{
    if more.len() == 0 {
        assert(one + more =~= one);
        assert(other + more =~= other);
    } else {
        lemma_settings_same_start(one, other, more.drop_last(), alias);
        assert((one + more).drop_last() =~= one + more.drop_last());
        assert((other + more).drop_last() =~= other + more.drop_last());
    }
}

proof fn lemma_one_setting(line: Seq<char>, k: Seq<char>, v: Seq<char>, alias: Seq<char>)
    requires
        directive(line) == Some((k, v)),
    ensures
        in_scope(Seq::<Seq<char>>::empty(), alias),
        k != "host"@ && k != "match"@ ==> settings(seq![line], alias) == seq![(k, v)] && in_scope(
            seq![line],
            alias,
        ),
        k == "host"@ ==> in_scope(seq![line], alias) == is_about(text::words(v), alias) && settings(
            seq![line],
            alias,
        ).len() == 0,
        k == "match"@ && k != "host"@ ==> !in_scope(seq![line], alias) && settings(
            seq![line],
            alias,
        ).len() == 0,
{
    let one = seq![line];
    let none = Seq::<Seq<char>>::empty();
    assert(one.drop_last() =~= none);
    assert(one.last() == line);
    assert(in_scope(none, alias));
    assert(settings(none, alias).len() == 0);
    if k != "host"@ && k != "match"@ {
        assert(settings(one, alias) =~= seq![(k, v)]);
    }
}

/// After a line that opens a block, a setting counts exactly if the block is about the host.
proof fn lemma_setting_in_block(
    opener: Seq<char>,
    line: Seq<char>,
    k: Seq<char>,
    v: Seq<char>,
    alias: Seq<char>,
)
    requires
        settings(seq![opener], alias).len() == 0,
        directive(line) == Some((k, v)),
        k != "host"@,
        k != "match"@,
    ensures
        in_scope(seq![opener, line], alias) == in_scope(seq![opener], alias),
        in_scope(seq![opener], alias) ==> settings(seq![opener, line], alias) == seq![(k, v)],
        !in_scope(seq![opener], alias) ==> settings(seq![opener, line], alias) == settings(
            seq![opener],
            alias,
        ),
{
    let two = seq![opener, line];
    assert(two.drop_last() =~= seq![opener]);
    assert(two.last() == line);
    if in_scope(seq![opener], alias) {
        assert(settings(two, alias) =~= seq![(k, v)]);
    }
}

proof fn lemma_first_of_one(
    k: Seq<char>,
    v: Seq<char>,
    later: Seq<(Seq<char>, Seq<char>)>,
    key: Seq<char>,
)
    ensures
        k == key ==> first_value(seq![(k, v)] + later, key) == Some(v),
        k != key ==> first_value(seq![(k, v)] + later, key) == first_value(later, key),
        k == "port"@ && text::u16_of(v) is Some ==> first_port(seq![(k, v)] + later)
            == text::u16_of(v),
        k != "port"@ || text::u16_of(v) is None ==> first_port(seq![(k, v)] + later) == first_port(
            later,
        ),
    decreases later.len(),
{
    let one = seq![(k, v)];
    if later.len() == 0 {
        assert(one + later =~= one);
        assert(one.drop_last().len() == 0);
        assert(first_value(one.drop_last(), key) is None);
        assert(first_port(one.drop_last()) is None);
    } else {
        lemma_first_of_one(k, v, later.drop_last(), key);
        assert((one + later).drop_last() =~= one + later.drop_last());
    }
}

/// The texts of the six keywords differ.
proof fn lemma_keywords()
    ensures
        "host"@ != "match"@,
        "hostname"@ != "host"@ && "hostname"@ != "match"@,
        "user"@ != "host"@ && "user"@ != "match"@,
        "port"@ != "host"@ && "port"@ != "match"@,
        "identityfile"@ != "host"@ && "identityfile"@ != "match"@,
        "hostname"@ != "user"@ && "hostname"@ != "port"@ && "hostname"@ != "identityfile"@,
        "user"@ != "port"@ && "user"@ != "identityfile"@ && "port"@ != "identityfile"@,
        forall|i: int| 0 <= i < "host"@.len() ==> 'a' <= (#[trigger] "host"@[i]) <= 'z',
        forall|i: int| 0 <= i < "match"@.len() ==> 'a' <= (#[trigger] "match"@[i]) <= 'z',
        forall|i: int| 0 <= i < "hostname"@.len() ==> 'a' <= (#[trigger] "hostname"@[i]) <= 'z',
        forall|i: int| 0 <= i < "user"@.len() ==> 'a' <= (#[trigger] "user"@[i]) <= 'z',
        forall|i: int| 0 <= i < "port"@.len() ==> 'a' <= (#[trigger] "port"@[i]) <= 'z',
        forall|i: int|
            0 <= i < "identityfile"@.len() ==> 'a' <= (#[trigger] "identityfile"@[i]) <= 'z',
        "host"@.len() == 4 && "match"@.len() == 5 && "hostname"@.len() == 8 && "user"@.len() == 4
            && "port"@.len() == 4 && "identityfile"@.len() == 12,
{
    reveal_strlit("host");
    reveal_strlit("match");
    reveal_strlit("hostname");
    reveal_strlit("user");
    reveal_strlit("port");
    reveal_strlit("identityfile");
    assert("host"@.len() == 4 && "match"@.len() == 5 && "hostname"@.len() == 8);
    assert("user"@.len() == 4 && "port"@.len() == 4 && "identityfile"@.len() == 12);
    assert("user"@[0] == 'u' && "host"@[0] == 'h' && "port"@[0] == 'p');
}

/// A line as it is mostly written: indented, with a keyword, spaces and a value.
pub open spec fn plain_line(
    a: Seq<char>,
    key: Seq<char>,
    sep: Seq<char>,
    v: Seq<char>,
) -> Seq<char> {
    a + key + sep + v
}

/// Whether these are the parts of a line with the given word as its keyword.
pub open spec fn are_parts(
    a: Seq<char>,
    key: Seq<char>,
    word: Seq<char>,
    sep: Seq<char>,
    v: Seq<char>,
) -> bool {
    &&& is_gap(a)
    &&& is_word(key, word)
    &&& sep.len() > 0
    &&& forall|i: int|
        0 <= i < sep.len() ==> (#[trigger] sep[i]) == ' ' || sep[i] == '\t' || sep[i] == '='
    &&& is_value(v)
}

proof fn lemma_plain_line(
    a: Seq<char>,
    key: Seq<char>,
    word: Seq<char>,
    sep: Seq<char>,
    v: Seq<char>,
)
    requires
        are_parts(a, key, word, sep, v),
        word.len() > 0,
        forall|i: int| 0 <= i < word.len() ==> 'a' <= (#[trigger] word[i]) <= 'z',
    ensures
        directive(plain_line(a, key, sep, v)) == Some((word, v)),
        !plain_line(a, key, sep, v).contains('\n'),
        plain_line(a, key, sep, v)[plain_line(a, key, sep, v).len() - 1] != '\r',
        plain_line(a, key, sep, v).len() > 0,
{
    let e = Seq::<char>::empty();
    let l = plain_line(a, key, sep, v);
    assert(!v.contains('#')) by {
        if v.contains('#') {
            let i = choose|i: int| 0 <= i < v.len() && v[i] == '#';
            assert(v[i] != '#');
        }
    }
    law_value_is_taken_as_it_stands(a, key, word, sep, v, v, e, e);
    assert(a + key + sep + v + e + e =~= l);
    lemma_word_lowered(key, word);
    assert(text::is_space('\n') && text::is_space('\r'));
    if l.contains('\n') {
        let k = choose|k: int| 0 <= k < l.len() && l[k] == '\n';
        let i = k - a.len();
        if k < a.len() {
            assert(a[k] == '\n');
        } else if i < key.len() {
            assert(key[i] == '\n');
        } else if i < key.len() + sep.len() {
            assert(sep[i - key.len()] == '\n');
        } else {
            assert(v[i - key.len() - sep.len()] == '\n');
        }
    }
    assert(l[l.len() - 1] == v[v.len() - 1]);
}

/// What a configuration says of every host before its first block, it says first: the setting on its
/// first line is the one that counts, with the value exactly as it stands there, whatever follows.
pub proof fn law_first_line_counts(
    a: Seq<char>,
    key: Seq<char>,
    sep: Seq<char>,
    v: Seq<char>,
    rest: Seq<char>,
    alias: Seq<char>,
    home: Option<Seq<char>>,
)
    ensures
        are_parts(a, key, "user"@, sep, v) ==> resolved(
            plain_line(a, key, sep, v) + seq!['\n'] + rest,
            alias,
            home,
        ) == (HostView { user: Some(v), ..resolved(rest, alias, home) }),
        are_parts(a, key, "hostname"@, sep, v) ==> resolved(
            plain_line(a, key, sep, v) + seq!['\n'] + rest,
            alias,
            home,
        ) == (HostView { hostname: Some(v), ..resolved(rest, alias, home) }),
        are_parts(a, key, "port"@, sep, v) && text::u16_of(v) is Some ==> resolved(
            plain_line(a, key, sep, v) + seq!['\n'] + rest,
            alias,
            home,
        ) == (HostView { port: text::u16_of(v), ..resolved(rest, alias, home) }),
        are_parts(a, key, "port"@, sep, v) && text::u16_of(v) is None ==> resolved(
            plain_line(a, key, sep, v) + seq!['\n'] + rest,
            alias,
            home,
        ) == resolved(rest, alias, home),
        are_parts(a, key, "identityfile"@, sep, v) && v[0] != '~' ==> resolved(
            plain_line(a, key, sep, v) + seq!['\n'] + rest,
            alias,
            home,
        ) == (HostView { identity_file: Some(v), ..resolved(rest, alias, home) }),
        are_parts(a, key, "identityfile"@, sep, v) && home is None ==> resolved(
            plain_line(a, key, sep, v) + seq!['\n'] + rest,
            alias,
            home,
        ) == (HostView { identity_file: Some(v), ..resolved(rest, alias, home) }),
{
    lemma_keywords();
    if are_parts(a, key, "user"@, sep, v) {
        lemma_setting_in_front(a, key, "user"@, sep, v, rest, alias, home);
    }
    if are_parts(a, key, "hostname"@, sep, v) {
        lemma_setting_in_front(a, key, "hostname"@, sep, v, rest, alias, home);
    }
    if are_parts(a, key, "port"@, sep, v) {
        lemma_setting_in_front(a, key, "port"@, sep, v, rest, alias, home);
    }
    if are_parts(a, key, "identityfile"@, sep, v) {
        lemma_setting_in_front(a, key, "identityfile"@, sep, v, rest, alias, home);
    }
}

/// A keyword that is none of the six makes no difference.
pub proof fn law_other_keywords_say_nothing(
    a: Seq<char>,
    key: Seq<char>,
    word: Seq<char>,
    sep: Seq<char>,
    v: Seq<char>,
    rest: Seq<char>,
    alias: Seq<char>,
    home: Option<Seq<char>>,
)
    requires
        are_parts(a, key, word, sep, v),
        word.len() > 0,
        forall|i: int| 0 <= i < word.len() ==> 'a' <= (#[trigger] word[i]) <= 'z',
        word != "host"@ && word != "match"@ && word != "hostname"@ && word != "user"@ && word
            != "port"@ && word != "identityfile"@,
    ensures
        resolved(plain_line(a, key, sep, v) + seq!['\n'] + rest, alias, home) == resolved(
            rest,
            alias,
            home,
        ),
{
    lemma_setting_in_front(a, key, word, sep, v, rest, alias, home);
}

proof fn lemma_setting_in_front(
    a: Seq<char>,
    key: Seq<char>,
    word: Seq<char>,
    sep: Seq<char>,
    v: Seq<char>,
    rest: Seq<char>,
    alias: Seq<char>,
    home: Option<Seq<char>>,
)
    requires
        are_parts(a, key, word, sep, v),
        word.len() > 0,
        word != "host"@,
        word != "match"@,
        forall|i: int| 0 <= i < word.len() ==> 'a' <= (#[trigger] word[i]) <= 'z',
    ensures
        ({
            let after = resolved(plain_line(a, key, sep, v) + seq!['\n'] + rest, alias, home);
            let before = resolved(rest, alias, home);
            &&& after.user == if word == "user"@ {
                Some(v)
            } else {
                before.user
            }
            &&& after.hostname == if word == "hostname"@ {
                Some(v)
            } else {
                before.hostname
            }
            &&& after.port == if word == "port"@ && text::u16_of(v) is Some {
                text::u16_of(v)
            } else {
                before.port
            }
            &&& after.identity_file == if word == "identityfile"@ {
                Some(with_home(v, home))
            } else {
                before.identity_file
            }
        }),
{
    let l = plain_line(a, key, sep, v);
    let ls = text::lines(rest);
    lemma_plain_line(a, key, word, sep, v);
    text::law_text_is_read_line_by_line(l, rest);
    lemma_one_setting(l, word, v, alias);
    let one = seq![l];
    let none = Seq::<Seq<char>>::empty();
    lemma_settings_shifted(one, none, ls, alias);
    assert(none + ls =~= ls);
    let found = settings(ls, alias);
    assert(settings(none, alias) + found =~= found);
    lemma_first_of_one(word, v, found, "user"@);
    lemma_first_of_one(word, v, found, "hostname"@);
    lemma_first_of_one(word, v, found, "identityfile"@);
}

/// What follows a start that leaves the same in scope as another says the same after it.
proof fn lemma_settings_shifted(
    one: Seq<Seq<char>>,
    other: Seq<Seq<char>>,
    more: Seq<Seq<char>>,
    alias: Seq<char>,
)
    requires
        in_scope(one, alias) == in_scope(other, alias),
        settings(other, alias).len() == 0,
    ensures
        settings(one + more, alias) == settings(one, alias) + settings(other + more, alias),
        in_scope(one + more, alias) == in_scope(other + more, alias),
    decreases more.len(),
{
    if more.len() == 0 {
        assert(one + more =~= one);
        assert(other + more =~= other);
        assert(settings(one, alias) + settings(other, alias) =~= settings(one, alias));
    } else {
        lemma_settings_shifted(one, other, more.drop_last(), alias);
        assert((one + more).drop_last() =~= one + more.drop_last());
        assert((other + more).drop_last() =~= other + more.drop_last());
        assert((one + more).last() == (other + more).last());
        assert(settings(one + more, alias) =~= settings(one, alias) + settings(
            other + more,
            alias,
        ));
    }
}

/// In a block that is about a host its first setting counts, with the value exactly as it stands; in
/// a block that is about other hosts, and in one for which more than the name decides, a setting
/// makes no difference.
pub proof fn law_settings_count_in_their_block(
    name: Seq<char>,
    a: Seq<char>,
    key: Seq<char>,
    sep: Seq<char>,
    v: Seq<char>,
    rest: Seq<char>,
    alias: Seq<char>,
    home: Option<Seq<char>>,
)
    requires
        is_value(name),
        are_parts(a, key, "user"@, sep, v),
    ensures
        is_about(text::words(name), alias) ==> resolved(
            "Host "@ + name + seq!['\n'] + (plain_line(a, key, sep, v) + seq!['\n'] + rest),
            alias,
            home,
        ).user == Some(v),
        !is_about(text::words(name), alias) ==> resolved(
            "Host "@ + name + seq!['\n'] + (plain_line(a, key, sep, v) + seq!['\n'] + rest),
            alias,
            home,
        ) == resolved("Host "@ + name + seq!['\n'] + rest, alias, home),
        resolved(
            "Match "@ + name + seq!['\n'] + (plain_line(a, key, sep, v) + seq!['\n'] + rest),
            alias,
            home,
        ) == resolved("Match "@ + name + seq!['\n'] + rest, alias, home),
{
    lemma_keywords();
    reveal_strlit("Host ");
    reveal_strlit("Match ");
    reveal_strlit("host");
    reveal_strlit("match");
    let l = plain_line(a, key, sep, v);
    let ls = text::lines(rest);
    lemma_plain_line(a, key, "user"@, sep, v);
    text::law_text_is_read_line_by_line(l, rest);
    let e = Seq::<char>::empty();
    let hk = seq!['H', 'o', 's', 't'];
    let mk = seq!['M', 'a', 't', 'c', 'h'];
    let gap = seq![' '];
    assert(is_word(hk, "host"@));
    assert(is_word(mk, "match"@));
    let h = "Host "@ + name;
    let m = "Match "@ + name;
    assert(h =~= plain_line(e, hk, gap, name));
    assert(m =~= plain_line(e, mk, gap, name));
    lemma_plain_line(e, hk, "host"@, gap, name);
    lemma_plain_line(e, mk, "match"@, gap, name);
    let two = l + seq!['\n'] + rest;
    text::law_text_is_read_line_by_line(h, two);
    text::law_text_is_read_line_by_line(h, rest);
    text::law_text_is_read_line_by_line(m, two);
    text::law_text_is_read_line_by_line(m, rest);
    lemma_one_setting(h, "host"@, name, alias);
    lemma_one_setting(m, "match"@, name, alias);
    lemma_setting_in_block(h, l, "user"@, v, alias);
    lemma_setting_in_block(m, l, "user"@, v, alias);
    assert(seq![h] + (seq![l] + ls) =~= seq![h, l] + ls);
    assert(seq![m] + (seq![l] + ls) =~= seq![m, l] + ls);
    if is_about(text::words(name), alias) {
        let later = lemma_settings_start(seq![h, l], ls, alias);
        lemma_first_of_one("user"@, v, later, "user"@);
    } else {
        lemma_settings_same_start(seq![h, l], seq![h], ls, alias);
    }
    lemma_settings_same_start(seq![m, l], seq![m], ls, alias);
}

/// Blank lines and comments make no difference.
pub proof fn law_comments_say_nothing(
    a: Seq<char>,
    note: Seq<char>,
    rest: Seq<char>,
    alias: Seq<char>,
    home: Option<Seq<char>>,
)
    requires
        is_gap(a),
        note.len() > 0 ==> note[0] == '#' && note[note.len() - 1] != '\r',
        !note.contains('\n'),
    ensures
        resolved(a + note + seq!['\n'] + rest, alias, home) == resolved(rest, alias, home),
{
    let l = a + note;
    let ls = text::lines(rest);
    assert(!l.contains('\n')) by {
        if l.contains('\n') {
            let k = choose|k: int| 0 <= k < l.len() && l[k] == '\n';
            if k < a.len() {
                assert(a[k] == '\n');
            } else {
                assert(note[k - a.len()] == '\n');
            }
        }
    }
    assert(l.len() > 0 ==> l[l.len() - 1] != '\r') by {
        if note.len() > 0 {
            assert(l[l.len() - 1] == note[note.len() - 1]);
        } else if a.len() > 0 {
            assert(l[l.len() - 1] == a[a.len() - 1]);
        }
    }
    text::law_text_is_read_line_by_line(l, rest);
    let n = a.len() as int;
    assert forall|k: int| 0 <= k < n implies l[k] != '#' by {
        assert(l[k] == a[k]);
    }
    if note.len() > 0 {
        assert(l[n] == note[0]);
    }
    text::lemma_find_is(l, '#', n);
    assert(l.take(n) =~= a);
    let e = Seq::<char>::empty();
    assert forall|k: int| 0 <= k < a.len() implies text::is_space(#[trigger] a[k]) by {}
    text::law_trimming_takes_white_space_only(a, e, e);
    assert(a + e + e =~= a);
    assert(keyword_len(e) == 0);
    assert(directive(l) is None);
    let one = seq![l];
    let none = Seq::<Seq<char>>::empty();
    assert(one.drop_last() =~= none);
    assert(one.last() == l);
    lemma_settings_same_start(one, none, ls, alias);
    assert(none + ls =~= ls);
}

/// A tilde in front of a slash, or alone, stands for the home directory if there is one; any other
/// path stays as it is.
pub proof fn law_tilde_is_the_home_directory(h: Seq<char>, p: Seq<char>, v: Seq<char>)
    requires
        h.len() > 0,
        h[h.len() - 1] != '/',
        p.len() == 0 || p[0] != '/',
    ensures
        with_home(seq!['~', '/'] + p, Some(h)) == h + seq!['/'] + p,
        with_home(seq!['~'], Some(h)) == h,
        with_home(v, None) == v,
        v.len() == 0 || v[0] != '~' || (v.len() > 1 && v[1] != '/') ==> with_home(v, Some(h)) == v,
{
    let t = seq!['~', '/'] + p;
    assert(t.skip(2) =~= p);
    assert(t.len() >= 2);
    path::law_path_below_a_directory(h, p);
    if v == seq!['~'] {
        assert(v[0] == '~');
    }
}

/// A keyword without a value says nothing.
pub proof fn law_keyword_alone_says_nothing(a: Seq<char>, key: Seq<char>, b: Seq<char>)
    requires
        is_gap(a),
        is_keyword(key),
        is_gap(b),
    ensures
        directive(a + key + b) is None,
{
    let line = a + key + b;
    assert forall|k: int| 0 <= k < line.len() implies line[k] != '#' by {
        let i = k - a.len();
        if k < a.len() {
            assert(line[k] == a[k]);
        } else if i < key.len() {
            assert(line[k] == key[i]);
        } else {
            assert(line[k] == b[i - key.len()]);
        }
    }
    text::lemma_find_is(line, '#', line.len() as int);
    assert(line.take(line.len() as int) =~= line);
    assert forall|k: int| 0 <= k < a.len() implies text::is_space(#[trigger] a[k]) by {}
    assert forall|k: int| 0 <= k < b.len() implies text::is_space(#[trigger] b[k]) by {}
    text::law_trimming_takes_white_space_only(a, key, b);
    lemma_keyword_len_is(key, key.len() as int);
}

/// Each line adds to those before it: a setting is one more for the host if it is in scope, and what
/// is in scope changes only with a line that opens a block.
pub proof fn law_lines_add_up(
    ls: Seq<Seq<char>>,
    a: Seq<char>,
    key: Seq<char>,
    word: Seq<char>,
    sep: Seq<char>,
    v: Seq<char>,
    alias: Seq<char>,
)
    requires
        are_parts(a, key, word, sep, v),
        word.len() > 0,
        forall|i: int| 0 <= i < word.len() ==> 'a' <= (#[trigger] word[i]) <= 'z',
    ensures
        in_scope(Seq::<Seq<char>>::empty(), alias),
        settings(Seq::<Seq<char>>::empty(), alias).len() == 0,
        word == "host"@ ==> settings(ls.push(plain_line(a, key, sep, v)), alias) == settings(
            ls,
            alias,
        ) && (in_scope(ls.push(plain_line(a, key, sep, v)), alias) <==> is_about(
            text::words(v),
            alias,
        )),
        word == "match"@ ==> settings(ls.push(plain_line(a, key, sep, v)), alias) == settings(
            ls,
            alias,
        ) && !in_scope(ls.push(plain_line(a, key, sep, v)), alias),
        word != "host"@ && word != "match"@ ==> in_scope(
            ls.push(plain_line(a, key, sep, v)),
            alias,
        ) == in_scope(ls, alias),
        word != "host"@ && word != "match"@ && in_scope(ls, alias) ==> settings(
            ls.push(plain_line(a, key, sep, v)),
            alias,
        ) == settings(ls, alias).push((word, v)),
        word != "host"@ && word != "match"@ && !in_scope(ls, alias) ==> settings(
            ls.push(plain_line(a, key, sep, v)),
            alias,
        ) == settings(ls, alias),
{
    lemma_keywords();
    lemma_plain_line(a, key, word, sep, v);
    let l = plain_line(a, key, sep, v);
    assert(ls.push(l).drop_last() =~= ls);
    assert(ls.push(l).last() == l);
}

} // verus!
