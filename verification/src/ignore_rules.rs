//! Which paths stay out of a sync.
//!
//! Patterns are written in gitignore syntax and live in the configuration. The matching itself
//! is the `ignore` crate's; this module decides which lines are patterns, which paths are put to
//! the matcher, and edits the pattern text.
use ignore::gitignore::Gitignore;
use ignore::gitignore::GitignoreBuilder;
use vstd::prelude::*;

use crate::config::Config;
use crate::config::DSYNC_DIR;
use crate::error::DsyncError;
use crate::error::ErrorView;
use crate::path;
use crate::text;
use crate::text::glue;
use crate::text::glue3;

verus! {

/// A matcher under construction, of the `ignore` crate.
#[verifier::external_type_specification]
#[verifier::external_body]
pub struct ExGitignoreBuilder(GitignoreBuilder);

/// A compiled matcher, of the `ignore` crate.
#[verifier::external_type_specification]
#[verifier::external_body]
pub struct ExGitignore(Gitignore);

/// The directory that a builder's patterns are relative to, as it was given.
pub uninterp spec fn builder_root(b: GitignoreBuilder) -> Seq<char>;

/// The lines that a builder has taken, in order, as they were given.
pub uninterp spec fn builder_lines(b: GitignoreBuilder) -> Seq<Seq<char>>;

/// The directory that a matcher's patterns are relative to, as its builder was given it.
pub uninterp spec fn matcher_root(m: Gitignore) -> Seq<char>;

/// The lines that a matcher was compiled from, in order, as its builder was given them.
pub uninterp spec fn matcher_lines(m: Gitignore) -> Seq<Seq<char>>;

/// In words, why the line cannot be read as a gitignore pattern; none if it can.
pub uninterp spec fn line_refusal(line: Seq<char>) -> Option<Seq<char>>;

/// In words, why the lines do not compile together into one matcher; none if they do.
pub uninterp spec fn compile_refusal(lines: Seq<Seq<char>>) -> Option<Seq<char>>;

/// Whether gitignore rules relative to `root`, made of `lines`, exclude `path`.
pub uninterp spec fn rules_exclude(
    root: Seq<char>,
    lines: Seq<Seq<char>>,
    path: Seq<char>,
    is_dir: bool,
) -> bool;

/// `GitignoreBuilder::new`: an empty builder for patterns relative to `root`.
#[verifier::external_body]
fn new_builder(root: &str) -> (b: GitignoreBuilder)
    ensures
        builder_root(b) == root@,
        builder_lines(b) == Seq::<Seq<char>>::empty(),
{
    GitignoreBuilder::new(root)
}

/// `GitignoreBuilder::add_line`: takes one more line, at the end, if it can be read as a pattern,
/// and changes nothing otherwise. That depends on the line alone: the builder's own settings are
/// those that `new_builder` left. A name with a slash behind it can be read. A refusal comes as
/// the `Display` text of the error.
#[verifier::external_body]
fn add_line(b: &mut GitignoreBuilder, line: &str) -> (r: Result<(), String>)
    ensures
        builder_root(*final(b)) == builder_root(*old(b)),
        match r {
            Ok(_) => line_refusal(line@) is None,
            Err(t) => line_refusal(line@) == Some(t@),
        },
        line@ == own_rule() ==> r is Ok,
        builder_lines(*final(b)) == if r is Ok {
            builder_lines(*old(b)).push(line@)
        } else {
            builder_lines(*old(b))
        },
{
    match b.add_line(None, line) {
        Ok(_) => Ok(()),
        Err(e) => Err(e.to_string()),
    }
}

/// `GitignoreBuilder::build`: compiles the lines taken so far, for the same root. One name with a
/// slash behind it compiles. A refusal comes as the `Display` text of the error.
#[verifier::external_body]
fn build_matcher(b: &GitignoreBuilder) -> (r: Result<Gitignore, String>)
    ensures
        match r {
            Ok(_) => compile_refusal(builder_lines(*b)) is None,
            Err(t) => compile_refusal(builder_lines(*b)) == Some(t@),
        },
        builder_lines(*b) == seq![own_rule()] ==> r is Ok,
        r matches Ok(m) ==> matcher_root(m) == builder_root(*b) && matcher_lines(m)
            == builder_lines(*b),
{
    b.build().map_err(|e| e.to_string())
}

/// `Gitignore::matched_path_or_any_parents`: whether the rules exclude `path`. It panics on a
/// path that starts at the root once the matcher's own root is taken off its front; a relative
/// path without empty names never does.
///
/// A name with a slash behind it is matched by directories of that name and what lies in them, at
/// any depth. So where it is the only rule, a path without that name is not excluded. Nothing is
/// taken off the front of a relative path when the matcher's root is absolute or `.`, but for a
/// leading `./`. This holds where `/` alone separates names. A byte of a path that is no text is
/// matched as it is marked there.
#[verifier::external_body]
fn is_excluded(m: &Gitignore, path: &str, is_dir: bool) -> (r: bool)
    requires
        path::plain_relative(path@),
    ensures
        r == rules_exclude(matcher_root(*m), matcher_lines(*m), path@, is_dir),
        is_clean_root(matcher_root(*m)) && matcher_lines(*m) == seq![own_rule()] && !path::comps(
            path@,
        ).contains(DSYNC_DIR@) ==> !r,
{
    m.matched_path_or_any_parents(path, is_dir).is_ignore()
}

/// Whether a trimmed line is a pattern: neither blank nor a comment.
pub open spec fn is_pattern(line: Seq<char>) -> bool {
    line.len() > 0 && line[0] != '#'
}

/// The patterns among `lines`, trimmed, in order.
pub open spec fn patterns_of(lines: Seq<Seq<char>>) -> Seq<Seq<char>>
    decreases lines.len(),
{
    if lines.len() == 0 {
        Seq::empty()
    } else {
        let t = text::trimmed(lines.last());
        let before = patterns_of(lines.drop_last());
        if is_pattern(t) {
            before.push(t)
        } else {
            before
        }
    }
}

/// The rule that keeps the configuration directory out.
pub open spec fn own_rule() -> Seq<char> {
    ".dsync/"@
}

/// Whether `root` is no text that a relative path could start with: it is absolute, or `.`.
pub open spec fn is_clean_root(root: Seq<char>) -> bool {
    path::rooted(root) || root == seq!['.']
}

/// Whether the line can be read as a gitignore pattern.
pub open spec fn line_is_accepted(line: Seq<char>) -> bool {
    line_refusal(line) is None
}

/// Whether the lines compile together into one matcher.
pub open spec fn lines_compile(lines: Seq<Seq<char>>) -> bool {
    compile_refusal(lines) is None
}

/// The rules that a pattern text stands for.
pub open spec fn rules_of(patterns: Seq<char>) -> Seq<Seq<char>> {
    seq![own_rule()] + patterns_of(text::lines(patterns))
}

/// Whether rules can be compiled.
pub open spec fn rules_are_valid(rules: Seq<Seq<char>>) -> bool {
    &&& forall|i: int| 0 <= i < rules.len() ==> line_is_accepted(#[trigger] rules[i])
    &&& lines_compile(rules)
}

/// The first rule that is refused, if any is.
pub open spec fn first_refused(rules: Seq<Seq<char>>) -> Option<int>
    decreases rules.len(),
{
    if rules.len() == 0 {
        None
    } else {
        match first_refused(rules.drop_last()) {
            Some(i) => Some(i),
            None => if line_is_accepted(rules.last()) {
                None
            } else {
                Some(rules.len() - 1)
            },
        }
    }
}

/// What is said of invalid rules, with the matcher's own words.
pub open spec fn rules_complaint(rules: Seq<Seq<char>>) -> Seq<char> {
    match first_refused(rules) {
        Some(i) => {
            let reason = line_refusal(rules[i])->0;
            if i == 0 {
                "ignore rule error: "@ + reason
            } else {
                "invalid ignore pattern `"@ + rules[i] + "`: "@ + reason
            }
        },
        None => "failed to compile ignore patterns: "@ + compile_refusal(rules)->0,
    }
}

/// How many components in front name no directory: a leading `.` is where one is already.
pub open spec fn lead(cs: Seq<Seq<char>>) -> int {
    if cs.len() > 0 && cs[0] == seq!['.'] {
        1
    } else {
        0
    }
}

/// Whether `path` stays out of a sync: it lies in the configuration directory, or the rules
/// exclude it or a directory above it.
pub open spec fn ignored(
    root: Seq<char>,
    rules: Seq<Seq<char>>,
    path: Seq<char>,
    is_dir: bool,
) -> bool {
    ||| path::within(path, DSYNC_DIR@)
    ||| rules_exclude(root, rules, path::normal(path), is_dir)
    ||| exists|k: int|
        lead(path::comps(path)) < k < path::comps(path).len() && rules_exclude(
            root,
            rules,
            #[trigger] path::joined(path::comps(path).take(k)),
            true,
        )
}

/// The compiled ignore rules of one source directory.
pub struct IgnoreSet {
    matcher: Gitignore,
}

proof fn lemma_first_refused(rules: Seq<Seq<char>>)
    ensures
        match first_refused(rules) {
            Some(i) => 0 <= i < rules.len() && !line_is_accepted(rules[i]),
            None => forall|i: int| 0 <= i < rules.len() ==> line_is_accepted(#[trigger] rules[i]),
        },
    decreases rules.len(),
{
    if rules.len() > 0 {
        lemma_first_refused(rules.drop_last());
        assert forall|i: int| first_refused(rules) is None && 0 <= i < rules.len() implies
            line_is_accepted(#[trigger] rules[i]) by {
            if i < rules.len() - 1 {
                assert(rules.drop_last()[i] == rules[i]);
            }
        }
    }
}

proof fn lemma_first_refused_stays(rules: Seq<Seq<char>>, more: Seq<Seq<char>>)
    requires
        first_refused(rules) is Some,
    ensures
        first_refused(rules + more) == first_refused(rules),
    decreases more.len(),
{
    if more.len() > 0 {
        lemma_first_refused_stays(rules, more.drop_last());
        assert((rules + more).drop_last() =~= rules + more.drop_last());
    } else {
        assert(rules + more =~= rules);
    }
}

proof fn lemma_patterns_of_prefix(lines: Seq<Seq<char>>, i: int)
    requires
        0 <= i <= lines.len(),
    ensures
        patterns_of(lines.take(i)).is_prefix_of(patterns_of(lines)),
    decreases lines.len() - i,
{
    if i < lines.len() {
        lemma_patterns_of_prefix(lines.drop_last(), i);
        assert(lines.drop_last().take(i) =~= lines.take(i));
        let a = patterns_of(lines.take(i));
        let b = patterns_of(lines.drop_last());
        let c = patterns_of(lines);
        assert(b.is_prefix_of(c)) by {
            assert(c.take(b.len() as int) =~= b);
        }
        assert(a =~= c.take(a.len() as int)) by {
            assert(a =~= b.take(a.len() as int));
        }
    } else {
        assert(lines.take(i) =~= lines);
    }
}

/// A path without the configuration directory's name does not lie in it.
proof fn lemma_not_within(path: Seq<char>)
    requires
        !path::comps(path).contains(DSYNC_DIR@),
    ensures
        !path::within(path, DSYNC_DIR@),
{
    reveal_strlit(".dsync");
    let d = DSYNC_DIR@;
    assert(!d.contains('/'));
    path::lemma_single(d);
    if path::within(path, d) {
        assert(path::comps(path)[0] == path::comps(d)[0]);
    }
}

/// Everything in the configuration directory is ignored, whatever the rules.
pub proof fn law_own_directory_is_ignored(
    root: Seq<char>,
    rules: Seq<Seq<char>>,
    path: Seq<char>,
    is_dir: bool,
)
    requires
        path::within(path, DSYNC_DIR@),
    ensures
        ignored(root, rules, path, is_dir),
{
}

/// What lies in an ignored directory is ignored: no pattern brings it back. The root itself is no
/// such directory.
pub proof fn law_ignored_directory_keeps_its_contents_out(
    root: Seq<char>,
    rules: Seq<Seq<char>>,
    dir: Seq<char>,
    path: Seq<char>,
    is_dir: bool,
)
    requires
        path::comps(dir).len() > lead(path::comps(dir)),
        path::within(path, dir),
        path::comps(dir) != path::comps(path),
        ignored(root, rules, dir, true),
    ensures
        ignored(root, rules, path, is_dir),
{
    let d = path::comps(dir);
    let p = path::comps(path);
    assert(d.len() < p.len()) by {
        if d.len() == p.len() {
            assert(d =~= p);
        }
    }
    assert(lead(p) == lead(d)) by {
        assert(d =~= p.take(d.len() as int));
        assert(p[0] == d[0]);
    }
    if path::within(dir, DSYNC_DIR@) {
        let o = path::comps(DSYNC_DIR@);
        assert(o =~= p.take(o.len() as int)) by {
            assert(o =~= d.take(o.len() as int));
        }
    } else if rules_exclude(root, rules, path::normal(dir), true) {
        let k = d.len() as int;
        assert(p.take(k) =~= d);
        assert(rules_exclude(root, rules, path::joined(p.take(k)), true));
    } else {
        let k = choose|k: int|
            lead(d) < k < d.len() && rules_exclude(
                root,
                rules,
                #[trigger] path::joined(d.take(k)),
                true,
            );
        assert(p.take(k) =~= d.take(k));
        assert(rules_exclude(root, rules, path::joined(p.take(k)), true));
    }
}

/// Blank lines, comments and white space around patterns make no difference to what is ignored.
pub proof fn law_only_patterns_count(
    root: Seq<char>,
    one: Seq<char>,
    other: Seq<char>,
    path: Seq<char>,
    is_dir: bool,
)
    requires
        patterns_of(text::lines(one)) == patterns_of(text::lines(other)),
    ensures
        rules_are_valid(rules_of(one)) == rules_are_valid(rules_of(other)),
        ignored(root, rules_of(one), path, is_dir) == ignored(root, rules_of(other), path, is_dir),
{
}

impl IgnoreSet {
    /// The directory that the rules are relative to.
    pub closed spec fn root(&self) -> Seq<char> {
        matcher_root(self.matcher)
    }

    /// The rules, in order.
    pub closed spec fn rules(&self) -> Seq<Seq<char>> {
        matcher_lines(self.matcher)
    }

    /// Whether these rules keep `path` out of a sync.
    pub open spec fn ignores(&self, path: Seq<char>, is_dir: bool) -> bool {
        ignored(self.root(), self.rules(), path, is_dir)
    }

    /// Compiles the rules that `cfg` holds, relative to `src_root`.
    pub fn build(src_root: &str, cfg: &Config) -> (r: Result<IgnoreSet, DsyncError>)
        ensures
            r is Ok <==> rules_are_valid(rules_of(cfg.ignore@)),
            patterns_of(text::lines(cfg.ignore@)).len() == 0 ==> r is Ok,
            match r {
                Ok(set) => set.root() == src_root@ && set.rules() == rules_of(cfg.ignore@),
                Err(e) => e@ == ErrorView::Config(rules_complaint(rules_of(cfg.ignore@))),
            },
    {
        IgnoreSet::from_patterns(src_root, cfg.ignore.as_str())
    }

    /// Compiles the rule for the configuration directory and the patterns in `patterns`, one to
    /// a line, relative to `src_root`.
    pub fn from_patterns(src_root: &str, patterns: &str) -> (r: Result<IgnoreSet, DsyncError>)
        ensures
            r is Ok <==> rules_are_valid(rules_of(patterns@)),
            patterns_of(text::lines(patterns@)).len() == 0 ==> r is Ok,
            match r {
                Ok(set) => set.root() == src_root@ && set.rules() == rules_of(patterns@),
                Err(e) => e@ == ErrorView::Config(rules_complaint(rules_of(patterns@))),
            },
    {
        let ghost rules = rules_of(patterns@);
        let mut builder = new_builder(src_root);
        let own = ".dsync/";
        assert(rules[0] == own@);
        let ghost first = seq![own_rule()];
        proof {
            assert(first.drop_last().len() == 0);
            assert(rules =~= first + patterns_of(text::lines(patterns@)));
        }
        if let Err(reason) = add_line(&mut builder, own) {
            proof {
                assert(first_refused(first.drop_last()) is None);
                assert(first_refused(first) == Some(0int));
                lemma_first_refused_stays(first, patterns_of(text::lines(patterns@)));
                lemma_first_refused(rules);
                assert(rules_complaint(rules) == "ignore rule error: "@ + reason@);
            }
            return Err(DsyncError::Config(glue("ignore rule error: ", reason.as_str())));
        }
        assert(builder_lines(builder) =~= first);
        let lines = text::split_lines(patterns);
        let ghost ls = text::lines(patterns@);
        assert(ls.take(0).len() == 0);
        assert(builder_lines(builder) =~= first + patterns_of(ls.take(0)));
        proof {
            assert(first_refused(first.drop_last()) is None);
            assert(first_refused(first) is None);
        }
        let mut i: usize = 0;
        while i < lines.len()
            invariant
                i <= lines@.len(),
                text::views(lines@) == ls,
                ls == text::lines(patterns@),
                first == seq![own_rule()],
                rules == rules_of(patterns@),
                rules == first + patterns_of(ls),
                builder_root(builder) == src_root@,
                builder_lines(builder) == first + patterns_of(ls.take(i as int)),
                first_refused(builder_lines(builder)) is None,
            decreases lines@.len() - i,
        {
            let line = text::trim(lines[i].as_str());
            let ghost before = builder_lines(builder);
            proof {
                assert(ls[i as int] == lines@[i as int]@);
                assert(ls.take(i + 1).drop_last() =~= ls.take(i as int));
                assert(ls.take(i + 1).last() == ls[i as int]);
            }
            if is_pattern_line(&line) {
                let ghost grown = before.push(line@);
                assert(grown =~= first + patterns_of(ls.take(i + 1)));
                assert(grown.drop_last() =~= before);
                match add_line(&mut builder, line.as_str()) {
                    Err(reason) => {
                        proof {
                            assert(first_refused(grown) == Some(before.len() as int));
                            lemma_patterns_of_prefix(ls, i + 1);
                            assert(patterns_of(ls.take(i + 1)).len() > 0);
                            let all = patterns_of(ls);
                            let some = patterns_of(ls.take(i + 1));
                            let rest = all.skip(some.len() as int);
                            assert(rules =~= grown + rest);
                            lemma_first_refused_stays(grown, rest);
                            lemma_first_refused(rules);
                            assert(rules[before.len() as int] == line@);
                            assert(rules_complaint(rules) == "invalid ignore pattern `"@
                                + line@ + "`: "@ + reason@);
                        }
                        let mut m = glue3("invalid ignore pattern `", line.as_str(), "`: ");
                        m.append(reason.as_str());
                        return Err(DsyncError::Config(m));
                    },
                    Ok(_) => {
                        assert(first_refused(grown) is None);
                    },
                }
            }
            i = i + 1;
        }
        proof {
            assert(ls.take(i as int) =~= ls);
            lemma_first_refused(rules);
            if patterns_of(ls).len() == 0 {
                assert(builder_lines(builder) =~= first);
            }
        }
        match build_matcher(&builder) {
            Ok(matcher) => Ok(IgnoreSet { matcher }),
            Err(reason) => {
                assert(rules_complaint(rules) == "failed to compile ignore patterns: "@
                    + reason@);
                Err(
                    DsyncError::Config(
                        glue("failed to compile ignore patterns: ", reason.as_str()),
                    ),
                )
            },
        }
    }

    /// Whether `rel_path`, relative to the root, stays out of a sync. `is_dir` lets patterns for
    /// directories match. Without patterns only the configuration does, seen from an absolute
    /// root or from `.`.
    pub fn is_ignored(&self, rel_path: &str, is_dir: bool) -> (r: bool)
        requires
            !path::rooted(rel_path@),
        ensures
            r == self.ignores(rel_path@, is_dir),
            is_clean_root(self.root()) && self.rules() == seq![own_rule()] && !path::comps(
                rel_path@,
            ).contains(DSYNC_DIR@) ==> !r,
    {
        proof {
            if !path::comps(rel_path@).contains(DSYNC_DIR@) {
                lemma_not_within(rel_path@);
            }
        }
        if path::starts_with(rel_path, DSYNC_DIR) {
            return true;
        }
        let parts = path::components(rel_path);
        let ghost cs = path::comps(rel_path@);
        proof {
            path::lemma_comps_proper(rel_path@);
            path::lemma_relative_comps(rel_path@);
            assert(text::views(parts@).len() == parts@.len());
        }
        let ghost bare = is_clean_root(self.root()) && self.rules() == seq![own_rule()]
            && !cs.contains(DSYNC_DIR@);
        let mut k: usize = 1;
        if parts.len() > 0 {
            let first = text::chars_of(parts[0].as_str());
            assert(cs[0] == parts@[0]@);
            if first.len() == 1 && first[0] == '.' {
                assert(cs[0] =~= seq!['.']);
                k = 2;
            }
        }
        assert(k == 1 + lead(cs));
        while k < parts.len()
            invariant
                1 + lead(cs) <= k,
                bare ==> is_clean_root(self.root()) && self.rules() == seq![own_rule()]
                    && !cs.contains(DSYNC_DIR@),
                cs == path::comps(rel_path@),
                text::views(parts@) == cs,
                cs.len() == parts@.len(),
                path::proper(cs),
                cs.len() > 0 ==> cs[0] != seq!['/'],
                forall|j: int|
                    lead(cs) < j < k && j < cs.len() ==> !rules_exclude(
                        self.root(),
                        self.rules(),
                        #[trigger] path::joined(cs.take(j)),
                        true,
                    ),
            decreases parts@.len() - k,
        {
            let above = path::join_components(&parts, k);
            proof {
                path::lemma_proper_take(cs, k as int);
                path::lemma_joined_plain(cs.take(k as int));
                path::lemma_comps_joined(cs.take(k as int));
                if bare {
                    assert(!cs.take(k as int).contains(DSYNC_DIR@)) by {
                        if cs.take(k as int).contains(DSYNC_DIR@) {
                            let j = choose|j: int|
                                0 <= j < k && cs.take(k as int)[j] == DSYNC_DIR@;
                            assert(cs[j] == DSYNC_DIR@);
                        }
                    }
                }
            }
            if is_excluded(&self.matcher, above.as_str(), true) {
                assert(rules_exclude(
                    self.root(),
                    self.rules(),
                    path::joined(cs.take(k as int)),
                    true,
                ));
                return true;
            }
            k = k + 1;
        }
        let whole = path::plain(rel_path);
        proof {
            path::lemma_joined_plain(cs);
            path::lemma_normal(rel_path@);
        }
        is_excluded(&self.matcher, whole.as_str(), is_dir)
    }
}

/// Whether a trimmed line is a pattern.
pub(crate) fn is_pattern_line(line: &String) -> (r: bool)
    ensures
        r == is_pattern(line@),
{
    let chars = text::chars_of(line.as_str());
    chars.len() > 0 && chars[0] != '#'
}


/// What the matcher excludes is ignored: for every relative path, at whatever depth, its plain text
/// is put to the matcher as a whole. Where the path does not lie in the configuration directory and
/// the matcher excludes no directory above it, it is ignored in no other case. A single dot in front
/// is no such directory.
pub proof fn law_matcher_is_asked_about_the_whole_path(
    root: Seq<char>,
    rules: Seq<Seq<char>>,
    path: Seq<char>,
    is_dir: bool,
)
    requires
        !path::rooted(path),
    ensures
        rules_exclude(root, rules, path::normal(path), is_dir) ==> ignored(
            root,
            rules,
            path,
            is_dir,
        ),
        (path::comps(path).len() == 0 || path::comps(path)[0] != ".dsync"@) && (forall|k: int|
            0 < k < path::comps(path).len() && (k > 1 || path::comps(path)[0] != seq!['.'])
                ==> !rules_exclude(
                root,
                rules,
                #[trigger] path::joined(path::comps(path).take(k)),
                true,
            )) ==> (ignored(root, rules, path, is_dir) <==> rules_exclude(
            root,
            rules,
            path::normal(path),
            is_dir,
        )),
{
    reveal_strlit(".dsync");
    let d = ".dsync"@;
    assert(!d.contains('/'));
    path::lemma_single(d);
    let cs = path::comps(path);
    if path::within(path, d) {
        assert(cs[0] == path::comps(d)[0]);
    }
    if ignored(root, rules, path, is_dir) && !path::within(path, d) && !rules_exclude(
        root,
        rules,
        path::normal(path),
        is_dir,
    ) {
        let k = choose|k: int|
            lead(cs) < k < cs.len() && rules_exclude(
                root,
                rules,
                #[trigger] path::joined(cs.take(k)),
                true,
            );
        assert(0 < k < cs.len());
    }
}

/// A path below a directory is ignored if the matcher excludes the plain text of the path as a whole,
/// or the directory; `dir` is plain, and `name` the last name of the path.
pub proof fn law_matcher_is_asked_at_every_depth(
    root: Seq<char>,
    rules: Seq<Seq<char>>,
    dir: Seq<char>,
    name: Seq<char>,
    is_dir: bool,
)
    requires
        dir.len() > 0,
        dir[0] != '/',
        path::normal(dir) == dir,
        dir != seq!['.'],
        name.len() > 0,
        !name.contains('/'),
        name != seq!['.'],
    ensures
        rules_exclude(root, rules, dir + seq!['/'] + name, is_dir) ==> ignored(
            root,
            rules,
            dir + seq!['/'] + name,
            is_dir,
        ),
        rules_exclude(root, rules, dir, true) ==> ignored(
            root,
            rules,
            dir + seq!['/'] + name,
            is_dir,
        ),
        !ignored(root, rules, dir, true) && !rules_exclude(
            root,
            rules,
            dir + seq!['/'] + name,
            is_dir,
        ) && !path::within(dir + seq!['/'] + name, ".dsync"@) ==> !ignored(
            root,
            rules,
            dir + seq!['/'] + name,
            is_dir,
        ),
{
    let p = dir + seq!['/'] + name;
    path::law_plain_text_is_built_name_by_name(dir, name);
    path::law_name_is_one_component_more(dir, name);
    let d = path::comps(dir);
    let cs = path::comps(p);
    assert(cs.take(d.len() as int) =~= d);
    assert(d.len() > 0) by {
        if d.len() == 0 {
            assert(path::normal(dir).len() == 0);
        }
    }
    assert(cs[0] == d[0]);
    if rules_exclude(root, rules, dir, true) {
        let k = d.len() as int;
        if lead(cs) == 1 && k == 1 {
            assert(d =~= seq![seq!['.']]);
            assert(path::normal(dir) == seq!['.']);
        }
        assert(rules_exclude(root, rules, path::joined(cs.take(k)), true));
    }
    if ignored(root, rules, p, is_dir) && !rules_exclude(root, rules, p, is_dir) && !path::within(
        p,
        DSYNC_DIR@,
    ) {
        let k = choose|k: int|
            lead(cs) < k < cs.len() && rules_exclude(
                root,
                rules,
                #[trigger] path::joined(cs.take(k)),
                true,
            );
        if k < d.len() {
            assert(cs.take(k) =~= d.take(k));
            assert(rules_exclude(root, rules, path::joined(d.take(k)), true));
        }
        assert(ignored(root, rules, dir, true));
    }
}

/// The configuration directory is the first name `.dsync`, and that name alone.
pub proof fn law_configuration_is_ignored_under_its_name(
    root: Seq<char>,
    rules: Seq<Seq<char>>,
    path: Seq<char>,
    is_dir: bool,
)
    requires
        path::comps(path).len() > 0,
        path::comps(path)[0] == ".dsync"@,
    ensures
        ignored(root, rules, path, is_dir),
{
    reveal_strlit(".dsync");
    let d = ".dsync"@;
    assert(!d.contains('/'));
    path::lemma_single(d);
    assert(path::comps(path).take(1) =~= seq![d]);
}

proof fn lemma_patterns_of_cons(l: Seq<char>, ls: Seq<Seq<char>>)
    ensures
        patterns_of(seq![l] + ls) == (if is_pattern(text::trimmed(l)) {
            seq![text::trimmed(l)]
        } else {
            Seq::empty()
        }) + patterns_of(ls),
    decreases ls.len(),
{
    let all = seq![l] + ls;
    if ls.len() == 0 {
        assert(all.drop_last() =~= Seq::<Seq<char>>::empty());
        assert(all.last() == l);
        assert(patterns_of(all.drop_last()) =~= Seq::empty());
        assert(patterns_of(ls) =~= Seq::empty());
        assert(patterns_of(all) =~= (if is_pattern(text::trimmed(l)) {
            seq![text::trimmed(l)]
        } else {
            Seq::empty()
        }) + patterns_of(ls));
    } else {
        lemma_patterns_of_cons(l, ls.drop_last());
        assert(all.drop_last() =~= seq![l] + ls.drop_last());
        assert(all.last() == ls.last());
        assert(patterns_of(all) =~= (if is_pattern(text::trimmed(l)) {
            seq![text::trimmed(l)]
        } else {
            Seq::empty()
        }) + patterns_of(ls));
    }
}

/// The rules are the one for the configuration directory and then the lines of the text, in order,
/// each without the white space around it: a pattern on the first line is the second rule, with all
/// its characters, and the lines after it follow. Blank lines and lines that start with `#` are no
/// rules.
pub proof fn law_every_line_is_a_rule(
    a: Seq<char>,
    pattern: Seq<char>,
    b: Seq<char>,
    rest: Seq<char>,
)
    requires
        forall|k: int| 0 <= k < a.len() ==> (#[trigger] a[k]) == ' ' || a[k] == '\t',
        forall|k: int| 0 <= k < b.len() ==> (#[trigger] b[k]) == ' ' || b[k] == '\t',
        !pattern.contains('\n'),
        pattern.len() > 0 ==> !text::is_space(pattern[0]) && !text::is_space(
            pattern[pattern.len() - 1],
        ),
    ensures
        rules_of(Seq::<char>::empty()) == seq![".dsync/"@],
        rules_of(rest)[0] == ".dsync/"@,
        pattern.len() > 0 && pattern[0] != '#' ==> rules_of(
            a + pattern + b + seq!['\n'] + rest,
        ) == seq![".dsync/"@, pattern] + rules_of(rest).skip(1),
        pattern.len() == 0 || pattern[0] == '#' ==> rules_of(
            a + pattern + b + seq!['\n'] + rest,
        ) == rules_of(rest),
{
    let l = a + pattern + b;
    text::law_trimming_takes_white_space_only(a, pattern, b);
    assert(!l.contains('\n')) by {
        if l.contains('\n') {
            let k = choose|k: int| 0 <= k < l.len() && l[k] == '\n';
            if k < a.len() {
                assert(a[k] == '\n');
            } else if k < a.len() + pattern.len() {
                assert(pattern[k - a.len()] == '\n');
            } else {
                assert(b[k - a.len() - pattern.len()] == '\n');
            }
        }
    }
    assert(l.len() > 0 ==> l[l.len() - 1] != '\r') by {
        if l.len() > 0 {
            if b.len() > 0 {
                assert(l[l.len() - 1] == b[b.len() - 1]);
            } else if pattern.len() > 0 {
                assert(l[l.len() - 1] == pattern[pattern.len() - 1]);
                assert(text::is_space('\r'));
            } else {
                assert(l[l.len() - 1] == a[a.len() - 1]);
            }
        }
    }
    text::law_text_is_read_line_by_line(l, rest);
    lemma_patterns_of_cons(l, text::lines(rest));
    assert(patterns_of(Seq::<Seq<char>>::empty()) =~= Seq::empty());
    assert(rules_of(Seq::<char>::empty()) =~= seq![".dsync/"@]);
    let more = rules_of(rest);
    assert(more.skip(1) =~= patterns_of(text::lines(rest)));
    if pattern.len() > 0 && pattern[0] != '#' {
        assert(rules_of(l + seq!['\n'] + rest) =~= seq![".dsync/"@, pattern] + more.skip(1));
    } else {
        assert(rules_of(l + seq!['\n'] + rest) =~= more);
    }
}

/// Of invalid rules the first one that is refused is named, with the reason for it; if none is, the
/// reason is that of all rules together.
pub proof fn law_first_bad_pattern_is_named(rules: Seq<Seq<char>>, i: int, reason: Seq<char>)
    requires
        0 <= i <= rules.len(),
        forall|k: int| 0 <= k < i ==> line_refusal(#[trigger] rules[k]) is None,
        i < rules.len() ==> line_refusal(rules[i]) == Some(reason),
        i == rules.len() ==> compile_refusal(rules) == Some(reason),
    ensures
        0 < i < rules.len() ==> rules_complaint(rules) == "invalid ignore pattern `"@ + rules[i]
            + "`: "@ + reason,
        i == 0 && rules.len() > 0 ==> rules_complaint(rules) == "ignore rule error: "@ + reason,
        i == rules.len() ==> rules_complaint(rules) == "failed to compile ignore patterns: "@
            + reason,
        !rules_are_valid(rules),
{
    lemma_first_refused(rules);
    if i < rules.len() {
        assert(!line_is_accepted(rules[i]));
        lemma_first_refused_is(rules, i);
    } else if first_refused(rules) is Some {
        assert(!line_is_accepted(rules[first_refused(rules)->0]));
    }
}

proof fn lemma_first_refused_is(rules: Seq<Seq<char>>, i: int)
    requires
        0 <= i < rules.len(),
        forall|k: int| 0 <= k < i ==> line_refusal(#[trigger] rules[k]) is None,
        line_refusal(rules[i]) is Some,
    ensures
        first_refused(rules) == Some(i),
    decreases rules.len(),
{
    let head = rules.drop_last();
    if i < head.len() {
        assert forall|k: int| 0 <= k < i implies line_refusal(#[trigger] head[k]) is None by {
            assert(head[k] == rules[k]);
        }
        assert(head[i] == rules[i]);
        lemma_first_refused_is(head, i);
    } else {
        lemma_first_refused(head);
        if first_refused(head) is Some {
            let k = first_refused(head)->0;
            assert(head[k] == rules[k]);
        }
    }
}

/// Rules are valid exactly if each of them is accepted and all of them compile together.
pub proof fn law_valid_rules_are_refused_by_none(rules: Seq<Seq<char>>, i: int)
    ensures
        (forall|k: int| 0 <= k < rules.len() ==> line_refusal(#[trigger] rules[k]) is None)
            && compile_refusal(rules) is None ==> rules_are_valid(rules),
        0 <= i < rules.len() && line_refusal(rules[i]) is Some ==> !rules_are_valid(rules),
        compile_refusal(rules) is Some ==> !rules_are_valid(rules),
{
    if 0 <= i < rules.len() && line_refusal(rules[i]) is Some {
        assert(!line_is_accepted(rules[i]));
    }
}

} // verus!
