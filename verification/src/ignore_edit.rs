//! Editing the patterns of a configuration: adding, importing and removing them.
//!
//! Whatever is edited, the lines that are not concerned stay as they are and where they are,
//! comments and blank lines among them.
use vstd::prelude::*;

use crate::config::Config;
use crate::error::DsyncError;
use crate::error::ErrorView;
use crate::ignore_rules;
use crate::ignore_rules::is_pattern_line;
use crate::text;
use crate::text::chars_of;
use crate::text::glue;
use crate::text::glue3;
use crate::text::show_u64;

verus! {

/// What an edit came to: what to tell the user, and whether the configuration has changed.
#[derive(Debug)]
pub struct Edit {
    pub lines: Vec<String>,
    pub changed: bool,
}

/// The patterns that a configuration has.
pub open spec fn patterns_in(cfg: &Config) -> Seq<Seq<char>> {
    ignore_rules::patterns_of(text::lines(cfg.ignore@))
}

/// Whether two configurations differ in their patterns at most.
pub open spec fn same_but_ignore(a: &Config, b: &Config) -> bool {
    *a == (Config { ignore: a.ignore, ..*b })
}

/// The patterns that a configuration has, trimmed, in order.
pub fn present_set(cfg: &Config) -> (r: Vec<String>)
    ensures
        text::views(r@) == patterns_in(cfg),
{
    let lines = text::split_lines(cfg.ignore.as_str());
    let ghost ls = text::lines(cfg.ignore@);
    let mut out: Vec<String> = Vec::new();
    let mut i: usize = 0;
    assert(ls.take(0).len() == 0);
    assert(text::views(out@) =~= ignore_rules::patterns_of(ls.take(0)));
    assert(text::views(lines@).len() == lines@.len());
    while i < lines.len()
        invariant
            i <= lines@.len() == ls.len(),
            text::views(lines@) == ls,
            text::views(out@) == ignore_rules::patterns_of(ls.take(i as int)),
        decreases lines@.len() - i,
    {
        let line = text::trim(lines[i].as_str());
        proof {
            assert(ls[i as int] == lines@[i as int]@);
            assert(ls.take(i + 1).drop_last() =~= ls.take(i as int));
            assert(ls.take(i + 1).last() == ls[i as int]);
        }
        if is_pattern_line(&line) {
            let ghost before = text::views(out@);
            let ghost t = line@;
            out.push(line);
            assert(text::views(out@) =~= before.push(t));
        }
        i = i + 1;
    }
    assert(ls.take(i as int) =~= ls);
    out
}

/// Whether `t` is in the list.
fn holds(list: &Vec<String>, t: &str) -> (r: bool)
    ensures
        r == text::views(list@).contains(t@),
{
    let mut i: usize = 0;
    let ghost all = text::views(list@);
    while i < list.len()
        invariant
            i <= list@.len(),
            all == text::views(list@),
            forall|k: int| 0 <= k < i ==> #[trigger] all[k] != t@,
        decreases list@.len() - i,
    {
        assert(all[i as int] == list@[i as int]@);
        if text::same(list[i].as_str(), t) {
            return true;
        }
        i = i + 1;
    }
    false
}

/// The text of patterns with more lines at its end.
pub open spec fn appended(ignore: Seq<char>, more: Seq<Seq<char>>) -> Seq<char> {
    text::unlines(text::lines(ignore) + more)
}

/// Puts more lines at the end of a configuration's patterns.
pub fn append_lines(cfg: &mut Config, new_lines: &Vec<String>)
    ensures
        final(cfg).ignore@ == appended(old(cfg).ignore@, text::views(new_lines@)),
        same_but_ignore(final(cfg), old(cfg)),
{
    let mut all = text::split_lines(cfg.ignore.as_str());
    let ghost had = text::views(all@);
    let ghost more = text::views(new_lines@);
    let mut i: usize = 0;
    assert(text::views(all@) =~= had + more.take(0));
    while i < new_lines.len()
        invariant
            i <= new_lines@.len(),
            more == text::views(new_lines@),
            text::views(all@) == had + more.take(i as int),
        decreases new_lines@.len() - i,
    {
        let ghost before = text::views(all@);
        all.push(new_lines[i].clone());
        assert(text::views(all@) =~= before.push(more[i as int]));
        assert(had + more.take(i + 1) =~= before.push(more[i as int]));
        i = i + 1;
    }
    assert(more.take(i as int) =~= more);
    cfg.ignore = text::join_lines(&all);
}

/// Of the given patterns, trimmed, those that are not present and come for the first time.
pub open spec fn fresh(present: Seq<Seq<char>>, given: Seq<Seq<char>>) -> Seq<Seq<char>>
    decreases given.len(),
{
    if given.len() == 0 {
        Seq::empty()
    } else {
        let before = fresh(present, given.drop_last());
        let t = text::trimmed(given.last());
        if t.len() == 0 || present.contains(t) || before.contains(t) {
            before
        } else {
            before.push(t)
        }
    }
}

/// Of the given patterns, trimmed, those that are present or came before.
pub open spec fn repeated(present: Seq<Seq<char>>, given: Seq<Seq<char>>) -> Seq<Seq<char>>
    decreases given.len(),
{
    if given.len() == 0 {
        Seq::empty()
    } else {
        let before = repeated(present, given.drop_last());
        let t = text::trimmed(given.last());
        if t.len() > 0 && (present.contains(t) || fresh(present, given.drop_last()).contains(t)) {
            before.push(t)
        } else {
            before
        }
    }
}

/// Each of the texts after the same words.
pub open spec fn labelled(label: Seq<char>, list: Seq<Seq<char>>) -> Seq<Seq<char>> {
    list.map_values(|s: Seq<char>| label + s)
}

/// Adds to `out` each text of `list` after the words `label`.
fn push_labelled(out: &mut Vec<String>, label: &str, list: &Vec<String>)
    ensures
        text::views(final(out)@) == text::views(old(out)@) + labelled(
            label@,
            text::views(list@),
        ),
{
    let ghost had = text::views(out@);
    let ghost more = labelled(label@, text::views(list@));
    let mut i: usize = 0;
    assert(text::views(out@) =~= had + more.take(0));
    while i < list.len()
        invariant
            i <= list@.len(),
            more == labelled(label@, text::views(list@)),
            text::views(out@) == had + more.take(i as int),
        decreases list@.len() - i,
    {
        let ghost before = text::views(out@);
        out.push(glue(label, list[i].as_str()));
        assert(text::views(out@) =~= before.push(more[i as int]));
        assert(had + more.take(i + 1) =~= before.push(more[i as int]));
        i = i + 1;
    }
    assert(more.take(i as int) =~= more);
}

/// Adds patterns that the configuration does not have yet, at the end, one to a line.
pub fn add(cfg: &mut Config, patterns: &Vec<String>) -> (r: Result<Edit, DsyncError>)
    ensures
        match r {
            Err(e) => {
                &&& patterns@.len() == 0
                &&& e@ == ErrorView::Other("no patterns given"@)
                &&& *final(cfg) == *old(cfg)
            },
            Ok(edit) => {
                let new = fresh(patterns_in(old(cfg)), text::views(patterns@));
                let known = repeated(patterns_in(old(cfg)), text::views(patterns@));
                &&& patterns@.len() > 0
                &&& edit.changed == (new.len() > 0)
                &&& text::views(edit.lines@) == labelled("added: "@, new) + labelled(
                    "already present: "@,
                    known,
                )
                &&& if new.len() > 0 {
                    final(cfg).ignore@ == appended(old(cfg).ignore@, new) && same_but_ignore(
                        final(cfg),
                        old(cfg),
                    )
                } else {
                    *final(cfg) == *old(cfg)
                }
            },
        },
{
    if patterns.len() == 0 {
        return Err(DsyncError::Other("no patterns given".to_owned()));
    }
    let present = present_set(cfg);
    let ghost pv = patterns_in(cfg);
    let ghost given = text::views(patterns@);
    let mut new: Vec<String> = Vec::new();
    let mut known: Vec<String> = Vec::new();
    let mut i: usize = 0;
    assert(given.take(0).len() == 0);
    assert(text::views(new@) =~= fresh(pv, given.take(0)));
    assert(text::views(known@) =~= repeated(pv, given.take(0)));
    while i < patterns.len()
        invariant
            i <= patterns@.len(),
            given == text::views(patterns@),
            text::views(present@) == pv,
            text::views(new@) == fresh(pv, given.take(i as int)),
            text::views(known@) == repeated(pv, given.take(i as int)),
        decreases patterns@.len() - i,
    {
        let t = text::trim(patterns[i].as_str());
        let ghost tv = t@;
        let ghost before_new = text::views(new@);
        let ghost before_known = text::views(known@);
        proof {
            assert(given[i as int] == patterns@[i as int]@);
            assert(given.take(i + 1).drop_last() =~= given.take(i as int));
            assert(given.take(i + 1).last() == given[i as int]);
        }
        let chars = chars_of(t.as_str());
        if chars.len() > 0 {
            if holds(&present, t.as_str()) || holds(&new, t.as_str()) {
                known.push(t);
                assert(text::views(known@) =~= before_known.push(tv));
            } else {
                new.push(t);
                assert(text::views(new@) =~= before_new.push(tv));
            }
        }
        i = i + 1;
    }
    assert(given.take(i as int) =~= given);
    let mut lines: Vec<String> = Vec::new();
    push_labelled(&mut lines, "added: ", &new);
    push_labelled(&mut lines, "already present: ", &known);
    assert(text::views(lines@) =~= labelled("added: "@, text::views(new@)) + labelled(
        "already present: "@,
        text::views(known@),
    ));
    assert(text::views(new@).len() == new@.len());
    let changed = new.len() > 0;
    if changed {
        append_lines(cfg, &new);
    }
    Ok(Edit { lines, changed })
}

/// What importing lines comes to.
#[verifier::ext_equal]
pub struct Import {
    /// The lines to append: comments and blank lines as they are, and new patterns, trimmed.
    pub lines: Seq<Seq<char>>,
    /// The patterns that are known afterwards.
    pub known: Seq<Seq<char>>,
    /// How many patterns are new.
    pub imported: nat,
    /// How many patterns were known.
    pub skipped: nat,
}

/// Imports lines when the patterns `known` are there already.
pub open spec fn import_lines(known: Seq<Seq<char>>, ls: Seq<Seq<char>>) -> Import
    decreases ls.len(),
{
    if ls.len() == 0 {
        Import { lines: Seq::empty(), known, imported: 0, skipped: 0 }
    } else {
        let before = import_lines(known, ls.drop_last());
        let t = text::trimmed(ls.last());
        if !ignore_rules::is_pattern(t) {
            Import { lines: before.lines.push(ls.last()), ..before }
        } else if before.known.contains(t) {
            Import { skipped: before.skipped + 1, ..before }
        } else {
            Import {
                lines: before.lines.push(t),
                known: before.known.push(t),
                imported: before.imported + 1,
                skipped: before.skipped,
            }
        }
    }
}

/// Imports the lines of one file after the other. `files` are the contents.
pub open spec fn import_files(known: Seq<Seq<char>>, files: Seq<Seq<char>>) -> Import
    decreases files.len(),
{
    if files.len() == 0 {
        Import { lines: Seq::empty(), known, imported: 0, skipped: 0 }
    } else {
        let before = import_files(known, files.drop_last());
        let last = import_lines(before.known, text::lines(files.last()));
        Import {
            lines: before.lines + last.lines,
            known: last.known,
            imported: before.imported + last.imported,
            skipped: before.skipped + last.skipped,
        }
    }
}

/// The report of an import: for each file how many of its patterns were new.
pub open spec fn import_report(
    known: Seq<Seq<char>>,
    names: Seq<Seq<char>>,
    files: Seq<Seq<char>>,
) -> Seq<Seq<char>>
    decreases files.len(),
{
    if files.len() == 0 {
        Seq::empty()
    } else {
        let before = import_files(known, files.drop_last());
        let last = import_lines(before.known, text::lines(files.last()));
        import_report(known, names, files.drop_last()).push(
            names[files.len() - 1] + ": "@ + text::decimal(last.imported) + " imported, "@
                + text::decimal(last.skipped) + " already present"@,
        )
    }
}

/// Imports the lines of one file: adds to the known patterns and to the lines to append, and
/// counts.
fn import_one(known: &mut Vec<String>, content: &str, out: &mut Vec<String>) -> (r: (usize, usize))
    ensures
        ({
            let import = import_lines(text::views(old(known)@), text::lines(content@));
            &&& text::views(final(known)@) == import.known
            &&& text::views(final(out)@) == text::views(old(out)@) + import.lines
            &&& r.0 == import.imported
            &&& r.1 == import.skipped
        }),
{
    let lines = text::split_lines(content);
    let ghost ls = text::lines(content@);
    let ghost known0 = text::views(known@);
    let ghost out0 = text::views(out@);
    let mut imported: usize = 0;
    let mut skipped: usize = 0;
    let mut i: usize = 0;
    assert(ls.take(0).len() == 0);
    assert(text::views(out@) =~= out0 + import_lines(known0, ls.take(0)).lines);
    assert(text::views(lines@).len() == lines@.len());
    while i < lines.len()
        invariant
            i <= lines@.len() == ls.len(),
            text::views(lines@) == ls,
            text::views(known@) == import_lines(known0, ls.take(i as int)).known,
            text::views(out@) == out0 + import_lines(known0, ls.take(i as int)).lines,
            imported == import_lines(known0, ls.take(i as int)).imported,
            skipped == import_lines(known0, ls.take(i as int)).skipped,
            imported + skipped <= i,
        decreases lines@.len() - i,
    {
        let ghost now = import_lines(known0, ls.take(i as int));
        let ghost next = import_lines(known0, ls.take(i + 1));
        let ghost kv = text::views(known@);
        let ghost ov = text::views(out@);
        proof {
            assert(ls[i as int] == lines@[i as int]@);
            assert(ls.take(i + 1).drop_last() =~= ls.take(i as int));
            assert(ls.take(i + 1).last() == ls[i as int]);
        }
        let t = text::trim(lines[i].as_str());
        let ghost tv = t@;
        if !is_pattern_line(&t) {
            out.push(lines[i].clone());
            assert(text::views(out@) =~= ov.push(ls[i as int]));
            assert(ov.push(ls[i as int]) =~= out0 + next.lines);
        } else if holds(known, t.as_str()) {
            skipped = skipped + 1;
        } else {
            known.push(t.clone());
            out.push(t);
            imported = imported + 1;
            assert(text::views(known@) =~= kv.push(tv));
            assert(text::views(out@) =~= ov.push(tv));
            assert(ov.push(tv) =~= out0 + next.lines);
        }
        i = i + 1;
    }
    assert(ls.take(i as int) =~= ls);
    (imported, skipped)
}

/// The contents of the files.
pub open spec fn contents(files: Seq<(String, String)>) -> Seq<Seq<char>> {
    Seq::new(files.len(), |i: int| files[i].1@)
}

/// The names of the files.
pub open spec fn names(files: Seq<(String, String)>) -> Seq<Seq<char>> {
    Seq::new(files.len(), |i: int| files[i].0@)
}

/// Imports the lines of files, names and contents, in order: patterns that the configuration does
/// not have yet, and the comments and blank lines between them. Without a new pattern nothing
/// changes.
pub fn update(cfg: &mut Config, files: &Vec<(String, String)>) -> (r: Result<Edit, DsyncError>)
    ensures
        match r {
            Err(e) => {
                &&& files@.len() == 0
                &&& e@ == ErrorView::Other("no files given"@)
                &&& *final(cfg) == *old(cfg)
            },
            Ok(edit) => {
                let import = import_files(patterns_in(old(cfg)), contents(files@));
                &&& files@.len() > 0
                &&& edit.changed == (import.imported > 0)
                &&& text::views(edit.lines@) == import_report(
                    patterns_in(old(cfg)),
                    names(files@),
                    contents(files@),
                )
                &&& if import.imported > 0 {
                    final(cfg).ignore@ == appended(old(cfg).ignore@, import.lines)
                        && same_but_ignore(final(cfg), old(cfg))
                } else {
                    *final(cfg) == *old(cfg)
                }
            },
        },
{
    if files.len() == 0 {
        return Err(DsyncError::Other("no files given".to_owned()));
    }
    let mut known = present_set(cfg);
    let ghost pv = patterns_in(cfg);
    let ghost fs = contents(files@);
    let ghost ns = names(files@);
    let mut new: Vec<String> = Vec::new();
    let mut lines: Vec<String> = Vec::new();
    let mut found = false;
    let mut i: usize = 0;
    assert(fs.take(0).len() == 0);
    assert(text::views(new@) =~= import_files(pv, fs.take(0)).lines);
    assert(text::views(lines@) =~= import_report(pv, ns, fs.take(0)));
    while i < files.len()
        invariant
            i <= files@.len(),
            fs == contents(files@),
            ns == names(files@),
            text::views(known@) == import_files(pv, fs.take(i as int)).known,
            text::views(new@) == import_files(pv, fs.take(i as int)).lines,
            text::views(lines@) == import_report(pv, ns, fs.take(i as int)),
            found == (import_files(pv, fs.take(i as int)).imported > 0),
        decreases files@.len() - i,
    {
        let ghost lv = text::views(lines@);
        proof {
            assert(fs.take(i + 1).drop_last() =~= fs.take(i as int));
            assert(fs.take(i + 1).last() == fs[i as int]);
        }
        let (imported, skipped) = import_one(&mut known, files[i].1.as_str(), &mut new);
        if imported > 0 {
            found = true;
        }
        let mut line = glue3(files[i].0.as_str(), ": ", show_u64(imported as u64).as_str());
        line.append(" imported, ");
        line.append(show_u64(skipped as u64).as_str());
        line.append(" already present");
        let ghost linev = line@;
        lines.push(line);
        assert(text::views(lines@) =~= lv.push(linev));
        i = i + 1;
    }
    assert(fs.take(i as int) =~= fs);
    if found {
        append_lines(cfg, &new);
    }
    Ok(Edit { lines, changed: found })
}

/// Whether a line is blank.
pub open spec fn is_blank(line: Seq<char>) -> bool {
    text::trimmed(line).len() == 0
}

/// The lines that are not blank.
pub open spec fn entries_of(ls: Seq<Seq<char>>) -> Seq<Seq<char>>
    decreases ls.len(),
{
    if ls.len() == 0 {
        Seq::empty()
    } else {
        let before = entries_of(ls.drop_last());
        if is_blank(ls.last()) {
            before
        } else {
            before.push(ls.last())
        }
    }
}

/// The entries of a configuration that can be removed: its lines that are not blank.
pub fn removable(cfg: &Config) -> (r: Vec<String>)
    ensures
        text::views(r@) == entries_of(text::lines(cfg.ignore@)),
{
    let lines = text::split_lines(cfg.ignore.as_str());
    let ghost ls = text::lines(cfg.ignore@);
    let mut out: Vec<String> = Vec::new();
    let mut i: usize = 0;
    assert(ls.take(0).len() == 0);
    assert(text::views(out@) =~= entries_of(ls.take(0)));
    assert(text::views(lines@).len() == lines@.len());
    while i < lines.len()
        invariant
            i <= lines@.len() == ls.len(),
            text::views(lines@) == ls,
            text::views(out@) == entries_of(ls.take(i as int)),
        decreases lines@.len() - i,
    {
        let ghost before = text::views(out@);
        proof {
            assert(ls[i as int] == lines@[i as int]@);
            assert(ls.take(i + 1).drop_last() =~= ls.take(i as int));
            assert(ls.take(i + 1).last() == ls[i as int]);
        }
        let bare = chars_of(text::trim(lines[i].as_str()).as_str());
        if bare.len() > 0 {
            out.push(lines[i].clone());
            assert(text::views(out@) =~= before.push(ls[i as int]));
        }
        i = i + 1;
    }
    assert(ls.take(i as int) =~= ls);
    out
}

/// What is offered for removal: the entries; nothing if there are none. Someone must be there to
/// choose.
pub fn start_removal(cfg: &Config, interactive: bool) -> (r: Result<Option<Vec<String>>, DsyncError>)
    ensures
        ({
            let entries = entries_of(text::lines(cfg.ignore@));
            match r {
                Ok(None) => entries.len() == 0,
                Ok(Some(items)) => entries.len() > 0 && interactive && text::views(items@)
                    == entries,
                Err(e) => {
                    &&& entries.len() > 0
                    &&& !interactive
                    &&& e@ == ErrorView::Other(
                        "no TTY available; edit `.dsync/config.yaml` directly to remove ignore patterns"@,
                    )
                },
            }
        }),
{
    let items = removable(cfg);
    assert(text::views(items@).len() == items@.len());
    if items.len() == 0 {
        return Ok(None);
    }
    if !interactive {
        return Err(
            DsyncError::Other(
                "no TTY available; edit `.dsync/config.yaml` directly to remove ignore patterns".to_owned(),
            ),
        );
    }
    Ok(Some(items))
}

/// The lines without the chosen entries. Entries are counted from 0, blank lines left out.
pub open spec fn kept(ls: Seq<Seq<char>>, chosen: Seq<usize>) -> Seq<Seq<char>>
    decreases ls.len(),
{
    if ls.len() == 0 {
        Seq::empty()
    } else {
        let before = kept(ls.drop_last(), chosen);
        if !is_blank(ls.last()) && chosen.contains(entries_of(ls.drop_last()).len() as usize) {
            before
        } else {
            before.push(ls.last())
        }
    }
}

/// The chosen entries.
pub open spec fn removed(ls: Seq<Seq<char>>, chosen: Seq<usize>) -> Seq<Seq<char>>
    decreases ls.len(),
{
    if ls.len() == 0 {
        Seq::empty()
    } else {
        let before = removed(ls.drop_last(), chosen);
        if !is_blank(ls.last()) && chosen.contains(entries_of(ls.drop_last()).len() as usize) {
            before.push(ls.last())
        } else {
            before
        }
    }
}

fn is_chosen(chosen: &Vec<usize>, n: usize) -> (r: bool)
    ensures
        r == chosen@.contains(n),
{
    let mut i: usize = 0;
    while i < chosen.len()
        invariant
            i <= chosen@.len(),
            forall|k: int| 0 <= k < i ==> #[trigger] chosen@[k] != n,
        decreases chosen@.len() - i,
    {
        if chosen[i] == n {
            return true;
        }
        i = i + 1;
    }
    false
}

/// Removes the chosen entries, counted from 0 among those that `removable` lists, and no other
/// lines.
pub fn remove_indices(cfg: &mut Config, chosen: &Vec<usize>) -> (r: Edit)
    ensures
        if chosen@.len() == 0 {
            &&& !r.changed
            &&& text::views(r.lines@) == seq!["nothing selected; config unchanged"@]
            &&& *final(cfg) == *old(cfg)
        } else {
            let ls = text::lines(old(cfg).ignore@);
            &&& r.changed
            &&& text::views(r.lines@) == labelled(
                "removed: "@,
                removed(ls, chosen@).map_values(|s: Seq<char>| text::trimmed(s)),
            )
            &&& final(cfg).ignore@ == text::unlines(kept(ls, chosen@))
            &&& same_but_ignore(final(cfg), old(cfg))
        },
{
    let mut out: Vec<String> = Vec::new();
    if chosen.len() == 0 {
        out.push("nothing selected; config unchanged".to_owned());
        assert(text::views(out@) =~= seq!["nothing selected; config unchanged"@]);
        return Edit { lines: out, changed: false };
    }
    let lines = text::split_lines(cfg.ignore.as_str());
    let ghost ls = text::lines(cfg.ignore@);
    let mut stay: Vec<String> = Vec::new();
    let mut gone: Vec<String> = Vec::new();
    let mut n: usize = 0;
    let mut i: usize = 0;
    let ghost bare_removed = |m: int|
        removed(ls.take(m), chosen@).map_values(|s: Seq<char>| text::trimmed(s));
    assert(ls.take(0).len() == 0);
    assert(text::views(stay@) =~= kept(ls.take(0), chosen@));
    assert(text::views(gone@) =~= bare_removed(0));
    assert(text::views(lines@).len() == lines@.len());
    while i < lines.len()
        invariant
            i <= lines@.len() == ls.len(),
            text::views(lines@) == ls,
            n == entries_of(ls.take(i as int)).len(),
            n <= i,
            text::views(stay@) == kept(ls.take(i as int), chosen@),
            text::views(gone@) == removed(ls.take(i as int), chosen@).map_values(
                |s: Seq<char>| text::trimmed(s),
            ),
        decreases lines@.len() - i,
    {
        let ghost sv = text::views(stay@);
        let ghost gv = text::views(gone@);
        proof {
            assert(ls[i as int] == lines@[i as int]@);
            assert(ls.take(i + 1).drop_last() =~= ls.take(i as int));
            assert(ls.take(i + 1).last() == ls[i as int]);
        }
        let bare = text::trim(lines[i].as_str());
        let ghost bv = bare@;
        let chars = chars_of(bare.as_str());
        if chars.len() == 0 {
            stay.push(lines[i].clone());
            assert(text::views(stay@) =~= sv.push(ls[i as int]));
        } else {
            if is_chosen(chosen, n) {
                gone.push(bare);
                assert(text::views(gone@) =~= gv.push(bv));
                assert(gv.push(bv) =~= removed(ls.take(i + 1), chosen@).map_values(
                    |s: Seq<char>| text::trimmed(s),
                ));
            } else {
                stay.push(lines[i].clone());
                assert(text::views(stay@) =~= sv.push(ls[i as int]));
            }
            n = n + 1;
        }
        i = i + 1;
    }
    assert(ls.take(i as int) =~= ls);
    push_labelled(&mut out, "removed: ", &gone);
    assert(text::views(out@) =~= labelled("removed: "@, text::views(gone@)));
    cfg.ignore = text::join_lines(&stay);
    Edit { lines: out, changed: true }
}

proof fn lemma_patterns_of_append(a: Seq<Seq<char>>, b: Seq<Seq<char>>)
    ensures
        ignore_rules::patterns_of(a + b) == ignore_rules::patterns_of(a)
            + ignore_rules::patterns_of(b),
    decreases b.len(),
{
    if b.len() == 0 {
        assert(a + b =~= a);
        assert(ignore_rules::patterns_of(a) + ignore_rules::patterns_of(b)
            =~= ignore_rules::patterns_of(a));
    } else {
        assert((a + b).drop_last() =~= a + b.drop_last());
        lemma_patterns_of_append(a, b.drop_last());
        assert(ignore_rules::patterns_of(a + b) =~= ignore_rules::patterns_of(a)
            + ignore_rules::patterns_of(b));
    }
}

/// Carriage returns at the ends of lines make no difference to the patterns.
proof fn lemma_patterns_without_returns(ls: Seq<Seq<char>>)
    ensures
        ignore_rules::patterns_of(text::without_returns(ls)) == ignore_rules::patterns_of(ls),
    decreases ls.len(),
{
    if ls.len() > 0 {
        lemma_patterns_without_returns(ls.drop_last());
        assert(text::without_returns(ls).drop_last() =~= text::without_returns(ls.drop_last()));
        text::lemma_trim_without_return(ls.last());
    } else {
        assert(text::without_returns(ls) =~= ls);
    }
}

/// Appending lines keeps the lines that were there, in their places, and the patterns among them;
/// the new lines follow. Of a line that ends in a carriage return, that return is lost, which makes
/// no difference to the patterns.
pub proof fn law_appending_keeps_what_is_there(ignore: Seq<char>, more: Seq<Seq<char>>)
    requires
        forall|i: int| 0 <= i < more.len() ==> !(#[trigger] more[i]).contains('\n'),
    ensures
        text::lines(appended(ignore, more)) == text::without_returns(text::lines(ignore) + more),
        ignore_rules::patterns_of(text::lines(appended(ignore, more)))
            == ignore_rules::patterns_of(text::lines(ignore)) + ignore_rules::patterns_of(more),
        (forall|i: int|
            0 <= i < (text::lines(ignore) + more).len() ==> !text::ends_in_return(
                #[trigger] (text::lines(ignore) + more)[i],
            )) ==> text::lines(appended(ignore, more)) == text::lines(ignore) + more,
{
    let all = text::lines(ignore) + more;
    text::lemma_lines_hold_no_feed(ignore);
    assert forall|i: int| 0 <= i < all.len() implies !(#[trigger] all[i]).contains('\n') by {
        if i < text::lines(ignore).len() {
            assert(all[i] == text::lines(ignore)[i]);
        } else {
            assert(all[i] == more[i - text::lines(ignore).len()]);
        }
    }
    text::lemma_lines_of_unlines(all);
    lemma_patterns_of_append(text::lines(ignore), more);
    lemma_patterns_without_returns(all);
}

/// Patterns that are added are new, and none twice; after adding, every pattern that was given is
/// there.
pub proof fn law_adding_leaves_no_duplicates(
    present: Seq<Seq<char>>,
    given: Seq<Seq<char>>,
    k: int,
)
    ensures
        fresh(present, given).no_duplicates(),
        forall|t: Seq<char>| #[trigger]
            fresh(present, given).contains(t) ==> !present.contains(t) && t.len() > 0,
        0 <= k < given.len() && text::trimmed(given[k]).len() > 0 ==> present.contains(
            text::trimmed(given[k]),
        ) || fresh(present, given).contains(text::trimmed(given[k])),
    decreases given.len(),
{
    if given.len() > 0 {
        let head = given.drop_last();
        let before = fresh(present, head);
        let t = text::trimmed(given.last());
        let all = fresh(present, given);
        law_adding_leaves_no_duplicates(present, head, k);
        assert forall|u: Seq<char>| #[trigger] before.push(t).contains(u) <==> (before.contains(u)
            || u == t) by {
            if before.push(t).contains(u) {
                let i = choose|i: int| 0 <= i < before.push(t).len() && before.push(t)[i] == u;
                if i < before.len() {
                    assert(before[i] == u);
                }
            }
            if before.contains(u) {
                let i = choose|i: int| 0 <= i < before.len() && before[i] == u;
                assert(before.push(t)[i] == u);
            }
            assert(before.push(t)[before.len() as int] == t);
        }
        if all.len() > before.len() {
            assert forall|i: int, j: int|
                0 <= i < all.len() && 0 <= j < all.len() && i != j implies all[i] != all[j] by {
                if i == before.len() {
                    assert(before.contains(before[j]));
                } else if j == before.len() {
                    assert(before.contains(before[i]));
                }
            }
        }
        if 0 <= k < head.len() {
            assert(head[k] == given[k]);
        }
    }
}

/// An import knows all patterns of its lines afterwards, forgets none, and appends exactly those
/// that it did not know, each once.
pub proof fn law_importing_adds_what_is_missing(known: Seq<Seq<char>>, ls: Seq<Seq<char>>, k: int)
    ensures
        import_lines(known, ls).known == known + ignore_rules::patterns_of(
            import_lines(known, ls).lines,
        ),
        import_lines(known, ls).imported == ignore_rules::patterns_of(
            import_lines(known, ls).lines,
        ).len(),
        known.no_duplicates() ==> import_lines(known, ls).known.no_duplicates(),
        0 <= k < ls.len() && ignore_rules::is_pattern(text::trimmed(ls[k])) ==> import_lines(
            known,
            ls,
        ).known.contains(text::trimmed(ls[k])),
    decreases ls.len(),
{
    let all = import_lines(known, ls);
    if ls.len() == 0 {
        assert(all.lines.len() == 0);
        assert(known + ignore_rules::patterns_of(all.lines) =~= known);
    } else {
        let head = ls.drop_last();
        let before = import_lines(known, head);
        let t = text::trimmed(ls.last());
        law_importing_adds_what_is_missing(known, head, k);
        text::lemma_trim_idempotent(ls.last());
        if 0 <= k < head.len() {
            assert(head[k] == ls[k]);
        }
        if !ignore_rules::is_pattern(t) {
            assert(all.lines.drop_last() =~= before.lines);
        } else if !before.known.contains(t) {
            assert(all.lines.drop_last() =~= before.lines);
            assert(all.known =~= known + ignore_rules::patterns_of(all.lines));
            assert(all.known[before.known.len() as int] == t);
            if 0 <= k < head.len() && ignore_rules::is_pattern(text::trimmed(ls[k])) {
                let u = text::trimmed(ls[k]);
                let i = choose|i: int| 0 <= i < before.known.len() && before.known[i] == u;
                assert(all.known[i] == u);
            }
            if known.no_duplicates() {
                assert forall|i: int, j: int|
                    0 <= i < all.known.len() && 0 <= j < all.known.len() && i != j implies all.known[i]
                    != all.known[j] by {
                    if i == before.known.len() {
                        assert(before.known.contains(before.known[j]));
                    } else if j == before.known.len() {
                        assert(before.known.contains(before.known[i]));
                    }
                }
            }
        }
    }
}

/// The entries whose numbers are chosen, or those whose numbers are not.
pub open spec fn pick(entries: Seq<Seq<char>>, chosen: Seq<usize>, taken: bool) -> Seq<Seq<char>>
    decreases entries.len(),
{
    if entries.len() == 0 {
        Seq::empty()
    } else {
        let before = pick(entries.drop_last(), chosen, taken);
        if chosen.contains((entries.len() - 1) as usize) == taken {
            before.push(entries.last())
        } else {
            before
        }
    }
}

/// Exactly the chosen entries go. The others stay, in order, and so do all blank lines.
pub proof fn law_removal_takes_exactly_the_chosen(ls: Seq<Seq<char>>, chosen: Seq<usize>)
    ensures
        removed(ls, chosen) == pick(entries_of(ls), chosen, true),
        entries_of(kept(ls, chosen)) == pick(entries_of(ls), chosen, false),
        kept(ls, chosen).len() + removed(ls, chosen).len() == ls.len(),
    decreases ls.len(),
{
    if ls.len() > 0 {
        let head = ls.drop_last();
        law_removal_takes_exactly_the_chosen(head, chosen);
        let es = entries_of(ls);
        let before = kept(head, chosen);
        if is_blank(ls.last()) {
            assert(kept(ls, chosen).drop_last() =~= before);
        } else {
            assert(es.drop_last() =~= entries_of(head));
            if !chosen.contains(entries_of(head).len() as usize) {
                assert(kept(ls, chosen).drop_last() =~= before);
            }
        }
    }
}


/// Whether these are places among the first `n`, each further on than the one before it.
pub open spec fn ascending(place: Seq<int>, n: int) -> bool {
    &&& forall|m: int| 0 <= m < place.len() ==> 0 <= #[trigger] place[m] < n
    &&& forall|i: int, j: int| 0 <= i < j < place.len() ==> #[trigger] place[i] < #[trigger] place[j]
}

proof fn lemma_one_place_more(place: Seq<int>, n: int)
    requires
        ascending(place, n),
        n >= 0,
    ensures
        ascending(place, n + 1),
        ascending(place.push(n), n + 1),
        !place.contains(n),
        forall|k: int| #[trigger] place.push(n).contains(k) <==> place.contains(k) || k == n,
{
    let more = place.push(n);
    if place.contains(n) {
        let m = choose|m: int| 0 <= m < place.len() && place[m] == n;
        assert(place[m] < n);
    }
    assert forall|k: int| #[trigger] more.contains(k) <==> place.contains(k) || k == n by {
        if more.contains(k) {
            let m = choose|m: int| 0 <= m < more.len() && more[m] == k;
            if m < place.len() {
                assert(place[m] == k);
            }
        }
        if place.contains(k) {
            let m = choose|m: int| 0 <= m < place.len() && place[m] == k;
            assert(more[m] == k);
        }
        assert(more[place.len() as int] == n);
    }
    assert forall|m: int| 0 <= m < more.len() implies 0 <= #[trigger] more[m] < n + 1 by {
        if m < place.len() {
            assert(0 <= place[m] < n);
        }
    }
    assert forall|i: int, j: int| 0 <= i < j < more.len() implies #[trigger] more[i]
        < #[trigger] more[j] by {
        assert(0 <= place[i] < n);
        if j < place.len() {
            assert(place[i] < place[j]);
        }
    }
}

/// Whether the `k`th text, trimmed, is none of those that are present nor one that was given before
/// it.
pub open spec fn comes_first(present: Seq<Seq<char>>, given: Seq<Seq<char>>, k: int) -> bool {
    &&& !present.contains(text::trimmed(given[k]))
    &&& forall|i: int|
        0 <= i < k ==> text::trimmed(#[trigger] given[i]) != text::trimmed(given[k])
}

/// The patterns that are added are the trimmed ones of those given that are not present and were not
/// given before, in the order in which they were given: the `m`th of them is the one given at
/// `r.0[m]`. The others but for the blank ones are reported as present, in their order: the `m`th of
/// them is the one given at `r.1[m]`.
pub proof fn law_added_patterns_keep_their_order(
    present: Seq<Seq<char>>,
    given: Seq<Seq<char>>,
) -> (r: (Seq<int>, Seq<int>))
    ensures
        ascending(r.0, given.len() as int),
        ascending(r.1, given.len() as int),
        r.0.len() == fresh(present, given).len(),
        r.1.len() == repeated(present, given).len(),
        forall|m: int|
            0 <= m < r.0.len() ==> fresh(present, given)[m] == text::trimmed(
                given[#[trigger] r.0[m]],
            ),
        forall|m: int|
            0 <= m < r.1.len() ==> repeated(present, given)[m] == text::trimmed(
                given[#[trigger] r.1[m]],
            ),
        forall|k: int|
            0 <= k < given.len() ==> (#[trigger] r.0.contains(k) <==> text::trimmed(given[k]).len()
                > 0 && comes_first(present, given, k)),
        forall|k: int|
            0 <= k < given.len() ==> (#[trigger] r.1.contains(k) <==> text::trimmed(given[k]).len()
                > 0 && !comes_first(present, given, k)),
    decreases given.len(),
{
    if given.len() == 0 {
        (Seq::empty(), Seq::empty())
    } else {
        let head = given.drop_last();
        let n = head.len() as int;
        let (p, q) = law_added_patterns_keep_their_order(present, head);
        let before = fresh(present, head);
        let t = text::trimmed(given.last());
        lemma_one_place_more(p, n);
        lemma_one_place_more(q, n);
        assert forall|k: int| 0 <= k < n implies #[trigger] comes_first(present, given, k)
            == comes_first(present, head, k) by {
            assert(head[k] == given[k]);
            if comes_first(present, head, k) {
                assert forall|i: int| 0 <= i < k implies text::trimmed(#[trigger] given[i])
                    != text::trimmed(given[k]) by {
                    assert(head[i] == given[i]);
                }
            }
            if comes_first(present, given, k) {
                assert forall|i: int| 0 <= i < k implies text::trimmed(#[trigger] head[i])
                    != text::trimmed(head[k]) by {
                    assert(head[i] == given[i]);
                }
            }
        }
        if t.len() > 0 && !present.contains(t) {
            lemma_fresh_has(present, head, t);
            if before.contains(t) {
                let i = choose|i: int|
                    0 <= i < head.len() && text::trimmed(#[trigger] head[i]) == t;
                assert(given[i] == head[i]);
                assert(!comes_first(present, given, n));
            } else {
                assert forall|i: int| 0 <= i < n implies text::trimmed(#[trigger] given[i])
                    != text::trimmed(given[n]) by {
                    assert(head[i] == given[i]);
                }
                assert(comes_first(present, given, n));
            }
        }
        let a = if t.len() > 0 && comes_first(present, given, n) {
            p.push(n)
        } else {
            p
        };
        let b = if t.len() > 0 && !comes_first(present, given, n) {
            q.push(n)
        } else {
            q
        };
        assert forall|m: int| 0 <= m < a.len() implies fresh(present, given)[m] == text::trimmed(
            given[#[trigger] a[m]],
        ) by {
            if m < p.len() {
                assert(0 <= p[m] < n);
                assert(head[p[m]] == given[p[m]]);
            }
        }
        assert forall|m: int| 0 <= m < b.len() implies repeated(present, given)[m] == text::trimmed(
            given[#[trigger] b[m]],
        ) by {
            if m < q.len() {
                assert(0 <= q[m] < n);
                assert(head[q[m]] == given[q[m]]);
            }
        }
        assert forall|k: int| 0 <= k < given.len() implies (#[trigger] a.contains(k)
            <==> text::trimmed(given[k]).len() > 0 && comes_first(present, given, k)) by {
            if k < n {
                assert(head[k] == given[k]);
                assert(p.contains(k) == (text::trimmed(head[k]).len() > 0 && comes_first(
                    present,
                    head,
                    k,
                )));
            }
        }
        assert forall|k: int| 0 <= k < given.len() implies (#[trigger] b.contains(k)
            <==> text::trimmed(given[k]).len() > 0 && !comes_first(present, given, k)) by {
            if k < n {
                assert(head[k] == given[k]);
                assert(q.contains(k) == (text::trimmed(head[k]).len() > 0 && !comes_first(
                    present,
                    head,
                    k,
                )));
            }
        }
        (a, b)
    }
}

/// A text is among the new patterns exactly if it is one of those given, trimmed.
proof fn lemma_fresh_has(present: Seq<Seq<char>>, given: Seq<Seq<char>>, t: Seq<char>)
    requires
        t.len() > 0,
        !present.contains(t),
    ensures
        fresh(present, given).contains(t) <==> exists|i: int|
            0 <= i < given.len() && text::trimmed(#[trigger] given[i]) == t,
    decreases given.len(),
{
    if given.len() > 0 {
        let head = given.drop_last();
        let before = fresh(present, head);
        let u = text::trimmed(given.last());
        lemma_fresh_has(present, head, t);
        if before.contains(t) {
            let i = choose|i: int| 0 <= i < head.len() && text::trimmed(#[trigger] head[i]) == t;
            assert(given[i] == head[i]);
            let m = choose|m: int| 0 <= m < before.len() && before[m] == t;
            assert(before.push(u)[m] == t);
        }
        if u == t {
            assert(given[given.len() - 1] == given.last());
            assert(before.push(u)[before.len() as int] == t);
        } else {
            if fresh(present, given).contains(t) {
                let m = choose|m: int|
                    0 <= m < fresh(present, given).len() && fresh(present, given)[m] == t;
                assert(before[m] == t);
            }
            if exists|i: int| 0 <= i < given.len() && text::trimmed(#[trigger] given[i]) == t {
                let i = choose|i: int|
                    0 <= i < given.len() && text::trimmed(#[trigger] given[i]) == t;
                assert(head[i] == given[i]);
            }
        }
    }
}

/// Of two new patterns, the one that was given first stands first in the text afterwards, each on a
/// line of its own, and both after all lines that were there. `r` are the two lines' numbers.
pub proof fn law_new_patterns_stand_in_the_given_order(
    ignore: Seq<char>,
    given: Seq<Seq<char>>,
    i: int,
    j: int,
) -> (r: (int, int))
    requires
        0 <= i < j < given.len(),
        text::trimmed(given[i]).len() > 0,
        text::trimmed(given[j]).len() > 0,
        comes_first(ignore_rules::patterns_of(text::lines(ignore)), given, i),
        comes_first(ignore_rules::patterns_of(text::lines(ignore)), given, j),
        forall|k: int| 0 <= k < given.len() ==> !(#[trigger] given[k]).contains('\n'),
    ensures
        ({
            let after = text::lines(
                appended(
                    ignore,
                    fresh(ignore_rules::patterns_of(text::lines(ignore)), given),
                ),
            );
            &&& text::lines(ignore).len() <= r.0 < r.1 < after.len()
            &&& after[r.0] == text::trimmed(given[i])
            &&& after[r.1] == text::trimmed(given[j])
        }),
{
    let present = ignore_rules::patterns_of(text::lines(ignore));
    let new = fresh(present, given);
    let (p, q) = law_added_patterns_keep_their_order(present, given);
    assert(p.contains(i) && p.contains(j));
    let a = choose|a: int| 0 <= a < p.len() && p[a] == i;
    let b = choose|b: int| 0 <= b < p.len() && p[b] == j;
    if b < a {
        assert(p[b] < p[a]);
    }
    assert forall|m: int| 0 <= m < new.len() implies !(#[trigger] new[m]).contains('\n')
        && text::without_return(new[m]) == new[m] by {
        let g = given[p[m]];
        assert(0 <= p[m] < given.len());
        let (x, y) = text::law_trimmed_text_is_the_middle(g);
        assert(new[m] == text::trimmed(g));
        if new[m].contains('\n') {
            let k = choose|k: int| 0 <= k < new[m].len() && new[m][k] == '\n';
            assert(g[x.len() + k] == '\n');
            assert(g.contains('\n'));
        }
        assert(text::is_space('\r'));
    }
    law_appending_keeps_what_is_there(ignore, new);
    let n = text::lines(ignore).len() as int;
    let after = text::lines(appended(ignore, new));
    assert(after[n + a] == text::without_return((text::lines(ignore) + new)[n + a]));
    assert(after[n + b] == text::without_return((text::lines(ignore) + new)[n + b]));
    assert(new[a] == text::trimmed(given[p[a]]));
    assert(new[b] == text::trimmed(given[p[b]]));
    (n + a, n + b)
}

/// Whether an imported line stays: it is blank or a comment, or a pattern that was neither known nor
/// on a line before it.
pub open spec fn is_taken_over(known: Seq<Seq<char>>, ls: Seq<Seq<char>>, k: int) -> bool {
    ||| text::trimmed(ls[k]).len() == 0
    ||| text::trimmed(ls[k])[0] == '#'
    ||| comes_first(known, ls, k)
}

/// Imported lines keep their order: the `m`th line to append is the line `place[m]` of those
/// imported, as it is if it is blank or a comment, and trimmed if it is a pattern. Each line is taken
/// over or counted as skipped.
pub proof fn law_imported_lines_keep_their_order(
    known: Seq<Seq<char>>,
    ls: Seq<Seq<char>>,
) -> (place: Seq<int>)
    ensures
        ascending(place, ls.len() as int),
        place.len() == import_lines(known, ls).lines.len(),
        forall|m: int|
            0 <= m < place.len() ==> import_lines(known, ls).lines[m] == (if text::trimmed(
                ls[#[trigger] place[m]],
            ).len() == 0 || text::trimmed(ls[place[m]])[0] == '#' {
                ls[place[m]]
            } else {
                text::trimmed(ls[place[m]])
            }),
        forall|k: int|
            0 <= k < ls.len() ==> (#[trigger] place.contains(k) <==> is_taken_over(known, ls, k)),
        import_lines(known, ls).lines.len() + import_lines(known, ls).skipped == ls.len(),
    decreases ls.len(),
{
    if ls.len() == 0 {
        Seq::empty()
    } else {
        let head = ls.drop_last();
        let n = head.len() as int;
        let p = law_imported_lines_keep_their_order(known, head);
        let before = import_lines(known, head);
        let t = text::trimmed(ls.last());
        lemma_one_place_more(p, n);
        if t.len() > 0 && t[0] != '#' {
            lemma_import_knows(known, head, t);
            if before.known.contains(t) {
                if !known.contains(t) {
                    let i = choose|i: int|
                        0 <= i < head.len() && text::trimmed(#[trigger] head[i]) == t;
                    assert(ls[i] == head[i]);
                }
                assert(!comes_first(known, ls, n));
            } else {
                assert forall|i: int| 0 <= i < n implies text::trimmed(#[trigger] ls[i])
                    != text::trimmed(ls[n]) by {
                    assert(head[i] == ls[i]);
                }
                assert(comes_first(known, ls, n));
            }
        }
        let a = if is_taken_over(known, ls, n) {
            p.push(n)
        } else {
            p
        };
        assert forall|m: int| 0 <= m < a.len() implies import_lines(known, ls).lines[m] == (
        if text::trimmed(ls[#[trigger] a[m]]).len() == 0 || text::trimmed(ls[a[m]])[0] == '#' {
            ls[a[m]]
        } else {
            text::trimmed(ls[a[m]])
        }) by {
            if m < p.len() {
                assert(0 <= p[m] < n);
                assert(head[p[m]] == ls[p[m]]);
            }
        }
        assert forall|k: int| 0 <= k < ls.len() implies (#[trigger] a.contains(k) <==> is_taken_over(
            known,
            ls,
            k,
        )) by {
            if k < n {
                assert(head[k] == ls[k]);
                if comes_first(known, head, k) {
                    assert forall|i: int| 0 <= i < k implies text::trimmed(#[trigger] ls[i])
                        != text::trimmed(ls[k]) by {
                        assert(head[i] == ls[i]);
                    }
                }
                if comes_first(known, ls, k) {
                    assert forall|i: int| 0 <= i < k implies text::trimmed(#[trigger] head[i])
                        != text::trimmed(head[k]) by {
                        assert(head[i] == ls[i]);
                    }
                }
                assert(p.contains(k) == is_taken_over(known, head, k));
            }
        }
        a
    }
}

/// A pattern is known after an import exactly if it was known before or is on one of the lines.
proof fn lemma_import_knows(known: Seq<Seq<char>>, ls: Seq<Seq<char>>, t: Seq<char>)
    requires
        t.len() > 0,
        t[0] != '#',
    ensures
        import_lines(known, ls).known.contains(t) <==> known.contains(t) || exists|i: int|
            0 <= i < ls.len() && text::trimmed(#[trigger] ls[i]) == t,
    decreases ls.len(),
{
    if ls.len() > 0 {
        let head = ls.drop_last();
        let before = import_lines(known, head);
        let after = import_lines(known, ls);
        let u = text::trimmed(ls.last());
        lemma_import_knows(known, head, t);
        if before.known.contains(t) {
            let m = choose|m: int| 0 <= m < before.known.len() && before.known[m] == t;
            assert(after.known[m] == t);
            if !known.contains(t) {
                let i = choose|i: int|
                    0 <= i < head.len() && text::trimmed(#[trigger] head[i]) == t;
                assert(ls[i] == head[i]);
            }
        }
        if u == t {
            assert(ls[ls.len() - 1] == ls.last());
            if !before.known.contains(t) {
                assert(after.known[before.known.len() as int] == t);
            }
        } else {
            if after.known.contains(t) {
                let m = choose|m: int| 0 <= m < after.known.len() && after.known[m] == t;
                assert(before.known[m] == t);
            }
            if exists|i: int| 0 <= i < ls.len() && text::trimmed(#[trigger] ls[i]) == t {
                let i = choose|i: int| 0 <= i < ls.len() && text::trimmed(#[trigger] ls[i]) == t;
                assert(head[i] == ls[i]);
            }
        }
    }
}

/// Importing several files is importing their lines one file after the other: the order of the files
/// is the order of their lines, and the counts add up.
pub proof fn law_files_are_imported_one_after_the_other(
    known: Seq<Seq<char>>,
    files: Seq<Seq<char>>,
    one: Seq<char>,
    other: Seq<char>,
)
    ensures
        import_files(known, files.push(one)).lines == import_files(known, files).lines
            + import_lines(import_files(known, files).known, text::lines(one)).lines,
        import_files(known, files.push(one)).known == import_lines(
            import_files(known, files).known,
            text::lines(one),
        ).known,
        import_files(known, files.push(one)).imported == import_files(known, files).imported
            + import_lines(import_files(known, files).known, text::lines(one)).imported,
        import_files(known, files.push(one)).skipped == import_files(known, files).skipped
            + import_lines(import_files(known, files).known, text::lines(one)).skipped,
        import_files(known, seq![one]) == import_lines(known, text::lines(one)),
        import_files(known, seq![one, other]).lines == import_lines(
            known,
            text::lines(one) + text::lines(other),
        ).lines,
        import_files(known, seq![one, other]).imported == import_lines(
            known,
            text::lines(one) + text::lines(other),
        ).imported,
        import_files(known, seq![one, other]).skipped == import_lines(
            known,
            text::lines(one) + text::lines(other),
        ).skipped,
{
    assert(files.push(one).drop_last() =~= files);
    let single = seq![one];
    let none = Seq::<Seq<char>>::empty();
    assert(single.drop_last() =~= none);
    assert(import_files(known, none).known == known);
    assert(import_files(known, single) =~= import_lines(known, text::lines(one)));
    let both = seq![one, other];
    assert(both.drop_last() =~= single);
    lemma_import_split(known, text::lines(one), text::lines(other));
}

proof fn lemma_import_split(known: Seq<Seq<char>>, a: Seq<Seq<char>>, b: Seq<Seq<char>>)
    ensures
        ({
            let first = import_lines(known, a);
            let second = import_lines(first.known, b);
            let all = import_lines(known, a + b);
            &&& all.lines == first.lines + second.lines
            &&& all.known == second.known
            &&& all.imported == first.imported + second.imported
            &&& all.skipped == first.skipped + second.skipped
        }),
    decreases b.len(),
{
    let first = import_lines(known, a);
    if b.len() == 0 {
        assert(a + b =~= a);
        assert(first.lines + import_lines(first.known, b).lines =~= first.lines);
    } else {
        lemma_import_split(known, a, b.drop_last());
        assert((a + b).drop_last() =~= a + b.drop_last());
        assert((a + b).last() == b.last());
        assert(import_lines(known, a + b).lines =~= first.lines + import_lines(
            first.known,
            b,
        ).lines);
    }
}

/// Each file has its line in the report, in the order of the files: its name and how many of its
/// patterns are new and how many are not.
pub proof fn law_every_file_is_reported(
    known: Seq<Seq<char>>,
    names: Seq<Seq<char>>,
    files: Seq<Seq<char>>,
    i: int,
)
    requires
        0 <= i < files.len(),
    ensures
        import_report(known, names, files).len() == files.len(),
        import_report(known, names, files)[i] == names[i] + ": "@ + text::decimal(
            import_lines(
                import_files(known, files.take(i)).known,
                text::lines(files[i]),
            ).imported,
        ) + " imported, "@ + text::decimal(
            import_lines(
                import_files(known, files.take(i)).known,
                text::lines(files[i]),
            ).skipped,
        ) + " already present"@,
    decreases files.len(),
{
    let head = files.drop_last();
    if i < head.len() {
        law_every_file_is_reported(known, names, head, i);
        assert(head.take(i) =~= files.take(i));
        assert(head[i] == files[i]);
    } else {
        assert(files.take(i) =~= head);
        if head.len() > 0 {
            law_every_file_is_reported(known, names, head, 0);
        }
        assert(import_report(known, names, head).len() == head.len());
    }
}

/// Whether the `k`th line stays when the entries with the chosen numbers go: it is blank, or its
/// number among the lines that are not blank was not chosen.
pub open spec fn is_spared(ls: Seq<Seq<char>>, chosen: Seq<usize>, k: int) -> bool {
    ||| text::trimmed(ls[k]).len() == 0
    ||| !chosen.contains(entries_of(ls.take(k)).len() as usize)
}

/// The entries are the lines that are not blank, as they are and in their order; what stays after a
/// removal are the spared lines, as they are and in their order, and what goes are the others. The
/// `m`th entry is the line `r.0[m]`, the `m`th line that stays is `r.1[m]`, and the `m`th that goes
/// is `r.2[m]`.
pub proof fn law_remaining_lines_keep_their_order(
    ls: Seq<Seq<char>>,
    chosen: Seq<usize>,
) -> (r: (Seq<int>, Seq<int>, Seq<int>))
    ensures
        ascending(r.0, ls.len() as int),
        ascending(r.1, ls.len() as int),
        ascending(r.2, ls.len() as int),
        r.0.len() == entries_of(ls).len(),
        r.1.len() == kept(ls, chosen).len(),
        r.2.len() == removed(ls, chosen).len(),
        forall|m: int| 0 <= m < r.0.len() ==> entries_of(ls)[m] == ls[#[trigger] r.0[m]],
        forall|m: int| 0 <= m < r.1.len() ==> kept(ls, chosen)[m] == ls[#[trigger] r.1[m]],
        forall|m: int| 0 <= m < r.2.len() ==> removed(ls, chosen)[m] == ls[#[trigger] r.2[m]],
        forall|k: int|
            0 <= k < ls.len() ==> (#[trigger] r.0.contains(k) <==> text::trimmed(ls[k]).len() > 0),
        forall|k: int|
            0 <= k < ls.len() ==> (#[trigger] r.1.contains(k) <==> is_spared(ls, chosen, k)),
        forall|k: int|
            0 <= k < ls.len() ==> (#[trigger] r.2.contains(k) <==> !is_spared(ls, chosen, k)),
    decreases ls.len(),
{
    if ls.len() == 0 {
        (Seq::empty(), Seq::empty(), Seq::empty())
    } else {
        let head = ls.drop_last();
        let n = head.len() as int;
        let (p, q, s) = law_remaining_lines_keep_their_order(head, chosen);
        lemma_one_place_more(p, n);
        lemma_one_place_more(q, n);
        lemma_one_place_more(s, n);
        assert(ls.take(n) =~= head);
        let blank = text::trimmed(ls[n]).len() == 0;
        let a = if blank {
            p
        } else {
            p.push(n)
        };
        let b = if is_spared(ls, chosen, n) {
            q.push(n)
        } else {
            q
        };
        let c = if is_spared(ls, chosen, n) {
            s
        } else {
            s.push(n)
        };
        assert forall|k: int| 0 <= k < n implies #[trigger] is_spared(ls, chosen, k) == is_spared(
            head,
            chosen,
            k,
        ) by {
            assert(head[k] == ls[k]);
            assert(head.take(k) =~= ls.take(k));
        }
        assert forall|m: int| 0 <= m < a.len() implies entries_of(ls)[m] == ls[#[trigger] a[m]] by {
            if m < p.len() {
                assert(0 <= p[m] < n);
                assert(head[p[m]] == ls[p[m]]);
            }
        }
        assert forall|m: int| 0 <= m < b.len() implies kept(ls, chosen)[m] == ls[#[trigger] b[m]] by {
            if m < q.len() {
                assert(0 <= q[m] < n);
                assert(head[q[m]] == ls[q[m]]);
            }
        }
        assert forall|m: int| 0 <= m < c.len() implies removed(ls, chosen)[m]
            == ls[#[trigger] c[m]] by {
            if m < s.len() {
                assert(0 <= s[m] < n);
                assert(head[s[m]] == ls[s[m]]);
            }
        }
        assert forall|k: int| 0 <= k < ls.len() implies (#[trigger] a.contains(k) <==> text::trimmed(
            ls[k],
        ).len() > 0) by {
            if k < n {
                assert(head[k] == ls[k]);
                assert(p.contains(k) == (text::trimmed(head[k]).len() > 0));
            }
        }
        assert forall|k: int| 0 <= k < ls.len() implies (#[trigger] b.contains(k) <==> is_spared(
            ls,
            chosen,
            k,
        )) by {
            if k < n {
                assert(q.contains(k) == is_spared(head, chosen, k));
            }
        }
        assert forall|k: int| 0 <= k < ls.len() implies (#[trigger] c.contains(k) <==> !is_spared(
            ls,
            chosen,
            k,
        )) by {
            if k < n {
                assert(s.contains(k) == !is_spared(head, chosen, k));
            }
        }
        (a, b, c)
    }
}

/// A report names every text after the same words, in order.
pub proof fn law_every_text_is_labelled(label: Seq<char>, list: Seq<Seq<char>>, i: int)
    requires
        0 <= i < list.len(),
    ensures
        labelled(label, list).len() == list.len(),
        labelled(label, list)[i] == label + list[i],
{
}

} // verus!
