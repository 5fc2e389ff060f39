//! Ignore files: one literal entry per line, `#` lines are comments. An
//! entry excludes the path it names and every path below it.
use vstd::prelude::*;

use crate::paths::{check_for_file_in_folder, is_under};
use crate::text::{chars_contain, chars_of, contains, lines, lines_of, trim, trimmed, views};

verus! {

/// The entry that one line of an ignore file holds: none for a comment
/// (first character `#`) or a blank line, else the line trimmed.
pub open spec fn ignore_entry(l: Seq<char>) -> Option<Seq<char>> {
    if l.len() > 0 && l[0] == '#' {
        None
    } else if trim(l).len() == 0 {
        None
    } else {
        Some(trim(l))
    }
}

/// The entries of the lines `ls`, in order.
pub open spec fn entries_of(ls: Seq<Seq<char>>) -> Seq<Seq<char>>
    decreases ls.len(),
{
    if ls.len() == 0 {
        Seq::empty()
    } else {
        let r = entries_of(ls.drop_last());
        match ignore_entry(ls.last()) {
            Some(e) => r.push(e),
            None => r,
        }
    }
}

/// `file` is named by one of `rules` or lies below one of them.
pub open spec fn excluded(file: Seq<char>, rules: Seq<Seq<char>>) -> bool {
    rules.contains(file) || exists|i: int| 0 <= i < rules.len() && is_under(file, #[trigger] rules[i])
}

/// The files that `rules` do not exclude, in order.
pub open spec fn kept_files(files: Seq<Seq<char>>, rules: Seq<Seq<char>>) -> Seq<Seq<char>>
    decreases files.len(),
{
    if files.len() == 0 {
        Seq::empty()
    } else {
        let r = kept_files(files.drop_last(), rules);
        if excluded(files.last(), rules) {
            r
        } else {
            r.push(files.last())
        }
    }
}

/// The paths that `content` does not mention yet, in order.
pub open spec fn missing_from(content: Seq<char>, paths: Seq<Seq<char>>) -> Seq<Seq<char>>
    decreases paths.len(),
{
    if paths.len() == 0 {
        Seq::empty()
    } else {
        let r = missing_from(content, paths.drop_last());
        if contains(content, paths.last()) {
            r
        } else {
            r.push(paths.last())
        }
    }
}

/// The entries of the text of an ignore file: every line that is not a
/// comment and not blank, trimmed, in the order of the file.
pub fn ignore_entries(text: &str) -> (r: Vec<String>)
    ensures
        views(r@) == entries_of(lines_of(text@)),
{
    let ls = lines(text);
    let ghost all = views(ls@);
    let mut out: Vec<String> = Vec::new();
    let mut i: usize = 0;
    assert(all.take(0) =~= Seq::<Seq<char>>::empty());
    assert(views(out@) =~= Seq::<Seq<char>>::empty());
    while i < ls.len()
        invariant
            all == views(ls@),
            all == lines_of(text@),
            i <= ls@.len(),
            views(out@) == entries_of(all.take(i as int)),
        decreases ls@.len() - i,
    {
        let ghost before = views(out@);
        assert(all.take(i + 1).drop_last() =~= all.take(i as int));
        assert(all.take(i + 1).last() == ls@[i as int]@);
        let line = ls[i].as_str();
        let comment = line.unicode_len() > 0 && line.get_char(0) == '#';
        if !comment {
            let t = trimmed(line);
            if t.unicode_len() > 0 {
                out.push(t);
                assert(views(out@) =~= before.push(trim(ls@[i as int]@)));
            }
        }
        i = i + 1;
    }
    assert(all.take(i as int) =~= all);
    out
}

/// Whether `exclusions` exclude `file`: it is one of them, or one of them is
/// a folder that holds it.
pub fn is_excluded(file: &str, exclusions: &Vec<String>) -> (r: bool)
    ensures
        r == excluded(file@, views(exclusions@)),
{
    let owned = String::from_str(file);
    let ghost rules = views(exclusions@);
    let mut k: usize = 0;
    while k < exclusions.len()
        invariant
            owned@ == file@,
            rules == views(exclusions@),
            k <= exclusions@.len(),
            forall|m: int| 0 <= m < k ==> rules[m] != file@ && !is_under(file@, #[trigger] rules[m]),
        decreases exclusions@.len() - k,
    {
        assert(rules[k as int] == exclusions@[k as int]@);
        if exclusions[k] == owned || check_for_file_in_folder(file, exclusions[k].as_str()) {
            assert(rules.contains(file@) || is_under(file@, rules[k as int]));
            return true;
        }
        k = k + 1;
    }
    assert(!rules.contains(file@)) by {
        if rules.contains(file@) {
            let m = choose|m: int| 0 <= m < rules.len() && rules[m] == file@;
            assert(rules[m] != file@);
        }
    }
    false
}

/// The paths that `exclusions` do not exclude, in their order.
pub fn filter_excluded(paths: &Vec<String>, exclusions: &Vec<String>) -> (r: Vec<String>)
    ensures
        views(r@) == kept_files(views(paths@), views(exclusions@)),
{
    let ghost all = views(paths@);
    let mut out: Vec<String> = Vec::new();
    let mut i: usize = 0;
    assert(all.take(0) =~= Seq::<Seq<char>>::empty());
    assert(views(out@) =~= Seq::<Seq<char>>::empty());
    while i < paths.len()
        invariant
            all == views(paths@),
            i <= paths@.len(),
            views(out@) == kept_files(all.take(i as int), views(exclusions@)),
        decreases paths@.len() - i,
    {
        let ghost before = views(out@);
        assert(all.take(i + 1).drop_last() =~= all.take(i as int));
        assert(all.take(i + 1).last() == paths@[i as int]@);
        if !is_excluded(paths[i].as_str(), exclusions) {
            out.push(paths[i].clone());
            assert(views(out@) =~= before.push(paths@[i as int]@));
        }
        i = i + 1;
    }
    assert(all.take(i as int) =~= all);
    out
}

/// The paths that `content`, the text of an exclude file, does not mention
/// anywhere yet: the lines to append to it, in order.
pub fn exclude_additions(content: &str, paths: &Vec<String>) -> (r: Vec<String>)
    ensures
        views(r@) == missing_from(content@, views(paths@)),
{
    let text = chars_of(content);
    let ghost all = views(paths@);
    let mut out: Vec<String> = Vec::new();
    let mut i: usize = 0;
    assert(all.take(0) =~= Seq::<Seq<char>>::empty());
    assert(views(out@) =~= Seq::<Seq<char>>::empty());
    while i < paths.len()
        invariant
            text@ == content@,
            all == views(paths@),
            i <= paths@.len(),
            views(out@) == missing_from(content@, all.take(i as int)),
        decreases paths@.len() - i,
    {
        let ghost before = views(out@);
        assert(all.take(i + 1).drop_last() =~= all.take(i as int));
        assert(all.take(i + 1).last() == paths@[i as int]@);
        let p = chars_of(paths[i].as_str());
        if !chars_contain(&text, &p) {
            out.push(paths[i].clone());
            assert(views(out@) =~= before.push(paths@[i as int]@));
        }
        i = i + 1;
    }
    assert(all.take(i as int) =~= all);
    out
}

} // verus!
