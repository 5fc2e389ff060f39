//! Porcelain status lines: each is two status codes, whitespace and a path.
//! A line names a changed file, a deleted file, or nothing; the deletion
//! rule is tried first, so that no line lands in both lists.
use vstd::prelude::*;

use crate::text::{
    char_is_space, chars_of, is_space, lines, lines_of, slice_string, views,
};

verus! {

/// An ASCII upper-case letter.
pub open spec fn is_upper(c: char) -> bool {
    0x41 <= (c as u32) <= 0x5A
}

/// Index codes of a changed file: modified, type changed, added, renamed,
/// copied, updated but unmerged.
pub open spec fn is_change_code(c: char) -> bool {
    c == 'M' || c == 'T' || c == 'A' || c == 'R' || c == 'C' || c == 'U'
}

/// Work-tree codes that may follow a change code.
pub open spec fn is_second_code(c: char) -> bool {
    is_upper(c) || c == '?' || c == '!' || c == ' '
}

/// The changed-file rule: a change code, a second code, then a run of
/// whitespace; the path is the rest of the line, taken verbatim.
pub open spec fn changed_path(l: Seq<char>) -> Option<Seq<char>> {
    if l.len() >= 3 && is_change_code(l[0]) && is_second_code(l[1]) && is_space(l[2]) {
        Some(l.skip(2 + leading_spaces(l.skip(2)) as int))
    } else {
        None
    }
}

/// Characters that a deleted path may hold.
pub open spec fn is_path_char(c: char) -> bool {
    let u = c as u32;
    ||| 0x41 <= u <= 0x5A
    ||| 0x61 <= u <= 0x7A
    ||| 0x30 <= u <= 0x39
    ||| c == '/'
    ||| c == '_'
    ||| c == '-'
    ||| c == '.'
}

/// The number of whitespace characters that `t` starts with.
pub open spec fn leading_spaces(t: Seq<char>) -> nat
    decreases t.len(),
{
    if t.len() > 0 && is_space(t[0]) {
        1 + leading_spaces(t.drop_first())
    } else {
        0
    }
}

/// At least one whitespace character, then nothing but path characters:
/// the path that follows.
pub open spec fn spaced_path(t: Seq<char>) -> Option<Seq<char>> {
    let k = leading_spaces(t) as int;
    if k >= 1 && (forall|i: int| k <= i < t.len() ==> is_path_char(#[trigger] t[i])) {
        Some(t.skip(k))
    } else {
        None
    }
}

/// The deleted-file rule: a work-tree code `D` after a blank or upper-case
/// index code, then whitespace and a path of path characters. A `D` in the
/// index column alone does not count.
pub open spec fn deleted_path(l: Seq<char>) -> Option<Seq<char>> {
    if l.len() >= 2 && l[1] == 'D' && (is_space(l[0]) || is_upper(l[0])) {
        spaced_path(l.skip(2))
    } else {
        None
    }
}

/// What one status line says.
pub enum LineKind {
    Changed(Seq<char>),
    Deleted(Seq<char>),
    Skipped,
}

/// What the line `l` says; the deletion rule is tried first.
pub open spec fn line_kind(l: Seq<char>) -> LineKind {
    match deleted_path(l) {
        Some(p) => LineKind::Deleted(p),
        None => match changed_path(l) {
            Some(p) => LineKind::Changed(p),
            None => LineKind::Skipped,
        },
    }
}

/// The changed paths that `ls` names, in order.
pub open spec fn changed_files(ls: Seq<Seq<char>>) -> Seq<Seq<char>>
    decreases ls.len(),
{
    if ls.len() == 0 {
        Seq::empty()
    } else {
        let r = changed_files(ls.drop_last());
        match line_kind(ls.last()) {
            LineKind::Changed(p) => r.push(p),
            _ => r,
        }
    }
}

/// The deleted paths that `ls` names, in order.
pub open spec fn deleted_files(ls: Seq<Seq<char>>) -> Seq<Seq<char>>
    decreases ls.len(),
{
    if ls.len() == 0 {
        Seq::empty()
    } else {
        let r = deleted_files(ls.drop_last());
        match line_kind(ls.last()) {
            LineKind::Deleted(p) => r.push(p),
            _ => r,
        }
    }
}

/// One decoded status line.
pub enum StatusLine {
    Changed(String),
    Deleted(String),
    Skipped,
}

impl View for StatusLine {
    type V = LineKind;

    open spec fn view(&self) -> LineKind {
        match self {
            StatusLine::Changed(p) => LineKind::Changed(p@),
            StatusLine::Deleted(p) => LineKind::Deleted(p@),
            StatusLine::Skipped => LineKind::Skipped,
        }
    }
}

fn char_is_upper(c: char) -> (r: bool)
    ensures
        r == is_upper(c),
{
    0x41 <= (c as u32) && (c as u32) <= 0x5A
}

fn char_is_path(c: char) -> (r: bool)
    ensures
        r == is_path_char(c),
{
    let u = c as u32;
    (0x41 <= u && u <= 0x5A) || (0x61 <= u && u <= 0x7A) || (0x30 <= u && u <= 0x39) || c == '/'
        || c == '_' || c == '-' || c == '.'
}

/// The end of the run of whitespace that starts at `from`.
fn skip_spaces(c: &Vec<char>, from: usize) -> (r: usize)
    requires
        from <= c@.len(),
    ensures
        r == from + leading_spaces(c@.skip(from as int)),
        r <= c@.len(),
{
    let n = c.len();
    let mut j: usize = from;
    while j < n && char_is_space(c[j])
        invariant
            n == c@.len(),
            from <= j <= n,
            leading_spaces(c@.skip(from as int)) == (j - from) + leading_spaces(c@.skip(j as int)),
        decreases n - j,
    {
        assert(c@.skip(j as int).drop_first() =~= c@.skip(j + 1));
        j = j + 1;
    }
    assert(leading_spaces(c@.skip(j as int)) == 0);
    j
}

/// Where the path of `spaced_path(c@.skip(from))` starts, if there is one.
fn spaced_path_at(c: &Vec<char>, from: usize) -> (r: Option<usize>)
    requires
        from <= c@.len(),
    ensures
        match r {
            Some(k) => from <= k <= c@.len() && spaced_path(c@.skip(from as int)) == Some(
                c@.skip(k as int),
            ),
            None => spaced_path(c@.skip(from as int)) is None,
        },
{
    let n = c.len();
    let j = skip_spaces(c, from);
    let ghost t = c@.skip(from as int);
    if j == from {
        assert(leading_spaces(t) == 0);
        assert(spaced_path(t) is None);
        return None;
    }
    let mut i: usize = j;
    while i < n
        invariant
            n == c@.len(),
            from < j <= i <= n,
            t == c@.skip(from as int),
            leading_spaces(t) == j - from,
            forall|m: int| j <= m < i ==> is_path_char(#[trigger] c@[m]),
        decreases n - i,
    {
        if !char_is_path(c[i]) {
            assert(t[i - from] == c@[i as int]);
            assert(!is_path_char(t[i - from]));
            assert(spaced_path(t) is None);
            return None;
        }
        i = i + 1;
    }
    assert forall|m: int| (j - from) <= m < t.len() implies is_path_char(#[trigger] t[m]) by {
        assert(t[m] == c@[m + from]);
    }
    assert(t.skip(j - from) =~= c@.skip(j as int));
    Some(j)
}

/// Decodes one status line.
pub fn classify_line(line: &str) -> (r: StatusLine)
    ensures
        r@ == line_kind(line@),
{
    let c = chars_of(line);
    let n = c.len();
    assert(c@.skip(0) =~= c@);
    if n >= 2 && c[1] == 'D' && (char_is_space(c[0]) || char_is_upper(c[0])) {
        if let Some(k) = spaced_path_at(&c, 2) {
            return StatusLine::Deleted(slice_string(line, k, n));
        }
    }
    let first_ok = n >= 3 && (c[0] == 'M' || c[0] == 'T' || c[0] == 'A' || c[0] == 'R' || c[0]
        == 'C' || c[0] == 'U');
    if first_ok && (char_is_upper(c[1]) || c[1] == '?' || c[1] == '!' || c[1] == ' ')
        && char_is_space(c[2]) {
        let k = skip_spaces(&c, 2);
        return StatusLine::Changed(slice_string(line, k, n));
    }
    StatusLine::Skipped
}

/// Splits a porcelain status report into the changed paths and the deleted
/// paths that its lines name, each list in the order of the lines.
pub fn parse_changes(raw_status: &str) -> (r: (Vec<String>, Vec<String>))
    ensures
        views(r.0@) == changed_files(lines_of(raw_status@)),
        views(r.1@) == deleted_files(lines_of(raw_status@)),
{
    let ls = lines(raw_status);
    let ghost all = views(ls@);
    let mut changed: Vec<String> = Vec::new();
    let mut deleted: Vec<String> = Vec::new();
    let mut i: usize = 0;
    assert(all.take(0) =~= Seq::<Seq<char>>::empty());
    assert(views(changed@) =~= Seq::<Seq<char>>::empty());
    assert(views(deleted@) =~= Seq::<Seq<char>>::empty());
    while i < ls.len()
        invariant
            all == views(ls@),
            all == lines_of(raw_status@),
            i <= ls@.len(),
            views(changed@) == changed_files(all.take(i as int)),
            views(deleted@) == deleted_files(all.take(i as int)),
        decreases ls@.len() - i,
    {
        let ghost before_c = views(changed@);
        let ghost before_d = views(deleted@);
        assert(all.take(i + 1).drop_last() =~= all.take(i as int));
        assert(all.take(i + 1).last() == ls@[i as int]@);
        match classify_line(ls[i].as_str()) {
            StatusLine::Changed(p) => {
                changed.push(p);
                assert(views(changed@) =~= before_c.push(p@));
            },
            StatusLine::Deleted(p) => {
                deleted.push(p);
                assert(views(deleted@) =~= before_d.push(p@));
            },
            StatusLine::Skipped => {},
        }
        i = i + 1;
    }
    assert(all.take(i as int) =~= all);
    (changed, deleted)
}

/// The changed (modified, added, renamed, copied, unmerged) paths of a
/// status report, in order.
pub fn process_git_status(message: &str) -> (r: Vec<String>)
    ensures
        views(r@) == changed_files(lines_of(message@)),
{
    parse_changes(message).0
}

/// The deleted paths of a status report, in order.
pub fn process_deteted_files(message: &str) -> (r: Vec<String>)
    ensures
        views(r@) == deleted_files(lines_of(message@)),
{
    parse_changes(message).1
}

/// Codes that the completion list accepts in either position.
pub open spec fn is_listed_code(c: char) -> bool {
    c == 'M' || c == 'A' || c == 'R' || c == 'C' || c == 'U' || c == '?' || c == ' '
}

/// The path that a line offers for completion: two listed codes, one
/// whitespace character and the path. No listed code is `D`, so a line
/// whose status marks its file deleted offers nothing.
pub open spec fn listed_path(l: Seq<char>) -> Option<Seq<char>> {
    if l.len() >= 3 && is_listed_code(l[0]) && is_listed_code(l[1]) && is_space(l[2]) {
        Some(l.skip(3))
    } else {
        None
    }
}

/// The distinct paths that `ls` offers for completion, each where it first
/// appears.
pub open spec fn listed_files(ls: Seq<Seq<char>>) -> Seq<Seq<char>>
    decreases ls.len(),
{
    if ls.len() == 0 {
        Seq::empty()
    } else {
        let r = listed_files(ls.drop_last());
        match listed_path(ls.last()) {
            Some(p) => if r.contains(p) {
                r
            } else {
                r.push(p)
            },
            None => r,
        }
    }
}

/// Whether `v` holds a string equal to `p`.
pub fn holds_string(v: &Vec<String>, p: &String) -> (r: bool)
    ensures
        r == views(v@).contains(p@),
{
    let mut k: usize = 0;
    while k < v.len()
        invariant
            k <= v@.len(),
            forall|m: int| 0 <= m < k ==> views(v@)[m] != p@,
        decreases v@.len() - k,
    {
        if v[k] == *p {
            assert(views(v@)[k as int] == p@);
            return true;
        }
        k = k + 1;
    }
    false
}

fn is_listed_char(c: char) -> (r: bool)
    ensures
        r == is_listed_code(c),
{
    c == 'M' || c == 'A' || c == 'R' || c == 'C' || c == 'U' || c == '?' || c == ' '
}

/// The path that `line` offers for completion, as `listed_path` states it.
pub fn listed_path_of(line: &str) -> (r: Option<String>)
    ensures
        match r {
            Some(p) => listed_path(line@) == Some(p@),
            None => listed_path(line@) is None,
        },
{
    let c = chars_of(line);
    let n = c.len();
    if n >= 3 && is_listed_char(c[0]) && is_listed_char(c[1]) && char_is_space(c[2]) {
        Some(slice_string(line, 3, n))
    } else {
        None
    }
}

/// The status codes of `l` mark its file deleted: a `D` in either column.
pub open spec fn marks_deletion(l: Seq<char>) -> bool {
    (l.len() > 0 && l[0] == 'D') || (l.len() > 1 && l[1] == 'D')
}

/// Whether the status codes of `line` mark its file deleted.
pub fn is_deletion_line(line: &str) -> (r: bool)
    ensures
        r == marks_deletion(line@),
{
    let n = line.unicode_len();
    (n > 0 && line.get_char(0) == 'D') || (n > 1 && line.get_char(1) == 'D')
}

/// The distinct files of a status report that are not marked deleted, for
/// shell completion, each where it first appears.
pub fn status_files(status: &str) -> (r: Vec<String>)
    ensures
        views(r@) == listed_files(lines_of(status@)),
{
    let ls = lines(status);
    let ghost all = views(ls@);
    let mut out: Vec<String> = Vec::new();
    let mut i: usize = 0;
    assert(all.take(0) =~= Seq::<Seq<char>>::empty());
    assert(views(out@) =~= Seq::<Seq<char>>::empty());
    while i < ls.len()
        invariant
            all == views(ls@),
            all == lines_of(status@),
            i <= ls@.len(),
            views(out@) == listed_files(all.take(i as int)),
        decreases ls@.len() - i,
    {
        let ghost before = views(out@);
        assert(all.take(i + 1).drop_last() =~= all.take(i as int));
        assert(all.take(i + 1).last() == ls@[i as int]@);
        if let Some(p) = listed_path_of(ls[i].as_str()) {
            if !holds_string(&out, &p) {
                out.push(p);
                assert(views(out@) =~= before.push(p@));
            }
        }
        i = i + 1;
    }
    assert(all.take(i as int) =~= all);
    out
}

/// The completion list names no path twice.
pub proof fn lemma_listed_files_distinct(ls: Seq<Seq<char>>)
    ensures
        listed_files(ls).no_duplicates(),
    decreases ls.len(),
{
    if ls.len() > 0 {
        lemma_listed_files_distinct(ls.drop_last());
        let r = listed_files(ls.drop_last());
        match listed_path(ls.last()) {
            Some(p) => {
                if !r.contains(p) {
                    assert forall|i: int, j: int|
                        0 <= i < r.push(p).len() && 0 <= j < r.push(p).len() && i != j implies r.push(
                        p,
                    )[i] != r.push(p)[j] by {
                        if i == r.len() {
                            assert(r[j] != p);
                        } else if j == r.len() {
                            assert(r[i] != p);
                        }
                    }
                }
            },
            None => {},
        }
    }
}

/// Changed paths of consecutive runs of lines follow one another.
pub proof fn lemma_changed_files_concat(a: Seq<Seq<char>>, b: Seq<Seq<char>>)
    ensures
        changed_files(a + b) == changed_files(a) + changed_files(b),
    decreases b.len(),
{
    if b.len() == 0 {
        assert(a + b =~= a);
        assert(changed_files(a) + changed_files(b) =~= changed_files(a));
    } else {
        lemma_changed_files_concat(a, b.drop_last());
        assert((a + b).drop_last() =~= a + b.drop_last());
        assert((a + b).last() == b.last());
        match line_kind(b.last()) {
            LineKind::Changed(p) => {
                assert(changed_files(a) + changed_files(b.drop_last()).push(p) =~= (changed_files(a)
                    + changed_files(b.drop_last())).push(p));
            },
            _ => {},
        }
    }
}

/// Deleted paths of consecutive runs of lines follow one another.
pub proof fn lemma_deleted_files_concat(a: Seq<Seq<char>>, b: Seq<Seq<char>>)
    ensures
        deleted_files(a + b) == deleted_files(a) + deleted_files(b),
    decreases b.len(),
{
    if b.len() == 0 {
        assert(a + b =~= a);
        assert(deleted_files(a) + deleted_files(b) =~= deleted_files(a));
    } else {
        lemma_deleted_files_concat(a, b.drop_last());
        assert((a + b).drop_last() =~= a + b.drop_last());
        assert((a + b).last() == b.last());
        match line_kind(b.last()) {
            LineKind::Deleted(p) => {
                assert(deleted_files(a) + deleted_files(b.drop_last()).push(p) =~= (deleted_files(a)
                    + deleted_files(b.drop_last())).push(p));
            },
            _ => {},
        }
    }
}

/// What one line contributes to the two lists.
pub proof fn lemma_single_line(l: Seq<char>)
    ensures
        changed_files(seq![l]) == (match line_kind(l) {
            LineKind::Changed(p) => seq![p],
            _ => Seq::<Seq<char>>::empty(),
        }),
        deleted_files(seq![l]) == (match line_kind(l) {
            LineKind::Deleted(p) => seq![p],
            _ => Seq::<Seq<char>>::empty(),
        }),
{
    let one = seq![l];
    assert(one.len() == 1);
    assert(one.last() == l);
    assert(one.drop_last() =~= Seq::<Seq<char>>::empty());
    assert(changed_files(one.drop_last()) == Seq::<Seq<char>>::empty());
    assert(deleted_files(one.drop_last()) == Seq::<Seq<char>>::empty());
    match line_kind(l) {
        LineKind::Changed(p) => {
            assert(Seq::<Seq<char>>::empty().push(p) =~= seq![p]);
        },
        LineKind::Deleted(p) => {
            assert(Seq::<Seq<char>>::empty().push(p) =~= seq![p]);
        },
        _ => {},
    }
}

/// The lists that a report yields are made line by line: the lines before
/// a given line give their paths first, then that line, then the lines
/// after it, so the order of the report is kept.
pub proof fn lemma_line_contribution(ls: Seq<Seq<char>>, i: int)
    requires
        0 <= i < ls.len(),
    ensures
        changed_files(ls) == changed_files(ls.take(i)) + changed_files(seq![ls[i]])
            + changed_files(ls.skip(i + 1)),
        deleted_files(ls) == deleted_files(ls.take(i)) + deleted_files(seq![ls[i]])
            + deleted_files(ls.skip(i + 1)),
{
    assert(ls =~= ls.take(i) + seq![ls[i]] + ls.skip(i + 1));
    lemma_changed_files_concat(ls.take(i) + seq![ls[i]], ls.skip(i + 1));
    lemma_changed_files_concat(ls.take(i), seq![ls[i]]);
    lemma_deleted_files_concat(ls.take(i) + seq![ls[i]], ls.skip(i + 1));
    lemma_deleted_files_concat(ls.take(i), seq![ls[i]]);
}

/// A line with a blank index code and a work-tree `M` adds nothing to
/// either list: the changed-file rule asks for an index code, and the
/// deletion rule a work-tree `D`.
pub proof fn lemma_worktree_modified_line_ignored(raw: Seq<char>, i: int, p: Seq<char>)
    requires
        0 <= i < lines_of(raw).len(),
        lines_of(raw)[i] == seq![' ', 'M', ' '] + p,
    ensures
        changed_files(lines_of(raw)) == changed_files(lines_of(raw).take(i)) + changed_files(
            lines_of(raw).skip(i + 1),
        ),
        deleted_files(lines_of(raw)) == deleted_files(lines_of(raw).take(i)) + deleted_files(
            lines_of(raw).skip(i + 1),
        ),
{
    let l = seq![' ', 'M', ' '] + p;
    assert(l[1] == 'M');
    assert(l[2] == ' ');
    assert(deleted_path(l) is None);
    assert(changed_path(l) is None);
    lemma_single_line(l);
    lemma_line_contribution(lines_of(raw), i);
    assert(changed_files(lines_of(raw).take(i)) + Seq::<Seq<char>>::empty() =~= changed_files(
        lines_of(raw).take(i),
    ));
    assert(deleted_files(lines_of(raw).take(i)) + Seq::<Seq<char>>::empty() =~= deleted_files(
        lines_of(raw).take(i),
    ));
}

/// A code that marks the path deleted, then a space, then a path of path
/// characters: the line gives exactly that path to the deleted list.
pub proof fn lemma_deleted_code_line(code: char, p: Seq<char>)
    requires
        code == ' ' || is_upper(code),
        forall|k: int| 0 <= k < p.len() ==> is_path_char(#[trigger] p[k]),
    ensures
        line_kind(seq![code, 'D', ' '] + p) == LineKind::Deleted(p),
{
    let l = seq![code, 'D', ' '] + p;
    let t = l.skip(2);
    assert(t =~= seq![' '] + p);
    assert(t.drop_first() =~= p);
    if p.len() > 0 {
        assert(is_path_char(p[0]));
        assert(!is_space(p[0]));
    }
    assert(leading_spaces(p) == 0);
    assert(leading_spaces(t) == 1);
    assert forall|k: int| 1 <= k < t.len() implies is_path_char(#[trigger] t[k]) by {
        assert(t[k] == p[k - 1]);
    }
    assert(t.skip(1) =~= p);
}

/// A line `" D <path>"` or `"<upper>D <path>"`, the path made of path
/// characters, puts that path in the deleted list, at the place of its line
/// among the others.
pub proof fn lemma_deleted_line_listed(raw: Seq<char>, i: int, code: char, p: Seq<char>)
    requires
        code == ' ' || is_upper(code),
        forall|k: int| 0 <= k < p.len() ==> is_path_char(#[trigger] p[k]),
        0 <= i < lines_of(raw).len(),
        lines_of(raw)[i] == seq![code, 'D', ' '] + p,
    ensures
        deleted_files(lines_of(raw)) == deleted_files(lines_of(raw).take(i)) + seq![p]
            + deleted_files(lines_of(raw).skip(i + 1)),
        deleted_files(lines_of(raw)).contains(p),
{
    let ls = lines_of(raw);
    lemma_deleted_code_line(code, p);
    lemma_single_line(ls[i]);
    lemma_line_contribution(ls, i);
    let d = deleted_files(ls);
    let at = deleted_files(ls.take(i)).len() as int;
    assert(d[at] == p);
}

/// Only a line whose work-tree code is `D` gives a deleted path: clean,
/// untracked and malformed lines add nothing to the deleted list.
pub proof fn lemma_deleted_needs_code(l: Seq<char>)
    ensures
        line_kind(l) is Deleted ==> l.len() >= 2 && l[1] == 'D',
{
}

/// A line that a completion list takes is never one marked deleted.
pub proof fn lemma_listed_not_deleted(l: Seq<char>)
    ensures
        listed_path(l) is Some ==> !marks_deletion(l),
{
}

/// Parsing is a function of the text alone: equal texts give equal lists,
/// whenever and however often they are parsed.
pub proof fn lemma_parse_changes_deterministic(a: Seq<char>, b: Seq<char>)
    requires
        a == b,
    ensures
        changed_files(lines_of(a)) == changed_files(lines_of(b)),
        deleted_files(lines_of(a)) == deleted_files(lines_of(b)),
{
}

} // verus!
