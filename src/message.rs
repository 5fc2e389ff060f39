//! The commit message scaffold: a header with the commit number, the type
//! of change and the branch, a section to fill in for each changed file
//! that no ignore entry excludes, and a line for each deleted file.
use vstd::prelude::*;

use crate::ignore::{filter_excluded, kept_files};
use crate::text::views;

verus! {

/// The decimal digit for `d`, which is below ten.
pub open spec fn digit_char(d: nat) -> char {
    if d == 0 {
        '0'
    } else if d == 1 {
        '1'
    } else if d == 2 {
        '2'
    } else if d == 3 {
        '3'
    } else if d == 4 {
        '4'
    } else if d == 5 {
        '5'
    } else if d == 6 {
        '6'
    } else if d == 7 {
        '7'
    } else if d == 8 {
        '8'
    } else {
        '9'
    }
}

/// `n` written in decimal, without leading zeros.
pub open spec fn decimal(n: nat) -> Seq<char>
    decreases n,
{
    if n < 10 {
        seq![digit_char(n)]
    } else {
        decimal(n / 10).push(digit_char(n % 10))
    }
}

/// The first line of the scaffold and the blank lines after it.
pub open spec fn header(number: nat, commit_type: Seq<char>, branch: Seq<char>) -> Seq<char> {
    "["@ + decimal(number) + "] ("@ + commit_type + " on "@ + branch + ")\n\n\n"@
}

/// The section to fill in for a changed file.
pub open spec fn file_section(file: Seq<char>) -> Seq<char> {
    "- `"@ + file + "`:\n\n\t\n\n"@
}

/// The line for a deleted file.
pub open spec fn deleted_line(file: Seq<char>) -> Seq<char> {
    "- `"@ + file + "`: deleted\n\n"@
}

/// The sections of `files`, one after the other.
pub open spec fn file_sections(files: Seq<Seq<char>>) -> Seq<char>
    decreases files.len(),
{
    if files.len() == 0 {
        Seq::empty()
    } else {
        file_sections(files.drop_last()) + file_section(files.last())
    }
}

/// The lines of deleted `files`, one after the other.
pub open spec fn deleted_lines(files: Seq<Seq<char>>) -> Seq<char>
    decreases files.len(),
{
    if files.len() == 0 {
        Seq::empty()
    } else {
        deleted_lines(files.drop_last()) + deleted_line(files.last())
    }
}

/// The whole scaffold.
pub open spec fn scaffold(
    number: nat,
    commit_type: Seq<char>,
    branch: Seq<char>,
    modified: Seq<Seq<char>>,
    deleted: Seq<Seq<char>>,
    ignored: Seq<Seq<char>>,
) -> Seq<char> {
    header(number, commit_type, branch) + file_sections(kept_files(modified, ignored))
        + deleted_lines(deleted)
}

fn digit_str(d: u32) -> (r: &'static str)
    requires
        d < 10,
    ensures
        r@ == seq![digit_char(d as nat)],
{
    proof {
        reveal_strlit("0");
        reveal_strlit("1");
        reveal_strlit("2");
        reveal_strlit("3");
        reveal_strlit("4");
        reveal_strlit("5");
        reveal_strlit("6");
        reveal_strlit("7");
        reveal_strlit("8");
        reveal_strlit("9");
    }
    let r = if d == 0 {
        "0"
    } else if d == 1 {
        "1"
    } else if d == 2 {
        "2"
    } else if d == 3 {
        "3"
    } else if d == 4 {
        "4"
    } else if d == 5 {
        "5"
    } else if d == 6 {
        "6"
    } else if d == 7 {
        "7"
    } else if d == 8 {
        "8"
    } else {
        "9"
    };
    assert(r@ =~= seq![digit_char(d as nat)]);
    r
}

/// Appends `n` in decimal to `out`.
pub fn push_decimal(out: &mut String, n: u32)
    ensures
        final(out)@ == old(out)@ + decimal(n as nat),
    decreases n,
{
    if n >= 10 {
        push_decimal(out, n / 10);
    }
    let ghost mid = out@;
    out.append(digit_str(n % 10));
    if n >= 10 {
        assert(out@ =~= old(out)@ + decimal(n as nat));
    } else {
        assert(out@ =~= old(out)@ + decimal(n as nat));
    }
}

/// The scaffold of a commit message: the header
/// `[<number>] (<type> on <branch>)`, a section for each path of `modified`
/// that `ignored` does not exclude, then a line for each path of `deleted`.
pub fn commit_message(
    commit_number: u32,
    commit_type: &str,
    branch_name: &str,
    modified: &Vec<String>,
    deleted: &Vec<String>,
    ignored: &Vec<String>,
) -> (r: String)
    ensures
        r@ == scaffold(
            commit_number as nat,
            commit_type@,
            branch_name@,
            views(modified@),
            views(deleted@),
            views(ignored@),
        ),
{
    let mut out = String::new();
    out.append("[");
    push_decimal(&mut out, commit_number);
    out.append("] (");
    out.append(commit_type);
    out.append(" on ");
    out.append(branch_name);
    out.append(")\n\n\n");
    assert(out@ =~= header(commit_number as nat, commit_type@, branch_name@));
    let ghost head = out@;
    let kept = filter_excluded(modified, ignored);
    let ghost ks = views(kept@);
    let mut i: usize = 0;
    assert(ks.take(0) =~= Seq::<Seq<char>>::empty());
    assert(out@ =~= head + file_sections(ks.take(0)));
    while i < kept.len()
        invariant
            ks == views(kept@),
            i <= kept@.len(),
            out@ == head + file_sections(ks.take(i as int)),
        decreases kept@.len() - i,
    {
        assert(ks.take(i + 1).drop_last() =~= ks.take(i as int));
        assert(ks.take(i + 1).last() == kept@[i as int]@);
        out.append("- `");
        out.append(kept[i].as_str());
        out.append("`:\n\n\t\n\n");
        assert(out@ =~= head + file_sections(ks.take(i + 1)));
        i = i + 1;
    }
    assert(ks.take(i as int) =~= ks);
    let ghost body = out@;
    let ghost ds = views(deleted@);
    let mut j: usize = 0;
    assert(ds.take(0) =~= Seq::<Seq<char>>::empty());
    assert(out@ =~= body + deleted_lines(ds.take(0)));
    while j < deleted.len()
        invariant
            ds == views(deleted@),
            j <= deleted@.len(),
            out@ == body + deleted_lines(ds.take(j as int)),
        decreases deleted@.len() - j,
    {
        assert(ds.take(j + 1).drop_last() =~= ds.take(j as int));
        assert(ds.take(j + 1).last() == deleted@[j as int]@);
        out.append("- `");
        out.append(deleted[j].as_str());
        out.append("`: deleted\n\n");
        assert(out@ =~= body + deleted_lines(ds.take(j + 1)));
        j = j + 1;
    }
    assert(ds.take(j as int) =~= ds);
    out
}

} // verus!
