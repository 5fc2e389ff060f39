//! Branch names and the short reports of `git branch` and
//! `git rev-list --count`.
use vstd::prelude::*;

use crate::text::{
    chars_occur_at, chars_of, crlf_lines, crlf_lines_of, slice_string, trim, trimmed, views,
};

verus! {

/// `s` with every occurrence of `pat` taken out, scanning left to right
/// and never reusing a character of an occurrence already taken.
pub open spec fn remove_all(s: Seq<char>, pat: Seq<char>) -> Seq<char>
    decreases s.len(),
{
    if pat.len() == 0 || s.len() == 0 {
        s
    } else if s.len() >= pat.len() && s.take(pat.len() as int) == pat {
        remove_all(s.skip(pat.len() as int), pat)
    } else {
        seq![s[0]] + remove_all(s.drop_first(), pat)
    }
}

/// `branch` with the prefix `<type>/` of each of `types` removed, one
/// type after the other.
pub open spec fn without_types(branch: Seq<char>, types: Seq<Seq<char>>) -> Seq<char>
    decreases types.len(),
{
    if types.len() == 0 {
        branch
    } else {
        remove_all(without_types(branch, types.drop_last()), types.last().push('/'))
    }
}

/// The views of the commit types.
pub open spec fn type_views(types: Seq<&str>) -> Seq<Seq<char>> {
    types.map_values(|t: &str| t@)
}

/// `s` with every occurrence of `pat` taken out, as `remove_all` states.
fn removed(s: &str, pat: &Vec<char>) -> (r: String)
    requires
        pat@.len() > 0,
    ensures
        r@ == remove_all(s@, pat@),
{
    let c = chars_of(s);
    let n = c.len();
    let mut out = String::new();
    let mut i: usize = 0;
    assert(s@.skip(0) =~= s@);
    while i < n
        invariant
            n == c@.len(),
            c@ == s@,
            pat@.len() > 0,
            i <= n,
            out@ + remove_all(s@.skip(i as int), pat@) == remove_all(s@, pat@),
        decreases n - i,
    {
        let ghost rest = s@.skip(i as int);
        if chars_occur_at(&c, pat, i) {
            assert(rest.take(pat@.len() as int) =~= s@.subrange(i as int, i + pat@.len()));
            assert(rest.skip(pat@.len() as int) =~= s@.skip(i + pat@.len()));
            i = i + pat.len();
        } else {
            assert(rest.len() >= pat@.len() ==> rest.take(pat@.len() as int) =~= s@.subrange(
                i as int,
                i + pat@.len(),
            ));
            assert(rest.drop_first() =~= s@.skip(i + 1));
            let ghost before = out@;
            out.append(s.substring_char(i, i + 1));
            assert(s@.subrange(i as int, i + 1) =~= seq![rest[0]]);
            assert(out@ + remove_all(s@.skip(i + 1), pat@) =~= before + remove_all(rest, pat@));
            i = i + 1;
        }
    }
    assert(s@.skip(n as int) =~= Seq::<char>::empty());
    assert(out@ + Seq::<char>::empty() =~= out@);
    out
}

/// The branch name without the `<type>/` prefixes of the commit types:
/// `feat/branch_name` becomes `branch_name` when `feat` is a type.
pub fn format_branch_name(commit_types: &[&str; 4], branch: &str) -> (r: String)
    ensures
        r@ == without_types(branch@, type_views(commit_types@)),
{
    let ghost types = type_views(commit_types@);
    let mut formatted = String::from_str(branch);
    let mut k: usize = 0;
    assert(types.take(0) =~= Seq::<Seq<char>>::empty());
    while k < 4
        invariant
            types == type_views(commit_types@),
            commit_types@.len() == 4,
            k <= 4,
            formatted@ == without_types(branch@, types.take(k as int)),
        decreases 4 - k,
    {
        let mut pat = chars_of(commit_types[k]);
        pat.push('/');
        assert(types.take(k + 1).drop_last() =~= types.take(k as int));
        assert(types.take(k + 1).last() == commit_types@[k as int]@);
        formatted = removed(formatted.as_str(), &pat);
        k = k + 1;
    }
    assert(types.take(4) =~= types);
    formatted
}

/// `s` with every leading repetition of `pat` taken off.
pub open spec fn strip_repeated(s: Seq<char>, pat: Seq<char>) -> Seq<char>
    decreases s.len(),
{
    if pat.len() > 0 && s.len() >= pat.len() && s.take(pat.len() as int) == pat {
        strip_repeated(s.skip(pat.len() as int), pat)
    } else {
        s
    }
}

/// How `git branch` lists one branch: a `* ` marks the current one, two
/// spaces indent the others; both markers are taken off.
pub open spec fn branch_of_line(l: Seq<char>) -> Seq<char> {
    strip_repeated(strip_repeated(l, seq!['*', ' ']), seq![' ', ' '])
}

/// The branches named by the lines `ls`, in order; the lines come from
/// `crlf_lines_of`, so a `\r` before each newline is already gone.
pub open spec fn branches_of(ls: Seq<Seq<char>>) -> Seq<Seq<char>> {
    ls.map_values(|l: Seq<char>| branch_of_line(l))
}

/// `s` with leading repetitions of `pat` taken off, as `strip_repeated`
/// states.
fn stripped(s: &str, pat: &Vec<char>) -> (r: String)
    requires
        pat@.len() > 0,
    ensures
        r@ == strip_repeated(s@, pat@),
{
    let c = chars_of(s);
    let n = c.len();
    let mut i: usize = 0;
    assert(s@.skip(0) =~= s@);
    while i < n && chars_occur_at(&c, pat, i)
        invariant
            n == c@.len(),
            c@ == s@,
            pat@.len() > 0,
            i <= n,
            strip_repeated(s@.skip(i as int), pat@) == strip_repeated(s@, pat@),
        decreases n - i,
    {
        let ghost rest = s@.skip(i as int);
        assert(rest.take(pat@.len() as int) =~= s@.subrange(i as int, i + pat@.len()));
        assert(rest.skip(pat@.len() as int) =~= s@.skip(i + pat@.len()));
        i = i + pat.len();
    }
    let ghost rest = s@.skip(i as int);
    assert(rest.len() >= pat@.len() ==> rest.take(pat@.len() as int) =~= s@.subrange(
        i as int,
        i + pat@.len(),
    ));
    assert(s@.subrange(i as int, n as int) =~= rest);
    slice_string(s, i, n)
}

/// The branch names that a `git branch` report lists, in order; a line
/// may end with `\n` or `\r\n`.
pub fn branch_names(output: &str) -> (r: Vec<String>)
    ensures
        views(r@) == branches_of(crlf_lines_of(output@)),
{
    let ls = crlf_lines(output);
    let ghost all = views(ls@);
    let star = vec!['*', ' '];
    let indent = vec![' ', ' '];
    assert(star@ =~= seq!['*', ' ']);
    assert(indent@ =~= seq![' ', ' ']);
    let mut out: Vec<String> = Vec::new();
    let mut i: usize = 0;
    assert(views(out@) =~= branches_of(all.take(0)));
    while i < ls.len()
        invariant
            all == views(ls@),
            all == crlf_lines_of(output@),
            star@ == seq!['*', ' '],
            indent@ == seq![' ', ' '],
            i <= ls@.len(),
            views(out@) == branches_of(all.take(i as int)),
        decreases ls@.len() - i,
    {
        let ghost before = views(out@);
        let first = stripped(ls[i].as_str(), &star);
        let name = stripped(first.as_str(), &indent);
        let ghost named = name@;
        out.push(name);
        assert(all[i as int] == ls@[i as int]@);
        assert(named == branch_of_line(all[i as int]));
        assert(views(out@) =~= before.push(named));
        assert(branches_of(all.take(i + 1)) =~= branches_of(all.take(i as int)).push(
            branch_of_line(all[i as int]),
        ));
        i = i + 1;
    }
    assert(all.take(i as int) =~= all);
    out
}

pub open spec fn is_digit(c: char) -> bool {
    0x30 <= (c as u32) <= 0x39
}

/// The value of a string of decimal digits.
pub open spec fn digits_value(ds: Seq<char>) -> nat
    decreases ds.len(),
{
    if ds.len() == 0 {
        0
    } else {
        digits_value(ds.drop_last()) * 10 + ((ds.last() as u32) - 0x30) as nat
    }
}

/// The digits of a count: an optional `+` sign taken off.
pub open spec fn unsigned_part(t: Seq<char>) -> Seq<char> {
    if t.len() > 0 && t[0] == '+' {
        t.drop_first()
    } else {
        t
    }
}

/// The count that a `git rev-list --count` report gives once trimmed: a
/// number in decimal, with an optional `+`, that fits in 16 bits; zero for
/// anything else.
pub open spec fn commit_count(s: Seq<char>) -> u16 {
    let d = unsigned_part(trim(s));
    if d.len() > 0 && (forall|i: int| 0 <= i < d.len() ==> is_digit(#[trigger] d[i]))
        && digits_value(d) <= 0xFFFF {
        digits_value(d) as u16
    } else {
        0
    }
}

pub proof fn lemma_digits_value_grows(d: Seq<char>, k: int)
    requires
        0 <= k <= d.len(),
        forall|i: int| 0 <= i < d.len() ==> is_digit(#[trigger] d[i]),
    ensures
        digits_value(d.take(k)) <= digits_value(d),
    decreases d.len() - k,
{
    if k < d.len() {
        lemma_digits_value_grows(d, k + 1);
        assert(d.take(k + 1).drop_last() =~= d.take(k));
        assert(d.take(k + 1).last() == d[k]);
        assert(is_digit(d[k]));
        assert(digits_value(d.take(k + 1)) == digits_value(d.take(k)) * 10 + ((d[k] as u32)
            - 0x30) as nat);
    } else {
        assert(d.take(k) =~= d);
    }
}

/// The number of commits that a `git rev-list --count` report gives, or
/// zero where it does not hold one that fits in 16 bits.
pub fn commit_count_of(output: &str) -> (r: u16)
    ensures
        r == commit_count(output@),
{
    let t = trimmed(output);
    let c = chars_of(t.as_str());
    let n = c.len();
    let start: usize = if n > 0 && c[0] == '+' {
        1
    } else {
        0
    };
    let ghost d = unsigned_part(c@);
    assert(d =~= c@.skip(start as int));
    if start == n {
        return 0;
    }
    let mut value: u32 = 0;
    let mut i: usize = start;
    assert(d.take(0) =~= Seq::<char>::empty());
    while i < n
        invariant
            n == c@.len(),
            c@ == trim(output@),
            d == unsigned_part(c@),
            d == c@.skip(start as int),
            start <= i <= n,
            value <= 0xFFFF,
            value == digits_value(d.take(i - start)),
            forall|m: int| 0 <= m < i - start ==> is_digit(#[trigger] d[m]),
        decreases n - i,
    {
        let u = c[i] as u32;
        if u < 0x30 || u > 0x39 {
            assert(!is_digit(d[i - start]));
            return 0;
        }
        assert(d.take(i - start + 1).drop_last() =~= d.take(i - start));
        assert(d.take(i - start + 1).last() == c@[i as int]);
        let next = value * 10 + (u - 0x30);
        if next > 0xFFFF {
            proof {
                if forall|m: int| 0 <= m < d.len() ==> is_digit(#[trigger] d[m]) {
                    lemma_digits_value_grows(d, i - start + 1);
                }
            }
            return 0;
        }
        value = next;
        i = i + 1;
    }
    assert(d.take(n - start) =~= d);
    value as u16
}

} // verus!
