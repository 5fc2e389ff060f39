//! Character-level helpers shared by the parsers: whitespace, line
//! splitting, trimming and substring search, each stated over `Seq<char>`.
use vstd::prelude::*;

verus! {

/// Unicode `White_Space`, the set that `char::is_whitespace` and the
/// `\s` class of common regex engines use.
pub open spec fn is_space(c: char) -> bool {
    let u = c as u32;
    ||| 0x09 <= u <= 0x0D
    ||| u == 0x20
    ||| u == 0x85
    ||| u == 0xA0
    ||| u == 0x1680
    ||| 0x2000 <= u <= 0x200A
    ||| u == 0x2028
    ||| u == 0x2029
    ||| u == 0x202F
    ||| u == 0x205F
    ||| u == 0x3000
}

pub fn char_is_space(c: char) -> (r: bool)
    ensures
        r == is_space(c),
{
    let u = c as u32;
    (0x09 <= u && u <= 0x0D) || u == 0x20 || u == 0x85 || u == 0xA0 || u == 0x1680 || (0x2000
        <= u && u <= 0x200A) || u == 0x2028 || u == 0x2029 || u == 0x202F || u == 0x205F || u
        == 0x3000
}

/// The characters of `s`, in order.
pub fn chars_of(s: &str) -> (v: Vec<char>)
    ensures
        v@ == s@,
{
    let n = s.unicode_len();
    let mut v: Vec<char> = Vec::new();
    let mut i: usize = 0;
    while i < n
        invariant
            n == s@.len(),
            i <= n,
            v@ == s@.take(i as int),
        decreases n - i,
    {
        v.push(s.get_char(i));
        i = i + 1;
    }
    assert(s@.take(n as int) =~= s@);
    v
}

/// A fresh `String` holding the characters `from..to` of `s`.
pub fn slice_string(s: &str, from: usize, to: usize) -> (r: String)
    requires
        from <= to <= s@.len(),
    ensures
        r@ == s@.subrange(from as int, to as int),
{
    String::from_str(s.substring_char(from, to))
}

/// The views of a sequence of strings.
pub open spec fn views(v: Seq<String>) -> Seq<Seq<char>> {
    v.map_values(|x: String| x@)
}

/// The pieces of `s` between occurrences of `sep`: one more piece than
/// there are separators.
pub open spec fn split_on(s: Seq<char>, sep: char) -> Seq<Seq<char>>
    decreases s.len(),
{
    if s.len() == 0 {
        seq![Seq::empty()]
    } else {
        let p = split_on(s.drop_last(), sep);
        if s.last() == sep {
            p.push(Seq::empty())
        } else {
            p.update(p.len() - 1, p.last().push(s.last()))
        }
    }
}

pub proof fn lemma_split_on_nonempty(s: Seq<char>, sep: char)
    ensures
        split_on(s, sep).len() >= 1,
    decreases s.len(),
{
    if s.len() > 0 {
        lemma_split_on_nonempty(s.drop_last(), sep);
    }
}

/// The lines of `s`: the pieces between newlines, without the empty piece
/// that a final newline leaves.
pub open spec fn lines_of(s: Seq<char>) -> Seq<Seq<char>> {
    let p = split_on(s, '\n');
    if p.last().len() == 0 {
        p.drop_last()
    } else {
        p
    }
}

/// The pieces of `s` between occurrences of `sep`, as `split_on` states
/// them.
pub fn split(s: &str, sep: char) -> (r: Vec<String>)
    ensures
        views(r@) == split_on(s@, sep),
{
    let c = chars_of(s);
    let n = c.len();
    let mut out: Vec<String> = Vec::new();
    let mut start: usize = 0;
    let mut i: usize = 0;
    assert(views(out@) =~= Seq::<Seq<char>>::empty());
    assert(s@.take(0) =~= Seq::<char>::empty());
    assert(s@.subrange(0, 0) =~= Seq::<char>::empty());
    while i < n
        invariant
            n == c@.len(),
            c@ == s@,
            start <= i <= n,
            views(out@).push(s@.subrange(start as int, i as int)) == split_on(
                s@.take(i as int),
                sep,
            ),
        decreases n - i,
    {
        let ghost prev = views(out@);
        proof {
            assert(s@.take(i + 1).drop_last() =~= s@.take(i as int));
            lemma_split_on_nonempty(s@.take(i as int), sep);
        }
        if c[i] == sep {
            let piece = slice_string(s, start, i);
            out.push(piece);
            assert(views(out@) =~= prev.push(piece@));
            start = i + 1;
            assert(s@.subrange(start as int, i + 1) =~= Seq::<char>::empty());
        } else {
            assert(s@.subrange(start as int, i + 1) =~= s@.subrange(start as int, i as int).push(
                c@[i as int],
            ));
        }
        i = i + 1;
    }
    assert(s@.take(n as int) =~= s@);
    let piece = slice_string(s, start, n);
    let ghost prev = views(out@);
    out.push(piece);
    assert(views(out@) =~= prev.push(piece@));
    out
}

/// The lines of `s`, as `lines_of` states them.
pub fn lines(s: &str) -> (r: Vec<String>)
    ensures
        views(r@) == lines_of(s@),
{
    let mut out = split(s, '\n');
    proof {
        lemma_split_on_nonempty(s@, '\n');
    }
    let last = out.len() - 1;
    if out[last].unicode_len() == 0 {
        let ghost before = views(out@);
        out.pop();
        assert(views(out@) =~= before.drop_last());
    }
    out
}

/// `l` without one `\r` at its end.
pub open spec fn without_cr(l: Seq<char>) -> Seq<char> {
    if l.len() > 0 && l.last() == '\r' {
        l.drop_last()
    } else {
        l
    }
}

/// The lines of `s` where a line ends at `\n` or at `\r\n`: the pieces
/// between newlines, each piece that a newline ends without a `\r` just
/// before it, and without the empty piece that a final newline leaves. A
/// `\r` that no newline follows stays.
pub open spec fn crlf_lines_of(s: Seq<char>) -> Seq<Seq<char>> {
    let p = split_on(s, '\n');
    let ended = p.drop_last().map_values(|l: Seq<char>| without_cr(l));
    if p.last().len() == 0 {
        ended
    } else {
        ended.push(p.last())
    }
}

/// `s` without one `\r` at its end.
fn drop_cr(s: &str) -> (r: String)
    ensures
        r@ == without_cr(s@),
{
    let n = s.unicode_len();
    if n > 0 && s.get_char(n - 1) == '\r' {
        slice_string(s, 0, n - 1)
    } else {
        assert(s@.subrange(0, n as int) =~= s@);
        slice_string(s, 0, n)
    }
}

/// The lines of `s`, as `crlf_lines_of` states them.
pub fn crlf_lines(s: &str) -> (r: Vec<String>)
    ensures
        views(r@) == crlf_lines_of(s@),
{
    let pieces = split(s, '\n');
    proof {
        lemma_split_on_nonempty(s@, '\n');
    }
    let ghost all = views(pieces@);
    let last = pieces.len() - 1;
    let ghost ended = all.drop_last().map_values(|l: Seq<char>| without_cr(l));
    let mut out: Vec<String> = Vec::new();
    let mut i: usize = 0;
    assert(views(out@) =~= ended.take(0));
    while i < last
        invariant
            all == views(pieces@),
            all == split_on(s@, '\n'),
            last + 1 == pieces@.len(),
            ended == all.drop_last().map_values(|l: Seq<char>| without_cr(l)),
            i <= last,
            views(out@) == ended.take(i as int),
        decreases last - i,
    {
        let ghost before = views(out@);
        let line = drop_cr(pieces[i].as_str());
        let ghost lv = line@;
        out.push(line);
        assert(all.drop_last()[i as int] == pieces@[i as int]@);
        assert(ended[i as int] == without_cr(pieces@[i as int]@));
        assert(lv == ended[i as int]);
        assert(views(out@) =~= before.push(lv));
        assert(ended.take(i + 1) =~= ended.take(i as int).push(ended[i as int]));
        assert(views(out@) =~= ended.take(i + 1));
        i = i + 1;
    }
    assert(ended.take(last as int) =~= ended);
    if pieces[last].unicode_len() > 0 {
        let ghost before = views(out@);
        out.push(pieces[last].clone());
        assert(views(out@) =~= before.push(all.last()));
    }
    out
}

/// `s` without its leading whitespace.
pub open spec fn trim_start(s: Seq<char>) -> Seq<char>
    decreases s.len(),
{
    if s.len() > 0 && is_space(s[0]) {
        trim_start(s.drop_first())
    } else {
        s
    }
}

/// `s` without its trailing whitespace.
pub open spec fn trim_end(s: Seq<char>) -> Seq<char>
    decreases s.len(),
{
    if s.len() > 0 && is_space(s.last()) {
        trim_end(s.drop_last())
    } else {
        s
    }
}

/// `s` without whitespace at either end.
pub open spec fn trim(s: Seq<char>) -> Seq<char> {
    trim_end(trim_start(s))
}

/// `s` with whitespace at both ends taken off.
pub fn trimmed(s: &str) -> (r: String)
    ensures
        r@ == trim(s@),
{
    let c = chars_of(s);
    let n = c.len();
    let mut lo: usize = 0;
    assert(s@.subrange(0, n as int) =~= s@);
    while lo < n && char_is_space(c[lo])
        invariant
            n == c@.len(),
            c@ == s@,
            lo <= n,
            trim_start(s@) == trim_start(s@.subrange(lo as int, n as int)),
        decreases n - lo,
    {
        assert(s@.subrange(lo + 1, n as int) =~= s@.subrange(lo as int, n as int).drop_first());
        lo = lo + 1;
    }
    assert(s@.subrange(0, n as int) =~= s@);
    let mut hi: usize = n;
    while hi > lo && char_is_space(c[hi - 1])
        invariant
            n == c@.len(),
            c@ == s@,
            lo <= hi <= n,
            trim(s@) == trim_end(s@.subrange(lo as int, hi as int)),
        decreases hi,
    {
        assert(s@.subrange(lo as int, hi - 1) =~= s@.subrange(lo as int, hi as int).drop_last());
        hi = hi - 1;
    }
    slice_string(s, lo, hi)
}

/// `p` occurs in `s` at position `i`.
pub open spec fn occurs_at(s: Seq<char>, p: Seq<char>, i: int) -> bool {
    0 <= i && i + p.len() <= s.len() && s.subrange(i, i + p.len()) == p
}

/// `p` occurs somewhere in `s`.
pub open spec fn contains(s: Seq<char>, p: Seq<char>) -> bool {
    exists|i: int| occurs_at(s, p, i)
}

/// Whether `p` occurs in `c` at position `i`.
pub fn chars_occur_at(c: &Vec<char>, p: &Vec<char>, i: usize) -> (r: bool)
    ensures
        r == occurs_at(c@, p@, i as int),
{
    if i > c.len() || p.len() > c.len() - i {
        return false;
    }
    let mut j: usize = 0;
    while j < p.len()
        invariant
            c@.len() <= usize::MAX,
            i + p@.len() <= c@.len(),
            j <= p@.len(),
            c@.subrange(i as int, i + j) == p@.take(j as int),
        decreases p@.len() - j,
    {
        if c[i + j] != p[j] {
            assert(c@.subrange(i as int, i + p@.len())[j as int] != p@[j as int]);
            return false;
        }
        assert(c@.subrange(i as int, i + j + 1) =~= c@.subrange(i as int, i + j).push(c@[i + j]));
        assert(p@.take(j + 1) =~= p@.take(j as int).push(p@[j as int]));
        j = j + 1;
    }
    assert(p@.take(j as int) =~= p@);
    true
}

/// Whether `p` occurs anywhere in `c`.
pub fn chars_contain(c: &Vec<char>, p: &Vec<char>) -> (r: bool)
    ensures
        r == contains(c@, p@),
{
    if p.len() > c.len() {
        return false;
    }
    let last = c.len() - p.len();
    let mut i: usize = 0;
    loop
        invariant
            i <= last,
            last + p@.len() == c@.len(),
            forall|k: int| 0 <= k < i ==> !occurs_at(c@, p@, k),
        decreases last - i,
    {
        if chars_occur_at(c, p, i) {
            return true;
        }
        if i == last {
            return false;
        }
        i = i + 1;
    }
}

} // verus!
