//! Relative and rooted paths written with `/`, compared component by
//! component: `data/` and `data` name the same directory, `a//b/./c` has
//! the components `a`, `b`, `c`.
use vstd::prelude::*;

use crate::text::{lemma_split_on_nonempty, split, split_on, views};

verus! {

/// The root component that a leading `/` gives.
pub open spec fn root_part(p: Seq<char>) -> Seq<Seq<char>> {
    if p.len() > 0 && p[0] == '/' {
        seq![seq!['/']]
    } else {
        Seq::empty()
    }
}

/// The pieces that name something: neither empty nor `.`.
pub open spec fn named_pieces(ps: Seq<Seq<char>>) -> Seq<Seq<char>>
    decreases ps.len(),
{
    if ps.len() == 0 {
        Seq::empty()
    } else {
        let r = named_pieces(ps.drop_last());
        if ps.last().len() > 0 && ps.last() != seq!['.'] {
            r.push(ps.last())
        } else {
            r
        }
    }
}

/// The components of `p`: the root if `p` starts with `/`, a `.` that
/// starts a relative path, then every piece between separators that is
/// neither empty nor `.`.
pub open spec fn components(p: Seq<char>) -> Seq<Seq<char>> {
    let ps = split_on(p, '/');
    let head = if ps[0].len() > 0 {
        seq![ps[0]]
    } else {
        Seq::empty()
    };
    root_part(p) + head + named_pieces(ps.drop_first())
}

/// `folder` is a proper ancestor of `file`: walking up from the parent of
/// `file`, one component at a time, meets `folder`.
pub open spec fn is_under(file: Seq<char>, folder: Seq<char>) -> bool {
    let f = components(file);
    let d = components(folder);
    d.len() < f.len() && f.take(d.len() as int) == d
}

/// The components of `p`, as `components` states them.
pub fn components_of(p: &str) -> (r: Vec<String>)
    ensures
        views(r@) == components(p@),
{
    let ps = split(p, '/');
    proof {
        lemma_split_on_nonempty(p@, '/');
    }
    let ghost pieces = views(ps@);
    let mut out: Vec<String> = Vec::new();
    if p.unicode_len() > 0 && p.get_char(0) == '/' {
        let slash = String::from_str("/");
        proof {
            reveal_strlit("/");
        }
        assert(slash@ =~= seq!['/']);
        out.push(slash);
        assert(views(out@) =~= root_part(p@));
    } else {
        assert(views(out@) =~= root_part(p@));
    }
    let ghost root = views(out@);
    if ps[0].unicode_len() > 0 {
        out.push(ps[0].clone());
    }
    let ghost head = views(out@).skip(root.len() as int);
    assert(head =~= (if pieces[0].len() > 0 {
        seq![pieces[0]]
    } else {
        Seq::<Seq<char>>::empty()
    }));
    let ghost fixed = views(out@);
    let ghost rest = pieces.drop_first();
    let mut i: usize = 1;
    assert(rest.take(0) =~= Seq::<Seq<char>>::empty());
    assert(fixed + named_pieces(rest.take(0)) =~= fixed);
    while i < ps.len()
        invariant
            pieces == views(ps@),
            pieces.len() >= 1,
            rest == pieces.drop_first(),
            1 <= i <= ps@.len(),
            views(out@) == fixed + named_pieces(rest.take(i - 1)),
        decreases ps@.len() - i,
    {
        let ghost before = views(out@);
        assert(rest.take(i as int).drop_last() =~= rest.take(i - 1));
        assert(rest.take(i as int).last() == ps@[i as int]@);
        let dot = String::from_str(".");
        proof {
            reveal_strlit(".");
        }
        assert(dot@ =~= seq!['.']);
        if ps[i].unicode_len() > 0 && ps[i] != dot {
            out.push(ps[i].clone());
            assert(views(out@) =~= before.push(ps@[i as int]@));
        }
        i = i + 1;
    }
    assert(rest.take(i - 1) =~= rest);
    out
}

/// Whether the folder `folder_path` holds `file_path`, directly or in a
/// subfolder, by comparing components: `"data/"` holds `"data/x/y.md"`,
/// `"pipi/"` does not, and no path holds itself.
pub fn check_for_file_in_folder(file_path: &str, folder_path: &str) -> (r: bool)
    ensures
        r == is_under(file_path@, folder_path@),
{
    let f = components_of(file_path);
    let d = components_of(folder_path);
    if d.len() >= f.len() {
        return false;
    }
    let mut k: usize = 0;
    while k < d.len()
        invariant
            views(f@) == components(file_path@),
            views(d@) == components(folder_path@),
            d@.len() < f@.len(),
            k <= d@.len(),
            forall|m: int| 0 <= m < k ==> views(f@)[m] == views(d@)[m],
        decreases d@.len() - k,
    {
        if f[k] != d[k] {
            assert(views(f@)[k as int] == f@[k as int]@);
            assert(views(d@)[k as int] == d@[k as int]@);
            assert(views(f@).take(d@.len() as int)[k as int] != views(d@)[k as int]);
            return false;
        }
        k = k + 1;
    }
    assert(views(f@).take(d@.len() as int) =~= views(d@));
    true
}

/// Components joined with `/`.
pub open spec fn joined(cs: Seq<Seq<char>>) -> Seq<char>
    decreases cs.len(),
{
    if cs.len() == 0 {
        Seq::empty()
    } else if cs.len() == 1 {
        cs[0]
    } else {
        joined(cs.drop_last()) + seq!['/'] + cs.last()
    }
}

/// The path that components spell: a root component is written as the
/// leading `/`.
pub open spec fn spelled(cs: Seq<Seq<char>>) -> Seq<char> {
    if cs.len() > 0 && cs[0] == seq!['/'] {
        seq!['/'] + joined(cs.drop_first())
    } else {
        joined(cs)
    }
}

/// `p` has a parent: it has a component other than the root.
pub open spec fn has_parent(p: Seq<char>) -> bool {
    components(p).len() > 0 && !(components(p).len() == 1 && root_part(p).len() == 1)
}

/// The parent of `p`: its components but the last, spelled out.
pub open spec fn parent_of(p: Seq<char>) -> Seq<char> {
    spelled(components(p).drop_last())
}

/// One step of the search for the root of a project, made on a path and
/// on whether that path holds the project's marker directory.
pub enum RootStep {
    /// The path is the root.
    Found(String),
    /// Look at this path next.
    Up(String),
    /// The search reached a path without a parent.
    NotFound,
}

/// The components `cs`, spelled out.
fn spell(cs: &Vec<String>) -> (r: String)
    ensures
        r@ == spelled(views(cs@)),
{
    let ghost all = views(cs@);
    let mut out = String::new();
    let mut i: usize = 0;
    let rooted = cs.len() > 0 && cs[0].unicode_len() == 1 && cs[0].as_str().get_char(0) == '/';
    assert(rooted == (all.len() > 0 && all[0] == seq!['/'])) by {
        if all.len() > 0 && all[0].len() == 1 {
            assert(all[0] =~= seq![all[0][0]]);
        }
    }
    if rooted {
        out.append("/");
        proof {
            reveal_strlit("/");
        }
        i = 1;
    }
    let first: usize = i;
    let ghost start = i as int;
    let ghost lead = out@;
    let ghost rest = all.skip(start);
    assert(rest.take(0) =~= Seq::<Seq<char>>::empty());
    assert(lead + joined(rest.take(0)) =~= lead);
    while i < cs.len()
        invariant
            all == views(cs@),
            start == first,
            start <= i <= cs@.len(),
            start == (if rooted { 1int } else { 0int }),
            rest == all.skip(start),
            out@ == lead + joined(rest.take(i - start)),
        decreases cs@.len() - i,
    {
        let ghost k = i - start;
        assert(rest.take(k + 1).drop_last() =~= rest.take(k));
        assert(rest.take(k + 1).last() == cs@[i as int]@);
        if i > first {
            out.append("/");
            proof {
                reveal_strlit("/");
            }
        }
        out.append(cs[i].as_str());
        assert(out@ =~= lead + joined(rest.take(k + 1)));
        i = i + 1;
    }
    assert(rest.take(i - start) =~= rest);
    if rooted {
        assert("/"@ =~= seq!['/']);
        assert(out@ =~= spelled(all));
    } else {
        assert(lead =~= Seq::<char>::empty());
        assert(rest =~= all);
    }
    out
}

/// Decides the next step of the search for a project root from `path`: a
/// path without a parent ends it; else a path that holds the marker is the
/// root, and any other sends the search on to its parent.
pub fn root_search_step(path: &str, has_marker: bool) -> (r: RootStep)
    ensures
        !has_parent(path@) ==> r is NotFound,
        has_parent(path@) && has_marker ==> (match r {
            RootStep::Found(p) => p@ == path@,
            _ => false,
        }),
        has_parent(path@) && !has_marker ==> (match r {
            RootStep::Up(p) => p@ == parent_of(path@),
            _ => false,
        }),
{
    let mut cs = components_of(path);
    let rooted = path.unicode_len() > 0 && path.get_char(0) == '/';
    assert(rooted == (root_part(path@).len() == 1));
    if cs.len() == 0 || (cs.len() == 1 && rooted) {
        return RootStep::NotFound;
    }
    if has_marker {
        return RootStep::Found(String::from_str(path));
    }
    let ghost before = views(cs@);
    cs.pop();
    assert(views(cs@) =~= before.drop_last());
    RootStep::Up(spell(&cs))
}

/// `c` does not occur in `s`.
pub open spec fn lacks(s: Seq<char>, c: char) -> bool {
    forall|i: int| 0 <= i < s.len() ==> #[trigger] s[i] != c
}

/// Components as `components` gives them: none empty; a root only first;
/// no separator inside any other; a `.` only first.
pub open spec fn well_formed(cs: Seq<Seq<char>>) -> bool {
    forall|i: int|
        0 <= i < cs.len() ==> {
            &&& (#[trigger] cs[i]).len() > 0
            &&& (i > 0 ==> lacks(cs[i], '/') && cs[i] != seq!['.'])
            &&& (i == 0 && cs[i] != seq!['/'] ==> lacks(cs[i], '/'))
        }
}

proof fn lemma_split_on_concat(a: Seq<char>, b: Seq<char>, sep: char)
    ensures
        split_on(a + seq![sep] + b, sep) == split_on(a, sep) + split_on(b, sep),
    decreases b.len(),
{
    let x = a + seq![sep] + b;
    if b.len() == 0 {
        assert(x.drop_last() =~= a);
        assert(split_on(b, sep) =~= seq![Seq::<char>::empty()]);
        assert(split_on(a, sep).push(Seq::empty()) =~= split_on(a, sep) + split_on(b, sep));
    } else {
        let b1 = b.drop_last();
        lemma_split_on_concat(a, b1, sep);
        lemma_split_on_nonempty(b1, sep);
        assert(x.drop_last() =~= a + seq![sep] + b1);
        assert(x.last() == b.last());
        let pa = split_on(a, sep);
        let pb = split_on(b1, sep);
        if b.last() == sep {
            assert((pa + pb).push(Seq::empty()) =~= pa + pb.push(Seq::empty()));
        } else {
            let q = pa + pb;
            assert(q.update(q.len() - 1, q.last().push(b.last())) =~= pa + pb.update(
                pb.len() - 1,
                pb.last().push(b.last()),
            ));
        }
    }
}

proof fn lemma_split_on_single(b: Seq<char>, sep: char)
    requires
        lacks(b, sep),
    ensures
        split_on(b, sep) == seq![b],
    decreases b.len(),
{
    if b.len() > 0 {
        let b1 = b.drop_last();
        assert(lacks(b1, sep)) by {
            assert forall|i: int| 0 <= i < b1.len() implies #[trigger] b1[i] != sep by {
                assert(b1[i] == b[i]);
            }
        }
        lemma_split_on_single(b1, sep);
        assert(b.last() != sep);
        assert(b1.push(b.last()) =~= b);
        assert(seq![b1].update(0, b1.push(b.last())) =~= seq![b]);
    } else {
        assert(b =~= Seq::<char>::empty());
    }
}

proof fn lemma_split_on_pieces_lack(s: Seq<char>, sep: char)
    ensures
        forall|i: int|
            0 <= i < split_on(s, sep).len() ==> lacks(#[trigger] split_on(s, sep)[i], sep),
    decreases s.len(),
{
    if s.len() > 0 {
        lemma_split_on_pieces_lack(s.drop_last(), sep);
        lemma_split_on_nonempty(s.drop_last(), sep);
        let p = split_on(s.drop_last(), sep);
        if s.last() != sep {
            let q = p.update(p.len() - 1, p.last().push(s.last()));
            assert forall|i: int| 0 <= i < q.len() implies lacks(#[trigger] q[i], sep) by {
                if i == p.len() - 1 {
                    assert forall|k: int| 0 <= k < q[i].len() implies #[trigger] q[i][k] != sep by {
                        if k < p.last().len() {
                            assert(q[i][k] == p.last()[k]);
                        }
                    }
                } else {
                    assert(q[i] == p[i]);
                }
            }
        } else {
            let q = p.push(Seq::empty());
            assert forall|i: int| 0 <= i < q.len() implies lacks(#[trigger] q[i], sep) by {
                if i < p.len() {
                    assert(q[i] == p[i]);
                }
            }
        }
    }
}

proof fn lemma_split_on_joined(cs: Seq<Seq<char>>)
    requires
        cs.len() >= 1,
        forall|i: int| 0 <= i < cs.len() ==> lacks(#[trigger] cs[i], '/'),
    ensures
        split_on(joined(cs), '/') == cs,
    decreases cs.len(),
{
    if cs.len() == 1 {
        lemma_split_on_single(cs[0], '/');
        assert(seq![cs[0]] =~= cs);
    } else {
        let c1 = cs.drop_last();
        assert forall|i: int| 0 <= i < c1.len() implies lacks(#[trigger] c1[i], '/') by {
            assert(c1[i] == cs[i]);
        }
        lemma_split_on_joined(c1);
        lemma_split_on_concat(joined(c1), cs.last(), '/');
        lemma_split_on_single(cs.last(), '/');
        assert(c1 + seq![cs.last()] =~= cs);
    }
}

proof fn lemma_named_pieces_keep(xs: Seq<Seq<char>>)
    requires
        forall|i: int| 0 <= i < xs.len() ==> (#[trigger] xs[i]).len() > 0 && xs[i] != seq!['.'],
    ensures
        named_pieces(xs) == xs,
    decreases xs.len(),
{
    if xs.len() > 0 {
        let x1 = xs.drop_last();
        assert forall|i: int| 0 <= i < x1.len() implies (#[trigger] x1[i]).len() > 0 && x1[i]
            != seq!['.'] by {
            assert(x1[i] == xs[i]);
        }
        lemma_named_pieces_keep(x1);
        assert(xs.last() == xs[xs.len() - 1]);
        assert(x1.push(xs.last()) =~= xs);
    }
}

proof fn lemma_named_pieces_shape(xs: Seq<Seq<char>>)
    requires
        forall|i: int| 0 <= i < xs.len() ==> lacks(#[trigger] xs[i], '/'),
    ensures
        forall|i: int|
            0 <= i < named_pieces(xs).len() ==> (#[trigger] named_pieces(xs)[i]).len() > 0
                && named_pieces(xs)[i] != seq!['.'] && lacks(named_pieces(xs)[i], '/'),
    decreases xs.len(),
{
    if xs.len() > 0 {
        let x1 = xs.drop_last();
        assert forall|i: int| 0 <= i < x1.len() implies lacks(#[trigger] x1[i], '/') by {
            assert(x1[i] == xs[i]);
        }
        lemma_named_pieces_shape(x1);
        assert(lacks(xs[xs.len() - 1], '/'));
        let r = named_pieces(x1);
        if xs.last().len() > 0 && xs.last() != seq!['.'] {
            let q = r.push(xs.last());
            assert forall|i: int| 0 <= i < q.len() implies (#[trigger] q[i]).len() > 0 && q[i]
                != seq!['.'] && lacks(q[i], '/') by {
                if i < r.len() {
                    assert(q[i] == r[i]);
                }
            }
        }
    }
}

proof fn lemma_components_well_formed(p: Seq<char>)
    ensures
        well_formed(components(p)),
        root_part(p).len() == 1 ==> components(p)[0] == seq!['/'],
{
    let ps = split_on(p, '/');
    lemma_split_on_nonempty(p, '/');
    lemma_split_on_pieces_lack(p, '/');
    let rest = ps.drop_first();
    assert forall|i: int| 0 <= i < rest.len() implies lacks(#[trigger] rest[i], '/') by {
        assert(rest[i] == ps[i + 1]);
    }
    lemma_named_pieces_shape(rest);
    if p.len() > 0 && p[0] == '/' {
        lemma_split_on_concat(Seq::empty(), p.drop_first(), '/');
        assert(Seq::<char>::empty() + seq!['/'] + p.drop_first() =~= p);
        assert(split_on(Seq::<char>::empty(), '/') =~= seq![Seq::<char>::empty()]);
        assert(ps[0] =~= Seq::<char>::empty());
    }
    let head = if ps[0].len() > 0 {
        seq![ps[0]]
    } else {
        Seq::<Seq<char>>::empty()
    };
    let cs = components(p);
    let named = named_pieces(rest);
    let lead = root_part(p) + head;
    assert(cs == lead + named);
    assert(lead.len() <= 1);
    assert forall|i: int| 0 <= i < cs.len() implies {
        &&& (#[trigger] cs[i]).len() > 0
        &&& (i > 0 ==> lacks(cs[i], '/') && cs[i] != seq!['.'])
        &&& (i == 0 && cs[i] != seq!['/'] ==> lacks(cs[i], '/'))
    } by {
        if i < lead.len() {
            assert(i == 0);
            if root_part(p).len() == 0 {
                assert(cs[i] == ps[0]);
            } else {
                assert(cs[i] == seq!['/']);
            }
        } else {
            assert(cs[i] == named[i - lead.len()]);
        }
    }
}

proof fn lemma_components_spelled(cs: Seq<Seq<char>>)
    requires
        well_formed(cs),
    ensures
        components(spelled(cs)) == cs,
{
    let sp = spelled(cs);
    if cs.len() == 0 {
        assert(sp =~= Seq::<char>::empty());
        assert(split_on(sp, '/') =~= seq![Seq::<char>::empty()]);
        assert(named_pieces(Seq::<Seq<char>>::empty()) =~= Seq::<Seq<char>>::empty());
        assert(components(sp) =~= cs);
    } else if cs[0] == seq!['/'] {
        let rest = cs.drop_first();
        assert(sp =~= Seq::<char>::empty() + seq!['/'] + joined(rest));
        lemma_split_on_concat(Seq::empty(), joined(rest), '/');
        assert(split_on(Seq::<char>::empty(), '/') =~= seq![Seq::<char>::empty()]);
        assert forall|i: int| 0 <= i < rest.len() implies (#[trigger] rest[i]).len() > 0
            && rest[i] != seq!['.'] && lacks(rest[i], '/') by {
            assert(rest[i] == cs[i + 1]);
        }
        let pieces = split_on(sp, '/');
        if rest.len() == 0 {
            assert(joined(rest) =~= Seq::<char>::empty());
            assert(pieces =~= seq![Seq::<char>::empty(), Seq::<char>::empty()]);
            let t = pieces.drop_first();
            assert(t.len() == 1);
            assert(t.last().len() == 0);
            assert(t.drop_last() =~= Seq::<Seq<char>>::empty());
            assert(named_pieces(Seq::<Seq<char>>::empty()) == Seq::<Seq<char>>::empty());
            assert(named_pieces(t) == named_pieces(t.drop_last()));
            assert(named_pieces(t) == Seq::<Seq<char>>::empty());
        } else {
            lemma_split_on_joined(rest);
            assert(pieces =~= seq![Seq::<char>::empty()] + rest);
            assert(pieces.drop_first() =~= rest);
            lemma_named_pieces_keep(rest);
        }
        assert(sp[0] == '/');
        assert(components(sp) =~= cs);
    } else {
        assert forall|i: int| 0 <= i < cs.len() implies lacks(#[trigger] cs[i], '/') by {}
        lemma_split_on_joined(cs);
        let rest = cs.drop_first();
        assert forall|i: int| 0 <= i < rest.len() implies (#[trigger] rest[i]).len() > 0
            && rest[i] != seq!['.'] by {
            assert(rest[i] == cs[i + 1]);
        }
        lemma_named_pieces_keep(rest);
        assert(sp.len() > 0 && sp[0] == cs[0][0]) by {
            lemma_joined_starts(cs);
        }
        assert(cs[0][0] != '/');
        assert(seq![cs[0]] + rest =~= cs);
        assert(components(sp) =~= cs);
    }
}

proof fn lemma_joined_starts(cs: Seq<Seq<char>>)
    requires
        cs.len() >= 1,
        cs[0].len() > 0,
    ensures
        joined(cs).len() > 0,
        joined(cs)[0] == cs[0][0],
    decreases cs.len(),
{
    if cs.len() > 1 {
        lemma_joined_starts(cs.drop_last());
    }
}

/// Going up from a path that has a parent takes off exactly its last
/// component, so a search that keeps going up ends after at most as many
/// steps as the first path has components.
pub proof fn lemma_parent_drops_last_component(p: Seq<char>)
    requires
        has_parent(p),
    ensures
        components(parent_of(p)) == components(p).drop_last(),
        components(parent_of(p)).len() < components(p).len(),
{
    lemma_components_well_formed(p);
    let cs = components(p);
    let d = cs.drop_last();
    assert(well_formed(d)) by {
        assert forall|i: int| 0 <= i < d.len() implies {
            &&& (#[trigger] d[i]).len() > 0
            &&& (i > 0 ==> lacks(d[i], '/') && d[i] != seq!['.'])
            &&& (i == 0 && d[i] != seq!['/'] ==> lacks(d[i], '/'))
        } by {
            assert(d[i] == cs[i]);
        }
    }
    lemma_components_spelled(d);
}

} // verus!
