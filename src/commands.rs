//! The argument lists handed to `git` for pushing and stashing.
use vstd::prelude::*;

use crate::text::views;

verus! {

/// The arguments of a push: `push`, then the extra arguments, if any.
pub fn push_args(args: Option<Vec<String>>) -> (r: Vec<String>)
    ensures
        views(r@) == seq!["push"@] + match args {
            Some(a) => views(a@),
            None => Seq::<Seq<char>>::empty(),
        },
{
    let mut out: Vec<String> = Vec::new();
    out.push(String::from_str("push"));
    let ghost lead = views(out@);
    assert(lead =~= seq!["push"@]);
    match args {
        Some(extra) => {
            let mut i: usize = 0;
            assert(views(extra@).take(0) =~= Seq::<Seq<char>>::empty());
            assert(lead + views(extra@).take(0) =~= lead);
            while i < extra.len()
                invariant
                    i <= extra@.len(),
                    views(out@) == lead + views(extra@).take(i as int),
                decreases extra@.len() - i,
            {
                let ghost before = views(out@);
                out.push(extra[i].clone());
                assert(views(out@) =~= before.push(extra@[i as int]@));
                assert(views(extra@).take(i + 1) =~= views(extra@).take(i as int).push(
                    extra@[i as int]@,
                ));
                assert(views(out@) =~= lead + views(extra@).take(i + 1));
                i = i + 1;
            }
            assert(views(extra@).take(i as int) =~= views(extra@));
        },
        None => {
            assert(lead + Seq::<Seq<char>>::empty() =~= lead);
        },
    }
    out
}

/// The arguments of a stash: `stash pop` to apply the last stash, else
/// `stash -u`, which keeps untracked files too.
pub fn stash_args(pop: bool) -> (r: Vec<String>)
    ensures
        views(r@) == seq![
            "stash"@,
            if pop {
                "pop"@
            } else {
                "-u"@
            },
        ],
{
    let mut out: Vec<String> = Vec::new();
    out.push(String::from_str("stash"));
    if pop {
        out.push(String::from_str("pop"));
    } else {
        out.push(String::from_str("-u"));
    }
    assert(views(out@) =~= seq![
        "stash"@,
        if pop {
            "pop"@
        } else {
            "-u"@
        },
    ]);
    out
}

} // verus!
