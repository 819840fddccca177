//! The working set of file names: those of a list that exist.

use crate::tokenizer::views;
use vstd::prelude::*;

verus! {

/// The names whose flag is set, in their order. A name without a flag counts
/// as missing.
pub open spec fn existing(names: Seq<Seq<char>>, present: Seq<bool>) -> Seq<Seq<char>>
    decreases names.len(),
{
    if names.len() == 0 {
        Seq::empty()
    } else {
        let front = existing(names.drop_last(), present);
        if names.len() - 1 < present.len() && present[names.len() - 1] {
            front.push(names.last())
        } else {
            front
        }
    }
}

/// Keeps the names of the files that exist: `present[i]` says whether the
/// file named `files[i]` does. The names that stay keep their order.
pub fn clean_filelist(files: Vec<String>, present: &Vec<bool>) -> (out: Vec<String>)
    ensures
        views(out@) == existing(views(files@), present@),
{
    let ghost names = views(files@);
    let ghost all = files@;
    let total: usize = files.len();
    let mut out: Vec<String> = Vec::new();
    let mut i: usize = 0;
    proof {
        assert(names.take(0) =~= Seq::empty());
        assert(views(out@) =~= Seq::empty());
    }
    for name in it: files.into_iter()
        invariant
            it.seq() == all,
            all.len() == total,
            views(all) == names,
            i == it.index(),
            views(out@) == existing(names.take(i as int), present@),
    {
        proof {
            assert(i < all.len());
            assert(names.take(i + 1).drop_last() =~= names.take(i as int));
            assert(names.take(i + 1).last() == name@) by {
                assert(views(all)[i as int] == all[i as int]@);
            }
        }
        let ghost before = views(out@);
        if i < present.len() && present[i] {
            out.push(name);
            proof {
                assert(views(out@) =~= before.push(name@));
            }
        }
        i += 1;
    }
    proof {
        assert(names.take(names.len() as int) =~= names);
    }
    out
}

} // verus!
