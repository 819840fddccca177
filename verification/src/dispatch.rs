//! The dispatcher's bookkeeping: what one worker does with one file, and how
//! results that arrive in any order are put back into the order of the files.

use crate::tokenizer::{tokenize, tokens_of, views};
use vstd::prelude::*;

verus! {

/// The number of workers that run at a time unless the caller asks for another.
pub const THREAD_POOL: u32 = 4;

/// What one worker reports for its file.
#[derive(Debug, PartialEq, Eq)]
pub enum Outcome {
    /// The tokens of the file.
    Tokens(Vec<String>),
    /// The file could not be read as text.
    Unreadable,
}

/// Why a set of arrivals does not fill every slot exactly once.
#[derive(Clone, Copy, Debug, PartialEq, Eq)]
pub enum CollectError {
    /// The arrival at `position` names a slot that does not exist.
    OutOfRange { position: usize, index: usize },
    /// The arrival at `position` names a slot that an earlier one has filled.
    Duplicate { position: usize, index: usize },
    /// No arrival names the slot `index`.
    Missing { index: usize },
}

/// The arrival at place `k` names no slot, or one that an earlier arrival names.
pub open spec fn offends(count: usize, arrivals: Seq<(usize, Outcome)>, k: int) -> bool {
    arrivals[k].0 >= count || exists|e: int| 0 <= e < k && #[trigger] arrivals[e].0 == arrivals[k].0
}

/// One of the first `upto` arrivals names the slot.
pub open spec fn arrived(arrivals: Seq<(usize, Outcome)>, upto: int, slot: int) -> bool {
    exists|k: int| 0 <= k < upto && #[trigger] arrivals[k].0 == slot
}

/// What a worker reports for a file whose text was loaded, or could not be.
pub fn outcome_of(text: Option<&str>) -> (out: Outcome)
    ensures
        match text {
            Some(t) => out matches Outcome::Tokens(tokens) && views(tokens@) == tokens_of(t@),
            None => out == Outcome::Unreadable,
        },
{
    match text {
        Some(t) => Outcome::Tokens(tokenize(t)),
        None => Outcome::Unreadable,
    }
}

/// Tokenizes the texts one after the other: the baseline that concurrent
/// dispatch must agree with.
pub fn tokenize_all(texts: &Vec<String>) -> (out: Vec<Vec<String>>)
    ensures
        out.len() == texts.len(),
        forall|i: int| 0 <= i < texts.len() ==> views(#[trigger] out[i]@) == tokens_of(texts[i]@),
{
    let mut out: Vec<Vec<String>> = Vec::new();
    let mut i: usize = 0;
    while i < texts.len()
        invariant
            i <= texts.len(),
            out.len() == i,
            forall|k: int| 0 <= k < i ==> views(#[trigger] out[k]@) == tokens_of(texts[k]@),
        decreases texts.len() - i,
    {
        let tokens = tokenize(texts[i].as_str());
        out.push(tokens);
        i += 1;
    }
    out
}

/// The error names the first arrival that offends, or, where none does, the
/// first slot that no arrival names.
pub open spec fn explains(count: usize, arrivals: Seq<(usize, Outcome)>, e: CollectError) -> bool {
    match e {
        CollectError::OutOfRange { position, index } => {
            &&& position < arrivals.len()
            &&& forall|k: int| 0 <= k < position ==> !offends(count, arrivals, k)
            &&& index == arrivals[position as int].0
            &&& index >= count
        },
        CollectError::Duplicate { position, index } => {
            &&& position < arrivals.len()
            &&& forall|k: int| 0 <= k < position ==> !offends(count, arrivals, k)
            &&& index == arrivals[position as int].0
            &&& index < count
            &&& arrived(arrivals, position as int, index as int)
        },
        CollectError::Missing { index } => {
            &&& forall|k: int| 0 <= k < arrivals.len() ==> !offends(count, arrivals, k)
            &&& index < count
            &&& !arrived(arrivals, arrivals.len() as int, index as int)
            &&& forall|slot: int| 0 <= slot < index ==> arrived(arrivals, arrivals.len() as int, slot)
        },
    }
}

/// Every slot below `count` is named by exactly one arrival, and no arrival
/// names another.
pub open spec fn fills_each_once(count: usize, arrivals: Seq<(usize, Outcome)>) -> bool {
    &&& forall|k: int| 0 <= k < arrivals.len() ==> !offends(count, arrivals, k)
    &&& forall|slot: int| 0 <= slot < count ==> arrived(arrivals, arrivals.len() as int, slot)
}

/// Puts the outcomes into the order of the files. Each arrival is an outcome
/// tagged with the place of its file; the arrivals come in any order. Where
/// every slot below `count` is named exactly once, slot `i` of the result
/// holds the outcome that was tagged `i`. Otherwise the first arrival that
/// names no slot or a filled one is reported, and if there is none, the first
/// slot that stayed empty.
pub fn collect_in_order(count: usize, arrivals: Vec<(usize, Outcome)>) -> (r: Result<
    Vec<Outcome>,
    CollectError,
>)
    ensures
        r is Ok <==> fills_each_once(count, arrivals@),
        match r {
            Ok(out) => {
                &&& out.len() == count
                &&& forall|k: int|
                    0 <= k < arrivals.len() ==> arrivals[k].0 < count && out[arrivals[k].0 as int]
                        == arrivals[k].1
            },
            Err(e) => explains(count, arrivals@, e),
        },
{
    let ghost all = arrivals@;
    let total: usize = arrivals.len();
    let mut out: Vec<Outcome> = Vec::new();
    let mut filled: Vec<bool> = Vec::new();
    let mut n: usize = 0;
    while n < count
        invariant
            n <= count,
            out.len() == n,
            filled.len() == n,
            forall|slot: int| 0 <= slot < n ==> !filled[slot],
        decreases count - n,
    {
        out.push(Outcome::Unreadable);
        filled.push(false);
        n += 1;
    }
    let mut failure: Option<CollectError> = None;
    let mut position: usize = 0;
    for arrival in it: arrivals.into_iter()
        invariant
            it.seq() == all,
            all.len() == total,
            out.len() == count,
            filled.len() == count,
            failure matches Some(e) ==> explains(count, all, e) && !(e is Missing),
            failure is None ==> {
                &&& position == it.index()
                &&& forall|k: int| 0 <= k < position ==> !offends(count, all, k)
                &&& forall|slot: int|
                    0 <= slot < count ==> (filled[slot] <==> arrived(all, position as int, slot))
                &&& forall|k: int|
                    0 <= k < position ==> all[k].0 < count && out[all[k].0 as int] == all[k].1
            },
    {
        if failure.is_none() {
            let (index, outcome) = arrival;
            assert(position < all.len());
            assert(all[position as int] == (index, outcome));
            if index >= count {
                failure = Some(CollectError::OutOfRange { position, index });
            } else if filled[index] {
                failure = Some(CollectError::Duplicate { position, index });
            } else {
                proof {
                    assert forall|e: int| 0 <= e < position implies all[e].0 != index by {
                        if all[e].0 == index {
                            assert(arrived(all, position as int, index as int));
                        }
                    }
                    assert(!offends(count, all, position as int));
                }
                let ghost before = filled@;
                out.set(index, outcome);
                filled.set(index, true);
                proof {
                    assert forall|slot: int| 0 <= slot < count implies (filled[slot] <==> arrived(
                        all,
                        position + 1,
                        slot,
                    )) by {
                        if slot == index {
                            assert(all[position as int].0 == slot);
                        } else if before[slot] {
                            let k = choose|k: int| 0 <= k < position && #[trigger] all[k].0 == slot;
                            assert(0 <= k < position + 1 && all[k].0 == slot);
                        } else if arrived(all, position + 1, slot) {
                            let k = choose|k: int|
                                0 <= k < position + 1 && #[trigger] all[k].0 == slot;
                            assert(k < position);
                            assert(arrived(all, position as int, slot));
                        }
                    }
                    assert forall|k: int| 0 <= k < position + 1 implies all[k].0 < count && out[all[k].0 as int]
                        == all[k].1 by {
                        if k < position {
                            assert(all[k].0 != index);
                        }
                    }
                }
                position += 1;
            }
        }
    }
    match failure {
        Some(e) => {
            proof {
                lemma_offender_excludes_filling(count, all, e);
            }
            return Err(e);
        },
        None => {},
    }
    assert(position == all.len());
    let mut slot: usize = 0;
    while slot < count
        invariant
            slot <= count,
            all == arrivals@,
            filled.len() == count,
            out.len() == count,
            forall|s: int| 0 <= s < slot ==> filled[s],
            forall|k: int| 0 <= k < all.len() ==> !offends(count, all, k),
            forall|s: int| 0 <= s < count ==> (filled[s] <==> arrived(all, all.len() as int, s)),
            forall|k: int| 0 <= k < all.len() ==> all[k].0 < count && out[all[k].0 as int] == all[k].1,
        decreases count - slot,
    {
        if !filled[slot] {
            proof {
                assert forall|s: int| 0 <= s < slot implies arrived(all, all.len() as int, s) by {
                    assert(filled[s]);
                }
                assert(!arrived(all, all.len() as int, slot as int));
            }
            return Err(CollectError::Missing { index: slot });
        }
        slot += 1;
    }
    Ok(out)
}

/// Where an arrival offends, the arrivals do not fill each slot once.
pub proof fn lemma_offender_excludes_filling(count: usize, arrivals: Seq<(usize, Outcome)>, e: CollectError)
    requires
        explains(count, arrivals, e),
    ensures
        !fills_each_once(count, arrivals),
{
    match e {
        CollectError::OutOfRange { position, index } => {
            assert(offends(count, arrivals, position as int));
        },
        CollectError::Duplicate { position, index } => {
            let k = choose|k: int| 0 <= k < position && #[trigger] arrivals[k].0 == index as int;
            assert(arrivals[k].0 == arrivals[position as int].0);
            assert(offends(count, arrivals, position as int));
        },
        CollectError::Missing { index } => {},
    }
}

} // verus!
