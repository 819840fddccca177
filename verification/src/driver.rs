//! The driver's part between dispatch and the writing of reports: from the
//! outcomes of the files, in file order, to the name and text of each report.

use crate::counts::{aggregate_all, entries, tally, WordCount};
use crate::dispatch::Outcome;
use crate::order::{sort_all, sorted_from};
use crate::report::{generate_report, report, report_suffix};
use crate::tokenizer::views;
use vstd::prelude::*;

verus! {

/// Why no reports were made.
#[derive(Clone, Copy, Debug, PartialEq, Eq)]
pub enum RunError {
    /// There are `outcomes` outcomes for `names` file names.
    Misaligned { names: usize, outcomes: usize },
    /// The file at place `index` could not be read.
    Unreadable { index: usize },
}

/// The tokens that an outcome holds; none where the file could not be read.
pub open spec fn held_tokens(outcome: Outcome) -> Seq<Seq<char>> {
    match outcome {
        Outcome::Tokens(tokens) => views(tokens@),
        Outcome::Unreadable => Seq::empty(),
    }
}

/// The outcome at `index` is the first that holds no tokens.
pub open spec fn first_unreadable(outcomes: Seq<Outcome>, index: int) -> bool {
    &&& 0 <= index < outcomes.len()
    &&& outcomes[index] is Unreadable
    &&& forall|k: int| 0 <= k < index ==> #[trigger] outcomes[k] is Tokens
}

/// `name` and `text` are the report of the file with these tokens: the text
/// lists the file's frequency table in ascending order of count.
pub open spec fn is_report_of(
    filename: Seq<char>,
    tokens: Seq<Seq<char>>,
    name: Seq<char>,
    text: Seq<char>,
) -> bool {
    &&& name == filename + report_suffix()
    &&& exists|table: Seq<(Seq<char>, nat)>| #[trigger]
        sorted_from(tally(tokens), table) && text == report(filename, table)
}

/// There is one outcome and one report for each file name, every outcome
/// holds tokens, and each report is that of the file at its place.
pub open spec fn is_summary(
    filenames: Seq<String>,
    outcomes: Seq<Outcome>,
    reports: Seq<(String, String)>,
) -> bool {
    &&& outcomes.len() == filenames.len()
    &&& reports.len() == filenames.len()
    &&& forall|i: int| 0 <= i < outcomes.len() ==> #[trigger] outcomes[i] is Tokens
    &&& forall|i: int|
        0 <= i < reports.len() ==> is_report_of(
            filenames[i]@,
            held_tokens(outcomes[i]),
            (#[trigger] reports[i]).0@,
            reports[i].1@,
        )
}

/// The token lists of the outcomes, or the place of the first file that could
/// not be read.
pub fn word_lists_of(outcomes: Vec<Outcome>) -> (r: Result<Vec<Vec<String>>, usize>)
    ensures
        match r {
            Ok(lists) => lists.len() == outcomes.len() && forall|i: int|
                0 <= i < lists.len() ==> outcomes[i] == Outcome::Tokens(#[trigger] lists[i]),
            Err(index) => first_unreadable(outcomes@, index as int),
        },
{
    let ghost all = outcomes@;
    let mut lists: Vec<Vec<String>> = Vec::new();
    let mut failed: Option<usize> = None;
    for outcome in it: outcomes.into_iter()
        invariant
            it.seq() == all,
            failed matches Some(index) ==> first_unreadable(all, index as int),
            failed is None ==> lists.len() == it.index() && forall|i: int|
                0 <= i < lists.len() ==> all[i] == Outcome::Tokens(#[trigger] lists[i]),
    {
        if failed.is_none() {
            match outcome {
                Outcome::Tokens(tokens) => {
                    lists.push(tokens);
                },
                Outcome::Unreadable => {
                    assert forall|k: int| 0 <= k < lists.len() implies #[trigger] all[k] is Tokens by {
                        assert(all[k] == Outcome::Tokens(lists[k]));
                    }
                    failed = Some(lists.len());
                },
            }
        }
    }
    match failed {
        Some(index) => Err(index),
        None => Ok(lists),
    }
}

/// The reports of a run. Where there is one outcome for each file name and
/// every outcome holds tokens, the result holds, in file order, the name and
/// the text of each file's report. Otherwise it says what went wrong: the
/// numbers differ, or else which file was the first that could not be read.
pub fn summarize(filenames: &Vec<String>, outcomes: Vec<Outcome>) -> (r: Result<
    Vec<(String, String)>,
    RunError,
>)
    ensures
        match r {
            Ok(reports) => is_summary(filenames@, outcomes@, reports@),
            Err(RunError::Misaligned { names, outcomes: given }) => {
                &&& names == filenames.len()
                &&& given == outcomes.len()
                &&& names != given
            },
            Err(RunError::Unreadable { index }) => {
                &&& outcomes.len() == filenames.len()
                &&& first_unreadable(outcomes@, index as int)
            },
        },
{
    let ghost given = outcomes@;
    if outcomes.len() != filenames.len() {
        return Err(RunError::Misaligned { names: filenames.len(), outcomes: outcomes.len() });
    }
    let lists = match word_lists_of(outcomes) {
        Ok(lists) => lists,
        Err(index) => {
            return Err(RunError::Unreadable { index });
        },
    };
    let mut results: Vec<Vec<WordCount>> = aggregate_all(filenames, &lists);
    let ghost tables = results@;
    sort_all(&mut results);
    let reports = generate_report(filenames, &results);
    proof {
        assert forall|i: int| 0 <= i < given.len() implies #[trigger] given[i] is Tokens by {
            assert(given[i] == Outcome::Tokens(lists[i]));
        }
        assert forall|i: int| 0 <= i < reports@.len() implies is_report_of(
            filenames@[i]@,
            held_tokens(given[i]),
            (#[trigger] reports@[i]).0@,
            reports@[i].1@,
        ) by {
            assert(reports[i].0@ == filenames[i]@ + report_suffix());
            assert(given[i] == Outcome::Tokens(lists[i]));
            assert(entries(tables[i]@) == tally(views(lists[i]@)));
            assert(sorted_from(entries(tables[i]@), entries(results[i]@)));
        }
    }
    Ok(reports)
}

} // verus!
