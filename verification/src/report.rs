//! The report of one file: its name and its text.

use crate::counts::{entries, WordCount};
use vstd::prelude::*;

verus! {

/// The character of a decimal digit.
pub open spec fn digit(d: nat) -> char {
    if d == 0 {
        '0'
    } else if d == 1 {
        '1'
    } else if d == 2 {
        '2'
    } else if d == 3 {
        '3'
    } else if d == 4 {
        '4'
    } else if d == 5 {
        '5'
    } else if d == 6 {
        '6'
    } else if d == 7 {
        '7'
    } else if d == 8 {
        '8'
    } else {
        '9'
    }
}

/// The decimal numeral of `n`, without leading zeros.
pub open spec fn decimal(n: nat) -> Seq<char>
    decreases n,
{
    if n < 10 {
        seq![digit(n)]
    } else {
        decimal(n / 10).push(digit(n % 10))
    }
}

/// The line of one entry: the word, a space, the count, a space, a line feed.
pub open spec fn line(entry: (Seq<char>, nat)) -> Seq<char> {
    entry.0 + seq![' '] + decimal(entry.1) + seq![' ', '\n']
}

/// The lines of the entries, one after the other.
pub open spec fn lines(table: Seq<(Seq<char>, nat)>) -> Seq<char>
    decreases table.len(),
{
    if table.len() == 0 {
        Seq::empty()
    } else {
        lines(table.drop_last()) + line(table.last())
    }
}

/// The text of a report: the file's name on a line of its own, then the line
/// of each entry.
pub open spec fn report(filename: Seq<char>, table: Seq<(Seq<char>, nat)>) -> Seq<char> {
    filename + seq!['\n'] + lines(table)
}

/// The suffix that makes a file's name into the name of its report.
pub open spec fn report_suffix() -> Seq<char> {
    "_report.txt"@
}

fn digit_char(d: usize) -> (c: char)
    requires
        d < 10,
    ensures
        c == digit(d as nat),
{
    if d == 0 {
        '0'
    } else if d == 1 {
        '1'
    } else if d == 2 {
        '2'
    } else if d == 3 {
        '3'
    } else if d == 4 {
        '4'
    } else if d == 5 {
        '5'
    } else if d == 6 {
        '6'
    } else if d == 7 {
        '7'
    } else if d == 8 {
        '8'
    } else {
        '9'
    }
}

/// Appends the decimal numeral of `n` to the text.
pub fn push_decimal(text: &mut String, n: usize)
    ensures
        final(text)@ == old(text)@ + decimal(n as nat),
    decreases n,
{
    if n < 10 {
        text.push(digit_char(n));
        assert(text@ =~= old(text)@ + decimal(n as nat));
    } else {
        push_decimal(text, n / 10);
        text.push(digit_char(n % 10));
        assert(text@ =~= old(text)@ + decimal(n as nat));
    }
}

/// The name of the report of the file: the file's name with `_report.txt`
/// behind it.
pub fn report_name(filename: &str) -> (name: String)
    ensures
        name@ == filename@ + report_suffix(),
{
    let mut name = filename.to_owned();
    name.append("_report.txt");
    name
}

/// The text of the report of one file.
pub fn report_text(filename: &str, table: &Vec<WordCount>) -> (text: String)
    ensures
        text@ == report(filename@, entries(table@)),
{
    let mut text = filename.to_owned();
    text.push('\n');
    let mut i: usize = 0;
    proof {
        assert(entries(table@).take(0) =~= Seq::empty());
        assert(text@ =~= report(filename@, entries(table@).take(0)));
    }
    while i < table.len()
        invariant
            i <= table.len(),
            text@ == report(filename@, entries(table@).take(i as int)),
        decreases table.len() - i,
    {
        let ghost done = entries(table@).take(i as int);
        let ghost next = entries(table@).take(i + 1);
        let ghost start = text@;
        text.append(table[i].word.as_str());
        text.push(' ');
        push_decimal(&mut text, table[i].count);
        text.push(' ');
        text.push('\n');
        proof {
            assert(next.drop_last() =~= done);
            assert(next.last() == table[i as int]@);
            assert(text@ =~= start + line(table[i as int]@));
            assert(text@ =~= report(filename@, next));
        }
        i += 1;
    }
    proof {
        assert(entries(table@).take(table.len() as int) =~= entries(table@));
    }
    text
}

/// The reports of the files, in the order of the file names: for each name
/// that has a table at its place, the report's name and the report's text.
pub fn generate_report(filenames: &Vec<String>, results: &Vec<Vec<WordCount>>) -> (out: Vec<
    (String, String),
>)
    ensures
        out.len() == if filenames.len() <= results.len() {
            filenames.len()
        } else {
            results.len()
        },
        forall|i: int|
            0 <= i < out.len() ==> (#[trigger] out[i]).0@ == filenames[i]@ + report_suffix()
                && out[i].1@ == report(filenames[i]@, entries(results[i]@)),
{
    let mut out: Vec<(String, String)> = Vec::new();
    let mut i: usize = 0;
    while i < filenames.len() && i < results.len()
        invariant
            i <= filenames.len(),
            i <= results.len(),
            out.len() == i,
            forall|k: int|
                0 <= k < i ==> (#[trigger] out[k]).0@ == filenames[k]@ + report_suffix()
                    && out[k].1@ == report(filenames[k]@, entries(results[k]@)),
        decreases filenames.len() - i,
    {
        let name = report_name(filenames[i].as_str());
        let text = report_text(filenames[i].as_str(), &results[i]);
        out.push((name, text));
        i += 1;
    }
    out
}

} // verus!
