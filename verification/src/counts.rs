//! The frequency aggregator: how often each distinct word occurs in a list of
//! tokens.

use crate::tokenizer::views;
use vstd::prelude::*;

verus! {

/// A word and the number of times it occurs in one file.
#[derive(Clone, Debug, PartialEq, Eq)]
pub struct WordCount {
    pub word: String,
    pub count: usize,
}

impl View for WordCount {
    type V = (Seq<char>, nat);

    open spec fn view(&self) -> (Seq<char>, nat) {
        (self.word@, self.count as nat)
    }
}

/// The pairs that a list of word counts stands for.
pub open spec fn entries(v: Seq<WordCount>) -> Seq<(Seq<char>, nat)> {
    Seq::new(v.len(), |i: int| v[i]@)
}

/// How often `w` occurs among the tokens; the comparison is exact.
pub open spec fn occurrences(tokens: Seq<Seq<char>>, w: Seq<char>) -> nat
    decreases tokens.len(),
{
    if tokens.len() == 0 {
        0
    } else {
        occurrences(tokens.drop_last(), w) + if tokens.last() == w {
            1nat
        } else {
            0nat
        }
    }
}

/// The distinct tokens, each at the place of its first occurrence.
pub open spec fn distinct(tokens: Seq<Seq<char>>) -> Seq<Seq<char>>
    decreases tokens.len(),
{
    if tokens.len() == 0 {
        Seq::empty()
    } else {
        let d = distinct(tokens.drop_last());
        if d.contains(tokens.last()) {
            d
        } else {
            d.push(tokens.last())
        }
    }
}

/// The frequency table of the tokens: one pair for each distinct word, with
/// the number of its occurrences.
pub open spec fn tally(tokens: Seq<Seq<char>>) -> Seq<(Seq<char>, nat)> {
    Seq::new(distinct(tokens).len(), |i: int| (distinct(tokens)[i], occurrences(tokens, distinct(tokens)[i])))
}

/// A frequency table holds no word twice and no count of zero.
pub open spec fn is_frequency_table(table: Seq<(Seq<char>, nat)>) -> bool {
    &&& forall|i: int| 0 <= i < table.len() ==> (#[trigger] table[i]).1 >= 1
    &&& forall|i: int, j: int| 0 <= i < j < table.len() ==> table[i].0 != table[j].0
}

/// The sum of the counts of a table.
pub open spec fn total(table: Seq<(Seq<char>, nat)>) -> nat
    decreases table.len(),
{
    if table.len() == 0 {
        0
    } else {
        total(table.drop_last()) + table.last().1
    }
}

/// A word occurs at most as often as there are tokens.
pub proof fn lemma_occurrences_bound(tokens: Seq<Seq<char>>, w: Seq<char>)
    ensures
        occurrences(tokens, w) <= tokens.len(),
    decreases tokens.len(),
{
    if tokens.len() > 0 {
        lemma_occurrences_bound(tokens.drop_last(), w);
    }
}

/// The distinct tokens are exactly the tokens, none of them twice, and each
/// occurs at least once.
pub proof fn lemma_distinct(tokens: Seq<Seq<char>>)
    ensures
        forall|i: int, j: int|
            0 <= i < j < distinct(tokens).len() ==> distinct(tokens)[i] != distinct(tokens)[j],
        forall|w: Seq<char>| #[trigger] distinct(tokens).contains(w) <==> tokens.contains(w),
        forall|w: Seq<char>| tokens.contains(w) <==> #[trigger] occurrences(tokens, w) >= 1,
        distinct(tokens).len() <= tokens.len(),
    decreases tokens.len(),
{
    if tokens.len() > 0 {
        let front = tokens.drop_last();
        let d = distinct(front);
        lemma_distinct(front);
        assert forall|w: Seq<char>| tokens.contains(w) <==> (front.contains(w) || w
            == tokens.last()) by {
            if tokens.contains(w) {
                let k = choose|k: int| 0 <= k < tokens.len() && tokens[k] == w;
                if k < front.len() {
                    assert(front[k] == w);
                }
            }
            if front.contains(w) {
                let k = choose|k: int| 0 <= k < front.len() && front[k] == w;
                assert(tokens[k] == w);
            }
            if w == tokens.last() {
                assert(tokens[tokens.len() - 1] == w);
            }
        }
        assert forall|w: Seq<char>| tokens.contains(w) <==> #[trigger] occurrences(tokens, w)
            >= 1 by {
            assert(front.contains(w) <==> occurrences(front, w) >= 1);
        }
        if !d.contains(tokens.last()) {
            let e = d.push(tokens.last());
            assert forall|w: Seq<char>| e.contains(w) <==> (d.contains(w) || w
                == tokens.last()) by {
                if e.contains(w) {
                    let k = choose|k: int| 0 <= k < e.len() && e[k] == w;
                    if k < d.len() {
                        assert(d[k] == w);
                    }
                }
                if d.contains(w) {
                    let k = choose|k: int| 0 <= k < d.len() && d[k] == w;
                    assert(e[k] == w);
                }
                if w == tokens.last() {
                    assert(e[d.len() as int] == w);
                }
            }
            assert forall|i: int, j: int| 0 <= i < j < e.len() implies e[i] != e[j] by {
                if j == d.len() {
                    assert(d.contains(d[i]));
                }
            }
        }
    }
}

/// The frequency table of a token list holds each token, no word twice, and
/// each word with the number of its occurrences, which is at least one.
pub proof fn lemma_tally_is_table(tokens: Seq<Seq<char>>)
    ensures
        is_frequency_table(tally(tokens)),
        forall|k: int|
            0 <= k < tokens.len() ==> exists|i: int|
                0 <= i < tally(tokens).len() && tally(tokens)[i].0 == #[trigger] tokens[k],
        forall|i: int|
            0 <= i < tally(tokens).len() ==> (#[trigger] tally(tokens)[i]).1 == occurrences(
                tokens,
                tally(tokens)[i].0,
            ),
{
    lemma_distinct(tokens);
    let d = distinct(tokens);
    assert forall|i: int| 0 <= i < tally(tokens).len() implies (#[trigger] tally(tokens)[i]).1
        >= 1 by {
        assert(d.contains(d[i]));
    }
    assert forall|k: int| 0 <= k < tokens.len() implies exists|i: int|
        0 <= i < tally(tokens).len() && tally(tokens)[i].0 == #[trigger] tokens[k] by {
        assert(tokens.contains(tokens[k]));
        assert(d.contains(tokens[k]));
        let i = choose|i: int| 0 <= i < d.len() && d[i] == tokens[k];
        assert(tally(tokens)[i].0 == tokens[k]);
    }
}

/// The counts of the frequency table of a token list add up to the number of
/// tokens.
pub proof fn lemma_tally_total(tokens: Seq<Seq<char>>)
    ensures
        total(tally(tokens)) == tokens.len(),
    decreases tokens.len(),
{
    if tokens.len() > 0 {
        let front = tokens.drop_last();
        let t = tokens.last();
        let d = distinct(front);
        lemma_tally_total(front);
        lemma_distinct(front);
        if d.contains(t) {
            let j = choose|j: int| 0 <= j < d.len() && d[j] == t;
            let bumped = (t, tally(front)[j].1 + 1);
            assert(tally(tokens) =~= tally(front).update(j, bumped));
            lemma_total_update(tally(front), j, bumped);
        } else {
            assert(!front.contains(t));
            assert(occurrences(front, t) == 0);
            assert(tally(tokens).drop_last() =~= tally(front));
        }
    }
}

/// Replacing one pair of a table changes the sum by the change of its count.
pub proof fn lemma_total_update(table: Seq<(Seq<char>, nat)>, j: int, pair: (Seq<char>, nat))
    requires
        0 <= j < table.len(),
    ensures
        total(table.update(j, pair)) + table[j].1 == total(table) + pair.1,
    decreases table.len(),
{
    let last = table.len() - 1;
    if j == last {
        assert(table.update(j, pair).drop_last() =~= table.drop_last());
    } else {
        assert(table.update(j, pair).drop_last() =~= table.drop_last().update(j, pair));
        lemma_total_update(table.drop_last(), j, pair);
    }
}

/// The place of `word` among the counted words, if it is there.
fn position(table: &Vec<WordCount>, word: &String) -> (found: Option<usize>)
    ensures
        match found {
            Some(j) => j < table.len() && table[j as int].word@ == word@ && forall|i: int|
                0 <= i < j ==> table[i].word@ != word@,
            None => forall|i: int| 0 <= i < table.len() ==> table[i].word@ != word@,
        },
{
    let mut i: usize = 0;
    while i < table.len()
        invariant
            i <= table.len(),
            forall|k: int| 0 <= k < i ==> table[k].word@ != word@,
        decreases table.len() - i,
    {
        if table[i].word == *word {
            return Some(i);
        }
        i += 1;
    }
    None
}

/// Counts the tokens: one entry for each distinct word, in the order of first
/// occurrence, with the number of times the word occurs. The counts add up to
/// the number of tokens.
pub fn aggregate(tokens: &Vec<String>) -> (out: Vec<WordCount>)
    ensures
        entries(out@) == tally(views(tokens@)),
        total(entries(out@)) == tokens.len(),
        is_frequency_table(entries(out@)),
{
    let ghost all = views(tokens@);
    let mut out: Vec<WordCount> = Vec::new();
    let mut k: usize = 0;
    proof {
        assert(all.take(0) =~= Seq::empty());
        assert(entries(out@) =~= tally(all.take(0)));
    }
    while k < tokens.len()
        invariant
            k <= tokens.len(),
            all == views(tokens@),
            entries(out@) == tally(all.take(k as int)),
        decreases tokens.len() - k,
    {
        let ghost front = all.take(k as int);
        let ghost next = all.take(k + 1);
        let ghost t = all[k as int];
        proof {
            assert(next.drop_last() =~= front);
            assert(next.last() == t);
            lemma_distinct(front);
            assert(entries(out@).len() == out.len());
            assert(tally(front).len() == distinct(front).len());
            assert forall|i: int| 0 <= i < out.len() implies out[i].word@ == distinct(front)[i]
                && out[i].count == occurrences(front, distinct(front)[i]) by {
                assert(entries(out@)[i] == tally(front)[i]);
            }
        }
        match position(&out, &tokens[k]) {
            Some(j) => {
                proof {
                    lemma_occurrences_bound(front, t);
                    assert(distinct(front)[j as int] == t);
                    assert(distinct(front).contains(t));
                }
                let bumped = WordCount { word: tokens[k].clone(), count: out[j].count + 1 };
                out.set(j, bumped);
                proof {
                    assert(entries(out@) =~= tally(next));
                }
            },
            None => {
                proof {
                    if distinct(front).contains(t) {
                        let i = choose|i: int| 0 <= i < distinct(front).len() && distinct(front)[i] == t;
                        assert(out[i].word@ == t);
                    }
                    assert(!front.contains(t));
                    assert(occurrences(front, t) == 0);
                }
                out.push(WordCount { word: tokens[k].clone(), count: 1 });
                proof {
                    assert(entries(out@) =~= tally(next));
                }
            },
        }
        k += 1;
    }
    proof {
        assert(all.take(tokens.len() as int) =~= all);
        lemma_tally_total(all);
        lemma_tally_is_table(all);
    }
    out
}

/// The frequency table of each file: one for each file name, made from the
/// token list at the same place.
pub fn aggregate_all(file_names: &Vec<String>, token_lists: &Vec<Vec<String>>) -> (out: Vec<
    Vec<WordCount>,
>)
    requires
        file_names.len() <= token_lists.len(),
    ensures
        out.len() == file_names.len(),
        forall|i: int|
            0 <= i < file_names.len() ==> entries(#[trigger] out[i]@) == tally(
                views(token_lists[i]@),
            ),
{
    let mut out: Vec<Vec<WordCount>> = Vec::new();
    let mut i: usize = 0;
    while i < file_names.len()
        invariant
            i <= file_names.len() <= token_lists.len(),
            out.len() == i,
            forall|k: int|
                0 <= k < i ==> entries(#[trigger] out[k]@) == tally(views(token_lists[k]@)),
        decreases file_names.len() - i,
    {
        let table = aggregate(&token_lists[i]);
        out.push(table);
        i += 1;
    }
    out
}

} // verus!
