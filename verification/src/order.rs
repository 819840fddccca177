//! The sorter: a frequency table is put into ascending order of count, and
//! entries of equal count keep the order in which they stood.

use crate::counts::{entries, is_frequency_table, WordCount};
use vstd::prelude::*;

verus! {

/// No entry stands before one of a smaller count.
pub open spec fn ascending(table: Seq<(Seq<char>, nat)>) -> bool {
    forall|i: int, j: int| 0 <= i < j < table.len() ==> table[i].1 <= table[j].1
}

/// The test that an entry has the count `c`.
pub open spec fn has_count(c: nat) -> spec_fn((Seq<char>, nat)) -> bool {
    |e: (Seq<char>, nat)| e.1 == c
}

/// The entries of count `c`, in the order in which they stand in the table.
pub open spec fn with_count(table: Seq<(Seq<char>, nat)>, c: nat) -> Seq<(Seq<char>, nat)> {
    table.filter(has_count(c))
}

/// `after` is `before` in ascending order of count, with the entries of each
/// count in their old order.
pub open spec fn sorted_from(before: Seq<(Seq<char>, nat)>, after: Seq<(Seq<char>, nat)>) -> bool {
    &&& ascending(after)
    &&& after.to_multiset() == before.to_multiset()
    &&& forall|c: nat| with_count(after, c) == with_count(before, c)
}

/// The entries of one count in a table of two parts are those of the first
/// part, then those of the second.
pub proof fn lemma_with_count_add(a: Seq<(Seq<char>, nat)>, b: Seq<(Seq<char>, nat)>, c: nat)
    ensures
        with_count(a + b, c) == with_count(a, c) + with_count(b, c),
{
    Seq::filter_distributes_over_add(a, b, has_count(c));
}

/// A table of one entry holds that entry under its own count and nothing
/// under any other.
pub proof fn lemma_with_count_one(e: (Seq<char>, nat), c: nat)
    ensures
        with_count(seq![e], c) == if e.1 == c {
            seq![e]
        } else {
            Seq::empty()
        },
{
    let none = Seq::<(Seq<char>, nat)>::empty();
    none.lemma_filter_prepend(e, has_count(c));
    assert(seq![e] + none =~= seq![e]);
    none.lemma_all_neg_filter_empty(has_count(c));
    assert(none.filter(has_count(c)) =~= none);
    if e.1 == c {
        assert(seq![e] + none =~= seq![e]);
    } else {
        assert(none + none =~= none);
    }
}

/// A table in which no entry has the count `c` holds nothing under it.
pub proof fn lemma_with_count_none(a: Seq<(Seq<char>, nat)>, c: nat)
    requires
        forall|i: int| 0 <= i < a.len() ==> a[i].1 != c,
    ensures
        with_count(a, c) == Seq::<(Seq<char>, nat)>::empty(),
{
    assert(a.all(|x: (Seq<char>, nat)| !has_count(c)(x)));
    a.lemma_all_neg_filter_empty(has_count(c));
    assert(with_count(a, c) =~= Seq::empty());
}

/// Putting `e` into a sorted table, behind the smaller counts and before the
/// others, gives the sorted form of `e` followed by what the table came from.
pub proof fn lemma_insert_sorted(
    table: Seq<(Seq<char>, nat)>,
    p: int,
    e: (Seq<char>, nat),
    rest: Seq<(Seq<char>, nat)>,
)
    requires
        sorted_from(rest, table),
        0 <= p <= table.len(),
        forall|i: int| 0 <= i < p ==> table[i].1 < e.1,
        forall|i: int| p <= i < table.len() ==> table[i].1 >= e.1,
    ensures
        sorted_from(seq![e] + rest, table.insert(p, e)),
{
    let after = table.insert(p, e);
    let before = seq![e] + rest;
    let head = table.take(p);
    let tail = table.skip(p);
    assert(after =~= (head + seq![e]) + tail);
    assert(table =~= head + tail);
    assert(ascending(after)) by {
        assert forall|i: int, j: int| 0 <= i < j < after.len() implies after[i].1 <= after[j].1 by {
            if i < p && j > p {
                assert(after[i] == table[i] && after[j] == table[j - 1]);
            } else if i > p {
                assert(after[i] == table[i - 1] && after[j] == table[j - 1]);
            }
        }
    }
    assert(after.to_multiset() == before.to_multiset()) by {
        vstd::seq_lib::to_multiset_insert(table, p, e);
        vstd::seq_lib::to_multiset_insert(rest, 0, e);
        assert(rest.insert(0, e) =~= before);
    }
    assert forall|c: nat| with_count(after, c) == with_count(before, c) by {
        lemma_with_count_add(head + seq![e], tail, c);
        lemma_with_count_add(head, seq![e], c);
        lemma_with_count_add(head, tail, c);
        lemma_with_count_add(seq![e], rest, c);
        lemma_with_count_one(e, c);
        assert(with_count(table, c) == with_count(rest, c));
        if e.1 == c {
            lemma_with_count_none(head, c);
            assert(with_count(after, c) =~= seq![e] + with_count(tail, c));
            assert(with_count(table, c) =~= with_count(tail, c));
        } else {
            assert(with_count(after, c) =~= with_count(head, c) + with_count(tail, c));
            assert(with_count(before, c) =~= with_count(rest, c));
        }
    }
}

/// The entries of one count in a table with one more entry at its end.
pub proof fn lemma_with_count_push(a: Seq<(Seq<char>, nat)>, e: (Seq<char>, nat), c: nat)
    ensures
        with_count(a.push(e), c) == if e.1 == c {
            with_count(a, c).push(e)
        } else {
            with_count(a, c)
        },
{
    a.lemma_filter_push(e, has_count(c));
}

/// Two ascending tables that hold, for each count, the same entries in the
/// same order are the same table.
pub proof fn lemma_ascending_unique(a: Seq<(Seq<char>, nat)>, b: Seq<(Seq<char>, nat)>)
    requires
        ascending(a),
        ascending(b),
        forall|c: nat| with_count(a, c) == with_count(b, c),
    ensures
        a == b,
    decreases a.len() + b.len(),
{
    if a.len() == 0 && b.len() == 0 {
        assert(a =~= b);
    } else if a.len() == 0 {
        let y = b.last();
        assert(b =~= b.drop_last().push(y));
        lemma_with_count_push(b.drop_last(), y, y.1);
        lemma_with_count_none(a, y.1);
        assert(with_count(b, y.1).len() > 0);
    } else if b.len() == 0 {
        let x = a.last();
        assert(a =~= a.drop_last().push(x));
        lemma_with_count_push(a.drop_last(), x, x.1);
        lemma_with_count_none(b, x.1);
        assert(with_count(a, x.1).len() > 0);
    } else {
        let x = a.last();
        let y = b.last();
        let front = a.drop_last();
        let other = b.drop_last();
        assert(a =~= front.push(x));
        assert(b =~= other.push(y));
        lemma_with_count_push(front, x, x.1);
        lemma_with_count_push(other, y, y.1);
        assert(x.1 <= y.1) by {
            let group = with_count(b, x.1);
            assert(group == with_count(front, x.1).push(x));
            assert(group[group.len() - 1] == x);
            assert(group.contains(x));
            b.lemma_filter_contains_rev(has_count(x.1), x);
            let j = choose|j: int| 0 <= j < b.len() && b[j] == x;
            assert(b[j].1 <= b[b.len() - 1].1);
        }
        assert(y.1 <= x.1) by {
            let group = with_count(a, y.1);
            assert(group == with_count(other, y.1).push(y));
            assert(group[group.len() - 1] == y);
            assert(group.contains(y));
            a.lemma_filter_contains_rev(has_count(y.1), y);
            let j = choose|j: int| 0 <= j < a.len() && a[j] == y;
            assert(a[j].1 <= a[a.len() - 1].1);
        }
        let top = x.1;
        assert(with_count(front, top).push(x) == with_count(other, top).push(y));
        assert(x == y) by {
            assert(with_count(front, top).push(x).last() == x);
            assert(with_count(other, top).push(y).last() == y);
        }
        assert forall|c: nat| with_count(front, c) == with_count(other, c) by {
            lemma_with_count_push(front, x, c);
            lemma_with_count_push(other, y, c);
            assert(with_count(a, c) == with_count(b, c));
            if c == top {
                assert(with_count(front, c) =~= with_count(front, c).push(x).drop_last());
                assert(with_count(other, c) =~= with_count(other, c).push(y).drop_last());
            }
        }
        assert(ascending(front)) by {
            assert forall|i: int, j: int| 0 <= i < j < front.len() implies front[i].1 <= front[j].1 by {
                assert(front[i] == a[i] && front[j] == a[j]);
            }
        }
        assert(ascending(other)) by {
            assert forall|i: int, j: int| 0 <= i < j < other.len() implies other[i].1 <= other[j].1 by {
                assert(other[i] == b[i] && other[j] == b[j]);
            }
        }
        lemma_ascending_unique(front, other);
    }
}

/// Sorting has one result: two tables that are both the sorted form of the
/// same table are equal.
pub proof fn lemma_sorted_unique(
    before: Seq<(Seq<char>, nat)>,
    a: Seq<(Seq<char>, nat)>,
    b: Seq<(Seq<char>, nat)>,
)
    requires
        sorted_from(before, a),
        sorted_from(before, b),
    ensures
        a == b,
{
    lemma_ascending_unique(a, b);
}

/// The sorted form of a frequency table is a frequency table: it holds no
/// word twice and no count of zero.
pub proof fn lemma_sorted_is_table(before: Seq<(Seq<char>, nat)>, after: Seq<(Seq<char>, nat)>)
    requires
        sorted_from(before, after),
        is_frequency_table(before),
    ensures
        is_frequency_table(after),
        after.len() == before.len(),
{
    vstd::seq_lib::to_multiset_len(before);
    vstd::seq_lib::to_multiset_len(after);
    assert(before.no_duplicates()) by {
        assert forall|i: int, j: int| 0 <= i < before.len() && 0 <= j < before.len() && i
            != j implies before[i] != before[j] by {
            if i < j {
                assert(before[i].0 != before[j].0);
            } else {
                assert(before[j].0 != before[i].0);
            }
        }
    }
    before.lemma_multiset_has_no_duplicates();
    after.lemma_multiset_has_no_duplicates_conv();
    assert forall|i: int| 0 <= i < after.len() implies exists|k: int|
        0 <= k < before.len() && before[k] == #[trigger] after[i] by {
        vstd::seq_lib::to_multiset_contains(after, after[i]);
        vstd::seq_lib::to_multiset_contains(before, after[i]);
        assert(after.contains(after[i]));
        assert(before.contains(after[i]));
    }
    assert forall|i: int, j: int| 0 <= i < j < after.len() implies after[i].0 != after[j].0 by {
        let k = choose|k: int| 0 <= k < before.len() && before[k] == after[i];
        let m = choose|m: int| 0 <= m < before.len() && before[m] == after[j];
        assert(after[i] != after[j]);
        if k < m {
            assert(before[k].0 != before[m].0);
        } else if m < k {
            assert(before[m].0 != before[k].0);
        }
    }
}

/// The first place in a sorted table whose entry has a count of at least
/// `count`; the table's length if there is none.
fn insertion_point(table: &Vec<WordCount>, count: usize) -> (p: usize)
    requires
        ascending(entries(table@)),
    ensures
        p <= table.len(),
        forall|i: int| 0 <= i < p ==> table[i].count < count,
        forall|i: int| p <= i < table.len() ==> table[i].count >= count,
{
    let mut p: usize = 0;
    while p < table.len() && table[p].count < count
        invariant
            p <= table.len(),
            forall|i: int| 0 <= i < p ==> table[i].count < count,
        decreases table.len() - p,
    {
        p += 1;
    }
    proof {
        assert forall|i: int| p <= i < table.len() implies table[i].count >= count by {
            assert(entries(table@)[p as int].1 <= entries(table@)[i].1);
        }
    }
    p
}

/// Puts the table into ascending order of count. Entries of equal count keep
/// their order.
pub fn sort_by_count(list: &mut Vec<WordCount>)
    ensures
        sorted_from(entries(old(list)@), entries(final(list)@)),
        final(list).len() == old(list).len(),
        is_frequency_table(entries(old(list)@)) ==> is_frequency_table(entries(final(list)@)),
        forall|i: int|
            0 <= i && i + 1 < final(list).len() ==> (#[trigger] final(list)[i]).count
                <= final(list)[i + 1].count,
{
    let ghost before = entries(list@);
    let mut out: Vec<WordCount> = Vec::new();
    proof {
        assert(before.skip(list.len() as int) =~= Seq::empty());
        assert(entries(out@) =~= Seq::empty());
        assert forall|c: nat| with_count(entries(out@), c) == with_count(Seq::empty(), c) by {}
    }
    while list.len() > 0
        invariant
            list.len() <= before.len(),
            entries(list@) == before.take(list.len() as int),
            out.len() + list.len() == before.len(),
            sorted_from(before.skip(list.len() as int), entries(out@)),
        decreases list.len(),
    {
        let ghost n = list.len() as int;
        let ghost rest = before.skip(n);
        let ghost table = entries(out@);
        let ghost last = list@[n - 1];
        let ghost prior = entries(list@);
        let x = list.pop().unwrap();
        let p = insertion_point(&out, x.count);
        proof {
            assert(x == last);
            assert(x@ == prior[n - 1]);
            assert(entries(list@) =~= before.take(n - 1));
            assert(before.take(n)[n - 1] == before[n - 1]);
            assert(seq![x@] + rest =~= before.skip(n - 1));
            assert forall|i: int| 0 <= i < p implies table[i].1 < x@.1 by {}
            assert forall|i: int| p <= i < table.len() implies table[i].1 >= x@.1 by {}
            lemma_insert_sorted(table, p as int, x@, rest);
        }
        out.insert(p, x);
        proof {
            assert(entries(out@) =~= table.insert(p as int, x@));
        }
    }
    proof {
        assert(before.skip(0) =~= before);
        if is_frequency_table(before) {
            lemma_sorted_is_table(before, entries(out@));
        }
        assert forall|i: int| 0 <= i && i + 1 < out.len() implies (#[trigger] out[i]).count
            <= out[i + 1].count by {
            assert(entries(out@)[i].1 <= entries(out@)[i + 1].1);
        }
    }
    *list = out;
}

/// Sorts the table of every file; the tables stay at their places.
pub fn sort_all(results: &mut Vec<Vec<WordCount>>)
    ensures
        final(results).len() == old(results).len(),
        forall|i: int|
            0 <= i < old(results).len() ==> sorted_from(
                entries(old(results)[i]@),
                entries(#[trigger] final(results)[i]@),
            ),
{
    let ghost before = results@;
    let mut i: usize = 0;
    while i < results.len()
        invariant
            i <= results.len(),
            results.len() == before.len(),
            forall|k: int| 0 <= k < i ==> sorted_from(entries(before[k]@), entries(#[trigger] results[k]@)),
            forall|k: int| i <= k < results.len() ==> results[k] == before[k],
        decreases results.len() - i,
    {
        let mut table: Vec<WordCount> = Vec::new();
        results.set_and_swap(i, &mut table);
        sort_by_count(&mut table);
        results.set(i, table);
        i += 1;
    }
}

} // verus!
