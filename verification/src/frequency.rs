//! Frequency analysis: how often each symbol occurs in an input.

use std::collections::HashMap;
use std::hash::Hash;
use vstd::laws_eq::obeys_concrete_eq;
use vstd::prelude::*;
use vstd::seq_lib::lemma_seq_contains_after_push;
use vstd::std_specs::hash::obeys_key_model;

verus! {

/// Holds of a symbol type whose `==` and hash agree with mathematical equality,
/// so that a hash map keyed by it behaves as a map. It holds of the integer
/// types, `u8` among them.
pub open spec fn plain_symbols<T: Hash + Eq>() -> bool {
    &&& obeys_concrete_eq::<T>()
    &&& obeys_key_model::<T>()
}

/// A frequency table: symbols with their counts, in the order in which the code
/// tree is built from them.
#[derive(Debug)]
pub struct CharFrequencies<T: Hash + Eq> {
    pub freq: Vec<(T, usize)>,
}

impl<T: Hash + Eq> View for CharFrequencies<T> {
    type V = Seq<(T, usize)>;

    open spec fn view(&self) -> Seq<(T, usize)> {
        self.freq@
    }
}

/// The symbols of a table, in table order.
pub open spec fn symbols_of<T>(table: Seq<(T, usize)>) -> Seq<T> {
    Seq::new(table.len(), |i: int| table[i].0)
}

/// How often `symbol` occurs in `s`.
pub open spec fn occurrences<T>(s: Seq<T>, symbol: T) -> nat
    decreases s.len(),
{
    if s.len() == 0 {
        0
    } else {
        occurrences(s.drop_last(), symbol) + if s.last() == symbol {
            1nat
        } else {
            0nat
        }
    }
}

/// The symbols of `s`, each once, in the order in which they first occur.
pub open spec fn distinct<T>(s: Seq<T>) -> Seq<T>
    decreases s.len(),
{
    if s.len() == 0 {
        Seq::empty()
    } else {
        let seen = distinct(s.drop_last());
        if seen.contains(s.last()) {
            seen
        } else {
            seen.push(s.last())
        }
    }
}

/// The place at which `symbol` first occurs in `s`, for a symbol of `s`.
pub open spec fn first_place<T>(s: Seq<T>, symbol: T) -> int
    decreases s.len(),
{
    if s.len() == 0 {
        0
    } else if s.drop_last().contains(symbol) {
        first_place(s.drop_last(), symbol)
    } else {
        s.len() - 1
    }
}

/// Each symbol of `s` with its count, in the order in which the symbols first
/// occur.
pub open spec fn tally<T>(s: Seq<T>) -> Seq<(T, usize)> {
    Seq::new(distinct(s).len(), |i: int| (distinct(s)[i], occurrences(s, distinct(s)[i]) as usize))
}

/// `table` with `entry` put behind the last entry whose count is not greater.
pub open spec fn insert_by_count<T>(table: Seq<(T, usize)>, entry: (T, usize)) -> Seq<(T, usize)>
    decreases table.len(),
{
    if table.len() == 0 || table.last().1 <= entry.1 {
        table.push(entry)
    } else {
        insert_by_count(table.drop_last(), entry).push(table.last())
    }
}

/// The entries of `table` in ascending order of count, entries of equal count in
/// the order they had.
pub open spec fn sorted_by_count<T>(table: Seq<(T, usize)>) -> Seq<(T, usize)>
    decreases table.len(),
{
    if table.len() == 0 {
        table
    } else {
        insert_by_count(sorted_by_count(table.drop_last()), table.last())
    }
}

/// The frequency table of `s`: every symbol of `s` with its count, in ascending
/// order of count, symbols of equal count in the order in which they first occur
/// in `s`.
pub open spec fn frequency_table<T>(s: Seq<T>) -> Seq<(T, usize)> {
    sorted_by_count(tally(s))
}

/// The counts of `table` never fall from one entry to the next.
pub open spec fn ascending<T>(table: Seq<(T, usize)>) -> bool {
    forall|i: int, j: int|
        0 <= i <= j < table.len() ==> (#[trigger] table[i]).1 <= (#[trigger] table[j]).1
}

/// Entries of equal count stand in the order in which their symbols first occur
/// in `s`.
pub open spec fn ties_by_first_place<T>(table: Seq<(T, usize)>, s: Seq<T>) -> bool {
    forall|i: int, j: int|
        0 <= i < j < table.len() && (#[trigger] table[i]).1 == (#[trigger] table[j]).1
            ==> first_place(s, table[i].0) < first_place(s, table[j].0)
}

/// `table` lists the frequencies of `s`: every symbol of `s` once and no other,
/// each with the number of times it occurs in `s`, in ascending order of count,
/// symbols of equal count in the order in which they first occur in `s`.
pub open spec fn lists_frequencies<T>(table: Seq<(T, usize)>, s: Seq<T>) -> bool {
    &&& symbols_of(table).no_duplicates()
    &&& forall|symbol: T| #[trigger] symbols_of(table).contains(symbol) <==> s.contains(symbol)
    &&& forall|i: int|
        0 <= i < table.len() ==> (#[trigger] table[i]).1 == occurrences(s, table[i].0)
    &&& ascending(table)
    &&& ties_by_first_place(table, s)
}

impl<T: Hash + Eq> CharFrequencies<T> {
    /// What holds of the frequency table of any input: it is not empty, lists no
    /// symbol twice and none with a count of 0, and runs in ascending order of
    /// count. A table read from elsewhere need not be so.
    pub open spec fn well_formed(&self) -> bool {
        &&& self@.len() > 0
        &&& symbols_of(self@).no_duplicates()
        &&& forall|i: int| 0 <= i < self@.len() ==> (#[trigger] self@[i]).1 >= 1
        &&& ascending(self@)
    }
}

impl<T: Copy + Hash + Eq> CharFrequencies<T> {
    /// Counts the symbols of a non-empty input and lists them by ascending count.
    pub fn new(input: &[T]) -> (table: Self)
        requires
            plain_symbols::<T>(),
            input@.len() > 0,
        ensures
            table@ == frequency_table(input@),
            lists_frequencies(table@, input@),
            table.well_formed(),
    {
        let n = input.len();
        proof {
            lemma_frequency_table(input@);
        }
        let mut index: HashMap<T, usize> = HashMap::new();
        let mut counts: Vec<(T, usize)> = Vec::new();
        let mut i: usize = 0;
        proof {
            assert(input@.take(0) =~= Seq::<T>::empty());
            assert(counts@ =~= tally(input@.take(0)));
        }
        while i < n
            invariant
                plain_symbols::<T>(),
                n == input.len(),
                i <= input.len(),
                counts@ == tally(input@.take(i as int)),
                forall|symbol: T| #[trigger]
                    index@.contains_key(symbol) <==> distinct(input@.take(i as int)).contains(
                        symbol,
                    ),
                forall|symbol: T| #[trigger]
                    index@.contains_key(symbol) ==> index@[symbol] < counts@.len() && distinct(
                        input@.take(i as int),
                    )[index@[symbol] as int] == symbol,
            decreases input.len() - i,
        {
            let symbol = input[i];
            let ghost before = input@.take(i as int);
            let ghost after = input@.take(i + 1);
            let ghost seen = distinct(before);
            proof {
                reveal(obeys_concrete_eq);
                assert(after.drop_last() =~= before);
                assert(after.last() == symbol);
                lemma_distinct(before);
                lemma_distinct_contains(before, symbol);
                lemma_occurrences(before, symbol);
            }
            match index.get(&symbol) {
                Some(place) => {
                    let k = *place;
                    let count = counts[k].1;
                    assert(seen[k as int] == symbol);
                    assert(count == occurrences(before, symbol) as usize);
                    counts.set(k, (symbol, count + 1));
                    proof {
                        assert(distinct(after) == seen);
                        assert forall|j: int| 0 <= j < seen.len() implies counts@[j] == tally(
                            after,
                        )[j] by {
                            if j != k {
                                assert(seen[j] != symbol);
                            }
                        }
                        assert(counts@ =~= tally(after));
                    }
                },
                None => {
                    let _ = index.insert(symbol, counts.len());
                    counts.push((symbol, 1));
                    proof {
                        assert(distinct(after) == seen.push(symbol));
                        assert forall|other: T| #[trigger]
                            index@.contains_key(other) <==> distinct(after).contains(other) by {
                            lemma_seq_contains_after_push(seen, symbol, other);
                        }
                        assert forall|j: int| 0 <= j < seen.len() + 1 implies counts@[j] == tally(
                            after,
                        )[j] by {
                            if j < seen.len() {
                                assert(seen.contains(seen[j]));
                                assert(seen[j] != symbol);
                            }
                        }
                        assert(counts@ =~= tally(after));
                    }
                },
            }
            i += 1;
        }
        assert(input@.take(i as int) =~= input@);
        let mut sorted: Vec<(T, usize)> = Vec::new();
        let mut j: usize = 0;
        assert(counts@.take(0) =~= Seq::<(T, usize)>::empty());
        while j < counts.len()
            invariant
                j <= counts.len(),
                sorted@ == sorted_by_count(counts@.take(j as int)),
            decreases counts.len() - j,
        {
            let entry = counts[j];
            let mut k: usize = sorted.len();
            assert(sorted@.take(k as int) =~= sorted@);
            assert(sorted@.skip(k as int) =~= Seq::<(T, usize)>::empty());
            assert(insert_by_count(sorted@, entry) =~= insert_by_count(sorted@, entry)
                + sorted@.skip(k as int));
            while k > 0 && sorted[k - 1].1 > entry.1
                invariant
                    k <= sorted.len(),
                    insert_by_count(sorted@, entry) == insert_by_count(
                        sorted@.take(k as int),
                        entry,
                    ) + sorted@.skip(k as int),
                decreases k,
            {
                proof {
                    let head = sorted@.take(k as int);
                    assert(head.drop_last() =~= sorted@.take(k - 1));
                    assert(head.last() == sorted@[k - 1]);
                    let lower = insert_by_count(head.drop_last(), entry);
                    assert(lower.push(head.last()) + sorted@.skip(k as int) =~= lower
                        + sorted@.skip(k - 1));
                }
                k -= 1;
            }
            proof {
                let head = sorted@.take(k as int);
                if k > 0 {
                    assert(head.last() == sorted@[k - 1]);
                }
                assert(insert_by_count(head, entry) == head.push(entry));
                assert(head.push(entry) + sorted@.skip(k as int) =~= sorted@.insert(
                    k as int,
                    entry,
                ));
                assert(counts@.take(j + 1).drop_last() =~= counts@.take(j as int));
                assert(counts@.take(j + 1).last() == entry);
            }
            sorted.insert(k, entry);
            j += 1;
        }
        assert(counts@.take(j as int) =~= counts@);
        CharFrequencies { freq: sorted }
    }
}

/// A symbol occurs in `s` no more often than `s` is long, at least once where
/// `s` holds it and never where it does not.
pub proof fn lemma_occurrences<T>(s: Seq<T>, symbol: T)
    ensures
        occurrences(s, symbol) <= s.len(),
        s.contains(symbol) <==> occurrences(s, symbol) >= 1,
    decreases s.len(),
{
    if s.len() > 0 {
        let init = s.drop_last();
        lemma_occurrences(init, symbol);
        if s.contains(symbol) {
            let i = choose|i: int| 0 <= i < s.len() && s[i] == symbol;
            if i < s.len() - 1 {
                assert(init[i] == symbol);
            }
        }
        if init.contains(symbol) {
            let i = choose|i: int| 0 <= i < init.len() && init[i] == symbol;
            assert(s[i] == symbol);
        }
        if s.last() == symbol {
            assert(s[s.len() - 1] == symbol);
        }
    }
}

/// `distinct` keeps exactly the symbols of `s`.
pub proof fn lemma_distinct_contains<T>(s: Seq<T>, symbol: T)
    ensures
        distinct(s).contains(symbol) <==> s.contains(symbol),
    decreases s.len(),
{
    if s.len() > 0 {
        let init = s.drop_last();
        let seen = distinct(init);
        lemma_distinct_contains(init, symbol);
        lemma_distinct_contains(init, s.last());
        assert(s =~= init.push(s.last()));
        lemma_seq_contains_after_push(init, s.last(), symbol);
        lemma_seq_contains_after_push(seen, s.last(), symbol);
    }
}

/// `distinct` keeps no symbol twice, and no more symbols than `s` is long.
pub proof fn lemma_distinct<T>(s: Seq<T>)
    ensures
        distinct(s).no_duplicates(),
        distinct(s).len() <= s.len(),
    decreases s.len(),
{
    if s.len() > 0 {
        lemma_distinct(s.drop_last());
    }
}

/// The symbols of `table` stand in the order in which they first occur in `s`.
pub open spec fn by_first_place<T>(table: Seq<(T, usize)>, s: Seq<T>) -> bool {
    forall|i: int, j: int|
        0 <= i < j < table.len() ==> first_place(s, (#[trigger] table[i]).0) < first_place(
            s,
            (#[trigger] table[j]).0,
        )
}

/// A symbol of `s` first occurs at a place of `s`, and that place holds it.
pub proof fn lemma_first_place<T>(s: Seq<T>, symbol: T)
    requires
        s.contains(symbol),
    ensures
        0 <= first_place(s, symbol) < s.len(),
        s[first_place(s, symbol)] == symbol,
        forall|i: int| 0 <= i < first_place(s, symbol) ==> s[i] != symbol,
    decreases s.len(),
{
    let init = s.drop_last();
    if init.contains(symbol) {
        lemma_first_place(init, symbol);
        assert forall|i: int| 0 <= i < first_place(s, symbol) implies s[i] != symbol by {
            assert(init[i] == s[i]);
        }
    } else {
        let k = choose|k: int| 0 <= k < s.len() && s[k] == symbol;
        if k < s.len() - 1 {
            assert(init[k] == symbol);
        }
        assert forall|i: int| 0 <= i < s.len() - 1 implies s[i] != symbol by {
            assert(init[i] == s[i]);
        }
    }
}

/// `distinct` lists the symbols in the order in which they first occur.
pub proof fn lemma_distinct_order<T>(s: Seq<T>)
    ensures
        forall|i: int, j: int|
            0 <= i < j < distinct(s).len() ==> first_place(s, #[trigger] distinct(s)[i])
                < first_place(s, #[trigger] distinct(s)[j]),
    decreases s.len(),
{
    if s.len() > 0 {
        let init = s.drop_last();
        let seen = distinct(init);
        lemma_distinct_order(init);
        assert forall|i: int, j: int| 0 <= i < j < distinct(s).len() implies first_place(
            s,
            #[trigger] distinct(s)[i],
        ) < first_place(s, #[trigger] distinct(s)[j]) by {
            assert(seen.contains(seen[i]));
            lemma_distinct_contains(init, seen[i]);
            if j < seen.len() {
                assert(seen.contains(seen[j]));
                lemma_distinct_contains(init, seen[j]);
            } else {
                lemma_distinct_contains(init, s.last());
                lemma_first_place(init, seen[i]);
            }
        }
    }
}

/// Inserting an entry whose symbol first occurs after all the others keeps ties
/// in the order of first occurrence.
pub proof fn lemma_insert_ties<T>(table: Seq<(T, usize)>, entry: (T, usize), s: Seq<T>)
    requires
        ascending(table),
        ties_by_first_place(table, s),
        forall|i: int|
            0 <= i < table.len() ==> first_place(s, (#[trigger] table[i]).0) < first_place(
                s,
                entry.0,
            ),
    ensures
        ties_by_first_place(insert_by_count(table, entry), s),
    decreases table.len(),
{
    let result = insert_by_count(table, entry);
    if table.len() == 0 || table.last().1 <= entry.1 {
        assert forall|i: int, j: int|
            0 <= i < j < result.len() && (#[trigger] result[i]).1 == (#[trigger] result[j]).1
            implies first_place(s, result[i].0) < first_place(s, result[j].0) by {
            if j < table.len() {
                assert(table[i].1 == table[j].1);
            } else {
                assert(result[i] == table[i]);
            }
        }
    } else {
        let init = table.drop_last();
        let last = table.last();
        assert(ascending(init)) by {
            assert forall|i: int, j: int| 0 <= i <= j < init.len() implies (#[trigger] init[i]).1
                <= (#[trigger] init[j]).1 by {
                assert(table[i].1 <= table[j].1);
            }
        }
        assert(ties_by_first_place(init, s)) by {
            assert forall|i: int, j: int|
                0 <= i < j < init.len() && (#[trigger] init[i]).1 == (#[trigger] init[j]).1
                implies first_place(s, init[i].0) < first_place(s, init[j].0) by {
                assert(table[i].1 == table[j].1);
            }
        }
        assert forall|i: int| 0 <= i < init.len() implies first_place(s, (#[trigger] init[i]).0)
            < first_place(s, entry.0) by {
            assert(init[i] == table[i]);
        }
        lemma_insert_ties(init, entry, s);
        let inner = insert_by_count(init, entry);
        lemma_insert_contains(init, entry, entry);
        assert forall|i: int, j: int|
            0 <= i < j < result.len() && (#[trigger] result[i]).1 == (#[trigger] result[j]).1
            implies first_place(s, result[i].0) < first_place(s, result[j].0) by {
            if j < inner.len() {
                assert(inner[i].1 == inner[j].1);
            } else {
                let e = inner[i];
                assert(inner.contains(e));
                lemma_insert_contains(init, entry, e);
                if init.contains(e) {
                    let m = choose|m: int| 0 <= m < init.len() && init[m] == e;
                    assert(table[m].1 == table[table.len() - 1].1);
                }
            }
        }
    }
}

/// Sorting a table whose symbols stand in the order of first occurrence keeps
/// ties in that order.
pub proof fn lemma_sorted_ties<T>(table: Seq<(T, usize)>, s: Seq<T>)
    requires
        by_first_place(table, s),
    ensures
        ties_by_first_place(sorted_by_count(table), s),
    decreases table.len(),
{
    if table.len() > 0 {
        let init = table.drop_last();
        let last = table.last();
        assert(by_first_place(init, s)) by {
            assert forall|i: int, j: int| 0 <= i < j < init.len() implies first_place(
                s,
                (#[trigger] init[i]).0,
            ) < first_place(s, (#[trigger] init[j]).0) by {
                assert(init[i] == table[i] && init[j] == table[j]);
            }
        }
        lemma_sorted_ties(init, s);
        lemma_sorted_by_count(init);
        let inner = sorted_by_count(init);
        assert forall|i: int| 0 <= i < inner.len() implies first_place(s, (#[trigger] inner[i]).0)
            < first_place(s, last.0) by {
            let e = inner[i];
            assert(inner.contains(e));
            lemma_sorted_contains(init, e);
            let m = choose|m: int| 0 <= m < init.len() && init[m] == e;
            assert(table[m] == e && table[table.len() - 1] == last);
        }
        lemma_insert_ties(inner, last, s);
    }
}

/// Inserting adds one entry and keeps the others.
pub proof fn lemma_insert_contains<T>(table: Seq<(T, usize)>, entry: (T, usize), other: (T, usize))
    ensures
        insert_by_count(table, entry).len() == table.len() + 1,
        insert_by_count(table, entry).contains(other) <==> table.contains(other) || other == entry,
    decreases table.len(),
{
    if table.len() == 0 || table.last().1 <= entry.1 {
        lemma_seq_contains_after_push(table, entry, other);
    } else {
        let init = table.drop_last();
        lemma_insert_contains(init, entry, other);
        assert(table =~= init.push(table.last()));
        lemma_seq_contains_after_push(init, table.last(), other);
        lemma_seq_contains_after_push(insert_by_count(init, entry), table.last(), other);
    }
}

/// Inserting into an ascending table leaves it ascending.
pub proof fn lemma_insert_ascending<T>(table: Seq<(T, usize)>, entry: (T, usize))
    requires
        ascending(table),
    ensures
        ascending(insert_by_count(table, entry)),
    decreases table.len(),
{
    let result = insert_by_count(table, entry);
    if table.len() == 0 || table.last().1 <= entry.1 {
        assert forall|i: int, j: int| 0 <= i <= j < result.len() implies (#[trigger] result[i]).1
            <= (#[trigger] result[j]).1 by {
            if j == table.len() && i < table.len() {
                assert(table[i].1 <= table[table.len() - 1].1);
            }
            if j < table.len() {
                assert(table[i].1 <= table[j].1);
            }
        }
    } else {
        let init = table.drop_last();
        let last = table.last();
        assert(ascending(init)) by {
            assert forall|i: int, j: int| 0 <= i <= j < init.len() implies (#[trigger] init[i]).1
                <= (#[trigger] init[j]).1 by {
                assert(table[i].1 <= table[j].1);
            }
        }
        lemma_insert_ascending(init, entry);
        let inner = insert_by_count(init, entry);
        lemma_insert_contains(init, entry, entry);
        assert forall|i: int, j: int| 0 <= i <= j < result.len() implies (#[trigger] result[i]).1
            <= (#[trigger] result[j]).1 by {
            if j < inner.len() {
                assert(inner[i].1 <= inner[j].1);
            } else if i < inner.len() {
                let e = inner[i];
                assert(inner.contains(e));
                lemma_insert_contains(init, entry, e);
                if init.contains(e) {
                    let m = choose|m: int| 0 <= m < init.len() && init[m] == e;
                    assert(table[m].1 <= table[table.len() - 1].1);
                }
            }
        }
    }
}

/// Inserting an entry with a new symbol leaves no symbol listed twice.
pub proof fn lemma_insert_distinct<T>(table: Seq<(T, usize)>, entry: (T, usize))
    requires
        symbols_of(table).no_duplicates(),
        !symbols_of(table).contains(entry.0),
    ensures
        symbols_of(insert_by_count(table, entry)).no_duplicates(),
    decreases table.len(),
{
    let result = insert_by_count(table, entry);
    let names = symbols_of(table);
    lemma_insert_contains(table, entry, entry);
    if table.len() == 0 || table.last().1 <= entry.1 {
        assert forall|i: int, j: int|
            0 <= i < result.len() && 0 <= j < result.len() && i != j implies symbols_of(result)[i]
            != symbols_of(result)[j] by {
            if i < table.len() {
                assert(names[i] == table[i].0);
            }
            if j < table.len() {
                assert(names[j] == table[j].0);
            }
        }
    } else {
        let init = table.drop_last();
        let last = table.last();
        assert(symbols_of(init) =~= names.drop_last());
        assert(symbols_of(init).no_duplicates());
        assert(!symbols_of(init).contains(entry.0)) by {
            if symbols_of(init).contains(entry.0) {
                let m = choose|m: int| 0 <= m < init.len() && symbols_of(init)[m] == entry.0;
                assert(names[m] == entry.0);
            }
        }
        lemma_insert_distinct(init, entry);
        let inner = insert_by_count(init, entry);
        lemma_insert_contains(init, entry, entry);
        assert(names[table.len() - 1] == last.0);
        assert forall|i: int| 0 <= i < inner.len() implies (#[trigger] inner[i]).0 != last.0 by {
            let e = inner[i];
            assert(inner.contains(e));
            lemma_insert_contains(init, entry, e);
            if init.contains(e) {
                let m = choose|m: int| 0 <= m < init.len() && init[m] == e;
                assert(names[m] == e.0);
            }
        }
        assert forall|i: int, j: int|
            0 <= i < result.len() && 0 <= j < result.len() && i != j implies symbols_of(result)[i]
            != symbols_of(result)[j] by {
            if i < inner.len() && j < inner.len() {
                assert(symbols_of(inner)[i] != symbols_of(inner)[j]);
            } else if i < inner.len() {
                assert(inner[i].0 != last.0);
            } else {
                assert(inner[j].0 != last.0);
            }
        }
    }
}

/// Sorting keeps the entries.
pub proof fn lemma_sorted_contains<T>(table: Seq<(T, usize)>, other: (T, usize))
    ensures
        sorted_by_count(table).len() == table.len(),
        sorted_by_count(table).contains(other) <==> table.contains(other),
    decreases table.len(),
{
    if table.len() > 0 {
        let init = table.drop_last();
        lemma_sorted_contains(init, other);
        lemma_insert_contains(sorted_by_count(init), table.last(), other);
        assert(table =~= init.push(table.last()));
        lemma_seq_contains_after_push(init, table.last(), other);
    }
}

/// Sorting gives an ascending table, and lists no symbol twice where none was.
pub proof fn lemma_sorted_by_count<T>(table: Seq<(T, usize)>)
    ensures
        ascending(sorted_by_count(table)),
        symbols_of(table).no_duplicates() ==> symbols_of(sorted_by_count(table)).no_duplicates(),
    decreases table.len(),
{
    if table.len() > 0 {
        let init = table.drop_last();
        let last = table.last();
        let names = symbols_of(table);
        lemma_sorted_by_count(init);
        let inner = sorted_by_count(init);
        lemma_insert_ascending(inner, last);
        if names.no_duplicates() {
            assert(symbols_of(init) =~= names.drop_last());
            assert(names[table.len() - 1] == last.0);
            assert(!symbols_of(inner).contains(last.0)) by {
                if symbols_of(inner).contains(last.0) {
                    let i = choose|i: int| 0 <= i < inner.len() && symbols_of(inner)[i] == last.0;
                    let e = inner[i];
                    assert(inner.contains(e));
                    lemma_sorted_contains(init, e);
                    let m = choose|m: int| 0 <= m < init.len() && init[m] == e;
                    assert(names[m] == e.0);
                }
            }
            lemma_insert_distinct(inner, last);
        }
    }
}

/// The frequency table of `s` lists the frequencies of `s`, with one entry for
/// each of its symbols.
pub proof fn lemma_frequency_table<T>(s: Seq<T>)
    requires
        s.len() <= usize::MAX,
    ensures
        lists_frequencies(frequency_table(s), s),
        frequency_table(s).len() == distinct(s).len(),
        s.len() > 0 ==> frequency_table(s).len() > 0,
        forall|i: int|
            0 <= i < frequency_table(s).len() ==> (#[trigger] frequency_table(s)[i]).1 >= 1,
{
    let counts = tally(s);
    let table = frequency_table(s);
    lemma_distinct(s);
    assert(symbols_of(counts) =~= distinct(s));
    lemma_sorted_by_count(counts);
    lemma_sorted_contains(counts, counts[0]);
    lemma_distinct_order(s);
    assert(by_first_place(counts, s)) by {
        assert forall|i: int, j: int| 0 <= i < j < counts.len() implies first_place(
            s,
            (#[trigger] counts[i]).0,
        ) < first_place(s, (#[trigger] counts[j]).0) by {
            assert(counts[i].0 == distinct(s)[i] && counts[j].0 == distinct(s)[j]);
        }
    }
    lemma_sorted_ties(counts, s);
    assert forall|symbol: T| #[trigger]
        symbols_of(table).contains(symbol) <==> s.contains(symbol) by {
        lemma_distinct_contains(s, symbol);
        if symbols_of(table).contains(symbol) {
            let i = choose|i: int| 0 <= i < table.len() && symbols_of(table)[i] == symbol;
            let e = table[i];
            assert(table.contains(e));
            lemma_sorted_contains(counts, e);
            let m = choose|m: int| 0 <= m < counts.len() && counts[m] == e;
            assert(distinct(s)[m] == symbol);
        }
        if distinct(s).contains(symbol) {
            let m = choose|m: int| 0 <= m < distinct(s).len() && distinct(s)[m] == symbol;
            let e = counts[m];
            assert(counts.contains(e));
            lemma_sorted_contains(counts, e);
            let i = choose|i: int| 0 <= i < table.len() && table[i] == e;
            assert(symbols_of(table)[i] == symbol);
        }
    }
    assert forall|i: int| 0 <= i < table.len() implies (#[trigger] table[i]).1 == occurrences(
        s,
        table[i].0,
    ) by {
        let e = table[i];
        assert(table.contains(e));
        lemma_sorted_contains(counts, e);
        let m = choose|m: int| 0 <= m < counts.len() && counts[m] == e;
        lemma_occurrences(s, distinct(s)[m]);
    }
    assert forall|i: int| 0 <= i < table.len() implies (#[trigger] table[i]).1 >= 1 by {
        assert(symbols_of(table)[i] == table[i].0);
        assert(symbols_of(table).contains(table[i].0));
        lemma_occurrences(s, table[i].0);
    }
    if s.len() > 0 {
        assert(s.contains(s[0]));
        lemma_distinct_contains(s, s[0]);
    }
}

/// `table` runs in strictly rising order of count, and among equal counts of
/// first occurrence in `s`.
pub open spec fn strictly_ordered<T>(table: Seq<(T, usize)>, s: Seq<T>) -> bool {
    forall|i: int, j: int|
        0 <= i < j < table.len() ==> {
            let a = #[trigger] table[i];
            let b = #[trigger] table[j];
            a.1 < b.1 || (a.1 == b.1 && first_place(s, a.0) < first_place(s, b.0))
        }
}

/// Two tables in strict order that hold the same entries are the same table.
pub proof fn lemma_order_unique<T>(a: Seq<(T, usize)>, b: Seq<(T, usize)>, s: Seq<T>)
    requires
        strictly_ordered(a, s),
        strictly_ordered(b, s),
        a.len() == b.len(),
        forall|i: int| 0 <= i < a.len() ==> b.contains(#[trigger] a[i]),
        forall|i: int| 0 <= i < b.len() ==> a.contains(#[trigger] b[i]),
    ensures
        a == b,
    decreases a.len(),
{
    if a.len() == 0 {
        assert(a =~= b);
    } else {
        let n = a.len() - 1;
        let m = choose|m: int| 0 <= m < b.len() && b[m] == a[n];
        let k = choose|k: int| 0 <= k < a.len() && a[k] == b[n];
        assert(b.contains(a[n]));
        assert(a.contains(b[n]));
        if m < n {
            assert(a[k] == b[n] && b[m] == a[n]);
        }
        assert(a[n] == b[n]);
        let a0 = a.drop_last();
        let b0 = b.drop_last();
        assert forall|i: int| 0 <= i < a0.len() implies b0.contains(#[trigger] a0[i]) by {
            assert(a0[i] == a[i]);
            assert(b.contains(a[i]));
            let j = choose|j: int| 0 <= j < b.len() && b[j] == a[i];
            assert(b0[j] == a[i]);
        }
        assert forall|i: int| 0 <= i < b0.len() implies a0.contains(#[trigger] b0[i]) by {
            assert(b0[i] == b[i]);
            assert(a.contains(b[i]));
            let j = choose|j: int| 0 <= j < a.len() && a[j] == b[i];
            assert(a0[j] == b[i]);
        }
        assert(strictly_ordered(a0, s)) by {
            assert forall|i: int, j: int| 0 <= i < j < a0.len() implies {
                let x = #[trigger] a0[i];
                let y = #[trigger] a0[j];
                x.1 < y.1 || (x.1 == y.1 && first_place(s, x.0) < first_place(s, y.0))
            } by {
                assert(a0[i] == a[i] && a0[j] == a[j]);
            }
        }
        assert(strictly_ordered(b0, s)) by {
            assert forall|i: int, j: int| 0 <= i < j < b0.len() implies {
                let x = #[trigger] b0[i];
                let y = #[trigger] b0[j];
                x.1 < y.1 || (x.1 == y.1 && first_place(s, x.0) < first_place(s, y.0))
            } by {
                assert(b0[i] == b[i] && b0[j] == b[j]);
            }
        }
        lemma_order_unique(a0, b0, s);
        assert(a =~= a0.push(a[n]));
        assert(b =~= b0.push(b[n]));
    }
}

/// Each entry of a table that lists the frequencies of `s` is an entry of any
/// other such table.
pub proof fn lemma_listed_entry<T>(a: Seq<(T, usize)>, b: Seq<(T, usize)>, s: Seq<T>, i: int)
    requires
        lists_frequencies(a, s),
        lists_frequencies(b, s),
        0 <= i < a.len(),
    ensures
        b.contains(a[i]),
{
    let symbol = a[i].0;
    assert(symbols_of(a)[i] == symbol);
    assert(symbols_of(a).contains(symbol));
    assert(s.contains(symbol));
    assert(symbols_of(b).contains(symbol));
    let m = choose|m: int| 0 <= m < b.len() && symbols_of(b)[m] == symbol;
    assert(b[m].0 == symbol);
    assert(b[m].1 == a[i].1);
    assert(b[m] == a[i]);
}

/// Only one table lists the frequencies of `s`: its frequency table.
pub proof fn lemma_frequency_table_unique<T>(table: Seq<(T, usize)>, s: Seq<T>)
    requires
        lists_frequencies(table, s),
        s.len() <= usize::MAX,
    ensures
        table == frequency_table(s),
{
    let other = frequency_table(s);
    lemma_frequency_table(s);
    assert(symbols_of(table).to_set() =~= symbols_of(other).to_set());
    symbols_of(table).unique_seq_to_set();
    symbols_of(other).unique_seq_to_set();
    assert forall|i: int| 0 <= i < table.len() implies other.contains(#[trigger] table[i]) by {
        lemma_listed_entry(table, other, s, i);
    }
    assert forall|i: int| 0 <= i < other.len() implies table.contains(#[trigger] other[i]) by {
        lemma_listed_entry(other, table, s, i);
    }
    lemma_order_unique(table, other, s);
}

} // verus!
