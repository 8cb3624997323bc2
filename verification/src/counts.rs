//! Counting how often each term occurs in one document.

use crate::table::{lemma_take_next_set, Table};
use crate::tokenizer::{characters, next_term, terms_from, terms_of};
use vstd::prelude::*;

verus! {

/// How often `term` occurs in `terms`.
pub open spec fn occurrences(terms: Seq<Seq<char>>, term: Seq<char>) -> nat
    decreases terms.len(),
{
    if terms.len() == 0 {
        0
    } else {
        occurrences(terms.drop_last(), term) + if terms.last() == term {
            1nat
        } else {
            0nat
        }
    }
}

/// The count table of a sequence of terms: each term that occurs, bound to
/// the number of its occurrences.
pub open spec fn count_table(terms: Seq<Seq<char>>) -> Map<Seq<char>, nat> {
    Map::new(|t: Seq<char>| terms.contains(t), |t: Seq<char>| occurrences(terms, t))
}

/// The count that `table` holds for `term`: zero where it holds none.
pub open spec fn count_in(table: Map<Seq<char>, nat>, term: Seq<char>) -> nat {
    if table.contains_key(term) {
        table[term]
    } else {
        0
    }
}

/// The sum of all counts of a finite table.
pub open spec fn sum_counts(table: Map<Seq<char>, nat>) -> nat
    decreases table.dom().len(),
    when table.dom().finite()
{
    if table.dom().len() == 0 {
        0
    } else {
        let k = table.dom().choose();
        table[k] + sum_counts(table.remove(k))
    }
}

/// The sum of a table is the count of any one of its terms plus the sum of
/// the table without that term.
pub proof fn lemma_sum_remove(table: Map<Seq<char>, nat>, term: Seq<char>)
    requires
        table.dom().finite(),
        table.contains_key(term),
    ensures
        sum_counts(table) == table[term] + sum_counts(table.remove(term)),
    decreases table.dom().len(),
{
    let k = table.dom().choose();
    if k != term {
        lemma_sum_remove(table.remove(k), term);
        lemma_sum_remove(table.remove(term), k);
        assert(table.remove(k).remove(term) =~= table.remove(term).remove(k));
    }
}

/// Binding a term to a new count changes the sum by the difference between
/// the new count and the old one.
pub proof fn lemma_sum_insert(table: Map<Seq<char>, nat>, term: Seq<char>, count: nat)
    requires
        table.dom().finite(),
    ensures
        sum_counts(table.insert(term, count)) + count_in(table, term) == sum_counts(table)
            + count,
        count_in(table, term) <= sum_counts(table),
{
    let after = table.insert(term, count);
    lemma_sum_remove(after, term);
    assert(after.remove(term) =~= table.remove(term));
    if table.contains_key(term) {
        lemma_sum_remove(table, term);
    } else {
        assert(table.remove(term) =~= table);
    }
}

/// A term occurs in a sequence exactly if its number of occurrences is not
/// zero.
pub proof fn lemma_occurrences_contains(terms: Seq<Seq<char>>, term: Seq<char>)
    ensures
        terms.contains(term) <==> occurrences(terms, term) > 0,
    decreases terms.len(),
{
    if terms.len() > 0 {
        let front = terms.drop_last();
        lemma_occurrences_contains(front, term);
        if terms.last() == term {
            assert(terms[terms.len() - 1] == term);
        } else if terms.contains(term) {
            let i = choose|i: int| 0 <= i < terms.len() && terms[i] == term;
            assert(front[i] == term);
        } else if front.contains(term) {
            let i = choose|i: int| 0 <= i < front.len() && front[i] == term;
            assert(terms[i] == term);
        }
    }
}

/// What a count table holds for a term is the number of the term's
/// occurrences, also for a term that does not occur.
pub proof fn lemma_count_in_table(terms: Seq<Seq<char>>, term: Seq<char>)
    ensures
        count_in(count_table(terms), term) == occurrences(terms, term),
{
    lemma_occurrences_contains(terms, term);
}

/// One more term at the end of a sequence raises that term's count by one
/// and leaves the other counts alone.
pub proof fn lemma_count_table_push(terms: Seq<Seq<char>>, term: Seq<char>)
    ensures
        count_table(terms.push(term)) == count_table(terms).insert(
            term,
            count_in(count_table(terms), term) + 1,
        ),
{
    let longer = terms.push(term);
    assert(longer.drop_last() =~= terms);
    assert(longer.last() == term);
    lemma_occurrences_contains(terms, term);
    assert forall|t: Seq<char>| longer.contains(t) <==> (terms.contains(t) || t == term) by {
        if terms.contains(t) {
            let i = choose|i: int| 0 <= i < terms.len() && terms[i] == t;
            assert(longer[i] == t);
        }
        if t == term {
            assert(longer[terms.len() as int] == t);
        }
    }
    assert(count_table(longer) =~= count_table(terms).insert(
        term,
        count_in(count_table(terms), term) + 1,
    ));
}

/// The terms of a count table are the terms of the sequence, and there are
/// finitely many of them.
pub proof fn lemma_count_table_finite(terms: Seq<Seq<char>>)
    ensures
        count_table(terms).dom().finite(),
        count_table(terms).dom() == terms.to_set(),
{
    assert(count_table(terms).dom() =~= terms.to_set());
    vstd::seq_lib::seq_to_set_is_finite(terms);
}

/// The counts of a table add up to the number of terms that were counted.
pub proof fn lemma_counts_sum_to_length(terms: Seq<Seq<char>>)
    ensures
        count_table(terms).dom().finite(),
        sum_counts(count_table(terms)) == terms.len(),
    decreases terms.len(),
{
    lemma_count_table_finite(terms);
    if terms.len() == 0 {
        assert(count_table(terms).dom() =~= Set::<Seq<char>>::empty());
    } else {
        let front = terms.drop_last();
        assert(front.push(terms.last()) =~= terms);
        lemma_counts_sum_to_length(front);
        lemma_count_table_push(front, terms.last());
        lemma_sum_insert(
            count_table(front),
            terms.last(),
            count_in(count_table(front), terms.last()) + 1,
        );
    }
}

/// Every count of a count table is at least one.
pub proof fn lemma_counts_positive(terms: Seq<Seq<char>>, term: Seq<char>)
    requires
        count_table(terms).contains_key(term),
    ensures
        count_table(terms)[term] >= 1,
{
    lemma_occurrences_contains(terms, term);
}

/// No two entries of a list have the same key.
pub open spec fn distinct_keys<V>(entries: Seq<(String, V)>) -> bool {
    forall|i: int, j: int| 0 <= i < j < entries.len() ==> entries[i].0@ != entries[j].0@
}

/// The table that a list of terms and counts stands for. Where a term stands
/// in the list twice, its later count holds.
pub open spec fn counts_of(entries: Seq<(String, usize)>) -> Map<Seq<char>, nat>
    decreases entries.len(),
{
    if entries.len() == 0 {
        Map::empty()
    } else {
        counts_of(entries.drop_last()).insert(entries.last().0@, entries.last().1 as nat)
    }
}

/// The term-count table of one document.
pub struct TermCounts {
    table: Table<usize>,
    total: usize,
}

impl View for TermCounts {
    type V = Map<Seq<char>, nat>;

    closed spec fn view(&self) -> Map<Seq<char>, nat> {
        Map::new(
            |t: Seq<char>| self.table@.contains_key(t),
            |t: Seq<char>| self.table@[t] as nat,
        )
    }
}

impl TermCounts {
    /// The distinct terms in the order of their first occurrence.
    pub closed spec fn terms(&self) -> Seq<Seq<char>> {
        self.table.keys()
    }

    /// The key list is valid, every count is at least one, and the stored
    /// total is the sum of the counts.
    pub closed spec fn wf(&self) -> bool {
        &&& self.table.wf()
        &&& self.total == sum_counts(self@)
        &&& forall|t: Seq<char>| self.table@.contains_key(t) ==> #[trigger] self.table@[t] >= 1
    }

    /// What validity means for the terms and the table.
    pub proof fn lemma_wf(&self)
        requires
            self.wf(),
        ensures
            self@.dom().finite(),
            self.terms().no_duplicates(),
            self@.dom() == self.terms().to_set(),
            self@.dom().len() == self.terms().len(),
            sum_counts(self@) <= usize::MAX,
            forall|t: Seq<char>| self@.contains_key(t) ==> #[trigger] self@[t] >= 1,
    {
        self.table.lemma_wf();
        assert(self@.dom() =~= self.table@.dom());
    }

    /// A table without terms.
    pub fn new() -> (counts: Self)
        ensures
            counts.wf(),
            counts@ == Map::<Seq<char>, nat>::empty(),
            counts.terms() == Seq::<Seq<char>>::empty(),
    {
        let counts = TermCounts { table: Table::new(), total: 0 };
        proof {
            assert(counts@ =~= Map::<Seq<char>, nat>::empty());
            assert(counts@.dom() =~= Set::<Seq<char>>::empty());
        }
        counts
    }

    /// Counts one more occurrence of `term`.
    pub fn add(&mut self, term: String)
        requires
            old(self).wf(),
            sum_counts(old(self)@) < usize::MAX,
        ensures
            final(self).wf(),
            final(self)@ == old(self)@.insert(term@, count_in(old(self)@, term@) + 1),
            sum_counts(final(self)@) == sum_counts(old(self)@) + 1,
            final(self).terms() == if old(self)@.contains_key(term@) {
                old(self).terms()
            } else {
                old(self).terms().push(term@)
            },
    {
        proof {
            self.lemma_wf();
            lemma_sum_insert(self@, term@, count_in(self@, term@) + 1);
        }
        let before: usize = match self.table.get(term.as_str()) {
            Some(count) => *count,
            None => 0,
        };
        self.table.insert(term, before + 1);
        self.total = self.total + 1;
        proof {
            assert(self@ =~= old(self)@.insert(term@, count_in(old(self)@, term@) + 1));
        }
    }

    /// How often `term` was counted: zero for a term that the table lacks.
    pub fn count(&self, term: &str) -> (count: usize)
        ensures
            count == count_in(self@, term@),
    {
        match self.table.get(term) {
            Some(count) => *count,
            None => 0,
        }
    }

    /// Whether `term` was counted at all.
    pub fn contains(&self, term: &str) -> (held: bool)
        ensures
            held == self@.contains_key(term@),
    {
        self.table.get(term).is_some()
    }

    /// The sum of all counts.
    pub fn total(&self) -> (total: usize)
        requires
            self.wf(),
        ensures
            total == sum_counts(self@),
    {
        self.total
    }

    /// The table as a list: each distinct term with its count, in the order
    /// of first occurrence.
    pub fn entries(&self) -> (entries: Vec<(String, usize)>)
        requires
            self.wf(),
        ensures
            entries.len() == self.terms().len(),
            forall|i: int| 0 <= i < entries.len() ==> (#[trigger] entries[i]).0@ == self.terms()[i],
            distinct_keys(entries@),
            counts_of(entries@) == self@,
    {
        proof {
            self.lemma_wf();
        }
        let ghost terms = self.terms();
        let mut entries: Vec<(String, usize)> = Vec::new();
        let mut i: usize = 0;
        proof {
            assert(terms.take(0).to_set() =~= Set::<Seq<char>>::empty());
            assert(counts_of(entries@) =~= self@.restrict(terms.take(0).to_set()));
        }
        while i < self.len()
            invariant
                self.wf(),
                terms == self.terms(),
                terms.no_duplicates(),
                self@.dom() == terms.to_set(),
                i <= terms.len(),
                entries.len() == i,
                forall|k: int| 0 <= k < i ==> (#[trigger] entries[k]).0@ == terms[k],
                counts_of(entries@) == self@.restrict(terms.take(i as int).to_set()),
            decreases terms.len() - i,
        {
            let term = self.term(i);
            let count = self.count(term.as_str());
            let entry = (term.clone(), count);
            proof {
                let held = terms.take(i as int).to_set();
                lemma_take_next_set(terms, i as int);
                assert(terms.contains(terms[i as int]));
                assert(entries@.push(entry).drop_last() =~= entries@);
                assert(self@.restrict(held.insert(term@)) =~= self@.restrict(held).insert(
                    term@,
                    count as nat,
                ));
            }
            entries.push(entry);
            i = i + 1;
        }
        proof {
            assert(terms.take(i as int) =~= terms);
            assert(self@.restrict(terms.to_set()) =~= self@);
        }
        entries
    }

    /// The number of distinct terms.
    pub fn len(&self) -> (n: usize)
        ensures
            n == self.terms().len(),
    {
        self.table.len()
    }

    /// The distinct term at place `i`, in the order of first occurrence.
    pub fn term(&self, i: usize) -> (term: &String)
        requires
            i < self.terms().len(),
        ensures
            term@ == self.terms()[i as int],
    {
        self.table.key(i)
    }
}

/// Counts the terms of `text`: each term that the text holds, with the number
/// of times it occurs there.
pub fn calculate_token_count(text: String) -> (counts: TermCounts)
    ensures
        counts.wf(),
        counts@ == count_table(terms_of(text@)),
        sum_counts(counts@) == terms_of(text@).len(),
{
    count_terms(text.as_str())
}

/// Counts the terms of a borrowed text, in one pass and without holding the
/// sequence of its terms.
pub fn count_terms(text: &str) -> (counts: TermCounts)
    ensures
        counts.wf(),
        counts@ == count_table(terms_of(text@)),
        sum_counts(counts@) == terms_of(text@).len(),
{
    let chars = characters(text);
    let mut counts = TermCounts::new();
    let mut at: usize = 0;
    let ghost mut seen: Seq<Seq<char>> = Seq::empty();
    proof {
        assert(count_table(seen) =~= Map::<Seq<char>, nat>::empty());
        lemma_counts_sum_to_length(seen);
    }
    loop
        invariant
            at <= chars.len(),
            chars@ == text@,
            counts.wf(),
            counts@ == count_table(seen),
            sum_counts(counts@) == seen.len(),
            seen.len() <= at,
            seen + terms_from(chars@, at as int) == terms_of(text@),
        ensures
            counts.wf(),
            counts@ == count_table(terms_of(text@)),
            sum_counts(counts@) == terms_of(text@).len(),
        decreases chars.len() - at,
    {
        let (found, next) = next_term(&chars, at);
        match found {
            Some(term) => {
                proof {
                    lemma_count_table_push(seen, term@);
                    lemma_counts_sum_to_length(seen.push(term@));
                    assert(seen.push(term@) + terms_from(chars@, next as int) =~= seen + (
                    seq![term@] + terms_from(chars@, next as int)));
                    seen = seen.push(term@);
                }
                counts.add(term);
                at = next;
            },
            None => {
                assert(seen + Seq::<Seq<char>>::empty() =~= seen);
                break;
            },
        }
    }
    counts
}

} // verus!
