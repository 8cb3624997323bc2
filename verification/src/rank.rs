//! The weights of a query's terms in each document of an index.
//!
//! A document's relevance to a query is the sum, over the query's terms, of
//! the term's share of the document times the logarithm of the term's rarity
//! in the index. Both factors are ratios of counts. This module computes the
//! counts, exactly. Turning them into one number takes floating point and is
//! left to the caller; the `order` module ranks documents by that number.

use crate::counts::{count_in, lemma_sum_insert, sum_counts};
use crate::index::Index;
use crate::tokenizer::{term_views, terms_of, tokenize};
use vstd::prelude::*;

verus! {

/// The documents of `index` whose table holds `term`.
pub open spec fn holders(index: Map<Seq<char>, Map<Seq<char>, nat>>, term: Seq<char>) -> Set<
    Seq<char>,
> {
    Set::new(|p: Seq<char>| index.contains_key(p) && index[p].contains_key(term))
}

/// The number of documents of `index` whose table holds `term`.
pub open spec fn document_frequency(
    index: Map<Seq<char>, Map<Seq<char>, nat>>,
    term: Seq<char>,
) -> nat {
    holders(index, term).len()
}

/// The counts behind the weight of one query term in one document.
///
/// The term's frequency in the document is `occurrences / document_terms`
/// (zero where the document has no terms), and its rarity in the index is
/// `documents / documents_with_term`.
#[derive(Clone, Copy, Debug, PartialEq, Eq, Structural)]
pub struct TermWeight {
    /// How often the term occurs in the document.
    pub occurrences: usize,
    /// How many terms the document holds, each occurrence counted.
    pub document_terms: usize,
    /// How many documents the index holds.
    pub documents: usize,
    /// How many documents hold the term, or one where none does.
    pub documents_with_term: usize,
}

/// `weight` holds the counts of `term` in the document at `path` of `index`.
pub open spec fn is_weight(
    weight: TermWeight,
    index: Map<Seq<char>, Map<Seq<char>, nat>>,
    path: Seq<char>,
    term: Seq<char>,
) -> bool {
    &&& weight.occurrences == count_in(index[path], term)
    &&& weight.document_terms == sum_counts(index[path])
    &&& weight.documents == index.dom().len()
    &&& weight.documents_with_term == if document_frequency(index, term) == 0 {
        1
    } else {
        document_frequency(index, term)
    }
}

/// `weights` holds, term by term, the counts of `terms` in the document at
/// `path` of `index`. A term that the query repeats has a weight for each
/// occurrence.
pub open spec fn are_weights(
    weights: Seq<TermWeight>,
    index: Map<Seq<char>, Map<Seq<char>, nat>>,
    path: Seq<char>,
    terms: Seq<Seq<char>>,
) -> bool {
    &&& weights.len() == terms.len()
    &&& forall|t: int|
        0 <= t < terms.len() ==> is_weight(#[trigger] weights[t], index, path, terms[t])
}

/// One document's answer to a query: its path, and a weight for each term of
/// the query in the query's order.
pub struct DocumentWeights {
    pub path: String,
    pub weights: Vec<TermWeight>,
}

/// In a weight, the term does not occur more often than the document has
/// terms, and the term's rarity is a ratio of at least one: the documents that
/// hold the term are at least one and, in an index that is not empty, at most
/// all of them.
pub proof fn lemma_weight_bounds(
    weight: TermWeight,
    index: Map<Seq<char>, Map<Seq<char>, nat>>,
    path: Seq<char>,
    term: Seq<char>,
)
    requires
        index.dom().finite(),
        index.contains_key(path),
        index[path].dom().finite(),
        is_weight(weight, index, path, term),
    ensures
        weight.occurrences <= weight.document_terms,
        1 <= weight.documents_with_term <= weight.documents,
{
    lemma_sum_insert(index[path], term, 0);
    assert(holders(index, term).subset_of(index.dom()));
    vstd::set_lib::lemma_len_subset(holders(index, term), index.dom());
    assert(index.dom().len() >= 1) by {
        if index.dom().len() == 0 {
            assert(index.dom() =~= Set::<Seq<char>>::empty());
        }
    }
}

/// A term that no document holds occurs in none: its weight in every
/// document has zero occurrences, so it adds nothing to any document's score.
pub proof fn lemma_absent_term_weighs_nothing(
    weight: TermWeight,
    index: Map<Seq<char>, Map<Seq<char>, nat>>,
    path: Seq<char>,
    term: Seq<char>,
)
    requires
        index.contains_key(path),
        forall|p: Seq<char>| index.contains_key(p) ==> !index[p].contains_key(term),
        is_weight(weight, index, path, term),
    ensures
        weight.occurrences == 0,
        weight.documents_with_term == 1,
{
    assert(holders(index, term) =~= Set::<Seq<char>>::empty());
}

/// In an index of one document every term's rarity is the ratio of one to
/// one, whether the document holds the term or not, and no term occurs more
/// often than the document has terms.
pub proof fn lemma_single_document_weight(
    weight: TermWeight,
    index: Map<Seq<char>, Map<Seq<char>, nat>>,
    path: Seq<char>,
    term: Seq<char>,
)
    requires
        index.dom().finite(),
        index.dom().len() == 1,
        index.contains_key(path),
        index[path].dom().finite(),
        is_weight(weight, index, path, term),
    ensures
        weight.documents == 1,
        weight.documents_with_term == 1,
        weight.occurrences <= weight.document_terms,
{
    lemma_weight_bounds(weight, index, path, term);
}

/// The documents among `paths` whose table holds `term`.
spec fn holders_among(
    index: Map<Seq<char>, Map<Seq<char>, nat>>,
    paths: Seq<Seq<char>>,
    term: Seq<char>,
) -> Set<Seq<char>> {
    Set::new(|p: Seq<char>| paths.contains(p) && index[p].contains_key(term))
}

/// Counts the documents of `index` whose table holds `term`.
pub fn count_documents_with(index: &Index, term: &str) -> (n: usize)
    requires
        index.wf(),
    ensures
        n == document_frequency(index@, term@),
        n <= index@.dom().len(),
{
    proof {
        index.lemma_wf();
    }
    let ghost paths = index.paths();
    let mut n: usize = 0;
    let mut i: usize = 0;
    proof {
        assert(holders_among(index@, paths.take(0), term@) =~= Set::<Seq<char>>::empty());
    }
    while i < index.len()
        invariant
            index.wf(),
            paths == index.paths(),
            paths.no_duplicates(),
            index@.dom() == paths.to_set(),
            i <= paths.len(),
            n <= i,
            holders_among(index@, paths.take(i as int), term@).finite(),
            n == holders_among(index@, paths.take(i as int), term@).len(),
        decreases index.paths().len() - i,
    {
        let path = index.path(i);
        let ghost before = holders_among(index@, paths.take(i as int), term@);
        let ghost after = holders_among(index@, paths.take(i + 1), term@);
        proof {
            assert(paths.contains(paths[i as int]));
            assert(paths.take(i + 1) =~= paths.take(i as int).push(paths[i as int]));
            assert forall|p: Seq<char>| paths.take(i + 1).contains(p) <==> (paths.take(
                i as int,
            ).contains(p) || p == paths[i as int]) by {
                if paths.take(i as int).contains(p) {
                    let k = choose|k: int| 0 <= k < i && paths.take(i as int)[k] == p;
                    assert(paths.take(i + 1)[k] == p);
                }
                if p == paths[i as int] {
                    assert(paths.take(i + 1)[i as int] == p);
                }
            }
            assert(!paths.take(i as int).contains(paths[i as int])) by {
                if paths.take(i as int).contains(paths[i as int]) {
                    let k = choose|k: int|
                        0 <= k < i && paths.take(i as int)[k] == paths[i as int];
                    assert(paths[k] == paths[i as int]);
                }
            }
        }
        let held = index.get(path.as_str()).unwrap().contains(term);
        if held {
            proof {
                assert(after =~= before.insert(paths[i as int]));
            }
            n = n + 1;
        } else {
            proof {
                assert(after =~= before);
            }
        }
        i = i + 1;
    }
    proof {
        assert(paths.take(i as int) =~= paths);
        assert(holders_among(index@, paths, term@) =~= holders(index@, term@));
    }
    n
}

/// The weights of the terms of `terms` in the document at place `at`.
fn weigh_document(index: &Index, at: usize, terms: &Vec<String>, frequencies: &Vec<usize>) -> (doc:
    DocumentWeights)
    requires
        index.wf(),
        at < index.paths().len(),
        frequencies.len() == terms.len(),
        forall|t: int|
            0 <= t < terms.len() ==> #[trigger] frequencies[t] == document_frequency(
                index@,
                terms[t]@,
            ),
    ensures
        doc.path@ == index.paths()[at as int],
        are_weights(doc.weights@, index@, index.paths()[at as int], term_views(terms@)),
{
    proof {
        index.lemma_wf();
    }
    let path = index.path(at);
    let mut weights: Vec<TermWeight> = Vec::new();
    let counts = index.get(path.as_str()).unwrap();
    let mut t: usize = 0;
    while t < terms.len()
        invariant
            index.wf(),
            counts.wf(),
            index@.contains_key(path@),
            index@.dom().len() == index.paths().len(),
            counts@ == index@[path@],
            t <= terms.len(),
            frequencies.len() == terms.len(),
            forall|k: int|
                0 <= k < terms.len() ==> #[trigger] frequencies[k] == document_frequency(
                    index@,
                    terms[k]@,
                ),
            weights.len() == t,
            forall|k: int|
                0 <= k < t ==> is_weight(#[trigger] weights[k], index@, path@, terms[k]@),
        decreases terms.len() - t,
    {
        let held: usize = frequencies[t];
        weights.push(
            TermWeight {
                occurrences: counts.count(terms[t].as_str()),
                document_terms: counts.total(),
                documents: index.len(),
                documents_with_term: if held < 1 {
                    1
                } else {
                    held
                },
            },
        );
        t = t + 1;
    }
    DocumentWeights { path: path.clone(), weights }
}

/// Weighs the terms of `phrase` in every document of `index`.
///
/// The answer has one entry for each document, in the order of the index's
/// paths, whether or not the document holds any of the terms. An entry has
/// one weight for each term of the phrase, in the phrase's order; a term that
/// the phrase repeats is weighed each time.
pub fn query_weights(phrase: String, index: &Index) -> (answer: Vec<DocumentWeights>)
    requires
        index.wf(),
    ensures
        answer.len() == index.paths().len(),
        answer.len() == index@.dom().len(),
        forall|d: int|
            0 <= d < answer.len() ==> {
                &&& (#[trigger] answer[d]).path@ == index.paths()[d]
                &&& are_weights(
                    answer[d].weights@,
                    index@,
                    index.paths()[d],
                    terms_of(phrase@),
                )
            },
{
    proof {
        index.lemma_wf();
    }
    let terms = tokenize(phrase);
    let mut frequencies: Vec<usize> = Vec::new();
    let mut t: usize = 0;
    while t < terms.len()
        invariant
            index.wf(),
            t <= terms.len(),
            frequencies.len() == t,
            forall|k: int|
                0 <= k < t ==> #[trigger] frequencies[k] == document_frequency(
                    index@,
                    terms[k]@,
                ),
        decreases terms.len() - t,
    {
        frequencies.push(count_documents_with(index, terms[t].as_str()));
        t = t + 1;
    }
    let mut answer: Vec<DocumentWeights> = Vec::new();
    let mut d: usize = 0;
    while d < index.len()
        invariant
            index.wf(),
            d <= index.paths().len(),
            term_views(terms@) == terms_of(phrase@),
            frequencies.len() == terms.len(),
            forall|k: int|
                0 <= k < terms.len() ==> #[trigger] frequencies[k] == document_frequency(
                    index@,
                    terms[k]@,
                ),
            answer.len() == d,
            forall|k: int|
                0 <= k < d ==> {
                    &&& (#[trigger] answer[k]).path@ == index.paths()[k]
                    &&& are_weights(
                        answer[k].weights@,
                        index@,
                        index.paths()[k],
                        terms_of(phrase@),
                    )
                },
        decreases index.paths().len() - d,
    {
        answer.push(weigh_document(index, d, &terms, &frequencies));
        d = d + 1;
    }
    answer
}

} // verus!
