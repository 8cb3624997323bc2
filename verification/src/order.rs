//! Ordering scored documents: the highest score first, equal scores by path.
//!
//! A score enters as an integer that orders as the score does. For a score
//! that is finite and not negative, the bits of its single-precision form are
//! such an integer.

use crate::tokenizer::characters;
use vstd::multiset::Multiset;
use vstd::prelude::*;

verus! {

/// A document with the integer that stands for its score.
pub struct ScoredDocument {
    pub path: String,
    pub score: u32,
}

/// What a [`ScoredDocument`] stands for.
pub struct ScoredDocumentView {
    pub path: Seq<char>,
    pub score: u32,
}

impl View for ScoredDocument {
    type V = ScoredDocumentView;

    open spec fn view(&self) -> ScoredDocumentView {
        ScoredDocumentView { path: self.path@, score: self.score }
    }
}

/// What a vector of scored documents stands for.
pub open spec fn scored_views(docs: Seq<ScoredDocument>) -> Seq<ScoredDocumentView> {
    docs.map_values(|d: ScoredDocument| d@)
}

/// `a` does not come behind `b` in the order of the dictionary, characters
/// compared by their code points, given that the two agree before place `i`.
pub open spec fn path_le_from(a: Seq<char>, b: Seq<char>, i: int) -> bool
    decreases a.len() - i,
{
    if i < 0 || i >= a.len() {
        true
    } else if i >= b.len() {
        false
    } else if a[i] != b[i] {
        a[i] < b[i]
    } else {
        path_le_from(a, b, i + 1)
    }
}

/// `a` does not come behind `b` in the order of the dictionary.
pub open spec fn path_le(a: Seq<char>, b: Seq<char>) -> bool {
    path_le_from(a, b, 0)
}

/// `x` may stand before `y` in a ranking: its score is higher, or the scores
/// are equal and its path does not come behind the other.
pub open spec fn ranks_before(x: ScoredDocumentView, y: ScoredDocumentView) -> bool {
    x.score > y.score || (x.score == y.score && path_le(x.path, y.path))
}

/// Every document may stand before all that follow it.
pub open spec fn is_ranked(docs: Seq<ScoredDocumentView>) -> bool {
    forall|i: int, j: int| 0 <= i < j < docs.len() ==> ranks_before(docs[i], docs[j])
}

/// Of two paths one does not come behind the other.
pub proof fn lemma_path_le_total(a: Seq<char>, b: Seq<char>, i: int)
    ensures
        path_le_from(a, b, i) || path_le_from(b, a, i),
    decreases a.len() - i,
{
    if 0 <= i < a.len() && i < b.len() && a[i] == b[i] {
        lemma_path_le_total(a, b, i + 1);
    }
}

/// The order of paths is transitive.
pub proof fn lemma_path_le_transitive(a: Seq<char>, b: Seq<char>, c: Seq<char>, i: int)
    requires
        path_le_from(a, b, i),
        path_le_from(b, c, i),
    ensures
        path_le_from(a, c, i),
    decreases a.len() - i,
{
    if 0 <= i < a.len() && a[i] == b[i] && b[i] == c[i] {
        lemma_path_le_transitive(a, b, c, i + 1);
    }
}

/// Two paths neither of which comes behind the other are the same path, so
/// only documents with the same path and score can change places in a
/// ranking.
pub proof fn lemma_path_le_antisymmetric(a: Seq<char>, b: Seq<char>)
    requires
        path_le(a, b),
        path_le(b, a),
    ensures
        a == b,
{
    lemma_agree_from(a, b, 0);
    assert(a =~= b);
}

proof fn lemma_agree_from(a: Seq<char>, b: Seq<char>, i: int)
    requires
        0 <= i <= a.len(),
        i <= b.len(),
        path_le_from(a, b, i),
        path_le_from(b, a, i),
    ensures
        a.len() == b.len(),
        forall|k: int| i <= k < a.len() ==> a[k] == b[k],
    decreases a.len() - i,
{
    if i < a.len() {
        lemma_agree_from(a, b, i + 1);
    }
}

/// Of two documents one may stand before the other.
pub proof fn lemma_ranks_before_total(x: ScoredDocumentView, y: ScoredDocumentView)
    ensures
        ranks_before(x, y) || ranks_before(y, x),
{
    lemma_path_le_total(x.path, y.path, 0);
}

/// Standing before is transitive.
pub proof fn lemma_ranks_before_transitive(
    x: ScoredDocumentView,
    y: ScoredDocumentView,
    z: ScoredDocumentView,
)
    requires
        ranks_before(x, y),
        ranks_before(y, z),
    ensures
        ranks_before(x, z),
{
    if x.score == y.score && y.score == z.score {
        lemma_path_le_transitive(x.path, y.path, z.path, 0);
    }
}

/// Putting an element into a sequence adds it to the sequence's elements and
/// changes nothing else.
pub proof fn lemma_insert_to_multiset<A>(s: Seq<A>, i: int, a: A)
    requires
        0 <= i <= s.len(),
    ensures
        s.insert(i, a).to_multiset() == s.to_multiset().insert(a),
{
    let t = s.insert(i, a);
    assert(t.remove(i) =~= s);
    vstd::seq_lib::to_multiset_remove(t, i);
    t.to_multiset_ensures();
    assert(t[i] == a);
    assert(t.contains(a));
    assert(t.to_multiset() =~= s.to_multiset().insert(a));
}

/// Whether `a` does not come behind `b` in the order of the dictionary.
pub fn path_comes_first(a: &Vec<char>, b: &Vec<char>) -> (first: bool)
    ensures
        first == path_le(a@, b@),
{
    let mut i: usize = 0;
    while i < a.len() && i < b.len() && a[i] == b[i]
        invariant
            i <= a.len(),
            i <= b.len(),
            path_le(a@, b@) == path_le_from(a@, b@, i as int),
        decreases a.len() - i,
    {
        i = i + 1;
    }
    if i >= a.len() {
        true
    } else if i >= b.len() {
        false
    } else {
        a[i] < b[i]
    }
}

/// The place at which a document with `score` and the path `path` goes into
/// `ranked`: behind every document that may stand before it, and before the
/// others.
fn place_of(ranked: &Vec<ScoredDocument>, paths: &Vec<Vec<char>>, score: u32, path: &Vec<char>) -> (place:
    usize)
    requires
        is_ranked(scored_views(ranked@)),
        paths.len() == ranked.len(),
        forall|k: int| 0 <= k < ranked.len() ==> (#[trigger] paths[k])@ == ranked[k].path@,
    ensures
        place <= ranked.len(),
        forall|k: int|
            0 <= k < place ==> ranks_before(
                #[trigger] scored_views(ranked@)[k],
                ScoredDocumentView { path: path@, score },
            ),
        forall|k: int|
            place <= k < ranked.len() ==> ranks_before(
                ScoredDocumentView { path: path@, score },
                #[trigger] scored_views(ranked@)[k],
            ),
{
    let ghost doc = ScoredDocumentView { path: path@, score };
    let ghost views = scored_views(ranked@);
    let mut place: usize = 0;
    let mut found = false;
    while place < ranked.len() && !found
        invariant
            place <= ranked.len(),
            views == scored_views(ranked@),
            doc == (ScoredDocumentView { path: path@, score }),
            paths.len() == ranked.len(),
            forall|k: int| 0 <= k < ranked.len() ==> (#[trigger] paths[k])@ == ranked[k].path@,
            forall|k: int| 0 <= k < place ==> ranks_before(#[trigger] views[k], doc),
            found ==> place < ranked.len() && ranks_before(doc, views[place as int]),
        decreases ranked.len() - place, if found { 0int } else { 1int },
    {
        let other: u32 = ranked[place].score;
        let before = if score > other {
            true
        } else if score == other {
            path_comes_first(path, &paths[place])
        } else {
            false
        };
        proof {
            assert(views[place as int] == ranked[place as int]@);
            assert(paths[place as int]@ == ranked[place as int].path@);
            assert(before == ranks_before(doc, views[place as int]));
            lemma_ranks_before_total(doc, views[place as int]);
        }
        if before {
            found = true;
        } else {
            place = place + 1;
        }
    }
    proof {
        assert forall|k: int| place <= k < ranked.len() implies ranks_before(
            doc,
            #[trigger] views[k],
        ) by {
            if k > place {
                lemma_ranks_before_transitive(doc, views[place as int], views[k]);
            }
        }
    }
    place
}

/// Ranks `docs`: the highest score first, and among equal scores the path
/// that comes first in the order of the dictionary. The ranking holds the
/// documents that were given, each as often as it was given.
pub fn rank_documents(docs: Vec<ScoredDocument>) -> (ranked: Vec<ScoredDocument>)
    ensures
        ranked.len() == docs.len(),
        is_ranked(scored_views(ranked@)),
        scored_views(ranked@).to_multiset() == scored_views(docs@).to_multiset(),
{
    let ghost all = scored_views(docs@);
    let mut rest = docs;
    let mut ranked: Vec<ScoredDocument> = Vec::new();
    let mut paths: Vec<Vec<char>> = Vec::new();
    proof {
        assert(scored_views(ranked@).to_multiset().add(scored_views(rest@).to_multiset())
            =~= all.to_multiset()) by {
            scored_views(ranked@).to_multiset_ensures();
        }
    }
    while rest.len() > 0
        invariant
            is_ranked(scored_views(ranked@)),
            paths.len() == ranked.len(),
            forall|k: int| 0 <= k < ranked.len() ==> (#[trigger] paths[k])@ == ranked[k].path@,
            scored_views(ranked@).to_multiset().add(scored_views(rest@).to_multiset())
                == all.to_multiset(),
        decreases rest.len(),
    {
        let ghost rest_before = scored_views(rest@);
        let ghost ranked_before = scored_views(ranked@);
        let doc = rest.pop().unwrap();
        let path = characters(doc.path.as_str());
        let place = place_of(&ranked, &paths, doc.score, &path);
        proof {
            assert(rest_before =~= scored_views(rest@).push(doc@));
            scored_views(rest@).to_multiset_ensures();
            lemma_insert_to_multiset(ranked_before, place as int, doc@);
            assert(scored_views(ranked@.insert(place as int, doc)) =~= ranked_before.insert(
                place as int,
                doc@,
            ));
            assert(ranked_before.to_multiset().insert(doc@).add(
                scored_views(rest@).to_multiset(),
            ) =~= ranked_before.to_multiset().add(rest_before.to_multiset()));
            let after = ranked_before.insert(place as int, doc@);
            assert forall|i: int, j: int| 0 <= i < j < after.len() implies ranks_before(
                after[i],
                after[j],
            ) by {
                if i < place && j > place {
                    assert(after[i] == ranked_before[i]);
                    assert(after[j] == ranked_before[j - 1]);
                } else if i < place && j < place {
                    assert(after[i] == ranked_before[i]);
                    assert(after[j] == ranked_before[j]);
                } else if j == place {
                    assert(after[i] == ranked_before[i]);
                } else if i == place {
                    assert(after[j] == ranked_before[j - 1]);
                } else {
                    assert(after[i] == ranked_before[i - 1]);
                    assert(after[j] == ranked_before[j - 1]);
                }
            }
        }
        ranked.insert(place, doc);
        paths.insert(place, path);
    }
    proof {
        assert(scored_views(rest@).to_multiset() =~= Multiset::<ScoredDocumentView>::empty()) by {
            scored_views(rest@).to_multiset_ensures();
        }
        assert(scored_views(ranked@).to_multiset().add(
            Multiset::<ScoredDocumentView>::empty(),
        ) =~= scored_views(ranked@).to_multiset());
        scored_views(ranked@).to_multiset_ensures();
        all.to_multiset_ensures();
    }
    ranked
}

} // verus!
