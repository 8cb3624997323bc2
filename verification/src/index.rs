//! The index: one term-count table for each document that could be read.

use crate::counts::{count_table, count_terms, counts_of, distinct_keys, TermCounts};
use crate::table::{lemma_take_next_set, Table};
use crate::tokenizer::terms_of;
use vstd::prelude::*;

verus! {

/// One file of the directory that is indexed: its path, and its text where
/// the file could be read as text.
pub struct SourceFile {
    pub path: String,
    pub text: Option<String>,
}

/// What a [`SourceFile`] stands for.
pub struct SourceFileView {
    pub path: Seq<char>,
    pub text: Option<Seq<char>>,
}

impl View for SourceFile {
    type V = SourceFileView;

    open spec fn view(&self) -> SourceFileView {
        SourceFileView {
            path: self.path@,
            text: match self.text {
                Some(text) => Some(text@),
                None => None,
            },
        }
    }
}

/// What a vector of files stands for.
pub open spec fn file_views(files: Seq<SourceFile>) -> Seq<SourceFileView> {
    files.map_values(|f: SourceFile| f@)
}

/// The index of a sequence of files: each readable file's path bound to the
/// count table of its text. Unreadable files leave no entry.
pub open spec fn indexed(files: Seq<SourceFileView>) -> Map<Seq<char>, Map<Seq<char>, nat>>
    decreases files.len(),
{
    if files.len() == 0 {
        Map::empty()
    } else {
        let before = indexed(files.drop_last());
        match files.last().text {
            Some(text) => before.insert(files.last().path, count_table(terms_of(text))),
            None => before,
        }
    }
}

/// The number of files without a readable text.
pub open spec fn unreadable(files: Seq<SourceFileView>) -> nat
    decreases files.len(),
{
    if files.len() == 0 {
        0
    } else {
        unreadable(files.drop_last()) + if files.last().text is None {
            1nat
        } else {
            0nat
        }
    }
}

/// No two files share a path.
pub open spec fn distinct_paths(files: Seq<SourceFileView>) -> bool {
    forall|i: int, j: int| 0 <= i < j < files.len() ==> files[i].path != files[j].path
}

/// The file at place `i` is readable and has the path `path`.
pub open spec fn readable_at(files: Seq<SourceFileView>, i: int, path: Seq<char>) -> bool {
    0 <= i < files.len() && files[i].path == path && files[i].text is Some
}

/// The entries of the index of files with distinct paths: the paths of the
/// readable files, each bound to the count table of that file's text.
pub proof fn lemma_indexed_entries(files: Seq<SourceFileView>)
    requires
        distinct_paths(files),
    ensures
        forall|p: Seq<char>| #[trigger]
            indexed(files).contains_key(p) <==> exists|i: int| readable_at(files, i, p),
        forall|i: int, p: Seq<char>| #[trigger]
            readable_at(files, i, p) ==> indexed(files)[p] == count_table(
                terms_of(files[i].text->0),
            ),
    decreases files.len(),
{
    if files.len() > 0 {
        let front = files.drop_last();
        let last = files.last();
        lemma_indexed_entries(front);
        assert forall|p: Seq<char>| #[trigger]
            indexed(files).contains_key(p) <==> exists|i: int| readable_at(files, i, p) by {
            if indexed(files).contains_key(p) {
                if last.text is Some && last.path == p {
                    assert(readable_at(files, files.len() - 1, p));
                } else {
                    assert(indexed(front).contains_key(p));
                    let i = choose|i: int| readable_at(front, i, p);
                    assert(readable_at(files, i, p));
                }
            }
            if exists|i: int| readable_at(files, i, p) {
                let i = choose|i: int| readable_at(files, i, p);
                if i < files.len() - 1 {
                    assert(readable_at(front, i, p));
                }
            }
        }
        assert forall|i: int, p: Seq<char>| #[trigger] readable_at(files, i, p) implies indexed(
            files,
        )[p] == count_table(terms_of(files[i].text->0)) by {
            if i < files.len() - 1 {
                assert(readable_at(front, i, p));
            }
        }
    }
}

/// The index of files with distinct paths has one entry for each readable
/// file and none for the others.
pub proof fn lemma_index_size(files: Seq<SourceFileView>)
    requires
        distinct_paths(files),
    ensures
        indexed(files).dom().finite(),
        indexed(files).dom().len() + unreadable(files) == files.len(),
    decreases files.len(),
{
    if files.len() > 0 {
        let front = files.drop_last();
        lemma_index_size(front);
        lemma_indexed_entries(front);
        if files.last().text is Some && indexed(front).contains_key(files.last().path) {
            let i = choose|i: int| readable_at(front, i, files.last().path);
            assert(files[i].path == files[files.len() - 1].path);
        }
    }
}

/// The index does not depend on the order of the files: two sequences of
/// files with distinct paths that hold the same files have the same index.
pub proof fn lemma_index_order_free(a: Seq<SourceFileView>, b: Seq<SourceFileView>)
    requires
        distinct_paths(a),
        distinct_paths(b),
        forall|f: SourceFileView| a.contains(f) <==> b.contains(f),
    ensures
        indexed(a) == indexed(b),
{
    lemma_indexed_entries(a);
    lemma_indexed_entries(b);
    assert forall|p: Seq<char>| indexed(a).contains_key(p) implies indexed(b).contains_key(p)
        && indexed(a)[p] == indexed(b)[p] by {
        lemma_same_entry(a, b, p);
    }
    assert forall|p: Seq<char>| indexed(b).contains_key(p) implies indexed(a).contains_key(
        p,
    ) by {
        lemma_same_entry(b, a, p);
    }
    assert(indexed(a) =~= indexed(b));
}

proof fn lemma_same_entry(a: Seq<SourceFileView>, b: Seq<SourceFileView>, p: Seq<char>)
    requires
        distinct_paths(a),
        distinct_paths(b),
        forall|f: SourceFileView| a.contains(f) ==> b.contains(f),
        indexed(a).contains_key(p),
    ensures
        indexed(b).contains_key(p),
        indexed(a)[p] == indexed(b)[p],
{
    lemma_indexed_entries(a);
    lemma_indexed_entries(b);
    let i = choose|i: int| readable_at(a, i, p);
    assert(a.contains(a[i]));
    let j = choose|j: int| 0 <= j < b.len() && b[j] == a[i];
    assert(readable_at(b, j, p));
}

/// The index that a list of documents stands for, each a path with the list
/// of its terms and counts. Where a path stands in the list twice, its later
/// document holds.
pub open spec fn documents_of(entries: Seq<(String, Vec<(String, usize)>)>) -> Map<
    Seq<char>,
    Map<Seq<char>, nat>,
>
    decreases entries.len(),
{
    if entries.len() == 0 {
        Map::empty()
    } else {
        documents_of(entries.drop_last()).insert(
            entries.last().0@,
            counts_of(entries.last().1@),
        )
    }
}

/// No two documents of a list have the same path, and no document has a term
/// twice.
pub open spec fn distinct_documents(documents: Seq<(String, Vec<(String, usize)>)>) -> bool {
    &&& distinct_keys(documents)
    &&& forall|d: int| 0 <= d < documents.len() ==> distinct_keys((#[trigger] documents[d]).1@)
}

/// The index: a term-count table for each document, by the document's path.
pub struct Index {
    docs: Table<TermCounts>,
}

impl View for Index {
    type V = Map<Seq<char>, Map<Seq<char>, nat>>;

    closed spec fn view(&self) -> Map<Seq<char>, Map<Seq<char>, nat>> {
        Map::new(|p: Seq<char>| self.docs@.contains_key(p), |p: Seq<char>| self.docs@[p]@)
    }
}

impl Index {
    /// The paths of the documents, in the order in which they came in.
    pub closed spec fn paths(&self) -> Seq<Seq<char>> {
        self.docs.keys()
    }

    /// The path list is valid, and so is every document's table.
    pub closed spec fn wf(&self) -> bool {
        &&& self.docs.wf()
        &&& forall|p: Seq<char>| #[trigger]
            self.docs@.contains_key(p) ==> self.docs@[p].wf()
    }

    /// What validity means for the paths and the documents.
    pub proof fn lemma_wf(&self)
        requires
            self.wf(),
        ensures
            self@.dom().finite(),
            self.paths().no_duplicates(),
            self@.dom() == self.paths().to_set(),
            self@.dom().len() == self.paths().len(),
            forall|i: int| 0 <= i < self.paths().len() ==> self@.contains_key(#[trigger] self.paths()[i]),
    {
        self.docs.lemma_wf();
        assert(self@.dom() =~= self.docs@.dom());
        assert forall|i: int| 0 <= i < self.paths().len() implies self@.contains_key(
            #[trigger] self.paths()[i],
        ) by {
            assert(self.paths().contains(self.paths()[i]));
        }
    }

    /// An index without documents.
    pub fn new() -> (index: Self)
        ensures
            index.wf(),
            index@ == Map::<Seq<char>, Map<Seq<char>, nat>>::empty(),
            index.paths() == Seq::<Seq<char>>::empty(),
    {
        let index = Index { docs: Table::new() };
        assert(index@ =~= Map::<Seq<char>, Map<Seq<char>, nat>>::empty());
        index
    }

    /// Enters a document. Where the path is in the index already, the new
    /// table takes the place of the old one.
    pub fn insert(&mut self, path: String, counts: TermCounts)
        requires
            old(self).wf(),
            counts.wf(),
        ensures
            final(self).wf(),
            final(self)@ == old(self)@.insert(path@, counts@),
            final(self).paths() == if old(self)@.contains_key(path@) {
                old(self).paths()
            } else {
                old(self).paths().push(path@)
            },
    {
        self.docs.insert(path, counts);
        assert(self@ =~= old(self)@.insert(path@, counts@));
    }

    /// The table of the document at `path`, if the index holds it.
    pub fn get(&self, path: &str) -> (counts: Option<&TermCounts>)
        requires
            self.wf(),
        ensures
            match counts {
                Some(c) => self@.contains_key(path@) && c@ == self@[path@] && c.wf(),
                None => !self@.contains_key(path@),
            },
    {
        self.docs.get(path)
    }

    /// The index as a list: each document's path with the list of its terms
    /// and counts, in the order of the index's paths.
    pub fn entries(&self) -> (entries: Vec<(String, Vec<(String, usize)>)>)
        requires
            self.wf(),
        ensures
            entries.len() == self.paths().len(),
            forall|i: int| 0 <= i < entries.len() ==> (#[trigger] entries[i]).0@ == self.paths()[i],
            distinct_documents(entries@),
            documents_of(entries@) == self@,
    {
        proof {
            self.lemma_wf();
        }
        let ghost paths = self.paths();
        let mut entries: Vec<(String, Vec<(String, usize)>)> = Vec::new();
        let mut i: usize = 0;
        proof {
            assert(paths.take(0).to_set() =~= Set::<Seq<char>>::empty());
            assert(documents_of(entries@) =~= self@.restrict(paths.take(0).to_set()));
        }
        while i < self.len()
            invariant
                self.wf(),
                paths == self.paths(),
                paths.no_duplicates(),
                self@.dom() == paths.to_set(),
                i <= paths.len(),
                entries.len() == i,
                forall|k: int| 0 <= k < i ==> (#[trigger] entries[k]).0@ == paths[k],
                forall|k: int| 0 <= k < i ==> distinct_keys((#[trigger] entries[k]).1@),
                documents_of(entries@) == self@.restrict(paths.take(i as int).to_set()),
            decreases paths.len() - i,
        {
            let path = self.path(i);
            proof {
                assert(paths.contains(paths[i as int]));
            }
            let counts: Vec<(String, usize)> = self.get(path.as_str()).unwrap().entries();
            let entry = (path.clone(), counts);
            proof {
                let held = paths.take(i as int).to_set();
                lemma_take_next_set(paths, i as int);
                assert(entries@.push(entry).drop_last() =~= entries@);
                assert(self@.restrict(held.insert(path@)) =~= self@.restrict(held).insert(
                    path@,
                    counts_of(counts@),
                ));
            }
            entries.push(entry);
            i = i + 1;
        }
        proof {
            assert(paths.take(i as int) =~= paths);
            assert(self@.restrict(paths.to_set()) =~= self@);
        }
        entries
    }

    /// The number of documents.
    pub fn len(&self) -> (n: usize)
        ensures
            n == self.paths().len(),
    {
        self.docs.len()
    }

    /// The path of the document at place `i`.
    pub fn path(&self, i: usize) -> (path: &String)
        requires
            i < self.paths().len(),
        ensures
            path@ == self.paths()[i as int],
    {
        self.docs.key(i)
    }
}

/// Builds the index of `files`. A file with a text is entered under its path
/// with the count table of that text; a file without one is left out and
/// counted. Returns the index and the number of files left out.
pub fn create_index(files: &Vec<SourceFile>) -> (built: (Index, usize))
    ensures
        built.0.wf(),
        built.0@ == indexed(file_views(files@)),
        built.1 == unreadable(file_views(files@)),
        distinct_paths(file_views(files@)) ==> built.0.paths().len() + built.1 == files.len(),
{
    let ghost all = file_views(files@);
    let mut index = Index::new();
    let mut skipped: usize = 0;
    let mut i: usize = 0;
    while i < files.len()
        invariant
            i <= files.len(),
            all == file_views(files@),
            index.wf(),
            index@ == indexed(all.take(i as int)),
            skipped == unreadable(all.take(i as int)),
            skipped <= i,
        decreases files.len() - i,
    {
        proof {
            assert(all.take(i + 1).drop_last() =~= all.take(i as int));
            assert(all.take(i + 1).last() == files@[i as int]@);
        }
        match &files[i].text {
            Some(text) => {
                let counts = count_terms(text.as_str());
                index.insert(files[i].path.clone(), counts);
            },
            None => {
                skipped = skipped + 1;
            },
        }
        i = i + 1;
    }
    proof {
        assert(all.take(files.len() as int) =~= all);
        index.lemma_wf();
        if distinct_paths(all) {
            lemma_index_size(all);
        }
    }
    (index, skipped)
}

/// A file as one unit of work leaves it: its path, and the count table of
/// its text where the file could be read.
pub struct CountedFile {
    pub path: String,
    pub counts: Option<TermCounts>,
}

/// What a [`CountedFile`] stands for.
pub struct CountedFileView {
    pub path: Seq<char>,
    pub counts: Option<Map<Seq<char>, nat>>,
}

impl View for CountedFile {
    type V = CountedFileView;

    open spec fn view(&self) -> CountedFileView {
        CountedFileView {
            path: self.path@,
            counts: match self.counts {
                Some(counts) => Some(counts@),
                None => None,
            },
        }
    }
}

/// What a vector of counted files stands for.
pub open spec fn counted_views(files: Seq<CountedFile>) -> Seq<CountedFileView> {
    files.map_values(|f: CountedFile| f@)
}

/// Every table among the files is valid.
pub open spec fn valid_counts(files: Seq<CountedFile>) -> bool {
    forall|i: int|
        0 <= i < files.len() ==> match (#[trigger] files[i]).counts {
            Some(counts) => counts.wf(),
            None => true,
        }
}

/// What counting leaves of a file: its path, and the count table of its text
/// where it has one.
pub open spec fn counted(file: SourceFileView) -> CountedFileView {
    CountedFileView {
        path: file.path,
        counts: match file.text {
            Some(text) => Some(count_table(terms_of(text))),
            None => None,
        },
    }
}

/// The index that counted files make: each file with a table is entered
/// under its path, a later file taking the place of an earlier one with the
/// same path.
pub open spec fn assembled(files: Seq<CountedFileView>) -> Map<Seq<char>, Map<Seq<char>, nat>>
    decreases files.len(),
{
    if files.len() == 0 {
        Map::empty()
    } else {
        let before = assembled(files.drop_last());
        match files.last().counts {
            Some(counts) => before.insert(files.last().path, counts),
            None => before,
        }
    }
}

/// The number of counted files without a table.
pub open spec fn uncounted(files: Seq<CountedFileView>) -> nat
    decreases files.len(),
{
    if files.len() == 0 {
        0
    } else {
        uncounted(files.drop_last()) + if files.last().counts is None {
            1nat
        } else {
            0nat
        }
    }
}

/// Counting each file and assembling the tables gives the index of the
/// files, and leaves out as many.
pub proof fn lemma_assembled_is_indexed(files: Seq<SourceFileView>)
    ensures
        assembled(files.map_values(|f: SourceFileView| counted(f))) == indexed(files),
        uncounted(files.map_values(|f: SourceFileView| counted(f))) == unreadable(files),
    decreases files.len(),
{
    let each = files.map_values(|f: SourceFileView| counted(f));
    if files.len() > 0 {
        lemma_assembled_is_indexed(files.drop_last());
        assert(each.drop_last() =~= files.drop_last().map_values(|f: SourceFileView| counted(f)));
    }
}

/// One unit of work: counts the terms of a file that was read.
pub fn count_file(file: SourceFile) -> (done: CountedFile)
    ensures
        done@ == counted(file@),
        match done.counts {
            Some(counts) => counts.wf(),
            None => true,
        },
{
    let counts = match &file.text {
        Some(text) => Some(count_terms(text.as_str())),
        None => None,
    };
    CountedFile { path: file.path, counts }
}

/// Assembles the index from counted files, in their order. A file with a
/// table is entered under its path; a file without one is left out and
/// counted. Returns the index and the number of files left out.
pub fn assemble_index(files: Vec<CountedFile>) -> (built: (Index, usize))
    requires
        valid_counts(files@),
    ensures
        built.0.wf(),
        built.0@ == assembled(counted_views(files@)),
        built.1 == uncounted(counted_views(files@)),
{
    let ghost all = files@;
    let ghost views = counted_views(all);
    let total: usize = files.len();
    let mut waiting = files;
    let mut turned: Vec<CountedFile> = Vec::new();
    while waiting.len() > 0
        invariant
            waiting.len() + turned.len() == all.len(),
            all.len() == total,
            waiting@ == all.take(waiting.len() as int),
            forall|k: int| 0 <= k < turned.len() ==> #[trigger] turned[k] == all[all.len() - 1 - k],
        decreases waiting.len(),
    {
        let file = waiting.pop().unwrap();
        turned.push(file);
    }
    let mut index = Index::new();
    let mut skipped: usize = 0;
    proof {
        assert(views.take(0) =~= Seq::<CountedFileView>::empty());
    }
    while turned.len() > 0
        invariant
            valid_counts(all),
            views == counted_views(all),
            turned.len() <= all.len() == total,
            forall|k: int| 0 <= k < turned.len() ==> #[trigger] turned[k] == all[all.len() - 1 - k],
            index.wf(),
            index@ == assembled(views.take(all.len() - turned.len())),
            skipped == uncounted(views.take(all.len() - turned.len())),
            skipped <= all.len() - turned.len(),
        decreases turned.len(),
    {
        let ghost at = all.len() - turned.len();
        let file = turned.pop().unwrap();
        proof {
            assert(skipped <= at < all.len());
            assert(file == all[at]);
            assert(views.take(at + 1).drop_last() =~= views.take(at));
            assert(views.take(at + 1).last() == file@);
        }
        match file.counts {
            Some(counts) => {
                index.insert(file.path, counts);
            },
            None => {
                skipped = skipped + 1;
            },
        }
    }
    proof {
        assert(views.take(all.len() as int) =~= views);
    }
    (index, skipped)
}

} // verus!
