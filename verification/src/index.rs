//! Lexical Indexer: an inverted index from normalised words to the ids of
//! the documents that hold them, one id for each occurrence.

use crate::text::{split_terms, terms, texts};
use vstd::prelude::*;

verus! {

/// How often `x` occurs in `items`.
pub open spec fn count_of<T>(items: Seq<T>, x: T) -> nat
    decreases items.len(),
{
    if items.len() == 0 {
        0
    } else {
        count_of(items.drop_last(), x) + if items.last() == x {
            1nat
        } else {
            0nat
        }
    }
}

/// The index terms of a document: the normalised words of its content,
/// then those of its title.
pub open spec fn document_terms(content: Seq<char>, title: Seq<char>) -> Seq<Seq<char>> {
    terms(content) + terms(title)
}

/// The words that occur among the terms of at least one of `documents`.
pub open spec fn indexed_words(documents: Seq<Seq<Seq<char>>>) -> Set<Seq<char>> {
    Set::new(
        |w: Seq<char>|
            exists|i: int| 0 <= i < documents.len() && count_of(#[trigger] documents[i], w) > 0,
    )
}

/// One word of the index with the ids of the documents that hold it, one id
/// for each occurrence.
struct IndexEntry {
    word: String,
    postings: Vec<usize>,
}

/// Whether the ids of a posting list do not descend.
pub open spec fn ascending(ids: Seq<usize>) -> bool {
    forall|p: int, q: int| 0 <= p < q < ids.len() ==> ids[p] <= ids[q]
}

/// Whether some entry of `index` is for `word`.
spec fn has_word(index: Seq<IndexEntry>, word: Seq<char>) -> bool {
    exists|j: int| 0 <= j < index.len() && (#[trigger] index[j]).word@ == word
}

/// Whether `index` is the inverted index of `documents`, extended by the
/// terms `pending` of a document that will take the next id: every entry
/// has postings, all of them ids of documents; no word has two entries; an
/// id stands in the postings of a word once for each occurrence of the word
/// among the terms of its document, in ascending order; and every word
/// that occurs has an entry.
spec fn indexes(
    index: Seq<IndexEntry>,
    documents: Seq<Seq<Seq<char>>>,
    pending: Seq<Seq<char>>,
) -> bool {
    &&& forall|j: int| 0 <= j < index.len() ==> (#[trigger] index[j]).postings.len() > 0
    &&& forall|j: int, p: int|
        0 <= j < index.len() && 0 <= p < index[j].postings.len() ==> (
        #[trigger] index[j].postings@[p]) <= documents.len()
    &&& forall|j: int, k: int|
        0 <= j < k < index.len() ==> (#[trigger] index[j]).word@ != (#[trigger] index[k]).word@
    &&& forall|j: int| 0 <= j < index.len() ==> ascending((#[trigger] index[j]).postings@)
    &&& forall|j: int, i: int|
        0 <= j < index.len() && 0 <= i < documents.len() ==> count_of(
            (#[trigger] index[j]).postings@,
            i as usize,
        ) == count_of(#[trigger] documents[i], index[j].word@)
    &&& forall|j: int|
        0 <= j < index.len() ==> count_of(
            (#[trigger] index[j]).postings@,
            documents.len() as usize,
        ) == count_of(pending, index[j].word@)
    &&& forall|w: Seq<char>, i: int|
        0 <= i < documents.len() && count_of(#[trigger] documents[i], w) > 0
            ==> #[trigger] has_word(index, w)
    &&& forall|w: Seq<char>| count_of(pending, w) > 0 ==> #[trigger] has_word(index, w)
}

/// Pushing an item raises the count of that item by one and no other.
pub proof fn lemma_count_push<T>(items: Seq<T>, x: T, y: T)
    ensures
        count_of(items.push(x), y) == count_of(items, y) + if x == y {
            1nat
        } else {
            0nat
        },
{
    assert(items.push(x).drop_last() =~= items);
}

/// An item that is not in a sequence is counted zero times, and one that is
/// counted is present.
pub proof fn lemma_count_positive<T>(items: Seq<T>, x: T)
    ensures
        count_of(items, x) > 0 <==> items.contains(x),
    decreases items.len(),
{
    if items.len() > 0 {
        lemma_count_push(items.drop_last(), items.last(), x);
        lemma_count_positive(items.drop_last(), x);
        assert(items.drop_last().push(items.last()) =~= items);
        if items.contains(x) {
            let i = choose|i: int| 0 <= i < items.len() && items[i] == x;
            if i < items.len() - 1 {
                assert(items.drop_last()[i] == x);
            }
        } else if items.drop_last().contains(x) {
            let i = choose|i: int| 0 <= i < items.len() - 1 && items.drop_last()[i] == x;
            assert(items[i] == x);
        }
    }
}

/// An index of `documents` extended by all the terms `next` of one more is
/// the index of `documents` with `next` added.
proof fn lemma_index_complete(
    index: Seq<IndexEntry>,
    documents: Seq<Seq<Seq<char>>>,
    next: Seq<Seq<char>>,
)
    requires
        indexes(index, documents, next),
        documents.len() + 1 <= usize::MAX,
    ensures
        indexes(index, documents.push(next), Seq::empty()),
{
    let grown = documents.push(next);
    assert forall|j: int| 0 <= j < index.len() implies count_of(
        (#[trigger] index[j]).postings@,
        grown.len() as usize,
    ) == count_of(Seq::<Seq<char>>::empty(), index[j].word@) by {
        let postings = index[j].postings@;
        let id = grown.len() as usize;
        if count_of(postings, id) > 0 {
            lemma_count_positive(postings, id);
            let p = choose|p: int| 0 <= p < postings.len() && postings[p] == id;
            assert(index[j].postings@[p] <= documents.len());
        }
    }
    assert forall|j: int, i: int| 0 <= j < index.len() && 0 <= i < grown.len() implies count_of(
        (#[trigger] index[j]).postings@,
        i as usize,
    ) == count_of(#[trigger] grown[i], index[j].word@) by {
        if i < documents.len() {
            assert(grown[i] == documents[i]);
        }
    }
    assert forall|w: Seq<char>, i: int|
        0 <= i < grown.len() && count_of(#[trigger] grown[i], w)
            > 0 implies #[trigger] has_word(index, w) by {
        if i < documents.len() {
            assert(grown[i] == documents[i]);
        }
    }
    assert forall|j: int, p: int|
        0 <= j < index.len() && 0 <= p < index[j].postings.len() implies (
    #[trigger] index[j].postings@[p]) <= grown.len() by {
        assert(index[j].postings@[p] <= documents.len());
    }
}

/// Position of the entry for `word`, if the index has one.
fn find_entry(index: &Vec<IndexEntry>, word: &String) -> (found: Option<usize>)
    ensures
        match found {
            Some(j) => j < index.len() && index@[j as int].word@ == word@,
            None => !has_word(index@, word@),
        },
{
    let mut j: usize = 0;
    while j < index.len()
        invariant
            j <= index.len(),
            forall|k: int| 0 <= k < j ==> (#[trigger] index@[k]).word@ != word@,
        decreases index.len() - j,
    {
        if index[j].word == *word {
            return Some(j);
        }
        j += 1;
    }
    None
}

/// Records one occurrence of `term` in the document that takes the id `id`,
/// the one after `documents`.
fn record(
    index: &mut Vec<IndexEntry>,
    term: String,
    id: usize,
    Ghost(documents): Ghost<Seq<Seq<Seq<char>>>>,
    Ghost(pending): Ghost<Seq<Seq<char>>>,
)
    requires
        indexes(old(index)@, documents, pending),
        id == documents.len(),
    ensures
        indexes(final(index)@, documents, pending.push(term@)),
{
    let ghost before = index@;
    let ghost word = term@;
    proof {
        assert forall|y: Seq<char>| true implies #[trigger] count_of(pending.push(word), y)
            == count_of(pending, y) + if word == y {
            1nat
        } else {
            0nat
        } by {
            lemma_count_push(pending, word, y);
        }
    }
    match find_entry(index, &term) {
        Some(j) => {
            let ghost old_postings = index@[j as int].postings@;
            index[j].postings.push(id);
            proof {
                let after = index@;
                assert(after.len() == before.len());
                assert forall|k: int| 0 <= k < after.len() implies (#[trigger] after[k]).word
                    == before[k].word && (k != j ==> after[k] == before[k]) by {}
                assert(after[j as int].postings@ == old_postings.push(id));
                assert forall|i: usize| true implies #[trigger] count_of(
                    old_postings.push(id),
                    i,
                ) == count_of(old_postings, i) + if id == i {
                    1nat
                } else {
                    0nat
                } by {
                    lemma_count_push(old_postings, id, i);
                }
                assert forall|w: Seq<char>| has_word(before, w) implies has_word(after, w) by {
                    let k = choose|k: int| 0 <= k < before.len() && before[k].word@ == w;
                    assert(after[k].word@ == w);
                }
                assert(has_word(after, word)) by {
                    assert(after[j as int].word@ == word);
                }
                assert forall|k: int, p: int|
                    0 <= k < after.len() && 0 <= p < after[k].postings.len() implies (
                #[trigger] after[k].postings@[p]) <= documents.len() by {
                    if k == j {
                        if p < old_postings.len() {
                            assert(before[k].postings@[p] <= documents.len());
                        }
                    } else {
                        assert(before[k].postings@[p] <= documents.len());
                    }
                }
                assert forall|k: int, i: int|
                    0 <= k < after.len() && 0 <= i < documents.len() implies count_of(
                    (#[trigger] after[k]).postings@,
                    i as usize,
                ) == count_of(#[trigger] documents[i], after[k].word@) by {
                    assert(count_of(before[k].postings@, i as usize) == count_of(
                        documents[i],
                        before[k].word@,
                    ));
                }
                assert forall|k: int| 0 <= k < after.len() implies count_of(
                    (#[trigger] after[k]).postings@,
                    documents.len() as usize,
                ) == count_of(pending.push(word), after[k].word@) by {
                    assert(count_of(before[k].postings@, documents.len() as usize) == count_of(
                        pending,
                        before[k].word@,
                    ));
                    if k != j {
                        if k < j {
                            assert(before[k].word@ != before[j as int].word@);
                        } else {
                            assert(before[j as int].word@ != before[k].word@);
                        }
                    }
                }
                assert forall|k: int, l: int| 0 <= k < l < after.len() implies (
                #[trigger] after[k]).word@ != (#[trigger] after[l]).word@ by {
                    assert(before[k].word@ != before[l].word@);
                }
                assert forall|k: int| 0 <= k < after.len() implies (
                #[trigger] after[k]).postings.len() > 0 by {
                    assert(before[k].postings.len() > 0);
                }
                assert forall|k: int| 0 <= k < after.len() implies ascending(
                    (#[trigger] after[k]).postings@,
                ) by {
                    assert(ascending(before[k].postings@));
                    if k == j {
                        let grown = after[k].postings@;
                        assert forall|p: int, q: int| 0 <= p < q < grown.len() implies grown[p]
                            <= grown[q] by {
                            assert(before[k].postings@[p] <= documents.len());
                            if q < old_postings.len() {
                                assert(old_postings[p] <= old_postings[q]);
                            }
                        }
                    }
                }
            }
        },
        None => {
            let mut postings: Vec<usize> = Vec::new();
            postings.push(id);
            let entry = IndexEntry { word: term, postings };
            index.push(entry);
            proof {
                let after = index@;
                let last = before.len() as int;
                assert(after =~= before.push(entry));
                assert(after[last].postings@ =~= seq![id]);
                assert forall|i: usize| true implies #[trigger] count_of(seq![id], i) == if id
                    == i {
                    1nat
                } else {
                    0nat
                } by {
                    lemma_count_push(Seq::<usize>::empty(), id, i);
                    assert(Seq::<usize>::empty().push(id) =~= seq![id]);
                }
                assert forall|w: Seq<char>| has_word(before, w) implies has_word(after, w) by {
                    let k = choose|k: int| 0 <= k < before.len() && before[k].word@ == w;
                    assert(after[k].word@ == w);
                }
                assert(has_word(after, word)) by {
                    assert(after[last].word@ == word);
                }
                assert forall|k: int, i: int|
                    0 <= k < after.len() && 0 <= i < documents.len() implies count_of(
                    (#[trigger] after[k]).postings@,
                    i as usize,
                ) == count_of(#[trigger] documents[i], after[k].word@) by {
                    if k < last {
                        assert(count_of(before[k].postings@, i as usize) == count_of(
                            documents[i],
                            before[k].word@,
                        ));
                    } else if count_of(documents[i], word) > 0 {
                        assert(has_word(before, word));
                    }
                }
                assert forall|k: int| 0 <= k < after.len() implies count_of(
                    (#[trigger] after[k]).postings@,
                    documents.len() as usize,
                ) == count_of(pending.push(word), after[k].word@) by {
                    if k < last {
                        assert(count_of(before[k].postings@, documents.len() as usize)
                            == count_of(pending, before[k].word@));
                        assert(before[k].word@ != word);
                    } else if count_of(pending, word) > 0 {
                        assert(has_word(before, word));
                    }
                }
                assert forall|k: int, l: int| 0 <= k < l < after.len() implies (
                #[trigger] after[k]).word@ != (#[trigger] after[l]).word@ by {
                    if l < last {
                        assert(before[k].word@ != before[l].word@);
                    } else {
                        assert(before[k].word@ != word);
                    }
                }
                assert forall|k: int, p: int|
                    0 <= k < after.len() && 0 <= p < after[k].postings.len() implies (
                #[trigger] after[k].postings@[p]) <= documents.len() by {
                    if k < last {
                        assert(before[k].postings@[p] <= documents.len());
                    }
                }
                assert forall|k: int| 0 <= k < after.len() implies (
                #[trigger] after[k]).postings.len() > 0 by {
                    if k < last {
                        assert(before[k].postings.len() > 0);
                    }
                }
                assert forall|k: int| 0 <= k < after.len() implies ascending(
                    (#[trigger] after[k]).postings@,
                ) by {
                    if k < last {
                        assert(ascending(before[k].postings@));
                    }
                }
            }
        },
    }
}


/// The entries of an index are as many as the distinct words it covers.
proof fn lemma_index_size(index: Seq<IndexEntry>, documents: Seq<Seq<Seq<char>>>)
    requires
        indexes(index, documents, Seq::empty()),
    ensures
        index.len() == indexed_words(documents).len(),
{
    let held = index.map_values(|e: IndexEntry| e.word@);
    assert(held.no_duplicates()) by {
        assert forall|j: int, k: int|
            0 <= j < held.len() && 0 <= k < held.len() && j != k implies held[j] != held[k] by {
            if j < k {
                assert(index[j].word@ != index[k].word@);
            } else {
                assert(index[k].word@ != index[j].word@);
            }
        }
    }
    held.unique_seq_to_set();
    assert(held.to_set() =~= indexed_words(documents)) by {
        assert forall|w: Seq<char>| held.to_set().contains(w) implies indexed_words(
            documents,
        ).contains(w) by {
            let j = choose|j: int| 0 <= j < held.len() && held[j] == w;
            let postings = index[j].postings@;
            assert(postings.len() > 0);
            let id = postings[0];
            assert(index[j].postings@[0] <= documents.len());
            assert(postings.contains(id));
            lemma_count_positive(postings, id);
            if id == documents.len() {
                assert(count_of(postings, documents.len() as usize) == count_of(
                    Seq::<Seq<char>>::empty(),
                    index[j].word@,
                ));
            } else {
                assert(count_of(index[j].postings@, (id as int) as usize) == count_of(
                    documents[id as int],
                    index[j].word@,
                ));
            }
        }
        assert forall|w: Seq<char>| indexed_words(documents).contains(w) implies held.to_set()
            .contains(w) by {
            let i = choose|i: int|
                0 <= i < documents.len() && count_of(#[trigger] documents[i], w) > 0;
            assert(has_word(index, w));
            let j = choose|j: int| 0 <= j < index.len() && (#[trigger] index[j]).word@ == w;
            assert(held[j] == w);
        }
    }
}

/// The entries of an index and the term lists that they were built from.
struct IndexData {
    entries: Vec<IndexEntry>,
    documents: Ghost<Seq<Seq<Seq<char>>>>,
    count: usize,
}

impl IndexData {
    spec fn wf(&self) -> bool {
        &&& self.count == self.documents@.len()
        &&& indexes(self.entries@, self.documents@, Seq::empty())
    }

    fn new() -> (data: IndexData)
        ensures
            data.wf(),
            data.documents@ == Seq::<Seq<Seq<char>>>::empty(),
    {
        IndexData { entries: Vec::new(), documents: Ghost(Seq::empty()), count: 0 }
    }

    /// Indexes the terms `found` under the next id.
    fn add(&mut self, found: &Vec<String>)
        requires
            old(self).wf(),
            old(self).count < usize::MAX,
        ensures
            final(self).wf(),
            final(self).documents@ == old(self).documents@.push(texts(found@)),
    {
        let ghost before = self.documents@;
        let id = self.count;
        let mut k: usize = 0;
        while k < found.len()
            invariant
                k <= found.len(),
                id == before.len(),
                id < usize::MAX,
                self.count == id,
                self.documents@ == before,
                indexes(self.entries@, before, texts(found@).take(k as int)),
            decreases found.len() - k,
        {
            record(
                &mut self.entries,
                found[k].clone(),
                id,
                Ghost(before),
                Ghost(texts(found@).take(k as int)),
            );
            assert(texts(found@).take(k + 1) =~= texts(found@).take(k as int).push(
                found@[k as int]@,
            ));
            k += 1;
        }
        proof {
            assert(texts(found@).take(k as int) =~= texts(found@));
            lemma_index_complete(self.entries@, before, texts(found@));
        }
        self.documents = Ghost(before.push(texts(found@)));
        self.count = id + 1;
    }
}

/// An inverted index over documents. A document's id is the number of
/// documents indexed before it.
pub struct LexicalIndex {
    data: IndexData,
}

impl View for LexicalIndex {
    type V = Seq<Seq<Seq<char>>>;

    /// The term lists of the indexed documents, by id.
    closed spec fn view(&self) -> Seq<Seq<Seq<char>>> {
        self.data.documents@
    }
}

impl LexicalIndex {
    #[verifier::type_invariant]
    spec fn entries_match_documents(self) -> bool {
        self.data.wf()
    }

    /// An index of no document.
    pub fn new() -> (index: LexicalIndex)
        ensures
            index@ == Seq::<Seq<Seq<char>>>::empty(),
    {
        LexicalIndex { data: IndexData::new() }
    }

    /// Forgets every document.
    pub fn clear(&mut self)
        ensures
            final(self)@ == Seq::<Seq<Seq<char>>>::empty(),
    {
        self.data = IndexData::new();
    }

    /// The number of indexed documents, which is the id that the next one
    /// takes.
    pub fn len(&self) -> (count: usize)
        ensures
            count == self@.len(),
    {
        proof {
            use_type_invariant(self);
        }
        self.data.count
    }

    /// The number of distinct words that the index holds.
    pub fn size(&self) -> (size: usize)
        ensures
            size == indexed_words(self@).len(),
    {
        proof {
            use_type_invariant(self);
            lemma_index_size(self.data.entries@, self.data.documents@);
        }
        self.data.entries.len()
    }

    /// Indexes a document under the next id: every normalised word of its
    /// content and of its title adds the id to the postings of that word,
    /// once for each occurrence.
    pub fn index(&mut self, content: &str, title: &str) -> (id: usize)
        requires
            old(self)@.len() < usize::MAX,
        ensures
            id == old(self)@.len(),
            final(self)@ == old(self)@.push(document_terms(content@, title@)),
    {
        proof {
            use_type_invariant(&*self);
        }
        let mut found = split_terms(content);
        let mut from_title = split_terms(title);
        let ghost first = found@;
        let ghost second = from_title@;
        found.append(&mut from_title);
        assert(texts(found@) =~= texts(first) + texts(second));
        let mut data = IndexData::new();
        core::mem::swap(&mut self.data, &mut data);
        let id = data.count;
        data.add(&found);
        self.data = data;
        id
    }

    /// The posting list of the normalised word `word`: the ids of the
    /// documents whose terms hold it, each id once for every occurrence.
    pub fn postings(&self, word: &str) -> (ids: Vec<usize>)
        ensures
            ascending(ids@),
            forall|p: int| 0 <= p < ids.len() ==> #[trigger] ids@[p] < self@.len(),
            forall|id: int|
                0 <= id < self@.len() ==> count_of(ids@, id as usize) == count_of(
                    #[trigger] self@[id],
                    word@,
                ),
    {
        proof {
            use_type_invariant(self);
        }
        let ghost documents = self.data.documents@;
        let count = self.data.count;
        let key = word.to_owned();
        let mut ids: Vec<usize> = Vec::new();
        match find_entry(&self.data.entries, &key) {
            Some(j) => {
                let held = &self.data.entries[j].postings;
                let mut p: usize = 0;
                while p < held.len()
                    invariant
                        p <= held.len(),
                        ids@ == held@.take(p as int),
                    decreases held.len() - p,
                {
                    ids.push(held[p]);
                    p += 1;
                    assert(ids@ =~= held@.take(p as int));
                }
                assert(held@.take(p as int) =~= held@);
                assert(self.data.entries@[j as int].postings@ == ids@);
                assert(ascending(self.data.entries@[j as int].postings@));
                assert forall|p: int| 0 <= p < ids.len() implies #[trigger] ids@[p]
                    < documents.len() by {
                    assert(self.data.entries@[j as int].postings@[p] <= documents.len());
                    if ids@[p] == documents.len() {
                        assert(ids@.contains(count));
                        lemma_count_positive(ids@, count);
                    }
                }
            },
            None => {
                assert forall|id: int| 0 <= id < documents.len() implies count_of(
                    ids@,
                    id as usize,
                ) == count_of(#[trigger] documents[id], word@) by {
                    if count_of(documents[id], word@) > 0 {
                        assert(has_word(self.data.entries@, word@));
                    }
                }
            },
        }
        ids
    }

    /// How often the normalised word `word` occurs among the terms of the
    /// document `id`.
    pub fn frequency(&self, word: &str, id: usize) -> (n: usize)
        requires
            id < self@.len(),
        ensures
            n == count_of(self@[id as int], word@),
    {
        proof {
            use_type_invariant(self);
        }
        let ghost documents = self.data.documents@;
        let key = word.to_owned();
        match find_entry(&self.data.entries, &key) {
            Some(j) => {
                let postings = &self.data.entries[j].postings;
                let mut n: usize = 0;
                let mut p: usize = 0;
                while p < postings.len()
                    invariant
                        p <= postings.len(),
                        n == count_of(postings@.take(p as int), id),
                        n <= p,
                    decreases postings.len() - p,
                {
                    proof {
                        assert(postings@.take(p + 1).drop_last() =~= postings@.take(p as int));
                    }
                    if postings[p] == id {
                        n += 1;
                    }
                    p += 1;
                }
                assert(postings@.take(p as int) =~= postings@);
                assert(self.data.entries@[j as int].postings@ == postings@);
                n
            },
            None => {
                proof {
                    if count_of(documents[id as int], word@) > 0 {
                        assert(has_word(self.data.entries@, word@));
                    }
                }
                0
            },
        }
    }
}

} // verus!
