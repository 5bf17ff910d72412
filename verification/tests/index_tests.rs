use conversai::index::LexicalIndex;

#[test]
fn new_index_is_empty() {
    let index = LexicalIndex::new();
    assert_eq!(index.len(), 0);
    assert_eq!(index.size(), 0);
    assert_eq!(index.postings("word"), Vec::<usize>::new());
}

#[test]
fn index_gives_consecutive_ids() {
    let mut index = LexicalIndex::new();
    assert_eq!(index.index("one two", "First"), 0);
    assert_eq!(index.index("", ""), 1);
    assert_eq!(index.index("three", "Third"), 2);
    assert_eq!(index.len(), 3);
}

#[test]
fn postings_repeat_an_id_for_each_occurrence() {
    let mut index = LexicalIndex::new();
    index.index("Tea, tea and TEA!", "Tea Time");
    index.index("coffee", "No tea");
    index.index("tea", "");
    assert_eq!(index.postings("tea"), vec![0, 0, 0, 0, 1, 2]);
    assert_eq!(index.postings("time"), vec![0]);
    assert_eq!(index.postings("coffee"), vec![1]);
    assert_eq!(index.postings("Tea"), Vec::<usize>::new());
    assert_eq!(index.frequency("tea", 0), 4);
    assert_eq!(index.frequency("tea", 1), 1);
    assert_eq!(index.frequency("coffee", 0), 0);
    assert_eq!(index.frequency("absent", 2), 0);
}

#[test]
fn size_counts_distinct_words_only() {
    let mut index = LexicalIndex::new();
    index.index("a b a", "B c");
    assert_eq!(index.size(), 3);
    index.index("c d -- !!", "");
    assert_eq!(index.size(), 4);
}

#[test]
fn words_without_letters_or_digits_are_not_indexed() {
    let mut index = LexicalIndex::new();
    index.index("-- ?? ...", "!!");
    assert_eq!(index.size(), 0);
    assert_eq!(index.len(), 1);
}

#[test]
fn clear_resets_the_index() {
    let mut index = LexicalIndex::new();
    index.index("some words", "Title");
    index.clear();
    assert_eq!(index.len(), 0);
    assert_eq!(index.size(), 0);
    assert_eq!(index.postings("words"), Vec::<usize>::new());
    assert_eq!(index.index("again", ""), 0);
}
