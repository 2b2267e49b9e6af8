use pepper::word_database::{WordDatabase, WordIter};

#[test]
fn word_iter() {
    let mut iter = WordIter::new("word");
    assert_eq!(Some("word"), iter.next());
    assert_eq!(None, iter.next());

    let mut iter = WordIter::new("first second third");
    assert_eq!(Some("first"), iter.next());
    assert_eq!(Some("second"), iter.next());
    assert_eq!(Some("third"), iter.next());
    assert_eq!(None, iter.next());

    let mut iter = WordIter::new("  1first:second00+?$%third  ^@");
    assert_eq!(Some("1first"), iter.next());
    assert_eq!(Some("second00"), iter.next());
    assert_eq!(Some("third"), iter.next());
    assert_eq!(None, iter.next());
}

#[test]
fn word_database_insert_remove() {
    let mut words = WordDatabase::new();

    words.add_word("first");
    assert_eq!(1, words.len());

    words.add_word("first");
    words.add_word("first");
    assert_eq!(1, words.len());

    words.add_word("second");
    assert_eq!(2, words.len());

    words.remove_word("first");
    assert_eq!(2, words.len());

    words.remove_word("first");
    words.remove_word("first");
    assert_eq!(1, words.len());

    words.remove_word("first");
    assert_eq!(1, words.len());
}

#[test]
fn word_indices_lists_live_words() {
    let mut words = WordDatabase::new();
    words.add_word("alpha");
    words.add_word("beta");
    words.add_word("alpha");
    words.remove_word("beta");

    let live: Vec<&str> = words.word_indices().into_iter().map(|(_, w)| w).collect();
    assert_eq!(vec!["alpha"], live);
    for (index, word) in words.word_indices() {
        assert_eq!(word, words.word_at(index));
    }
}
