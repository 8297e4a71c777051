use pepper::word_database::WordDatabase;

#[test]
fn word_database_counts_identifiers() {
    let mut words = WordDatabase::new();
    words.add_line_words(b"let x = x + foo_bar;");
    assert_eq!(2, words.word_count(b"x"));
    assert_eq!(1, words.word_count(b"foo_bar"));
    assert_eq!(1, words.word_count(b"let"));
    assert_eq!(0, words.word_count(b"+"));
    words.remove_line_words(b"x x x");
    assert_eq!(0, words.word_count(b"x"));
    assert_eq!(1, words.word_count(b"let"));
    words.add_word(b"x");
    words.remove_word(b"let");
    assert_eq!(1, words.word_count(b"x"));
    assert_eq!(0, words.word_count(b"let"));
}
