use pepper::word_database::WordDatabase;
use pepper::buffer::{Buffer, BufferCollection, BufferContent, BufferLinePool, Text, WordKind, WordRefWithPosition};
use pepper::position::{BufferPosition, BufferRange};

fn buffer_to_string(buffer: &BufferContent) -> String {
    let mut buf = Vec::new();
    buffer.write(&mut buf);
    String::from_utf8(buf).unwrap()
}

#[test]
fn text_size() {
    assert_eq!(32, std::mem::size_of::<Text>());
}

#[test]
fn text_grow() {
    const S1: &str = "123456789012345678901234567890";
    const S2: &str = "abc";

    let mut text = Text::new();
    text.push_bytes(S1.as_bytes());
    assert_eq!(S1.as_bytes(), text.as_bytes());
    text.push_bytes(S2.as_bytes());

    let mut s = String::new();
    s.push_str(S1);
    s.push_str(S2);
    assert_eq!(s.as_bytes(), text.as_bytes());
}

#[test]
fn buffer_line_char_count() {
    let mut line_pool = BufferLinePool::new();
    let mut line = line_pool.rent();
    line.push_text("abc");
    assert_eq!(3, line.char_count());
    line.insert_text(1, "def");
    assert_eq!(6, line.char_count());
    line.delete_range(1, 3);
    assert_eq!(4, line.char_count());
    line.push_text("ghi");
    assert_eq!(7, line.char_count());
}

#[test]
fn buffer_utf8_support() {
    let mut line_pool = BufferLinePool::new();
    let mut buffer = BufferContent::from_str(&mut line_pool, "abd");
    let range = buffer.insert_text(&mut line_pool, BufferPosition::line_col(0, 2), "ç");
    assert_eq!(
        BufferRange::between(
            BufferPosition::line_col(0, 2),
            BufferPosition::line_col(0, 2 + 'ç'.len_utf8())
        ),
        range
    );
}

#[test]
fn buffer_content_insert_text() {
    let mut pool = BufferLinePool::new();
    let mut buffer = BufferContent::from_str(&mut pool, "");

    assert_eq!(1, buffer.line_count());
    assert_eq!("", buffer_to_string(&buffer));

    buffer.insert_text(&mut pool, BufferPosition::line_col(0, 0), "hold");
    buffer.insert_text(&mut pool, BufferPosition::line_col(0, 2), "r");
    buffer.insert_text(&mut pool, BufferPosition::line_col(0, 1), "ello w");
    assert_eq!(1, buffer.line_count());
    assert_eq!("hello world", buffer_to_string(&buffer));

    buffer.insert_text(&mut pool, BufferPosition::line_col(0, 5), "\n");
    buffer.insert_text(
        &mut pool,
        BufferPosition::line_col(1, 6),
        " appending more\nand more\nand even more\nlines",
    );
    assert_eq!(5, buffer.line_count());
    assert_eq!(
        "hello\n world appending more\nand more\nand even more\nlines",
        buffer_to_string(&buffer)
    );

    let mut buffer = BufferContent::from_str(&mut pool, "this is content");
    buffer.insert_text(
        &mut pool,
        BufferPosition::line_col(0, 8),
        "some\nmultiline ",
    );
    assert_eq!(2, buffer.line_count());
    assert_eq!("this is some\nmultiline content", buffer_to_string(&buffer));

    let mut buffer = BufferContent::from_str(&mut pool, "this is content");
    buffer.insert_text(
        &mut pool,
        BufferPosition::line_col(0, 8),
        "some\nmore\nextensive\nmultiline ",
    );
    assert_eq!(4, buffer.line_count());
    assert_eq!(
        "this is some\nmore\nextensive\nmultiline content",
        buffer_to_string(&buffer)
    );
}

#[test]
fn buffer_content_delete_range() {
    let mut pool = BufferLinePool::new();
    let mut buffer = BufferContent::from_str(&mut pool, "abc");
    buffer.delete_range(
        &mut pool,
        BufferRange::between(
            BufferPosition::line_col(0, 1),
            BufferPosition::line_col(0, 1),
        ),
    );
    assert_eq!("abc", buffer_to_string(&buffer));
    buffer.delete_range(
        &mut pool,
        BufferRange::between(
            BufferPosition::line_col(0, 1),
            BufferPosition::line_col(0, 2),
        ),
    );
    assert_eq!("ac", buffer_to_string(&buffer));

    let mut buffer =
        BufferContent::from_str(&mut pool, "this is the initial\ncontent of the buffer");

    assert_eq!(2, buffer.line_count());
    assert_eq!(
        "this is the initial\ncontent of the buffer",
        buffer_to_string(&buffer)
    );

    let deleted_text = buffer.delete_range(
        &mut pool,
        BufferRange::between(
            BufferPosition::line_col(0, 0),
            BufferPosition::line_col(0, 0),
        ),
    );
    assert_eq!(2, buffer.line_count());
    assert_eq!(
        "this is the initial\ncontent of the buffer",
        buffer_to_string(&buffer)
    );
    assert_eq!(b"", deleted_text.as_bytes());

    let deleted_text = buffer.delete_range(
        &mut pool,
        BufferRange::between(
            BufferPosition::line_col(0, 11),
            BufferPosition::line_col(0, 19),
        ),
    );
    assert_eq!(2, buffer.line_count());
    assert_eq!(
        "this is the\ncontent of the buffer",
        buffer_to_string(&buffer)
    );
    assert_eq!(b" initial", deleted_text.as_bytes());

    let deleted_text = buffer.delete_range(
        &mut pool,
        BufferRange::between(
            BufferPosition::line_col(0, 8),
            BufferPosition::line_col(1, 15),
        ),
    );
    assert_eq!(1, buffer.line_count());
    assert_eq!("this is buffer", buffer_to_string(&buffer));
    assert_eq!(b"the\ncontent of the ", deleted_text.as_bytes());

    let mut buffer =
        BufferContent::from_str(&mut pool, "this\nbuffer\ncontains\nmultiple\nlines\nyes");
    assert_eq!(6, buffer.line_count());
    let deleted_text = buffer.delete_range(
        &mut pool,
        BufferRange::between(
            BufferPosition::line_col(1, 4),
            BufferPosition::line_col(4, 1),
        ),
    );
    assert_eq!("this\nbuffines\nyes", buffer_to_string(&buffer));
    assert_eq!(b"er\ncontains\nmultiple\nl", deleted_text.as_bytes());
}

#[test]
fn buffer_content_delete_lines() {
    let mut pool = BufferLinePool::new();
    let mut buffer = BufferContent::from_str(&mut pool, "first line\nsecond line\nthird line");
    assert_eq!(3, buffer.line_count());
    let deleted_text = buffer.delete_range(
        &mut pool,
        BufferRange::between(
            BufferPosition::line_col(1, 0),
            BufferPosition::line_col(2, 0),
        ),
    );
    assert_eq!("first line\nthird line", buffer_to_string(&buffer));
    assert_eq!(b"second line\n", deleted_text.as_bytes());

    let mut buffer = BufferContent::from_str(&mut pool, "first line\nsecond line\nthird line");
    assert_eq!(3, buffer.line_count());
    let deleted_text = buffer.delete_range(
        &mut pool,
        BufferRange::between(
            BufferPosition::line_col(1, 0),
            BufferPosition::line_col(1, 11),
        ),
    );
    assert_eq!("first line\n\nthird line", buffer_to_string(&buffer));
    assert_eq!(b"second line", deleted_text.as_bytes());
}

#[test]
fn buffer_delete_undo_redo_single_line() {
    let mut pool = BufferLinePool::new();
    let mut words = WordDatabase::new();
    let mut buffer = Buffer::new(&mut words, None, BufferContent::from_str(&mut pool, "single line content"));
    let range = BufferRange::between(
        BufferPosition::line_col(0, 7),
        BufferPosition::line_col(0, 12),
    );
    buffer.delete_range(&mut pool, &mut words, range);

    assert_eq!("single content", buffer_to_string(buffer.content()));
    {
        let mut ranges = buffer.undo(&mut pool).into_iter();
        assert_eq!(range, ranges.next().unwrap().range);
        assert!(ranges.next().is_none());
    }
    assert_eq!("single line content", buffer_to_string(buffer.content()));
    for _ in buffer.redo(&mut pool) {}
    assert_eq!("single content", buffer_to_string(buffer.content()));
}

#[test]
fn buffer_delete_undo_redo_multi_line() {
    let mut pool = BufferLinePool::new();
    let mut words = WordDatabase::new();
    let mut buffer = Buffer::new(&mut words, None, BufferContent::from_str(&mut pool, "multi\nline\ncontent"));
    let range = BufferRange::between(
        BufferPosition::line_col(0, 1),
        BufferPosition::line_col(1, 3),
    );
    buffer.delete_range(&mut pool, &mut words, range);

    assert_eq!("me\ncontent", buffer_to_string(buffer.content()));
    {
        let mut ranges = buffer.undo(&mut pool).into_iter();
        assert_eq!(range, ranges.next().unwrap().range);
        assert!(ranges.next().is_none());
    }
    assert_eq!("multi\nline\ncontent", buffer_to_string(buffer.content()));
    for _ in buffer.redo(&mut pool) {}
    assert_eq!("me\ncontent", buffer_to_string(buffer.content()));
}

#[test]
fn buffer_content_range_text() {
    let mut pool = BufferLinePool::new();
    let buffer = BufferContent::from_str(&mut pool, "abc\ndef\nghi");
    let mut text = Vec::new();
    buffer.append_range_text_to_string(
        BufferRange::between(
            BufferPosition::line_col(0, 2),
            BufferPosition::line_col(2, 1),
        ),
        &mut text,
    );
    assert_eq!(b"c\ndef\ng", &text[..]);
}

#[test]
fn buffer_find_balanced_chars() {
    let mut pool = BufferLinePool::new();
    let buffer = BufferContent::from_str(&mut pool, "(\n(\na\n)\nbc)");

    assert_eq!(
        Some(BufferRange::between(
            BufferPosition::line_col(0, 1),
            BufferPosition::line_col(4, 2)
        )),
        buffer.find_balanced_chars_at(BufferPosition::line_col(0, 0), b'(', b')')
    );
    assert_eq!(
        Some(BufferRange::between(
            BufferPosition::line_col(1, 1),
            BufferPosition::line_col(3, 0)
        )),
        buffer.find_balanced_chars_at(BufferPosition::line_col(2, 0), b'(', b')')
    );
    assert_eq!(
        Some(BufferRange::between(
            BufferPosition::line_col(0, 1),
            BufferPosition::line_col(4, 2)
        )),
        buffer.find_balanced_chars_at(BufferPosition::line_col(0, 1), b'(', b')')
    );
    assert_eq!(
        Some(BufferRange::between(
            BufferPosition::line_col(0, 1),
            BufferPosition::line_col(4, 2)
        )),
        buffer.find_balanced_chars_at(BufferPosition::line_col(4, 0), b'(', b')')
    );
    assert_eq!(
        Some(BufferRange::between(
            BufferPosition::line_col(0, 1),
            BufferPosition::line_col(4, 2)
        )),
        buffer.find_balanced_chars_at(BufferPosition::line_col(0, 0), b'(', b')')
    );
    assert_eq!(
        Some(BufferRange::between(
            BufferPosition::line_col(0, 1),
            BufferPosition::line_col(4, 2)
        )),
        buffer.find_balanced_chars_at(BufferPosition::line_col(4, 2), b'(', b')')
    );
}

#[test]
fn buffer_find_delimiter_pairs() {
    let mut pool = BufferLinePool::new();
    let buffer = BufferContent::from_str(&mut pool, "|a|bcd|efg|");

    assert_eq!(
        Some(BufferRange::between(
            BufferPosition::line_col(0, 1),
            BufferPosition::line_col(0, 2)
        )),
        buffer.find_delimiter_pair_at(BufferPosition::line_col(0, 0), b'|')
    );
    assert_eq!(
        Some(BufferRange::between(
            BufferPosition::line_col(0, 3),
            BufferPosition::line_col(0, 6)
        )),
        buffer.find_delimiter_pair_at(BufferPosition::line_col(0, 2), b'|')
    );
    assert_eq!(
        None,
        buffer.find_delimiter_pair_at(BufferPosition::line_col(0, 4), b'|')
    );
    assert_eq!(
        Some(BufferRange::between(
            BufferPosition::line_col(0, 7),
            BufferPosition::line_col(0, 10)
        )),
        buffer.find_delimiter_pair_at(BufferPosition::line_col(0, 6), b'|')
    );
    assert_eq!(
        Some(BufferRange::between(
            BufferPosition::line_col(0, 7),
            BufferPosition::line_col(0, 10)
        )),
        buffer.find_delimiter_pair_at(BufferPosition::line_col(0, 10), b'|')
    );
    assert_eq!(
        None,
        buffer.find_delimiter_pair_at(BufferPosition::line_col(0, 11), b'|')
    );
}

#[test]
fn insert_empty_text_records_nothing() {
    let mut pool = BufferLinePool::new();
    let mut words = WordDatabase::new();
    let mut buffer = Buffer::new(&mut words, None, BufferContent::from_str(&mut pool, "abc"));
    let range = buffer.insert_text(&mut pool, &mut words, BufferPosition::line_col(0, 1), "");
    assert_eq!(range.from, range.to);
    assert!(!buffer.needs_save());
    assert!(buffer.undo(&mut pool).is_empty());
    assert_eq!("abc", buffer_to_string(buffer.content()));
}

#[test]
fn delete_empty_range_is_noop() {
    let mut pool = BufferLinePool::new();
    let mut words = WordDatabase::new();
    let mut buffer = Buffer::new(&mut words, None, BufferContent::from_str(&mut pool, "abc\ndef"));
    let p = BufferPosition::line_col(1, 2);
    buffer.delete_range(&mut pool, &mut words, BufferRange::between(p, p));
    assert_eq!("abc\ndef", buffer_to_string(buffer.content()));
    assert!(!buffer.needs_save());
    assert!(buffer.undo(&mut pool).is_empty());
}

#[test]
fn insert_then_delete_restores() {
    let mut pool = BufferLinePool::new();
    let mut content = BufferContent::from_str(&mut pool, "first\nsecond");
    let range = content.insert_text(&mut pool, BufferPosition::line_col(0, 2), "X\nYY\nZ");
    assert_eq!(BufferPosition::line_col(2, 1), range.to);
    let deleted = content.delete_range(&mut pool, range);
    assert_eq!(b"X\nYY\nZ", deleted.as_bytes());
    assert_eq!("first\nsecond", buffer_to_string(&content));
}

#[test]
fn undo_all_restores_after_many_edits() {
    let mut pool = BufferLinePool::new();
    let mut words = WordDatabase::new();
    let mut buffer = Buffer::new(&mut words, None, BufferContent::from_str(&mut pool, "one two\nthree"));
    buffer.insert_text(&mut pool, &mut words, BufferPosition::line_col(0, 3), ",\n");
    buffer.delete_range(
        &mut pool,
        &mut words,
        BufferRange::between(BufferPosition::line_col(1, 0), BufferPosition::line_col(2, 2)),
    );
    buffer.commit_edits();
    buffer.insert_text(&mut pool, &mut words, BufferPosition::line_col(9, 9), "!");
    assert_eq!("one,\nree!", buffer_to_string(buffer.content()));
    buffer.undo(&mut pool);
    assert_eq!("one,\nree", buffer_to_string(buffer.content()));
    buffer.undo(&mut pool);
    assert_eq!("one two\nthree", buffer_to_string(buffer.content()));
    assert!(buffer.undo(&mut pool).is_empty());
    buffer.redo(&mut pool);
    assert_eq!("one,\nree", buffer_to_string(buffer.content()));
}

#[test]
fn delimiter_on_cursor_opens_pair() {
    let mut pool = BufferLinePool::new();
    let buffer = BufferContent::from_str(&mut pool, "x 'ab' 'cd'");
    assert_eq!(
        Some(BufferRange::between(BufferPosition::line_col(0, 3), BufferPosition::line_col(0, 5))),
        buffer.find_delimiter_pair_at(BufferPosition::line_col(0, 2), b'\'')
    );
    assert_eq!(
        Some(BufferRange::between(BufferPosition::line_col(0, 8), BufferPosition::line_col(0, 10))),
        buffer.find_delimiter_pair_at(BufferPosition::line_col(0, 7), b'\'')
    );
}

#[test]
fn search_ranges_case() {
    let mut pool = BufferLinePool::new();
    let mut words = WordDatabase::new();
    let mut buffer = Buffer::new(&mut words, Some("a.txt"), BufferContent::from_str(&mut pool, "Abc abc\nxABC"));
    buffer.set_search("abc");
    assert_eq!(3, buffer.search_ranges().len());
    assert_eq!(
        BufferRange::between(BufferPosition::line_col(1, 1), BufferPosition::line_col(1, 4)),
        buffer.search_ranges()[2]
    );
    buffer.set_search("Abc");
    assert_eq!(1, buffer.search_ranges().len());
    buffer.set_search("");
    assert_eq!(0, buffer.search_ranges().len());
    assert_eq!(Some("a.txt"), buffer.path());
}

#[test]
fn buffer_collection_slots() {

    let mut pool = BufferLinePool::new();
    let mut words = WordDatabase::new();
    let mut buffers = BufferCollection::new();
    let a = buffers.add(Buffer::new(&mut words, Some("a"), BufferContent::from_str(&mut pool, "")));
    let b = buffers.add(Buffer::new(&mut words, Some("b"), BufferContent::from_str(&mut pool, "")));
    assert_eq!(Some(b), buffers.find_with_path("b"));
    assert_eq!(None, buffers.find_with_path(""));
    buffers.remove(a);
    assert!(buffers.get(a).is_none());
    let c = buffers.add(Buffer::new(&mut words, Some("c"), BufferContent::from_str(&mut pool, "")));
    assert_eq!(a, c);
}

fn col(column: usize) -> BufferPosition {
    BufferPosition::line_col(0, column)
}

fn assert_word(word: WordRefWithPosition, pos: BufferPosition, kind: WordKind, text: &str) {
    assert_eq!(pos, word.position);
    assert_eq!(kind, word.kind);
    assert_eq!(text.as_bytes(), word.text);
}

#[test]
fn buffer_content_word_at() {
    let mut pool = BufferLinePool::new();
    let buffer = BufferContent::from_str(&mut pool, "word");
    assert_word(buffer.word_at(col(0)), col(0), WordKind::Identifier, "word");
    assert_word(buffer.word_at(col(2)), col(0), WordKind::Identifier, "word");
    assert_word(buffer.word_at(col(4)), col(4), WordKind::Whitespace, "");

    let buffer = BufferContent::from_str(&mut pool, "asd word+? asd");
    assert_word(buffer.word_at(col(3)), col(3), WordKind::Whitespace, " ");
    assert_word(buffer.word_at(col(4)), col(4), WordKind::Identifier, "word");
    assert_word(buffer.word_at(col(6)), col(4), WordKind::Identifier, "word");
    assert_word(buffer.word_at(col(8)), col(8), WordKind::Symbol, "+?");
    assert_word(buffer.word_at(col(9)), col(8), WordKind::Symbol, "+?");
    assert_word(buffer.word_at(col(10)), col(10), WordKind::Whitespace, " ");
}

#[test]
fn buffer_content_words_from() {
    let mut pool = BufferLinePool::new();
    let buffer = BufferContent::from_str(&mut pool, "word");
    let (w, lw, rw) = buffer.words_from(col(0));
    let (mut lw, mut rw) = (lw.into_iter(), rw.into_iter());
    assert_word(w, col(0), WordKind::Identifier, "word");
    assert!(lw.next().is_none());
    assert!(rw.next().is_none());
    let (w, lw, rw) = buffer.words_from(col(2));
    let (mut lw, mut rw) = (lw.into_iter(), rw.into_iter());
    assert_word(w, col(0), WordKind::Identifier, "word");
    assert!(lw.next().is_none());
    assert!(rw.next().is_none());
    let (w, lw, rw) = buffer.words_from(col(4));
    let (mut lw, mut rw) = (lw.into_iter(), rw.into_iter());
    assert_word(w, col(4), WordKind::Whitespace, "");
    assert_word(lw.next().unwrap(), col(0), WordKind::Identifier, "word");
    assert!(lw.next().is_none());
    assert!(rw.next().is_none());

    let buffer = BufferContent::from_str(&mut pool, "first second third");
    let (w, lw, rw) = buffer.words_from(col(8));
    let (mut lw, mut rw) = (lw.into_iter(), rw.into_iter());
    assert_word(w, col(6), WordKind::Identifier, "second");
    assert_word(lw.next().unwrap(), col(5), WordKind::Whitespace, " ");
    assert_word(lw.next().unwrap(), col(0), WordKind::Identifier, "first");
    assert!(lw.next().is_none());
    assert_word(rw.next().unwrap(), col(12), WordKind::Whitespace, " ");
    assert_word(rw.next().unwrap(), col(13), WordKind::Identifier, "third");
    assert!(rw.next().is_none());
}

#[test]
fn buffer_edits_update_word_counts() {
    let mut pool = BufferLinePool::new();
    let mut words = WordDatabase::new();
    let mut buffer = Buffer::new(&mut words, None, BufferContent::from_str(&mut pool, "alpha beta\ngamma"));
    assert_eq!(1, words.word_count(b"alpha"));
    buffer.insert_text(&mut pool, &mut words, BufferPosition::line_col(0, 5), "x\ny");
    assert_eq!("alphax\ny beta\ngamma", buffer_to_string(buffer.content()));
    assert_eq!(0, words.word_count(b"alpha"));
    assert_eq!(1, words.word_count(b"alphax"));
    assert_eq!(1, words.word_count(b"y"));
    assert_eq!(1, words.word_count(b"beta"));
    buffer.delete_range(
        &mut pool,
        &mut words,
        BufferRange::between(BufferPosition::line_col(0, 5), BufferPosition::line_col(1, 1)),
    );
    assert_eq!("alpha beta\ngamma", buffer_to_string(buffer.content()));
    assert_eq!(1, words.word_count(b"alpha"));
    assert_eq!(0, words.word_count(b"alphax"));
    assert_eq!(0, words.word_count(b"y"));
    assert_eq!(1, words.word_count(b"gamma"));
}

#[test]
fn undo_all_groups_restores_origin() {
    let mut pool = BufferLinePool::new();
    let mut words = WordDatabase::new();
    let mut buffer = Buffer::new(&mut words, None, BufferContent::from_str(&mut pool, "abc"));
    buffer.insert_text(&mut pool, &mut words, BufferPosition::line_col(0, 3), "d");
    buffer.commit_edits();
    buffer.insert_text(&mut pool, &mut words, BufferPosition::line_col(0, 0), "z\n");
    buffer.delete_range(&mut pool, &mut words, BufferRange::between(BufferPosition::line_col(1, 0), BufferPosition::line_col(1, 1)));
    let undone = buffer.undo(&mut pool);
    assert_eq!(2, undone.len());
    assert_eq!(pepper::undo::EditKind::Insert, undone[0].kind);
    assert_eq!(b"a".to_vec(), undone[0].text);
    assert_eq!(pepper::undo::EditKind::Delete, undone[1].kind);
    assert_eq!(b"z\n".to_vec(), undone[1].text);
    assert_eq!("abcd", buffer_to_string(buffer.content()));
    assert_eq!(1, buffer.undo(&mut pool).len());
    assert_eq!("abc", buffer_to_string(buffer.content()));
    assert!(buffer.undo(&mut pool).is_empty());
    assert_eq!(1, buffer.redo(&mut pool).len());
    assert_eq!("abcd", buffer_to_string(buffer.content()));
    assert_eq!(2, buffer.redo(&mut pool).len());
    assert_eq!("z\nbcd", buffer_to_string(buffer.content()));
    assert!(buffer.redo(&mut pool).is_empty());
}

#[test]
fn history_disabled_keeps_no_undo() {
    let mut pool = BufferLinePool::new();
    let mut words = WordDatabase::new();
    let mut buffer = Buffer::new(&mut words, None, BufferContent::from_str(&mut pool, "abc"));
    let mut props = buffer.get_properties();
    props.history_enabled = false;
    buffer.set_properties(props);
    buffer.insert_text(&mut pool, &mut words, BufferPosition::line_col(0, 0), "x");
    assert!(buffer.undo(&mut pool).is_empty());
    assert_eq!("xabc", buffer_to_string(buffer.content()));
}

#[test]
fn collection_save_list_and_listing() {
    let mut pool = BufferLinePool::new();
    let mut words = WordDatabase::new();
    let mut buffers = BufferCollection::new();
    let a = buffers.add(Buffer::new(&mut words, Some("a.txt"), BufferContent::from_str(&mut pool, "one")));
    let mut scratch = Buffer::new(&mut words, None, BufferContent::from_str(&mut pool, "two"));
    scratch.set_properties(pepper::builtins::BufferProperties::scratch());
    let s = buffers.add(scratch);
    assert_eq!(vec![a], buffers.savable());
    assert_eq!(b"a.txt\n\n".to_vec(), buffers.listing());
    assert_eq!(Ok(()), pepper::command::check_save(&buffers, a));
    assert_eq!(Err(pepper::command::CommandError::SavingDisabled), pepper::command::check_save(&buffers, s));
    assert_eq!(1, words.word_count(b"one"));
    assert_eq!(Ok(()), pepper::command::close_buffer(false, &mut buffers, &mut words, a));
    assert_eq!(0, words.word_count(b"one"));
    assert!(buffers.get(a).is_none());
}
