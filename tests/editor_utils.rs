use pepper::editor_utils::{hash_bytes, ReadLine, ReadLinePoll, ResidualStrBytes, StatusBar, StringPool, MessageKind};
use pepper::platform::Key;
use pepper::text::is_char_boundary;

#[test]
fn is_char_boundary_test() {
    let bytes = "áé".as_bytes();
    assert_eq!(4, bytes.len());
    assert!(is_char_boundary(bytes[0]));
    assert!(!is_char_boundary(bytes[1]));
    assert!(is_char_boundary(bytes[2]));
    assert!(!is_char_boundary(bytes[3]));
}

#[test]
fn residual_str_bytes() {
    let message = "abcdef".as_bytes();
    let mut residue = ResidualStrBytes::new();
    assert_eq!(["", "ab"], residue.receive_bytes(&mut Default::default(), &message[..3]));
    assert_eq!(["c", "de"], residue.receive_bytes(&mut Default::default(), &message[3..]));
    assert_eq!(["f", ""], residue.receive_bytes(&mut Default::default(), &message[6..]));
    assert_eq!(["", ""], residue.receive_bytes(&mut Default::default(), &[]));

    let message1 = "abcdef".as_bytes();
    let message2 = "123456".as_bytes();
    let mut residue = ResidualStrBytes::new();
    assert_eq!(["", "abcde"], residue.receive_bytes(&mut Default::default(), &message1));
    assert_eq!(["f", "12345"], residue.receive_bytes(&mut Default::default(), &message2));
    assert_eq!(["6", ""], residue.receive_bytes(&mut Default::default(), &[]));
    assert_eq!(["", ""], residue.receive_bytes(&mut Default::default(), &[]));

    let message = "áéíóú".as_bytes();
    assert_eq!(10, message.len());
    let mut residue = ResidualStrBytes::new();
    assert_eq!(["", "á"], residue.receive_bytes(&mut Default::default(), &message[..3]));
    assert_eq!(["é", ""], residue.receive_bytes(&mut Default::default(), &message[3..5]));
    assert_eq!(["í", ""], residue.receive_bytes(&mut Default::default(), &message[5..8]));
    assert_eq!(["ó", ""], residue.receive_bytes(&mut Default::default(), &message[8..]));
    assert_eq!(["ú", ""], residue.receive_bytes(&mut Default::default(), &message[10..]));
    assert_eq!(["", ""], residue.receive_bytes(&mut Default::default(), &[]));
}

#[test]
fn residual_stream_round_trip() {
    let text = "añb€c𝄞d€";
    let message = text.as_bytes();
    for i in 0..=message.len() {
        for j in i..=message.len() {
            let mut residue = ResidualStrBytes::new();
            let mut out = String::new();
            let mut chunks: Vec<&[u8]> = [&message[..i], &message[i..j], &message[j..]]
                .into_iter()
                .filter(|c| !c.is_empty())
                .collect();
            chunks.push(&[]);
            for chunk in chunks {
                let mut buf = [0u8; 4];
                let [before, after] = residue.receive_bytes(&mut buf, chunk);
                out.push_str(before);
                out.push_str(after);
            }
            assert_eq!(text, out);
        }
    }
}

#[test]
fn residual_euro_byte_by_byte() {
    let message = "€".as_bytes();
    let mut residue = ResidualStrBytes::new();
    let mut out = String::new();
    for k in 0..message.len() {
        let mut buf = [0u8; 4];
        let [before, after] = residue.receive_bytes(&mut buf, &message[k..k + 1]);
        out.push_str(before);
        out.push_str(after);
    }
    let mut buf = [0u8; 4];
    let [before, after] = residue.receive_bytes(&mut buf, &[]);
    out.push_str(before);
    out.push_str(after);
    assert_eq!("€", out);
}

#[test]
fn hash_bytes_is_fnv1a() {
    assert_eq!(0xcbf29ce484222325, hash_bytes(b""));
    assert_eq!(0xaf63dc4c8601ec8c, hash_bytes(b"a"));
    assert_eq!(0x85944171f73967e8, hash_bytes(b"foobar"));
}

#[test]
fn string_pool_reuses_cleared_strings() {
    let mut pool = StringPool::new();
    let s = pool.acquire_with("abc");
    assert_eq!("abc", s);
    pool.release(s);
    assert_eq!("", pool.acquire());
}

#[test]
fn status_bar_write() {
    let mut status = StatusBar::new();
    status.write(MessageKind::Error, "bad");
    status.str(" thing");
    assert_eq!((MessageKind::Error, "bad thing"), status.message());
    status.clear();
    assert_eq!("", status.message().1);
}

#[test]
fn read_line_keys() {
    let mut line = ReadLine::new();
    line.set_prompt("> ");
    assert_eq!("> ", line.prompt());
    for c in "foo bar".chars() {
        assert_eq!(ReadLinePoll::Pending, line.poll(Key::Char(c)));
    }
    assert_eq!(ReadLinePoll::Pending, line.poll(Key::Ctrl('w')));
    assert_eq!("foo ", line.input());
    assert_eq!(ReadLinePoll::Pending, line.poll(Key::Backspace));
    assert_eq!("foo", line.input());
    assert_eq!(ReadLinePoll::Submitted, line.poll(Key::Enter));
    assert_eq!(ReadLinePoll::Canceled, line.poll(Key::Esc));
    assert_eq!(ReadLinePoll::Pending, line.poll(Key::Ctrl('u')));
    assert_eq!("", line.input());
}

#[test]
fn poll_input_line_keys() {
    let keys = [Key::Char('a'), Key::Char(' '), Key::Char('b'), Key::Ctrl('w'), Key::Ctrl('m'), Key::Esc];
    let mut iter = pepper::editor::KeysIterator::new(&keys);
    let mut input = String::from("x");
    assert_eq!(pepper::editor::InputPollResult::Pending, pepper::editor::poll_input(&mut input, &mut iter));
    pepper::editor::poll_input(&mut input, &mut iter);
    pepper::editor::poll_input(&mut input, &mut iter);
    assert_eq!("xa b", input);
    pepper::editor::poll_input(&mut input, &mut iter);
    assert_eq!("xa", input);
    assert_eq!(pepper::editor::InputPollResult::Submited, pepper::editor::poll_input(&mut input, &mut iter));
    assert_eq!(pepper::editor::InputPollResult::Canceled, pepper::editor::poll_input(&mut input, &mut iter));
    assert_eq!("", input);
    iter.put_back();
    assert_eq!(Key::Esc, iter.next());
    assert_eq!(Key::NoKey, iter.next());
}

#[test]
fn keymap_prefix_and_replace() {
    let mut maps = pepper::editor::KeyMapCollection::new();
    maps.add(pepper::builtins::ModeKind::Normal, vec![Key::Char('g'), Key::Char('g')], vec![Key::Home]);
    let mut buffered = Vec::new();
    assert!(!pepper::editor::buffer_key(&mut buffered, &maps, pepper::builtins::ModeKind::Normal, Key::Char('g')));
    assert!(pepper::editor::buffer_key(&mut buffered, &maps, pepper::builtins::ModeKind::Normal, Key::Char('g')));
    assert_eq!(vec![Key::Home], buffered);
    let mut other = Vec::new();
    assert!(pepper::editor::buffer_key(&mut other, &maps, pepper::builtins::ModeKind::Insert, Key::Char('g')));
    assert_eq!(vec![Key::Char('g')], other);
}

#[test]
fn mode_operations_drive_the_key_loop() {
    let mut buffered = vec![Key::Char('d'), Key::Char('a')];
    let mut mode = pepper::builtins::ModeKind::Normal;
    assert_eq!(
        pepper::editor::KeyStep::Stop(pepper::editor::EditorLoop::Continue),
        pepper::editor::on_mode_operation(pepper::editor::ModeOperation::Pending, &mut buffered, 1, &mut mode, true)
    );
    assert_eq!(vec![Key::Char('a')], buffered);
    assert_eq!(
        pepper::editor::KeyStep::Next,
        pepper::editor::on_mode_operation(
            pepper::editor::ModeOperation::EnterMode(pepper::builtins::ModeKind::Insert),
            &mut buffered,
            0,
            &mut mode,
            true
        )
    );
    assert_eq!(pepper::builtins::ModeKind::Insert, mode);
    assert_eq!(
        pepper::editor::KeyStep::Stop(pepper::editor::EditorLoop::Continue),
        pepper::editor::on_mode_operation(pepper::editor::ModeOperation::Proceed, &mut buffered, 1, &mut mode, false)
    );
    assert!(buffered.is_empty());
    buffered.push(Key::Esc);
    assert_eq!(
        pepper::editor::KeyStep::Stop(pepper::editor::EditorLoop::QuitAll),
        pepper::editor::on_mode_operation(pepper::editor::ModeOperation::QuitAll, &mut buffered, 0, &mut mode, true)
    );
    assert!(buffered.is_empty());
}
