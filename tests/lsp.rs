use pepper::buffer::BufferHandle;
use pepper::lsp::{
    DidChange, TextDocumentSyncKind, VersionedBuffer,
    classify_request, classify_response, dispatch_response, render_lsp_error, ResponseAction,
    ServerRequestAction, DiagnosticCollection, PendingRequestColection, ReadBuf, RequestId, RequestIds, ResponseError,
    VersionedBufferCollection,
};
use pepper::position::{adjust_range, BufferPosition, BufferRange};

fn range(a: (usize, usize), b: (usize, usize)) -> BufferRange {
    BufferRange::between(BufferPosition::line_col(a.0, a.1), BufferPosition::line_col(b.0, b.1))
}

#[test]
fn formatting_offset_adjust() {
    let first_delete = range((0, 0), (0, 3));
    let first_insert = range((0, 0), (0, 2));
    let edits = vec![(first_delete, first_insert)];
    let second = adjust_range(range((0, 5), (0, 6)), &edits).unwrap();
    assert_eq!(range((0, 4), (0, 5)), second);
}

#[test]
fn diagnostics_rebind() {
    let mut diagnostics = DiagnosticCollection::new();
    let index = diagnostics.path_diagnostics_mut("/work/foo.rs", None);
    diagnostics.add_diagnostic(index, "unused", range((0, 0), (0, 1)));
    assert_eq!(None, diagnostics.group_buffer(index));
    let handle = BufferHandle(3);
    diagnostics.on_load_buffer("/work", handle, "foo.rs");
    assert_eq!(Some(handle), diagnostics.group_buffer(index));
    assert_eq!(1, diagnostics.buffer_diagnostics(handle).len());
    diagnostics.on_close_buffer(handle);
    assert_eq!(None, diagnostics.group_buffer(index));
    assert_eq!(0, diagnostics.buffer_diagnostics(handle).len());
}

#[test]
fn pending_request_taken_once() {
    let mut pending = PendingRequestColection::new();
    pending.add(RequestId(1), "initialize");
    pending.add(RequestId(2), "textDocument/hover");
    assert_eq!(Some("textDocument/hover"), pending.take(RequestId(2)));
    assert_eq!(None, pending.take(RequestId(2)));
    pending.add(RequestId(3), "textDocument/definition");
    assert_eq!(Some("initialize"), pending.take(RequestId(1)));
    assert_eq!(Some("textDocument/definition"), pending.take(RequestId(3)));
}

#[test]
fn versioned_buffer_changes() {
    let mut versioned = VersionedBufferCollection::new();
    let handle = BufferHandle(1);
    versioned.add_edit(handle, range((0, 1), (0, 1)), b"xy");
    versioned.add_edit(handle, range((0, 0), (0, 2)), b"");
    assert_eq!(vec![handle], versioned.pending_handles());
    versioned.dispose(handle);
    assert!(versioned.pending_handles().is_empty());
}

#[test]
fn response_error_codes() {
    assert_eq!(-32700, ResponseError::parse_error().code);
    assert_eq!(-32601, ResponseError::method_not_found().code);
}

#[test]
fn read_buf_frames_messages() {
    let mut buf = ReadBuf::new();
    buf.receive(b"Content-Length: 5\r\n\r\nhel");
    assert_eq!(None, buf.take_content());
    buf.receive(b"loContent-Length: 2\r\n\r\nok");
    assert_eq!(Some(b"hello".to_vec()), buf.take_content());
    assert_eq!(Some(b"ok".to_vec()), buf.take_content());
    assert_eq!(None, buf.take_content());
}

#[test]
fn request_ids_are_fresh() {
    let mut ids = RequestIds::new();
    let mut pending = PendingRequestColection::new();
    let a = ids.next();
    let b = ids.next();
    assert_eq!(RequestId(1), a);
    assert_eq!(RequestId(2), b);
    pending.add(a, "initialize");
    pending.add(b, "shutdown");
    assert_eq!(Some("shutdown"), pending.take(b));
}

#[test]
fn path_uris() {
    assert_eq!(b"file:///a/b.rs".to_vec(), pepper::lsp::get_path_uri(b"/root", b"/a/b.rs"));
    assert_eq!(b"file:///root/b.rs".to_vec(), pepper::lsp::get_path_uri(b"/root", b"b.rs"));
}

#[test]
fn formatting_edits_apply_in_order() {
    let mut pool = pepper::buffer::BufferLinePool::new();
    let mut words = pepper::word_database::WordDatabase::new();
    let mut buffer = pepper::buffer::Buffer::new(
        &mut words,
        None,
        pepper::buffer::BufferContent::from_str(&mut pool, "abcdefgh"),
    );
    let edits = vec![(range((0, 0), (0, 3)), "xy"), (range((0, 5), (0, 6)), "Z")];
    assert!(pepper::lsp::apply_formatting(&mut buffer, &mut pool, &mut words, &edits));
    let mut out = Vec::new();
    buffer.content().write(&mut out);
    assert_eq!(b"xydeZgh".to_vec(), out);
    assert_eq!(4, buffer.undo(&mut pool).len());
    let mut out = Vec::new();
    buffer.content().write(&mut out);
    assert_eq!(b"abcdefgh".to_vec(), out);
}

#[test]
fn publish_replaces_and_prunes() {
    let mut pool = pepper::buffer::BufferLinePool::new();
    let mut words = pepper::word_database::WordDatabase::new();
    let mut buffers = pepper::buffer::BufferCollection::new();
    let mut diagnostics = DiagnosticCollection::new();
    let no_buffer = buffers.find_with_root_path("/work", "/work/foo.rs");
    assert_eq!(None, no_buffer);
    diagnostics.publish("/work/foo.rs", no_buffer, &vec![("a", range((0, 0), (0, 1))), ("b", range((1, 0), (1, 1)))]);
    assert_eq!(1, diagnostics.group_count());
    assert_eq!(2, diagnostics.group_len(0));
    let handle = buffers.add(pepper::buffer::Buffer::new(
        &mut words,
        Some("foo.rs"),
        pepper::buffer::BufferContent::from_str(&mut pool, ""),
    ));
    assert_eq!(Some(handle), buffers.find_with_root_path("/work", "/work/foo.rs"));
    diagnostics.on_load_buffer("/work", handle, "foo.rs");
    assert_eq!(2, diagnostics.buffer_diagnostics(handle).len());
    diagnostics.publish("/work/foo.rs", Some(handle), &vec![]);
    assert_eq!(0, diagnostics.group_count());
}

#[test]
fn discard_checks() {
    let mut pool = pepper::buffer::BufferLinePool::new();
    let mut words = pepper::word_database::WordDatabase::new();
    let mut buffers = pepper::buffer::BufferCollection::new();
    let mut buffer = pepper::buffer::Buffer::new(&mut words, None, pepper::buffer::BufferContent::from_str(&mut pool, ""));
    buffer.insert_text(&mut pool, &mut words, BufferPosition::line_col(0, 0), "x");
    let handle = buffers.add(buffer);
    check_discard(&buffers, handle);
}

fn check_discard(buffers: &pepper::buffer::BufferCollection, handle: BufferHandle) {
    let unsaved = Err(pepper::command::CommandError::UnsavedChanges);
    assert_eq!(unsaved, pepper::command::assert_can_discard_buffer(false, buffers, handle));
    assert_eq!(Ok(()), pepper::command::assert_can_discard_buffer(true, buffers, handle));
    assert_eq!(
        Err(pepper::command::CommandError::InvalidBufferHandle(BufferHandle(7))),
        pepper::command::assert_can_discard_buffer(false, buffers, BufferHandle(7))
    );
    assert_eq!(Err(pepper::command::CommandError::UnsavedChanges), pepper::command::quit(false, buffers, 1));
    assert_eq!(Ok(pepper::command::CommandOperation::Quit), pepper::command::quit(false, buffers, 2));
    assert_eq!(Ok(pepper::command::CommandOperation::QuitAll), pepper::command::quit_all(true, buffers));
}

#[test]
fn request_and_response_dispatch() {
    assert_eq!(ServerRequestAction::ShowMessage, classify_request(b"window/showMessage"));
    assert_eq!(ServerRequestAction::MethodNotFound, classify_request(b"workspace/foo"));
    let mut pending = PendingRequestColection::new();
    pending.add(RequestId(5), "textDocument/formatting");
    assert_eq!(Some(("textDocument/formatting", ResponseAction::Formatting)), dispatch_response(&mut pending, RequestId(5)));
    assert_eq!(None, dispatch_response(&mut pending, RequestId(5)));
    assert_eq!(ResponseAction::Hover, classify_response(b"textDocument/hover"));
    assert_eq!(
        b"[lsp error code -32601] textDocument/hover: 'no'".to_vec(),
        render_lsp_error(-32601, b"textDocument/hover", b"no")
    );
}

#[test]
fn publish_stores_sorted_messages_and_ranges() {
    let mut diagnostics = DiagnosticCollection::new();
    let handle = BufferHandle(0);
    diagnostics.publish(
        "/p/a.rs",
        Some(handle),
        &vec![("late", range((2, 0), (2, 1))), ("early", range((0, 4), (0, 5))), ("mid", range((1, 0), (1, 2)))],
    );
    let stored = diagnostics.buffer_diagnostics(handle);
    let pairs: Vec<(&str, BufferRange)> = stored.iter().map(|d| (d.message.as_str(), d.utf16_range)).collect();
    assert_eq!(
        vec![("early", range((0, 4), (0, 5))), ("mid", range((1, 0), (1, 2))), ("late", range((2, 0), (2, 1)))],
        pairs
    );
    diagnostics.publish("/p/a.rs", Some(handle), &vec![("only", range((3, 0), (3, 1)))]);
    let stored = diagnostics.buffer_diagnostics(handle);
    assert_eq!(1, stored.len());
    assert_eq!("only", stored[0].message);
}

#[test]
fn did_change_carries_recorded_changes() {
    let mut pool = pepper::buffer::BufferLinePool::new();
    let mut words = pepper::word_database::WordDatabase::new();
    let mut buffer = pepper::buffer::Buffer::new(&mut words, None, pepper::buffer::BufferContent::from_str(&mut pool, "abc"));
    buffer.insert_text(&mut pool, &mut words, BufferPosition::line_col(0, 1), "XY");
    buffer.delete_range(&mut pool, &mut words, range((0, 0), (0, 2)));
    let e1 = pepper::undo::Edit::new(pepper::undo::EditKind::Insert, BufferPosition::line_col(0, 1), b"XY");
    let e2 = pepper::undo::Edit { kind: pepper::undo::EditKind::Delete, range: range((0, 0), (0, 2)), text: b"aX".to_vec() };
    let mut versioned = VersionedBuffer::new();
    versioned.record_edit(&e1);
    versioned.record_edit(&e2);
    assert!(versioned.take_did_change(TextDocumentSyncKind::Disabled).is_none());
    let mut replay = pepper::buffer::BufferContent::from_str(&mut pool, "abc");
    match versioned.take_did_change(TextDocumentSyncKind::Incremental) {
        Some(DidChange::Incremental(version, changes)) => {
            assert_eq!(1, version);
            assert_eq!(2, changes.len());
            for (r, t) in changes {
                replay.delete_range(&mut pool, r);
                replay.insert_text(&mut pool, r.from, std::str::from_utf8(&t).unwrap());
            }
        }
        _ => panic!("expected incremental changes"),
    }
    let mut out = Vec::new();
    replay.write(&mut out);
    let mut now = Vec::new();
    buffer.content().write(&mut now);
    assert_eq!(now, out);
    assert!(versioned.take_did_change(TextDocumentSyncKind::Incremental).is_none());
}
