use xnote_core::editor::{EditTransaction, EditorBuffer, EditorError};

#[test]
fn apply_insert_delete_replace_updates_buffer_and_version() {
    let mut buffer = EditorBuffer::new("abc");
    assert_eq!(buffer.version(), 0);

    buffer
        .apply(EditTransaction::insert(3, "d"))
        .expect("insert succeeds");
    assert_eq!(buffer.to_string(), "abcd");
    assert_eq!(buffer.version(), 1);

    buffer
        .apply(EditTransaction::delete(1..3))
        .expect("delete succeeds");
    assert_eq!(buffer.to_string(), "ad");
    assert_eq!(buffer.version(), 2);

    buffer
        .apply(EditTransaction::replace(0..2, "xyz"))
        .expect("replace succeeds");
    assert_eq!(buffer.to_string(), "xyz");
    assert_eq!(buffer.version(), 3);
}

#[test]
fn undo_and_redo_restore_content() {
    let mut buffer = EditorBuffer::new("hello");
    buffer
        .apply(EditTransaction::replace(0..5, "world"))
        .expect("edit succeeds");
    assert_eq!(buffer.to_string(), "world");

    buffer.undo().expect("undo works");
    assert_eq!(buffer.to_string(), "hello");

    buffer.redo().expect("redo works");
    assert_eq!(buffer.to_string(), "world");
}

#[test]
fn undo_and_redo_restore_variable_length_edits() {
    let mut buffer = EditorBuffer::new("abc");
    buffer
        .apply(EditTransaction::insert(3, "-tail"))
        .expect("insert succeeds");
    assert_eq!(buffer.to_string(), "abc-tail");

    buffer.undo().expect("undo succeeds");
    assert_eq!(buffer.to_string(), "abc");

    buffer.redo().expect("redo succeeds");
    assert_eq!(buffer.to_string(), "abc-tail");

    buffer
        .apply(EditTransaction::delete(1..8))
        .expect("delete succeeds");
    assert_eq!(buffer.to_string(), "a");

    buffer.undo().expect("undo delete succeeds");
    assert_eq!(buffer.to_string(), "abc-tail");
}

#[test]
fn stats_match_expected_values() {
    let buffer = EditorBuffer::new("# Title\n\nhello world\n");
    let stats = buffer.stats();
    assert_eq!(stats.words, 4);
    assert!(stats.lines >= 3);
}

#[test]
fn invalid_range_is_rejected() {
    let mut buffer = EditorBuffer::new("你好");
    let err = buffer
        .apply(EditTransaction::replace(1..2, "x"))
        .expect_err("mid-byte range should fail");
    assert_eq!(err, EditorError::InvalidUtf8Boundary);
}

#[test]
fn line_count_takes_every_line_break_and_crlf_once() {
    let buffer = EditorBuffer::new("a\r\nb\rc\u{2028}d\ne");
    assert_eq!(buffer.stats().lines, 5);
    assert_eq!(EditorBuffer::new("").stats().lines, 1);
}
