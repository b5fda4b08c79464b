use gpui_editor::buffer::{Position, TextBuffer, TextRange};

#[test]
fn test_empty_buffer() {
    let buf = TextBuffer::new();
    assert_eq!(buf.line_count(), 1);
    assert_eq!(buf.text(), "");
    assert_eq!(buf.line(0), "");
}

#[test]
fn test_from_text() {
    let buf = TextBuffer::from_text("hello\nworld");
    assert_eq!(buf.line_count(), 2);
    assert_eq!(buf.line(0), "hello");
    assert_eq!(buf.line(1), "world");
    assert_eq!(buf.text(), "hello\nworld");
}

#[test]
fn test_insert_single_line() {
    let mut buf = TextBuffer::new();
    let pos = buf.insert(Position::zero(), "hello");
    assert_eq!(pos, Position::new(0, 5));
    assert_eq!(buf.text(), "hello");
}

#[test]
fn test_insert_multiline() {
    let mut buf = TextBuffer::new();
    let pos = buf.insert(Position::zero(), "hello\nworld\nfoo");
    assert_eq!(pos, Position::new(2, 3));
    assert_eq!(buf.line_count(), 3);
    assert_eq!(buf.text(), "hello\nworld\nfoo");
}

#[test]
fn test_insert_middle() {
    let mut buf = TextBuffer::from_text("helo");
    let pos = buf.insert(Position::new(0, 3), "l");
    assert_eq!(pos, Position::new(0, 4));
    assert_eq!(buf.text(), "hello");
}

#[test]
fn test_delete_single_line() {
    let mut buf = TextBuffer::from_text("hello world");
    let pos = buf.delete(TextRange::new(Position::new(0, 5), Position::new(0, 11)));
    assert_eq!(pos, Position::new(0, 5));
    assert_eq!(buf.text(), "hello");
}

#[test]
fn test_delete_multiline() {
    let mut buf = TextBuffer::from_text("hello\nbeautiful\nworld");
    let pos = buf.delete(TextRange::new(Position::new(0, 5), Position::new(2, 0)));
    assert_eq!(pos, Position::new(0, 5));
    assert_eq!(buf.text(), "helloworld");
}

#[test]
fn test_replace() {
    let mut buf = TextBuffer::from_text("hello world");
    let pos = buf.replace(
        TextRange::new(Position::new(0, 6), Position::new(0, 11)),
        "rust",
    );
    assert_eq!(pos, Position::new(0, 10));
    assert_eq!(buf.text(), "hello rust");
}

#[test]
fn test_text_in_range() {
    let buf = TextBuffer::from_text("hello\nworld\nfoo");
    let text = buf.text_in_range(TextRange::new(Position::new(0, 3), Position::new(1, 3)));
    assert_eq!(text, "lo\nwor");
}

#[test]
fn test_move_left_right() {
    let buf = TextBuffer::from_text("ab\ncd");
    // Move right from start
    let pos = buf.move_right(Position::new(0, 0));
    assert_eq!(pos, Position::new(0, 1));
    // Move right to next line
    let pos = buf.move_right(Position::new(0, 2));
    assert_eq!(pos, Position::new(1, 0));
    // Move left wraps to previous line
    let pos = buf.move_left(Position::new(1, 0));
    assert_eq!(pos, Position::new(0, 2));
    // Move left at start stays
    let pos = buf.move_left(Position::new(0, 0));
    assert_eq!(pos, Position::new(0, 0));
}

#[test]
fn test_move_up_down() {
    let buf = TextBuffer::from_text("hello\nhi\nworld");
    let pos = buf.move_down(Position::new(0, 4), 4);
    assert_eq!(pos, Position::new(1, 2)); // "hi" only has 2 chars
    let pos = buf.move_down(Position::new(1, 2), 4);
    assert_eq!(pos, Position::new(2, 4));
    let pos = buf.move_up(Position::new(2, 4), 4);
    assert_eq!(pos, Position::new(1, 2));
}

#[test]
fn test_word_movement() {
    let buf = TextBuffer::from_text("hello world foo");
    let pos = buf.move_word_right(Position::new(0, 0));
    assert_eq!(pos, Position::new(0, 6));
    let pos = buf.move_word_right(Position::new(0, 6));
    assert_eq!(pos, Position::new(0, 12));
    let pos = buf.move_word_left(Position::new(0, 12));
    assert_eq!(pos, Position::new(0, 6));
}

#[test]
fn buffer_test_select_all() {
    let buf = TextBuffer::from_text("hello\nworld");
    let range = buf.select_all();
    assert_eq!(range.start, Position::zero());
    assert_eq!(range.end, Position::new(1, 5));
}

#[test]
fn test_unicode() {
    let mut buf = TextBuffer::from_text("héllo");
    let pos = buf.move_right(Position::new(0, 0));
    assert_eq!(pos, Position::new(0, 1));
    // é is 2 bytes in UTF-8
    let pos = buf.move_right(pos);
    assert_eq!(pos, Position::new(0, 3));
    let end = buf.insert(Position::new(0, 6), " 🌍");
    assert_eq!(buf.text(), "héllo 🌍");
    assert!(end.col > 6);
}

#[test]
fn test_delete_newline() {
    let mut buf = TextBuffer::from_text("hello\nworld");
    buf.delete(TextRange::new(Position::new(0, 5), Position::new(1, 0)));
    assert_eq!(buf.text(), "helloworld");
    assert_eq!(buf.line_count(), 1);
}

#[test]
fn test_insert_newline() {
    let mut buf = TextBuffer::from_text("helloworld");
    buf.insert(Position::new(0, 5), "\n");
    assert_eq!(buf.line_count(), 2);
    assert_eq!(buf.line(0), "hello");
    assert_eq!(buf.line(1), "world");
}
