use gpui_editor::buffer::{Position, TextBuffer};
use gpui_editor::cursor::Cursor;

#[test]
fn test_cursor_default() {
    let c = Cursor::new();
    assert_eq!(c.position, Position::zero());
    assert!(!c.has_selection());
}

#[test]
fn test_cursor_selection() {
    let mut c = Cursor::at(Position::new(0, 0));
    c.select_to(Position::new(0, 5));
    assert!(c.has_selection());
    let sel = c.selection().unwrap();
    assert_eq!(sel.start, Position::new(0, 0));
    assert_eq!(sel.end, Position::new(0, 5));
}

#[test]
fn test_move_collapses_selection() {
    let buf = TextBuffer::from_text("hello world");
    let mut c = Cursor::at(Position::new(0, 0));
    c.select_to(Position::new(0, 5));
    c.move_right(&buf, false);
    assert!(!c.has_selection());
    assert_eq!(c.position, Position::new(0, 5));
}

#[test]
fn test_move_up_down_preferred_col() {
    let buf = TextBuffer::from_text("hello\nhi\nworld");
    let mut c = Cursor::at(Position::new(0, 4));
    c.preferred_col = 4;
    c.move_down(&buf, false);
    assert_eq!(c.position, Position::new(1, 2));
    c.move_down(&buf, false);
    assert_eq!(c.position, Position::new(2, 4));
}

#[test]
fn cursor_test_select_all() {
    let buf = TextBuffer::from_text("hello\nworld");
    let mut c = Cursor::new();
    c.select_all(&buf);
    assert!(c.has_selection());
    let sel = c.selection().unwrap();
    assert_eq!(sel.start, Position::zero());
    assert_eq!(sel.end, Position::new(1, 5));
}
