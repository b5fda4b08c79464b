use gpui_editor::buffer::{Position, TextBuffer, TextRange};
use gpui_editor::cursor::Cursor;

#[test]
fn text_round_trips_through_buffer() {
    for t in ["", "a", "\n", "a\n", "\nb", "one\n\ntwo\n", "héllo\n🌍 x"] {
        assert_eq!(TextBuffer::from_text(t).text(), t);
    }
    assert_eq!(TextBuffer::from_text("a\n").line_count(), 2);
    assert_eq!(TextBuffer::from_text("\n\n").line_count(), 3);
}

#[test]
fn insert_then_delete_restores_text() {
    let original = "first line\nsecond";
    for (pos, ins) in [
        (Position::new(0, 5), "X\nY\nZ"),
        (Position::new(1, 6), "tail"),
        (Position::new(0, 0), "\n"),
    ] {
        let mut buf = TextBuffer::from_text(original);
        let end = buf.insert(pos, ins);
        assert_eq!(buf.text_in_range(TextRange::new(pos, end)), ins);
        buf.delete(TextRange::new(pos, end));
        assert_eq!(buf.text(), original);
    }
}

#[test]
fn insert_puts_text_at_offset() {
    let mut buf = TextBuffer::from_text("abc\ndef");
    let end = buf.insert(Position::new(1, 1), "12\n34");
    assert_eq!(buf.text(), "abc\nd12\n34ef");
    assert_eq!(end, Position::new(2, 2));
    assert_eq!(buf.line_count(), 3);
}

#[test]
fn insert_empty_text_only_clamps() {
    let mut buf = TextBuffer::from_text("ab");
    let pos = buf.insert(Position::new(7, 9), "");
    assert_eq!(pos, Position::new(0, 2));
    assert_eq!(buf.text(), "ab");
}

#[test]
fn clamp_snaps_into_lines_and_clusters() {
    let buf = TextBuffer::from_text("héllo\naé");
    assert_eq!(buf.clamp_position(Position::new(5, 1)), Position::new(1, 1));
    assert_eq!(buf.clamp_position(Position::new(0, 99)), Position::new(0, 6));
    // Inside "é" (bytes 1..3), as near its start as its end: to its start.
    assert_eq!(buf.clamp_position(Position::new(0, 2)), Position::new(0, 1));
    assert_eq!(buf.clamp_position(Position::new(1, 2)), Position::new(1, 1));
    // A clamped position stays where it is.
    let p = buf.clamp_position(Position::new(0, 2));
    assert_eq!(buf.clamp_position(p), p);
}

#[test]
fn move_right_steps_over_a_combining_cluster() {
    let buf = TextBuffer::from_text("e\u{301}x");
    assert_eq!(buf.move_right(Position::new(0, 0)), Position::new(0, 3));
    assert_eq!(buf.move_left(Position::new(0, 3)), Position::new(0, 0));
    assert_eq!(buf.move_right(Position::new(0, 3)), Position::new(0, 4));
    assert_eq!(buf.move_right(Position::new(0, 4)), Position::new(0, 4));
}

#[test]
fn word_moves_treat_unicode_spaces_as_blank() {
    let buf = TextBuffer::from_text("ab\u{3000}cd  ef");
    assert_eq!(buf.move_word_right(Position::new(0, 0)), Position::new(0, 5));
    assert_eq!(buf.move_word_right(Position::new(0, 5)), Position::new(0, 9));
    assert_eq!(buf.move_word_right(Position::new(0, 9)), Position::new(0, 11));
    assert_eq!(buf.move_word_left(Position::new(0, 11)), Position::new(0, 9));
    assert_eq!(buf.move_word_left(Position::new(0, 9)), Position::new(0, 5));
    assert_eq!(buf.move_word_left(Position::new(0, 5)), Position::new(0, 0));
}

#[test]
fn word_moves_cross_lines_at_the_ends() {
    let buf = TextBuffer::from_text("ab\ncd");
    assert_eq!(buf.move_word_right(Position::new(0, 2)), Position::new(1, 0));
    assert_eq!(buf.move_word_left(Position::new(1, 0)), Position::new(0, 2));
    assert_eq!(buf.move_word_left(Position::new(0, 0)), Position::new(0, 0));
    assert_eq!(buf.move_word_right(Position::new(1, 2)), Position::new(1, 2));
}

#[test]
fn vertical_moves_at_the_edges() {
    let buf = TextBuffer::from_text("abc\nd");
    assert_eq!(buf.move_up(Position::new(0, 2), 2), Position::new(0, 0));
    assert_eq!(buf.move_down(Position::new(1, 0), 3), Position::new(1, 1));
    assert_eq!(buf.move_down(Position::new(0, 2), 7), Position::new(1, 1));
    assert_eq!(buf.move_up(Position::new(1, 0), 7), Position::new(0, 3));
}

#[test]
fn line_start_and_end_clamp_the_line() {
    let buf = TextBuffer::from_text("abc\nde");
    assert_eq!(buf.line_start(Position::new(9, 9)), Position::new(1, 0));
    assert_eq!(buf.line_end(Position::new(0, 1)), Position::new(0, 3));
    assert_eq!(buf.line_end(Position::new(4, 0)), Position::new(1, 2));
    assert_eq!(buf.line_len(1), 2);
    assert_eq!(buf.lines().len(), 2);
    assert_eq!(buf.lines()[1], "de");
}

#[test]
fn delete_of_an_empty_range_returns_its_start_unclamped() {
    let mut buf = TextBuffer::from_text("abc");
    let p = Position::new(3, 8);
    assert_eq!(buf.delete(TextRange::new(p, p)), p);
    assert_eq!(buf.text(), "abc");
}

#[test]
fn text_range_orders_its_ends() {
    let a = Position::new(2, 1);
    let b = Position::new(1, 5);
    let r = TextRange::new(a, b);
    assert_eq!(r.start, b);
    assert_eq!(r.end, a);
    assert!(!r.is_empty());
    assert!(TextRange::new(a, a).is_empty());
}

#[test]
fn text_in_range_with_start_below_end_line() {
    // The range fields are public; a range whose start line comes after its
    // end line reads the rest of the start line, a newline, and the head of
    // the end line.
    let buf = TextBuffer::from_text("abc\ndef\nghi");
    let r = TextRange { start: Position::new(2, 1), end: Position::new(0, 2) };
    assert_eq!(buf.text_in_range(r), "hi\nab");
}

#[test]
fn select_all_reads_everything() {
    let buf = TextBuffer::from_text("x\n\ny z");
    assert_eq!(buf.text_in_range(buf.select_all()), buf.text());
    assert_eq!(buf.end_position(), Position::new(2, 3));
}

#[test]
fn replace_across_lines() {
    let mut buf = TextBuffer::from_text("one\ntwo\nthree");
    let end = buf.replace(TextRange::new(Position::new(0, 1), Position::new(2, 2)), "X\nY");
    assert_eq!(buf.text(), "oX\nYree");
    assert_eq!(end, Position::new(1, 1));
}

#[test]
fn default_buffer_and_cursor() {
    let buf = TextBuffer::default();
    assert_eq!(buf.text(), "");
    let c = Cursor::default();
    assert_eq!(c.position, Position::zero());
    assert!(c.anchor.is_none());
}

#[test]
fn cursor_extend_keeps_anchor_and_collapse_drops_it() {
    let buf = TextBuffer::from_text("hello world");
    let mut c = Cursor::at(Position::new(0, 2));
    c.move_right(&buf, true);
    c.move_right(&buf, true);
    assert_eq!(c.anchor, Some(Position::new(0, 2)));
    assert_eq!(c.position, Position::new(0, 4));
    c.move_left(&buf, false);
    assert_eq!(c.position, Position::new(0, 2));
    assert!(c.anchor.is_none());
    c.select_to(Position::new(0, 0));
    let sel = c.selection().unwrap();
    assert_eq!(sel.start, Position::new(0, 0));
    assert_eq!(sel.end, Position::new(0, 2));
    c.collapse();
    assert!(!c.has_selection());
    assert_eq!(c.position, Position::new(0, 0));
}

#[test]
fn cursor_anchor_at_caret_is_no_selection() {
    let mut c = Cursor::new();
    c.set_selection(TextRange::new(Position::new(1, 1), Position::new(1, 1)));
    assert!(c.anchor.is_some());
    assert!(!c.has_selection());
    assert_eq!(c.preferred_col, 1);
}

#[test]
fn cursor_word_and_buffer_moves() {
    let buf = TextBuffer::from_text("ab cd\nef");
    let mut c = Cursor::new();
    c.move_word_right(&buf, false);
    assert_eq!(c.position, Position::new(0, 3));
    c.move_to_end(&buf, true);
    assert_eq!(c.position, Position::new(1, 2));
    assert_eq!(c.anchor, Some(Position::new(0, 3)));
    c.move_to_start(&buf, false);
    assert_eq!(c.position, Position::zero());
    c.move_end(&buf, false);
    assert_eq!(c.position, Position::new(0, 5));
    c.move_home(&buf, true);
    assert_eq!(c.selection().unwrap(), TextRange::new(Position::new(0, 0), Position::new(0, 5)));
    c.move_word_left(&buf, false);
    assert_eq!(c.position, Position::new(0, 0));
}

#[test]
fn cursor_vertical_moves_keep_preferred_column() {
    let buf = TextBuffer::from_text("abcdef\nab\nabcdef");
    let mut c = Cursor::at(Position::new(0, 5));
    c.move_down(&buf, false);
    assert_eq!(c.position, Position::new(1, 2));
    assert_eq!(c.preferred_col, 5);
    c.move_down(&buf, true);
    assert_eq!(c.position, Position::new(2, 5));
    assert_eq!(c.anchor, Some(Position::new(1, 2)));
    c.move_up(&buf, false);
    c.move_up(&buf, false);
    assert_eq!(c.position, Position::new(0, 5));
}

#[test]
fn clamp_goes_to_the_nearest_cluster_boundary() {
    let buf = TextBuffer::from_text("\u{1F30D}a\n\u{1F30D}");
    assert_eq!(buf.clamp_position(Position::new(0, 1)), Position::new(0, 0));
    assert_eq!(buf.clamp_position(Position::new(0, 3)), Position::new(0, 4));
    assert_eq!(buf.clamp_position(Position::new(0, 2)), Position::new(0, 0));
    // Inside the last cluster of a line, near its end: to the end.
    assert_eq!(buf.clamp_position(Position::new(1, 3)), Position::new(1, 4));
    assert_eq!(buf.clamp_position(Position::new(1, 1)), Position::new(1, 0));
}

#[test]
fn moving_left_and_right_undo_each_other() {
    let buf = TextBuffer::from_text("h\u{e9}llo\ne\u{301}x\n");
    let mut p = Position::zero();
    let end = buf.end_position();
    while p != end {
        let q = buf.move_right(p);
        assert_eq!(buf.move_left(q), p);
        assert_eq!(buf.move_right(buf.move_left(q)), q);
        p = q;
    }
}

#[test]
fn insert_then_delete_of_the_inserted_range() {
    let mut buf = TextBuffer::from_text("ab\ncd");
    let before = buf.text();
    let p = Position::new(1, 1);
    let q = buf.insert(p, "x\ny\u{e9}");
    assert_eq!(q, Position::new(2, 3));
    assert_eq!(buf.delete(TextRange::new(p, q)), p);
    assert_eq!(buf.text(), before);
    assert_eq!(buf.line_count(), 2);
}

#[test]
fn line_count_is_one_more_than_newlines() {
    let mut buf = TextBuffer::from_text("a\nb");
    buf.insert(Position::new(0, 1), "\n\nz\n");
    buf.delete(TextRange::new(Position::new(1, 0), Position::new(2, 0)));
    buf.replace(TextRange::new(Position::new(0, 0), Position::new(0, 1)), "q\nr");
    let text = buf.text();
    assert_eq!(buf.line_count(), text.matches('\n').count() + 1);
    for i in 0..buf.line_count() {
        assert!(!buf.line(i).contains('\n'));
    }
}

#[test]
fn checked_edits_refuse_reversed_clamped_ends() {
    let mut buf = TextBuffer::from_text("abc\nde");
    let reversed = TextRange { start: Position::new(0, 2), end: Position::new(0, 1) };
    assert_eq!(buf.try_delete(reversed), None);
    assert_eq!(buf.try_replace(reversed, "x"), None);
    assert_eq!(buf.try_text_in_range(reversed), None);
    assert_eq!(buf.text(), "abc\nde");
    // Both ends clamp onto the last line, the start after the end.
    let clamped = TextRange { start: Position::new(5, 9), end: Position::new(7, 1) };
    assert_eq!(buf.try_delete(clamped), None);
    let ordered = TextRange::new(Position::new(0, 1), Position::new(1, 1));
    assert_eq!(buf.try_text_in_range(ordered), Some("bc\nd".to_string()));
    assert_eq!(buf.try_replace(ordered, "Z"), Some(Position::new(0, 2)));
    assert_eq!(buf.text(), "aZe");
    let first = TextRange::new(Position::new(0, 0), Position::new(0, 1));
    assert_eq!(buf.try_delete(first), Some(Position::new(0, 0)));
    assert_eq!(buf.text(), "Ze");
}
