use gpui_editor::textarea::{EnterMode, TextInput, TextInputEvent};

fn input_with(text: &str) -> TextInput {
    let mut input = TextInput::new();
    input.paste(text);
    input
}

#[test]
fn new_input_defaults() {
    let input = TextInput::new();
    assert_eq!(input.value(), "");
    assert_eq!(input.placeholder_text(), "请输入内容...");
    assert_eq!(input.selected_range(), 0..0);
    assert!(!input.selection_reversed());
    assert_eq!(input.marked_range(), None);
    assert!(input.cursor_visible());
    assert!(!input.is_selecting());
    assert_eq!(input.mode(), EnterMode::EnterSubmit);
    assert_eq!(input.row_count(), 2);
    assert_eq!(input.limit(), None);
    assert_eq!(EnterMode::default(), EnterMode::EnterSubmit);
}

#[test]
fn builders_set_settings() {
    let input = TextInput::new()
        .placeholder("Type here")
        .max_length(3)
        .enter_mode(EnterMode::EnterNewline)
        .rows(0);
    assert_eq!(input.placeholder_text(), "Type here");
    assert_eq!(input.limit(), Some(3));
    assert_eq!(input.mode(), EnterMode::EnterNewline);
    assert_eq!(input.row_count(), 1);
    assert_eq!(TextInput::new().rows(5).row_count(), 5);
}

#[test]
fn typing_moves_the_caret_after_the_text() {
    let mut input = input_with("héllo");
    assert_eq!(input.value(), "héllo");
    assert_eq!(input.selected_range(), 6..6);
    input.paste(" 🌍");
    assert_eq!(input.value(), "héllo 🌍");
    assert_eq!(input.cursor_offset(), 11);
}

#[test]
fn max_length_cuts_input_by_clusters() {
    let mut input = TextInput::new().max_length(4);
    input.paste("ab");
    input.paste("e\u{301}🌍xyz");
    assert_eq!(input.value(), "abe\u{301}🌍");
    input.paste("more");
    assert_eq!(input.value(), "abe\u{301}🌍");
    input.select_all();
    input.paste("1234567");
    assert_eq!(input.value(), "1234");
}

#[test]
fn arrows_step_over_clusters() {
    let mut input = input_with("ae\u{301}b");
    input.left();
    assert_eq!(input.cursor_offset(), 4);
    input.left();
    assert_eq!(input.cursor_offset(), 1);
    input.right();
    assert_eq!(input.cursor_offset(), 4);
    input.home();
    assert_eq!(input.cursor_offset(), 0);
    input.left();
    assert_eq!(input.cursor_offset(), 0);
    input.end();
    assert_eq!(input.cursor_offset(), 5);
    input.right();
    assert_eq!(input.cursor_offset(), 5);
}

#[test]
fn selection_flips_when_it_passes_the_anchor() {
    let mut input = input_with("abcd");
    input.move_to(2);
    input.select_right();
    assert_eq!(input.selected_range(), 2..3);
    assert!(!input.selection_reversed());
    input.select_left();
    input.select_left();
    assert_eq!(input.selected_range(), 1..2);
    assert!(input.selection_reversed());
    assert_eq!(input.cursor_offset(), 1);
    input.left();
    assert_eq!(input.selected_range(), 1..1);
    input.select_to(3);
    input.right();
    assert_eq!(input.selected_range(), 3..3);
}

#[test]
fn backspace_and_delete_remove_whole_clusters() {
    let mut input = input_with("a🌍e\u{301}b");
    input.move_to(5);
    input.backspace();
    assert_eq!(input.value(), "ae\u{301}b");
    assert_eq!(input.cursor_offset(), 1);
    input.delete();
    assert_eq!(input.value(), "ab");
    input.select_all();
    input.delete();
    assert_eq!(input.value(), "");
    input.backspace();
    assert_eq!(input.value(), "");
}

#[test]
fn enter_modes_decide_submit_or_newline() {
    let mut input = input_with("ab");
    assert_eq!(input.submit(), TextInputEvent::Submit);
    assert_eq!(input.value(), "ab");
    assert_eq!(input.insert_newline(), TextInputEvent::InsertNewline);
    assert_eq!(input.value(), "ab\n");
    let mut input = input_with("ab").enter_mode(EnterMode::EnterNewline);
    assert_eq!(input.submit(), TextInputEvent::InsertNewline);
    assert_eq!(input.value(), "ab\n");
    assert_eq!(input.insert_newline(), TextInputEvent::Submit);
    assert_eq!(input.value(), "ab\n");
}

#[test]
fn copy_and_cut_take_the_selection() {
    let mut input = input_with("hello world");
    assert_eq!(input.copy(), None);
    assert_eq!(input.cut(), None);
    input.move_to(6);
    input.select_to(11);
    assert_eq!(input.copy().as_deref(), Some("world"));
    assert_eq!(input.cut().as_deref(), Some("world"));
    assert_eq!(input.value(), "hello ");
    assert_eq!(input.selected_range(), 6..6);
}

#[test]
fn utf16_offsets_round_trip() {
    let input = input_with("a🌍é");
    assert_eq!(input.offset_to_utf16(0), 0);
    assert_eq!(input.offset_to_utf16(1), 1);
    assert_eq!(input.offset_to_utf16(5), 3);
    assert_eq!(input.offset_to_utf16(7), 4);
    assert_eq!(input.offset_from_utf16(3), 5);
    assert_eq!(input.offset_from_utf16(4), 7);
    // Inside the surrogate pair: on to the end of the character.
    assert_eq!(input.offset_from_utf16(2), 5);
    assert_eq!(input.offset_from_utf16(99), 7);
    for b in [0usize, 1, 5, 7] {
        assert_eq!(input.offset_from_utf16(input.offset_to_utf16(b)), b);
    }
    // Every character boundary comes back; an offset inside a character does not.
    let content = input.value();
    for b in 0..=content.len() {
        if content.is_char_boundary(b) {
            assert_eq!(input.offset_from_utf16(input.offset_to_utf16(b)), b);
        }
    }
    assert_eq!(input.offset_from_utf16(input.offset_to_utf16(2)), 5);
    assert_eq!(input.range_to_utf16(&(1..5)), 1..3);
    assert_eq!(input.range_from_utf16(&(1..3)), 1..5);
}

#[test]
fn ime_marking_and_queries() {
    let mut input = input_with("ab");
    input.replace_and_mark_text_in_range(None, "ni", None);
    assert_eq!(input.value(), "abni");
    assert_eq!(input.marked_range(), Some(2..4));
    assert_eq!(input.marked_text_range(), Some(2..4));
    input.replace_and_mark_text_in_range(None, "你", Some(1..1));
    assert_eq!(input.value(), "ab你");
    assert_eq!(input.marked_range(), Some(2..5));
    input.replace_text_in_range(None, "你好");
    assert_eq!(input.value(), "ab你好");
    assert_eq!(input.marked_range(), None);
    assert_eq!(input.selected_range(), 8..8);
    let mut actual = None;
    assert_eq!(input.text_for_range(1..3, &mut actual).as_deref(), Some("b你"));
    assert_eq!(actual, Some(1..3));
    input.move_to(2);
    input.select_to(5);
    assert_eq!(input.selected_text_range(), (2..3, false));
    input.replace_and_mark_text_in_range(None, "", None);
    assert_eq!(input.marked_range(), None);
    assert_eq!(input.value(), "ab好");
    input.replace_and_mark_text_in_range(Some(0..1), "x", None);
    assert_eq!(input.value(), "xb好");
    input.unmark_text();
    assert_eq!(input.marked_text_range(), None);
}

#[test]
fn mouse_drag_selects() {
    let mut input = input_with("abcdef");
    input.mouse_down(2, false);
    assert!(input.is_selecting());
    assert_eq!(input.selected_range(), 2..2);
    input.mouse_move(5);
    assert_eq!(input.selected_range(), 2..5);
    input.mouse_up();
    input.mouse_move(0);
    assert_eq!(input.selected_range(), 2..5);
    input.mouse_down(1, true);
    assert_eq!(input.selected_range(), 1..2);
    assert!(input.selection_reversed());
}

#[test]
fn line_index_counts_starts_at_or_before_offset() {
    let starts = [0usize, 4, 9];
    assert_eq!(TextInput::line_index_for_offset(&starts, 0), 0);
    assert_eq!(TextInput::line_index_for_offset(&starts, 3), 0);
    assert_eq!(TextInput::line_index_for_offset(&starts, 4), 1);
    assert_eq!(TextInput::line_index_for_offset(&starts, 100), 2);
    assert_eq!(TextInput::line_index_for_offset(&[], 7), 0);
    assert_eq!(TextInput::line_index_for_offset(&[3], 1), 0);
}

#[test]
fn clear_and_blink() {
    let mut input = input_with("abc");
    input.set_cursor_visible(false);
    assert!(!input.cursor_visible());
    input.clear();
    assert_eq!(input.value(), "");
    assert_eq!(input.selected_range(), 0..0);
    assert_eq!(input.content(), "");
    input.paste("x");
    assert!(input.cursor_visible());
    assert_eq!(input.next_boundary(0), 1);
    assert_eq!(input.previous_boundary(1), 0);
}
