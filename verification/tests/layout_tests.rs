use gpui_editor::layout::{line_starts, locate, selection_segments, text_runs};
use gpui_editor::textarea::TextInput;

#[test]
fn line_starts_follow_newlines() {
    assert_eq!(line_starts("ab\ncd\n", 3), vec![0, 3, 6]);
    assert_eq!(line_starts("", 1), vec![0]);
    assert_eq!(line_starts("héllo\nworld", 2), vec![0, 7]);
}

#[test]
fn line_starts_fit_the_shaped_line_count() {
    assert_eq!(line_starts("a\nb\nc", 2), vec![0, 2]);
    assert_eq!(line_starts("ab", 3), vec![0, 2, 2]);
    assert_eq!(line_starts("ab\n", 0), Vec::<usize>::new());
}

#[test]
fn runs_split_around_the_marked_range() {
    assert_eq!(text_runs(10, &None), vec![(10, false)]);
    assert_eq!(text_runs(10, &Some(2..5)), vec![(2, false), (3, true), (5, false)]);
    assert_eq!(text_runs(5, &Some(0..5)), vec![(5, true)]);
    assert_eq!(text_runs(5, &Some(3..3)), vec![(3, false), (2, false)]);
}

#[test]
fn display_runs_use_the_placeholder_while_empty() {
    let input = TextInput::new().placeholder("Type here");
    assert_eq!(input.display_runs(), vec![(9, false)]);
    let mut input = TextInput::new();
    input.paste("ab");
    input.replace_and_mark_text_in_range(None, "ni", None);
    assert_eq!(input.display_runs(), vec![(2, false), (2, true)]);
    input.unmark_text();
    assert_eq!(input.display_runs(), vec![(4, false)]);
}

#[test]
fn selection_segments_cover_each_line() {
    let starts = [0, 6, 12];
    let lens = [5, 5, 3];
    assert_eq!(selection_segments(&starts, &lens, 3..8), vec![(0, 3, 5), (1, 0, 2)]);
    assert_eq!(selection_segments(&starts, &lens, 0..15), vec![(0, 0, 5), (1, 0, 5), (2, 0, 3)]);
    // Only the newline between two lines is selected: nothing to paint.
    assert_eq!(selection_segments(&starts, &lens, 5..6), vec![]);
    assert_eq!(selection_segments(&starts, &lens, 13..13), vec![]);
}

#[test]
fn locate_finds_line_and_column() {
    let starts = [0, 6, 12];
    assert_eq!(locate(&starts, 0), (0, 0));
    assert_eq!(locate(&starts, 5), (0, 5));
    assert_eq!(locate(&starts, 6), (1, 0));
    assert_eq!(locate(&starts, 14), (2, 2));
    assert_eq!(locate(&[3, 6], 1), (0, 0));
}
