use gpui_editor::buffer::{word_end, word_start};
use gpui_editor::clusters::{allowed_bytes, snap_offset, start_after, start_before};

#[test]
fn snapping_goes_to_the_nearest_boundary() {
    // "🌍a": clusters start at 0 and 4, the text ends at 5.
    let b = [0, 4];
    assert_eq!(snap_offset(&b, 5, 3), 4);
    assert_eq!(snap_offset(&b, 5, 1), 0);
    assert_eq!(snap_offset(&b, 5, 2), 0);
    assert_eq!(snap_offset(&b, 5, 4), 4);
    assert_eq!(snap_offset(&b, 5, 0), 0);
    assert_eq!(snap_offset(&b, 5, 9), 5);
    // Inside the last cluster: the end of the text when nearer.
    assert_eq!(snap_offset(&[0, 1], 5, 4), 5);
    assert_eq!(snap_offset(&[0, 1], 5, 2), 1);
}

#[test]
fn starts_before_and_after_an_offset() {
    let b = [0, 1, 3, 4];
    assert_eq!(start_before(&b, 3), 1);
    assert_eq!(start_before(&b, 2), 1);
    assert_eq!(start_before(&b, 0), 0);
    assert_eq!(start_before(&b, 9), 4);
    assert_eq!(start_after(&b, 1, 6), 3);
    assert_eq!(start_after(&b, 4, 6), 6);
    assert_eq!(start_after(&[], 0, 0), 0);
}

#[test]
fn allowed_bytes_follow_the_cluster_limit() {
    let b = [0, 4, 5];
    assert_eq!(allowed_bytes(3, 3, &b, 7), 0);
    assert_eq!(allowed_bytes(1, 3, &b, 7), 5);
    assert_eq!(allowed_bytes(0, 1, &b, 7), 4);
    assert_eq!(allowed_bytes(0, 9, &b, 7), 7);
    assert_eq!(allowed_bytes(usize::MAX, 5, &b, 7), 0);
}

#[test]
fn word_walks_over_given_clusters() {
    let t = "hello world";
    let b: Vec<usize> = (0..11).collect();
    assert_eq!(word_start(t, &b), 6);
    assert_eq!(word_end(t, &b), 6);
    let t = "ab  ";
    let b: Vec<usize> = (0..4).collect();
    assert_eq!(word_start(t, &b), 0);
    assert_eq!(word_end(t, &b), 4);
    // U+3000 (three bytes) is White_Space.
    let t = "x\u{3000}y";
    let b = vec![0, 1, 4];
    assert_eq!(word_start(t, &b), 4);
    assert_eq!(word_end(t, &b), 4);
    assert_eq!(word_end("", &Vec::new()), 0);
}
