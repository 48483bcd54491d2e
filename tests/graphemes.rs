use lite_core::{grapheme_width, nth_next_grapheme, nth_prev_grapheme, Rope, RopeGraphemes};

#[test]
fn test_grapheme_width() {
    assert_eq!(grapheme_width("a"), 1);
    assert_eq!(grapheme_width("中"), 2);
    assert_eq!(grapheme_width("\t"), 1);
}

#[test]
fn test_grapheme_iterator() {
    let rope = Rope::from("hello");
    let text = rope.to_string();
    let mut iter = RopeGraphemes::new(&text);
    let mut graphemes: Vec<String> = Vec::new();
    while let Some(g) = iter.next() {
        graphemes.push(g);
    }
    assert_eq!(graphemes, vec!["h", "e", "l", "l", "o"]);
}

#[test]
fn control_chars_have_no_width() {
    assert_eq!(grapheme_width("\u{7}"), 0);
    assert_eq!(grapheme_width("\r\n"), 0);
    assert_eq!(grapheme_width("e\u{301}"), 1);
}

#[test]
fn clusters_keep_combining_marks_together() {
    let mut iter = RopeGraphemes::new("e\u{301}x\r\n");
    assert_eq!(iter.next(), Some("e\u{301}".to_string()));
    assert_eq!(iter.next(), Some("x".to_string()));
    assert_eq!(iter.next(), Some("\r\n".to_string()));
    assert_eq!(iter.next(), None);
}

#[test]
fn boundaries_step_over_whole_clusters() {
    let text = "ae\u{301}中b";
    // bytes: a(0) e(1) U+0301(2..4) 中(4..7) b(7) end 8
    assert_eq!(nth_next_grapheme(text, 0, 1), 1);
    assert_eq!(nth_next_grapheme(text, 1, 1), 4);
    assert_eq!(nth_next_grapheme(text, 0, 3), 7);
    assert_eq!(nth_next_grapheme(text, 0, 10), 8);
    assert_eq!(nth_prev_grapheme(text, 8, 1), 7);
    assert_eq!(nth_prev_grapheme(text, 7, 1), 4);
    assert_eq!(nth_prev_grapheme(text, 4, 1), 1);
    assert_eq!(nth_prev_grapheme(text, 8, 10), 0);
}

#[test]
fn boundaries_are_total_on_bad_offsets() {
    let text = "中x";
    // inside the first char: no panic, the ends of the text come back
    assert_eq!(nth_next_grapheme(text, 1, 1), 4);
    assert_eq!(nth_prev_grapheme(text, 2, 1), 0);
    assert_eq!(nth_next_grapheme(text, 99, 1), 4);
    assert_eq!(nth_prev_grapheme(text, 99, 1), 3);
    assert_eq!(nth_next_grapheme(text, 2, 0), 2);
}
