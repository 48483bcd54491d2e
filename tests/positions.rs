use lite_core::{Position, Rope, RopeExt};

#[test]
fn test_position_from_offset() {
    let rope = Rope::from("hello\nworld\n");
    assert_eq!(Position::from_offset(&rope, 0), Position::new(0, 0));
    assert_eq!(Position::from_offset(&rope, 5), Position::new(0, 5));
    assert_eq!(Position::from_offset(&rope, 6), Position::new(1, 0));
    assert_eq!(Position::from_offset(&rope, 11), Position::new(1, 5));
}

#[test]
fn test_position_to_offset() {
    let rope = Rope::from("hello\nworld\n");
    assert_eq!(Position::new(0, 0).to_offset(&rope), 0);
    assert_eq!(Position::new(0, 5).to_offset(&rope), 5);
    assert_eq!(Position::new(1, 0).to_offset(&rope), 6);
    assert_eq!(Position::new(1, 5).to_offset(&rope), 11);
}

#[test]
fn test_position_ordering() {
    assert!(Position::new(0, 0) < Position::new(0, 1));
    assert!(Position::new(0, 5) < Position::new(1, 0));
    assert!(Position::new(1, 0) > Position::new(0, 100));
}

#[test]
fn test_line_len_without_newline() {
    let rope = Rope::from("hello\nworld\n");
    assert_eq!(rope.line_len_bytes(0), 5);
    assert_eq!(rope.line_len_bytes(1), 5);
}

#[test]
fn test_word_at() {
    let rope = Rope::from("hello world");
    assert_eq!(rope.word_at(2), (0, 5));
    assert_eq!(rope.word_at(7), (6, 11));
}

#[test]
fn test_position_conversion() {
    let rope = Rope::from("hello\nworld");
    assert_eq!(rope.char_to_position(0), Position::new(0, 0));
    assert_eq!(rope.char_to_position(5), Position::new(0, 5));
    assert_eq!(rope.char_to_position(6), Position::new(1, 0));
    assert_eq!(rope.position_to_char(Position::new(1, 0)), 6);
}

#[test]
fn offsets_past_the_end_are_clamped() {
    let rope = Rope::from("ab\ncd");
    assert_eq!(Position::from_offset(&rope, 99), Position::new(1, 2));
    assert_eq!(Position::new(7, 0).to_offset(&rope), 5);
    assert_eq!(Position::new(0, 40).to_offset(&rope), 2);
    assert_eq!(Position::new(0, 40).to_char_offset(&rope), 2);
}

#[test]
fn clamp_and_validity_share_one_column_rule() {
    let rope = Rope::from("ab\r\ncd\n");
    assert_eq!(rope.len_lines_display(), 3);
    assert_eq!(rope.line_len_chars(0), 2);
    assert!(Position::new(0, 2).is_valid(&rope));
    assert!(!Position::new(0, 3).is_valid(&rope));
    assert!(!Position::new(5, 0).is_valid(&rope));
    assert_eq!(Position::clamp(&Position::new(0, 9), &rope), Position::new(0, 2));
    assert_eq!(Position::clamp(&Position::new(9, 9), &rope), Position::new(2, 0));
    assert_eq!(Position::clamp(&Position::new(1, 1), &rope), Position::new(1, 1));
}

#[test]
fn multibyte_lines_count_chars_and_bytes() {
    let rope = Rope::from("héllo\n中文x\n");
    assert_eq!(rope.line_len_chars(0), 5);
    assert_eq!(rope.line_len_bytes(0), 6);
    assert_eq!(rope.line_len_chars(1), 3);
    assert_eq!(rope.line_len_bytes(1), 7);
    assert_eq!(rope.line_to_byte_start(1), 7);
    assert_eq!(rope.line_to_byte_end(1), 14);
    assert_eq!(rope.line_to_byte_start(9), 15);
    assert_eq!(Position::from_offset(&rope, 8), Position::new(1, 2));
}

#[test]
fn line_queries_and_newline_end() {
    let rope = Rope::from("one\ntwo");
    assert_eq!(RopeExt::get_line(&rope, 1), Some("two".to_string()));
    assert_eq!(RopeExt::get_line(&rope, 0), Some("one\n".to_string()));
    assert_eq!(RopeExt::get_line(&rope, 2), None);
    assert!(!rope.ends_with_newline());
    assert!(Rope::from("x\n").ends_with_newline());
    assert_eq!(rope.line_len_chars(5), 0);
}

#[test]
fn word_chars_and_words_at_edges() {
    let rope = Rope::from("foo_bar baz");
    assert!(rope.is_word_char(3));
    assert!(!rope.is_word_char(7));
    assert!(!rope.is_word_char(40));
    assert_eq!(rope.word_at(0), (0, 7));
    assert_eq!(rope.word_at(7), (0, 7));
    assert_eq!(rope.word_at(100), (8, 11));
}
