use lite_core::motion::{
    add_cursor, clear_selection, line_end_of, line_start_of, move_range, move_word, select_all,
    select_line, select_next_occurrence, select_word, Direction,
};
use lite_core::{Range, Rope, Selection};

#[test]
fn horizontal_moves_clamp_to_the_text() {
    let rope = Rope::from("abc\ndef");
    assert_eq!(move_range(&rope, &Range::new(1, 2), Direction::Left, 5), Range::point(0));
    assert_eq!(move_range(&rope, &Range::point(2), Direction::Right, 3), Range::point(5));
    assert_eq!(move_range(&rope, &Range::point(6), Direction::Right, 9), Range::point(7));
}

#[test]
fn vertical_moves_keep_the_column() {
    let rope = Rope::from("hello\nhi\nworld");
    // column 4 on line 0, line 1 is shorter, line 2 long enough
    assert_eq!(move_range(&rope, &Range::point(4), Direction::Down, 1), Range::point(8));
    assert_eq!(move_range(&rope, &Range::point(4), Direction::Down, 2), Range::point(13));
    assert_eq!(move_range(&rope, &Range::point(13), Direction::Up, 5), Range::point(4));
    assert_eq!(move_range(&rope, &Range::point(13), Direction::Down, 5), Range::point(13));
}

#[test]
fn word_motions() {
    let rope = Rope::from("foo  bar_baz, qux");
    assert_eq!(move_word(&rope, &Range::point(0), Direction::Right), Range::point(5));
    assert_eq!(move_word(&rope, &Range::point(5), Direction::Right), Range::point(14));
    assert_eq!(move_word(&rope, &Range::point(14), Direction::Right), Range::point(17));
    assert_eq!(move_word(&rope, &Range::point(14), Direction::Left), Range::point(5));
    assert_eq!(move_word(&rope, &Range::point(3), Direction::Left), Range::point(0));
    assert_eq!(move_word(&rope, &Range::point(40), Direction::Left), Range::point(14));
    assert_eq!(move_word(&rope, &Range::point(7), Direction::Up), Range::point(7));
}

#[test]
fn line_ends_and_line_selection() {
    let rope = Rope::from("one\r\ntwo\nthree");
    assert_eq!(line_start_of(&rope, 7), 5);
    assert_eq!(line_end_of(&rope, 1), 3);
    assert_eq!(line_end_of(&rope, 99), 14);
    let sel = select_line(&rope, &Selection::point(6));
    assert_eq!(sel.ranges(), &[Range::new(5, 8)][..]);
    let all = select_all(&rope);
    assert_eq!(all.ranges(), &[Range::new(0, 14)][..]);
}

#[test]
fn word_selection_under_cursor() {
    let rope = Rope::from("let value = 42;");
    let sel = select_word(&rope, &Selection::point(6));
    assert_eq!(sel.ranges(), &[Range::new(4, 9)][..]);
}

#[test]
fn next_occurrence_of_word_is_added() {
    let rope = Rope::from("foo bar foo baz foo");
    let sel = select_next_occurrence(&rope, &Selection::point(1));
    assert_eq!(sel.ranges(), &[Range::point(1), Range::new(8, 11)][..]);
}

#[test]
fn next_occurrence_of_selection_searches_forward_only() {
    let rope = Rope::from("ab xab ab");
    let first = Selection::single(Range::new(0, 2));
    let sel = select_next_occurrence(&rope, &first);
    assert_eq!(sel.ranges(), &[Range::new(0, 2), Range::new(4, 6)][..]);
    // from the last occurrence there is nothing further and no wrapping
    let last = Selection::single(Range::new(7, 9));
    let same = select_next_occurrence(&rope, &last);
    assert_eq!(same.ranges(), &[Range::new(7, 9)][..]);
    // case matters
    let rope = Rope::from("Ab ab");
    let sel = select_next_occurrence(&rope, &Selection::single(Range::new(0, 2)));
    assert_eq!(sel.len(), 1);
}

#[test]
fn cursor_on_blank_has_nothing_to_search() {
    let rope = Rope::from("a  a");
    let sel = select_next_occurrence(&rope, &Selection::point(2));
    assert_eq!(sel.ranges(), &[Range::point(2)][..]);
}

#[test]
fn add_cursor_above_and_below() {
    let rope = Rope::from("abcd\nab\nabcd");
    let sel = add_cursor(&rope, &Selection::point(3), Direction::Down);
    assert_eq!(sel.ranges(), &[Range::point(3), Range::point(7)][..]);
    let sel = add_cursor(&rope, &Selection::point(3), Direction::Up);
    assert_eq!(sel.ranges(), &[Range::point(3)][..]);
    let sel = add_cursor(&rope, &Selection::point(3), Direction::Left);
    assert_eq!(sel.ranges(), &[Range::point(3)][..]);
}

#[test]
fn clear_keeps_primary_head_only() {
    let sel = Selection::new(vec![Range::new(0, 2), Range::new(5, 9)], 1);
    let cleared = clear_selection(&sel);
    assert_eq!(cleared.ranges(), &[Range::point(9)][..]);
}
