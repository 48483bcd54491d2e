use lite_core::edit::{
    copy_text, delete_backward, delete_forward, delete_line, duplicate_line, indent, insert_char,
    insert_newline, insert_newline_above, insert_newline_below, move_line, paste, toggle_comment,
    unindent,
};
use lite_core::motion::Direction;
use lite_core::{IndentStyle, LineEnding, Range, Rope, Selection, Transaction};

fn run(text: &str, tx: &Transaction) -> String {
    let mut rope = Rope::from(text);
    tx.apply(&mut rope);
    rope.to_string()
}

#[test]
fn typing_a_char_and_a_tab() {
    let rope = Rope::from("ab");
    let tx = insert_char(&rope, &Selection::point(1), 'x', IndentStyle::Spaces, 4);
    assert_eq!(run("ab", &tx), "axb");
    assert_eq!(tx.selection.as_ref().unwrap().cursor(), 2);
    let tx = insert_char(&rope, &Selection::point(1), '\t', IndentStyle::Spaces, 4);
    assert_eq!(run("ab", &tx), "a    b");
    assert_eq!(tx.selection.as_ref().unwrap().cursor(), 5);
    let tx = insert_char(&rope, &Selection::point(9), '\t', IndentStyle::Tabs, 4);
    assert_eq!(run("ab", &tx), "ab\t");
}

#[test]
fn newlines_follow_the_line_ending() {
    let rope = Rope::from("one\ntwo");
    let tx = insert_newline(&rope, &Selection::point(2), LineEnding::CRLF);
    assert_eq!(run("one\ntwo", &tx), "on\r\ne\ntwo");
    assert_eq!(tx.selection.as_ref().unwrap().cursor(), 4);
    let tx = insert_newline_below(&rope, &Selection::point(1), LineEnding::LF);
    assert_eq!(run("one\ntwo", &tx), "one\n\ntwo");
    assert_eq!(tx.selection.as_ref().unwrap().cursor(), 4);
    let tx = insert_newline_above(&rope, &Selection::point(6), LineEnding::LF);
    assert_eq!(run("one\ntwo", &tx), "one\n\ntwo");
    assert_eq!(tx.selection.as_ref().unwrap().cursor(), 4);
}

#[test]
fn deleting_chars_and_ranges() {
    let rope = Rope::from("abcd");
    let tx = delete_backward(&rope, &Selection::point(2)).unwrap();
    assert_eq!(run("abcd", &tx), "acd");
    assert!(delete_backward(&rope, &Selection::point(0)).is_none());
    let tx = delete_forward(&rope, &Selection::point(2)).unwrap();
    assert_eq!(run("abcd", &tx), "abd");
    assert!(delete_forward(&rope, &Selection::point(4)).is_none());
    let sel = Selection::single(Range::new(3, 1));
    let tx = delete_forward(&rope, &sel).unwrap();
    assert_eq!(run("abcd", &tx), "ad");
    assert_eq!(tx.selection.as_ref().unwrap().cursor(), 1);
}

#[test]
fn deleting_lines() {
    let rope = Rope::from("a\nbb\nc");
    let tx = delete_line(&rope, &Selection::point(3)).unwrap();
    assert_eq!(run("a\nbb\nc", &tx), "a\nc");
    let tx = delete_line(&rope, &Selection::point(6)).unwrap();
    assert_eq!(run("a\nbb\nc", &tx), "a\nbb\n");
    let trailing = Rope::from("a\n");
    assert!(delete_line(&trailing, &Selection::point(2)).is_none());
}

#[test]
fn indenting_and_unindenting() {
    let rope = Rope::from("x\n  y");
    let tx = indent(&rope, &Selection::point(3), IndentStyle::Spaces, 2);
    assert_eq!(run("x\n  y", &tx), "x\n    y");
    let tx = indent(&rope, &Selection::point(0), IndentStyle::Tabs, 2);
    assert_eq!(run("x\n  y", &tx), "\tx\n  y");
    let tx = unindent(&rope, &Selection::point(4), 4).unwrap();
    assert_eq!(run("x\n  y", &tx), "x\ny");
    let tx = unindent(&rope, &Selection::point(4), 1).unwrap();
    assert_eq!(run("x\n  y", &tx), "x\n y");
    assert!(unindent(&rope, &Selection::point(0), 4).is_none());
    let tabbed = Rope::from("\t\tz");
    let tx = unindent(&tabbed, &Selection::point(0), 4).unwrap();
    assert_eq!(run("\t\tz", &tx), "\tz");
}

#[test]
fn copy_and_paste() {
    let rope = Rope::from("one\ntwo\n");
    assert_eq!(copy_text(&rope, &Selection::point(5)), "two\n");
    assert_eq!(copy_text(&rope, &Selection::single(Range::new(2, 5))), "e\nt");
    let tx = paste(&rope, &Selection::single(Range::new(0, 3)), "1").unwrap();
    assert_eq!(run("one\ntwo\n", &tx), "1\ntwo\n");
    assert_eq!(tx.selection.as_ref().unwrap().cursor(), 1);
    let tx = paste(&rope, &Selection::point(4), "zero ").unwrap();
    assert_eq!(run("one\ntwo\n", &tx), "one\nzero two\n");
    assert!(paste(&rope, &Selection::point(0), "").is_none());
}

#[test]
fn duplicating_a_line() {
    let rope = Rope::from("ab\ncd");
    let tx = duplicate_line(&rope, &Selection::point(1));
    // the copy, with its line break, goes in where the content ends
    assert_eq!(run("ab\ncd", &tx), "abab\n\ncd");
    let tx = duplicate_line(&rope, &Selection::point(4));
    assert_eq!(run("ab\ncd", &tx), "ab\ncdcd\n");
}

#[test]
fn moving_lines_up_and_down() {
    let rope = Rope::from("a\nb\nc\n");
    let tx = move_line(&rope, &Selection::point(2), Direction::Up).unwrap();
    assert_eq!(run("a\nb\nc\n", &tx), "b\na\nc\n");
    let tx = move_line(&rope, &Selection::point(2), Direction::Down).unwrap();
    assert_eq!(run("a\nb\nc\n", &tx), "a\nc\nb\n");
    assert!(move_line(&rope, &Selection::point(0), Direction::Up).is_none());
    assert!(move_line(&rope, &Selection::point(6), Direction::Down).is_none());
    assert!(move_line(&rope, &Selection::point(2), Direction::Left).is_none());
}

#[test]
fn toggling_comments() {
    let rope = Rope::from("  let x;\n");
    let tx = toggle_comment(&rope, &Selection::point(3));
    assert_eq!(run("  let x;\n", &tx), "  // let x;\n");
    let rope = Rope::from("  // let x;\n");
    let tx = toggle_comment(&rope, &Selection::point(3));
    assert_eq!(run("  // let x;\n", &tx), "  let x;\n");
}
