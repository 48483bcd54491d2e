use lite_core::{
    Document, DocumentId, History, IdGenerator, LineEnding, Range, Selection, Transaction, View,
    ViewId,
};

fn view(ids: &mut IdGenerator) -> ViewId {
    ViewId::next(ids)
}

#[test]
fn undo_with_empty_history_changes_nothing() {
    let mut ids = IdGenerator::new();
    let mut doc = Document::from_text(&mut ids, "hello world");
    let v = view(&mut ids);
    doc.set_selection(v, Selection::single(Range::new(2, 4)));
    assert!(!doc.undo(v));
    assert_eq!(doc.text(), "hello world");
    assert_eq!(doc.selection(v).ranges(), &[Range::new(2, 4)][..]);
    assert!(!doc.modified);
    assert!(!doc.redo(v));
}

#[test]
fn apply_undo_redo_round_trip() {
    let mut ids = IdGenerator::new();
    let mut doc = Document::from_text(&mut ids, "hello world");
    let v = view(&mut ids);
    doc.set_selection(v, Selection::point(7));

    let tx = Transaction::insert(11, 5, " beautiful");
    assert!(doc.apply(&tx, v));
    assert_eq!(doc.text(), "hello beautiful world");
    // the cursor after the insertion point was mapped along
    assert_eq!(doc.selection(v).cursor(), 17);
    assert!(doc.modified);
    assert_eq!(doc.history().undo_count(), 1);

    assert!(doc.undo(v));
    assert_eq!(doc.text(), "hello world");
    assert_eq!(doc.selection(v).cursor(), 7);
    assert_eq!(doc.history().redo_count(), 1);

    assert!(doc.redo(v));
    assert_eq!(doc.text(), "hello beautiful world");
    assert_eq!(doc.history().undo_count(), 1);
    assert_eq!(doc.history().redo_count(), 0);

    assert!(doc.undo(v));
    assert_eq!(doc.text(), "hello world");
    assert_eq!(doc.version(), 4);
}

#[test]
fn several_redos_in_a_row() {
    let mut ids = IdGenerator::new();
    let mut doc = Document::from_text(&mut ids, "abc");
    let v = view(&mut ids);
    assert!(doc.apply(&Transaction::insert(3, 3, "d"), v));
    assert!(doc.apply(&Transaction::insert(4, 4, "e"), v));
    assert!(doc.undo(v));
    assert!(doc.undo(v));
    assert_eq!(doc.text(), "abc");
    assert!(doc.redo(v));
    assert!(doc.redo(v));
    assert_eq!(doc.text(), "abcde");
    assert!(!doc.redo(v));
}

#[test]
fn new_edit_clears_redo() {
    let mut ids = IdGenerator::new();
    let mut doc = Document::from_text(&mut ids, "abc");
    let v = view(&mut ids);
    assert!(doc.apply(&Transaction::delete(3, 0, 1), v));
    assert!(doc.undo(v));
    assert_eq!(doc.history().redo_count(), 1);
    assert!(doc.apply(&Transaction::insert(3, 0, "z"), v));
    assert_eq!(doc.history().redo_count(), 0);
    assert_eq!(doc.text(), "zabc");
}

#[test]
fn empty_transaction_is_not_recorded() {
    let mut ids = IdGenerator::new();
    let mut doc = Document::from_text(&mut ids, "abc");
    let v = view(&mut ids);
    let tx = Transaction::delete(3, 1, 1);
    assert!(!doc.apply(&tx, v));
    assert_eq!(doc.history().undo_count(), 0);
    assert_eq!(doc.version(), 0);
    assert!(!doc.modified);
}

#[test]
fn transaction_selection_is_installed() {
    let mut ids = IdGenerator::new();
    let mut doc = Document::from_text(&mut ids, "abc");
    let v = view(&mut ids);
    let tx = Transaction::insert(3, 3, "!").with_selection(Selection::point(4));
    assert!(doc.apply(&tx, v));
    assert_eq!(doc.selection(v).ranges(), &[Range::point(4)][..]);
    assert!(doc.undo(v));
    assert_eq!(doc.selection(v).ranges(), &[Range::point(0)][..]);
}

#[test]
fn views_default_to_a_point_at_zero_and_can_be_removed() {
    let mut ids = IdGenerator::new();
    let mut doc = Document::new(&mut ids);
    assert!(doc.is_empty());
    let v = view(&mut ids);
    assert_eq!(doc.selection(v).ranges(), &[Range::point(0)][..]);
    doc.set_selection(v, Selection::point(0));
    doc.remove_view(v);
    assert_eq!(doc.selection(v).primary_idx(), 0);
}

#[test]
fn save_marks_unmodified() {
    let mut ids = IdGenerator::new();
    let mut doc = Document::from_text(&mut ids, "x");
    let v = view(&mut ids);
    assert!(doc.apply(&Transaction::insert(1, 1, "y"), v));
    assert!(doc.modified);
    doc.mark_saved();
    assert!(!doc.modified);
    assert!(doc.undo(v));
    assert!(doc.modified);
}

#[test]
fn line_ending_detection() {
    assert_eq!(LineEnding::detect("a\r\nb"), LineEnding::CRLF);
    assert_eq!(LineEnding::detect("a\nb\r"), LineEnding::LF);
    assert_eq!(LineEnding::LF.as_str(), "\n");
    assert_eq!(LineEnding::CRLF.as_str(), "\r\n");
    let mut ids = IdGenerator::new();
    let doc = Document::from_text(&mut ids, "x\r\ny");
    assert_eq!(doc.line_ending, LineEnding::CRLF);
    assert_eq!(doc.len_chars(), 4);
}

#[test]
fn ids_count_up() {
    let mut ids = IdGenerator::new();
    let a = DocumentId::next(&mut ids);
    let b = ViewId::next(&mut ids);
    assert_eq!(a.0, 1);
    assert_eq!(b.0, 2);
    assert_eq!(ids.next_id(), 3);
}

#[test]
fn history_keeps_the_newest_thousand() {
    let mut h = History::new();
    for i in 0..1001usize {
        h.push(Transaction::insert(i, 0, "x"));
    }
    assert_eq!(h.undo_count(), 1000);
    // the newest entry is still on top, the very first one is gone
    let top = h.undo().unwrap();
    assert_eq!(top.changes.doc_len, 1000);
    let mut last = None;
    while let Some(tx) = h.undo() {
        last = Some(tx);
    }
    assert_eq!(last.unwrap().changes.doc_len, 1);
    assert!(!h.can_undo());
}

#[test]
fn history_stack_discipline() {
    let mut h = History::default();
    assert!(!h.can_undo());
    h.push(Transaction::insert(0, 0, "a"));
    h.push_redo(Transaction::insert(1, 0, "b"));
    assert!(h.can_redo());
    h.push(Transaction::insert(1, 0, "c"));
    assert!(!h.can_redo());
    assert_eq!(h.undo_count(), 2);
    h.clear();
    assert_eq!(h.undo_count(), 0);
    assert!(h.redo().is_none());
}

#[test]
fn view_scrolling() {
    let mut ids = IdGenerator::new();
    let doc = DocumentId::next(&mut ids);
    let mut v = View::new(&mut ids, doc);
    assert_eq!(v.text_width(), 76);
    v.set_size(40, 10);
    v.ensure_cursor_visible(30, 0, 3);
    assert_eq!(v.scroll_y, 24);
    assert!(v.is_line_visible(30));
    v.ensure_cursor_visible(2, 50, 3);
    assert_eq!(v.scroll_y, 0);
    assert_eq!(v.scroll_x, 15);
    assert_eq!(v.visible_lines(), 0..10);
    v.scroll(5, 8);
    assert_eq!(v.scroll_y, 5);
    v.scroll(10, 8);
    assert_eq!(v.scroll_y, 7);
    v.scroll(-100, 8);
    assert_eq!(v.scroll_y, 0);
    v.center_on_line(20);
    assert_eq!(v.scroll_y, 15);
    v.update_gutter_width(0);
    assert_eq!(v.gutter_width, 3);
    v.update_gutter_width(999);
    assert_eq!(v.gutter_width, 5);
    v.update_gutter_width(1000);
    assert_eq!(v.gutter_width, 6);
}
