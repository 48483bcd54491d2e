use lite_core::{Change, ChangeSet, Operation, Rope, Selection, Transaction};

#[test]
fn test_insert() {
    let mut rope = Rope::from("hello world");
    let tx = Transaction::insert(11, 5, " beautiful");
    tx.apply(&mut rope);
    assert_eq!(rope.to_string(), "hello beautiful world");
}

#[test]
fn test_delete() {
    let mut rope = Rope::from("hello beautiful world");
    let tx = Transaction::delete(21, 5, 15);
    tx.apply(&mut rope);
    assert_eq!(rope.to_string(), "hello world");
}

#[test]
fn test_replace() {
    let mut rope = Rope::from("hello world");
    let tx = Transaction::replace(11, 6, 11, "rust");
    tx.apply(&mut rope);
    assert_eq!(rope.to_string(), "hello rust");
}

#[test]
fn test_invert() {
    let original = Rope::from("hello world");
    let mut rope = original.clone();

    let tx = Transaction::insert(11, 5, " beautiful");
    tx.apply(&mut rope);
    assert_eq!(rope.to_string(), "hello beautiful world");

    let inverse = tx.invert(&original, &Selection::point(0));
    inverse.apply(&mut rope);
    assert_eq!(rope.to_string(), "hello world");
}

#[test]
fn test_changeset_new_len() {
    let cs = ChangeSet::from_change(11, &Change::insert(5, " beautiful"));
    assert_eq!(cs.new_len(), 21);

    let cs = ChangeSet::from_change(21, &Change::delete(5, 15));
    assert_eq!(cs.new_len(), 11);
}

#[test]
fn from_change_has_canonical_shape() {
    let cs = ChangeSet::from_change(11, &Change::replace(6, 11, "rust"));
    assert_eq!(
        cs.ops,
        vec![Operation::Retain(6), Operation::Delete(5), Operation::Insert("rust".to_string())]
    );
    let cs = ChangeSet::from_change(3, &Change::insert(0, "ab"));
    assert_eq!(cs.ops, vec![Operation::Insert("ab".to_string()), Operation::Retain(3)]);
    let cs = ChangeSet::from_change(4, &Change::delete(0, 4));
    assert_eq!(cs.ops, vec![Operation::Delete(4)]);
}

#[test]
fn empty_changeset_is_empty() {
    let cs = ChangeSet::new(5);
    assert!(cs.is_empty());
    assert_eq!(cs.new_len(), 0);
    let mut retain = ChangeSet::new(5);
    retain.ops.push(Operation::Retain(5));
    assert!(retain.is_empty());
    assert_eq!(retain.new_len(), 5);
    let cs = ChangeSet::from_change(5, &Change::insert(2, "x"));
    assert!(!cs.is_empty());
}

#[test]
fn invert_of_delete_restores_text() {
    let original = Rope::from("hello beautiful world");
    let mut rope = original.clone();
    let cs = ChangeSet::from_change(21, &Change::delete(5, 15));
    cs.apply(&mut rope);
    assert_eq!(rope.to_string(), "hello world");
    let inv = cs.invert(&original);
    assert_eq!(inv.doc_len, 11);
    assert_eq!(
        inv.ops,
        vec![Operation::Retain(5), Operation::Insert(" beautiful".to_string()), Operation::Retain(6)]
    );
    inv.apply(&mut rope);
    assert_eq!(rope.to_string(), "hello beautiful world");
}

#[test]
fn invert_of_replace_round_trips() {
    let original = Rope::from("héllo wörld");
    let mut rope = original.clone();
    let cs = ChangeSet::from_change(11, &Change::replace(1, 4, "ÄÖ"));
    cs.apply(&mut rope);
    assert_eq!(rope.to_string(), "hÄÖo wörld");
    cs.invert(&original).apply(&mut rope);
    assert_eq!(rope.to_string(), "héllo wörld");
}

#[test]
fn map_pos_through_insert() {
    let cs = ChangeSet::from_change(11, &Change::insert(5, " beautiful"));
    assert_eq!(cs.map_pos(0), 0);
    assert_eq!(cs.map_pos(4), 4);
    // a cursor at the insertion point moves past the inserted text
    assert_eq!(cs.map_pos(5), 15);
    assert_eq!(cs.map_pos(7), 17);
    assert_eq!(cs.map_pos(11), 21);
}

#[test]
fn map_pos_through_delete() {
    let cs = ChangeSet::from_change(21, &Change::delete(5, 15));
    assert_eq!(cs.map_pos(3), 3);
    // inside the deleted span: collapses to its start
    assert_eq!(cs.map_pos(5), 5);
    assert_eq!(cs.map_pos(10), 5);
    assert_eq!(cs.map_pos(15), 5);
    assert_eq!(cs.map_pos(17), 7);
    assert_eq!(cs.map_pos(21), 11);
}

#[test]
fn map_pos_is_monotonic_on_a_replace() {
    let cs = ChangeSet::from_change(20, &Change::replace(4, 9, "abcdefgh"));
    let mut last = 0;
    for p in 0..=20 {
        let m = cs.map_pos(p);
        assert!(m >= last);
        last = m;
    }
}

#[test]
fn compose_matches_sequential_application() {
    let original = Rope::from("hello world");
    let a = ChangeSet::from_change(11, &Change::insert(5, " beautiful"));
    let b = ChangeSet::from_change(21, &Change::replace(16, 21, "there"));
    let c = a.compose(&b).expect("lengths match");
    assert_eq!(c.doc_len, 11);
    assert_eq!(c.new_len(), 21);

    let mut seq = original.clone();
    a.apply(&mut seq);
    b.apply(&mut seq);
    let mut once = original.clone();
    c.apply(&mut once);
    assert_eq!(seq.to_string(), "hello beautiful there");
    assert_eq!(once.to_string(), seq.to_string());
}

#[test]
fn compose_cancels_insert_then_delete() {
    let original = Rope::from("abc");
    let a = ChangeSet::from_change(3, &Change::insert(1, "XYZ"));
    let b = ChangeSet::from_change(6, &Change::delete(1, 4));
    let c = a.compose(&b).expect("lengths match");
    let mut rope = original.clone();
    c.apply(&mut rope);
    assert_eq!(rope.to_string(), "abc");
    assert!(c.ops.iter().all(|op| !matches!(op, Operation::Insert(_))));
}

#[test]
fn compose_rejects_mismatched_lengths() {
    let a = ChangeSet::from_change(11, &Change::insert(5, " beautiful"));
    let b = ChangeSet::from_change(11, &Change::delete(0, 1));
    assert!(a.compose(&b).is_none());
}

#[test]
fn compose_of_two_multi_edit_changesets() {
    // a: keep 2, delete 2, insert "xy", keep 2, insert "!" (doc 6 -> 7)
    let mut a = ChangeSet::new(6);
    a.ops = vec![
        Operation::Retain(2),
        Operation::Delete(2),
        Operation::Insert("xy".to_string()),
        Operation::Retain(2),
        Operation::Insert("!".to_string()),
    ];
    // b: insert "<", keep 3, delete 2, keep 2 (doc 7 -> 6)
    let mut b = ChangeSet::new(7);
    b.ops = vec![
        Operation::Insert("<".to_string()),
        Operation::Retain(3),
        Operation::Delete(2),
        Operation::Retain(2),
    ];
    let original = Rope::from("abcdef");
    let mut seq = original.clone();
    a.apply(&mut seq);
    assert_eq!(seq.to_string(), "abxyef!");
    b.apply(&mut seq);
    assert_eq!(seq.to_string(), "<abxf!");
    let c = a.compose(&b).expect("lengths match");
    let mut once = original.clone();
    c.apply(&mut once);
    assert_eq!(once.to_string(), "<abxf!");
}

#[test]
fn transaction_is_empty_only_for_retains() {
    let tx = Transaction::new(ChangeSet::new(0));
    assert!(tx.is_empty());
    let tx = Transaction::insert(0, 0, "a");
    assert!(!tx.is_empty());
    let tx = Transaction::delete(3, 1, 1);
    assert!(tx.is_empty());
}
