use lite_core::{Range, Selection};

#[test]
fn test_range_basics() {
    let r = Range::new(5, 10);
    assert_eq!(r.start(), 5);
    assert_eq!(r.end(), 10);
    assert_eq!(r.len(), 5);
    assert!(!r.is_point());
}

#[test]
fn test_range_point() {
    let r = Range::point(5);
    assert_eq!(r.anchor, 5);
    assert_eq!(r.head, 5);
    assert!(r.is_point());
}

#[test]
fn test_range_overlap() {
    let r1 = Range::new(0, 5);
    let r2 = Range::new(3, 8);
    let r3 = Range::new(10, 15);

    assert!(r1.overlaps(&r2));
    assert!(!r1.overlaps(&r3));
}

#[test]
fn test_selection_normalize() {
    let sel = Selection::new(vec![Range::new(10, 15), Range::new(0, 5), Range::new(3, 8)], 0);

    // Should be sorted and merged: [0, 8) and [10, 15)
    assert_eq!(sel.len(), 2);
    assert_eq!(sel.ranges()[0], Range::new(0, 8));
    assert_eq!(sel.ranges()[1], Range::new(10, 15));
}

#[test]
fn test_selection_add_cursor() {
    let mut sel = Selection::point(0);
    sel.add_cursor(10);
    assert_eq!(sel.len(), 2);
}

#[test]
fn backward_range_bounds_and_direction() {
    let r = Range::new(9, 4);
    assert_eq!(r.start(), 4);
    assert_eq!(r.end(), 9);
    assert_eq!(r.direction(), -1);
    assert_eq!(Range::new(4, 9).direction(), 1);
    assert_eq!(Range::point(4).direction(), 0);
    assert_eq!(r.flip(), Range::new(4, 9));
    assert_eq!(r.collapse(), Range::point(4));
    assert_eq!(r.extend_to(12), Range::new(9, 12));
    assert!(r.contains(4));
    assert!(!r.contains(9));
}

#[test]
fn merge_of_touching_and_apart_ranges() {
    assert_eq!(Range::new(0, 5).merge(&Range::new(5, 7)), Some(Range::new(0, 7)));
    assert_eq!(Range::new(8, 2).merge(&Range::new(3, 4)), Some(Range::new(2, 8)));
    assert_eq!(Range::new(0, 5).merge(&Range::new(6, 7)), None);
}

#[test]
fn translate_saturates() {
    assert_eq!(Range::new(3, 5).translate(-4), Range::new(0, 1));
    assert_eq!(Range::new(3, 5).translate(2), Range::new(5, 7));
    assert_eq!(Range::new(usize::MAX - 1, 1).translate(5), Range::new(usize::MAX, 6));
    assert_eq!(Range::new(3, 5).translate(isize::MIN), Range::new(0, 0));
}

#[test]
fn normalize_is_idempotent() {
    let mut sel = Selection::new(vec![Range::new(10, 15), Range::new(0, 5), Range::new(3, 8)], 1);
    let before: Vec<Range> = sel.ranges().to_vec();
    let primary = sel.primary_idx();
    sel.normalize();
    assert_eq!(sel.ranges(), &before[..]);
    assert_eq!(sel.primary_idx(), primary);
}

#[test]
fn normalize_keeps_covered_offsets() {
    let input = vec![Range::new(7, 4), Range::new(12, 20), Range::new(1, 2), Range::new(19, 25), Range::new(2, 3)];
    let sel = Selection::new(input.clone(), 0);
    for x in 0..30usize {
        let before = input.iter().any(|r| r.contains(x));
        let after = sel.ranges().iter().any(|r| r.contains(x));
        assert_eq!(before, after, "offset {}", x);
    }
    for w in sel.ranges().windows(2) {
        assert!(w[0].end() < w[1].start());
    }
    assert_eq!(sel.ranges(), &[Range::new(1, 3), Range::new(7, 4), Range::new(12, 25)][..]);
}

#[test]
fn empty_input_gives_point_at_zero() {
    let sel = Selection::new(Vec::new(), 3);
    assert_eq!(sel.ranges(), &[Range::point(0)][..]);
    assert_eq!(sel.primary_idx(), 0);
    assert!(!sel.is_empty());
}

#[test]
fn add_cursor_inside_range_merges() {
    let mut sel = Selection::single(Range::new(0, 5));
    sel.add_cursor(3);
    assert_eq!(sel.len(), 1);
    assert_eq!(sel.ranges()[0], Range::new(0, 5));
}

#[test]
fn primary_follows_its_head_after_merge() {
    let mut sel = Selection::new(vec![Range::new(0, 2), Range::new(10, 12)], 1);
    assert_eq!(sel.cursor(), 12);
    sel.add_range(Range::new(11, 14));
    assert_eq!(sel.ranges(), &[Range::new(0, 2), Range::new(10, 14)][..]);
    assert_eq!(sel.primary_idx(), 1);
}

#[test]
fn primary_index_is_clamped() {
    let mut sel = Selection::new(vec![Range::new(0, 2), Range::new(5, 6)], 9);
    assert_eq!(sel.primary_idx(), 1);
    sel.set_primary_idx(0);
    assert_eq!(sel.primary(), Range::new(0, 2));
    sel.set_primary_idx(7);
    assert_eq!(sel.primary_idx(), 1);
}

#[test]
fn collapse_and_transform() {
    let sel = Selection::new(vec![Range::new(0, 3), Range::new(6, 9)], 1);
    assert!(sel.has_selection());
    let c = sel.collapse();
    assert_eq!(c.ranges(), &[Range::point(3), Range::point(9)][..]);
    assert!(!c.has_selection());
    let shifted = sel.transform(|r| r.translate(2));
    assert_eq!(shifted.ranges(), &[Range::new(2, 5), Range::new(8, 11)][..]);
    let single = sel.into_single();
    assert_eq!(single.ranges(), &[Range::new(6, 9)][..]);
}

#[test]
fn replace_renormalizes() {
    let mut sel = Selection::point(4);
    sel.replace(vec![Range::new(5, 8), Range::new(8, 9)]);
    assert_eq!(sel.ranges(), &[Range::new(5, 9)][..]);
}
