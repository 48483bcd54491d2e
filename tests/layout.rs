use lite_core::motion::Direction;
use lite_core::{IdGenerator, Layout, Node, Tree, ViewId};

fn ids(n: usize) -> Vec<ViewId> {
    let mut gen = IdGenerator::new();
    (0..n).map(|_| ViewId::next(&mut gen)).collect()
}

#[test]
fn splitting_adds_the_new_view_after_the_focused_one() {
    let v = ids(3);
    let mut tree = Tree::new(v[0]);
    assert_eq!(tree.views(), vec![v[0]]);
    tree.split(v[1], Layout::Vertical);
    assert_eq!(tree.focus(), v[1]);
    tree.set_focus(v[0]);
    tree.split(v[2], Layout::Horizontal);
    assert_eq!(tree.views(), vec![v[0], v[2], v[1]]);
    assert_eq!(tree.focus(), v[2]);
}

#[test]
fn closing_moves_focus_and_keeps_the_last_view() {
    let v = ids(3);
    let mut tree = Tree::new(v[0]);
    assert_eq!(tree.close(v[0]), None);
    tree.split(v[1], Layout::Vertical);
    tree.split(v[2], Layout::Vertical);
    assert_eq!(tree.views(), vec![v[0], v[1], v[2]]);
    assert_eq!(tree.close(v[2]), Some(v[0]));
    assert_eq!(tree.focus(), v[0]);
    assert_eq!(tree.views(), vec![v[0], v[1]]);
    assert_eq!(tree.close(v[0]), Some(v[1]));
    assert_eq!(tree.views(), vec![v[1]]);
    assert_eq!(tree.focus(), v[1]);
}

#[test]
fn cycling_and_directional_focus() {
    let v = ids(3);
    let mut tree = Tree::new(v[0]);
    tree.split(v[1], Layout::Vertical);
    tree.split(v[2], Layout::Vertical);
    tree.focus_next();
    assert_eq!(tree.focus(), v[0]);
    tree.focus_prev();
    assert_eq!(tree.focus(), v[2]);
    assert!(tree.focus_direction(Direction::Left));
    assert_eq!(tree.focus(), v[1]);
    tree.set_focus(v[0]);
    assert!(!tree.focus_direction(Direction::Up));
    assert_eq!(tree.focus(), v[0]);
}

#[test]
fn nodes_list_and_find_their_views() {
    let v = ids(3);
    let inner = Node::container(Layout::Horizontal, vec![Node::leaf(v[1]), Node::leaf(v[2])]);
    let root = Node::container(Layout::Vertical, vec![Node::leaf(v[0]), inner]);
    assert_eq!(root.views(), vec![v[0], v[1], v[2]]);
    assert!(root.contains(v[2]));
    assert_eq!(root.find_sibling(v[0], Direction::Right), Some(v[1]));
    assert_eq!(root.find_sibling(v[2], Direction::Left), Some(v[1]));
    assert_eq!(root.find_sibling(v[1], Direction::Up), None);
}
