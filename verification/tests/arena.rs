use non_layered_tidy_trees::fringe::{max_bottom_between_walk, max_bottom_walk};
use non_layered_tidy_trees::{Arena, NodeId};

/// The tree of the fringe helpers:
///
/// ```text
///                 root
///          /       |      \
///         A        B       C
///       /   \      |
///      A1   A2     B1
/// ```
///
/// with its bookkeeping set up, as a layout leaves it.
fn fringe() -> (Arena<()>, [NodeId; 7]) {
    let mut arena = Arena::new();

    let root = arena.add_node(1, (), false);
    let a = arena.add_node(2, (), false);
    let b = arena.add_node(3, (), false);
    let c = arena.add_node(4, (), false);
    let a1 = arena.add_node(5, (), false);
    let a2 = arena.add_node(6, (), false);
    let b1 = arena.add_node(7, (), false);

    arena.set_children(root, &[a, b, c]);
    arena.set_children(a, &[a1, a2]);
    arena.set_children(b, &[b1]);

    arena.setup(root);

    (arena, [root, a, b, c, a1, a2, b1])
}

#[test]
fn setup_walk_fills_in_the_bookkeeping() {
    let (arena, [root, a, b, c, a1, a2, b1]) = fringe();

    let levels: Vec<usize> = [root, a, b, c, a1, a2, b1]
        .iter()
        .map(|&id| arena.node(id).level)
        .collect();
    assert_eq!(levels, [0, 1, 1, 1, 2, 2, 2]);

    let childnos: Vec<usize> = [a, b, c, a1, a2, b1]
        .iter()
        .map(|&id| arena.node(id).childno)
        .collect();
    assert_eq!(childnos, [0, 1, 2, 0, 1, 0]);

    assert_eq!(arena.node(root).parent, None);
    assert_eq!(arena.node(a2).parent, Some(a));
    assert_eq!(arena.node(b1).parent, Some(b));
}

#[test]
fn setup_twice_is_setup_once() {
    let (once, [root, ..]) = fringe();
    let mut twice = once.clone();
    twice.setup(root);

    for (x, y) in once.iter().iter().zip(twice.iter().iter()) {
        assert_eq!(x.level, y.level);
        assert_eq!(x.childno, y.childno);
        assert_eq!(x.parent, y.parent);
        assert_eq!(x.centeredxy, y.centeredxy);
        assert_eq!(x.children, y.children);
    }
}

#[test]
fn setup_clears_centering_and_leaves_other_trees_alone() {
    let mut arena: Arena<u8> = Arena::new();
    let root = arena.add_node(1, 7, false);
    let kid = arena.add_node(2, 8, true);
    let stray = arena.add_node(3, 9, false);
    arena.push_child(root, kid);
    arena.node_mut(kid).centeredxy = true;
    arena.node_mut(stray).centeredxy = true;
    arena.node_mut(stray).level = 5;

    arena.setup(root);

    assert!(!arena.node(kid).centeredxy);
    assert_eq!(arena.node(kid).level, 1);
    assert_eq!(arena.node(kid).geo, 8);
    assert!(arena.node(kid).isdummy);
    assert!(arena.node(stray).centeredxy, "a node outside the tree was written");
    assert_eq!(arena.node(stray).level, 5);
    assert_eq!(arena.node(stray).parent, None);
}

#[test]
fn a_shared_node_keeps_its_last_visit() {
    // `shared` hangs under both `left` and `right`: it is visited twice, and the visit
    // under `right`, which comes last in preorder, is the one that stays.
    let mut arena: Arena<()> = Arena::new();
    let root = arena.add_node(1, (), false);
    let left = arena.add_node(2, (), false);
    let right = arena.add_node(3, (), false);
    let pad = arena.add_node(4, (), false);
    let shared = arena.add_node(5, (), false);
    arena.set_children(root, &[left, right]);
    arena.set_children(left, &[shared]);
    arena.set_children(right, &[pad, shared]);

    arena.setup(root);

    assert_eq!(arena.node(shared).parent, Some(right));
    assert_eq!(arena.node(shared).childno, 1);
    assert_eq!(arena.node(shared).level, 2);
}

#[test]
fn preorder_of_the_fringe() {
    let (arena, [root, a, b, c, a1, a2, b1]) = fringe();
    assert_eq!(arena.preorder(root), vec![root, a, a1, a2, b, b1, c]);
    assert_eq!(arena.preorder(b), vec![b, b1]);
    assert_eq!(arena.preorder(c), vec![c]);
}

#[test]
fn building_an_arena() {
    let mut arena: Arena<u32> = Arena::with_capacity(4);
    assert!(arena.is_empty());

    let x = arena.add_node(10, 100, false);
    let y = arena.add_node(11, 101, true);
    let z = arena.add_node(12, 102, false);
    assert_eq!(arena.len(), 3);
    assert!(!arena.is_empty());
    assert_eq!((x.index(), y.index(), z.index()), (0, 1, 2));

    arena.push_child(x, y);
    arena.push_child(x, z);
    assert_eq!(arena.children(x), &[y, z]);
    assert_eq!(arena.node(x).children(), &[y, z]);

    arena.set_children(x, &[z]);
    assert_eq!(arena.children(x), &[z]);
    assert!(arena.children(y).is_empty());

    let node = arena.node(y);
    assert_eq!((node.idx, node.geo, node.isdummy), (11, 101, true));
    assert_eq!((node.level, node.childno, node.centeredxy, node.parent), (0, 0, false, None));

    let labels: Vec<usize> = arena.iter().iter().map(|n| n.idx).collect();
    assert_eq!(labels, [10, 11, 12]);
}

fn walk(arena: &Arena<()>, t: NodeId, to: NodeId, found: bool) -> (Vec<NodeId>, bool) {
    let mut found = found;
    let mut out = Vec::new();
    max_bottom_walk(arena, t, to, &mut found, &mut out);
    (out, found)
}

fn between(arena: &Arena<()>, from: NodeId, to: NodeId) -> Vec<NodeId> {
    let mut out = Vec::new();
    max_bottom_between_walk(arena, from, to, &mut out);
    out
}

#[test]
fn max_bottom_walk_stops_at_its_target() {
    let (arena, [root, a, b, c, a1, a2, b1]) = fringe();

    // B1, the deepest node, is met before C
    assert_eq!(walk(&arena, root, c, false), (vec![root, a, a1, a2, b, b1], true));

    // the walk stops as soon as `to` is a child, before looking any deeper
    assert_eq!(walk(&arena, a, a2, false), (vec![a, a1], true));

    assert_eq!(walk(&arena, root, b1, false), (vec![root, a, a1, a2, b], true));
}

#[test]
fn max_bottom_walk_of_a_subtree_that_does_not_hold_its_target() {
    let (arena, [_root, _a, b, c, _a1, _a2, b1]) = fringe();
    assert_eq!(walk(&arena, b, c, false), (vec![b, b1], false), "`c` is not below `b`");
}

#[test]
fn max_bottom_walk_looks_no_further_once_found() {
    let (arena, [root, _a, _b, c, ..]) = fringe();
    assert_eq!(walk(&arena, root, c, true), (vec![root], true));
    // `to` is only ever looked for below `t`
    assert_eq!(walk(&arena, c, c, false), (vec![c], false));
}

#[test]
fn max_bottom_between_walk_climbs_until_it_meets_its_target() {
    let (arena, [root, a, b, c, a1, a2, b1]) = fringe();

    assert_eq!(between(&arena, a1, c), vec![a2, b, b1], "A2 is passed on the way up, then B");
    assert_eq!(between(&arena, a, c), vec![b, b1], "B lies between A and C");
    assert_eq!(between(&arena, a, b), Vec::<NodeId>::new(), "nothing lies between two adjacent siblings");
    assert_eq!(between(&arena, root, c), Vec::<NodeId>::new(), "the root has no sibling to walk");
    // without meeting `to`, the climb goes on to the root
    assert_eq!(between(&arena, a1, a1), vec![a2, b, b1, c]);
}

#[test]
fn the_root_of_a_setup_has_no_parent() {
    let (mut arena, [root, a, b, _c, a1, a2, _b1]) = fringe();

    // set up again from `b`, the second child of the root
    arena.setup(b);
    assert_eq!(arena.node(b).parent, None);
    assert_eq!(arena.node(b).childno, 0);
    assert_eq!(arena.node(b).level, 0);
    assert_eq!(arena.node(arena.children(b)[0]).level, 1);

    // what lies outside the subtree of `b` keeps what the first setup gave it
    assert_eq!(arena.node(a).parent, Some(root));
    assert_eq!(arena.node(a2).childno, 1);
    assert_eq!(arena.node(a1).level, 2);
}
