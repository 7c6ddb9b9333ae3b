use arena_trees::{NodeArena, NodeLink, TraversalOrder, TreeError};

/// root 0 with the children a = 1, b = 2, c = 3; a has a1 = 4 and a2 = 5,
/// b has b1 = 6, and a1 has x = 7.
fn sample() -> NodeArena<&'static str> {
    let mut tree = NodeArena::new("r", 8);
    assert_eq!(tree.insert_child_right(0, "a"), Ok(1));
    assert_eq!(tree.insert_child_right(0, "b"), Ok(2));
    assert_eq!(tree.insert_child_right(0, "c"), Ok(3));
    assert_eq!(tree.insert_child_right(1, "a1"), Ok(4));
    assert_eq!(tree.insert_child_right(1, "a2"), Ok(5));
    assert_eq!(tree.insert_child_right(2, "b1"), Ok(6));
    assert_eq!(tree.insert_child_right(4, "x"), Ok(7));
    tree
}

fn link(
    parent: Option<usize>,
    left: Option<usize>,
    right: Option<usize>,
    first: Option<usize>,
    last: Option<usize>,
) -> NodeLink {
    NodeLink {
        parent,
        left_sibling: left,
        right_sibling: right,
        first_child: first,
        last_child: last,
    }
}

/// Holds every live node of the tree to the rules on links: each node but the
/// root stands once among the children of its parent, and the sibling links
/// of neighbours agree.
fn check_links(tree: &NodeArena<&'static str>) {
    let all = tree.descendants(0, false).unwrap();
    assert_eq!(all.len() + tree.vacant(), tree.slots());
    for &id in &all {
        let l = tree.get(id).unwrap().link;
        assert_eq!(l.parent.is_none(), id == 0);
        assert_eq!(l.first_child.is_none(), l.last_child.is_none());
        if let Some(p) = l.parent {
            let row = tree.children(p, false).unwrap();
            assert_eq!(row.iter().filter(|&&c| c == id).count(), 1);
        }
        if let Some(r) = l.right_sibling {
            assert_eq!(tree.get(r).unwrap().link.left_sibling, Some(id));
            assert_eq!(tree.get(r).unwrap().link.parent, l.parent);
        }
        if let Some(r) = l.left_sibling {
            assert_eq!(tree.get(r).unwrap().link.right_sibling, Some(id));
        }
        let row = tree.children(id, false).unwrap();
        assert_eq!(l.first_child, row.first().copied());
        assert_eq!(l.last_child, row.last().copied());
        let mut back = tree.children(id, true).unwrap();
        back.reverse();
        assert_eq!(back, row);
    }
}

#[test]
fn new_arena_holds_the_root_alone() {
    let tree = NodeArena::new("r", 0);
    assert_eq!(tree.root(), 0);
    assert_eq!(tree.slots(), 1);
    assert_eq!(tree.vacant(), 0);
    assert!(tree.contains(0));
    assert!(!tree.contains(1));
    assert!(tree.is_root(0));
    assert!(!tree.is_root(1));
    assert!(tree.is_leaf(0));
    assert!(!tree.is_leaf(1));
    let slot = tree.get(0).unwrap();
    assert_eq!(slot.data, "r");
    assert_eq!(slot.link, NodeLink::default());
    assert_eq!(slot.link, link(None, None, None, None, None));
    assert!(matches!(tree.get(1), Err(TreeError::MissingCurrentNode)));
}

#[test]
fn capacity_has_no_effect_on_the_tree() {
    let mut small = NodeArena::new(1u8, 0);
    let mut large = NodeArena::new(1u8, 1000);
    assert_eq!(small.insert_child_right(0, 2), large.insert_child_right(0, 2));
    assert_eq!(small.slots(), large.slots());
    assert_eq!(small.get(1).unwrap().link, large.get(1).unwrap().link);
}

#[test]
fn links_of_the_sample_tree() {
    let tree = sample();
    assert_eq!(tree.get(0).unwrap().link, link(None, None, None, Some(1), Some(3)));
    assert_eq!(tree.get(1).unwrap().link, link(Some(0), None, Some(2), Some(4), Some(5)));
    assert_eq!(tree.get(2).unwrap().link, link(Some(0), Some(1), Some(3), Some(6), Some(6)));
    assert_eq!(tree.get(3).unwrap().link, link(Some(0), Some(2), None, None, None));
    assert_eq!(tree.get(7).unwrap().link, link(Some(4), None, None, None, None));
    assert_eq!(tree.get(5).unwrap().data, "a2");
    check_links(&tree);
}

#[test]
fn children_come_in_the_order_of_insertion() {
    let mut tree = NodeArena::new("R", 0);
    let a = tree.insert_child_right(0, "a").unwrap();
    let b = tree.insert_child_right(0, "b").unwrap();
    let c = tree.insert_child_right(0, "c").unwrap();
    assert_eq!(tree.children(0, false), Ok(vec![a, b, c]));
    assert_eq!(tree.children(0, true), Ok(vec![c, b, a]));
    assert_eq!(tree.count_children(0), Ok(3));
    assert_eq!(tree.first_child(0), Ok(Some(a)));
    assert_eq!(tree.last_child(0), Ok(Some(c)));
}

#[test]
fn children_added_on_the_left_come_in_the_opposite_order() {
    let mut tree = NodeArena::new("R", 0);
    let a = tree.insert_child_left(0, "a").unwrap();
    let b = tree.insert_child_left(0, "b").unwrap();
    let c = tree.insert_child_left(0, "c").unwrap();
    assert_eq!(tree.children(0, false), Ok(vec![c, b, a]));
    assert_eq!(tree.get(b).unwrap().link, link(Some(0), Some(c), Some(a), None, None));
    check_links(&tree);
}

#[test]
fn siblings_are_put_beside_their_anchor() {
    let mut tree = NodeArena::new("R", 0);
    let n = tree.insert_child_right(0, "x").unwrap();
    let y = tree.insert_after(n, "y").unwrap();
    let z = tree.insert_before(n, "z").unwrap();
    assert_eq!(tree.children(0, false), Ok(vec![z, n, y]));
    let m = tree.insert_after(n, "m").unwrap();
    let k = tree.insert_before(n, "k").unwrap();
    assert_eq!(tree.children(0, false), Ok(vec![z, k, n, m, y]));
    assert_eq!(tree.get(n).unwrap().link, link(Some(0), Some(k), Some(m), None, None));
    assert_eq!(tree.get(0).unwrap().link, link(None, None, None, Some(z), Some(y)));
    check_links(&tree);
}

#[test]
fn create_child_makes_an_only_child_of_a_leaf() {
    let mut tree = NodeArena::new("R", 0);
    let c = tree.create_child("c", 0).unwrap();
    assert_eq!(tree.get(c).unwrap().link, NodeLink::new(0));
    assert_eq!(tree.get(0).unwrap().link, link(None, None, None, Some(c), Some(c)));
    assert_eq!(tree.create_child("d", 9), Err(TreeError::MissingCurrentNode));
    let d = tree.create_child("d", 0).unwrap();
    assert_eq!(tree.children(0, false), Ok(vec![c, d]));
}

#[test]
fn the_root_has_neither_sibling_nor_parent() {
    let mut tree = sample();
    assert_eq!(tree.insert_after(0, "s"), Err(TreeError::RootSiblingOperation));
    assert_eq!(tree.insert_before(0, "s"), Err(TreeError::RootSiblingOperation));
    assert_eq!(tree.parent(0), Err(TreeError::MissingParentNode));
    assert_eq!(tree.left_sibling(0), Ok(None));
    assert_eq!(tree.right_sibling(0), Ok(None));
    assert_eq!(tree.first_sibling(0), Ok(0));
    assert_eq!(tree.last_sibling(0), Ok(0));
    assert_eq!(tree.siblings(0, false), Ok(vec![0]));
    assert_eq!(tree.siblings(0, true), Ok(vec![0]));
    assert_eq!(tree.is_alone(0), Ok(true));
    assert_eq!(tree.slots(), 8);
    check_links(&tree);
}

#[test]
fn a_missing_node_is_an_error() {
    let mut tree = sample();
    let e = Err(TreeError::MissingCurrentNode);
    assert_eq!(tree.insert_child_left(8, "n"), e);
    assert_eq!(tree.insert_child_right(8, "n"), e);
    assert_eq!(tree.insert_after(8, "n"), e);
    assert_eq!(tree.insert_before(8, "n"), e);
    assert_eq!(tree.parent(8), e);
    assert_eq!(tree.left_sibling(8), Err(TreeError::MissingCurrentNode));
    assert_eq!(tree.right_sibling(8), Err(TreeError::MissingCurrentNode));
    assert_eq!(tree.first_child(8), Err(TreeError::MissingCurrentNode));
    assert_eq!(tree.last_child(8), Err(TreeError::MissingCurrentNode));
    assert_eq!(tree.first_sibling(8), e);
    assert_eq!(tree.last_sibling(8), e);
    assert_eq!(tree.is_alone(8), Err(TreeError::MissingCurrentNode));
    assert_eq!(tree.is_leftmost(8), Err(TreeError::MissingCurrentNode));
    assert_eq!(tree.is_rightmost(8), Err(TreeError::MissingCurrentNode));
    assert_eq!(tree.has_child(8), Err(TreeError::MissingCurrentNode));
    assert_eq!(tree.count_children(8), e);
    assert_eq!(tree.children(8, false), Err(TreeError::MissingCurrentNode));
    assert_eq!(tree.siblings(8, false), Err(TreeError::MissingCurrentNode));
    assert_eq!(tree.left_siblings(8, true), Err(TreeError::MissingCurrentNode));
    assert_eq!(tree.right_siblings(8, true), Err(TreeError::MissingCurrentNode));
    assert_eq!(tree.ancestor(8, true), Err(TreeError::MissingCurrentNode));
    assert_eq!(tree.descendants(8, false), Err(TreeError::MissingCurrentNode));
    assert_eq!(tree.take(8), Err(TreeError::MissingCurrentNode));
    let mut other = "o";
    assert_eq!(tree.swap(8, &mut other), Err(TreeError::MissingCurrentNode));
    assert_eq!(other, "o");
    assert!(matches!(tree.get_mut(8), Err(TreeError::MissingCurrentNode)));
    assert!(matches!(
        tree.delete_current(8, TraversalOrder::DepthFirst),
        Err(TreeError::MissingCurrentNode)
    ));
    assert!(matches!(
        tree.delete_children(8, TraversalOrder::DepthFirst),
        Err(TreeError::MissingCurrentNode)
    ));
    assert!(matches!(
        tree.delete_siblings(8, TraversalOrder::DepthFirst),
        Err(TreeError::MissingCurrentNode)
    ));
    assert!(matches!(tree.delete_left(8, 1), Err(TreeError::MissingCurrentNode)));
    assert!(matches!(tree.delete_right(8, 1), Err(TreeError::MissingCurrentNode)));
    assert_eq!(tree.slots(), 8);
    check_links(&tree);
}

#[test]
fn navigation_in_the_sample_tree() {
    let tree = sample();
    assert_eq!(tree.parent(7), Ok(4));
    assert_eq!(tree.parent(2), Ok(0));
    assert_eq!(tree.left_sibling(2), Ok(Some(1)));
    assert_eq!(tree.right_sibling(2), Ok(Some(3)));
    assert_eq!(tree.left_sibling(1), Ok(None));
    assert_eq!(tree.right_sibling(3), Ok(None));
    assert_eq!(tree.first_sibling(3), Ok(1));
    assert_eq!(tree.last_sibling(1), Ok(3));
    assert_eq!(tree.first_sibling(7), Ok(7));
    assert_eq!(tree.first_child(1), Ok(Some(4)));
    assert_eq!(tree.last_child(1), Ok(Some(5)));
    assert_eq!(tree.first_child(3), Ok(None));
    assert_eq!(tree.is_leftmost(1), Ok(true));
    assert_eq!(tree.is_leftmost(2), Ok(false));
    assert_eq!(tree.is_rightmost(3), Ok(true));
    assert_eq!(tree.is_rightmost(2), Ok(false));
    assert_eq!(tree.is_alone(7), Ok(true));
    assert_eq!(tree.is_alone(4), Ok(false));
    assert_eq!(tree.has_child(2), Ok(true));
    assert_eq!(tree.has_child(3), Ok(false));
    assert_eq!(tree.count_children(1), Ok(2));
    assert_eq!(tree.count_children(7), Ok(0));
    assert!(tree.is_leaf(7));
    assert!(!tree.is_leaf(4));
}

#[test]
fn rows_of_siblings() {
    let tree = sample();
    assert_eq!(tree.siblings(2, false), Ok(vec![1, 2, 3]));
    assert_eq!(tree.siblings(2, true), Ok(vec![3, 2, 1]));
    assert_eq!(tree.left_siblings(3, false), Ok(vec![2, 1]));
    assert_eq!(tree.left_siblings(3, true), Ok(vec![3, 2, 1]));
    assert_eq!(tree.left_siblings(1, false), Ok(vec![]));
    assert_eq!(tree.right_siblings(1, false), Ok(vec![2, 3]));
    assert_eq!(tree.right_siblings(1, true), Ok(vec![1, 2, 3]));
    assert_eq!(tree.right_siblings(3, false), Ok(vec![]));
    assert_eq!(tree.left_siblings(0, true), Ok(vec![0]));
    assert_eq!(tree.left_siblings(0, false), Ok(vec![]));
    assert_eq!(tree.right_siblings(0, true), Ok(vec![0]));
    assert_eq!(tree.right_siblings(0, false), Ok(vec![]));
}

#[test]
fn the_way_up_has_one_node_more_than_the_depth() {
    let mut tree = sample();
    let deep = tree.insert_child_right(7, "deep").unwrap();
    assert_eq!(tree.ancestor(deep, true), Ok(vec![deep, 7, 4, 1, 0]));
    assert_eq!(tree.ancestor(deep, false), Ok(vec![7, 4, 1, 0]));
    assert_eq!(tree.ancestor(deep, true).unwrap().len(), 4 + 1);
    assert_eq!(tree.ancestor(0, true), Ok(vec![0]));
    assert_eq!(tree.ancestor(0, false), Ok(vec![]));
}

#[test]
fn descendants_come_parents_first() {
    let tree = sample();
    assert_eq!(tree.descendants(0, false), Ok(vec![0, 1, 4, 7, 5, 2, 6, 3]));
    assert_eq!(tree.descendants(0, true), Ok(vec![3, 6, 2, 5, 7, 4, 1, 0]));
    assert_eq!(tree.descendants(1, false), Ok(vec![1, 4, 7, 5]));
    assert_eq!(tree.descendants(1, true), Ok(vec![5, 7, 4, 1]));
    assert_eq!(tree.descendants(3, false), Ok(vec![3]));
}

#[test]
fn the_steps_of_a_walk_give_the_descendants() {
    let tree = sample();
    let mut pending = vec![0];
    let mut seen = Vec::new();
    while let Some(n) = tree.descend(&mut pending) {
        seen.push(n);
    }
    assert_eq!(Ok(seen), tree.descendants(0, false));
    let mut pending = vec![(1, false)];
    let mut seen = Vec::new();
    while let Some(n) = tree.ascend(&mut pending) {
        seen.push(n);
    }
    assert_eq!(Ok(seen), tree.descendants(1, true));
    let mut pending = vec![9, 3, 8];
    assert_eq!(tree.descend(&mut pending), Some(3));
    assert_eq!(tree.descend(&mut pending), None);
    let mut pending = vec![(3, true), (9, false), (9, true)];
    assert_eq!(tree.ascend(&mut pending), Some(3));
    assert_eq!(tree.ascend(&mut pending), None);
    let mut pending = vec![(2, false)];
    assert_eq!(tree.ascend(&mut pending), Some(6));
    assert_eq!(pending, vec![(2, true)]);
    let mut pending = vec![1];
    assert_eq!(tree.descend(&mut pending), Some(1));
    assert_eq!(pending, vec![5, 4]);
}

#[test]
fn take_leaves_the_default_and_swap_exchanges() {
    let mut tree = NodeArena::new(String::from("x"), 0);
    assert_eq!(tree.take(0), Ok(String::from("x")));
    assert_eq!(tree.get(0).unwrap().data, "");
    let mut y = String::from("y");
    tree.swap(0, &mut y).unwrap();
    assert_eq!(y, "");
    assert_eq!(tree.get(0).unwrap().data, "y");
    let mut z = String::from("z");
    assert_eq!(tree.swap(0, &mut z), Ok(()));
    assert_eq!(z, "y");
    assert_eq!(tree.take(0), Ok(String::from("z")));
}

#[test]
fn get_mut_writes_to_one_slot() {
    let mut tree = sample();
    tree.get_mut(5).unwrap().data = "new";
    assert_eq!(tree.get(5).unwrap().data, "new");
    assert_eq!(tree.get(4).unwrap().data, "a1");
    assert_eq!(tree.get(5).unwrap().link, link(Some(1), Some(4), None, None, None));
    check_links(&tree);
}

#[test]
fn deleting_an_only_leaf_leaves_its_parent_a_leaf() {
    let mut tree = NodeArena::new("p", 0);
    let leaf = tree.insert_child_right(0, "payload").unwrap();
    let out = tree.delete_current(leaf, TraversalOrder::DepthFirst).unwrap();
    assert_eq!(out.rest, Some(0));
    assert_eq!(out.data, vec!["payload"]);
    assert_eq!(tree.first_child(0), Ok(None));
    assert_eq!(tree.last_child(0), Ok(None));
    assert!(!tree.contains(leaf));
    assert!(tree.is_leaf(0));
    assert_eq!(tree.vacant(), 1);
    check_links(&tree);
}

#[test]
fn delete_current_depth_first() {
    let mut tree = sample();
    let out = tree.delete_current(1, TraversalOrder::DepthFirst).unwrap();
    assert_eq!(out.rest, Some(0));
    assert_eq!(out.data, vec!["a", "a1", "x", "a2"]);
    assert_eq!(tree.children(0, false), Ok(vec![2, 3]));
    assert_eq!(tree.get(2).unwrap().link, link(Some(0), None, Some(3), Some(6), Some(6)));
    for gone in [1, 4, 5, 7] {
        assert!(!tree.contains(gone));
    }
    assert_eq!(tree.slots(), 8);
    assert_eq!(tree.vacant(), 4);
    check_links(&tree);
    assert_eq!(tree.insert_child_right(3, "n1"), Ok(1));
    assert_eq!(tree.insert_child_right(3, "n2"), Ok(4));
    assert_eq!(tree.insert_child_right(3, "n3"), Ok(7));
    assert_eq!(tree.insert_child_right(3, "n4"), Ok(5));
    assert_eq!(tree.insert_child_right(3, "n5"), Ok(8));
    assert_eq!(tree.slots(), 9);
    check_links(&tree);
}

#[test]
fn delete_current_breadth_first() {
    let mut tree = sample();
    let out = tree.delete_current(1, TraversalOrder::BreadthFirst).unwrap();
    assert_eq!(out.rest, Some(0));
    assert_eq!(out.data, vec!["a", "a1", "a2", "x"]);
    assert_eq!(tree.children(0, false), Ok(vec![2, 3]));
    check_links(&tree);
    assert_eq!(tree.insert_child_right(0, "n1"), Ok(1));
    assert_eq!(tree.insert_child_right(0, "n2"), Ok(4));
    assert_eq!(tree.insert_child_right(0, "n3"), Ok(5));
    assert_eq!(tree.insert_child_right(0, "n4"), Ok(7));
    check_links(&tree);
}

#[test]
fn delete_current_in_the_middle_joins_the_neighbours() {
    let mut tree = sample();
    let out = tree.delete_current(2, TraversalOrder::DepthFirst).unwrap();
    assert_eq!(out.rest, Some(0));
    assert_eq!(out.data, vec!["b", "b1"]);
    assert_eq!(tree.children(0, false), Ok(vec![1, 3]));
    assert_eq!(tree.right_sibling(1), Ok(Some(3)));
    assert_eq!(tree.left_sibling(3), Ok(Some(1)));
    check_links(&tree);
    let out = tree.delete_current(3, TraversalOrder::BreadthFirst).unwrap();
    assert_eq!(out.data, vec!["c"]);
    assert_eq!(tree.get(0).unwrap().link, link(None, None, None, Some(1), Some(1)));
    check_links(&tree);
}

#[test]
fn the_root_is_never_removed() {
    let mut tree = sample();
    let out = tree.delete_current(0, TraversalOrder::DepthFirst).unwrap();
    assert_eq!(out.rest, None);
    assert_eq!(out.data, vec!["a", "a1", "x", "a2", "b", "b1", "c"]);
    assert!(tree.contains(0));
    assert_eq!(tree.get(0).unwrap().data, "r");
    assert_eq!(tree.get(0).unwrap().link, NodeLink::default());
    assert_eq!(tree.vacant(), 7);
    check_links(&tree);
    assert!(matches!(tree.free(0), Err(TreeError::MissingParentNode)));
    assert!(tree.contains(0));
}

#[test]
fn delete_children_in_both_orders() {
    let mut tree = sample();
    let out = tree.delete_children(0, TraversalOrder::BreadthFirst).unwrap();
    assert_eq!(out.rest, Some(0));
    assert_eq!(out.data, vec!["a", "b", "c", "a1", "a2", "b1", "x"]);
    assert!(tree.is_leaf(0));
    check_links(&tree);
    let mut tree = sample();
    let out = tree.delete_children(1, TraversalOrder::DepthFirst).unwrap();
    assert_eq!(out.rest, Some(1));
    assert_eq!(out.data, vec!["a1", "x", "a2"]);
    assert!(tree.is_leaf(1));
    assert_eq!(tree.children(0, false), Ok(vec![1, 2, 3]));
    check_links(&tree);
    let out = tree.delete_children(3, TraversalOrder::DepthFirst).unwrap();
    assert_eq!(out.rest, Some(3));
    assert!(out.data.is_empty());
}

#[test]
fn delete_siblings_in_both_orders() {
    let mut tree = sample();
    let out = tree.delete_siblings(2, TraversalOrder::DepthFirst).unwrap();
    assert_eq!(out.rest, Some(2));
    assert_eq!(out.data, vec!["a", "a1", "x", "a2", "c"]);
    assert_eq!(tree.children(0, false), Ok(vec![2]));
    assert_eq!(tree.is_alone(2), Ok(true));
    assert_eq!(tree.children(2, false), Ok(vec![6]));
    check_links(&tree);
    let mut tree = sample();
    let out = tree.delete_siblings(3, TraversalOrder::BreadthFirst).unwrap();
    assert_eq!(out.data, vec!["a", "b", "a1", "a2", "b1", "x"]);
    assert_eq!(tree.children(0, false), Ok(vec![3]));
    check_links(&tree);
    let out = tree.delete_siblings(0, TraversalOrder::BreadthFirst).unwrap();
    assert_eq!(out.rest, Some(0));
    assert!(out.data.is_empty());
    assert_eq!(tree.children(0, false), Ok(vec![3]));
}

#[test]
fn delete_left_takes_the_nearest_first() {
    let mut tree = sample();
    let out = tree.delete_left(3, 1).unwrap();
    assert_eq!(out.rest, Some(1));
    assert_eq!(out.data, vec!["b", "b1"]);
    assert_eq!(tree.children(0, false), Ok(vec![1, 3]));
    check_links(&tree);
    let mut tree = sample();
    let out = tree.delete_left(3, 5).unwrap();
    assert_eq!(out.rest, None);
    assert_eq!(out.data, vec!["b", "b1", "a", "a1", "x", "a2"]);
    assert_eq!(tree.children(0, false), Ok(vec![3]));
    check_links(&tree);
    let out = tree.delete_left(3, 2).unwrap();
    assert_eq!(out.rest, None);
    assert!(out.data.is_empty());
    let mut tree = sample();
    let out = tree.delete_left(3, 0).unwrap();
    assert_eq!(out.rest, Some(2));
    assert!(out.data.is_empty());
    let out = tree.delete_left(0, 3).unwrap();
    assert_eq!(out.rest, None);
    assert!(out.data.is_empty());
    assert_eq!(tree.vacant(), 0);
}

#[test]
fn delete_right_takes_the_nearest_first() {
    let mut tree = sample();
    let out = tree.delete_right(1, 1).unwrap();
    assert_eq!(out.rest, Some(3));
    assert_eq!(out.data, vec!["b", "b1"]);
    assert_eq!(tree.children(0, false), Ok(vec![1, 3]));
    check_links(&tree);
    let mut tree = sample();
    let out = tree.delete_right(1, usize::MAX).unwrap();
    assert_eq!(out.rest, None);
    assert_eq!(out.data, vec!["b", "b1", "c"]);
    assert_eq!(tree.children(0, false), Ok(vec![1]));
    assert_eq!(tree.children(1, false), Ok(vec![4, 5]));
    check_links(&tree);
    let out = tree.delete_right(0, 1).unwrap();
    assert_eq!(out.rest, None);
    assert!(out.data.is_empty());
}

#[test]
fn a_reused_slot_keeps_nothing_of_the_old_node() {
    let mut tree = sample();
    tree.delete_current(2, TraversalOrder::DepthFirst).unwrap();
    let n = tree.insert_child_left(7, "fresh").unwrap();
    assert_eq!(n, 2);
    assert_eq!(tree.get(2).unwrap().link, NodeLink::new(7));
    assert_eq!(tree.get(2).unwrap().data, "fresh");
    assert_eq!(tree.children(2, false), Ok(vec![]));
    assert_eq!(tree.children(0, false), Ok(vec![1, 3]));
    let m = tree.insert_child_left(7, "next").unwrap();
    assert_eq!(m, 6);
    assert_eq!(tree.get(6).unwrap().link, link(Some(7), None, Some(2), None, None));
    check_links(&tree);
}

#[test]
fn raw_slots_are_given_out_last_freed_first() {
    let mut tree = NodeArena::new(0u32, 0);
    assert_eq!(tree.create(1, NodeLink::default()), 1);
    assert_eq!(tree.create(2, NodeLink::new(1)), 2);
    assert_eq!(tree.create(3, NodeLink::new(1)), 3);
    assert_eq!(tree.get(2).unwrap().link, NodeLink::new(1));
    assert_eq!(tree.free(1), Ok(1));
    assert_eq!(tree.free(3), Ok(3));
    assert_eq!(tree.free(3), Err(TreeError::MissingCurrentNode));
    assert_eq!(tree.free(7), Err(TreeError::MissingCurrentNode));
    assert_eq!(tree.free(0), Err(TreeError::MissingParentNode));
    assert!(!tree.contains(1));
    assert!(tree.contains(2));
    assert_eq!(tree.vacant(), 2);
    assert_eq!(tree.create(4, NodeLink::new(0)), 3);
    assert_eq!(tree.create(5, NodeLink::default()), 1);
    assert_eq!(tree.create(6, NodeLink::default()), 4);
    assert_eq!(tree.get(3).unwrap().link, NodeLink::new(0));
    assert_eq!(tree.get(3).unwrap().data, 4);
    assert_eq!(tree.slots(), 5);
}

#[test]
fn link_builders_change_one_field() {
    let base = NodeLink::new(3);
    assert_eq!(base, link(Some(3), None, None, None, None));
    assert_eq!(base.with_sibling_left(1), link(Some(3), Some(1), None, None, None));
    assert_eq!(base.with_sibling_right(2), link(Some(3), None, Some(2), None, None));
    assert_eq!(base.with_child_first(4), link(Some(3), None, None, Some(4), None));
    assert_eq!(base.with_child_last(5), link(Some(3), None, None, None, Some(5)));
    let full = link(Some(3), Some(1), Some(2), Some(4), Some(5));
    assert_eq!(full.without_sibling_left(), link(Some(3), None, Some(2), Some(4), Some(5)));
    assert_eq!(full.without_sibling_right(), link(Some(3), Some(1), None, Some(4), Some(5)));
    assert_eq!(full.without_child_first(), link(Some(3), Some(1), Some(2), None, Some(5)));
    assert_eq!(full.without_child_last(), link(Some(3), Some(1), Some(2), Some(4), None));
}

#[test]
fn a_long_run_of_inserts_and_deletes_keeps_the_links_sound() {
    let mut tree = NodeArena::new("r", 0);
    let mut seed: usize = 12345;
    for round in 0..400 {
        seed = seed.wrapping_mul(6364136223846793005).wrapping_add(1442695040888963407);
        let pick = (seed >> 33) % tree.slots();
        let kind = (seed >> 20) % 9;
        match kind {
            0 => {
                let _ = tree.insert_child_left(pick, "n");
            }
            1 | 2 => {
                let _ = tree.insert_child_right(pick, "n");
            }
            3 => {
                let _ = tree.insert_after(pick, "n");
            }
            4 => {
                let _ = tree.insert_before(pick, "n");
            }
            5 => {
                let _ = tree.delete_current(pick, TraversalOrder::DepthFirst);
            }
            6 => {
                let _ = tree.delete_left(pick, 1);
            }
            7 => {
                let _ = tree.delete_right(pick, 2);
            }
            _ => {
                if round % 7 == 0 {
                    let _ = tree.delete_children(pick, TraversalOrder::BreadthFirst);
                } else {
                    let _ = tree.insert_child_right(pick, "n");
                }
            }
        }
        check_links(&tree);
    }
}
