use arena_trees::rc::{Node, WellFormed};
use arena_trees::{TraversalOrder, TreeError};

fn ids<T>(mut next: impl FnMut() -> Option<Node<T>>) -> Vec<usize> {
    let mut out = Vec::new();
    while let Some(n) = next() {
        out.push(n.id());
    }
    out
}

fn payload(node: &Node<String>) -> String {
    let mut held = String::new();
    node.swap(&mut held).unwrap();
    let copy = held.clone();
    node.swap(&mut held).unwrap();
    copy
}

#[test]
fn test_insert() {
    let root = Node::new("1", 0);
    let child_1 = root.insert_child_right("1_1");
    let child_2 = root.insert_child_right("1_2");
    assert_eq!(child_1.unwrap().id(), 1);
    assert_eq!(child_2.unwrap().id(), 2);
}

#[test]
fn mod_test_insert() {
    let root = Node::new("1", 0);
    let child_1 = root.insert_child_right("1_1").unwrap();
    let child_2 = root.insert_child_right("1_2").unwrap();
    let mut row = root.children(false);
    assert_eq!(ids(|| row.next()), vec![child_1.id(), child_2.id()]);
    let mut held = "";
    child_2.swap(&mut held).unwrap();
    assert_eq!(held, "1_2");
}

#[test]
fn handles_share_one_arena() {
    let root = Node::new(String::from("r"), 0);
    let copy = root.clone();
    let child = copy.insert_child_right(String::from("c")).unwrap();
    assert_eq!(root.first_child().unwrap().id(), child.id());
    let again = child.root();
    again.insert_child_left(String::from("b")).unwrap();
    assert_eq!(root.count_children(), Ok(2));
    assert_eq!(payload(&root.last_child().unwrap()), "c");
    let _ = WellFormed;
}

#[test]
fn children_in_order_of_insertion() {
    let root = Node::new("R", 0);
    let a = root.insert_child_right("a").unwrap();
    let b = root.insert_child_right("b").unwrap();
    let c = root.insert_child_right("c").unwrap();
    let mut row = root.children(false);
    assert_eq!(ids(|| row.next()), vec![a.id(), b.id(), c.id()]);
    let mut row = root.children(true);
    assert_eq!(ids(|| row.next()), vec![c.id(), b.id(), a.id()]);
    assert_eq!(root.count_children(), Ok(3));
    assert_eq!(root.has_child(), Ok(true));
    assert_eq!(c.has_child(), Ok(false));
}

#[test]
fn insert_left_and_right_of_a_node() {
    let root = Node::new("R", 0);
    let n = root.insert_child_right("x").unwrap();
    let y = n.insert_right("y").unwrap();
    let z = n.insert_left("z").unwrap();
    let mut row = root.children(false);
    assert_eq!(ids(|| row.next()), vec![z.id(), n.id(), y.id()]);
    let w = root.insert_after("w", &z).unwrap();
    let v = root.insert_before("v", &z).unwrap();
    let mut row = n.siblings(false);
    assert_eq!(ids(|| row.next()), vec![v.id(), z.id(), w.id(), n.id(), y.id()]);
    let mut row = n.siblings(true);
    assert_eq!(ids(|| row.next()), vec![y.id(), n.id(), w.id(), z.id(), v.id()]);
    let mut row = n.left_siblings(false);
    assert_eq!(ids(|| row.next()), vec![w.id(), z.id(), v.id()]);
    let mut row = n.left_siblings(true);
    assert_eq!(ids(|| row.next()), vec![n.id(), w.id(), z.id(), v.id()]);
    let mut row = w.right_siblings(false);
    assert_eq!(ids(|| row.next()), vec![n.id(), y.id()]);
    let mut row = w.right_siblings(true);
    assert_eq!(ids(|| row.next()), vec![w.id(), n.id(), y.id()]);
    assert_eq!(n.first_sibling().unwrap().id(), v.id());
    assert_eq!(n.last_sibling().unwrap().id(), y.id());
    assert_eq!(n.left_sibling().unwrap().id(), w.id());
    assert_eq!(n.right_sibling().unwrap().id(), y.id());
    assert_eq!(v.is_leftmost(), Ok(true));
    assert_eq!(n.is_leftmost(), Ok(false));
    assert_eq!(y.is_rightmost(), Ok(true));
    assert_eq!(n.is_alone(), Ok(false));
}

#[test]
fn the_root_is_protected() {
    let root = Node::new("R", 0);
    assert!(matches!(root.insert_left("l"), Err(TreeError::RootSiblingOperation)));
    assert!(matches!(root.insert_right("r"), Err(TreeError::RootSiblingOperation)));
    assert!(matches!(root.insert_after("r", &root), Err(TreeError::RootSiblingOperation)));
    assert!(matches!(root.insert_before("r", &root), Err(TreeError::RootSiblingOperation)));
    assert!(root.parent().is_none());
    assert!(root.is_root());
    assert!(root.left_sibling().is_none());
    assert!(root.right_sibling().is_none());
    assert_eq!(root.first_sibling().unwrap().id(), 0);
    assert_eq!(root.last_sibling().unwrap().id(), 0);
    assert_eq!(root.is_alone(), Ok(true));
    assert_eq!(root.count_children(), Ok(0));
    let child = root.insert_child_left("c").unwrap();
    assert!(!child.is_root());
    assert_eq!(child.parent().unwrap().id(), 0);
    assert_eq!(child.root().id(), 0);
}

#[test]
fn the_ancestors_of_a_deep_node() {
    let root = Node::new(0u8, 0);
    let one = root.insert_child_right(1).unwrap();
    let two = one.insert_child_right(2).unwrap();
    let three = two.insert_child_right(3).unwrap();
    let four = three.insert_child_right(4).unwrap();
    let mut way = four.ancestor(true);
    let seen = ids(|| way.next());
    assert_eq!(seen.len(), 4 + 1);
    assert_eq!(seen, vec![four.id(), three.id(), two.id(), one.id(), 0]);
    let mut way = four.ancestor(false);
    assert_eq!(ids(|| way.next()), vec![three.id(), two.id(), one.id(), 0]);
    let mut way = root.ancestor(false);
    assert!(way.next().is_none());
    let mut way = root.ancestor(true);
    assert_eq!(ids(|| way.next()), vec![0]);
}

#[test]
fn take_and_swap_through_a_handle() {
    let root = Node::new(String::from("x"), 0);
    assert_eq!(root.take(), Ok(String::from("x")));
    assert_eq!(payload(&root), "");
    let mut y = String::from("y");
    root.swap(&mut y).unwrap();
    assert_eq!(y, "");
    assert_eq!(payload(&root), "y");
    let node = root.insert_child_right(String::from("x")).unwrap();
    let mut y = String::from("y");
    node.swap(&mut y).unwrap();
    assert_eq!(y, "x");
    assert_eq!(node.take(), Ok(String::from("y")));
}

#[test]
fn deleting_an_only_leaf_through_a_handle() {
    let root = Node::new("p", 0);
    let leaf = root.insert_child_right("payload").unwrap();
    let out = leaf.delete_current(TraversalOrder::DepthFirst).unwrap();
    assert_eq!(out.rest.unwrap().id(), root.id());
    assert_eq!(out.data, vec!["payload"]);
    assert!(root.first_child().is_none());
    assert!(!leaf.is_node());
    assert!(matches!(leaf.take(), Err(TreeError::MissingCurrentNode)));
    assert!(matches!(leaf.insert_child_right("n"), Err(TreeError::MissingCurrentNode)));
    assert!(matches!(leaf.insert_left("n"), Err(TreeError::MissingCurrentNode)));
    assert!(leaf.parent().is_none());
    assert!(matches!(leaf.first_sibling(), Err(TreeError::MissingCurrentNode)));
    assert!(matches!(
        leaf.delete_current(TraversalOrder::DepthFirst),
        Err(TreeError::MissingCurrentNode)
    ));
    let mut way = leaf.descendants(false);
    assert!(way.next().is_none());
}

fn family() -> (Node<&'static str>, Vec<Node<&'static str>>) {
    let root = Node::new("r", 0);
    let a = root.insert_child_right("a").unwrap();
    let b = root.insert_child_right("b").unwrap();
    let c = root.insert_child_right("c").unwrap();
    let a1 = a.insert_child_right("a1").unwrap();
    let a2 = a.insert_child_right("a2").unwrap();
    let b1 = b.insert_child_right("b1").unwrap();
    let x = a1.insert_child_right("x").unwrap();
    (root, vec![a, b, c, a1, a2, b1, x])
}

#[test]
fn descendants_through_a_handle() {
    let (root, nodes) = family();
    let mut way = root.descendants(false);
    assert_eq!(ids(|| way.next()), vec![0, 1, 4, 7, 5, 2, 6, 3]);
    let mut way = root.descendants(true);
    assert_eq!(ids(|| way.next()), vec![3, 6, 2, 5, 7, 4, 1, 0]);
    let mut way = nodes[0].descendants(false);
    assert_eq!(ids(|| way.next()), vec![1, 4, 7, 5]);
    let mut way = nodes[0].descendants(true);
    assert_eq!(ids(|| way.next()), vec![5, 7, 4, 1]);
}

#[test]
fn an_iterator_sees_a_change_made_on_the_way() {
    let (root, nodes) = family();
    let mut way = root.children(false);
    assert_eq!(way.next().unwrap().id(), 1);
    nodes[1].insert_right("late").unwrap();
    assert_eq!(ids(|| way.next()), vec![2, 8, 3]);
}

#[test]
fn deletions_through_a_handle() {
    let (root, nodes) = family();
    let out = nodes[0].delete_current(TraversalOrder::BreadthFirst).unwrap();
    assert_eq!(out.rest.unwrap().id(), 0);
    assert_eq!(out.data, vec!["a", "a1", "a2", "x"]);
    let out = nodes[2].delete_left(4).unwrap();
    assert!(out.rest.is_none());
    assert_eq!(out.data, vec!["b", "b1"]);
    let fresh = root.insert_child_left("n").unwrap();
    assert_eq!(fresh.id(), 2);
    let out = fresh.delete_right(1).unwrap();
    assert!(out.rest.is_none());
    assert_eq!(out.data, vec!["c"]);
    let (root, nodes) = family();
    let out = nodes[1].delete_siblings(TraversalOrder::DepthFirst).unwrap();
    assert_eq!(out.rest.unwrap().id(), nodes[1].id());
    assert_eq!(out.data, vec!["a", "a1", "x", "a2", "c"]);
    let out = root.delete_children(TraversalOrder::DepthFirst).unwrap();
    assert_eq!(out.rest.unwrap().id(), 0);
    assert_eq!(out.data, vec!["b", "b1"]);
    let out = root.delete_current(TraversalOrder::DepthFirst).unwrap();
    assert!(out.rest.is_none());
    assert!(out.data.is_empty());
    assert!(root.is_node());
    let out = root.delete_left(1).unwrap();
    assert!(out.rest.is_none() && out.data.is_empty());
    let out = root.delete_right(1).unwrap();
    assert!(out.rest.is_none() && out.data.is_empty());
}

#[test]
fn a_stale_handle_names_the_node_that_took_its_slot() {
    let root = Node::new("r", 0);
    let old = root.insert_child_right("old").unwrap();
    old.delete_current(TraversalOrder::DepthFirst).unwrap();
    let new = root.insert_child_right("new").unwrap();
    assert_eq!(new.id(), old.id());
    let mut held = "";
    old.swap(&mut held).unwrap();
    assert_eq!(held, "new");
}

#[test]
fn the_last_handle_gives_the_arena_back() {
    let root = Node::new("r", 0);
    let child = root.insert_child_right("c").unwrap();
    let copy = child.clone();
    assert!(child.into_arena().is_none());
    assert!(copy.into_arena().is_none());
    let arena = root.into_arena().unwrap();
    assert_eq!(arena.children(0, false), Ok(vec![1]));
    assert_eq!(arena.get(1).unwrap().data, "c");
    assert_eq!(arena.slots(), 2);
}
