use opening_trainer::pgn::tree::{Node, Tree};

#[test]
fn new_tree_is_one_root() {
    let tree: Tree<u32> = Tree::new();
    let root = tree.root();
    assert_eq!(tree.len(), 1);
    assert_eq!(root.value(&tree), None);
    assert_eq!(root.try_get_parent(&tree), None);
    assert!(root.get_children(&tree).is_empty());
    assert_eq!(root.find_first_leaf(&tree), root);
}

#[test]
fn branch_appends_children_in_order() {
    let mut tree: Tree<u32> = Tree::new();
    let root = tree.root();
    let a = root.branch(&mut tree, 10);
    let b = root.branch(&mut tree, 20);
    let c = a.branch(&mut tree, 30);
    assert_eq!(tree.len(), 4);
    assert_eq!(root.get_children(&tree), &vec![a, b]);
    assert_eq!(a.get_children(&tree), &vec![c]);
    assert_eq!(a.value(&tree), Some(10));
    assert_eq!(b.value(&tree), Some(20));
    assert_eq!(c.value(&tree), Some(30));
    assert_eq!(a.try_get_parent(&tree), Some(root));
    assert_eq!(c.try_get_parent(&tree), Some(a));
    assert_eq!(tree.root(), root);
}

#[test]
fn branch_does_not_look_for_equal_values() {
    let mut tree: Tree<u32> = Tree::new();
    let root = tree.root();
    let a = root.branch(&mut tree, 10);
    let b = root.branch(&mut tree, 10);
    assert_ne!(a, b);
    assert_eq!(root.get_children(&tree).len(), 2);
}

#[test]
fn branch_or_find_reuses_the_first_equal_child() {
    let mut tree: Tree<u32> = Tree::new();
    let root = tree.root();
    let a = root.branch_or_find(&mut tree, 10);
    let b = root.branch_or_find(&mut tree, 20);
    assert_eq!(root.branch_or_find(&mut tree, 10), a);
    assert_eq!(root.branch_or_find(&mut tree, 20), b);
    assert_eq!(tree.len(), 3);
    let c = a.branch_or_find(&mut tree, 20);
    assert_ne!(c, b);
    assert_eq!(tree.len(), 4);
    assert_eq!(root.find_child(&tree, &20), Some(b));
    assert_eq!(root.find_child(&tree, &30), None);
}

#[test]
fn find_first_leaf_takes_first_children() {
    let mut tree: Tree<u32> = Tree::new();
    let root = tree.root();
    let a = root.branch(&mut tree, 1);
    let b = root.branch(&mut tree, 2);
    let c = a.branch(&mut tree, 3);
    let d = a.branch(&mut tree, 4);
    let e = c.branch(&mut tree, 5);
    assert_eq!(root.find_first_leaf(&tree), e);
    assert_eq!(a.find_first_leaf(&tree), e);
    assert_eq!(d.find_first_leaf(&tree), d);
    assert_eq!(b.find_first_leaf(&tree), b);
}

#[test]
fn fork_adds_a_sibling() {
    let mut tree: Tree<u32> = Tree::new();
    let root = tree.root();
    let a = root.branch(&mut tree, 1);
    let b = a.fork(&mut tree, 2);
    assert_eq!(b.try_get_parent(&tree), Some(root));
    assert_eq!(root.get_children(&tree), &vec![a, b]);
    assert_eq!(tree.root(), root);
}

#[test]
fn fork_of_the_root_makes_a_new_root() {
    let mut tree: Tree<u32> = Tree::new();
    let old_root = tree.root();
    let a = old_root.branch(&mut tree, 1);
    let sibling = old_root.fork(&mut tree, 2);
    let new_root = tree.root();
    assert_ne!(new_root, old_root);
    assert_eq!(new_root.value(&tree), None);
    assert_eq!(new_root.try_get_parent(&tree), None);
    assert_eq!(old_root.try_get_parent(&tree), Some(new_root));
    assert_eq!(sibling.try_get_parent(&tree), Some(new_root));
    assert_eq!(new_root.get_children(&tree), &vec![old_root, sibling]);
    assert_eq!(old_root.get_children(&tree), &vec![a]);
    assert_eq!(old_root.value(&tree), None);
    assert_eq!(tree.len(), 4);
    assert_eq!(new_root.find_first_leaf(&tree), a);
}

#[test]
fn fork_or_find_returns_the_node_itself_if_it_holds_the_value() {
    let mut tree: Tree<u32> = Tree::new();
    let root = tree.root();
    let a = root.branch(&mut tree, 1);
    assert_eq!(a.fork_or_find(&mut tree, 1), a);
    assert_eq!(tree.len(), 2);
}

#[test]
fn fork_or_find_reuses_an_equal_sibling() {
    let mut tree: Tree<u32> = Tree::new();
    let root = tree.root();
    let a = root.branch(&mut tree, 1);
    let b = root.branch(&mut tree, 2);
    assert_eq!(a.fork_or_find(&mut tree, 2), b);
    assert_eq!(tree.len(), 3);
    let c = a.fork_or_find(&mut tree, 3);
    assert_eq!(c.try_get_parent(&tree), Some(root));
    assert_eq!(root.get_children(&tree), &vec![a, b, c]);
}

#[test]
fn fork_or_find_of_the_root_makes_a_new_root() {
    let mut tree: Tree<u32> = Tree::new();
    let old_root = tree.root();
    let sibling = old_root.fork_or_find(&mut tree, 7);
    let new_root = tree.root();
    assert_eq!(new_root.get_children(&tree), &vec![old_root, sibling]);
    assert_eq!(old_root.fork_or_find(&mut tree, 7), sibling);
    assert_eq!(tree.root(), new_root);
    assert_eq!(tree.len(), 3);
}

#[test]
fn handles_are_indices() {
    let mut tree: Tree<u32> = Tree::new();
    let root = tree.root();
    let a = root.branch(&mut tree, 1);
    assert_eq!(root, Node { index: 0 });
    assert_eq!(a, Node { index: 1 });
}
