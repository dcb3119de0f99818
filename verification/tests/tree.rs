use lunex::tree::FlowTree;

/// root(0) -> [a(1) -> [c(3)], b(2)]
fn sample() -> (FlowTree, usize, usize, usize, usize) {
    let mut tree = FlowTree::new();
    let root = tree.push(None);
    let a = tree.push(Some(root));
    let b = tree.push(Some(root));
    let c = tree.push(Some(a));
    (tree, root, a, b, c)
}

#[test]
fn push_links_parent_and_children() {
    let (tree, root, a, b, c) = sample();
    assert_eq!(tree.len(), 4);
    assert_eq!((root, a, b, c), (0, 1, 2, 3));
    assert!(tree.is_root(root));
    assert!(!tree.is_root(a));
    assert_eq!(tree.parent(c), Some(a));
    assert_eq!(tree.children(root), &vec![a, b]);
    assert_eq!(tree.children(a), &vec![c]);
    assert!(tree.children(b).is_empty());
}

#[test]
fn subtree_lists_nodes_in_preorder() {
    let (tree, root, a, b, c) = sample();
    assert_eq!(tree.subtree(root), vec![root, a, c, b]);
    assert_eq!(tree.subtree(a), vec![a, c]);
    assert_eq!(tree.subtree(b), vec![b]);
}

#[test]
fn subtree_reversed_visits_children_before_parents() {
    let (tree, root, _, _, _) = sample();
    let order = tree.subtree(root);
    for (k, &node) in order.iter().enumerate().skip(1) {
        let parent = tree.parent(node).unwrap();
        let position = order.iter().position(|&n| n == parent).unwrap();
        assert!(position < k);
    }
}

#[test]
fn subtree_lists_each_node_once() {
    let (tree, root, _, _, _) = sample();
    let mut order = tree.subtree(root);
    order.sort();
    assert_eq!(order, vec![0, 1, 2, 3]);
}

#[test]
fn separate_roots_form_separate_subtrees() {
    let mut tree = FlowTree::new();
    let r1 = tree.push(None);
    let r2 = tree.push(None);
    let x = tree.push(Some(r2));
    assert_eq!(tree.subtree(r1), vec![r1]);
    assert_eq!(tree.subtree(r2), vec![r2, x]);
    assert_eq!(tree.root_of(x), r2);
    assert_eq!(tree.root_of(r1), r1);
}

#[test]
fn reparent_attaches_roots_under_a_virtual_container() {
    let mut tree = FlowTree::new();
    let r1 = tree.push(None);
    let x = tree.push(Some(r1));
    let r2 = tree.push(None);
    let container = tree.push(None);
    tree.reparent(r1, container);
    tree.reparent(r2, container);
    assert_eq!(tree.parent(r1), Some(container));
    assert!(!tree.is_root(r2));
    assert_eq!(tree.children(container), &vec![r1, r2]);
    assert_eq!(tree.subtree(container), vec![container, r1, x, r2]);
    assert_eq!(tree.root_of(x), container);
}

#[test]
fn clear_empties_the_arena() {
    let (mut tree, _, _, _, _) = sample();
    tree.clear();
    assert_eq!(tree.len(), 0);
    let root = tree.push(None);
    assert_eq!(root, 0);
    assert_eq!(tree.subtree(root), vec![0]);
}

#[test]
fn push_extends_only_the_parents_traversals() {
    let (mut tree, root, a, b, c) = sample();
    let before_b = tree.subtree(b);
    let before_a = tree.subtree(a);
    let d = tree.push(Some(a));
    assert_eq!(tree.subtree(d), vec![d]);
    let mut expected = before_a.clone();
    expected.push(d);
    assert_eq!(tree.subtree(a), expected);
    assert_eq!(tree.subtree(b), before_b);
    assert_eq!(tree.subtree(c), vec![c]);
    assert_eq!(tree.subtree(root), vec![root, a, c, d, b]);
}

#[test]
fn reparent_appends_the_child_subtree_to_the_parent() {
    let (mut tree, root, a, _, c) = sample();
    let other = tree.push(None);
    let leaf = tree.push(Some(other));
    let before_other = tree.subtree(other);
    let before_a = tree.subtree(a);
    tree.reparent(other, a);
    let mut expected = before_a.clone();
    expected.extend(before_other.iter().copied());
    assert_eq!(tree.subtree(a), expected);
    assert_eq!(tree.subtree(c), vec![c]);
    assert_eq!(tree.subtree(other), vec![other, leaf]);
    assert_eq!(tree.root_of(leaf), root);
}
