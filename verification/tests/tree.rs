use twisterl::tree::{Node, Tree};

#[test]
fn test_tree_add_child() {
    let mut tree: Tree<i32> = Tree::new();
    let root = tree.new_node(1);
    let child = tree.add_child_to_node(2, root);

    assert_eq!(root, 0);
    assert_eq!(child, 1);
    assert_eq!(tree.nodes.len(), 2);
    assert_eq!(tree.nodes[root].children, vec![child]);
    assert_eq!(tree.nodes[child].parent, Some(root));
}

#[test]
fn node_starts_without_links() {
    let node = Node::new(7, "payload");
    assert_eq!(node.idx, 7);
    assert_eq!(node.val, "payload");
    assert_eq!(node.parent, None);
    assert!(node.children.is_empty());
}

#[test]
fn every_child_is_listed_once_under_its_parent_only() {
    let mut tree: Tree<u8> = Tree::new();
    let root = tree.new_node(0);
    let a = tree.add_child_to_node(1, root);
    let b = tree.add_child_to_node(2, root);
    let c = tree.add_child_to_node(3, a);
    let d = tree.add_child_to_node(4, a);
    let e = tree.add_child_to_node(5, c);
    assert_eq!((root, a, b, c, d, e), (0, 1, 2, 3, 4, 5));
    assert_eq!(tree.nodes[root].parent, None);
    for child in 1..tree.nodes.len() {
        let parent = tree.nodes[child].parent.unwrap();
        assert!(parent < child);
        for (q, node) in tree.nodes.iter().enumerate() {
            let times = node.children.iter().filter(|&&x| x == child).count();
            assert_eq!(times, if q == parent { 1 } else { 0 });
        }
    }
    assert_eq!(tree.nodes[a].children, vec![c, d]);
    assert_eq!(tree.nodes[root].children, vec![a, b]);
}
