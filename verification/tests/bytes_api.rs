use path_tree::{Node, NodeKind, PathTree};

#[test]
fn find_as_bytes_gives_slices_of_the_path() {
    let mut tree: PathTree<u32> = PathTree::new();
    assert!(tree.insert("/files/:name/*rest", 3));
    let path = b"/files/report.txt/a/b";
    let (data, params) = tree.find_as_bytes(path).unwrap();
    assert_eq!(*data, 3);
    assert_eq!(params.len(), 2);
    assert_eq!(params[0], (&b"name"[..], &b"report.txt"[..]));
    assert_eq!(params[1], (&b"rest"[..], &b"a/b"[..]));
}

#[test]
fn find_as_bytes_misses_without_payload() {
    let mut tree: PathTree<u32> = PathTree::new();
    assert!(tree.insert("/files/a", 1));
    assert!(tree.find_as_bytes(b"/files").is_none());
    assert!(tree.find_as_bytes(b"/files/a").is_some());
}

#[test]
fn find_as_bytes_takes_paths_no_string_can_hold() {
    let mut tree: PathTree<u32> = PathTree::new();
    assert!(tree.insert("/*blob", 6));
    let path: &[u8] = &[b'/', 0xFF, 0xFE, b'!'];
    let (data, params) = tree.find_as_bytes(path).unwrap();
    assert_eq!(*data, 6);
    assert_eq!(params.len(), 1);
    assert_eq!(params[0].0, b"blob");
    assert_eq!(params[0].1, &[0xFF, 0xFE, b'!']);
}

#[test]
fn default_tree_is_empty() {
    let tree: PathTree<u32> = PathTree::default();
    assert!(tree.find("/").is_none());
    assert!(tree.find("/a").is_none());
}

#[test]
fn fresh_node_has_nothing() {
    // A bare parameter node would capture the whole token, but it carries no
    // payload, so the traversal reports no match.
    let node: Node<u32> = Node::new(NodeKind::Parameter);
    assert!(node.find(b"token").is_none());
}

#[test]
fn node_insert_builds_a_findable_subtree() {
    let mut node: Node<u32> = Node::new(NodeKind::Static(b"api/".to_vec()));
    node.insert(b"api/:v", 4, Vec::new(), 11);
    let (n, values) = node.find(b"api/v2").unwrap();
    assert_eq!(n.data, Some(11));
    assert_eq!(values, vec![&b"v2"[..]]);
}
