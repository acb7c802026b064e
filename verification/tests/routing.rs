use path_tree::PathTree;

fn bindings(v: &[(String, String)]) -> Vec<(&str, &str)> {
    v.iter().map(|(a, b)| (a.as_str(), b.as_str())).collect()
}

#[test]
fn round_trip_static() {
    let mut tree: PathTree<u32> = PathTree::new();
    assert!(tree.insert("/hello/world", 7));
    let (data, params) = tree.find("/hello/world").unwrap();
    assert_eq!(*data, 7);
    assert!(params.is_empty());
    assert!(tree.find("/hello/worl").is_none());
    assert!(tree.find("/hello/world/").is_none());
}

#[test]
fn round_trip_parameters() {
    let mut tree: PathTree<u32> = PathTree::new();
    assert!(tree.insert("/users/:id/posts/:post_id", 1));
    let (data, params) = tree.find("/users/42/posts/7").unwrap();
    assert_eq!(*data, 1);
    assert_eq!(bindings(&params), vec![("id", "42"), ("post_id", "7")]);
}

#[test]
fn round_trip_catch_all() {
    let mut tree: PathTree<u32> = PathTree::new();
    assert!(tree.insert("/static/*path", 9));
    let (data, params) = tree.find("/static/css/site.css").unwrap();
    assert_eq!(*data, 9);
    assert_eq!(bindings(&params), vec![("path", "css/site.css")]);
}

#[test]
fn no_spurious_prefix_match() {
    let mut tree: PathTree<u32> = PathTree::new();
    assert!(tree.insert("/a/b", 1));
    assert!(tree.find("/a").is_none());
    assert!(tree.find("/a/").is_none());
    assert!(tree.insert("/a", 2));
    let (data, params) = tree.find("/a").unwrap();
    assert_eq!(*data, 2);
    assert!(params.is_empty());
}

#[test]
fn priority_static_then_parameter_then_catch_all() {
    let mut tree: PathTree<u32> = PathTree::new();
    assert!(tree.insert("/static", 1));
    assert!(tree.insert("/:param", 2));
    assert!(tree.insert("/*", 3));
    let (data, params) = tree.find("/static").unwrap();
    assert_eq!(*data, 1);
    assert!(params.is_empty());
    let (data, params) = tree.find("/other").unwrap();
    assert_eq!(*data, 2);
    assert_eq!(bindings(&params), vec![("param", "other")]);
    let (data, params) = tree.find("/other/deep").unwrap();
    assert_eq!(*data, 3);
    assert_eq!(bindings(&params), vec![("", "other/deep")]);
}

#[test]
fn priority_falls_back_when_static_subtree_fails() {
    let mut tree: PathTree<u32> = PathTree::new();
    assert!(tree.insert("/ab/c", 1));
    assert!(tree.insert("/:x", 2));
    // The static child "ab/c" shares "ab" with the path but cannot finish:
    // the parameter sibling must be tried instead.
    let (data, params) = tree.find("/ab").unwrap();
    assert_eq!(*data, 2);
    assert_eq!(bindings(&params), vec![("x", "ab")]);
}

#[test]
fn trailing_slash_aliasing() {
    let mut tree: PathTree<u32> = PathTree::new();
    assert!(tree.insert("/src/*filepath", 4));
    let (data, params) = tree.find("/src/").unwrap();
    assert_eq!(*data, 4);
    assert_eq!(bindings(&params), vec![("filepath", "")]);
    assert!(tree.find("/src").is_none());
    let (data, params) = tree.find("/src/a/b").unwrap();
    assert_eq!(*data, 4);
    assert_eq!(bindings(&params), vec![("filepath", "a/b")]);
}

#[test]
fn multi_parameter_segment() {
    let mut tree: PathTree<u32> = PathTree::new();
    assert!(tree.insert("/:name.:ext", 1));
    let (data, params) = tree.find("/main.rs").unwrap();
    assert_eq!(*data, 1);
    assert_eq!(bindings(&params), vec![("name", "main"), ("ext", "rs")]);
}

#[test]
fn multi_parameter_segment_three_names() {
    let mut tree: PathTree<u32> = PathTree::new();
    assert!(tree.insert("/:name.:ext", 1));
    assert!(tree.insert("/:name.:a0.:b0", 2));
    let (data, params) = tree.find("/main.rs").unwrap();
    assert_eq!(*data, 1);
    assert_eq!(bindings(&params), vec![("name", "main"), ("ext", "rs")]);
    let (data, params) = tree.find("/main.rs.build").unwrap();
    assert_eq!(*data, 2);
    assert_eq!(
        bindings(&params),
        vec![("name", "main"), ("a0", "rs"), ("b0", "build")]
    );
}

#[test]
fn split_correctness() {
    let mut tree: PathTree<u32> = PathTree::new();
    assert!(tree.insert("/contact", 1));
    assert!(tree.insert("/co", 2));
    let (data, params) = tree.find("/contact").unwrap();
    assert_eq!(*data, 1);
    assert!(params.is_empty());
    let (data, params) = tree.find("/co").unwrap();
    assert_eq!(*data, 2);
    assert!(params.is_empty());
    assert!(tree.find("/c").is_none());
    assert!(tree.find("/cont").is_none());
}

#[test]
fn root_catch_all() {
    let mut tree: PathTree<u32> = PathTree::new();
    assert!(tree.insert("/", 0));
    assert!(tree.insert("/*", 1));
    let (data, params) = tree.find("/").unwrap();
    assert_eq!(*data, 0);
    assert!(params.is_empty());
    let (data, params) = tree.find("/anything").unwrap();
    assert_eq!(*data, 1);
    assert_eq!(bindings(&params), vec![("", "anything")]);
}

#[test]
fn root_catch_all_aliases_bare_slash() {
    let mut tree: PathTree<u32> = PathTree::new();
    assert!(tree.insert("/*", 1));
    let (data, params) = tree.find("/").unwrap();
    assert_eq!(*data, 1);
    assert_eq!(bindings(&params), vec![("", "")]);
}

#[test]
fn rejects_adjacent_parameters() {
    let mut tree: PathTree<u32> = PathTree::new();
    assert!(tree.insert("/keep", 9));
    assert!(!tree.insert("/:a:b", 1));
    assert!(tree.find("/xy").is_none());
    // The rejected pattern left the tree untouched.
    let (data, params) = tree.find("/keep").unwrap();
    assert_eq!(*data, 9);
    assert!(params.is_empty());
    assert!(!tree.insert("/x/::", 2));
    assert!(tree.insert("/:a-:b", 3));
    let (data, params) = tree.find("/1-2").unwrap();
    assert_eq!(*data, 3);
    assert_eq!(bindings(&params), vec![("a", "1"), ("b", "2")]);
}

#[test]
fn reinsertion_overwrites() {
    let mut tree: PathTree<u32> = PathTree::new();
    assert!(tree.insert("/a/b", 1));
    assert!(tree.insert("/a/b", 2));
    let (data, params) = tree.find("/a/b").unwrap();
    assert_eq!(*data, 2);
    assert!(params.is_empty());
}

#[test]
fn empty_or_unrooted_path_never_matches() {
    let mut tree: PathTree<u32> = PathTree::new();
    assert!(tree.insert("/a", 1));
    assert!(tree.find("").is_none());
    assert!(tree.find("a").is_none());
}

#[test]
fn static_beats_parameter_on_shared_segment() {
    let mut tree: PathTree<u32> = PathTree::new();
    assert!(tree.insert("/users/all", 1));
    assert!(tree.insert("/users/:id", 2));
    let (data, params) = tree.find("/users/all").unwrap();
    assert_eq!(*data, 1);
    assert!(params.is_empty());
    let (data, params) = tree.find("/users/7").unwrap();
    assert_eq!(*data, 2);
    assert_eq!(bindings(&params), vec![("id", "7")]);
}

#[test]
fn trailing_slash_aliasing_below_the_root() {
    let mut tree: PathTree<u32> = PathTree::new();
    assert!(tree.insert("/a", 1));
    assert!(tree.insert("/a/*rest", 2));
    let (data, params) = tree.find("/a/").unwrap();
    assert_eq!(*data, 2);
    assert_eq!(bindings(&params), vec![("rest", "")]);
    let (data, params) = tree.find("/a").unwrap();
    assert_eq!(*data, 1);
    assert!(params.is_empty());
}

#[test]
fn backtracks_across_segments() {
    let mut tree: PathTree<u32> = PathTree::new();
    assert!(tree.insert("/a/b", 1));
    assert!(tree.insert("/:x/c", 2));
    // The static child consumes "a/" but cannot finish "/a/c"; the whole
    // attempt is abandoned and the parameter sibling matches instead.
    let (data, params) = tree.find("/a/c").unwrap();
    assert_eq!(*data, 2);
    assert_eq!(bindings(&params), vec![("x", "a")]);
    let (data, params) = tree.find("/a/b").unwrap();
    assert_eq!(*data, 1);
    assert!(params.is_empty());
}

#[test]
fn parameter_spanning_middle_segment() {
    let mut tree: PathTree<u32> = PathTree::new();
    assert!(tree.insert("/api/:version/status", 5));
    let (data, params) = tree.find("/api/v1/status").unwrap();
    assert_eq!(*data, 5);
    assert_eq!(bindings(&params), vec![("version", "v1")]);
    assert!(tree.find("/api/v1").is_none());
    assert!(tree.find("/api/v1/stat").is_none());
}
