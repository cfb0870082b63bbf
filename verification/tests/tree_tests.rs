use desktop_lib::node::Node;
use desktop_lib::service::FileNode;
use desktop_lib::tree::Tree;

#[test]
fn test_tree_creation() {
    let path = "/";
    let file = FileNode::new(path.to_string(), true, false);
    let mut tree: Tree = Tree::from_value(file);
    assert!(tree.root.is_some());
    assert_eq!(tree.size(), 1);
    assert!(tree.contains(path));

    let file1 = FileNode::new("File1.txt".to_string(), false, false);
    let _ = tree.insert(path, file1);
    assert_eq!(tree.size(), 2);
    assert!(tree.contains("/File1.txt"));
}

#[test]
fn test_insert_node() {
    let path = "/";
    let file = FileNode::new(path.to_string(), true, false);
    let mut tree: Tree = Tree::from_value(file);

    let file1_path = "/File2.txt";
    let file1 = FileNode::new(file1_path.to_string(), false, false);
    let result = tree.insert(path, file1);
    assert!(result.is_ok());
    assert_eq!(tree.size(), 2);
    assert!(tree.contains(file1_path));

    let file2_path = "/File3.txt";
    let file2 = FileNode::new(file2_path.to_string(), false, false);
    let result = tree.insert("nofile", file2);
    assert!(result.is_err());
    assert_eq!(result.unwrap_err(), "parent not found, nofile".to_string());
    assert_eq!(tree.size(), 2);
}

#[test]
fn test_build_deep_tree() {
    let root_path = "/".to_string();
    let root_file = FileNode::new(root_path.clone(), true, false);
    let mut tree: Tree = Tree::from_value(root_file);
    assert_eq!(tree.size(), 1);

    let paths: Vec<String> = (0..10).map(|i| format!("dir{}", i)).collect();
    let mut current_path = root_path.clone();
    for dir_name in &paths {
        println!("current:{}, new:{}", current_path, dir_name);
        let dir_node = FileNode::new(dir_name.clone(), true, false);

        for i in 0..10 {
            let file_name = format!("file{}", i);
            let file_node = FileNode::new(file_name, false, false);
            let _ = tree.insert(&current_path, file_node);
        }

        let _ = tree.insert(&current_path, dir_node);
        current_path = format!("{}/{}", current_path, dir_name);
    }

    assert_eq!(tree.size(), 111);
}

#[test]
fn test_node_creation() {
    let path = "/test".to_string();
    let node = Node::new(path.clone(), false, false);
    assert_eq!(node.path, path);
    assert_eq!(node.get_name(), Ok(String::from("/test")));
    assert_eq!(node.count, 0);
}

#[test]
fn test_node_insert() {
    let path = "/root".to_string();
    let mut file_node = Node::new(path.clone(), false, false);

    let child_path = format!("{}/child", path);
    let child_node = Node::new(child_path, false, false);
    file_node.add_child(child_node);

    assert_eq!(file_node.count, 1);
}

#[test]
fn test_nodes_insert() {
    let path = "/root".to_string();
    let mut node = Node::new(path.clone(), false, false);

    let files = vec!["file1.txt", "file2.txt", "file3.txt"];
    for name in files {
        let child_path = format!("{}/{}", path, name);
        let child_node = Node::new(child_path, false, false);
        node.add_child(child_node);
    }

    assert_eq!(node.count, 3);
}

#[test]
fn test_node_remove() {
    let path = "/root".to_string();
    let mut node = create_nodes(path.clone());
    assert_eq!(node.count, 7);

    let exist_path = format!("{}/file1.txt", path);
    let ret = node.remove_child(&exist_path);
    assert_eq!(ret.len(), 1);
    assert_eq!(node.count, 6);
}

fn create_nodes(root: String) -> Node {
    let mut node = Node::new(root.clone(), false, false);
    let files = vec!["file1.txt", "file2.txt", "file3.txt"];
    for name in files {
        let child_path = format!("{}/{}", root, name);
        let child_node = Node::new(child_path, false, false);
        node.add_child(child_node);
    }

    let sub_root = format!("{}/dir1", root);
    let mut sub_node = Node::new(sub_root.clone(), false, false);
    let files = vec!["file1.bin", "file2.bin", "file3.bin"];
    for name in files {
        let child_path = format!("{}/{}", sub_root, name);
        let child_node = Node::new(child_path, false, false);
        sub_node.add_child(child_node);
    }
    node.add_child(sub_node);
    node
}

fn file_entry(name: &str, size: u64) -> FileNode {
    FileNode {
        path: name.to_string(),
        size,
        is_directory: false,
        is_link: false,
        modified: Some(7),
        created: Some(3),
    }
}

// The aggregation law: every node's count is the sum of count + 1 over its
// children, and a directory's size is the sum of its children's sizes.
fn check_aggregates(node: &Node) {
    let mut count_sum: u64 = 0;
    let mut size_sum: u64 = 0;
    for child in &node.children {
        count_sum += child.count + 1;
        size_sum += child.size;
        check_aggregates(child);
    }
    assert_eq!(node.count, count_sum);
    if node.is_directory {
        assert_eq!(node.size, size_sum);
    }
}

#[test]
fn test_count_and_size_aggregation() {
    let mut tree = Tree::from_value(FileNode::new("/".to_string(), true, false));
    tree.insert("/", FileNode::new("docs".to_string(), true, false))
        .unwrap();
    tree.insert("/", file_entry("a.bin", 40)).unwrap();
    tree.insert("/docs", file_entry("b.txt", 100)).unwrap();
    tree.insert("/docs", file_entry("c.txt", 60)).unwrap();

    let root = tree.root.as_ref().unwrap();
    assert_eq!(root.count, 4);
    assert_eq!(root.size, 200);
    check_aggregates(root);
}

#[test]
fn test_insert_then_get_node() {
    let mut tree = Tree::from_value(FileNode::new("/".to_string(), true, false));
    tree.insert("/", FileNode::new("docs".to_string(), true, false))
        .unwrap();
    let entry = file_entry("b.txt", 100);
    tree.insert("/docs", entry.clone()).unwrap();

    let node = tree.get_node("/docs/b.txt").expect("inserted node resolves");
    assert_eq!(node.path, "b.txt");
    assert_eq!(node.size, 100);
    assert!(!node.is_directory);
    assert!(!node.is_link);
    assert_eq!(node.modified, Some(7));
    assert_eq!(node.created, Some(3));
}

#[test]
fn test_remove_detaches_and_shrinks_ancestors() {
    let mut tree = Tree::from_value(FileNode::new("/".to_string(), true, false));
    tree.insert("/", FileNode::new("docs".to_string(), true, false))
        .unwrap();
    tree.insert("/docs", file_entry("b.txt", 100)).unwrap();
    tree.insert("/docs", file_entry("c.txt", 60)).unwrap();
    tree.insert("/", file_entry("a.bin", 40)).unwrap();

    let root_count_before = tree.root.as_ref().unwrap().count;
    let root_size_before = tree.root.as_ref().unwrap().size;

    let detached = tree.remove("/docs").expect("docs resolves");
    assert_eq!(detached.count, 2);
    assert_eq!(detached.size, 160);
    assert!(tree.get_node("/docs").is_none());
    assert!(tree.get_node("/docs/b.txt").is_none());

    let root = tree.root.as_ref().unwrap();
    assert_eq!(root.count, root_count_before - 3);
    assert_eq!(root.size, root_size_before - 160);
    check_aggregates(root);
}

#[test]
fn test_remove_unknown_path() {
    let mut tree = Tree::from_value(FileNode::new("/".to_string(), true, false));
    let result = tree.remove("/nope");
    assert!(result.is_err());
    assert_eq!(result.unwrap_err(), "/nope not found".to_string());
    assert_eq!(tree.size(), 1);
}

#[test]
fn test_path_to_root_chain() {
    let mut tree = Tree::from_value(FileNode::new("/".to_string(), true, false));
    tree.insert("/", FileNode::new("docs".to_string(), true, false))
        .unwrap();
    tree.insert("/docs", file_entry("b.txt", 100)).unwrap();

    let chain = tree.path_to_root("/docs/b.txt");
    assert_eq!(chain.len(), 3);
    assert_eq!(chain[0].path, "b.txt");
    assert_eq!(chain[1].path, "docs");
    assert_eq!(chain[2].path, "/");

    assert_eq!(tree.path_to_root("/missing").len(), 0);
}

#[test]
fn test_repeated_separators_collapse() {
    let mut tree = Tree::from_value(FileNode::new("/".to_string(), true, false));
    tree.insert("/", FileNode::new("docs".to_string(), true, false))
        .unwrap();
    assert!(tree.contains("//docs"));
    assert!(tree.contains("/docs/"));
    assert!(!tree.contains("docs"));
}

#[test]
fn test_empty_and_relative_keys() {
    let mut tree = Tree::from_value(FileNode::new("/".to_string(), true, false));
    assert!(!tree.contains(""));
    assert!(!tree.contains("docs"));
    let result = tree.insert("", FileNode::new("x".to_string(), false, false));
    assert_eq!(result.unwrap_err(), "parent not found, ".to_string());
}

#[test]
fn test_duplicate_names_resolve_to_first() {
    let mut tree = Tree::from_value(FileNode::new("/".to_string(), true, false));
    tree.insert("/", file_entry("a.txt", 10)).unwrap();
    tree.insert("/", file_entry("a.txt", 20)).unwrap();
    assert_eq!(tree.size(), 3);
    let found = tree.get_node("/a.txt").unwrap();
    assert_eq!(found.size, 10);
}

#[test]
fn test_large_file_size() {
    let mut tree = Tree::from_value(FileNode::new("/".to_string(), true, false));
    tree.insert("/", file_entry("big.bin", u64::MAX / 2)).unwrap();
    tree.insert("/", file_entry("big2.bin", u64::MAX / 2)).unwrap();
    assert_eq!(tree.root.as_ref().unwrap().size, u64::MAX - 1);
}

#[test]
fn test_remove_root_detaches_whole_tree() {
    let mut tree = Tree::from_value(FileNode::new("/".to_string(), true, false));
    tree.insert("/", file_entry("a.txt", 10)).unwrap();

    let detached = tree.remove("/").expect("the root is present");
    assert_eq!(detached.path, "/");
    assert_eq!(detached.count, 1);
    assert_eq!(detached.size, 10);
    assert!(tree.root.is_none());
    assert!(tree.get_node("/").is_none());
    assert_eq!(tree.size(), 0);
}
