use evfs::path;
use evfs::tree;
use evfs::FilesDirs;
use evfs::Node;
use evfs::NodeType;
use evfs::VfsState;

fn names(list: &[&str]) -> Vec<String> {
    list.iter().map(|s| s.to_string()).collect()
}

#[test]
fn a_new_tree_has_a_root() {
    let vfs: VfsState<u8> = VfsState::new(vec![1, 2]);
    assert_eq!(vfs.nodes.len(), 1);
    assert_eq!(vfs.nodes[0].name, "root");
    assert_eq!(vfs.nodes[0].node_type, NodeType::Directory);
    assert_eq!(vfs.nodes[0].driver_index, -1);
    assert_eq!(vfs.nodes[0].parent, 0);
    assert!(vfs.nodes[0].nodes.is_empty());
    assert!(vfs.node_drivers.is_empty());
    assert_eq!(vfs.drivers, vec![1, 2]);
}

#[test]
fn kinds_of_new_nodes() {
    let dir = Node::new_directory_node("d".to_string(), 3);
    assert_eq!((dir.node_type, dir.name, dir.driver_index, dir.parent), (NodeType::Directory, "d".to_string(), -1, 3));
    let file = Node::new_file_node("f".to_string(), 4);
    assert_eq!((file.node_type, file.name, file.driver_index, file.parent), (NodeType::File, "f".to_string(), -1, 4));
    let default = Node::default();
    assert_eq!((default.node_type, default.driver_index, default.parent), (NodeType::Unknown, 0, 0));
    assert_eq!(NodeType::default(), NodeType::Unknown);
}

#[test]
fn a_path_becomes_a_chain_and_is_found() {
    let mut vfs: VfsState<u8> = VfsState::new(vec![0]);
    let components = path::components("/data/a.zip/x");
    let res = tree::add_path_to_vfs(&mut vfs, 0, -1, &components, 0, 3);
    assert_eq!(res, (3, 3));
    let chain: Vec<String> = vfs.nodes.iter().map(|n| n.name.clone()).collect();
    assert_eq!(chain, names(&["root", "/", "data", "a.zip"]));
    assert_eq!(vfs.nodes[3].parent, 2);
    assert_eq!(vfs.nodes[3].node_type, NodeType::Unknown);
    assert_eq!(tree::find_entry(&vfs, 0, "/"), Some(1));
    assert_eq!(tree::find_entry(&vfs, 1, "data"), Some(2));
    assert_eq!(tree::find_entry(&vfs, 2, "a.zip"), Some(3));
    assert_eq!(tree::find_entry(&vfs, 3, "x"), None);
    // No components make no nodes
    assert_eq!(tree::add_path_to_vfs(&mut vfs, 2, -1, &components, 3, 3), (2, 0));
    assert_eq!(vfs.nodes.len(), 4);
}

#[test]
fn what_was_added_is_listed_and_found() {
    let mut vfs: VfsState<u8> = VfsState::new(vec![0]);
    tree::add_files_dirs_to_vfs(
        &mut vfs,
        0,
        FilesDirs::new(names(&["a.zip", "beat.zip"]), names(&["test_dir"])),
    );
    let listed = tree::list_node(&vfs, 0);
    assert_eq!(listed.files, names(&["a.zip", "beat.zip"]));
    assert_eq!(listed.dirs, names(&["test_dir"]));
    assert_eq!(tree::find_entry(&vfs, 0, "test_dir"), Some(1));
    assert_eq!(tree::find_entry(&vfs, 0, "a.zip"), Some(2));
    assert_eq!(tree::find_entry(&vfs, 0, "beat.zip"), Some(3));
    assert_eq!(tree::find_entry(&vfs, 0, "none"), None);
    // A node that nothing is known of counts as a directory
    tree::add_new_node(&mut vfs, 0, Node { parent: 0, driver_index: -1, name: "u".to_string(), ..Node::default() });
    assert_eq!(tree::list_node(&vfs, 0).dirs, names(&["test_dir", "u"]));
}

#[test]
fn what_was_known_keeps_its_place_in_a_listing() {
    let mut vfs: VfsState<u8> = VfsState::new(vec![]);
    let components = path::components("b/c");
    tree::add_path_to_vfs(&mut vfs, 0, -1, &components, 0, 2);
    tree::list_directory(&mut vfs, 0, FilesDirs::new(names(&["a", "b"]), names(&["d"])));
    let listed = tree::list_node(&vfs, 0);
    assert_eq!(listed.files, names(&["b", "a"]));
    assert_eq!(listed.dirs, names(&["d"]));
    assert_eq!(vfs.nodes[1].name, "b");
    assert!(vfs.nodes[1].unlisted);
    assert_eq!(tree::find_entry(&vfs, 1, "c"), Some(2));
    assert!(vfs.nodes[3].unlisted && vfs.nodes[3].node_type == NodeType::Directory);
    assert_eq!(tree::node_above(&vfs, 2, 1), 1);
    assert_eq!(tree::node_above(&vfs, 2, 5), 0);
}

#[test]
fn the_first_of_a_name_is_found() {
    let mut vfs: VfsState<u8> = VfsState::new(vec![0]);
    let first = tree::add_new_node(&mut vfs, 0, Node::new_file_node("x".to_string(), 0));
    let second = tree::add_new_node(&mut vfs, 0, Node::new_directory_node("x".to_string(), 0));
    assert_eq!((first, second), (1, 2));
    assert_eq!(tree::find_entry_in_node(&vfs.nodes[0], &vfs.nodes, "x"), Some(1));
    assert_eq!(tree::find_entry_in_node(&vfs.nodes[1], &vfs.nodes, "x"), None);
}

#[test]
fn nothing_is_listed_by_default() {
    let none = FilesDirs::default();
    assert!(none.files.is_empty() && none.dirs.is_empty());
}
