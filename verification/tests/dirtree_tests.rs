use gyat::dirtree::Tree;

fn b(s: &str) -> Vec<u8> {
    s.as_bytes().to_vec()
}

#[test]
fn init_test() {
    let tree = Tree::new();
    assert!(!tree.only_repo_root());
    assert_eq!(tree.leaves(), vec![b(".")]);
}

#[test]
fn add_root_test() {
    let mut tree = Tree::new();
    assert!(!tree.only_repo_root());
    assert!(tree.add_path(&b(".")));
    assert!(tree.only_repo_root());
    assert!(!tree.add_path(&b("src")));
}

#[test]
fn add_test_1() {
    let mut tree = Tree::new();
    assert!(tree.add_path(&b("src")));
    assert!(tree.contains_path(&b("src")));
    assert!(tree.add_path(&b("test-data")));
    assert!(tree.contains_path(&b("test-data")));
    assert!(!tree.add_path(&b("src/cli.rs")));
    assert!(tree.add_path(&b(".")));
    assert!(!tree.contains_path(&b("src")));
}

#[test]
fn add_test_2() {
    let mut tree = Tree::new();
    assert!(tree.add_path(&b("src/cli.rs")));
    assert!(!tree.add_path(&b("src")));
    assert!(tree.contains_path(&b("src/cli.rs")));
    assert!(tree.contains_path(&b("src")));
}

#[test]
fn leaves_test() {
    let mut tree = Tree::new();
    assert!(tree.add_path(&b("src/cli.rs")));
    assert!(tree.add_path(&b("src/hash.rs")));
    assert!(tree.add_path(&b("test-data")));
    let leaves = tree.leaves();
    assert_eq!(leaves.len(), 3);
    assert!(leaves.contains(&b("src/cli.rs")));
    assert!(leaves.contains(&b("src/hash.rs")));
    assert!(leaves.contains(&b("test-data")));
}

#[test]
fn arena_reuse_after_collapse() {
    // adding a/b then collapsing a frees b's slot; the next allocation
    // reuses the lowest freed slot, and the tree stays consistent
    let mut tree = Tree::new();
    assert!(tree.add_path(&b("a/b")));
    assert!(!tree.add_path(&b("a")));
    assert_eq!(tree.leaves(), vec![b("a")]);
    assert!(tree.add_path(&b("x/y")));
    let leaves = tree.leaves();
    assert_eq!(leaves.len(), 2);
    assert!(leaves.contains(&b("a")));
    assert!(leaves.contains(&b("x/y")));
    assert!(tree.contains_path(&b("x/y")));
    // the collapsed "a" is a leaf again, covering everything beneath it
    assert!(tree.contains_path(&b("a/b")));
}

#[test]
fn remove_path_is_refused() {
    let mut tree = Tree::new();
    assert!(tree.add_path(&b("src")));
    assert!(!tree.remove_path(&b("src")));
    assert!(tree.contains_path(&b("src")));
}

#[test]
fn contains_path_whole_root_mode() {
    let mut tree = Tree::new();
    assert!(tree.add_path(&b(".")));
    assert!(!tree.contains_path(&b("anything")));
}
