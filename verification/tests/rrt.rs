use lib::rrt::xorshift64;

#[test]
fn xorshift_known_values() {
    assert_eq!(xorshift64(42), 45454805674);
    assert_eq!(xorshift64(45454805674), 11532217803599905471);
    assert_eq!(xorshift64(1), 1082269761);
    assert_eq!(xorshift64(12345), 13289605635609);
}

#[test]
fn xorshift_fixes_zero_only() {
    assert_eq!(xorshift64(0), 0);
    let mut s: u64 = 42;
    for _ in 0..1000 {
        s = xorshift64(s);
        assert_ne!(s, 0);
    }
}

use lib::rrt::RrtTree;

#[test]
fn tree_starts_empty_and_restarts_with_root() {
    let mut tree = RrtTree::new();
    assert_eq!(tree.len(), 0);
    tree.restart();
    assert_eq!(tree.len(), 1);
    assert_eq!(tree.path_to(0), vec![0]);
}

#[test]
fn tree_path_runs_from_root_to_node() {
    let mut tree = RrtTree::new();
    tree.restart();
    assert_eq!(tree.add_child(0), 1);
    assert_eq!(tree.add_child(0), 2);
    assert_eq!(tree.add_child(2), 3);
    assert_eq!(tree.add_child(3), 4);
    assert_eq!(tree.add_child(1), 5);
    assert_eq!(tree.len(), 6);
    assert_eq!(tree.path_to(4), vec![0, 2, 3, 4]);
    assert_eq!(tree.path_to(5), vec![0, 1, 5]);
    assert_eq!(tree.path_to(1), vec![0, 1]);
    tree.restart();
    assert_eq!(tree.len(), 1);
}
