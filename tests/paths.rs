use diff_folders::paths::{counterpart_path, key_in_root, lies_under};

#[test]
fn counterpart_swaps_leading_root() {
    assert_eq!(counterpart_path("/n/a/b.txt", "/n", "/o"), "/o/a/b.txt");
    assert_eq!(counterpart_path("/x/n/b.txt", "/n", "/o"), "/x/n/b.txt");
    assert_eq!(counterpart_path("/n/c", "/n", "."), "./c");
}

#[test]
fn key_strips_root() {
    assert_eq!(key_in_root("/root/a/b", "/root"), "/a/b");
    assert_eq!(key_in_root("/root", "/root"), "");
    assert_eq!(key_in_root("/elsewhere/a", "/root"), "/elsewhere/a");
}

#[test]
fn descendant_needs_separator() {
    assert!(lies_under("/a/dir/f", "/a/dir"));
    assert!(!lies_under("/a/dir", "/a/dir"));
    assert!(!lies_under("/a/dir-2/f", "/a/dir"));
    assert!(!lies_under("/a/directory", "/a/dir"));
}
