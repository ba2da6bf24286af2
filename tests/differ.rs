use diff_folders::differ::{
    compare_bytes, delta_folder_stateful_list, diff_list_dir, sort_entries, Comparison, SnapEntry,
};
use diff_folders::status::{FolderStatefulList, StatusItemType};

fn snap(path: &str, is_dir: bool) -> SnapEntry {
    SnapEntry { path: path.to_string(), is_dir }
}

fn entry(path: &str, is_dir: bool, state: StatusItemType) -> FolderStatefulList {
    FolderStatefulList { path: path.to_string(), is_dir, state }
}

fn summary(list: &[FolderStatefulList]) -> Vec<(String, bool, StatusItemType)> {
    list.iter().map(|e| (e.path.clone(), e.is_dir, e.state)).collect()
}

#[test]
fn disjoint_trees_are_deleted_and_new() {
    let old = vec![snap("/o", true), snap("/o/a.txt", false), snap("/o/b.txt", false)];
    let new = vec![(snap("/n", true), Comparison::Unreadable), (snap("/n/c.txt", false), Comparison::Unreadable)];
    let out = diff_list_dir("/o", &old, "/n", &new);
    assert_eq!(
        summary(&out),
        vec![
            ("/n/c.txt".to_string(), false, StatusItemType::New),
            ("/o/a.txt".to_string(), false, StatusItemType::Deleted),
            ("/o/b.txt".to_string(), false, StatusItemType::Deleted),
        ]
    );
}

#[test]
fn identical_file_is_not_listed() {
    let old = vec![snap("/o", true), snap("/o/same.txt", false)];
    let new = vec![(snap("/n", true), Comparison::Unreadable), (snap("/n/same.txt", false), Comparison::Same)];
    let out = diff_list_dir("/o", &old, "/n", &new);
    assert!(out.is_empty());
}

#[test]
fn unreadable_pair_is_not_listed() {
    let old = vec![snap("/o", true), snap("/o/f", false)];
    let new = vec![(snap("/n", true), Comparison::Unreadable), (snap("/n/f", false), Comparison::Unreadable)];
    assert!(diff_list_dir("/o", &old, "/n", &new).is_empty());
}

#[test]
fn directory_in_both_is_not_listed() {
    let old = vec![snap("/o", true), snap("/o/d", true)];
    let new = vec![(snap("/n", true), Comparison::Unreadable), (snap("/n/d", true), Comparison::Differs)];
    assert!(diff_list_dir("/o", &old, "/n", &new).is_empty());
}

#[test]
fn differing_file_is_modified_once() {
    let old = vec![snap("/o", true), snap("/o/f.txt", false), snap("/o/g.txt", false)];
    let new = vec![
        (snap("/n", true), Comparison::Unreadable),
        (snap("/n/f.txt", false), Comparison::Differs),
        (snap("/n/g.txt", false), Comparison::Same),
    ];
    let out = diff_list_dir("/o", &old, "/n", &new);
    assert_eq!(summary(&out), vec![("/n/f.txt".to_string(), false, StatusItemType::Modified)]);
}

#[test]
fn repeated_key_is_counted_once() {
    let old = vec![snap("/o", true)];
    let new = vec![
        (snap("/n", true), Comparison::Unreadable),
        (snap("/n/x", false), Comparison::Unreadable),
        (snap("/n/x", false), Comparison::Unreadable),
    ];
    let out = diff_list_dir("/o", &old, "/n", &new);
    assert_eq!(summary(&out), vec![("/n/x".to_string(), false, StatusItemType::New)]);
}

#[test]
fn differ_is_deterministic() {
    let old = vec![snap("/o", true), snap("/o/z", false), snap("/o/a", false), snap("/o/m", true)];
    let new = vec![
        (snap("/n", true), Comparison::Unreadable),
        (snap("/n/m", true), Comparison::Unreadable),
        (snap("/n/b", false), Comparison::Unreadable),
        (snap("/n/z", false), Comparison::Differs),
    ];
    let first = summary(&diff_list_dir("/o", &old, "/n", &new));
    let second = summary(&diff_list_dir("/o", &old, "/n", &new));
    assert_eq!(first, second);
    let mut old_rev = old.clone();
    old_rev.reverse();
    let mut new_rev = new.clone();
    new_rev.reverse();
    assert_eq!(summary(&diff_list_dir("/o", &old_rev, "/n", &new_rev)), first);
    assert_eq!(
        first,
        vec![
            ("/n/b".to_string(), false, StatusItemType::New),
            ("/n/z".to_string(), false, StatusItemType::Modified),
            ("/o/a".to_string(), false, StatusItemType::Deleted),
        ]
    );
}

#[test]
fn deleted_directory_hides_its_contents() {
    let old = vec![snap("/o", true), snap("/o/dir", true), snap("/o/dir/f.txt", false)];
    let new = vec![(snap("/n", true), Comparison::Unreadable)];
    let out = diff_list_dir("/o", &old, "/n", &new);
    assert_eq!(summary(&out), vec![("/o/dir".to_string(), true, StatusItemType::Deleted)]);
}

#[test]
fn new_directory_hides_contents_past_siblings() {
    let old = vec![snap("/o", true)];
    let new = vec![
        (snap("/n", true), Comparison::Unreadable),
        (snap("/n/d", true), Comparison::Unreadable),
        (snap("/n/d/x", false), Comparison::Unreadable),
        (snap("/n/d/e", true), Comparison::Unreadable),
        (snap("/n/d/e/y", false), Comparison::Unreadable),
        (snap("/n/d-2", false), Comparison::Unreadable),
        (snap("/n/dx", false), Comparison::Unreadable),
    ];
    let out = diff_list_dir("/o", &old, "/n", &new);
    assert_eq!(
        summary(&out),
        vec![
            ("/n/d".to_string(), true, StatusItemType::New),
            ("/n/d-2".to_string(), false, StatusItemType::New),
            ("/n/dx".to_string(), false, StatusItemType::New),
        ]
    );
}

#[test]
fn empty_trees_give_empty_list() {
    let out = diff_list_dir("/o", &Vec::new(), "/n", &Vec::new());
    assert!(out.is_empty());
    let mut files: Vec<FolderStatefulList> = Vec::new();
    delta_folder_stateful_list(&mut files);
    assert!(files.is_empty());
}

#[test]
fn sorting_is_by_path_bytes_then_status() {
    let v = vec![
        entry("/b", false, StatusItemType::Deleted),
        entry("/a/é", false, StatusItemType::New),
        entry("/a/z", false, StatusItemType::New),
        entry("/b", false, StatusItemType::New),
        entry("/a", true, StatusItemType::Modified),
    ];
    let r = sort_entries(&v);
    assert_eq!(
        summary(&r),
        vec![
            ("/a".to_string(), true, StatusItemType::Modified),
            ("/a/z".to_string(), false, StatusItemType::New),
            ("/a/é".to_string(), false, StatusItemType::New),
            ("/b".to_string(), false, StatusItemType::New),
            ("/b".to_string(), false, StatusItemType::Deleted),
        ]
    );
}

#[test]
fn byte_comparison() {
    assert!(compare_bytes(b"abc", b"abd") < 0);
    assert!(compare_bytes(b"ab", b"abc") < 0);
    assert!(compare_bytes(b"abc", b"ab") > 0);
    assert_eq!(compare_bytes(b"", b""), 0);
    assert_eq!(compare_bytes(b"same", b"same"), 0);
    assert!(compare_bytes(b"d-2", b"d/x") < 0);
}
