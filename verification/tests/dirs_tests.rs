use carsync::dirs::{remote_dirs_to_create, TextSet};
use carsync::remote::remote_join_path;
use std::collections::HashSet;
use std::path::Path;

#[test]
fn dirs_include_base_and_each_parent_once() {
    let rels = vec![
        "a.txt".to_string(),
        "d/b.txt".to_string(),
        "d/c.txt".to_string(),
        "d/e/f.txt".to_string(),
    ];
    let dirs = remote_dirs_to_create("/srv/b", &rels);
    let set: HashSet<String> = dirs.iter().cloned().collect();
    assert_eq!(set.len(), dirs.len());
    let expected: HashSet<String> = ["/srv/b", "/srv/b/d", "/srv/b/d/e"]
        .iter()
        .map(|s| s.to_string())
        .collect();
    assert_eq!(set, expected);
}

#[test]
fn dirs_of_no_files_is_just_base() {
    assert_eq!(remote_dirs_to_create("/srv/b", &[]), vec!["/srv/b".to_string()]);
}

#[test]
fn dirs_agree_with_path_parent_and_join() {
    let rels: Vec<String> = ["x/y/z.bin", "top.bin", "x/w.bin", "q/r/", "./s/t"]
        .iter()
        .map(|s| s.to_string())
        .collect();
    let base = "remote/base/";
    let mut expected: HashSet<String> = HashSet::new();
    expected.insert(base.to_string());
    for r in &rels {
        if let Some(parent) = Path::new(r).parent() {
            expected.insert(remote_join_path(base, &parent.to_string_lossy()));
        }
    }
    let got: HashSet<String> = remote_dirs_to_create(base, &rels).into_iter().collect();
    assert_eq!(got, expected);
}

#[test]
fn text_set_keeps_one_copy_of_each() {
    let mut set = TextSet::new();
    set.insert("a".to_string());
    set.insert("b".to_string());
    set.insert("a".to_string());
    let items = set.into_items();
    assert_eq!(items, vec!["a".to_string(), "b".to_string()]);
}
