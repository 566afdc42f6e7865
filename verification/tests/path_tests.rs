use carsync::posix_path::{path_parent_of, remote_parent_dir};
use std::path::Path;

const SAMPLES: &[&str] = &[
    "", "/", "a", "a/", "a/b", "a/b/", "a//b", "/a", "/a/b", "//a", ".", "./", "./a", "./a/b",
    "..", "../a", "a/..", "a/.", "a/./", "a/./b", "/.", "/./a", "a/b/.", "a/b/./.", "x//", ".a",
    "a/.b", "a///b///", "./.", "././a", "/..", "a/b/c/d",
];

#[test]
fn parent_agrees_with_std_path_parent() {
    for s in SAMPLES {
        let expected = Path::new(s).parent().map(|p| p.to_string_lossy().to_string());
        assert_eq!(path_parent_of(s), expected, "parent of {:?}", s);
    }
}

#[test]
fn remote_parent_dir_falls_back_to_dot() {
    assert_eq!(remote_parent_dir("/"), ".");
    assert_eq!(remote_parent_dir(""), ".");
    assert_eq!(remote_parent_dir("file.txt"), "");
    assert_eq!(remote_parent_dir("/srv/backup/file.txt"), "/srv/backup");
}

#[test]
fn remote_parent_dir_agrees_with_std_fallback() {
    for s in SAMPLES {
        let expected = Path::new(s)
            .parent()
            .map(|p| p.to_string_lossy().to_string())
            .unwrap_or_else(|| ".".to_string());
        assert_eq!(remote_parent_dir(s), expected, "parent dir of {:?}", s);
    }
}
