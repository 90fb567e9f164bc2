use karva::paths::{pending_path, snapshot_dir, snapshot_path};

#[test]
fn test_snapshot_dir() {
    let test_file = "tests/test_example.py";
    assert_eq!(snapshot_dir(test_file), "tests/snapshots");
}

#[test]
fn test_snapshot_path() {
    let test_file = "tests/test_example.py";
    let path = snapshot_path(test_file, "test_example", "test_foo");
    assert_eq!(path, "tests/snapshots/test_example__test_foo.snap");
}

#[test]
fn test_pending_path() {
    let snap = "tests/snapshots/test_example__test_foo.snap";
    assert_eq!(
        pending_path(snap),
        "tests/snapshots/test_example__test_foo.snap.new"
    );
}

#[test]
fn snapshot_dir_without_parent_directory() {
    assert_eq!(snapshot_dir("test_example.py"), "snapshots");
    assert_eq!(snapshot_dir("/"), "snapshots");
    assert_eq!(snapshot_dir("/a/b/t.py"), "/a/b/snapshots");
}
