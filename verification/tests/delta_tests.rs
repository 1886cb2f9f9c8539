use filesystem_delta::delta::index_snapshot;
use filesystem_delta::filetypes::FileType;
use filesystem_delta::{compute_delta, PatchOp, Snapshot, SnapshotEntry};

fn file(path: &str, hash: &str, mode: u32, mtime: u64) -> SnapshotEntry {
    SnapshotEntry {
        path: path.to_string(),
        file_type: FileType::File,
        contents: Some(b"x".to_vec()),
        target: None,
        mode: Some(mode),
        mtime: Some(mtime),
        hash: Some(hash.to_string()),
    }
}

fn dir(path: &str, mode: u32, mtime: u64) -> SnapshotEntry {
    SnapshotEntry {
        path: path.to_string(),
        file_type: FileType::Directory,
        contents: None,
        target: None,
        mode: Some(mode),
        mtime: Some(mtime),
        hash: None,
    }
}

fn link(path: &str, target: &str, mode: u32, mtime: u64) -> SnapshotEntry {
    SnapshotEntry {
        path: path.to_string(),
        file_type: FileType::Symlink,
        contents: None,
        target: Some(target.to_string()),
        mode: Some(mode),
        mtime: Some(mtime),
        hash: None,
    }
}

fn snap(entries: Vec<SnapshotEntry>) -> Snapshot {
    Snapshot { entries }
}

fn bare(op: &str, path: &str) -> (String, String, Option<String>, Option<u32>, Option<u64>, Option<String>) {
    (op.to_string(), path.to_string(), None, None, None, None)
}

fn tuples(ops: &[PatchOp]) -> Vec<(String, String, Option<String>, Option<u32>, Option<u64>, Option<String>)> {
    ops.iter()
        .map(|o| (o.op.clone(), o.path.clone(), o.hash.clone(), o.mode, o.mtime, o.target.clone()))
        .collect()
}

#[test]
fn delta_creates_new_file() {
    let src = snap(vec![]);
    let dst = snap(vec![file("a.txt", "h1", 0o100644, 10)]);
    let ops = compute_delta(src, dst);
    assert!(ops.iter().any(|o| o.op == "create_file" && o.path == "a.txt"));
    assert_eq!(ops.len(), 1);
    assert_eq!(ops[0].hash, Some("h1".to_string()));
}

#[test]
fn delta_deletes_missing_entries() {
    let src = snap(vec![file("a.txt", "h1", 0o100644, 10), dir("d", 0o40755, 10)]);
    let dst = snap(vec![]);
    let ops = compute_delta(src, dst);
    assert_eq!(tuples(&ops), vec![bare("delete_file", "a.txt"), bare("delete_dir", "d")]);
}

#[test]
fn delta_of_identical_snapshots_is_empty() {
    let s = snap(vec![
        dir("x", 0o40755, 5),
        dir("x/y", 0o40755, 5),
        file("x/y/a.txt", "h", 0o100644, 7),
        link("link", "t.txt", 0o120777, 9),
    ]);
    assert!(compute_delta(s.clone(), s.clone()).is_empty());
}

#[test]
fn delta_of_equal_links_is_empty() {
    let src = snap(vec![link("link", "t.txt", 0o120777, 3)]);
    let dst = snap(vec![link("link", "t.txt", 0o120777, 3)]);
    assert!(compute_delta(src, dst).is_empty());
}

#[test]
fn delta_is_deterministic() {
    let src = snap(vec![file("a.txt", "one", 0o100644, 1)]);
    let dst = snap(vec![file("a.txt", "two", 0o100644, 1)]);
    let ops1 = compute_delta(src.clone(), dst.clone());
    let ops2 = compute_delta(src, dst);
    assert_eq!(tuples(&ops1), tuples(&ops2));
    assert_eq!(
        tuples(&ops1),
        vec![("modify_file".to_string(), "a.txt".to_string(), Some("two".to_string()), None, None, None)]
    );
}

#[test]
fn delta_file_replaced_by_directory() {
    let src = snap(vec![file("a", "h", 0o100644, 1)]);
    let dst = snap(vec![dir("a", 0o40755, 1)]);
    let ops = compute_delta(src, dst);
    assert_eq!(tuples(&ops), vec![bare("delete_file", "a"), bare("create_dir", "a")]);
}

#[test]
fn delta_directory_replaced_by_file() {
    let src = snap(vec![dir("a", 0o40755, 1)]);
    let dst = snap(vec![file("a", "h", 0o100644, 1)]);
    let ops = compute_delta(src, dst);
    assert_eq!(
        tuples(&ops),
        vec![
            bare("delete_dir", "a"),
            ("create_file".to_string(), "a".to_string(), Some("h".to_string()), None, None, None),
        ]
    );
}

#[test]
fn delta_changed_mode_and_time() {
    let src = snap(vec![file("a.txt", "h", 0o100644, 1)]);
    let dst = snap(vec![file("a.txt", "h", 0o100777, 2)]);
    let ops = compute_delta(src, dst);
    assert_eq!(
        tuples(&ops),
        vec![
            ("chmod".to_string(), "a.txt".to_string(), None, Some(0o100777), None, None),
            ("utimes".to_string(), "a.txt".to_string(), None, None, Some(2), None),
        ]
    );
}

#[test]
fn delta_changed_link_target() {
    let src = snap(vec![link("l", "old", 0o120777, 1)]);
    let dst = snap(vec![link("l", "new", 0o120777, 1)]);
    let ops = compute_delta(src, dst);
    assert_eq!(
        tuples(&ops),
        vec![("symlink".to_string(), "l".to_string(), None, None, None, Some("new".to_string()))]
    );
}

#[test]
fn delta_mode_absent_in_target_is_ignored() {
    let src = snap(vec![dir("d", 0o40755, 1)]);
    let mut d = dir("d", 0o40700, 1);
    d.mode = None;
    let dst = snap(vec![d]);
    assert!(compute_delta(src, dst).is_empty());
}

#[test]
fn delta_orders_by_path() {
    let src = snap(vec![file("b", "h", 1, 1), file("a/x", "h", 1, 1)]);
    let dst = snap(vec![file("a.txt", "h", 1, 1), dir("a", 1, 1), file("c", "h", 1, 1)]);
    let ops = compute_delta(src, dst);
    let paths: Vec<String> = ops.iter().map(|o| o.path.clone()).collect();
    assert_eq!(paths, vec!["a", "a.txt", "a/x", "b", "c"]);
    let names: Vec<String> = ops.iter().map(|o| o.op.clone()).collect();
    assert_eq!(names, vec!["create_dir", "create_file", "delete_file", "delete_file", "create_file"]);
}

#[test]
fn delta_last_entry_for_a_path_counts() {
    let src = snap(vec![file("a", "first", 1, 1), file("a", "second", 1, 1)]);
    let dst = snap(vec![file("a", "second", 1, 1)]);
    assert!(compute_delta(src, dst).is_empty());
}

#[test]
fn index_lists_last_positions_in_path_order() {
    let s = snap(vec![file("b", "h", 1, 1), file("a", "h", 1, 1), file("b", "h2", 1, 1), dir("a/c", 1, 1)]);
    assert_eq!(index_snapshot(&s), vec![1, 3, 2]);
}

#[test]
fn every_step_names_a_recorded_path() {
    let src = snap(vec![file("a", "h", 1, 1), dir("b", 1, 1)]);
    let dst = snap(vec![link("a", "t", 1, 2), file("c", "h", 1, 1)]);
    let ops = compute_delta(src, dst);
    for o in &ops {
        assert!(["a", "b", "c"].contains(&o.path.as_str()));
    }
    assert_eq!(
        tuples(&ops),
        vec![
            bare("delete_file", "a"),
            ("symlink".to_string(), "a".to_string(), None, None, None, Some("t".to_string())),
            bare("delete_dir", "b"),
            ("create_file".to_string(), "c".to_string(), Some("h".to_string()), None, None, None),
        ]
    );
}

#[test]
fn every_computed_step_can_be_planned() {
    let src = snap(vec![file("a", "h", 1, 1), dir("b", 1, 1), link("l", "x", 1, 1), file("m", "h", 1, 1)]);
    let dst = snap(vec![link("a", "t", 1, 2), file("c", "h", 1, 1), link("l", "y", 2, 3), file("m", "h2", 5, 9)]);
    let ops = compute_delta(src, dst);
    assert_eq!(ops.len(), 10);
    for o in &ops {
        assert!(filesystem_delta::plan_op(o).is_ok());
    }
}

#[test]
fn steps_of_one_path_come_in_name_order() {
    let src = snap(vec![file("a", "h1", 0o644, 1)]);
    let dst = snap(vec![file("a", "h2", 0o755, 2)]);
    let ops = compute_delta(src, dst);
    assert_eq!(
        tuples(&ops),
        vec![
            ("chmod".to_string(), "a".to_string(), None, Some(0o755), None, None),
            ("modify_file".to_string(), "a".to_string(), Some("h2".to_string()), None, None, None),
            ("utimes".to_string(), "a".to_string(), None, None, Some(2), None),
        ]
    );
}

#[test]
fn chmod_comes_before_relinking() {
    let src = snap(vec![link("l", "old", 0o120777, 1)]);
    let dst = snap(vec![link("l", "new", 0o120755, 1)]);
    let ops = compute_delta(src, dst);
    assert_eq!(
        tuples(&ops),
        vec![
            ("chmod".to_string(), "l".to_string(), None, Some(0o120755), None, None),
            ("symlink".to_string(), "l".to_string(), None, None, None, Some("new".to_string())),
        ]
    );
}
