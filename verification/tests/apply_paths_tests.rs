use filesystem_delta::apply::{plan_op, FsAction};
use filesystem_delta::order::{components_lt, str_lt};
use filesystem_delta::paths::normalize_path;
use filesystem_delta::PatchOp;

fn op(name: &str) -> PatchOp {
    PatchOp { op: name.to_string(), path: "a".to_string(), hash: None, mode: None, mtime: None, target: None }
}

#[test]
fn plans_each_operation() {
    assert!(matches!(plan_op(&op("create_dir")), Ok(FsAction::CreateDirAll)));
    assert!(matches!(plan_op(&op("delete_dir")), Ok(FsAction::RemoveDirAllIfPresent)));
    assert!(matches!(plan_op(&op("create_file")), Ok(FsAction::CreateEmptyFile)));
    assert!(matches!(plan_op(&op("delete_file")), Ok(FsAction::RemoveFileIfPresent)));
    assert!(matches!(plan_op(&op("modify_file")), Ok(FsAction::TruncateFile)));
    assert!(matches!(plan_op(&op("chmod")), Ok(FsAction::Nothing)));
    assert!(matches!(plan_op(&op("utimes")), Ok(FsAction::Nothing)));
    let mut c = op("chmod");
    c.mode = Some(0o777);
    assert!(matches!(plan_op(&c), Ok(FsAction::SetMode(0o777))));
    let mut u = op("utimes");
    u.mtime = Some(1234);
    assert!(matches!(plan_op(&u), Ok(FsAction::SetMtime(1234))));
    u.mtime = Some(u64::MAX);
    assert!(matches!(plan_op(&u), Ok(FsAction::SetMtime(-1))));
    let mut s = op("symlink");
    match plan_op(&s) {
        Ok(FsAction::ReplaceWithSymlink(t)) => assert_eq!(t, ""),
        _ => panic!("expected a link"),
    }
    s.target = Some("t.txt".to_string());
    match plan_op(&s) {
        Ok(FsAction::ReplaceWithSymlink(t)) => assert_eq!(t, "t.txt"),
        _ => panic!("expected a link"),
    }
}

#[test]
fn unknown_operation_is_refused() {
    match plan_op(&op("rename")) {
        Err(e) => assert_eq!(e.message(), "Unknown op: rename"),
        Ok(_) => panic!("expected an error"),
    }
}

#[test]
fn normalizes_paths() {
    assert_eq!(normalize_path("a//b/./c/"), "a/b/c");
    assert_eq!(normalize_path("./a"), "./a");
    assert_eq!(normalize_path(".//a/."), "./a");
    assert_eq!(normalize_path("."), ".");
    assert_eq!(normalize_path("/"), "/");
    assert_eq!(normalize_path("//x/../y"), "/x/../y");
    assert_eq!(normalize_path("/./a"), "/a");
    assert_eq!(normalize_path(""), "");
    assert_eq!(normalize_path(".a/b"), ".a/b");
    assert_eq!(normalize_path("a\\b/c"), "a/b/c");
}

#[test]
fn string_order_is_byte_order() {
    assert!(str_lt("a", "a.txt"));
    assert!(str_lt("a.txt", "a/x"));
    assert!(!str_lt("b", "a"));
    assert!(!str_lt("a", "a"));
    assert!(str_lt("", "a"));
    assert!(str_lt("Z", "a"));
}

#[test]
fn component_order_compares_names() {
    let v = |p: &[&str]| p.iter().map(|s| s.to_string()).collect::<Vec<String>>();
    assert!(components_lt(&v(&["a", "x"]), &v(&["a.txt"])));
    assert!(components_lt(&v(&["a"]), &v(&["a", "x"])));
    assert!(!components_lt(&v(&["b"]), &v(&["a", "z"])));
}

#[test]
fn normalizing_twice_changes_nothing() {
    for p in ["a//b/./c/", "./x//y", "/", "", ".", "//a/./b//", "x/../y/."] {
        let once = normalize_path(p);
        assert_eq!(normalize_path(&once), once);
    }
    // A backslash becomes a separator only after the components were read.
    assert_eq!(normalize_path("a\\/b"), "a//b");
    assert_eq!(normalize_path(&normalize_path("a\\/b")), "a/b");
}
