use filesystem_delta::filetypes::FileType;
use filesystem_delta::hashing::{content_digest, to_hex};
use filesystem_delta::metadata::{extract_mode, extract_mtime, file_type_of, FileMeta};
use filesystem_delta::snapshot::{join_components, snapshot_entry, sort_paths};
use filesystem_delta::Snapshot;

fn comps(parts: &[&str]) -> Vec<String> {
    parts.iter().map(|s| s.to_string()).collect()
}

fn meta(is_dir: bool, is_symlink: bool) -> FileMeta {
    FileMeta { mode: 0o100644, mtime: 1_700_000_000, is_dir, is_symlink }
}

#[test]
fn digest_of_empty_and_abc() {
    assert_eq!(content_digest(b""), "e3b0c44298fc1c149afbf4c8996fb92427ae41e4649b934ca495991b7852b855");
    assert_eq!(content_digest(b"abc"), "ba7816bf8f01cfea414140de5dae2223b00361a396177a9cb410ff61f20015ad");
}

#[test]
fn hex_is_lower_case_high_half_first() {
    assert_eq!(to_hex(&[0x00, 0xab, 0x0f, 0xf0]), "00ab0ff0");
    assert_eq!(to_hex(&[]), "");
}

#[test]
fn kinds_from_metadata() {
    assert_eq!(file_type_of(&meta(false, true)), FileType::Symlink);
    assert_eq!(file_type_of(&meta(true, true)), FileType::Symlink);
    assert_eq!(file_type_of(&meta(true, false)), FileType::Directory);
    assert_eq!(file_type_of(&meta(false, false)), FileType::File);
}

#[test]
fn mode_and_time_extraction() {
    let m = FileMeta { mode: 0o100755, mtime: 42, is_dir: false, is_symlink: false };
    assert_eq!(extract_mode(&m), Some(0o100755));
    assert_eq!(extract_mtime(&m), Some(42));
    let neg = FileMeta { mtime: -1, ..m };
    assert_eq!(extract_mtime(&neg), Some(u64::MAX));
}

#[test]
fn joins_components_with_slashes() {
    assert_eq!(join_components(&comps(&["x", "y", "a.txt"])), "x/y/a.txt");
    assert_eq!(join_components(&comps(&["a"])), "a");
    assert_eq!(join_components(&comps(&[])), "");
}

#[test]
fn root_is_not_recorded() {
    assert!(snapshot_entry(&comps(&[]), &meta(true, false), None, None).is_none());
}

#[test]
fn file_entry_records_contents_and_digest() {
    let e = snapshot_entry(&comps(&["d", "a.txt"]), &meta(false, false), None, Some(b"abc".to_vec())).unwrap();
    assert_eq!(e.path, "d/a.txt");
    assert_eq!(e.file_type, FileType::File);
    assert_eq!(e.contents, Some(b"abc".to_vec()));
    assert_eq!(e.hash, Some("ba7816bf8f01cfea414140de5dae2223b00361a396177a9cb410ff61f20015ad".to_string()));
    assert_eq!(e.target, None);
    assert_eq!(e.mode, Some(0o100644));
    assert_eq!(e.mtime, Some(1_700_000_000));
}

#[test]
fn symlink_entry_records_target() {
    let e = snapshot_entry(&comps(&["loop"]), &meta(false, true), Some("loop".to_string()), None).unwrap();
    assert_eq!(e.file_type, FileType::Symlink);
    assert!(e.file_type.to_string().contains("Symlink"));
    assert_eq!(e.target, Some("loop".to_string()));
    assert_eq!(e.hash, None);
    assert_eq!(e.contents, None);
}

#[test]
fn directory_entry_records_no_contents() {
    let e = snapshot_entry(&comps(&["d"]), &meta(true, false), Some("ignored".to_string()), Some(vec![1])).unwrap();
    assert_eq!(e.file_type, FileType::Directory);
    assert_eq!(e.target, None);
    assert_eq!(e.contents, None);
    assert_eq!(e.hash, None);
}

#[test]
fn large_tree_has_one_entry_per_file() {
    let mut paths = vec![comps(&[])];
    for i in 0..200 {
        paths.push(comps(&[&format!("f{i}.txt")]));
    }
    let mut entries = Vec::new();
    for p in sort_paths(paths) {
        if let Some(e) = snapshot_entry(&p, &meta(false, false), None, Some(b"x".to_vec())) {
            entries.push(e);
        }
    }
    let snap = Snapshot { entries };
    assert_eq!(snap.entries.len(), 200);
}

#[test]
fn paths_sort_component_wise() {
    let sorted = sort_paths(vec![
        comps(&["b"]),
        comps(&["a.txt"]),
        comps(&["a", "x"]),
        comps(&[]),
        comps(&["a"]),
    ]);
    assert_eq!(sorted, vec![comps(&[]), comps(&["a"]), comps(&["a", "x"]), comps(&["a.txt"]), comps(&["b"])]);
}

#[test]
fn kind_names() {
    assert_eq!(FileType::File.to_string(), "File");
    assert_eq!(FileType::Directory.to_string(), "Directory");
    assert_eq!(FileType::Symlink.to_string(), "Symlink");
}
