use rdt::diff::{classify_entries, DiffEntry};
use rdt::sync::{ensure_dest, plan_entry, DestState, SyncAction, SyncError, Synchronizer};
use rdt::walk::{FileKind, Timestamp, WalkEntry};

fn entry(path: &str, kind: FileKind, size: u64, secs: i64) -> WalkEntry {
    WalkEntry {
        path: path.split('/').map(|s| s.as_bytes().to_vec()).collect(),
        file_type: kind,
        size,
        mtime: Some(Timestamp { secs, nanos: 0 }),
        ctime: None,
    }
}

fn p(path: &str) -> Vec<Vec<u8>> {
    path.split('/').map(|s| s.as_bytes().to_vec()).collect()
}

fn describe(acts: &[SyncAction]) -> Vec<String> {
    let show = |q: &Vec<Vec<u8>>| {
        q.iter().map(|s| String::from_utf8(s.clone()).unwrap()).collect::<Vec<_>>().join("/")
    };
    acts.iter()
        .map(|a| match a {
            SyncAction::CreateDir(q) => format!("mkdir {}", show(q)),
            SyncAction::CopyFile(q) => format!("copy {}", show(q)),
            SyncAction::RemoveFile(q) => format!("rm {}", show(q)),
            SyncAction::RemoveDirAll(q) => format!("rm -r {}", show(q)),
        })
        .collect()
}

#[test]
fn copy_into_empty_destination_reports_one_file() {
    assert!(matches!(ensure_dest(DestState::Directory), Ok(None)));
    let mut sync = Synchronizer::new();
    let added = DiffEntry::Added { src: entry("notes.txt", FileKind::File, 5, 1) };
    let acts = sync.apply(&added).unwrap();
    assert_eq!(describe(&acts), vec!["copy notes.txt"]);
    assert_eq!(sync.files(), 1);
    assert_eq!(sync.dirs(), 0);
}

#[test]
fn added_directory_is_created() {
    let mut sync = Synchronizer::new();
    let acts = sync.apply(&DiffEntry::Added { src: entry("d", FileKind::Dir, 0, 1) }).unwrap();
    assert_eq!(describe(&acts), vec!["mkdir d"]);
    assert_eq!(sync.dirs(), 1);
    assert_eq!(sync.files(), 0);
}

#[test]
fn type_change_removes_then_recreates() {
    let d = classify_entries(
        entry("x", FileKind::Dir, 0, 1),
        entry("x", FileKind::File, 4, 1),
        false,
        true,
    );
    assert_eq!(describe(&plan_entry(&d).unwrap()), vec!["rm x", "mkdir x"]);
    let f = classify_entries(
        entry("y", FileKind::File, 4, 1),
        entry("y", FileKind::Dir, 0, 1),
        false,
        true,
    );
    assert_eq!(describe(&plan_entry(&f).unwrap()), vec!["rm -r y", "copy y"]);
}

#[test]
fn modified_file_is_copied_again() {
    let m = classify_entries(
        entry("a/f", FileKind::File, 4, 2),
        entry("a/f", FileKind::File, 4, 1),
        false,
        true,
    );
    assert_eq!(describe(&plan_entry(&m).unwrap()), vec!["copy a/f"]);
}

#[test]
fn present_and_removed_need_nothing() {
    let present = DiffEntry::Present {
        src: entry("f", FileKind::File, 1, 1),
        tgt: entry("f", FileKind::File, 1, 1),
    };
    assert!(plan_entry(&present).unwrap().is_empty());
    let removed = DiffEntry::Removed { tgt: entry("g", FileKind::File, 1, 1) };
    assert!(plan_entry(&removed).unwrap().is_empty());
}

#[test]
fn unsupported_source_type_is_an_error() {
    let mut sync = Synchronizer::new();
    let link = DiffEntry::Added { src: entry("l", FileKind::Symlink, 0, 1) };
    match sync.apply(&link) {
        Err(SyncError::UnsupportedFileType(q)) => assert_eq!(q, p("l")),
        _ => panic!("expected an unsupported type"),
    }
    assert_eq!(sync.files(), 0);
    let other = classify_entries(
        entry("s", FileKind::Other, 0, 1),
        entry("s", FileKind::File, 0, 1),
        false,
        true,
    );
    assert!(matches!(plan_entry(&other), Err(SyncError::UnsupportedFileType(_))));
}

#[test]
fn destination_root_checks() {
    match ensure_dest(DestState::Missing) {
        Ok(Some(SyncAction::CreateDir(q))) => assert!(q.is_empty()),
        _ => panic!("expected a directory to create"),
    }
    assert!(matches!(ensure_dest(DestState::NotDirectory), Err(SyncError::NotADirectory)));
}

#[test]
fn copied_file_compares_present_and_needs_nothing_more() {
    let src = entry("f", FileKind::File, 7, 3);
    let old = entry("f", FileKind::File, 2, 1);
    let d = classify_entries(entry("f", FileKind::File, 7, 3), old, true, true);
    assert_eq!(describe(&plan_entry(&d).unwrap()), vec!["copy f"]);
    // what the copy leaves: the source's bytes, size and modification time
    let after = entry("f", FileKind::File, src.size, 3);
    let again = classify_entries(src, after, true, true);
    assert!(matches!(again, DiffEntry::Present { .. }));
    assert!(plan_entry(&again).unwrap().is_empty());
}
