use std::cmp::Ordering;

use rdt::path::{compare_paths, is_hidden, sorted_children};
use rdt::walk::{DirPosition, FileKind, Timestamp, WalkBuilder, WalkEntry, WalkTask};

fn segments(p: &str) -> Vec<Vec<u8>> {
    if p.is_empty() {
        Vec::new()
    } else {
        p.split('/').map(|s| s.as_bytes().to_vec()).collect()
    }
}

fn joined(p: &[Vec<u8>]) -> String {
    p.iter()
        .map(|s| String::from_utf8(s.clone()).unwrap())
        .collect::<Vec<_>>()
        .join("/")
}

/// Drive a walk over a tree given as (path, type) pairs; the listing of a
/// directory is handed over in the order the pairs are given.
fn run_walk(builder: WalkBuilder, tree: &[(&str, FileKind)]) -> (Vec<String>, Vec<String>) {
    let mut walker = builder.walk();
    let mut delivered = Vec::new();
    let mut listed = Vec::new();
    loop {
        match walker.next_task() {
            WalkTask::ScanDir(dir) => {
                let d = joined(&dir);
                listed.push(d.clone());
                let mut names = Vec::new();
                for (p, _) in tree {
                    let segs = segments(p);
                    if segs.len() == dir.len() + 1 && segs[..dir.len()] == dir[..] {
                        names.push(segs[dir.len()].clone());
                    }
                }
                walker.dir_scanned(names);
            }
            WalkTask::Stat(path) => {
                let p = joined(&path);
                let kind = tree.iter().find(|(q, _)| *q == p).unwrap().1;
                let mtime = Some(Timestamp { secs: 100, nanos: 0 });
                if let Some(e) = walker.entry_scanned(kind, 10, mtime, None) {
                    delivered.push(joined(e.path()));
                }
            }
            WalkTask::Emit(e) => delivered.push(joined(e.path())),
            WalkTask::Noop => {}
            WalkTask::Finished => break,
        }
    }
    (delivered, listed)
}

fn scenario_tree() -> Vec<(&'static str, FileKind)> {
    vec![
        ("c", FileKind::Dir),
        ("b", FileKind::File),
        ("c/d", FileKind::File),
        ("a", FileKind::File),
    ]
}

#[test]
fn walk_default_order_lists_directories_first() {
    let (out, _) = run_walk(WalkBuilder::for_directory("/root"), &scenario_tree());
    assert_eq!(out, vec!["a", "b", "c", "c/d"]);
}

#[test]
fn walk_dirs_last_lists_directories_after_contents() {
    let mut b = WalkBuilder::for_directory("/root");
    b.dir_position(DirPosition::Last);
    let (out, _) = run_walk(b, &scenario_tree());
    assert_eq!(out, vec!["a", "b", "c/d", "c"]);
}

#[test]
fn walk_dirs_never_still_visits_children() {
    let mut b = WalkBuilder::for_directory("/root");
    b.dir_position(DirPosition::Never);
    let (out, listed_never) = run_walk(b, &scenario_tree());
    assert_eq!(out, vec!["a", "b", "c/d"]);
    let (_, listed_first) = run_walk(WalkBuilder::for_directory("/root"), &scenario_tree());
    assert_eq!(listed_never, listed_first);
    assert_eq!(listed_never, vec!["", "c"]);
}

#[test]
fn walk_output_is_strictly_ascending() {
    let tree = vec![
        ("z", FileKind::File),
        ("a", FileKind::Dir),
        ("a/b", FileKind::Dir),
        ("a/b/c", FileKind::File),
        ("a-b", FileKind::File),
        ("a/a", FileKind::File),
    ];
    let (out, _) = run_walk(WalkBuilder::for_directory("r"), &tree);
    assert_eq!(out, vec!["a", "a/a", "a/b", "a/b/c", "a-b", "z"]);
}

#[test]
fn walk_skips_hidden_names_when_asked() {
    let tree = vec![
        (".git", FileKind::Dir),
        (".git/config", FileKind::File),
        ("x", FileKind::File),
    ];
    let mut b = WalkBuilder::for_directory("r");
    b.include_hidden(false);
    let (out, _) = run_walk(b, &tree);
    assert_eq!(out, vec!["x"]);
    let (all, _) = run_walk(WalkBuilder::for_directory("r"), &tree);
    assert_eq!(all, vec![".git", ".git/config", "x"]);
}

#[test]
fn walk_of_empty_root_delivers_nothing() {
    let (out, listed) = run_walk(WalkBuilder::for_directory("r"), &[]);
    assert!(out.is_empty());
    assert_eq!(listed, vec![""]);
}

#[test]
fn walk_entry_carries_metadata() {
    let mut walker = WalkBuilder::for_directory("r").walk();
    assert!(matches!(walker.next_task(), WalkTask::ScanDir(p) if p.is_empty()));
    walker.dir_scanned(vec![b"f".to_vec()]);
    assert!(matches!(walker.next_task(), WalkTask::Stat(p) if p == vec![b"f".to_vec()]));
    let t = Some(Timestamp { secs: 5, nanos: 7 });
    let e: WalkEntry = walker.entry_scanned(FileKind::File, 42, t, None).unwrap();
    assert_eq!(e.size, 42);
    assert_eq!(e.mtime, t);
    assert!(e.is_file());
    assert!(!e.is_directory());
    assert!(!e.is_symlink());
    assert_eq!(e.file_type(), FileKind::File);
    assert!(matches!(walker.next_task(), WalkTask::Noop));
    assert!(matches!(walker.next_task(), WalkTask::Finished));
}

#[test]
fn answers_without_a_question_are_ignored() {
    let mut walker = WalkBuilder::for_directory("r").walk();
    assert!(walker.entry_scanned(FileKind::File, 1, None, None).is_none());
    walker.dir_scanned(vec![b"x".to_vec()]);
    assert!(matches!(walker.next_task(), WalkTask::ScanDir(_)));
}

#[test]
fn builder_defaults_and_setters() {
    let mut b = WalkBuilder::for_directory("/data");
    assert_eq!(b.root(), "/data");
    assert_eq!(b.buffer_size(), 1000);
    assert!(!b.follows());
    assert!(b.includes_hidden());
    assert_eq!(b.position(), DirPosition::First);
    b.follow_symlinks(true).include_hidden(false).dir_position(DirPosition::Last);
    assert!(b.follows());
    assert!(!b.includes_hidden());
    assert_eq!(b.position(), DirPosition::Last);
}

#[test]
fn children_are_sorted_deduplicated_and_filtered() {
    let names = vec![
        b"b".to_vec(),
        b".h".to_vec(),
        b"a".to_vec(),
        b"b".to_vec(),
        b"ab".to_vec(),
    ];
    let all = sorted_children(names.clone(), true);
    assert_eq!(all, vec![b".h".to_vec(), b"a".to_vec(), b"ab".to_vec(), b"b".to_vec()]);
    let visible = sorted_children(names, false);
    assert_eq!(visible, vec![b"a".to_vec(), b"ab".to_vec(), b"b".to_vec()]);
}

#[test]
fn hidden_names_start_with_a_dot() {
    assert!(is_hidden(&b".profile".to_vec()));
    assert!(!is_hidden(&b"profile".to_vec()));
    assert!(!is_hidden(&Vec::new()));
}

#[test]
fn paths_compare_segment_by_segment() {
    assert_eq!(compare_paths(&segments("a/b"), &segments("a-b")), Ordering::Less);
    assert_eq!(compare_paths(&segments("a"), &segments("a/b")), Ordering::Less);
    assert_eq!(compare_paths(&segments("b"), &segments("a/z")), Ordering::Greater);
    assert_eq!(compare_paths(&segments("a/b"), &segments("a/b")), Ordering::Equal);
}
