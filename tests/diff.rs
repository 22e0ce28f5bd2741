use rdt::commands::{display_path, list_line, DiffCmd, WalkOptions};
use rdt::diff::{classify_entries, diff_walkers, DiffEntry, DiffStep, TreeDiff};
use rdt::walk::{FileKind, Timestamp, WalkEntry};

fn entry(path: &str, kind: FileKind, size: u64, secs: i64) -> WalkEntry {
    WalkEntry {
        path: path.split('/').map(|s| s.as_bytes().to_vec()).collect(),
        file_type: kind,
        size,
        mtime: Some(Timestamp { secs, nanos: 0 }),
        ctime: None,
    }
}

fn file(path: &str, size: u64, secs: i64) -> WalkEntry {
    entry(path, FileKind::File, size, secs)
}

fn dir(path: &str) -> WalkEntry {
    entry(path, FileKind::Dir, 0, 1)
}

fn show(p: &[Vec<u8>]) -> String {
    String::from_utf8(display_path(&p.to_vec())).unwrap()
}

/// Run a comparison to its end; `identical` answers comparisons of contents.
fn run_diff(
    mut d: TreeDiff,
    src: Vec<WalkEntry>,
    tgt: Vec<WalkEntry>,
    identical: &dyn Fn(&str) -> bool,
) -> Vec<DiffEntry> {
    let mut src = src.into_iter();
    let mut tgt = tgt.into_iter();
    let mut out = Vec::new();
    loop {
        match d.next_step() {
            DiffStep::PullSource => assert!(d.source_item(src.next())),
            DiffStep::PullTarget => assert!(d.target_item(tgt.next())),
            DiffStep::CheckContent(p) => {
                let same = identical(&show(&p));
                out.push(d.content_checked(same).unwrap());
            }
            DiffStep::Yield(e) => out.push(e),
            DiffStep::Finished => break,
        }
    }
    out
}

fn summary(out: &[DiffEntry]) -> Vec<String> {
    out.iter()
        .map(|e| match e {
            DiffEntry::Present { src, .. } => format!("= {}", show(src.path())),
            DiffEntry::Added { src } => format!("+ {}", show(src.path())),
            DiffEntry::Removed { tgt } => format!("- {}", show(tgt.path())),
            DiffEntry::Modified { src, ch_type, ch_mtime, ch_size, ch_content, .. } => format!(
                "x {} {}{}{}{}",
                show(src.path()),
                *ch_type as u8,
                *ch_mtime as u8,
                *ch_size as u8,
                *ch_content as u8
            ),
        })
        .collect()
}

#[test]
fn diff_mtime_change_is_modified_in_mtime_only() {
    let out = run_diff(
        diff_walkers(),
        vec![file("f", 10, 1)],
        vec![file("f", 10, 2)],
        &|_| true,
    );
    assert_eq!(out.len(), 1);
    match &out[0] {
        DiffEntry::Modified { ch_type, ch_mtime, ch_size, ch_content, .. } => {
            assert!(!*ch_type);
            assert!(*ch_mtime);
            assert!(!*ch_size);
            assert!(!*ch_content);
        }
        _ => panic!("expected a modification"),
    }
}

#[test]
fn diff_covers_union_of_paths_once_each() {
    let src = vec![file("a", 1, 1), dir("c"), file("c/x", 2, 1), file("d", 3, 1)];
    let tgt = vec![file("b", 1, 1), dir("c"), file("c/x", 5, 1), file("c/y", 1, 1), file("d", 3, 1)];
    let out = run_diff(TreeDiff::new(false), src, tgt, &|_| true);
    assert_eq!(
        summary(&out),
        vec!["+ a", "- b", "= c", "x c/x 0010", "- c/y", "= d"]
    );
}

#[test]
fn diff_of_identical_trees_is_all_present() {
    let tree = || vec![dir("d"), file("d/f", 4, 9), file("g", 0, 3)];
    let out = run_diff(TreeDiff::new(true), tree(), tree(), &|_| true);
    assert_eq!(out.len(), 3);
    assert!(out.iter().all(|e| matches!(e, DiffEntry::Present { .. })));
}

#[test]
fn diff_content_change_needs_content_check() {
    let with_check = run_diff(
        TreeDiff::new(true),
        vec![file("f", 10, 1)],
        vec![file("f", 10, 1)],
        &|_| false,
    );
    assert_eq!(summary(&with_check), vec!["x f 0001"]);
    let without = run_diff(
        TreeDiff::new(false),
        vec![file("f", 10, 1)],
        vec![file("f", 10, 1)],
        &|_| false,
    );
    assert_eq!(summary(&without), vec!["= f"]);
}

#[test]
fn diff_type_change_skips_other_flags() {
    let out = run_diff(TreeDiff::new(true), vec![dir("p")], vec![file("p", 3, 8)], &|_| true);
    assert_eq!(summary(&out), vec!["x p 1000"]);
}

#[test]
fn diff_empty_walks_finish_at_once() {
    let out = run_diff(diff_walkers(), Vec::new(), Vec::new(), &|_| true);
    assert!(out.is_empty());
}

#[test]
fn diff_refuses_unordered_items() {
    let mut d = diff_walkers();
    assert!(matches!(d.next_step(), DiffStep::PullSource));
    assert!(d.source_item(Some(file("b", 1, 1))));
    assert!(matches!(d.next_step(), DiffStep::PullTarget));
    assert!(d.target_item(None));
    assert!(matches!(d.next_step(), DiffStep::Yield(DiffEntry::Added { .. })));
    assert!(matches!(d.next_step(), DiffStep::PullSource));
    assert!(!d.source_item(Some(file("a", 1, 1))));
    assert!(!d.source_item(Some(file("b", 1, 1))));
    assert!(d.source_item(Some(file("c", 1, 1))));
    assert!(!d.source_item(Some(file("d", 1, 1))));
    assert!(d.content_checked(true).is_none());
}

#[test]
fn classify_compares_size_only_for_same_type() {
    let e = classify_entries(file("f", 1, 1), file("f", 2, 1), false, true);
    assert_eq!(summary(&[e]), vec!["x f 0010"]);
    let e = classify_entries(dir("f"), dir("f"), true, false);
    assert_eq!(summary(&[e]), vec!["= f"]);
}

#[test]
fn compare_lines_mark_each_kind() {
    let mut cmd = DiffCmd {
        traverse: WalkOptions { follow_symlinks: false, include_hidden: false, no_ignore: false },
        check_content: false,
        list_unchanged: false,
        source: "s".to_string(),
        target: "t".to_string(),
    };
    let present = DiffEntry::Present { src: file("a/b", 1, 1), tgt: file("a/b", 1, 1) };
    assert!(cmd.line_for(&present).is_none());
    cmd.list_unchanged = true;
    assert_eq!(cmd.line_for(&present).unwrap(), b"  a/b".to_vec());
    let added = DiffEntry::Added { src: file("n", 1, 1) };
    assert_eq!(cmd.line_for(&added).unwrap(), b"+ n".to_vec());
    let removed = DiffEntry::Removed { tgt: file("o", 1, 1) };
    assert_eq!(cmd.line_for(&removed).unwrap(), b"- o".to_vec());
    let modified = classify_entries(file("m", 1, 1), file("m", 1, 2), false, true);
    assert_eq!(cmd.line_for(&modified).unwrap(), b"x m".to_vec());
}

#[test]
fn list_lines_mark_directories() {
    assert_eq!(list_line(&dir("a/b")), b"a/b/".to_vec());
    assert_eq!(list_line(&file("a/c", 1, 1)), b"a/c".to_vec());
}
