//! The configurations of the three commands, and what they print.
use vstd::prelude::*;

use crate::diff::{diff_path, DiffEntry, DiffView};
use crate::path::{path_view, RelPath};
use crate::walk::{FileKind, WalkEntry, Walker};

verus! {

/// How a walk treats links, hidden files and ignore files.
#[derive(Clone, Copy, Debug, PartialEq, Eq, Structural)]
pub struct WalkOptions {
    /// Follow symbolic links when traversing and copying.
    pub follow_symlinks: bool,
    /// Include hidden files.
    pub include_hidden: bool,
    /// Do not respect ignore files.
    pub no_ignore: bool,
}

/// List a directory.
#[derive(Debug)]
pub struct ListCmd {
    pub traverse: WalkOptions,
    /// List directories after their contents.
    pub dirs_last: bool,
    /// The directory to list.
    pub dir: String,
}

/// Compare two directories.
#[derive(Debug)]
pub struct DiffCmd {
    pub traverse: WalkOptions,
    /// Check the content of files if times and sizes are identical.
    pub check_content: bool,
    /// Include unchanged files in output.
    pub list_unchanged: bool,
    /// The source directory to compare.
    pub source: String,
    /// The target directory to compare.
    pub target: String,
}

/// Copy a directory.
#[derive(Debug)]
pub struct CopyCmd {
    pub traverse: WalkOptions,
    /// The source directory.
    pub src: String,
    /// The destination directory.
    pub dst: String,
}

/// The segments of a path joined by `/`.
pub open spec fn joined(p: Seq<Seq<u8>>) -> Seq<u8>
    decreases p.len(),
{
    if p.len() == 0 {
        Seq::empty()
    } else if p.len() == 1 {
        p[0]
    } else {
        joined(p.drop_last()) + seq![47u8] + p.last()
    }
}

/// A relative path as bytes, its segments joined by `/`.
pub fn display_path(p: &RelPath) -> (r: Vec<u8>)
    ensures
        r@ == joined(path_view(p@)),
{
    let mut r: Vec<u8> = Vec::new();
    let mut i: usize = 0;
    while i < p.len()
        invariant
            i <= p.len(),
            r@ == joined(path_view(p@).subrange(0, i as int)),
        decreases p.len() - i,
    {
        let ghost before = r@;
        if i > 0 {
            r.push(47u8);
        }
        let seg = &p[i];
        let mut j: usize = 0;
        let ghost base = r@;
        while j < seg.len()
            invariant
                j <= seg.len(),
                r@ == base + seg@.subrange(0, j as int),
            decreases seg.len() - j,
        {
            r.push(seg[j]);
            j = j + 1;
            assert(r@ =~= base + seg@.subrange(0, j as int));
        }
        proof {
            let pv = path_view(p@);
            let next = pv.subrange(0, i + 1);
            assert(next.drop_last() =~= pv.subrange(0, i as int));
            assert(next.last() == seg@);
            assert(seg@.subrange(0, seg.len() as int) =~= seg@);
            if i == 0 {
                assert(before =~= Seq::<u8>::empty());
                assert(r@ =~= seg@);
            } else {
                assert(r@ =~= before + seq![47u8] + seg@);
            }
        }
        i = i + 1;
    }
    assert(path_view(p@).subrange(0, p.len() as int) =~= path_view(p@));
    r
}

/// The line that listing prints for an entry: its path, with a `/` after a
/// directory.
pub fn list_line(entry: &WalkEntry) -> (r: Vec<u8>)
    ensures
        r@ == if entry.file_type == FileKind::Dir {
            joined(entry@.path).push(47u8)
        } else {
            joined(entry@.path)
        },
{
    let mut r = display_path(&entry.path);
    if entry.file_type == FileKind::Dir {
        r.push(47u8);
    }
    r
}

/// The marker that comparison prints before a classification's path.
pub open spec fn marker_of(d: DiffView) -> u8 {
    match d {
        DiffView::Present { .. } => 32u8,
        DiffView::Added { .. } => 43u8,
        DiffView::Removed { .. } => 45u8,
        DiffView::Modified { .. } => 120u8,
    }
}

impl DiffCmd {
    /// The line printed for a classification: a marker (`+` added, `-`
    /// removed, `x` modified, a space for present), a space, and the path.
    /// Present paths are printed only when unchanged files are listed.
    pub fn line_for(&self, entry: &DiffEntry) -> (r: Option<Vec<u8>>)
        ensures
            (entry@ is Present && !self.list_unchanged) ==> r is None,
            !(entry@ is Present && !self.list_unchanged) ==> (r matches Some(l) && l@ == seq![
                marker_of(entry@),
                32u8,
            ] + joined(diff_path(entry@))),
    {
        let (marker, path): (u8, &RelPath) = match entry {
            DiffEntry::Present { src, .. } => {
                if !self.list_unchanged {
                    return None;
                }
                (32u8, &src.path)
            },
            DiffEntry::Added { src } => (43u8, &src.path),
            DiffEntry::Removed { tgt } => (45u8, &tgt.path),
            DiffEntry::Modified { src, .. } => (120u8, &src.path),
        };
        let mut r: Vec<u8> = Vec::new();
        r.push(marker);
        r.push(32u8);
        let shown = display_path(path);
        let mut j: usize = 0;
        while j < shown.len()
            invariant
                j <= shown.len(),
                r@ == seq![marker, 32u8] + shown@.subrange(0, j as int),
            decreases shown.len() - j,
        {
            r.push(shown[j]);
            j = j + 1;
            assert(r@ =~= seq![marker, 32u8] + shown@.subrange(0, j as int));
        }
        assert(shown@.subrange(0, shown.len() as int) =~= shown@);
        Some(r)
    }
}

/// Interface for tree walking: a walk knows the root it walks.
pub trait TreeWalk {
    /// The path of the walk's root.
    fn root(&self) -> &str;
}

impl TreeWalk for Walker {
    fn root(&self) -> &str {
        self.config().root()
    }
}

} // verus!
