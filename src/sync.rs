//! Making a destination tree mirror a source tree.
//!
//! [`plan_entry`] turns one classification of a comparison between source
//! and destination into the filesystem actions that bring the destination
//! path in line with the source; [`Synchronizer`] counts what the actions
//! create. The caller performs the actions, in order, and stops at the first
//! failure. Destination-only paths are left in place.
use vstd::prelude::*;

use crate::diff::{
    classify, diff_of, lemma_identical_all_present, mirrors, DiffEntry, DiffView,
};
use crate::path::{copy_path, path_view, RelPath};
use crate::walk::{EntryView, FileKind};

verus! {

/// One change to the destination tree, at a path relative to its root.
#[derive(Debug)]
pub enum SyncAction {
    /// Create this directory; its parent exists.
    CreateDir(RelPath),
    /// Copy the source file's bytes and modification time to this path,
    /// through a temporary file beside it that is renamed into place.
    CopyFile(RelPath),
    /// Remove this file.
    RemoveFile(RelPath),
    /// Remove this directory and everything below it.
    RemoveDirAll(RelPath),
}

/// What a [`SyncAction`] holds, with its path as byte sequences.
pub enum ActionView {
    CreateDir(Seq<Seq<u8>>),
    CopyFile(Seq<Seq<u8>>),
    RemoveFile(Seq<Seq<u8>>),
    RemoveDirAll(Seq<Seq<u8>>),
}

impl View for SyncAction {
    type V = ActionView;

    open spec fn view(&self) -> ActionView {
        match self {
            SyncAction::CreateDir(p) => ActionView::CreateDir(path_view(p@)),
            SyncAction::CopyFile(p) => ActionView::CopyFile(path_view(p@)),
            SyncAction::RemoveFile(p) => ActionView::RemoveFile(path_view(p@)),
            SyncAction::RemoveDirAll(p) => ActionView::RemoveDirAll(path_view(p@)),
        }
    }
}

/// Why a destination cannot be brought in line.
#[derive(Debug)]
pub enum SyncError {
    /// The source object at this path is neither a regular file nor a
    /// directory.
    UnsupportedFileType(RelPath),
    /// The destination root exists and is not a directory.
    NotADirectory,
}

/// What is found at the destination root before anything is done.
#[derive(Clone, Copy, Debug, PartialEq, Eq, Structural)]
pub enum DestState {
    Missing,
    Directory,
    NotDirectory,
}

/// The views of a sequence of actions.
pub open spec fn actions_view(acts: Seq<SyncAction>) -> Seq<ActionView> {
    Seq::new(acts.len(), |i: int| acts[i]@)
}

/// The types of source object that can be mirrored.
pub open spec fn supported(k: FileKind) -> bool {
    k == FileKind::File || k == FileKind::Dir
}

/// The source object that a classification speaks of, if any.
pub open spec fn source_of(d: DiffView) -> Option<EntryView> {
    match d {
        DiffView::Present { src, .. } => Some(src),
        DiffView::Added { src } => Some(src),
        DiffView::Removed { .. } => None,
        DiffView::Modified { src, .. } => Some(src),
    }
}

/// The actions that bring one destination path in line with the source, or
/// `None` where the source object's type cannot be mirrored.
pub open spec fn plan_of(d: DiffView) -> Option<Seq<ActionView>> {
    match d {
        DiffView::Present { .. } => Some(Seq::empty()),
        DiffView::Removed { .. } => Some(Seq::empty()),
        DiffView::Added { src } => if src.file_type == FileKind::Dir {
            Some(seq![ActionView::CreateDir(src.path)])
        } else if src.file_type == FileKind::File {
            Some(seq![ActionView::CopyFile(src.path)])
        } else {
            None
        },
        DiffView::Modified { src, tgt, ch_type, .. } => if !supported(src.file_type) {
            None
        } else {
            let removal = if ch_type {
                if tgt.file_type == FileKind::Dir {
                    seq![ActionView::RemoveDirAll(tgt.path)]
                } else {
                    seq![ActionView::RemoveFile(tgt.path)]
                }
            } else {
                Seq::empty()
            };
            let creation = if src.file_type == FileKind::File {
                seq![ActionView::CopyFile(src.path)]
            } else if ch_type {
                seq![ActionView::CreateDir(src.path)]
            } else {
                Seq::empty()
            };
            Some(removal + creation)
        },
    }
}

/// The number of actions that copy a file.
pub open spec fn files_copied(acts: Seq<ActionView>) -> nat
    decreases acts.len(),
{
    if acts.len() == 0 {
        0
    } else {
        files_copied(acts.drop_last()) + if acts.last() is CopyFile {
            1nat
        } else {
            0nat
        }
    }
}

/// The number of actions that create a directory.
pub open spec fn dirs_created(acts: Seq<ActionView>) -> nat
    decreases acts.len(),
{
    if acts.len() == 0 {
        0
    } else {
        dirs_created(acts.drop_last()) + if acts.last() is CreateDir {
            1nat
        } else {
            0nat
        }
    }
}

/// The actions that bring the destination path of one classification in line
/// with the source.
pub fn plan_entry(entry: &DiffEntry) -> (r: Result<Vec<SyncAction>, SyncError>)
    ensures
        match plan_of(entry@) {
            Some(acts) => (r matches Ok(v) && actions_view(v@) == acts),
            None => (r matches Err(SyncError::UnsupportedFileType(p)) && path_view(p@)
                == source_of(entry@).unwrap().path),
        },
{
    let mut acts: Vec<SyncAction> = Vec::new();
    match entry {
        DiffEntry::Present { .. } => {},
        DiffEntry::Removed { .. } => {},
        DiffEntry::Added { src } => {
            if src.file_type == FileKind::Dir {
                acts.push(SyncAction::CreateDir(copy_path(&src.path)));
            } else if src.file_type == FileKind::File {
                acts.push(SyncAction::CopyFile(copy_path(&src.path)));
            } else {
                return Err(SyncError::UnsupportedFileType(copy_path(&src.path)));
            }
        },
        DiffEntry::Modified { src, tgt, ch_type, .. } => {
            if src.file_type != FileKind::File && src.file_type != FileKind::Dir {
                return Err(SyncError::UnsupportedFileType(copy_path(&src.path)));
            }
            if *ch_type {
                if tgt.file_type == FileKind::Dir {
                    acts.push(SyncAction::RemoveDirAll(copy_path(&tgt.path)));
                } else {
                    acts.push(SyncAction::RemoveFile(copy_path(&tgt.path)));
                }
            }
            if src.file_type == FileKind::File {
                acts.push(SyncAction::CopyFile(copy_path(&src.path)));
            } else if *ch_type {
                acts.push(SyncAction::CreateDir(copy_path(&src.path)));
            }
        },
    }
    assert(actions_view(acts@) =~= plan_of(entry@).unwrap());
    Ok(acts)
}

/// What to do at the destination root before any entry: create it when it is
/// missing, nothing when it is a directory, fail otherwise.
pub fn ensure_dest(state: DestState) -> (r: Result<Option<SyncAction>, SyncError>)
    ensures
        state == DestState::Missing ==> (r matches Ok(Some(a)) && a@ == ActionView::CreateDir(
            Seq::empty(),
        )),
        state == DestState::Directory ==> r matches Ok(None),
        state == DestState::NotDirectory ==> r matches Err(SyncError::NotADirectory),
{
    match state {
        DestState::Missing => {
            let root: RelPath = Vec::new();
            assert(path_view(root@) =~= Seq::<Seq<u8>>::empty());
            Ok(Some(SyncAction::CreateDir(root)))
        },
        DestState::Directory => Ok(None),
        DestState::NotDirectory => Err(SyncError::NotADirectory),
    }
}

/// A pass over a comparison of source and destination: it plans the actions
/// for each classification and counts the files copied and the directories
/// created (saturating at the largest `u64`).
pub struct Synchronizer {
    n_files: u64,
    n_dirs: u64,
}

impl Synchronizer {
    pub closed spec fn files_spec(&self) -> u64 {
        self.n_files
    }

    pub closed spec fn dirs_spec(&self) -> u64 {
        self.n_dirs
    }

    pub fn new() -> (s: Synchronizer)
        ensures
            s.files_spec() == 0,
            s.dirs_spec() == 0,
    {
        Synchronizer { n_files: 0, n_dirs: 0 }
    }

    /// The files copied so far.
    pub fn files(&self) -> (r: u64)
        ensures
            r == self.files_spec(),
    {
        self.n_files
    }

    /// The directories created so far.
    pub fn dirs(&self) -> (r: u64)
        ensures
            r == self.dirs_spec(),
    {
        self.n_dirs
    }

    /// Plan the actions for one classification and count them.
    pub fn apply(&mut self, entry: &DiffEntry) -> (r: Result<Vec<SyncAction>, SyncError>)
        ensures
            match plan_of(entry@) {
                Some(acts) => {
                    &&& r matches Ok(v) && actions_view(v@) == acts
                    &&& final(self).files_spec() == min_u64(
                        old(self).files_spec() + files_copied(acts),
                    )
                    &&& final(self).dirs_spec() == min_u64(
                        old(self).dirs_spec() + dirs_created(acts),
                    )
                },
                None => {
                    &&& r matches Err(SyncError::UnsupportedFileType(p)) && path_view(p@)
                        == source_of(entry@).unwrap().path
                    &&& *final(self) == *old(self)
                },
            },
    {
        let r = plan_entry(entry);
        if let Ok(acts) = &r {
            let mut i: usize = 0;
            while i < acts.len()
                invariant
                    i <= acts.len(),
                    self.n_files == min_u64(
                        old(self).n_files + files_copied(actions_view(acts@).subrange(0, i as int)),
                    ),
                    self.n_dirs == min_u64(
                        old(self).n_dirs + dirs_created(actions_view(acts@).subrange(0, i as int)),
                    ),
                decreases acts.len() - i,
            {
                let ghost prefix = actions_view(acts@).subrange(0, i as int);
                let ghost next = actions_view(acts@).subrange(0, i + 1);
                assert(next.drop_last() =~= prefix);
                assert(next.last() == acts@[i as int]@);
                match &acts[i] {
                    SyncAction::CopyFile(_) => {
                        if self.n_files < u64::MAX {
                            self.n_files = self.n_files + 1;
                        }
                    },
                    SyncAction::CreateDir(_) => {
                        if self.n_dirs < u64::MAX {
                            self.n_dirs = self.n_dirs + 1;
                        }
                    },
                    _ => {},
                }
                i = i + 1;
            }
            assert(actions_view(acts@).subrange(0, acts.len() as int) =~= actions_view(acts@));
        }
        r
    }
}

/// A count capped at the largest `u64`.
pub open spec fn min_u64(n: int) -> u64 {
    if n < u64::MAX {
        n as u64
    } else {
        u64::MAX
    }
}

/// The destination object that performing `acts` leaves at the path: a
/// directory after a final `CreateDir`, a copy of the source file (its size
/// and modification time kept) after a final `CopyFile`.
pub open spec fn leaves(acts: Seq<ActionView>, src: EntryView, after: EntryView) -> bool {
    acts.len() > 0 && match acts.last() {
        ActionView::CreateDir(p) => after.path == p && after.file_type == FileKind::Dir,
        ActionView::CopyFile(p) => {
            &&& after.path == p
            &&& after.file_type == FileKind::File
            &&& after.size == src.size
            &&& after.mtime == src.mtime
        },
        _ => false,
    }
}

/// Mirroring converges path by path. For a path that a comparison classified
/// as added, or as modified, with a source object that can be mirrored,
/// performing the planned actions leaves an object that mirrors the source,
/// which a new comparison classifies as present (contents being equal after a
/// copy); and a present path is planned no action, so a second pass over the
/// converged pair changes nothing.
pub proof fn lemma_sync_converges(
    d: DiffView,
    cc: bool,
    same: bool,
    after: EntryView,
)
    requires
        d is Added || (d is Modified && d == classify(d->Modified_src, d->Modified_tgt, cc, same)),
        plan_of(d) is Some,
        leaves(plan_of(d).unwrap(), source_of(d).unwrap(), after),
    ensures
        mirrors(source_of(d).unwrap(), after),
        classify(source_of(d).unwrap(), after, cc, true) is Present,
        plan_of(classify(source_of(d).unwrap(), after, cc, true)) == Some(Seq::<ActionView>::empty()),
{
    let acts = plan_of(d).unwrap();
    let src = source_of(d).unwrap();
    match d {
        DiffView::Modified { src, tgt, ch_type, .. } => {
            if src.file_type == FileKind::File {
                assert(acts.last() == ActionView::CopyFile(src.path));
            } else {
                assert(ch_type);
                assert(acts.last() == ActionView::CreateDir(src.path));
            }
        },
        _ => {},
    }
}

/// Mirroring converges over whole trees. Once every source object has been
/// mirrored (as [`lemma_sync_converges`] shows the planned actions do) and the
/// destination holds no other path, comparing source and destination again
/// classifies every path as present, and a second pass plans no action.
pub proof fn lemma_resync_plans_nothing(
    s: Seq<EntryView>,
    t: Seq<EntryView>,
    cc: bool,
    same: Map<Seq<Seq<u8>>, bool>,
)
    requires
        t.len() == s.len(),
        forall|i: int| 0 <= i < s.len() ==> mirrors(#[trigger] s[i], t[i]) && same[s[i].path],
    ensures
        diff_of(s, t, cc, same).len() == s.len(),
        forall|k: int|
            0 <= k < s.len() ==> (#[trigger] diff_of(s, t, cc, same)[k] is Present && plan_of(
                diff_of(s, t, cc, same)[k],
            ) == Some(Seq::<ActionView>::empty())),
{
    lemma_identical_all_present(s, t, cc, same);
}

} // verus!
