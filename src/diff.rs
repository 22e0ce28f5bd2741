//! Comparing two walks.
//!
//! [`TreeDiff`] merge-joins a source walk and a target walk, each in ascending
//! path order, into one classification per path. The caller pulls the walks
//! and compares file contents when a step asks for it; the classification of
//! everything handed over is [`diff_of`] of the two walks.
use vstd::prelude::*;

use crate::path::{
    compare_paths, copy_path, lemma_ascending_push, lemma_path_lt_asymmetric_or_equal,
    lemma_path_lt_irreflexive, lemma_path_lt_transitive, path_lt, path_view, paths_ascending,
    RelPath,
};
use crate::walk::{EntryView, FileKind, Timestamp, WalkEntry};

verus! {

/// Entry representing a difference between trees.
#[derive(Debug)]
pub enum DiffEntry {
    /// A path is present in both trees, and they are considered equal.
    Present { src: WalkEntry, tgt: WalkEntry },
    /// A path is only in the source tree.
    Added { src: WalkEntry },
    /// A path is only in the target tree.
    Removed { tgt: WalkEntry },
    /// A path is in both trees, and they differ. `ch_content` is only set when
    /// contents are checked and the three other flags are all unset.
    Modified {
        src: WalkEntry,
        tgt: WalkEntry,
        ch_type: bool,
        ch_mtime: bool,
        ch_size: bool,
        ch_content: bool,
    },
}

/// What a [`DiffEntry`] holds.
pub enum DiffView {
    Present { src: EntryView, tgt: EntryView },
    Added { src: EntryView },
    Removed { tgt: EntryView },
    Modified {
        src: EntryView,
        tgt: EntryView,
        ch_type: bool,
        ch_mtime: bool,
        ch_size: bool,
        ch_content: bool,
    },
}

impl View for DiffEntry {
    type V = DiffView;

    open spec fn view(&self) -> DiffView {
        match self {
            DiffEntry::Present { src, tgt } => DiffView::Present { src: src@, tgt: tgt@ },
            DiffEntry::Added { src } => DiffView::Added { src: src@ },
            DiffEntry::Removed { tgt } => DiffView::Removed { tgt: tgt@ },
            DiffEntry::Modified { src, tgt, ch_type, ch_mtime, ch_size, ch_content } =>
                DiffView::Modified {
                src: src@,
                tgt: tgt@,
                ch_type: *ch_type,
                ch_mtime: *ch_mtime,
                ch_size: *ch_size,
                ch_content: *ch_content,
            },
        }
    }
}

/// The path that a classification is about.
pub open spec fn diff_path(d: DiffView) -> Seq<Seq<u8>> {
    match d {
        DiffView::Present { src, .. } => src.path,
        DiffView::Added { src } => src.path,
        DiffView::Removed { tgt } => tgt.path,
        DiffView::Modified { src, .. } => src.path,
    }
}

/// The two objects differ in type.
pub open spec fn type_changed(s: EntryView, t: EntryView) -> bool {
    s.file_type != t.file_type
}

/// Two non-directories of one type differ in modification time.
pub open spec fn mtime_changed(s: EntryView, t: EntryView) -> bool {
    s.file_type == t.file_type && s.file_type != FileKind::Dir && s.mtime != t.mtime
}

/// Two non-directories of one type differ in size.
pub open spec fn size_changed(s: EntryView, t: EntryView) -> bool {
    s.file_type == t.file_type && s.file_type != FileKind::Dir && s.size != t.size
}

/// Two objects at one path ask for a comparison of contents: contents are
/// checked, they are regular files, and their metadata shows no difference.
pub open spec fn needs_content_check(s: EntryView, t: EntryView, check_content: bool) -> bool {
    &&& check_content
    &&& s.file_type == FileKind::File
    &&& !type_changed(s, t)
    &&& !mtime_changed(s, t)
    &&& !size_changed(s, t)
}

/// The classification of two objects at one path; `same` is the outcome of
/// the comparison of contents, which counts only where one is asked for.
pub open spec fn classify(s: EntryView, t: EntryView, check_content: bool, same: bool) -> DiffView {
    if type_changed(s, t) || mtime_changed(s, t) || size_changed(s, t) {
        DiffView::Modified {
            src: s,
            tgt: t,
            ch_type: type_changed(s, t),
            ch_mtime: mtime_changed(s, t),
            ch_size: size_changed(s, t),
            ch_content: false,
        }
    } else if needs_content_check(s, t, check_content) && !same {
        DiffView::Modified {
            src: s,
            tgt: t,
            ch_type: false,
            ch_mtime: false,
            ch_size: false,
            ch_content: true,
        }
    } else {
        DiffView::Present { src: s, tgt: t }
    }
}

/// The classification of two walks `s` (source) and `t` (target), each in
/// ascending path order; `same` maps a path to the outcome of the comparison
/// of its contents. Defined from the largest path down.
pub open spec fn diff_of(
    s: Seq<EntryView>,
    t: Seq<EntryView>,
    check_content: bool,
    same: Map<Seq<Seq<u8>>, bool>,
) -> Seq<DiffView>
    decreases s.len() + t.len(),
{
    if s.len() == 0 && t.len() == 0 {
        Seq::empty()
    } else if t.len() == 0 || (s.len() > 0 && path_lt(t.last().path, s.last().path)) {
        diff_of(s.drop_last(), t, check_content, same).push(DiffView::Added { src: s.last() })
    } else if s.len() == 0 || path_lt(s.last().path, t.last().path) {
        diff_of(s, t.drop_last(), check_content, same).push(DiffView::Removed { tgt: t.last() })
    } else {
        diff_of(s.drop_last(), t.drop_last(), check_content, same).push(
            classify(s.last(), t.last(), check_content, same[s.last().path]),
        )
    }
}

/// The paths of a sequence of entries.
pub open spec fn entry_paths(es: Seq<EntryView>) -> Seq<Seq<Seq<u8>>> {
    Seq::new(es.len(), |i: int| es[i].path)
}

/// The paths of a sequence of classifications.
pub open spec fn diff_paths(ds: Seq<DiffView>) -> Seq<Seq<Seq<u8>>> {
    Seq::new(ds.len(), |i: int| diff_path(ds[i]))
}

/// Every entry's path lies before `p`.
pub open spec fn all_before(es: Seq<EntryView>, p: Seq<Seq<u8>>) -> bool {
    forall|i: int| 0 <= i < es.len() ==> path_lt(#[trigger] es[i].path, p)
}

/// Every entry's path lies before `p` or is `p`.
pub open spec fn all_upto(es: Seq<EntryView>, p: Seq<Seq<u8>>) -> bool {
    forall|i: int| 0 <= i < es.len() ==> path_lt(#[trigger] es[i].path, p) || es[i].path == p
}

/// The outcome recorded for a path that no entry has does not matter.
proof fn lemma_diff_frame(
    s: Seq<EntryView>,
    t: Seq<EntryView>,
    cc: bool,
    same: Map<Seq<Seq<u8>>, bool>,
    p: Seq<Seq<u8>>,
    b: bool,
)
    requires
        all_before(s, p),
        all_before(t, p),
    ensures
        diff_of(s, t, cc, same.insert(p, b)) == diff_of(s, t, cc, same),
    decreases s.len() + t.len(),
{
    if s.len() == 0 && t.len() == 0 {
    } else if t.len() == 0 || (s.len() > 0 && path_lt(t.last().path, s.last().path)) {
        lemma_diff_frame(s.drop_last(), t, cc, same, p, b);
    } else if s.len() == 0 || path_lt(s.last().path, t.last().path) {
        lemma_diff_frame(s, t.drop_last(), cc, same, p, b);
    } else {
        lemma_diff_frame(s.drop_last(), t.drop_last(), cc, same, p, b);
        assert(path_lt(s[s.len() - 1].path, p));
        lemma_path_lt_irreflexive(p);
    }
}

/// Comparing two walks, each in ascending path order, classifies every path
/// of either walk exactly once: the classified paths ascend strictly, so none
/// repeats, and they are the paths of the source walk and of the target walk
/// together.
pub proof fn lemma_diff_covers_union(
    s: Seq<EntryView>,
    t: Seq<EntryView>,
    cc: bool,
    same: Map<Seq<Seq<u8>>, bool>,
)
    requires
        paths_ascending(entry_paths(s)),
        paths_ascending(entry_paths(t)),
    ensures
        paths_ascending(diff_paths(diff_of(s, t, cc, same))),
        forall|q: Seq<Seq<u8>>|
            #[trigger] diff_paths(diff_of(s, t, cc, same)).contains(q) <==> (entry_paths(
                s,
            ).contains(q) || entry_paths(t).contains(q)),
    decreases s.len() + t.len(),
{
    let d = diff_of(s, t, cc, same);
    if s.len() == 0 && t.len() == 0 {
        assert(diff_paths(d) =~= Seq::<Seq<Seq<u8>>>::empty());
        assert(entry_paths(s) =~= Seq::<Seq<Seq<u8>>>::empty());
        assert(entry_paths(t) =~= Seq::<Seq<Seq<u8>>>::empty());
    } else {
        let added = t.len() == 0 || (s.len() > 0 && path_lt(t.last().path, s.last().path));
        let removed = !added && (s.len() == 0 || path_lt(s.last().path, t.last().path));
        let s2 = if added || !removed {
            s.drop_last()
        } else {
            s
        };
        let t2 = if removed || !added {
            t.drop_last()
        } else {
            t
        };
        let m = if added || !removed {
            s.last().path
        } else {
            t.last().path
        };
        assert(entry_paths(s2) =~= if added || !removed {
            entry_paths(s).drop_last()
        } else {
            entry_paths(s)
        });
        assert(entry_paths(t2) =~= if removed || !added {
            entry_paths(t).drop_last()
        } else {
            entry_paths(t)
        });
        lemma_diff_covers_union(s2, t2, cc, same);
        let d2 = diff_of(s2, t2, cc, same);
        assert(d == d2.push(
            if added {
                DiffView::Added { src: s.last() }
            } else if removed {
                DiffView::Removed { tgt: t.last() }
            } else {
                classify(s.last(), t.last(), cc, same[s.last().path])
            },
        ));
        assert(diff_paths(d) =~= diff_paths(d2).push(m));
        // every path left lies before m
        assert forall|q: Seq<Seq<u8>>| entry_paths(s2).contains(q) || entry_paths(t2).contains(
            q,
        ) implies path_lt(q, m) by {
            if entry_paths(s2).contains(q) {
                let i = choose|i: int| 0 <= i < entry_paths(s2).len() && entry_paths(s2)[i] == q;
                assert(entry_paths(s)[i] == q);
                if added || !removed {
                    assert(path_lt(entry_paths(s)[i], entry_paths(s)[s.len() - 1]));
                } else {
                    assert(path_lt(entry_paths(s)[i], entry_paths(s)[s.len() - 1])
                        || i == s.len() - 1);
                    if i < s.len() - 1 {
                        lemma_path_lt_transitive(q, s.last().path, m);
                    }
                }
            } else {
                let i = choose|i: int| 0 <= i < entry_paths(t2).len() && entry_paths(t2)[i] == q;
                assert(entry_paths(t)[i] == q);
                if removed || !added {
                    assert(path_lt(entry_paths(t)[i], entry_paths(t)[t.len() - 1]));
                    if !removed {
                        assert(t.last().path == s.last().path) by {
                            crate::path::lemma_path_lt_total(t.last().path, s.last().path);
                        }
                    }
                } else {
                    assert(path_lt(entry_paths(t)[i], entry_paths(t)[t.len() - 1])
                        || i == t.len() - 1);
                    if i < t.len() - 1 {
                        lemma_path_lt_transitive(q, t.last().path, m);
                    }
                }
            }
        }
        let dp = diff_paths(d);
        assert forall|i: int, j: int| 0 <= i < j < dp.len() implies path_lt(
            #[trigger] dp[i],
            #[trigger] dp[j],
        ) by {
            if j == dp.len() - 1 {
                assert(diff_paths(d2).contains(dp[i])) by {
                    assert(diff_paths(d2)[i] == dp[i]);
                }
            } else {
                assert(dp[i] == diff_paths(d2)[i] && dp[j] == diff_paths(d2)[j]);
            }
        }
        assert forall|q: Seq<Seq<u8>>| #[trigger]
            diff_paths(d).contains(q) <==> (entry_paths(s).contains(q) || entry_paths(t).contains(
                q,
            )) by {
            if diff_paths(d).contains(q) {
                let i = choose|i: int| 0 <= i < dp.len() && dp[i] == q;
                if i < dp.len() - 1 {
                    assert(diff_paths(d2)[i] == q);
                    assert(diff_paths(d2).contains(q));
                    if entry_paths(s2).contains(q) {
                        let k = choose|k: int|
                            0 <= k < entry_paths(s2).len() && entry_paths(s2)[k] == q;
                        assert(entry_paths(s)[k] == q);
                    } else {
                        let k = choose|k: int|
                            0 <= k < entry_paths(t2).len() && entry_paths(t2)[k] == q;
                        assert(entry_paths(t)[k] == q);
                    }
                } else if added || !removed {
                    assert(entry_paths(s)[s.len() - 1] == q);
                } else {
                    assert(entry_paths(t)[t.len() - 1] == q);
                }
            }
            if entry_paths(s).contains(q) {
                let k = choose|k: int| 0 <= k < entry_paths(s).len() && entry_paths(s)[k] == q;
                if (added || !removed) && k == s.len() - 1 {
                    assert(dp[dp.len() - 1] == q);
                } else {
                    assert(entry_paths(s2)[k] == q);
                    assert(diff_paths(d2).contains(q));
                    let i = choose|i: int|
                        0 <= i < diff_paths(d2).len() && diff_paths(d2)[i] == q;
                    assert(dp[i] == q);
                }
            }
            if entry_paths(t).contains(q) {
                let k = choose|k: int| 0 <= k < entry_paths(t).len() && entry_paths(t)[k] == q;
                if (removed || !added) && k == t.len() - 1 {
                    if removed {
                        assert(dp[dp.len() - 1] == q);
                    } else {
                        crate::path::lemma_path_lt_total(t.last().path, s.last().path);
                        assert(dp[dp.len() - 1] == q);
                    }
                } else {
                    assert(entry_paths(t2)[k] == q);
                    assert(diff_paths(d2).contains(q));
                    let i = choose|i: int|
                        0 <= i < diff_paths(d2).len() && diff_paths(d2)[i] == q;
                    assert(dp[i] == q);
                }
            }
        }
    }
}

/// `t` stands for `s` as far as a comparison can tell: the same path and
/// type and, unless a directory, the same size and modification time.
pub open spec fn mirrors(s: EntryView, t: EntryView) -> bool {
    &&& s.path == t.path
    &&& s.file_type == t.file_type
    &&& s.file_type != FileKind::Dir ==> s.size == t.size && s.mtime == t.mtime
}

/// Two walks that agree object by object (identical trees: same paths,
/// types, sizes and modification times), with contents found equal wherever
/// they are compared, are classified as present throughout, one
/// classification per object.
pub proof fn lemma_identical_all_present(
    s: Seq<EntryView>,
    t: Seq<EntryView>,
    cc: bool,
    same: Map<Seq<Seq<u8>>, bool>,
)
    requires
        t.len() == s.len(),
        forall|i: int|
            0 <= i < s.len() ==> mirrors(#[trigger] s[i], t[i]) && same[s[i].path],
    ensures
        diff_of(s, t, cc, same).len() == s.len(),
        forall|k: int|
            0 <= k < s.len() ==> #[trigger] diff_of(s, t, cc, same)[k] is Present,
    decreases s.len(),
{
    if s.len() > 0 {
        let n = s.len() - 1;
        assert(s[n].path == t[n].path);
        lemma_path_lt_irreflexive(s.last().path);
        lemma_identical_all_present(s.drop_last(), t.drop_last(), cc, same);
    }
}

/// Two regular files with the same size and modification time whose contents
/// differ are modified in content when contents are checked, and present when
/// they are not.
pub proof fn lemma_content_only_change(s: EntryView, t: EntryView)
    requires
        s.file_type == FileKind::File,
        t.file_type == FileKind::File,
        s.size == t.size,
        s.mtime == t.mtime,
    ensures
        classify(s, t, true, false) == (DiffView::Modified {
            src: s,
            tgt: t,
            ch_type: false,
            ch_mtime: false,
            ch_size: false,
            ch_content: true,
        }),
        classify(s, t, false, false) == (DiffView::Present { src: s, tgt: t }),
{
}


/// Whether two optional timestamps are equal.
fn same_time(a: &Option<Timestamp>, b: &Option<Timestamp>) -> (r: bool)
    ensures
        r == (*a == *b),
{
    match (a, b) {
        (Some(x), Some(y)) => x.secs == y.secs && x.nanos == y.nanos,
        (None, None) => true,
        _ => false,
    }
}

/// Whether two objects at one path ask for a comparison of their contents.
fn content_check_needed(s: &WalkEntry, t: &WalkEntry, check_content: bool) -> (r: bool)
    ensures
        r == needs_content_check(s@, t@, check_content),
{
    check_content && s.file_type == FileKind::File && t.file_type == FileKind::File && s.size
        == t.size && same_time(&s.mtime, &t.mtime)
}

/// Classify two objects at one path; `same` is the outcome of the comparison
/// of their contents, where one was asked for.
pub fn classify_entries(s: WalkEntry, t: WalkEntry, check_content: bool, same: bool) -> (r:
    DiffEntry)
    ensures
        r@ == classify(s@, t@, check_content, same),
{
    let ch_type = s.file_type != t.file_type;
    let comparable = !ch_type && s.file_type != FileKind::Dir;
    let ch_mtime = comparable && !same_time(&s.mtime, &t.mtime);
    let ch_size = comparable && s.size != t.size;
    if ch_type || ch_mtime || ch_size {
        DiffEntry::Modified { src: s, tgt: t, ch_type, ch_mtime, ch_size, ch_content: false }
    } else if content_check_needed(&s, &t, check_content) && !same {
        DiffEntry::Modified {
            src: s,
            tgt: t,
            ch_type: false,
            ch_mtime: false,
            ch_size: false,
            ch_content: true,
        }
    } else {
        DiffEntry::Present { src: s, tgt: t }
    }
}

/// The single step that a comparison asks its caller to take next.
#[derive(Debug)]
pub enum DiffStep {
    /// Pull the next item of the source walk and hand it to
    /// [`TreeDiff::source_item`].
    PullSource,
    /// Pull the next item of the target walk and hand it to
    /// [`TreeDiff::target_item`].
    PullTarget,
    /// Compare the contents of this path in both trees and hand the outcome to
    /// [`TreeDiff::content_checked`].
    CheckContent(RelPath),
    /// Deliver this classification.
    Yield(DiffEntry),
    /// The comparison is over.
    Finished,
}

/// The optional view of an optional entry.
pub open spec fn opt_view(e: Option<WalkEntry>) -> Option<EntryView> {
    match e {
        Some(w) => Some(w@),
        None => None,
    }
}

/// The look-ahead entries share a path and ask for a comparison of contents.
pub open spec fn asks_content_check(s: Option<EntryView>, t: Option<EntryView>, cc: bool) -> bool {
    s matches Some(x) && t matches Some(y) && x.path == y.path && needs_content_check(x, y, cc)
}

/// The classification that the look-ahead entries `s` and `t` give next,
/// when no comparison of contents is asked for.
pub open spec fn next_diff(s: Option<EntryView>, t: Option<EntryView>, cc: bool) -> DiffView {
    match (s, t) {
        (Some(x), None) => DiffView::Added { src: x },
        (None, Some(y)) => DiffView::Removed { tgt: y },
        (Some(x), Some(y)) => if path_lt(x.path, y.path) {
            DiffView::Added { src: x }
        } else if path_lt(y.path, x.path) {
            DiffView::Removed { tgt: y }
        } else {
            classify(x, y, cc, true)
        },
        (None, None) => arbitrary(),
    }
}

/// A merge-join of a source walk and a target walk, with one look-ahead
/// entry per side. As ghosts it records the entries handed over from each
/// walk, the outcomes of comparisons of contents, and the classifications
/// delivered.
pub struct TreeDiff {
    s_cur: Option<WalkEntry>,
    t_cur: Option<WalkEntry>,
    s_last: Option<RelPath>,
    t_last: Option<RelPath>,
    s_done: bool,
    t_done: bool,
    check_content: bool,
    awaiting: bool,
    sources: Ghost<Seq<EntryView>>,
    targets: Ghost<Seq<EntryView>>,
    output: Ghost<Seq<DiffView>>,
    same: Ghost<Map<Seq<Seq<u8>>, bool>>,
}

/// A comparison of two walks that does not check contents.
pub fn diff_walkers() -> (d: TreeDiff)
    ensures
        d.wf(),
        !d.checks_content(),
        d.sources() == Seq::<EntryView>::empty(),
        d.targets() == Seq::<EntryView>::empty(),
        d.output() == Seq::<DiffView>::empty(),
{
    TreeDiff::new(false)
}

impl TreeDiff {
    pub closed spec fn src_cur(&self) -> Option<EntryView> {
        opt_view(self.s_cur)
    }

    pub closed spec fn tgt_cur(&self) -> Option<EntryView> {
        opt_view(self.t_cur)
    }

    /// The source walk has ended.
    pub closed spec fn src_done(&self) -> bool {
        self.s_done
    }

    /// The target walk has ended.
    pub closed spec fn tgt_done(&self) -> bool {
        self.t_done
    }

    pub closed spec fn checks_content(&self) -> bool {
        self.check_content
    }

    /// A comparison of contents has been asked for and not yet answered.
    pub closed spec fn awaiting(&self) -> bool {
        self.awaiting
    }

    /// The entries handed over from the source walk.
    pub closed spec fn sources(&self) -> Seq<EntryView> {
        self.sources@
    }

    /// The entries handed over from the target walk.
    pub closed spec fn targets(&self) -> Seq<EntryView> {
        self.targets@
    }

    /// The classifications delivered.
    pub closed spec fn output(&self) -> Seq<DiffView> {
        self.output@
    }

    /// The outcomes of the comparisons of contents, by path.
    pub closed spec fn same(&self) -> Map<Seq<Seq<u8>>, bool> {
        self.same@
    }

    /// The source entries classified so far.
    pub closed spec fn src_consumed(&self) -> Seq<EntryView> {
        if self.s_cur is Some {
            self.sources@.drop_last()
        } else {
            self.sources@
        }
    }

    /// The target entries classified so far.
    pub closed spec fn tgt_consumed(&self) -> Seq<EntryView> {
        if self.t_cur is Some {
            self.targets@.drop_last()
        } else {
            self.targets@
        }
    }

    pub closed spec fn wf(&self) -> bool {
        let cs = self.src_consumed();
        let ct = self.tgt_consumed();
        &&& paths_ascending(entry_paths(self.sources@))
        &&& paths_ascending(entry_paths(self.targets@))
        &&& self.s_cur matches Some(x) ==> self.sources@.len() > 0 && x@ == self.sources@.last()
            && all_before(cs, x@.path) && all_before(ct, x@.path)
        &&& self.t_cur matches Some(y) ==> self.targets@.len() > 0 && y@ == self.targets@.last()
            && all_before(cs, y@.path) && all_before(ct, y@.path)
        &&& self.s_done ==> self.s_cur is None
        &&& self.t_done ==> self.t_cur is None
        &&& (self.s_last is Some) == (self.sources@.len() > 0)
        &&& self.s_last matches Some(p) ==> path_view(p@) == self.sources@.last().path
        &&& (self.t_last is Some) == (self.targets@.len() > 0)
        &&& self.t_last matches Some(p) ==> path_view(p@) == self.targets@.last().path
        &&& self.output@ == diff_of(cs, ct, self.check_content, self.same@)
        &&& !self.s_done && ct.len() > 0 ==> self.sources@.len() > 0 && all_upto(
            ct,
            self.sources@.last().path,
        )
        &&& !self.t_done && cs.len() > 0 ==> self.targets@.len() > 0 && all_upto(
            cs,
            self.targets@.last().path,
        )
        &&& self.awaiting ==> (self.s_cur matches Some(x) && self.t_cur matches Some(y)
            && x@.path == y@.path && needs_content_check(x@, y@, self.check_content))
    }

    /// A comparison of two walks; contents are compared when `check_content`
    /// is set.
    pub fn new(check_content: bool) -> (d: TreeDiff)
        ensures
            d.wf(),
            d.checks_content() == check_content,
            d.src_cur() is None,
            d.tgt_cur() is None,
            !d.src_done(),
            !d.tgt_done(),
            !d.awaiting(),
            d.sources() == Seq::<EntryView>::empty(),
            d.targets() == Seq::<EntryView>::empty(),
            d.output() == Seq::<DiffView>::empty(),
    {
        let d = TreeDiff {
            s_cur: None,
            t_cur: None,
            s_last: None,
            t_last: None,
            s_done: false,
            t_done: false,
            check_content,
            awaiting: false,
            sources: Ghost(Seq::empty()),
            targets: Ghost(Seq::empty()),
            output: Ghost(Seq::empty()),
            same: Ghost(Map::empty()),
        };
        assert(entry_paths(d.sources@) =~= Seq::<Seq<Seq<u8>>>::empty());
        assert(entry_paths(d.targets@) =~= Seq::<Seq<Seq<u8>>>::empty());
        d
    }

    /// Hand over the next item of the source walk: an entry, or `None` at
    /// its end. It is taken only when the source look-ahead is empty, the
    /// walk has not ended, and the entry's path lies after every source path
    /// handed over before; otherwise nothing changes.
    pub fn source_item(&mut self, item: Option<WalkEntry>) -> (accepted: bool)
        requires
            old(self).wf(),
        ensures
            final(self).wf(),
            accepted == (old(self).src_cur() is None && !old(self).src_done() && (item matches Some(
                e,
            ) ==> old(self).sources().len() == 0 || path_lt(
                old(self).sources().last().path,
                e@.path,
            ))),
            accepted ==> match item {
                Some(e) => {
                    &&& final(self).sources() == old(self).sources().push(e@)
                    &&& final(self).src_cur() == Some(e@)
                    &&& !final(self).src_done()
                },
                None => {
                    &&& final(self).sources() == old(self).sources()
                    &&& final(self).src_cur() is None
                    &&& final(self).src_done()
                },
            },
            accepted ==> {
                &&& final(self).targets() == old(self).targets()
                &&& final(self).tgt_cur() == old(self).tgt_cur()
                &&& final(self).tgt_done() == old(self).tgt_done()
                &&& final(self).output() == old(self).output()
                &&& final(self).same() == old(self).same()
                &&& final(self).checks_content() == old(self).checks_content()
                &&& final(self).awaiting() == old(self).awaiting()
            },
            !accepted ==> *final(self) == *old(self),
    {
        if self.s_cur.is_some() || self.s_done {
            return false;
        }
        match item {
            None => {
                self.s_done = true;
                true
            },
            Some(e) => {
                let after = match &self.s_last {
                    None => true,
                    Some(last) => match compare_paths(last, &e.path) {
                        core::cmp::Ordering::Less => true,
                        _ => false,
                    },
                };
                if !after {
                    return false;
                }
                let ghost old_sources = self.sources@;
                let ghost cs = self.src_consumed();
                let ghost ct = self.tgt_consumed();
                let ghost x = e@;
                proof {
                    lemma_ascending_push(entry_paths(old_sources), x.path);
                    assert(entry_paths(old_sources.push(x)) =~= entry_paths(old_sources).push(
                        x.path,
                    ));
                    assert forall|i: int| 0 <= i < cs.len() implies path_lt(
                        #[trigger] cs[i].path,
                        x.path,
                    ) by {
                        assert(entry_paths(old_sources)[i] == cs[i].path);
                        let n = old_sources.len() - 1;
                        if i < n {
                            assert(path_lt(entry_paths(old_sources)[i], entry_paths(old_sources)[n]));
                            lemma_path_lt_transitive(cs[i].path, old_sources.last().path, x.path);
                        }
                    }
                    assert forall|i: int| 0 <= i < ct.len() implies path_lt(
                        #[trigger] ct[i].path,
                        x.path,
                    ) by {
                        if path_lt(ct[i].path, old_sources.last().path) {
                            lemma_path_lt_transitive(ct[i].path, old_sources.last().path, x.path);
                        }
                    }
                }
                self.s_last = Some(copy_path(&e.path));
                self.s_cur = Some(e);
                self.sources = Ghost(old_sources.push(x));
                assert(self.src_consumed() =~= cs);
                true
            },
        }
    }

    /// Hand over the next item of the target walk: an entry, or `None` at
    /// its end. It is taken only when the target look-ahead is empty, the
    /// walk has not ended, and the entry's path lies after every target path
    /// handed over before; otherwise nothing changes.
    pub fn target_item(&mut self, item: Option<WalkEntry>) -> (accepted: bool)
        requires
            old(self).wf(),
        ensures
            final(self).wf(),
            accepted == (old(self).tgt_cur() is None && !old(self).tgt_done() && (item matches Some(
                e,
            ) ==> old(self).targets().len() == 0 || path_lt(
                old(self).targets().last().path,
                e@.path,
            ))),
            accepted ==> match item {
                Some(e) => {
                    &&& final(self).targets() == old(self).targets().push(e@)
                    &&& final(self).tgt_cur() == Some(e@)
                    &&& !final(self).tgt_done()
                },
                None => {
                    &&& final(self).targets() == old(self).targets()
                    &&& final(self).tgt_cur() is None
                    &&& final(self).tgt_done()
                },
            },
            accepted ==> {
                &&& final(self).sources() == old(self).sources()
                &&& final(self).src_cur() == old(self).src_cur()
                &&& final(self).src_done() == old(self).src_done()
                &&& final(self).output() == old(self).output()
                &&& final(self).same() == old(self).same()
                &&& final(self).checks_content() == old(self).checks_content()
                &&& final(self).awaiting() == old(self).awaiting()
            },
            !accepted ==> *final(self) == *old(self),
    {
        if self.t_cur.is_some() || self.t_done {
            return false;
        }
        match item {
            None => {
                self.t_done = true;
                true
            },
            Some(e) => {
                let after = match &self.t_last {
                    None => true,
                    Some(last) => match compare_paths(last, &e.path) {
                        core::cmp::Ordering::Less => true,
                        _ => false,
                    },
                };
                if !after {
                    return false;
                }
                let ghost old_targets = self.targets@;
                let ghost cs = self.src_consumed();
                let ghost ct = self.tgt_consumed();
                let ghost y = e@;
                proof {
                    lemma_ascending_push(entry_paths(old_targets), y.path);
                    assert(entry_paths(old_targets.push(y)) =~= entry_paths(old_targets).push(
                        y.path,
                    ));
                    assert forall|i: int| 0 <= i < ct.len() implies path_lt(
                        #[trigger] ct[i].path,
                        y.path,
                    ) by {
                        assert(entry_paths(old_targets)[i] == ct[i].path);
                        let n = old_targets.len() - 1;
                        if i < n {
                            assert(path_lt(entry_paths(old_targets)[i], entry_paths(old_targets)[n]));
                            lemma_path_lt_transitive(ct[i].path, old_targets.last().path, y.path);
                        }
                    }
                    assert forall|i: int| 0 <= i < cs.len() implies path_lt(
                        #[trigger] cs[i].path,
                        y.path,
                    ) by {
                        if path_lt(cs[i].path, old_targets.last().path) {
                            lemma_path_lt_transitive(cs[i].path, old_targets.last().path, y.path);
                        }
                    }
                }
                self.t_last = Some(copy_path(&e.path));
                self.t_cur = Some(e);
                self.targets = Ghost(old_targets.push(y));
                assert(self.tgt_consumed() =~= ct);
                true
            },
        }
    }

    /// The next step of the comparison. Each side's look-ahead is filled
    /// first; then the smaller path is classified as added or removed, or two
    /// equal paths are classified together, after a comparison of contents
    /// where one is asked for.
    pub fn next_step(&mut self) -> (r: DiffStep)
        requires
            old(self).wf(),
        ensures
            final(self).wf(),
            final(self).sources() == old(self).sources(),
            final(self).targets() == old(self).targets(),
            final(self).src_done() == old(self).src_done(),
            final(self).tgt_done() == old(self).tgt_done(),
            final(self).same() == old(self).same(),
            final(self).checks_content() == old(self).checks_content(),
            old(self).src_cur() is None && !old(self).src_done() ==> r is PullSource && *final(self)
                == *old(self),
            !(old(self).src_cur() is None && !old(self).src_done()) && old(self).tgt_cur() is None
                && !old(self).tgt_done() ==> r is PullTarget && *final(self) == *old(self),
            old(self).src_cur() is None && old(self).src_done() && old(self).tgt_cur() is None
                && old(self).tgt_done() ==> r is Finished && *final(self) == *old(self)
                && final(self).output() == diff_of(
                final(self).sources(),
                final(self).targets(),
                final(self).checks_content(),
                final(self).same(),
            ),
            asks_content_check(old(self).src_cur(), old(self).tgt_cur(), old(self).checks_content())
                ==> (r matches DiffStep::CheckContent(p) && path_view(p@) == old(
                self,
            ).src_cur().unwrap().path && final(self).awaiting()
                && final(self).src_cur() == old(self).src_cur() && final(self).tgt_cur() == old(
                self,
            ).tgt_cur() && final(self).output() == old(self).output()),
            r matches DiffStep::Yield(d) ==> {
                &&& d@ == next_diff(old(self).src_cur(), old(self).tgt_cur(), old(self).checks_content())
                &&& final(self).output() == old(self).output().push(d@)
                &&& !final(self).awaiting()
            },
            (old(self).src_cur() is Some || old(self).src_done()) && (old(self).tgt_cur() is Some
                || old(self).tgt_done()) && (old(self).src_cur() is Some || old(self).tgt_cur() is Some)
                && !asks_content_check(
                old(self).src_cur(),
                old(self).tgt_cur(),
                old(self).checks_content(),
            ) ==> r is Yield,
    {
        if self.s_cur.is_none() && !self.s_done {
            return DiffStep::PullSource;
        }
        if self.t_cur.is_none() && !self.t_done {
            return DiffStep::PullTarget;
        }
        let ghost cs = self.src_consumed();
        let ghost ct = self.tgt_consumed();
        let ghost cc = self.check_content;
        let ghost same = self.same@;
        let ghost sc = self.src_cur();
        let ghost tc = self.tgt_cur();
        let ghost old_output = self.output@;
        // 1: source side first; 2: target side first; 3: both together
        let order: u8 = match (&self.s_cur, &self.t_cur) {
            (None, None) => {
                return DiffStep::Finished;
            },
            (Some(_), None) => 1,
            (None, Some(_)) => 2,
            (Some(x), Some(y)) => match compare_paths(&x.path, &y.path) {
                core::cmp::Ordering::Less => 1,
                core::cmp::Ordering::Greater => 2,
                core::cmp::Ordering::Equal => {
                    if content_check_needed(x, y, self.check_content) {
                        let p = copy_path(&x.path);
                        self.awaiting = true;
                        return DiffStep::CheckContent(p);
                    }
                    3
                },
            },
        };
        if order == 1 {
            let x = self.s_cur.take().unwrap();
            let ghost xv = x@;
            proof {
                assert(self.sources@ =~= cs.push(xv));
                assert(cs.push(xv).drop_last() =~= cs);
                if let Some(yv) = tc {
                    lemma_path_lt_asymmetric_or_equal(xv.path, yv.path);
                }
                assert forall|i: int| 0 <= i < ct.len() implies path_lt(
                    #[trigger] ct[i].path,
                    xv.path,
                ) || ct[i].path == xv.path by {}
            }
            let d = DiffEntry::Added { src: x };
            proof {
                if ct.len() > 0 {
                    assert(path_lt(ct[ct.len() - 1].path, xv.path));
                }
                assert(diff_of(cs.push(xv), ct, cc, same) == diff_of(cs, ct, cc, same).push(d@));
            }
            self.output = Ghost(old_output.push(d@));
            proof {
                assert(self.src_consumed() =~= cs.push(xv));
                if let Some(yv) = tc {
                    assert forall|i: int| 0 <= i < cs.push(xv).len() implies path_lt(
                        #[trigger] cs.push(xv)[i].path,
                        yv.path,
                    ) by {
                        if i < cs.len() {
                            assert(cs.push(xv)[i] == cs[i]);
                        }
                    }
                }
            }
            DiffStep::Yield(d)
        } else if order == 2 {
            let y = self.t_cur.take().unwrap();
            let ghost yv = y@;
            proof {
                assert(self.targets@ =~= ct.push(yv));
                assert(ct.push(yv).drop_last() =~= ct);
                if let Some(xv) = sc {
                    lemma_path_lt_asymmetric_or_equal(yv.path, xv.path);
                }
                assert forall|i: int| 0 <= i < cs.len() implies path_lt(
                    #[trigger] cs[i].path,
                    yv.path,
                ) || cs[i].path == yv.path by {}
            }
            let d = DiffEntry::Removed { tgt: y };
            proof {
                if cs.len() > 0 {
                    assert(path_lt(cs[cs.len() - 1].path, yv.path));
                    lemma_path_lt_asymmetric_or_equal(cs[cs.len() - 1].path, yv.path);
                }
                assert(diff_of(cs, ct.push(yv), cc, same) == diff_of(cs, ct, cc, same).push(d@));
            }
            self.output = Ghost(old_output.push(d@));
            proof {
                assert(self.tgt_consumed() =~= ct.push(yv));
                if let Some(xv) = sc {
                    assert forall|i: int| 0 <= i < ct.push(yv).len() implies path_lt(
                        #[trigger] ct.push(yv)[i].path,
                        xv.path,
                    ) by {
                        if i < ct.len() {
                            assert(ct.push(yv)[i] == ct[i]);
                        }
                    }
                }
            }
            DiffStep::Yield(d)
        } else {
            let x = self.s_cur.take().unwrap();
            let y = self.t_cur.take().unwrap();
            let ghost xv = x@;
            let ghost yv = y@;
            let d = classify_entries(x, y, self.check_content, true);
            proof {
                lemma_path_lt_irreflexive(xv.path);
                assert(self.sources@ =~= cs.push(xv));
                assert(self.targets@ =~= ct.push(yv));
                assert(cs.push(xv).drop_last() =~= cs);
                assert(ct.push(yv).drop_last() =~= ct);
            }
            self.output = Ghost(old_output.push(d@));
            proof {
                assert(self.src_consumed() =~= cs.push(xv));
                assert(self.tgt_consumed() =~= ct.push(yv));
                assert forall|i: int| 0 <= i < ct.push(yv).len() implies path_lt(
                    #[trigger] ct.push(yv)[i].path,
                    xv.path,
                ) || ct.push(yv)[i].path == xv.path by {
                    if i < ct.len() {
                        assert(ct.push(yv)[i] == ct[i]);
                    }
                }
                assert forall|i: int| 0 <= i < cs.push(xv).len() implies path_lt(
                    #[trigger] cs.push(xv)[i].path,
                    yv.path,
                ) || cs.push(xv)[i].path == yv.path by {
                    if i < cs.len() {
                        assert(cs.push(xv)[i] == cs[i]);
                    }
                }
            }
            DiffStep::Yield(d)
        }
    }

    /// Hand over the outcome of the comparison of contents asked for: the
    /// two objects are classified with it. Without an awaited comparison
    /// nothing changes.
    pub fn content_checked(&mut self, identical: bool) -> (r: Option<DiffEntry>)
        requires
            old(self).wf(),
        ensures
            final(self).wf(),
            old(self).awaiting() ==> {
                let x = old(self).src_cur().unwrap();
                let y = old(self).tgt_cur().unwrap();
                &&& r matches Some(d) && d@ == classify(x, y, old(self).checks_content(), identical)
                &&& final(self).output() == old(self).output().push(r.unwrap()@)
                &&& final(self).same() == old(self).same().insert(x.path, identical)
                &&& final(self).src_cur() is None
                &&& final(self).tgt_cur() is None
                &&& !final(self).awaiting()
                &&& final(self).sources() == old(self).sources()
                &&& final(self).targets() == old(self).targets()
                &&& final(self).src_done() == old(self).src_done()
                &&& final(self).tgt_done() == old(self).tgt_done()
                &&& final(self).checks_content() == old(self).checks_content()
            },
            !old(self).awaiting() ==> r is None && *final(self) == *old(self),
    {
        if !self.awaiting {
            return None;
        }
        let ghost cs = self.src_consumed();
        let ghost ct = self.tgt_consumed();
        let ghost old_output = self.output@;
        let ghost old_same = self.same@;
        let x = self.s_cur.take().unwrap();
        let y = self.t_cur.take().unwrap();
        let ghost xv = x@;
        let ghost yv = y@;
        self.awaiting = false;
        let d = classify_entries(x, y, self.check_content, identical);
        proof {
            lemma_path_lt_irreflexive(xv.path);
            assert(self.sources@ =~= cs.push(xv));
            assert(self.targets@ =~= ct.push(yv));
            assert(cs.push(xv).drop_last() =~= cs);
            assert(ct.push(yv).drop_last() =~= ct);
            lemma_diff_frame(cs, ct, self.check_content, old_same, xv.path, identical);
        }
        self.output = Ghost(old_output.push(d@));
        self.same = Ghost(old_same.insert(xv.path, identical));
        proof {
            assert(self.src_consumed() =~= cs.push(xv));
            assert(self.tgt_consumed() =~= ct.push(yv));
            assert forall|i: int| 0 <= i < ct.push(yv).len() implies path_lt(
                #[trigger] ct.push(yv)[i].path,
                xv.path,
            ) || ct.push(yv)[i].path == xv.path by {
                if i < ct.len() {
                    assert(ct.push(yv)[i] == ct[i]);
                }
            }
            assert forall|i: int| 0 <= i < cs.push(xv).len() implies path_lt(
                #[trigger] cs.push(xv)[i].path,
                yv.path,
            ) || cs.push(xv)[i].path == yv.path by {
                if i < cs.len() {
                    assert(cs.push(xv)[i] == cs[i]);
                }
            }
        }
        Some(d)
    }
}

/// Once both walks have ended, a comparison has classified every path of
/// either walk exactly once: what it delivered is [`diff_of`] of the two
/// walks, whose paths ascend strictly and are those of the two walks.
pub proof fn lemma_finished_covers_union(d: &TreeDiff)
    requires
        d.wf(),
        d.src_done(),
        d.tgt_done(),
    ensures
        d.output() == diff_of(d.sources(), d.targets(), d.checks_content(), d.same()),
        paths_ascending(diff_paths(d.output())),
        forall|q: Seq<Seq<u8>>|
            #[trigger] diff_paths(d.output()).contains(q) <==> (entry_paths(d.sources()).contains(q)
                || entry_paths(d.targets()).contains(q)),
{
    lemma_diff_covers_union(d.sources(), d.targets(), d.checks_content(), d.same());
}

} // verus!
