//! Walking a directory tree in path order.
//!
//! [`Walker`] holds the decisions of a depth-first walk over an explicit work
//! stack. The caller performs the filesystem work that each [`WalkTask`] asks
//! for (listing a directory, reading an entry's metadata) and hands the result
//! back with [`Walker::dir_scanned`] or [`Walker::entry_scanned`].
use vstd::prelude::*;

use crate::path::{
    child_of, child_path, copy_path, hidden_name, lemma_ascending_push, lemma_below_is_after,
    lemma_sibling_order, name_lt, names_ascending, path_lt, path_view, paths_ascending,
    sorted_children, strictly_below, Name, RelPath,
};
use crate::stack::Stack;

verus! {

/// Default capacity of the hand-off queue between a walk and its consumer.
pub const DEFAULT_BUFFER: usize = 1000;

/// The type of a filesystem object.
#[derive(Clone, Copy, Debug, PartialEq, Eq, Structural)]
pub enum FileKind {
    File,
    Dir,
    Symlink,
    Other,
}

/// A point in time, as seconds and nanoseconds since the Unix epoch.
#[derive(Clone, Copy, Debug, PartialEq, Eq, Structural)]
pub struct Timestamp {
    pub secs: i64,
    pub nanos: u32,
}

/// When a directory's own entry is delivered, relative to its contents.
#[derive(Clone, Copy, Debug, PartialEq, Eq, Structural)]
pub enum DirPosition {
    First,
    Last,
    Never,
}

/// Single result entry in a tree walk.
#[derive(Debug)]
pub struct WalkEntry {
    /// Path relative to the walk's root.
    pub path: RelPath,
    pub file_type: FileKind,
    /// Length in bytes.
    pub size: u64,
    pub mtime: Option<Timestamp>,
    pub ctime: Option<Timestamp>,
}

/// What a [`WalkEntry`] holds, with its path as byte sequences.
pub struct EntryView {
    pub path: Seq<Seq<u8>>,
    pub file_type: FileKind,
    pub size: u64,
    pub mtime: Option<Timestamp>,
    pub ctime: Option<Timestamp>,
}

impl View for WalkEntry {
    type V = EntryView;

    open spec fn view(&self) -> EntryView {
        EntryView {
            path: path_view(self.path@),
            file_type: self.file_type,
            size: self.size,
            mtime: self.mtime,
            ctime: self.ctime,
        }
    }
}

impl WalkEntry {
    /// The path of this entry, relative to the root.
    pub fn path(&self) -> (r: &RelPath)
        ensures
            path_view(r@) == self@.path,
    {
        &self.path
    }

    pub fn file_type(&self) -> (r: FileKind)
        ensures
            r == self.file_type,
    {
        self.file_type
    }

    pub fn is_directory(&self) -> (r: bool)
        ensures
            r == (self.file_type == FileKind::Dir),
    {
        self.file_type == FileKind::Dir
    }

    pub fn is_file(&self) -> (r: bool)
        ensures
            r == (self.file_type == FileKind::File),
    {
        self.file_type == FileKind::File
    }

    pub fn is_symlink(&self) -> (r: bool)
        ensures
            r == (self.file_type == FileKind::Symlink),
    {
        self.file_type == FileKind::Symlink
    }
}

/// Set up a tree walk.
pub struct WalkBuilder {
    root: String,
    buf_size: usize,
    follow_symlinks: bool,
    include_hidden: bool,
    dirs: DirPosition,
}

impl WalkBuilder {
    pub closed spec fn root_spec(&self) -> Seq<char> {
        self.root@
    }

    pub closed spec fn buffer_spec(&self) -> usize {
        self.buf_size
    }

    pub closed spec fn follows_spec(&self) -> bool {
        self.follow_symlinks
    }

    pub closed spec fn hidden_spec(&self) -> bool {
        self.include_hidden
    }

    pub closed spec fn position_spec(&self) -> DirPosition {
        self.dirs
    }

    /// Create a walk builder for a root directory.
    pub fn for_directory(root: &str) -> (r: WalkBuilder)
        ensures
            r.root_spec() == root@,
            r.buffer_spec() == DEFAULT_BUFFER,
            !r.follows_spec(),
            r.hidden_spec(),
            r.position_spec() == DirPosition::First,
    {
        WalkBuilder {
            root: root.to_owned(),
            buf_size: DEFAULT_BUFFER,
            follow_symlinks: false,
            include_hidden: true,
            dirs: DirPosition::First,
        }
    }

    /// Follow symbolic links (off by default).
    pub fn follow_symlinks(&mut self, follow: bool) -> (r: &mut WalkBuilder)
        ensures
            *final(self) == *final(r),
            r.follows_spec() == follow,
            r.root_spec() == old(self).root_spec(),
            r.buffer_spec() == old(self).buffer_spec(),
            r.hidden_spec() == old(self).hidden_spec(),
            r.position_spec() == old(self).position_spec(),
    {
        self.follow_symlinks = follow;
        self
    }

    /// Include hidden files (on by default).
    pub fn include_hidden(&mut self, show: bool) -> (r: &mut WalkBuilder)
        ensures
            *final(self) == *final(r),
            r.hidden_spec() == show,
            r.root_spec() == old(self).root_spec(),
            r.buffer_spec() == old(self).buffer_spec(),
            r.follows_spec() == old(self).follows_spec(),
            r.position_spec() == old(self).position_spec(),
    {
        self.include_hidden = show;
        self
    }

    /// Specify when directories are listed (first by default).
    pub fn dir_position(&mut self, pos: DirPosition) -> (r: &mut WalkBuilder)
        ensures
            *final(self) == *final(r),
            r.position_spec() == pos,
            r.root_spec() == old(self).root_spec(),
            r.buffer_spec() == old(self).buffer_spec(),
            r.follows_spec() == old(self).follows_spec(),
            r.hidden_spec() == old(self).hidden_spec(),
    {
        self.dirs = pos;
        self
    }

    pub fn root(&self) -> (r: &str)
        ensures
            r@ == self.root_spec(),
    {
        self.root.as_str()
    }

    pub fn buffer_size(&self) -> (r: usize)
        ensures
            r == self.buffer_spec(),
    {
        self.buf_size
    }

    pub fn follows(&self) -> (r: bool)
        ensures
            r == self.follows_spec(),
    {
        self.follow_symlinks
    }

    pub fn includes_hidden(&self) -> (r: bool)
        ensures
            r == self.hidden_spec(),
    {
        self.include_hidden
    }

    pub fn position(&self) -> (r: DirPosition)
        ensures
            r == self.position_spec(),
    {
        self.dirs
    }
}


/// A pending unit of traversal on the walker's work stack.
pub enum WorkItem {
    /// List this directory.
    ScanDir(RelPath),
    /// Deliver this already-built entry.
    Emit(WalkEntry),
    /// Visit the listed children `names[next..]` of `dir`, in order.
    Process { dir: RelPath, names: Vec<Name>, next: usize },
}

/// What a [`WorkItem`] holds, with paths and names as byte sequences.
pub enum ItemView {
    ScanDir(Seq<Seq<u8>>),
    Emit(EntryView),
    Process { dir: Seq<Seq<u8>>, names: Seq<Seq<u8>>, next: nat },
}

impl View for WorkItem {
    type V = ItemView;

    open spec fn view(&self) -> ItemView {
        match self {
            WorkItem::ScanDir(p) => ItemView::ScanDir(path_view(p@)),
            WorkItem::Emit(e) => ItemView::Emit(e@),
            WorkItem::Process { dir, names, next } => ItemView::Process {
                dir: path_view(dir@),
                names: path_view(names@),
                next: *next as nat,
            },
        }
    }
}

/// The single step that a walk asks its caller to take next.
pub enum WalkTask {
    /// List this directory and hand its children's names to
    /// [`Walker::dir_scanned`].
    ScanDir(RelPath),
    /// Read this entry's metadata and hand it to [`Walker::entry_scanned`].
    Stat(RelPath),
    /// Deliver this entry to the consumer.
    Emit(WalkEntry),
    /// Nothing to do; ask again.
    Noop,
    /// The walk is over.
    Finished,
}

/// What a [`WalkTask`] holds, with paths as byte sequences.
pub enum TaskView {
    ScanDir(Seq<Seq<u8>>),
    Stat(Seq<Seq<u8>>),
    Emit(EntryView),
    Noop,
    Finished,
}

impl View for WalkTask {
    type V = TaskView;

    open spec fn view(&self) -> TaskView {
        match self {
            WalkTask::ScanDir(p) => TaskView::ScanDir(path_view(p@)),
            WalkTask::Stat(p) => TaskView::Stat(path_view(p@)),
            WalkTask::Emit(e) => TaskView::Emit(e@),
            WalkTask::Noop => TaskView::Noop,
            WalkTask::Finished => TaskView::Finished,
        }
    }
}

/// The answer that a walk waits for.
pub enum Pending {
    Nothing,
    /// The listing of this directory.
    Listing(RelPath),
    /// The metadata of this entry.
    Stat(RelPath),
}

pub enum PendingView {
    Nothing,
    Listing(Seq<Seq<u8>>),
    Stat(Seq<Seq<u8>>),
}

impl View for Pending {
    type V = PendingView;

    open spec fn view(&self) -> PendingView {
        match self {
            Pending::Nothing => PendingView::Nothing,
            Pending::Listing(p) => PendingView::Listing(path_view(p@)),
            Pending::Stat(p) => PendingView::Stat(path_view(p@)),
        }
    }
}

/// The paths that a work item will deliver, or descend into, from now on.
pub open spec fn item_covers(it: ItemView, q: Seq<Seq<u8>>) -> bool {
    match it {
        ItemView::ScanDir(p) => strictly_below(p, q),
        ItemView::Emit(e) => q == e.path,
        ItemView::Process { dir, names, next } => exists|k: int|
            next <= k < names.len() && #[trigger] child_of(dir, names[k]).is_prefix_of(q),
    }
}

/// The paths that the answer awaited will lead to.
pub open spec fn pending_covers(p: PendingView, q: Seq<Seq<u8>>) -> bool {
    match p {
        PendingView::Nothing => false,
        PendingView::Listing(d) => strictly_below(d, q),
        PendingView::Stat(e) => e.is_prefix_of(q),
    }
}

/// Each item's paths come before those of every item beneath it.
pub open spec fn stack_ordered(items: Seq<ItemView>) -> bool {
    forall|i: int, j: int, q: Seq<Seq<u8>>, r: Seq<Seq<u8>>|
        0 <= i < j < items.len() && #[trigger] item_covers(items[j], q) && #[trigger] item_covers(
            items[i],
            r,
        ) ==> path_lt(q, r)
}

/// Every path still to come lies after the last one delivered.
pub open spec fn after_delivered(
    emitted: Seq<Seq<Seq<u8>>>,
    pending: PendingView,
    items: Seq<ItemView>,
) -> bool {
    emitted.len() > 0 ==> {
        &&& forall|i: int, q: Seq<Seq<u8>>|
            0 <= i < items.len() && #[trigger] item_covers(items[i], q) ==> path_lt(
                emitted.last(),
                q,
            )
        &&& forall|q: Seq<Seq<u8>>| #[trigger]
            pending_covers(pending, q) ==> path_lt(emitted.last(), q)
    }
}

/// The paths of the awaited answer come before those of every stacked item.
pub open spec fn pending_before(pending: PendingView, items: Seq<ItemView>) -> bool {
    forall|i: int, q: Seq<Seq<u8>>, r: Seq<Seq<u8>>|
        0 <= i < items.len() && #[trigger] pending_covers(pending, q) && #[trigger] item_covers(
            items[i],
            r,
        ) ==> path_lt(q, r)
}

/// The work stack that follows a stat of entry `e` under position `pos`.
pub open spec fn after_stat(items: Seq<ItemView>, e: EntryView, pos: DirPosition) -> Seq<ItemView> {
    if e.file_type == FileKind::Dir {
        if pos == DirPosition::Last {
            items.push(ItemView::Emit(e)).push(ItemView::ScanDir(e.path))
        } else {
            items.push(ItemView::ScanDir(e.path))
        }
    } else {
        items
    }
}

/// Whether a stat of entry `e` delivers it at once.
pub open spec fn delivered_at_stat(e: EntryView, pos: DirPosition) -> bool {
    e.file_type != FileKind::Dir || pos == DirPosition::First
}

/// The state of a walk: its configuration, its work stack, the answer it
/// waits for, and (as a ghost) the paths it has delivered so far.
pub struct Walker {
    config: WalkBuilder,
    work: Stack<WorkItem>,
    pending: Pending,
    emitted: Ghost<Seq<Seq<Seq<u8>>>>,
}

impl Walker {
    pub closed spec fn config_spec(&self) -> WalkBuilder {
        self.config
    }

    /// The work stack, bottom first.
    pub closed spec fn items(&self) -> Seq<ItemView> {
        self.work@.map_values(|w: WorkItem| w@)
    }

    pub closed spec fn pending_spec(&self) -> PendingView {
        self.pending@
    }

    /// The paths delivered so far, in order.
    pub closed spec fn emitted(&self) -> Seq<Seq<Seq<u8>>> {
        self.emitted@
    }

    /// The walk's invariant. Whatever the position of directories, listed
    /// children are held in ascending order; unless directories come last,
    /// every path still to come lies after every path delivered, and the
    /// delivered paths ascend.
    pub open spec fn wf(&self) -> bool {
        &&& forall|i: int|
            0 <= i < self.items().len() ==> #[trigger] item_sound(self.items()[i])
        &&& self.config_spec().position_spec() != DirPosition::Last ==> {
            &&& stack_ordered(self.items())
            &&& pending_before(self.pending_spec(), self.items())
            &&& after_delivered(self.emitted(), self.pending_spec(), self.items())
            &&& paths_ascending(self.emitted())
        }
    }
}

/// A stacked item to visit children holds them in ascending order.
pub open spec fn item_sound(it: ItemView) -> bool {
    match it {
        ItemView::Process { dir, names, next } => names_ascending(names) && next <= names.len(),
        _ => true,
    }
}


/// The ordering part of the walk's invariant, over its parts.
pub open spec fn ordered_state(
    items: Seq<ItemView>,
    pending: PendingView,
    emitted: Seq<Seq<Seq<u8>>>,
) -> bool {
    &&& stack_ordered(items)
    &&& pending_before(pending, items)
    &&& after_delivered(emitted, pending, items)
    &&& paths_ascending(emitted)
}

/// Dropping the top item, and the awaited answer, keeps the order.
proof fn lemma_pop_plain(items: Seq<ItemView>, pending: PendingView, emitted: Seq<Seq<Seq<u8>>>)
    requires
        ordered_state(items, pending, emitted),
        items.len() > 0,
    ensures
        ordered_state(items.drop_last(), PendingView::Nothing, emitted),
{
    let s2 = items.drop_last();
    assert forall|i: int, j: int, q: Seq<Seq<u8>>, r: Seq<Seq<u8>>|
        0 <= i < j < s2.len() && #[trigger] item_covers(s2[j], q) && #[trigger] item_covers(
            s2[i],
            r,
        ) implies path_lt(q, r) by {
        assert(s2[i] == items[i] && s2[j] == items[j]);
    }
    if emitted.len() > 0 {
        assert forall|i: int, q: Seq<Seq<u8>>|
            0 <= i < s2.len() && #[trigger] item_covers(s2[i], q) implies path_lt(
            emitted.last(),
            q,
        ) by {
            assert(s2[i] == items[i]);
        }
    }
}

/// Popping a directory to list makes its listing the awaited answer.
proof fn lemma_pop_scan(
    items: Seq<ItemView>,
    pending: PendingView,
    emitted: Seq<Seq<Seq<u8>>>,
    p: Seq<Seq<u8>>,
)
    requires
        ordered_state(items, pending, emitted),
        items.len() > 0,
        items.last() == ItemView::ScanDir(p),
    ensures
        ordered_state(items.drop_last(), PendingView::Listing(p), emitted),
{
    lemma_pop_plain(items, pending, emitted);
    let s2 = items.drop_last();
    let top = items.len() - 1;
    let pv = PendingView::Listing(p);
    assert forall|i: int, q: Seq<Seq<u8>>, r: Seq<Seq<u8>>|
        0 <= i < s2.len() && #[trigger] pending_covers(pv, q) && #[trigger] item_covers(
            s2[i],
            r,
        ) implies path_lt(q, r) by {
        assert(s2[i] == items[i]);
        assert(item_covers(items[top], q));
    }
    if emitted.len() > 0 {
        assert forall|q: Seq<Seq<u8>>| #[trigger] pending_covers(pv, q) implies path_lt(
            emitted.last(),
            q,
        ) by {
            assert(item_covers(items[top], q));
        }
    }
}

/// Popping an entry to deliver appends its path to the delivered ones.
proof fn lemma_pop_emit(
    items: Seq<ItemView>,
    pending: PendingView,
    emitted: Seq<Seq<Seq<u8>>>,
    e: EntryView,
)
    requires
        ordered_state(items, pending, emitted),
        items.len() > 0,
        items.last() == ItemView::Emit(e),
    ensures
        ordered_state(items.drop_last(), PendingView::Nothing, emitted.push(e.path)),
{
    lemma_pop_plain(items, pending, emitted);
    let s2 = items.drop_last();
    let top = items.len() - 1;
    assert(item_covers(items[top], e.path));
    lemma_ascending_push(emitted, e.path);
    let e2 = emitted.push(e.path);
    assert forall|i: int, q: Seq<Seq<u8>>|
        0 <= i < s2.len() && #[trigger] item_covers(s2[i], q) implies path_lt(e2.last(), q) by {
        assert(s2[i] == items[i]);
    }
}

/// A path at or below one of the children still to visit is covered.
proof fn lemma_process_covers(
    dir: Seq<Seq<u8>>,
    names: Seq<Seq<u8>>,
    next: nat,
    k: int,
    q: Seq<Seq<u8>>,
)
    requires
        next <= k < names.len(),
        child_of(dir, names[k]).is_prefix_of(q),
    ensures
        item_covers(ItemView::Process { dir, names, next }, q),
{
    let it = ItemView::Process { dir, names, next };
    assert(it->dir == dir && it->names == names && it->next == next);
    assert(exists|j: int| next <= j < names.len() && #[trigger] child_of(dir, names[j]).is_prefix_of(q));
}

/// Taking the next child of a listed directory makes its metadata the
/// awaited answer.
proof fn lemma_pop_process(
    items: Seq<ItemView>,
    pending: PendingView,
    emitted: Seq<Seq<Seq<u8>>>,
    dir: Seq<Seq<u8>>,
    names: Seq<Seq<u8>>,
    next: nat,
)
    requires
        ordered_state(items, pending, emitted),
        items.len() > 0,
        items.last() == (ItemView::Process { dir, names, next }),
        names_ascending(names),
        next < names.len(),
    ensures
        ordered_state(
            items.drop_last().push(ItemView::Process { dir, names, next: next + 1 }),
            PendingView::Stat(child_of(dir, names[next as int])),
            emitted,
        ),
{
    let top = items.len() - 1;
    let t2 = ItemView::Process { dir, names, next: next + 1 };
    let s2 = items.drop_last().push(t2);
    let c = child_of(dir, names[next as int]);
    let pv = PendingView::Stat(c);
    assert(items[top] == ItemView::Process { dir, names, next });
    assert forall|r: Seq<Seq<u8>>| item_covers(t2, r) implies item_covers(items[top], r) by {
        let k = choose|k: int| next + 1 <= k < names.len() && #[trigger] child_of(
            dir,
            names[k],
        ).is_prefix_of(r);
        lemma_process_covers(dir, names, next, k, r);
    }
    assert forall|q: Seq<Seq<u8>>| pending_covers(pv, q) implies item_covers(items[top], q) by {
        lemma_process_covers(dir, names, next, next as int, q);
    }
    assert forall|i: int, j: int, q: Seq<Seq<u8>>, r: Seq<Seq<u8>>|
        0 <= i < j < s2.len() && #[trigger] item_covers(s2[j], q) && #[trigger] item_covers(
            s2[i],
            r,
        ) implies path_lt(q, r) by {
        assert(s2[i] == items[i]);
        if j < top {
            assert(s2[j] == items[j]);
        } else {
            assert(item_covers(items[top], q));
        }
    }
    assert forall|i: int, q: Seq<Seq<u8>>, r: Seq<Seq<u8>>|
        0 <= i < s2.len() && #[trigger] pending_covers(pv, q) && #[trigger] item_covers(
            s2[i],
            r,
        ) implies path_lt(q, r) by {
        assert(item_covers(items[top], q));
        if i < top {
            assert(s2[i] == items[i]);
        } else {
            let k = choose|k: int| next + 1 <= k < names.len() && #[trigger] child_of(
                dir,
                names[k],
            ).is_prefix_of(r);
            assert(name_lt(names[next as int], names[k]));
            lemma_sibling_order(dir, names[next as int], names[k], q, r);
        }
    }
    if emitted.len() > 0 {
        assert forall|i: int, q: Seq<Seq<u8>>|
            0 <= i < s2.len() && #[trigger] item_covers(s2[i], q) implies path_lt(
            emitted.last(),
            q,
        ) by {
            if i < top {
                assert(s2[i] == items[i]);
            } else {
                assert(item_covers(items[top], q));
            }
        }
        assert forall|q: Seq<Seq<u8>>| #[trigger] pending_covers(pv, q) implies path_lt(
            emitted.last(),
            q,
        ) by {
            assert(item_covers(items[top], q));
        }
    }
}

/// A path at or below a child of `d` is strictly below `d`.
proof fn lemma_child_below(d: Seq<Seq<u8>>, x: Seq<u8>, q: Seq<Seq<u8>>)
    requires
        child_of(d, x).is_prefix_of(q),
    ensures
        strictly_below(d, q),
{
    assert(q.subrange(0, d.len() as int) =~= child_of(d, x).subrange(0, d.len() as int));
    assert(child_of(d, x).subrange(0, d.len() as int) =~= d);
}

/// The listing of the awaited directory becomes an item to visit.
proof fn lemma_listed(
    items: Seq<ItemView>,
    emitted: Seq<Seq<Seq<u8>>>,
    d: Seq<Seq<u8>>,
    names: Seq<Seq<u8>>,
)
    requires
        ordered_state(items, PendingView::Listing(d), emitted),
    ensures
        ordered_state(
            items.push(ItemView::Process { dir: d, names, next: 0 }),
            PendingView::Nothing,
            emitted,
        ),
{
    let pv = PendingView::Listing(d);
    let n = ItemView::Process { dir: d, names, next: 0 };
    let s2 = items.push(n);
    assert forall|q: Seq<Seq<u8>>| item_covers(n, q) implies pending_covers(pv, q) by {
        let k = choose|k: int| 0 <= k < names.len() && #[trigger] child_of(d, names[k]).is_prefix_of(
            q,
        );
        lemma_child_below(d, names[k], q);
    }
    assert forall|i: int, j: int, q: Seq<Seq<u8>>, r: Seq<Seq<u8>>|
        0 <= i < j < s2.len() && #[trigger] item_covers(s2[j], q) && #[trigger] item_covers(
            s2[i],
            r,
        ) implies path_lt(q, r) by {
        assert(s2[i] == items[i]);
        if j < items.len() {
            assert(s2[j] == items[j]);
        } else {
            assert(pending_covers(pv, q));
        }
    }
    if emitted.len() > 0 {
        assert forall|i: int, q: Seq<Seq<u8>>|
            0 <= i < s2.len() && #[trigger] item_covers(s2[i], q) implies path_lt(
            emitted.last(),
            q,
        ) by {
            if i < items.len() {
                assert(s2[i] == items[i]);
            } else {
                assert(pending_covers(pv, q));
            }
        }
    }
}

/// The metadata of the awaited entry delivers it, or stacks its directory,
/// as the position of directories says.
proof fn lemma_stat(
    items: Seq<ItemView>,
    emitted: Seq<Seq<Seq<u8>>>,
    e: EntryView,
    pos: DirPosition,
)
    requires
        ordered_state(items, PendingView::Stat(e.path), emitted),
        pos != DirPosition::Last,
    ensures
        ordered_state(
            after_stat(items, e, pos),
            PendingView::Nothing,
            if delivered_at_stat(e, pos) {
                emitted.push(e.path)
            } else {
                emitted
            },
        ),
{
    let p = e.path;
    let pv = PendingView::Stat(p);
    let s2 = after_stat(items, e, pos);
    let e2 = if delivered_at_stat(e, pos) {
        emitted.push(p)
    } else {
        emitted
    };
    assert(pending_covers(pv, p)) by {
        assert(p.subrange(0, p.len() as int) =~= p);
    }
    assert forall|q: Seq<Seq<u8>>| item_covers(ItemView::ScanDir(p), q) implies pending_covers(
        pv,
        q,
    ) by {}
    assert forall|i: int, j: int, q: Seq<Seq<u8>>, r: Seq<Seq<u8>>|
        0 <= i < j < s2.len() && #[trigger] item_covers(s2[j], q) && #[trigger] item_covers(
            s2[i],
            r,
        ) implies path_lt(q, r) by {
        assert(s2[i] == items[i]);
        if j < items.len() {
            assert(s2[j] == items[j]);
        } else {
            assert(pending_covers(pv, q));
        }
    }
    if delivered_at_stat(e, pos) {
        lemma_ascending_push(emitted, p);
    }
    if e2.len() > 0 {
        assert forall|i: int, q: Seq<Seq<u8>>|
            0 <= i < s2.len() && #[trigger] item_covers(s2[i], q) implies path_lt(e2.last(), q) by {
            if i < items.len() {
                assert(s2[i] == items[i]);
                if delivered_at_stat(e, pos) {
                    assert(pending_covers(pv, p));
                }
            } else {
                if delivered_at_stat(e, pos) {
                    lemma_below_is_after(p, q);
                } else {
                    assert(pending_covers(pv, q));
                }
            }
        }
    }
}


impl WalkBuilder {
    /// Start walking: the first task lists the root.
    pub fn walk(self) -> (w: Walker)
        ensures
            w.wf(),
            w.config_spec() == self,
            w.items() == seq![ItemView::ScanDir(Seq::<Seq<u8>>::empty())],
            w.pending_spec() == PendingView::Nothing,
            w.emitted() == Seq::<Seq<Seq<u8>>>::empty(),
    {
        let mut work: Stack<WorkItem> = Stack::new();
        let root: RelPath = Vec::new();
        assert(path_view(root@) =~= Seq::<Seq<u8>>::empty());
        work.push(WorkItem::ScanDir(root));
        let w = Walker {
            config: self,
            work,
            pending: Pending::Nothing,
            emitted: Ghost(Seq::empty()),
        };
        assert(w.items() =~= seq![ItemView::ScanDir(Seq::<Seq<u8>>::empty())]);
        w
    }
}

impl Walker {
    /// The configuration that the walk was started with.
    pub fn config(&self) -> (r: &WalkBuilder)
        ensures
            *r == self.config_spec(),
    {
        &self.config
    }

    /// The next step of the walk. An awaited answer that was not given is
    /// dropped.
    pub fn next_task(&mut self) -> (t: WalkTask)
        requires
            old(self).wf(),
        ensures
            final(self).wf(),
            final(self).config_spec() == old(self).config_spec(),
            old(self).items().len() == 0 ==> {
                &&& t@ == TaskView::Finished
                &&& final(self).items() == old(self).items()
                &&& final(self).pending_spec() == PendingView::Nothing
                &&& final(self).emitted() == old(self).emitted()
            },
            old(self).items().len() > 0 ==> match old(self).items().last() {
                ItemView::ScanDir(p) => {
                    &&& t@ == TaskView::ScanDir(p)
                    &&& final(self).items() == old(self).items().drop_last()
                    &&& final(self).pending_spec() == PendingView::Listing(p)
                    &&& final(self).emitted() == old(self).emitted()
                },
                ItemView::Emit(e) => {
                    &&& t@ == TaskView::Emit(e)
                    &&& final(self).items() == old(self).items().drop_last()
                    &&& final(self).pending_spec() == PendingView::Nothing
                    &&& final(self).emitted() == old(self).emitted().push(e.path)
                },
                ItemView::Process { dir, names, next } => if next < names.len() {
                    &&& t@ == TaskView::Stat(child_of(dir, names[next as int]))
                    &&& final(self).items() == old(self).items().drop_last().push(
                        ItemView::Process { dir, names, next: next + 1 },
                    )
                    &&& final(self).pending_spec() == PendingView::Stat(
                        child_of(dir, names[next as int]),
                    )
                    &&& final(self).emitted() == old(self).emitted()
                } else {
                    &&& t@ == TaskView::Noop
                    &&& final(self).items() == old(self).items().drop_last()
                    &&& final(self).pending_spec() == PendingView::Nothing
                    &&& final(self).emitted() == old(self).emitted()
                },
            },
    {
        let ghost items0 = self.items();
        let ghost pending0 = self.pending@;
        let ghost emitted0 = self.emitted@;
        let ghost ordered = self.config.dirs != DirPosition::Last;
        let popped = self.work.pop();
        assert(self.items() =~= if items0.len() > 0 { items0.drop_last() } else { items0 });
        match popped {
            None => {
                self.pending = Pending::Nothing;
                WalkTask::Finished
            },
            Some(WorkItem::ScanDir(p)) => {
                let t = copy_path(&p);
                self.pending = Pending::Listing(p);
                proof {
                    if ordered {
                        lemma_pop_scan(items0, pending0, emitted0, path_view(p@));
                    }
                }
                WalkTask::ScanDir(t)
            },
            Some(WorkItem::Emit(e)) => {
                self.pending = Pending::Nothing;
                self.emitted = Ghost(self.emitted@.push(e@.path));
                proof {
                    if ordered {
                        lemma_pop_emit(items0, pending0, emitted0, e@);
                    }
                }
                WalkTask::Emit(e)
            },
            Some(WorkItem::Process { dir, names, next }) => {
                assert(item_sound(items0[items0.len() - 1]));
                if next < names.len() {
                    let c = child_path(&dir, &names[next]);
                    let t = copy_path(&c);
                    let ghost dv = path_view(dir@);
                    let ghost nv = path_view(names@);
                    assert(nv[next as int] == names@[next as int]@);
                    self.work.push(WorkItem::Process { dir, names, next: next + 1 });
                    self.pending = Pending::Stat(c);
                    assert(self.items() =~= items0.drop_last().push(
                        ItemView::Process { dir: dv, names: nv, next: (next + 1) as nat },
                    ));
                    proof {
                        if ordered {
                            lemma_pop_process(items0, pending0, emitted0, dv, nv, next as nat);
                        }
                    }
                    WalkTask::Stat(t)
                } else {
                    self.pending = Pending::Nothing;
                    proof {
                        if ordered {
                            lemma_pop_plain(items0, pending0, emitted0);
                        }
                    }
                    WalkTask::Noop
                }
            },
        }
    }

    /// Hand over the names listed in the awaited directory. They are visited
    /// in ascending byte order, each once, hidden ones only when the walk
    /// includes them. Without an awaited listing nothing changes.
    pub fn dir_scanned(&mut self, names: Vec<Name>)
        requires
            old(self).wf(),
        ensures
            final(self).wf(),
            final(self).config_spec() == old(self).config_spec(),
            final(self).emitted() == old(self).emitted(),
            match old(self).pending_spec() {
                PendingView::Listing(d) => {
                    &&& final(self).pending_spec() == PendingView::Nothing
                    &&& final(self).items().len() == old(self).items().len() + 1
                    &&& final(self).items().drop_last() == old(self).items()
                    &&& final(self).items().last() matches ItemView::Process { dir, names: kept, next }
                        && dir == d && next == 0 && names_ascending(kept) && forall|n: Seq<u8>|
                        #[trigger] kept.contains(n) <==> (path_view(names@).contains(n) && (
                        old(self).config_spec().hidden_spec() || !hidden_name(n)))
                },
                _ => *final(self) == *old(self),
            },
    {
        match &self.pending {
            Pending::Listing(_) => {},
            _ => {
                return ;
            },
        }
        let ghost items0 = self.items();
        let ghost emitted0 = self.emitted@;
        let mut pending = Pending::Nothing;
        core::mem::swap(&mut self.pending, &mut pending);
        if let Pending::Listing(dir) = pending {
            let kept = sorted_children(names, self.config.include_hidden);
            let ghost dv = path_view(dir@);
            let ghost kv = path_view(kept@);
            self.work.push(WorkItem::Process { dir, names: kept, next: 0 });
            assert(self.items() =~= items0.push(ItemView::Process { dir: dv, names: kv, next: 0 }));
            assert(self.items().drop_last() =~= items0);
            assert(self.items().last() == ItemView::Process { dir: dv, names: kv, next: 0 });
            assert(forall|n: Seq<u8>|
                #[trigger] kv.contains(n) <==> (path_view(names@).contains(n) && (
                self.config.include_hidden || !hidden_name(n))));
            proof {
                if self.config.dirs != DirPosition::Last {
                    lemma_listed(items0, emitted0, dv, kv);
                }
            }
        }
    }

    /// Hand over the metadata of the awaited entry. A directory is stacked
    /// for listing; the entry is returned for delivery now unless it is a
    /// directory whose entry comes last (it is then stacked beneath its
    /// contents) or never. Without an awaited entry nothing changes.
    pub fn entry_scanned(
        &mut self,
        file_type: FileKind,
        size: u64,
        mtime: Option<Timestamp>,
        ctime: Option<Timestamp>,
    ) -> (r: Option<WalkEntry>)
        requires
            old(self).wf(),
        ensures
            final(self).wf(),
            final(self).config_spec() == old(self).config_spec(),
            match old(self).pending_spec() {
                PendingView::Stat(p) => {
                    let e = EntryView { path: p, file_type, size, mtime, ctime };
                    let pos = old(self).config_spec().position_spec();
                    &&& final(self).pending_spec() == PendingView::Nothing
                    &&& final(self).items() == after_stat(old(self).items(), e, pos)
                    &&& if delivered_at_stat(e, pos) {
                        &&& r matches Some(w) && w@ == e
                        &&& final(self).emitted() == old(self).emitted().push(p)
                    } else {
                        &&& r is None
                        &&& final(self).emitted() == old(self).emitted()
                    }
                },
                _ => r is None && *final(self) == *old(self),
            },
    {
        match &self.pending {
            Pending::Stat(_) => {},
            _ => {
                return None;
            },
        }
        let ghost items0 = self.items();
        let ghost emitted0 = self.emitted@;
        let mut pending = Pending::Nothing;
        core::mem::swap(&mut self.pending, &mut pending);
        if let Pending::Stat(path) = pending {
            let ghost pos = self.config.dirs;
            let entry = WalkEntry { path, file_type, size, mtime, ctime };
            let ghost e = entry@;
            proof {
                if pos != DirPosition::Last {
                    lemma_stat(items0, emitted0, e, pos);
                }
            }
            if file_type == FileKind::Dir {
                let sub = copy_path(&entry.path);
                match self.config.dirs {
                    DirPosition::First => {
                        self.work.push(WorkItem::ScanDir(sub));
                        assert(self.items() =~= after_stat(items0, e, pos));
                        self.emitted = Ghost(self.emitted@.push(e.path));
                        Some(entry)
                    },
                    DirPosition::Last => {
                        self.work.push(WorkItem::Emit(entry));
                        self.work.push(WorkItem::ScanDir(sub));
                        assert(self.items() =~= after_stat(items0, e, pos));
                        None
                    },
                    DirPosition::Never => {
                        self.work.push(WorkItem::ScanDir(sub));
                        assert(self.items() =~= after_stat(items0, e, pos));
                        None
                    },
                }
            } else {
                self.emitted = Ghost(self.emitted@.push(e.path));
                Some(entry)
            }
        } else {
            None
        }
    }
}

/// Unless directories come after their contents, a walk delivers its paths in
/// strictly ascending segment-wise lexicographic order, so none twice.
pub proof fn lemma_walk_delivers_ascending(w: &Walker)
    requires
        w.wf(),
        w.config_spec().position_spec() != DirPosition::Last,
    ensures
        paths_ascending(w.emitted()),
{
}

/// Leaving directories' own entries out changes only what is delivered: after
/// any entry's metadata the work that follows (the directories to list, hence
/// the entries to visit) is the one that delivering directories first leaves,
/// and the two deliver the same entries but directories.
pub proof fn lemma_never_visits_as_first(items: Seq<ItemView>, e: EntryView)
    ensures
        after_stat(items, e, DirPosition::Never) == after_stat(items, e, DirPosition::First),
        e.file_type != FileKind::Dir ==> delivered_at_stat(e, DirPosition::Never)
            && delivered_at_stat(e, DirPosition::First),
        e.file_type == FileKind::Dir ==> !delivered_at_stat(e, DirPosition::Never),
{
}

} // verus!
