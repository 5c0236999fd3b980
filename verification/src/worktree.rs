//! What a worktree holds: entries, their git status, and snapshots of all of them.
use vstd::prelude::*;

use crate::order::Rank;
use crate::rel_path::lemma_path_strict_total;
use crate::rel_path::path_before;
use crate::rel_path::RelPath;

verus! {

/// The id of the row in which the name of a new entry is typed. No real entry has it.
pub const NEW_ENTRY_ID: usize = usize::MAX;

/// A point in time at which a file was modified.
#[derive(Clone, Copy, Debug, PartialEq, Eq, Structural)]
pub struct MTime {
    pub secs: u64,
    pub nanos: u32,
}

#[derive(Clone, Copy, Debug, PartialEq, Eq, Structural)]
pub enum EntryKind {
    UnloadedDir,
    PendingDir,
    Dir,
    File,
}

/// A file or directory of a worktree.
#[derive(Debug, PartialEq, Eq)]
pub struct Entry {
    pub id: usize,
    pub kind: EntryKind,
    pub path: RelPath,
    pub inode: u64,
    pub mtime: Option<MTime>,
    pub size: u64,
    pub is_fifo: bool,
    /// Whether it is left out of searches.
    pub is_ignored: bool,
    pub canonical_path: Option<String>,
}

/// The model of an [`Entry`].
pub ghost struct EntryView {
    pub id: usize,
    pub kind: EntryKind,
    pub path: Seq<Seq<char>>,
    pub inode: u64,
    pub mtime: Option<MTime>,
    pub size: u64,
    pub is_fifo: bool,
    pub is_ignored: bool,
    pub canonical_path: Option<Seq<char>>,
}

/// The text behind an optional string.
pub open spec fn opt_text(text: Option<String>) -> Option<Seq<char>> {
    match text {
        Some(t) => Some(t@),
        None => None,
    }
}

impl View for Entry {
    type V = EntryView;

    open spec fn view(&self) -> EntryView {
        EntryView {
            id: self.id,
            kind: self.kind,
            path: self.path@,
            inode: self.inode,
            mtime: self.mtime,
            size: self.size,
            is_fifo: self.is_fifo,
            is_ignored: self.is_ignored,
            canonical_path: opt_text(self.canonical_path),
        }
    }
}

pub(crate) fn clone_opt_text(text: &Option<String>) -> (copy: Option<String>)
    ensures
        opt_text(copy) == opt_text(*text),
{
    match text {
        Some(t) => Some(t.clone()),
        None => None,
    }
}

impl Clone for Entry {
    fn clone(&self) -> (copy: Self)
        ensures
            copy@ == self@,
    {
        Entry {
            id: self.id,
            kind: self.kind,
            path: self.path.clone(),
            inode: self.inode,
            mtime: self.mtime,
            size: self.size,
            is_fifo: self.is_fifo,
            is_ignored: self.is_ignored,
            canonical_path: clone_opt_text(&self.canonical_path),
        }
    }
}

impl Entry {
    pub fn is_file(&self) -> (yes: bool)
        ensures
            yes == (self.kind == EntryKind::File),
    {
        self.kind == EntryKind::File
    }
}

/// How many changes of each kind git tracks below a path.
#[derive(Clone, Copy, Debug, PartialEq, Eq, Structural)]
pub struct TrackedSummary {
    pub added: usize,
    pub modified: usize,
    pub deleted: usize,
}

/// The git status of a path, summed over what is below it.
#[derive(Clone, Copy, Debug, PartialEq, Eq, Structural)]
pub struct GitSummary {
    pub index: TrackedSummary,
    pub worktree: TrackedSummary,
    pub conflict: usize,
    pub untracked: usize,
    pub count: usize,
}

/// The counts of a [`GitSummary`], in the order of its fields.
pub open spec fn counts(s: GitSummary) -> Seq<nat> {
    seq![
        s.index.added as nat,
        s.index.modified as nat,
        s.index.deleted as nat,
        s.worktree.added as nat,
        s.worktree.modified as nat,
        s.worktree.deleted as nat,
        s.conflict as nat,
        s.untracked as nat,
        s.count as nat,
    ]
}

pub open spec fn no_counts() -> Seq<nat> {
    Seq::new(9, |i: int| 0nat)
}

/// Count by count.
pub open spec fn add_counts(a: Seq<nat>, b: Seq<nat>) -> Seq<nat> {
    Seq::new(9, |i: int| a[i] + b[i])
}

pub open spec fn counts_fit(a: Seq<nat>) -> bool {
    forall|i: int| 0 <= i < 9 ==> #[trigger] a[i] <= usize::MAX
}

impl Default for GitSummary {
    fn default() -> (s: GitSummary)
        ensures
            counts(s) == no_counts(),
    {
        let none = TrackedSummary { added: 0, modified: 0, deleted: 0 };
        let s = GitSummary { index: none, worktree: none, conflict: 0, untracked: 0, count: 0 };
        assert(counts(s) =~= no_counts());
        s
    }
}

fn sum_fits(a: usize, b: usize) -> (yes: bool)
    ensures
        yes == (a + b <= usize::MAX),
{
    a <= usize::MAX - b
}

impl GitSummary {
    /// Whether the sums of the counts can be held.
    pub fn fits_with(&self, other: &GitSummary) -> (yes: bool)
        ensures
            yes == counts_fit(add_counts(counts(*self), counts(*other))),
    {
        let yes: bool = sum_fits(self.index.added, other.index.added) && sum_fits(
            self.index.modified,
            other.index.modified,
        ) && sum_fits(self.index.deleted, other.index.deleted) && sum_fits(
            self.worktree.added,
            other.worktree.added,
        ) && sum_fits(self.worktree.modified, other.worktree.modified) && sum_fits(
            self.worktree.deleted,
            other.worktree.deleted,
        ) && sum_fits(self.conflict, other.conflict) && sum_fits(self.untracked, other.untracked)
            && sum_fits(self.count, other.count);
        proof {
            let sum = add_counts(counts(*self), counts(*other));
            if counts_fit(sum) {
                assert(sum[0] <= usize::MAX && sum[1] <= usize::MAX && sum[2] <= usize::MAX);
                assert(sum[3] <= usize::MAX && sum[4] <= usize::MAX && sum[5] <= usize::MAX);
                assert(sum[6] <= usize::MAX && sum[7] <= usize::MAX && sum[8] <= usize::MAX);
            }
        }
        yes
    }

    /// Adds `other` to this summary.
    pub fn merge(&mut self, other: &GitSummary)
        requires
            counts_fit(add_counts(counts(*old(self)), counts(*other))),
        ensures
            counts(*final(self)) == add_counts(counts(*old(self)), counts(*other)),
    {
        proof {
            let sum = add_counts(counts(*self), counts(*other));
            assert(sum[0] <= usize::MAX && sum[1] <= usize::MAX && sum[2] <= usize::MAX);
            assert(sum[3] <= usize::MAX && sum[4] <= usize::MAX && sum[5] <= usize::MAX);
            assert(sum[6] <= usize::MAX && sum[7] <= usize::MAX && sum[8] <= usize::MAX);
        }
        self.index.added = self.index.added + other.index.added;
        self.index.modified = self.index.modified + other.index.modified;
        self.index.deleted = self.index.deleted + other.index.deleted;
        self.worktree.added = self.worktree.added + other.worktree.added;
        self.worktree.modified = self.worktree.modified + other.worktree.modified;
        self.worktree.deleted = self.worktree.deleted + other.worktree.deleted;
        self.conflict = self.conflict + other.conflict;
        self.untracked = self.untracked + other.untracked;
        self.count = self.count + other.count;
        assert(counts(*self) =~= add_counts(counts(*old(self)), counts(*other)));
    }
}

/// An entry together with its git status.
#[derive(Debug, PartialEq, Eq)]
pub struct GitEntry {
    pub entry: Entry,
    pub git_summary: GitSummary,
}

/// The model of a [`GitEntry`].
pub ghost struct GitEntryView {
    pub entry: EntryView,
    pub git_summary: GitSummary,
}

impl View for GitEntry {
    type V = GitEntryView;

    open spec fn view(&self) -> GitEntryView {
        GitEntryView { entry: self.entry@, git_summary: self.git_summary }
    }
}

impl Clone for GitEntry {
    fn clone(&self) -> (copy: Self)
        ensures
            copy@ == self@,
    {
        GitEntry { entry: self.entry.clone(), git_summary: self.git_summary }
    }
}

/// The views of a list of entries.
pub open spec fn entry_views(entries: Seq<Entry>) -> Seq<EntryView> {
    entries.map_values(|e: Entry| e@)
}

/// In the order of their paths, and no two with one path or one id.
pub open spec fn listing(entries: Seq<EntryView>) -> bool {
    &&& forall|i: int, j: int|
        0 <= i < j < entries.len() ==> path_before(
            #[trigger] entries[i].path,
            #[trigger] entries[j].path,
        )
    &&& forall|i: int, j: int|
        0 <= i < j < entries.len() ==> #[trigger] entries[i].id != #[trigger] entries[j].id
}

/// There is an entry at `path`, and `i` is its position.
pub open spec fn entry_at(entries: Seq<EntryView>, path: Seq<Seq<char>>, i: int) -> bool {
    0 <= i < entries.len() && entries[i].path == path
}

/// The entry at `path`.
pub open spec fn entry_for_path(entries: Seq<EntryView>, path: Seq<Seq<char>>) -> Option<EntryView> {
    if exists|i: int| entry_at(entries, path, i) {
        Some(entries[choose|i: int| entry_at(entries, path, i)])
    } else {
        None
    }
}

pub proof fn lemma_entry_for_path(entries: Seq<EntryView>, i: int)
    requires
        listing(entries),
        0 <= i < entries.len(),
    ensures
        entry_for_path(entries, entries[i].path) == Some(entries[i]),
{
    let path = entries[i].path;
    assert(entry_at(entries, path, i));
    let j = choose|j: int| entry_at(entries, path, j);
    lemma_path_strict_total();
    let before = |a: Seq<Seq<char>>, b: Seq<Seq<char>>| path_before(a, b);
    assert(!before(path, path));
    if i < j {
        assert(path_before(entries[i].path, entries[j].path));
    } else if j < i {
        assert(path_before(entries[j].path, entries[i].path));
    }
}

/// The state of a worktree at one moment.
#[derive(Debug, PartialEq, Eq)]
pub struct Snapshot {
    id: usize,
    abs_path: String,
    entries: Vec<Entry>,
}

/// The model of a [`Snapshot`].
pub ghost struct SnapshotView {
    pub id: usize,
    pub abs_path: Seq<char>,
    pub entries: Seq<EntryView>,
}

impl View for Snapshot {
    type V = SnapshotView;

    closed spec fn view(&self) -> SnapshotView {
        SnapshotView {
            id: self.id,
            abs_path: self.abs_path@,
            entries: entry_views(self.entries@),
        }
    }
}

impl Snapshot {
    #[verifier::type_invariant]
    spec fn is_listing(self) -> bool {
        listing(entry_views(self.entries@))
    }

    /// A snapshot of these entries, if they are in path order and their paths and ids distinct.
    pub fn new(id: usize, abs_path: String, entries: Vec<Entry>) -> (snapshot: Option<Snapshot>)
        ensures
            match snapshot {
                Some(s) => s@ == (SnapshotView {
                    id,
                    abs_path: abs_path@,
                    entries: entry_views(entries@),
                }) && listing(entry_views(entries@)),
                None => !listing(entry_views(entries@)),
            },
    {
        let ghost views = entry_views(entries@);
        let ghost before = |a: Seq<Seq<char>>, b: Seq<Seq<char>>| path_before(a, b);
        proof {
            lemma_path_strict_total();
        }
        let mut seen: std::collections::HashSet<usize> = std::collections::HashSet::new();
        let mut i: usize = 0;
        while i < entries.len()
            invariant
                views == entry_views(entries@),
                i <= entries@.len(),
                before == (|a: Seq<Seq<char>>, b: Seq<Seq<char>>| path_before(a, b)),
                crate::order::strict_total(before),
                listing(views.take(i as int)),
                forall|id: usize|
                    seen@.contains(id) <==> exists|j: int|
                        0 <= j < i && #[trigger] views[j].id == id,
            decreases entries@.len() - i,
        {
            broadcast use vstd::std_specs::hash::group_hash_axioms;

            let ghost head = views.take(i as int);
            if i > 0 {
                match entries[i - 1].path.compared(&entries[i].path) {
                    Rank::Before => {
                        assert(before(views[i - 1].path, views[i as int].path));
                    },
                    _ => {
                        proof {
                            assert(!before(views[i - 1].path, views[i as int].path)) by {
                                assert(!before(views[i - 1].path, views[i - 1].path));
                                assert(before(views[i as int].path, views[i - 1].path) && before(
                                    views[i - 1].path,
                                    views[i as int].path,
                                ) ==> before(views[i as int].path, views[i as int].path));
                            }
                            assert(!path_before(views[i - 1].path, views[i as int].path));
                        }
                        return None;
                    },
                }
            }
            if seen.contains(&entries[i].id) {
                proof {
                    let j = choose|j: int| 0 <= j < i && #[trigger] views[j].id == views[i as int].id;
                    assert(views[j].id == views[i as int].id);
                }
                return None;
            }
            seen.insert(entries[i].id);
            proof {
                let next = views.take(i + 1);
                assert forall|a: int, b: int| 0 <= a < b < next.len() implies path_before(
                    #[trigger] next[a].path,
                    #[trigger] next[b].path,
                ) by {
                    if b < i {
                        assert(path_before(head[a].path, head[b].path));
                    } else if a < i - 1 {
                        assert(path_before(head[a].path, head[i - 1].path));
                        assert(before(next[a].path, next[i - 1].path));
                        assert(before(next[i - 1].path, next[b].path));
                        assert(before(next[a].path, next[b].path));
                    }
                }
                assert forall|a: int, b: int| 0 <= a < b < next.len() implies #[trigger] next[a].id
                    != #[trigger] next[b].id by {
                    if b < i {
                        assert(head[a].id != head[b].id);
                    } else {
                        assert(views[a].id == next[a].id);
                    }
                }
                assert forall|id: usize| seen@.contains(id) implies exists|j: int|
                    0 <= j < i + 1 && #[trigger] views[j].id == id by {
                    if id == views[i as int].id {
                        assert(views[i as int].id == id);
                    } else {
                        let j = choose|j: int| 0 <= j < i && #[trigger] views[j].id == id;
                        assert(views[j].id == id);
                    }
                }
            }
            i = i + 1;
        }
        assert(views.take(i as int) =~= views);
        Some(Snapshot { id, abs_path, entries })
    }

    pub fn id(&self) -> (id: usize)
        ensures
            id == self@.id,
    {
        self.id
    }

    pub fn abs_path(&self) -> (path: &String)
        ensures
            path@ == self@.abs_path,
    {
        &self.abs_path
    }

    /// All entries, in path order.
    pub fn entries(&self) -> (entries: &Vec<Entry>)
        ensures
            entry_views(entries@) == self@.entries,
            listing(self@.entries),
    {
        proof {
            use_type_invariant(self);
        }
        &self.entries
    }

    /// The entry at a path, if there is one.
    pub fn entry_for_path(&self, path: &RelPath) -> (entry: Option<&Entry>)
        ensures
            match entry {
                Some(e) => entry_for_path(self@.entries, path@) == Some(e@),
                None => entry_for_path(self@.entries, path@) is None,
            },
    {
        proof {
            use_type_invariant(self);
            lemma_path_strict_total();
        }
        let ghost views = self@.entries;
        let ghost before = |a: Seq<Seq<char>>, b: Seq<Seq<char>>| path_before(a, b);
        let mut low: usize = 0;
        let mut high: usize = self.entries.len();
        while low < high
            invariant
                low <= high <= self.entries@.len(),
                views == entry_views(self.entries@),
                views == self@.entries,
                listing(views),
                before == (|a: Seq<Seq<char>>, b: Seq<Seq<char>>| path_before(a, b)),
                crate::order::strict_total(before),
                forall|j: int| 0 <= j < low ==> before(#[trigger] views[j].path, path@),
                forall|j: int| high <= j < views.len() ==> before(path@, #[trigger] views[j].path),
            decreases high - low,
        {
            let middle: usize = low + (high - low) / 2;
            match self.entries[middle].path.compared(path) {
                Rank::Before => {
                    assert forall|j: int| 0 <= j < middle + 1 implies before(
                        #[trigger] views[j].path,
                        path@,
                    ) by {
                        if j < middle {
                            assert(before(views[j].path, views[middle as int].path));
                        }
                        assert(before(views[middle as int].path, path@));
                    }
                    low = middle + 1;
                },
                Rank::Same => {
                    proof {
                        lemma_entry_for_path(views, middle as int);
                    }
                    return Some(&self.entries[middle]);
                },
                Rank::After => {
                    assert forall|j: int| middle <= j < views.len() implies before(
                        path@,
                        #[trigger] views[j].path,
                    ) by {
                        if middle < j {
                            assert(before(views[middle as int].path, views[j].path));
                        }
                        assert(before(path@, views[middle as int].path));
                    }
                    high = middle;
                },
            }
        }
        assert forall|j: int| !entry_at(views, path@, j) by {
            assert(!before(path@, path@));
            if 0 <= j < views.len() {
                if j < low {
                    assert(before(views[j].path, path@));
                } else {
                    assert(before(path@, views[j].path));
                }
            }
        }
        None
    }
}

} // verus!
