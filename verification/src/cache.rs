//! What is remembered of the files that were checked, from one run to the next.
use vstd::prelude::*;
use vstd::string::*;

use crate::rel_path::parse_unix;
use crate::rel_path::unix_text;
use crate::rel_path::within;
use crate::rel_path::RelPath;
use crate::sorted_map::SortedMap;
use crate::worktree::entry_for_path;
use crate::worktree::Entry;
use crate::worktree::EntryView;
use crate::worktree::MTime;
use crate::worktree::Snapshot;
use crate::worktree::SnapshotView;

verus! {

/// The namespace of the database in which caches are kept.
pub const CACHE_NAMESPACE: &'static str = "project_panel_file_badges";

/// The version of the form in which caches are kept.
pub const CACHE_VERSION: u32 = 1;

/// By what it is known that a file did not change.
#[derive(Clone, Copy, Debug, PartialEq, Eq, Structural)]
pub struct FileVersion {
    pub inode: u64,
    pub mtime: Option<MTime>,
    pub size: u64,
}

/// The version of an entry's file.
pub open spec fn version_of(entry: EntryView) -> FileVersion {
    FileVersion { inode: entry.inode, mtime: entry.mtime, size: entry.size }
}

impl FileVersion {
    pub fn for_entry(entry: &Entry) -> (version: FileVersion)
        ensures
            version == version_of(entry@),
    {
        FileVersion { inode: entry.inode, mtime: entry.mtime, size: entry.size }
    }
}

/// What is known of one version of a file: which matchers it matches.
pub struct CachedFile {
    pub version: FileVersion,
    /// By the fingerprint of the matcher.
    pub matches: SortedMap<String, bool>,
}

/// The model of a [`CachedFile`].
pub ghost struct CachedFileView {
    pub version: FileVersion,
    pub matches: Map<Seq<char>, bool>,
}

impl View for CachedFile {
    type V = CachedFileView;

    open spec fn view(&self) -> CachedFileView {
        CachedFileView { version: self.version, matches: self.matches@ }
    }
}

/// A cache as the database keeps it.
pub struct PersistedCache {
    pub version: u32,
    /// By the path of the file, `/`-separated.
    pub files: SortedMap<String, CachedFile>,
}

/// What is known of each file, by its path.
pub type FilesView = Map<Seq<char>, CachedFileView>;

/// The model of a [`PersistedCache`].
pub ghost struct PersistedView {
    pub version: u32,
    pub files: FilesView,
}

impl View for PersistedCache {
    type V = PersistedView;

    open spec fn view(&self) -> PersistedView {
        PersistedView {
            version: self.version,
            files: self.files@.map_values(|f: CachedFile| f@),
        }
    }
}

/// A cache in which nothing is known.
pub open spec fn blank_cache() -> PersistedView {
    PersistedView { version: CACHE_VERSION, files: Map::empty() }
}

impl Default for PersistedCache {
    fn default() -> (cache: PersistedCache)
        ensures
            cache@ == blank_cache(),
    {
        let cache = PersistedCache { version: CACHE_VERSION, files: SortedMap::new() };
        assert(cache@.files =~= Map::empty());
        cache
    }
}

/// What came of reading a cache from the database.
pub enum CacheRead {
    /// A cache was kept there.
    Found(PersistedCache),
    /// Something was kept there that is no cache, and why.
    Corrupt(String),
    Missing,
    /// The database could not be read, and why.
    Failed(String),
}

/// The model of a [`CacheRead`].
pub ghost enum CacheReadView {
    Found(PersistedView),
    Corrupt(Seq<char>),
    Missing,
    Failed(Seq<char>),
}

impl View for CacheRead {
    type V = CacheReadView;

    open spec fn view(&self) -> CacheReadView {
        match self {
            CacheRead::Found(cache) => CacheReadView::Found(cache@),
            CacheRead::Corrupt(error) => CacheReadView::Corrupt(error@),
            CacheRead::Missing => CacheReadView::Missing,
            CacheRead::Failed(error) => CacheReadView::Failed(error@),
        }
    }
}

/// The cache to start from: the one that was kept if it has the current form, or else a blank one.
pub open spec fn usable_cache(read: CacheReadView) -> PersistedView {
    match read {
        CacheReadView::Found(cache) => if cache.version == CACHE_VERSION {
            cache
        } else {
            blank_cache()
        },
        _ => blank_cache(),
    }
}

/// What is reported of a cache that could not be read.
pub open spec fn cache_read_error(root: Seq<char>, read: CacheReadView) -> Option<Seq<char>> {
    match read {
        CacheReadView::Corrupt(error) => Some(
            "Rebuilding file badge cache for "@ + root + ": "@ + error,
        ),
        CacheReadView::Failed(error) => Some("Could not read file badge cache: "@ + error),
        _ => None,
    }
}

/// The cache of a worktree.
pub struct WorktreeCache {
    pub root: String,
    /// Under which the database keeps it.
    pub key: String,
    pub data: PersistedCache,
    /// Whether it holds what the database does not.
    pub dirty: bool,
}

/// The model of a [`WorktreeCache`].
pub ghost struct CacheView {
    pub root: Seq<char>,
    pub key: Seq<char>,
    pub data: PersistedView,
    pub dirty: bool,
}

impl View for WorktreeCache {
    type V = CacheView;

    open spec fn view(&self) -> CacheView {
        CacheView { root: self.root@, key: self.key@, data: self.data@, dirty: self.dirty }
    }
}

/// `cache` with these files in place of its own.
pub open spec fn with_files(cache: CacheView, files: FilesView, dirty: bool) -> CacheView {
    CacheView { data: PersistedView { files, ..cache.data }, dirty, ..cache }
}

/// A worktree as it is to be checked.
pub struct WorktreeInput {
    pub snapshot: Snapshot,
    /// Whether the snapshot holds all that is there.
    pub scan_complete: bool,
}

/// The model of a [`WorktreeInput`].
pub ghost struct TreeView {
    pub snapshot: SnapshotView,
    pub scan_complete: bool,
}

impl View for WorktreeInput {
    type V = TreeView;

    open spec fn view(&self) -> TreeView {
        TreeView { snapshot: self.snapshot@, scan_complete: self.scan_complete }
    }
}

/// A path of a worktree below which what is known may no longer hold.
pub type ChangeView = (usize, Seq<Seq<char>>);

/// The views of a list of changed paths.
pub open spec fn change_views(changes: Seq<(usize, RelPath)>) -> Seq<ChangeView> {
    changes.map_values(|c: (usize, RelPath)| (c.0, c.1@))
}

/// `path` or a directory above it changed in the worktree.
pub open spec fn invalidated(
    changes: Seq<ChangeView>,
    worktree_id: usize,
    path: Seq<Seq<char>>,
) -> bool {
    exists|i: int|
        0 <= i < changes.len() && (#[trigger] changes[i]).0 == worktree_id && within(
            path,
            changes[i].1,
        )
}

/// What is known of a file is kept where neither it nor a directory above it changed, and as long
/// as it is there. Before the scan is complete, a file that the snapshot lacks may yet be there.
pub open spec fn kept(text: Seq<char>, tree: TreeView, changes: Seq<ChangeView>) -> bool {
    match parse_unix(text) {
        Some(path) => !invalidated(changes, tree.snapshot.id, path) && (!tree.scan_complete
            || entry_for_path(tree.snapshot.entries, path) is Some),
        None => false,
    }
}

/// The files that are kept.
pub open spec fn kept_files(
    files: FilesView,
    tree: TreeView,
    changes: Seq<ChangeView>,
) -> FilesView {
    files.restrict(Set::new(|text: Seq<char>| kept(text, tree, changes)))
}

/// Some file is not kept.
pub open spec fn loses_files(files: FilesView, tree: TreeView, changes: Seq<ChangeView>) -> bool {
    exists|text: Seq<char>| #[trigger] files.contains_key(text) && !kept(text, tree, changes)
}

/// `cache` without what no longer holds.
pub open spec fn pruned(cache: CacheView, tree: TreeView, changes: Seq<ChangeView>) -> CacheView {
    with_files(
        cache,
        kept_files(cache.data.files, tree, changes),
        cache.dirty || loses_files(cache.data.files, tree, changes),
    )
}

/// What was found in one version of a file, by fingerprint; or why nothing could be found.
pub type MatchesView = Result<Map<Seq<char>, bool>, Seq<char>>;

/// What is known of a version of a file once the given matches were found in it too.
pub open spec fn with_matches(
    files: FilesView,
    text: Seq<char>,
    version: FileVersion,
    matches: Map<Seq<char>, bool>,
) -> CachedFileView {
    CachedFileView {
        version,
        matches: if files.contains_key(text) && files[text].version == version {
            files[text].matches.union_prefer_right(matches)
        } else {
            matches
        },
    }
}

/// `cache` after a file was read: with what was found in it, or without the file where the read
/// failed.
pub open spec fn recorded(
    cache: CacheView,
    path: Seq<Seq<char>>,
    version: FileVersion,
    result: MatchesView,
) -> CacheView {
    let files = cache.data.files;
    let text = unix_text(path);
    match result {
        Ok(matches) => with_files(
            cache,
            files.insert(text, with_matches(files, text, version, matches)),
            true,
        ),
        Err(_) => with_files(cache, files.remove(text), cache.dirty || files.contains_key(text)),
    }
}

fn is_invalidated(changes: &Vec<(usize, RelPath)>, worktree_id: usize, path: &RelPath) -> (yes: bool)
    ensures
        yes == invalidated(change_views(changes@), worktree_id, path@),
{
    let ghost views = change_views(changes@);
    let mut i: usize = 0;
    while i < changes.len()
        invariant
            i <= changes@.len(),
            views == change_views(changes@),
            forall|j: int|
                0 <= j < i ==> !((#[trigger] views[j]).0 == worktree_id && within(
                    path@,
                    views[j].1,
                )),
        decreases changes@.len() - i,
    {
        assert(views[i as int] == (changes@[i as int].0, changes@[i as int].1@));
        if changes[i].0 == worktree_id && path.starts_with(&changes[i].1) {
            return true;
        }
        i = i + 1;
    }
    false
}

fn is_kept(text: &String, tree: &WorktreeInput, changes: &Vec<(usize, RelPath)>) -> (yes: bool)
    ensures
        yes == kept(text@, tree@, change_views(changes@)),
{
    match RelPath::from_unix_str(text.as_str()) {
        Err(_) => false,
        Ok(path) => !is_invalidated(changes, tree.snapshot.id(), &path) && (!tree.scan_complete
            || tree.snapshot.entry_for_path(&path).is_some()),
    }
}

impl WorktreeCache {
    /// The cache of the worktree at `root`, with what came of reading it from the database under
    /// `key`; and what is to be reported of that.
    pub fn open(root: &String, key: String, read: CacheRead) -> (opened: (
        WorktreeCache,
        Option<String>,
    ))
        ensures
            opened.0@ == (CacheView {
                root: root@,
                key: key@,
                data: usable_cache(read@),
                dirty: false,
            }),
            crate::worktree::opt_text(opened.1) == cache_read_error(root@, read@),
    {
        let (data, error): (PersistedCache, Option<String>) = match read {
            CacheRead::Found(cache) => if cache.version == CACHE_VERSION {
                (cache, None)
            } else {
                (PersistedCache::default(), None)
            },
            CacheRead::Corrupt(error) => {
                let mut text: String = "Rebuilding file badge cache for ".to_owned();
                text.append(root.as_str());
                text.append(": ");
                text.append(error.as_str());
                (PersistedCache::default(), Some(text))
            },
            CacheRead::Missing => (PersistedCache::default(), None),
            CacheRead::Failed(error) => {
                let mut text: String = "Could not read file badge cache: ".to_owned();
                text.append(error.as_str());
                (PersistedCache::default(), Some(text))
            },
        };
        (WorktreeCache { root: root.clone(), key, data, dirty: false }, error)
    }

    /// Forgets what no longer holds.
    pub fn prune(&mut self, tree: &WorktreeInput, changes: &Vec<(usize, RelPath)>)
        ensures
            final(self)@ == pruned(old(self)@, tree@, change_views(changes@)),
    {
        let ghost was = self@;
        let ghost views = change_views(changes@);
        let n: usize = self.data.files.len();
        let ghost keys = self.data.files.keys();
        let ghost files = self.data.files@;
        let mut marks: Vec<bool> = Vec::new();
        let mut lost: bool = false;
        let mut i: usize = 0;
        while i < n
            invariant
                i <= n == keys.len(),
                self.data.files.keys() == keys,
                self.data.files@ == files,
                self@ == was,
                views == change_views(changes@),
                marks@.len() == i,
                forall|j: int| 0 <= j < i ==> #[trigger] marks@[j] == kept(keys[j], tree@, views),
                lost <==> exists|j: int| 0 <= j < i && !#[trigger] marks@[j],
            decreases n - i,
        {
            let (text, _) = self.data.files.at(i);
            let mark: bool = is_kept(text, tree, changes);
            let ghost marks_was = marks@;
            marks.push(mark);
            if !mark {
                lost = true;
                assert(!marks@[i as int]);
            }
            proof {
                if exists|j: int| 0 <= j < i && !#[trigger] marks_was[j] {
                    let j = choose|j: int| 0 <= j < i && !#[trigger] marks_was[j];
                    assert(!marks@[j]);
                }
            }
            i = i + 1;
        }
        proof {
            if lost {
                let j = choose|j: int| 0 <= j < n && !#[trigger] marks@[j];
                assert(keys.contains(keys[j]));
                assert(files.contains_key(keys[j]));
                assert(was.data.files.contains_key(keys[j]));
            }
            if loses_files(was.data.files, tree@, views) {
                let text = choose|text: Seq<char>| #[trigger]
                    was.data.files.contains_key(text) && !kept(text, tree@, views);
                assert(files.contains_key(text));
                assert(keys.contains(text));
                let j = keys.index_of(text);
                assert(!marks@[j]);
            }
        }
        self.data.files.keep_marked(&marks);
        self.dirty = self.dirty || lost;
        proof {
            let now = self.data.files@;
            assert forall|text: Seq<char>| #[trigger]
                now.contains_key(text) <==> files.contains_key(text) && kept(
                    text,
                    tree@,
                    views,
                ) by {
                if now.contains_key(text) {
                    let j = choose|j: int|
                        0 <= j < marks@.len() && #[trigger] marks@[j] && keys[j] == text;
                    assert(marks@[j] == kept(keys[j], tree@, views));
                }
                if files.contains_key(text) && kept(text, tree@, views) {
                    assert(keys.contains(text));
                    let j = keys.index_of(text);
                    assert(marks@[j] && keys[j] == text);
                }
            }
            assert(self@.data.files =~= kept_files(was.data.files, tree@, views));
        }
    }

    /// Takes in what was found in a file, or forgets the file where the read failed.
    pub fn record(
        &mut self,
        path: &RelPath,
        version: FileVersion,
        result: &Result<SortedMap<String, bool>, String>,
    )
        ensures
            final(self)@ == recorded(old(self)@, path@, version, matches_view(*result)),
    {
        let ghost was = self@;
        let text = path.as_unix_str();
        let ghost key = text@;
        let ghost files = self.data.files@;
        let held = self.data.files.remove(&text);
        match result {
            Ok(matches) => {
                let mut all: SortedMap<String, bool> = match held {
                    Some(file) => if file.version == version {
                        file.matches
                    } else {
                        SortedMap::new()
                    },
                    None => SortedMap::new(),
                };
                let ghost before = all@;
                extend(&mut all, matches);
                proof {
                    assert(Map::<Seq<char>, bool>::empty().union_prefer_right(matches@)
                        =~= matches@);
                }
                let file = CachedFile { version, matches: all };
                self.data.files.insert(text, file);
                self.dirty = true;
                proof {
                    assert(file@ == with_matches(was.data.files, key, version, matches@));
                    assert(self@.data.files =~= was.data.files.insert(key, file@));
                }
            },
            Err(_) => {
                if held.is_some() {
                    self.dirty = true;
                }
                assert(self@.data.files =~= was.data.files.remove(key));
            },
        }
    }
}

/// The model of what came of reading a file.
pub open spec fn matches_view(result: Result<SortedMap<String, bool>, String>) -> MatchesView {
    match result {
        Ok(matches) => Ok(matches@),
        Err(error) => Err(error@),
    }
}

/// Adds all of `more` to `map`, in place of what is there under the same keys.
fn extend(map: &mut SortedMap<String, bool>, more: &SortedMap<String, bool>)
    ensures
        final(map)@ == old(map)@.union_prefer_right(more@),
{
    let ghost was = map@;
    let n: usize = more.len();
    let ghost keys = more.keys();
    let mut i: usize = 0;
    while i < n
        invariant
            i <= n == keys.len(),
            keys == more.keys(),
            was == old(map)@,
            forall|key: Seq<char>| more@.contains_key(key) <==> #[trigger] keys.contains(key),
            forall|key: Seq<char>| #[trigger]
                map@.contains_key(key) <==> was.contains_key(key) || keys.take(i as int).contains(
                    key,
                ),
            forall|key: Seq<char>| #[trigger]
                map@.contains_key(key) ==> map@[key] == if keys.take(i as int).contains(key) {
                    more@[key]
                } else {
                    was[key]
                },
        decreases n - i,
    {
        let (key, value) = more.at(i);
        let ghost head = keys.take(i as int);
        let ghost next = keys.take(i + 1);
        proof {
            assert(next =~= head.push(key@));
            assert forall|k: Seq<char>| next.contains(k) <==> (head.contains(k) || k == key@) by {
                if head.contains(k) {
                    assert(next[head.index_of(k)] == k);
                }
                if k == key@ {
                    assert(next[i as int] == k);
                }
                if next.contains(k) && k != key@ {
                    assert(head[next.index_of(k)] == k);
                }
            }
        }
        map.insert(key.clone(), *value);
        i = i + 1;
    }
    assert(keys.take(i as int) =~= keys);
    assert(map@ =~= was.union_prefer_right(more@));
}

} // verus!
