//! Collapsible groups of the test files in each directory.
use std::collections::HashMap;
use vstd::prelude::*;
use vstd::string::*;

use crate::order::OrderedKey;
use crate::order::Rank;
use crate::patterns::glob_error;
use crate::patterns::glob_matches;
use crate::patterns::NameGlob;
use crate::patterns::PatternError;
use crate::rel_path::ancestor;
use crate::rel_path::lemma_parse_name;
use crate::rel_path::within;
use crate::rel_path::RelPath;
use crate::sorted_map::SortedMap;
use crate::worktree::add_counts;
use crate::worktree::counts;
use crate::worktree::counts_fit;
use crate::worktree::entry_at;
use crate::worktree::entry_for_path;
use crate::worktree::listing;
use crate::worktree::no_counts;
use crate::worktree::Entry;
use crate::worktree::EntryKind;
use crate::worktree::EntryView;
use crate::worktree::GitEntry;
use crate::worktree::GitEntryView;
use crate::worktree::GitSummary;
use crate::worktree::Snapshot;
use crate::worktree::SnapshotView;
use crate::worktree::TrackedSummary;
use crate::worktree::NEW_ENTRY_ID;

verus! {

/// An entry of one of the worktrees.
#[derive(Clone, Copy, Debug, PartialEq, Eq, Structural, Hash)]
pub struct SelectedEntry {
    pub worktree_id: usize,
    pub entry_id: usize,
}

impl View for SelectedEntry {
    type V = SelectedEntry;

    open spec fn view(&self) -> SelectedEntry {
        *self
    }
}

impl OrderedKey for SelectedEntry {
    open spec fn before(a: SelectedEntry, b: SelectedEntry) -> bool {
        a.worktree_id < b.worktree_id || (a.worktree_id == b.worktree_id && a.entry_id
            < b.entry_id)
    }

    proof fn lemma_strict_total() {
    }

    fn rank(&self, other: &Self) -> (r: Rank) {
        if self.worktree_id == other.worktree_id {
            self.entry_id.rank(&other.entry_id)
        } else {
            self.worktree_id.rank(&other.worktree_id)
        }
    }
}

/// `f` can be asked about every id.
pub open spec fn total<F: Fn(usize) -> bool>(f: F) -> bool {
    forall|id: usize| call_requires(f, (id,))
}

/// What `f` answers depends on the id alone.
pub open spec fn by_id_alone<F: Fn(usize) -> bool>(f: F) -> bool {
    forall|id: usize| !(call_ensures(f, (id,), true) && #[trigger] call_ensures(f, (id,), false))
}

/// The ids of which `f` says that they belong to real entries.
pub open spec fn answered<F: Fn(usize) -> bool>(f: F) -> spec_fn(usize) -> bool {
    |id: usize| call_ensures(f, (id,), true)
}

/// `f` said of these ids that they belong to real entries.
pub open spec fn said_real<F: Fn(usize) -> bool>(f: F, reals: Set<usize>) -> bool {
    forall|id: usize| #[trigger] reals.contains(id) ==> call_ensures(f, (id,), true)
}

/// These ids are real, and no others.
pub open spec fn among(reals: Set<usize>) -> spec_fn(usize) -> bool {
    |id: usize| reals.contains(id)
}

/// The ids of the rows that stand for groups: which directory has which, and the last one given.
pub ghost struct IdsView {
    pub by_parent: Map<SelectedEntry, usize>,
    pub next: Option<usize>,
}

/// Ids are given from the one of the new-entry row downwards: those at or above it are taken.
pub open spec fn floor(next: Option<usize>) -> usize {
    match next {
        Some(n) => n,
        None => NEW_ENTRY_ID,
    }
}

/// The largest id below `from` that is not real.
pub open spec fn next_free(taken: spec_fn(usize) -> bool, from: usize) -> Option<usize>
    decreases from,
{
    if from == 0 {
        None
    } else {
        let id = (from - 1) as usize;
        if taken(id) {
            next_free(taken, id)
        } else {
            Some(id)
        }
    }
}

/// The id of the group of `parent`: the one that it has, unless an entry took that since, or else
/// the next one that is free. Nothing, where none is free.
pub open spec fn assigned(
    ids: IdsView,
    parent: SelectedEntry,
    taken: spec_fn(usize) -> bool,
) -> Option<(IdsView, usize)> {
    if ids.by_parent.contains_key(parent) && !taken(ids.by_parent[parent]) {
        Some((ids, ids.by_parent[parent]))
    } else {
        match next_free(taken, floor(ids.next)) {
            Some(id) => Some(
                (IdsView { by_parent: ids.by_parent.insert(parent, id), next: Some(id) }, id),
            ),
            None => None,
        }
    }
}

/// The ids once the group of `parent` got its own, or none was free, and which one it got.
pub open spec fn after_assigned(
    ids: IdsView,
    parent: SelectedEntry,
    taken: spec_fn(usize) -> bool,
) -> (IdsView, Option<usize>) {
    match assigned(ids, parent, taken) {
        Some((now, id)) => (now, Some(id)),
        None => (IdsView { by_parent: ids.by_parent, next: Some(0) }, None),
    }
}

/// Only the id that `parent` has, and those between the last one given before and now, are real.
spec fn asked_only(reals: Set<usize>, was: IdsView, parent: SelectedEntry, now: IdsView) -> bool {
    forall|id: usize| #[trigger]
        reals.contains(id) ==> (was.by_parent.contains_key(parent) && id == was.by_parent[parent])
            || floor(now.next) <= id < floor(was.next)
}

/// With these ids real, which `f` said to be, `parent` gets this id.
spec fn assigns<F: Fn(usize) -> bool>(
    f: F,
    reals: Set<usize>,
    was: IdsView,
    parent: SelectedEntry,
    now: IdsView,
    id: Option<usize>,
) -> bool {
    &&& said_real(f, reals)
    &&& asked_only(reals, was, parent, now)
    &&& after_assigned(was, parent, among(reals)) == (now, id)
}

proof fn lemma_next_free(taken: spec_fn(usize) -> bool, from: usize, low: int)
    requires
        -1 <= low < from,
        forall|i: usize| low < i < from ==> #[trigger] taken(i),
        low >= 0 ==> !taken(low as usize),
    ensures
        next_free(taken, from) == if low >= 0 {
            Some(low as usize)
        } else {
            None
        },
    decreases from,
{
    if from > 0 && low < from - 1 {
        lemma_next_free(taken, (from - 1) as usize, low);
    }
}

/// No two directories share an id, and no id is the one of the new-entry row.
pub open spec fn ids_apart(ids: IdsView) -> bool {
    &&& forall|p: SelectedEntry| #[trigger]
        ids.by_parent.contains_key(p) ==> floor(ids.next) <= ids.by_parent[p] < NEW_ENTRY_ID
    &&& forall|p: SelectedEntry, q: SelectedEntry| #[trigger]
        ids.by_parent.contains_key(p) && #[trigger] ids.by_parent.contains_key(q) && p != q
            ==> ids.by_parent[p] != ids.by_parent[q]
}

struct VirtualIds {
    by_parent: SortedMap<SelectedEntry, usize>,
    next: Option<usize>,
}

impl View for VirtualIds {
    type V = IdsView;

    closed spec fn view(&self) -> IdsView {
        IdsView { by_parent: self.by_parent@, next: self.next }
    }
}

impl VirtualIds {
    #[verifier::type_invariant]
    spec fn apart(self) -> bool {
        ids_apart(self@)
    }

    fn new() -> (ids: VirtualIds)
        ensures
            ids@ == (IdsView { by_parent: Map::empty(), next: None }),
    {
        VirtualIds { by_parent: SortedMap::new(), next: None }
    }

    /// Gives `parent` its id.
    fn assign<F: Fn(usize) -> bool>(&mut self, parent: SelectedEntry, id_is_real: &F) -> (id: Option<
        usize,
    >)
        requires
            total(*id_is_real),
        ensures
            id matches Some(i) ==> {
                &&& call_ensures(*id_is_real, (i,), false)
                &&& final(self)@.by_parent == old(self)@.by_parent.insert(parent, i)
            },
            ids_apart(final(self)@),
            by_id_alone(*id_is_real) ==> after_assigned(
                old(self)@,
                parent,
                answered(*id_is_real),
            ) == (final(self)@, id),
            exists|reals: Set<usize>|
                assigns(*id_is_real, reals, old(self)@, parent, final(self)@, id),
    {
        proof {
            use_type_invariant(&*self);
        }
        let ghost was = self@;
        let ghost taken = answered(*id_is_real);
        let held: Option<usize> = match self.by_parent.get(&parent) {
            Some(id) => Some(*id),
            None => None,
        };
        match held {
            Some(id) => {
                if !id_is_real(id) {
                    assert(was.by_parent =~= was.by_parent.insert(parent, id));
                    assert(assigns(
                        *id_is_real,
                        Set::empty(),
                        was,
                        parent,
                        self@,
                        Some(id),
                    ));
                    return Some(id);
                }
            },
            None => {},
        }
        let ghost mut reals: Set<usize> = if was.by_parent.contains_key(parent) {
            set![was.by_parent[parent]]
        } else {
            Set::empty()
        };
        let mut candidate: usize = match self.next {
            Some(n) => n,
            None => NEW_ENTRY_ID,
        };
        while candidate > 0
            invariant
                total(*id_is_real),
                taken == answered(*id_is_real),
                candidate <= floor(was.next),
                candidate < floor(was.next) ==> self.next == Some(candidate),
                candidate == floor(was.next) ==> self.next == was.next,
                self.by_parent@ == was.by_parent,
                was == old(self)@,
                ids_apart(was),
                by_id_alone(*id_is_real) ==> {
                    &&& next_free(taken, candidate) == next_free(taken, floor(was.next))
                    &&& was.by_parent.contains_key(parent) ==> taken(was.by_parent[parent])
                },
                said_real(*id_is_real, reals),
                was.by_parent.contains_key(parent) ==> reals.contains(was.by_parent[parent]),
                forall|i: usize| candidate <= i < floor(was.next) ==> #[trigger] reals.contains(i),
                forall|i: usize| #[trigger]
                    reals.contains(i) ==> (was.by_parent.contains_key(parent) && i
                        == was.by_parent[parent]) || candidate <= i < floor(was.next),
            decreases candidate,
        {
            let id: usize = candidate - 1;
            candidate = id;
            let mut by_parent: SortedMap<SelectedEntry, usize> = SortedMap::new();
            std::mem::swap(&mut by_parent, &mut self.by_parent);
            self.next = Some(id);
            if !id_is_real(id) {
                by_parent.insert(parent, id);
                self.by_parent = by_parent;
                proof {
                    lemma_next_free(among(reals), floor(was.next), id as int);
                    assert(assigns(*id_is_real, reals, was, parent, self@, Some(id)));
                }
                return Some(id);
            }
            self.by_parent = by_parent;
            proof {
                reals = reals.insert(id);
            }
        }
        self.next = Some(0);
        proof {
            if floor(was.next) > 0 {
                lemma_next_free(among(reals), floor(was.next), -1);
            }
            assert(assigns(*id_is_real, reals, was, parent, self@, None));
        }
        None
    }
}

/// `now` is what is left of `was` where `f` was asked of each what is to be kept.
pub open spec fn kept_by<F: Fn(&SelectedEntry) -> bool>(
    f: F,
    was: Set<SelectedEntry>,
    now: Set<SelectedEntry>,
) -> bool {
    &&& now.subset_of(was)
    &&& forall|p: SelectedEntry| #[trigger] now.contains(p) ==> call_ensures(f, (&p,), true)
    &&& forall|p: SelectedEntry| #[trigger]
        was.contains(p) && !now.contains(p) ==> call_ensures(f, (&p,), false)
}

/// Keeps the entries of `map` whose keys `f` accepts.
fn retain_keys<V, F: Fn(&SelectedEntry) -> bool>(map: &mut SortedMap<SelectedEntry, V>, f: &F)
    requires
        forall|p: SelectedEntry|
            old(map)@.contains_key(p) ==> #[trigger] call_requires(*f, (&p,)),
    ensures
        kept_by(*f, old(map)@.dom(), final(map)@.dom()),
        forall|p: SelectedEntry| #[trigger]
            final(map)@.contains_key(p) ==> final(map)@[p] == old(map)@[p],
{
    let mut marks: Vec<bool> = Vec::new();
    let n: usize = map.len();
    let ghost keys = map.keys();
    let mut i: usize = 0;
    while i < n
        invariant
            forall|p: SelectedEntry| map@.contains_key(p) ==> #[trigger] call_requires(*f, (&p,)),
            i <= n == map.keys().len(),
            keys == map.keys(),
            map@ == old(map)@,
            marks@.len() == i,
            forall|j: int| 0 <= j < i ==> call_ensures(*f, (&keys[j],), #[trigger] marks@[j]),
        decreases n - i,
    {
        let (key, _) = map.at(i);
        let answer: bool = f(key);
        marks.push(answer);
        i = i + 1;
    }
    let ghost was = map@;
    map.keep_marked(&marks);
    proof {
        assert forall|p: SelectedEntry| #[trigger]
            was.dom().contains(p) && !map@.dom().contains(p) implies call_ensures(
            *f,
            (&p,),
            false,
        ) by {
            assert(keys.contains(p));
            let j = keys.index_of(p);
            assert(!marks@[j]) by {
                if marks@[j] {
                    assert(marks@[j] && keys[j] == p);
                    assert(map@.contains_key(p));
                }
            }
        }
        assert forall|p: SelectedEntry| #[trigger] map@.dom().contains(p) implies call_ensures(
            *f,
            (&p,),
            true,
        ) by {
            assert(map@.contains_key(p));
            let j = choose|j: int| 0 <= j < marks@.len() && #[trigger] marks@[j] && keys[j] == p;
            assert(call_ensures(*f, (&keys[j],), marks@[j]));
        }
    }
}

impl VirtualIds {
    fn retain<F: Fn(&SelectedEntry) -> bool>(&mut self, f: &F)
        requires
            forall|p: SelectedEntry|
                old(self)@.by_parent.contains_key(p) ==> #[trigger] call_requires(*f, (&p,)),
        ensures
            kept_by(*f, old(self)@.by_parent.dom(), final(self)@.by_parent.dom()),
            forall|p: SelectedEntry| #[trigger]
                final(self)@.by_parent.contains_key(p) ==> final(self)@.by_parent[p]
                    == old(self)@.by_parent[p],
            final(self)@.next == old(self)@.next,
    {
        proof {
            use_type_invariant(&*self);
        }
        let ghost was = self@;
        let mut by_parent: SortedMap<SelectedEntry, usize> = SortedMap::new();
        std::mem::swap(&mut by_parent, &mut self.by_parent);
        retain_keys(&mut by_parent, f);
        proof {
            assert forall|p: SelectedEntry| #[trigger]
                by_parent@.contains_key(p) implies was.by_parent.contains_key(p) by {
                assert(by_parent@.dom().contains(p));
                assert(was.by_parent.dom().contains(p));
            }
        }
        self.by_parent = by_parent;
    }
}

/// The test files of one directory.
pub struct TestGroup {
    pub parent: SelectedEntry,
    pub path: RelPath,
    pub files: Vec<GitEntry>,
}

/// The model of a [`TestGroup`].
pub ghost struct TestGroupView {
    pub parent: SelectedEntry,
    pub path: Seq<Seq<char>>,
    pub files: Seq<GitEntryView>,
}

/// The views of a list of entries.
pub open spec fn git_views(entries: Seq<GitEntry>) -> Seq<GitEntryView> {
    entries.map_values(|e: GitEntry| e@)
}

impl View for TestGroup {
    type V = TestGroupView;

    open spec fn view(&self) -> TestGroupView {
        TestGroupView { parent: self.parent, path: self.path@, files: git_views(self.files@) }
    }
}

/// The groups of the panel, and what outlasts an update: which are expanded, and their ids.
pub struct TestGroups {
    /// The groups by the ids of their rows.
    pub groups: HashMap<usize, TestGroup>,
    /// The id of the group of each grouped file.
    pub members: HashMap<usize, usize>,
    /// The directories whose groups are expanded.
    pub expanded: SortedMap<SelectedEntry, ()>,
    ids: VirtualIds,
}

/// The model of [`TestGroups`].
pub ghost struct TestGroupsView {
    pub groups: Map<usize, TestGroupView>,
    pub members: Map<usize, usize>,
    pub expanded: Set<SelectedEntry>,
    pub ids: IdsView,
}

impl View for TestGroups {
    type V = TestGroupsView;

    closed spec fn view(&self) -> TestGroupsView {
        TestGroupsView {
            groups: self.groups@.map_values(|g: TestGroup| g@),
            members: self.members@,
            expanded: self.expanded@.dom(),
            ids: self.ids@,
        }
    }
}

impl Default for TestGroups {
    fn default() -> (groups: TestGroups)
        ensures
            groups@ == (TestGroupsView {
                groups: Map::empty(),
                members: Map::empty(),
                expanded: Set::empty(),
                ids: IdsView { by_parent: Map::empty(), next: None },
            }),
    {
        let groups = TestGroups {
            groups: HashMap::new(),
            members: HashMap::new(),
            expanded: SortedMap::new(),
            ids: VirtualIds::new(),
        };
        assert(groups@.groups =~= Map::empty());
        assert(groups@.expanded =~= Set::empty());
        groups
    }
}

impl TestGroups {
    /// Forgets the groups, and what was kept for directories that are gone. `parent_exists` is
    /// asked only about directories for which something is kept.
    pub fn begin_update<F: Fn(&SelectedEntry) -> bool>(&mut self, parent_exists: F)
        requires
            forall|p: SelectedEntry|
                old(self)@.ids.by_parent.contains_key(p) || old(self)@.expanded.contains(p)
                    ==> #[trigger] call_requires(parent_exists, (&p,)),
        ensures
            final(self)@.groups == Map::<usize, TestGroupView>::empty(),
            final(self)@.members == Map::<usize, usize>::empty(),
            kept_by(parent_exists, old(self)@.expanded, final(self)@.expanded),
            kept_by(
                parent_exists,
                old(self)@.ids.by_parent.dom(),
                final(self)@.ids.by_parent.dom(),
            ),
            forall|p: SelectedEntry| #[trigger]
                final(self)@.ids.by_parent.contains_key(p) ==> final(self)@.ids.by_parent[p]
                    == old(self)@.ids.by_parent[p],
            final(self)@.ids.next == old(self)@.ids.next,
            ids_apart(final(self)@.ids),
    {
        self.ids.retain(&parent_exists);
        retain_keys(&mut self.expanded, &parent_exists);
        self.groups.clear();
        self.members.clear();
        proof {
            use_type_invariant(&self.ids);
        }
        assert(self@.groups =~= Map::<usize, TestGroupView>::empty());
    }

    /// The group whose row has this id.
    pub fn group(&self, id: usize) -> (group: Option<&TestGroup>)
        ensures
            match group {
                Some(g) => self@.groups.contains_key(id) && self@.groups[id] == g@,
                None => !self@.groups.contains_key(id),
            },
    {
        self.groups.get(&id)
    }

    /// The id of the group that holds the file with this id.
    pub fn group_of(&self, file: usize) -> (group: Option<usize>)
        ensures
            match group {
                Some(id) => self@.members.contains_key(file) && self@.members[file] == id,
                None => !self@.members.contains_key(file),
            },
    {
        match self.members.get(&file) {
            Some(id) => Some(*id),
            None => None,
        }
    }

    /// Whether the group of a directory is expanded.
    pub fn is_expanded(&self, parent: &SelectedEntry) -> (yes: bool)
        ensures
            yes == self@.expanded.contains(*parent),
    {
        self.expanded.contains_key(parent)
    }
}

/// The globs of the settings that can be used, in their order.
pub open spec fn usable_globs(patterns: Seq<String>) -> Seq<Seq<char>>
    decreases patterns.len(),
{
    if patterns.len() == 0 {
        Seq::empty()
    } else {
        let before = usable_globs(patterns.drop_last());
        if glob_error(patterns.last()@) is None {
            before.push(patterns.last()@)
        } else {
            before
        }
    }
}

/// The globs of the settings that cannot be used, in their order, with why.
pub open spec fn refused_globs(patterns: Seq<String>) -> Seq<(Seq<char>, Seq<char>)>
    decreases patterns.len(),
{
    if patterns.len() == 0 {
        Seq::empty()
    } else {
        let before = refused_globs(patterns.drop_last());
        match glob_error(patterns.last()@) {
            Some(error) => before.push((patterns.last()@, error)),
            None => before,
        }
    }
}

/// The views of a list of globs.
pub open spec fn glob_views(patterns: Seq<NameGlob>) -> Seq<Seq<char>> {
    patterns.map_values(|p: NameGlob| p@)
}

/// A glob that cannot be used.
#[derive(Debug, PartialEq, Eq)]
pub struct RefusedGlob {
    pub pattern: String,
    pub error: PatternError,
}

/// The views of a list of globs that cannot be used.
pub open spec fn refused_views(refused: Seq<RefusedGlob>) -> Seq<(Seq<char>, Seq<char>)> {
    refused.map_values(|r: RefusedGlob| (r.pattern@, r.error.message@))
}

impl TestGroups {
    /// The globs that say which files are test files, and those that cannot be used.
    pub fn compile_patterns(patterns: &[String]) -> (globs: (Vec<NameGlob>, Vec<RefusedGlob>))
        ensures
            glob_views(globs.0@) == usable_globs(patterns@),
            refused_views(globs.1@) == refused_globs(patterns@),
    {
        let mut globs: Vec<NameGlob> = Vec::new();
        let mut refused: Vec<RefusedGlob> = Vec::new();
        let mut i: usize = 0;
        assert(glob_views(globs@) =~= usable_globs(patterns@.take(0)));
        assert(refused_views(refused@) =~= refused_globs(patterns@.take(0)));
        while i < patterns.len()
            invariant
                i <= patterns@.len(),
                glob_views(globs@) == usable_globs(patterns@.take(i as int)),
                refused_views(refused@) == refused_globs(patterns@.take(i as int)),
            decreases patterns@.len() - i,
        {
            let ghost was = globs@;
            let ghost refused_was = refused@;
            assert(patterns@.take(i + 1).drop_last() =~= patterns@.take(i as int));
            match NameGlob::new(patterns[i].as_str()) {
                Ok(glob) => {
                    globs.push(glob);
                    assert(glob_views(globs@) =~= glob_views(was).push(glob@));
                },
                Err(error) => {
                    let glob = RefusedGlob { pattern: patterns[i].clone(), error };
                    refused.push(glob);
                    assert(refused_views(refused@) =~= refused_views(refused_was).push(
                        (glob.pattern@, glob.error.message@),
                    ));
                },
            }
            i = i + 1;
        }
        assert(patterns@.take(i as int) =~= patterns@);
        (globs, refused)
    }

    /// The globs that say which files are test files. Those that cannot be used are left out.
    pub fn patterns(patterns: &[String]) -> (globs: Vec<NameGlob>)
        ensures
            glob_views(globs@) == usable_globs(patterns@),
    {
        TestGroups::compile_patterns(patterns).0
    }
}

/// Whether one of the globs accepts a name.
pub open spec fn name_matches(patterns: Seq<Seq<char>>, name: Seq<char>) -> bool {
    exists|i: int| 0 <= i < patterns.len() && glob_matches(#[trigger] patterns[i], name)
}

/// Which entries have names that one of the globs accepts.
pub open spec fn accepted_names(entries: Seq<GitEntryView>, patterns: Seq<Seq<char>>) -> Seq<bool> {
    entries.map_values(
        |e: GitEntryView| e.entry.path.len() > 0 && name_matches(patterns, e.entry.path.last()),
    )
}

/// A file whose name is accepted. The row of a new entry is none.
pub open spec fn is_test_file(e: GitEntryView, accepted: bool) -> bool {
    &&& e.entry.id != NEW_ENTRY_ID
    &&& e.entry.kind == EntryKind::File
    &&& e.entry.path.len() > 0
    &&& accepted
}

/// The test files directly in `dir`, in the order of the rows.
pub open spec fn files_in(
    entries: Seq<GitEntryView>,
    accepted: Seq<bool>,
    dir: Seq<Seq<char>>,
) -> Seq<GitEntryView>
    decreases entries.len(),
{
    if entries.len() == 0 {
        Seq::empty()
    } else {
        let before = files_in(entries.drop_last(), accepted, dir);
        let e = entries.last();
        if is_test_file(e, accepted[entries.len() - 1]) && e.entry.path.drop_last() == dir {
            before.push(e)
        } else {
            before
        }
    }
}

/// The directories that hold test files, in the order in which their first ones come.
pub open spec fn test_dirs(
    entries: Seq<GitEntryView>,
    accepted: Seq<bool>,
) -> Seq<Seq<Seq<char>>>
    decreases entries.len(),
{
    if entries.len() == 0 {
        Seq::empty()
    } else {
        let before = test_dirs(entries.drop_last(), accepted);
        let e = entries.last();
        if is_test_file(e, accepted[entries.len() - 1]) && !before.contains(e.entry.path.drop_last()) {
            before.push(e.entry.path.drop_last())
        } else {
            before
        }
    }
}

/// The counts of all the given entries together.
pub open spec fn total_counts(files: Seq<GitEntryView>) -> Seq<nat>
    decreases files.len(),
{
    if files.len() == 0 {
        no_counts()
    } else {
        add_counts(total_counts(files.drop_last()), counts(files.last().git_summary))
    }
}

/// The counts of the files directly in `dir` together.
pub open spec fn dir_counts(entries: Seq<GitEntryView>, dir: Seq<Seq<char>>) -> Seq<nat>
    decreases entries.len(),
{
    if entries.len() == 0 {
        no_counts()
    } else {
        let before = dir_counts(entries.drop_last(), dir);
        let e = entries.last();
        if e.entry.kind == EntryKind::File && e.entry.path.len() > 0 && e.entry.path.drop_last()
            == dir {
            add_counts(before, counts(e.git_summary))
        } else {
            before
        }
    }
}

/// The git counts of the files of any one directory add up to numbers that a summary can hold.
pub open spec fn summaries_fit(entries: Seq<GitEntryView>) -> bool {
    forall|dir: Seq<Seq<char>>| counts_fit(#[trigger] dir_counts(entries, dir))
}

/// The git counts of the test files of any one directory add up to numbers that a summary can
/// hold.
pub open spec fn groups_fit(entries: Seq<GitEntryView>, accepted: Seq<bool>) -> bool {
    forall|dir: Seq<Seq<char>>|
        counts_fit(#[trigger] total_counts(files_in(entries, accepted, dir)))
}

/// The summary with these counts.
pub open spec fn summary_of(c: Seq<nat>) -> GitSummary {
    GitSummary {
        index: TrackedSummary {
            added: c[0] as usize,
            modified: c[1] as usize,
            deleted: c[2] as usize,
        },
        worktree: TrackedSummary {
            added: c[3] as usize,
            modified: c[4] as usize,
            deleted: c[5] as usize,
        },
        conflict: c[6] as usize,
        untracked: c[7] as usize,
        count: c[8] as usize,
    }
}

/// The entry that stands for `dir` in the panel, if the snapshot has one there.
pub open spec fn dir_parent(snapshot: SnapshotView, dir: Seq<Seq<char>>) -> Option<SelectedEntry> {
    match entry_for_path(snapshot.entries, dir) {
        Some(e) => Some(SelectedEntry { worktree_id: snapshot.id, entry_id: e.id }),
        None => None,
    }
}

/// `members`, with each of the files in the group `id`.
pub open spec fn with_members(
    members: Map<usize, usize>,
    files: Seq<GitEntryView>,
    id: usize,
) -> Map<usize, usize>
    decreases files.len(),
{
    if files.len() == 0 {
        members
    } else {
        with_members(members, files.drop_last(), id).insert(files.last().entry.id, id)
    }
}

/// One of the files has the id that is to be revealed.
pub open spec fn reveals(files: Seq<GitEntryView>, reveal: Option<usize>) -> bool {
    exists|i: int| 0 <= i < files.len() && Some((#[trigger] files[i]).entry.id) == reveal
}

/// `g` with a group for the files of `dir`. It is expanded where one of them is to be revealed.
pub open spec fn with_group(
    g: TestGroupsView,
    ids: IdsView,
    id: usize,
    group: TestGroupView,
    reveal: Option<usize>,
) -> TestGroupsView {
    TestGroupsView {
        groups: g.groups.insert(id, group),
        members: with_members(g.members, group.files, id),
        expanded: if reveals(group.files, reveal) {
            g.expanded.insert(group.parent)
        } else {
            g.expanded
        },
        ids,
    }
}

/// `g` with a group for each of `dirs` that the snapshot knows, and whether there were ids for
/// all of them. Where the ids run out, the directories that come after get no group.
pub open spec fn with_groups(
    g: TestGroupsView,
    entries: Seq<GitEntryView>,
    snapshot: SnapshotView,
    accepted: Seq<bool>,
    reveal: Option<usize>,
    taken: spec_fn(usize) -> bool,
    dirs: Seq<Seq<Seq<char>>>,
) -> (TestGroupsView, bool)
    decreases dirs.len(),
{
    if dirs.len() == 0 {
        (g, true)
    } else {
        let (before, enough) = with_groups(
            g,
            entries,
            snapshot,
            accepted,
            reveal,
            taken,
            dirs.drop_last(),
        );
        let dir = dirs.last();
        if !enough {
            (before, false)
        } else {
            match dir_parent(snapshot, dir) {
                None => (before, true),
                Some(parent) => match assigned(before.ids, parent, taken) {
                    None => (
                        TestGroupsView {
                            ids: IdsView { by_parent: before.ids.by_parent, next: Some(0) },
                            ..before
                        },
                        false,
                    ),
                    Some((ids, id)) => (
                        with_group(
                            before,
                            ids,
                            id,
                            TestGroupView {
                                parent,
                                path: dir,
                                files: files_in(entries, accepted, dir),
                            },
                            reveal,
                        ),
                        true,
                    ),
                },
            }
        }
    }
}

/// The name of a group's row. No file on disk has a name with a NUL in it.
pub open spec fn tests_name() -> Seq<char> {
    seq!['\0', 't', 'e', 's', 't', 's']
}

/// The row of the group `id` for these files of `dir`: a directory with their git status.
pub open spec fn group_row(
    files: Seq<GitEntryView>,
    dir: Seq<Seq<char>>,
    id: usize,
) -> GitEntryView {
    GitEntryView {
        entry: EntryView {
            id,
            kind: EntryKind::Dir,
            path: dir.push(tests_name()),
            canonical_path: None,
            ..files[0].entry
        },
        git_summary: summary_of(total_counts(files)),
    }
}

/// `i` is the position of the last row that is `dir` or below it.
pub open spec fn last_within(entries: Seq<GitEntryView>, dir: Seq<Seq<char>>, i: int) -> bool {
    &&& 0 <= i < entries.len()
    &&& within(entries[i].entry.path, dir)
    &&& forall|j: int| i < j < entries.len() ==> !within(#[trigger] entries[j].entry.path, dir)
}

/// What the group of `dir` puts into the list: its row, and its files if it is expanded.
pub open spec fn group_rows(
    g: TestGroupsView,
    entries: Seq<GitEntryView>,
    snapshot: SnapshotView,
    accepted: Seq<bool>,
    dir: Seq<Seq<char>>,
) -> Seq<GitEntryView> {
    if test_dirs(entries, accepted).contains(dir) && dir_parent(snapshot, dir) is Some {
        let parent = dir_parent(snapshot, dir)->0;
        let files = files_in(entries, accepted, dir);
        seq![group_row(files, dir, g.ids.by_parent[parent])] + if g.expanded.contains(parent) {
            files
        } else {
            Seq::empty()
        }
    } else {
        Seq::empty()
    }
}

/// What follows the row at `i`, of the groups of the directories up to `levels` above it: the
/// groups of those that end with that row, the deepest directory first.
pub open spec fn rows_after(
    g: TestGroupsView,
    entries: Seq<GitEntryView>,
    snapshot: SnapshotView,
    accepted: Seq<bool>,
    i: int,
    levels: nat,
) -> Seq<GitEntryView>
    decreases levels,
{
    if levels == 0 {
        Seq::empty()
    } else {
        let deeper = rows_after(g, entries, snapshot, accepted, i, (levels - 1) as nat);
        match ancestor(entries[i].entry.path, (levels - 1) as nat) {
            Some(dir) => if last_within(entries, dir, i) {
                deeper + group_rows(g, entries, snapshot, accepted, dir)
            } else {
                deeper
            },
            None => deeper,
        }
    }
}

/// The list that is shown for the first `n` rows: grouped files are left out, and the group of a
/// directory follows the last row below it.
pub open spec fn shown(
    g: TestGroupsView,
    entries: Seq<GitEntryView>,
    snapshot: SnapshotView,
    accepted: Seq<bool>,
    n: nat,
) -> Seq<GitEntryView>
    decreases n,
{
    if n == 0 {
        Seq::empty()
    } else {
        let i = (n - 1) as nat;
        let e = entries[i as int];
        shown(g, entries, snapshot, accepted, i) + (if g.members.contains_key(e.entry.id) {
            Seq::empty()
        } else {
            seq![e]
        }) + rows_after(g, entries, snapshot, accepted, i as int, e.entry.path.len() + 1)
    }
}

/// The groups and the list that come of the given ones: the test files of each directory are in
/// its group. Where no ids are left, the list stays as it is.
pub open spec fn grouped(
    g: TestGroupsView,
    entries: Seq<GitEntryView>,
    snapshot: SnapshotView,
    accepted: Seq<bool>,
    reveal: Option<usize>,
    taken: spec_fn(usize) -> bool,
) -> (TestGroupsView, Seq<GitEntryView>) {
    let dirs = test_dirs(entries, accepted);
    let (now, enough) = with_groups(g, entries, snapshot, accepted, reveal, taken, dirs);
    if enough {
        (now, shown(now, entries, snapshot, accepted, entries.len()))
    } else {
        (now, entries)
    }
}

/// The views of a list of paths.
pub open spec fn path_views(paths: Seq<RelPath>) -> Seq<Seq<Seq<char>>> {
    paths.map_values(|p: RelPath| p@)
}

pub proof fn lemma_test_dirs(entries: Seq<GitEntryView>, accepted: Seq<bool>)
    ensures
        test_dirs(entries, accepted).no_duplicates(),
        forall|dir: Seq<Seq<char>>| #[trigger]
            test_dirs(entries, accepted).contains(dir) <==> files_in(entries, accepted, dir).len()
                > 0,
    decreases entries.len(),
{
    if entries.len() > 0 {
        let init = entries.drop_last();
        lemma_test_dirs(init, accepted);
        let before = test_dirs(init, accepted);
        let e = entries.last();
        let d = e.entry.path.drop_last();
        assert forall|dir: Seq<Seq<char>>| #[trigger]
            test_dirs(entries, accepted).contains(dir) <==> files_in(entries, accepted, dir).len()
                > 0 by {
            assert(before.contains(dir) <==> files_in(init, accepted, dir).len() > 0);
            if is_test_file(e, accepted[entries.len() - 1]) && !before.contains(d) {
                let now = before.push(d);
                if before.contains(dir) {
                    assert(now[before.index_of(dir)] == dir);
                }
                if dir == d {
                    assert(now[before.len() as int] == dir);
                }
                if now.contains(dir) && dir != d {
                    assert(before[now.index_of(dir)] == dir);
                }
            }
        }
    }
}

proof fn lemma_dir_counts(
    entries: Seq<GitEntryView>,
    accepted: Seq<bool>,
    dir: Seq<Seq<char>>,
)
    ensures
        total_counts(files_in(entries, accepted, dir)).len() == 9,
        dir_counts(entries, dir).len() == 9,
        forall|i: int|
            0 <= i < 9 ==> #[trigger] total_counts(files_in(entries, accepted, dir))[i]
                <= dir_counts(entries, dir)[i],
    decreases entries.len(),
{
    if entries.len() > 0 {
        let init = entries.drop_last();
        lemma_dir_counts(init, accepted, dir);
        let files = files_in(entries, accepted, dir);
        let before = files_in(init, accepted, dir);
        let e = entries.last();
        if is_test_file(e, accepted[entries.len() - 1]) && e.entry.path.drop_last() == dir {
            assert(files.drop_last() =~= before);
        }
        assert forall|i: int| 0 <= i < 9 implies #[trigger] total_counts(files)[i] <= dir_counts(
            entries,
            dir,
        )[i] by {
            assert(total_counts(before)[i] <= dir_counts(init, dir)[i]);
        }
    }
}

proof fn lemma_total_counts_prefix(files: Seq<GitEntryView>, n: int)
    requires
        0 <= n <= files.len(),
    ensures
        total_counts(files).len() == 9,
        total_counts(files.take(n)).len() == 9,
        forall|i: int|
            0 <= i < 9 ==> #[trigger] total_counts(files.take(n))[i] <= total_counts(files)[i],
    decreases files.len(),
{
    if n == files.len() {
        assert(files.take(n) =~= files);
    } else {
        lemma_total_counts_prefix(files.drop_last(), n);
        assert(files.drop_last().take(n) =~= files.take(n));
        assert forall|i: int| 0 <= i < 9 implies #[trigger] total_counts(files.take(n))[i]
            <= total_counts(files)[i] by {
            assert(total_counts(files.take(n))[i] <= total_counts(files.drop_last())[i]);
        }
    }
}

proof fn lemma_summary_of(s: GitSummary)
    ensures
        summary_of(counts(s)) == s,
{
}

fn matches_any(patterns: &[NameGlob], name: &str) -> (yes: bool)
    ensures
        yes == name_matches(glob_views(patterns@), name@),
{
    let mut i: usize = 0;
    while i < patterns.len()
        invariant
            i <= patterns@.len(),
            forall|j: int| 0 <= j < i ==> !glob_matches(#[trigger] glob_views(patterns@)[j], name@),
        decreases patterns@.len() - i,
    {
        let yes: bool = patterns[i].is_match(name);
        assert(glob_views(patterns@)[i as int] == patterns@[i as int]@);
        if yes {
            return true;
        }
        i = i + 1;
    }
    false
}

fn is_test(e: &GitEntry, accepted: bool) -> (yes: bool)
    ensures
        yes == is_test_file(e@, accepted),
{
    e.entry.id != NEW_ENTRY_ID && e.entry.is_file() && !e.entry.path.is_empty() && accepted
}

/// Asks the globs about the name of each entry.
fn accept_names(entries: &Vec<GitEntry>, patterns: &[NameGlob]) -> (accepted: Vec<bool>)
    ensures
        accepted@ == accepted_names(git_views(entries@), glob_views(patterns@)),
{
    let ghost views = git_views(entries@);
    let ghost globs = glob_views(patterns@);
    let mut accepted: Vec<bool> = Vec::new();
    let mut i: usize = 0;
    while i < entries.len()
        invariant
            i <= entries@.len(),
            views == git_views(entries@),
            globs == glob_views(patterns@),
            accepted@.len() == i,
            forall|j: int|
                0 <= j < i ==> #[trigger] accepted@[j] == accepted_names(views, globs)[j],
        decreases entries@.len() - i,
    {
        assert(views[i as int] == entries@[i as int]@);
        let yes: bool = match entries[i].entry.path.file_name() {
            Some(name) => matches_any(patterns, name.as_str()),
            None => false,
        };
        accepted.push(yes);
        i = i + 1;
    }
    assert(accepted@ =~= accepted_names(views, globs));
    accepted
}

/// The directories that hold test files, with their files, and where each directory is listed.
struct Found {
    index: SortedMap<RelPath, usize>,
    dirs: Vec<RelPath>,
    files: Vec<Vec<GitEntry>>,
}

impl Found {
    spec fn lists(self, entries: Seq<GitEntryView>, accepted: Seq<bool>) -> bool {
        let dirs = path_views(self.dirs@);
        &&& dirs == test_dirs(entries, accepted)
        &&& self.files@.len() == dirs.len()
        &&& forall|g: int|
            0 <= g < dirs.len() ==> git_views(#[trigger] self.files@[g]@) == files_in(
                entries,
                accepted,
                dirs[g],
            )
        &&& forall|dir: Seq<Seq<char>>| #[trigger]
            self.index@.contains_key(dir) <==> dirs.contains(dir)
        &&& forall|dir: Seq<Seq<char>>| #[trigger]
            self.index@.contains_key(dir) ==> self.index@[dir] < dirs.len() && dirs[self.index@[dir] as int]
                == dir
    }
}

fn find_test_files(entries: &Vec<GitEntry>, accepted: &Vec<bool>) -> (found: Found)
    requires
        accepted@.len() == entries@.len(),
    ensures
        found.lists(git_views(entries@), accepted@),
{
    let ghost views = git_views(entries@);
    let mut found = Found { index: SortedMap::new(), dirs: Vec::new(), files: Vec::new() };
    let mut i: usize = 0;
    assert(path_views(found.dirs@) =~= test_dirs(views.take(0), accepted@));
    while i < entries.len()
        invariant
            views == git_views(entries@),
            i <= entries@.len() == accepted@.len(),
            found.lists(views.take(i as int), accepted@),
        decreases entries@.len() - i,
    {
        let e = &entries[i];
        let ghost now = views.take(i + 1);
        let ghost was = views.take(i as int);
        assert(now.drop_last() =~= was);
        assert(now.last() == e@);
        let ghost dirs_was = path_views(found.dirs@);
        if is_test(e, accepted[i]) {
            match e.entry.path.parent() {
                Some(dir) => {
                    let known: Option<usize> = match found.index.get(&dir) {
                        Some(g) => Some(*g),
                        None => None,
                    };
                    match known {
                        Some(g) => {
                            let ghost files_was = found.files@;
                            let copy = e.clone();
                            found.files[g].push(copy);
                            proof {
                                assert forall|h: int| 0 <= h < dirs_was.len() implies git_views(
                                    #[trigger] found.files@[h]@,
                                ) == files_in(now, accepted@, dirs_was[h]) by {
                                    assert(git_views(files_was[h]@) == files_in(
                                        was,
                                        accepted@,
                                        dirs_was[h],
                                    ));
                                    if h == g {
                                        assert(git_views(found.files@[h]@) =~= git_views(
                                            files_was[h]@,
                                        ).push(e@));
                                    } else {
                                        lemma_test_dirs(was, accepted@);
                                        assert(dirs_was[h] != dirs_was[g as int]);
                                    }
                                }
                                assert(dirs_was.contains(dir@));
                            }
                        },
                        None => {
                            let ghost files_was = found.files@;
                            let ghost index_was = found.index@;
                            let g: usize = found.dirs.len();
                            let mut files: Vec<GitEntry> = Vec::new();
                            files.push(e.clone());
                            found.index.insert(dir.clone(), g);
                            found.dirs.push(dir);
                            found.files.push(files);
                            proof {
                                let dirs_now = path_views(found.dirs@);
                                assert(!dirs_was.contains(dir@));
                                assert(dirs_now =~= dirs_was.push(dir@));
                                lemma_test_dirs(was, accepted@);
                                assert(files_in(was, accepted@, dir@).len() == 0);
                                assert forall|h: int| 0 <= h < dirs_now.len() implies git_views(
                                    #[trigger] found.files@[h]@,
                                ) == files_in(now, accepted@, dirs_now[h]) by {
                                    if h == g {
                                        assert(git_views(found.files@[h]@) =~= files_in(
                                            was,
                                            accepted@,
                                            dir@,
                                        ).push(e@));
                                    } else {
                                        assert(files_was[h] == found.files@[h]);
                                        assert(dirs_was[h] == dirs_now[h]);
                                        assert(dirs_was.contains(dirs_was[h]));
                                    }
                                }
                                assert forall|d: Seq<Seq<char>>| #[trigger]
                                    found.index@.contains_key(d) <==> dirs_now.contains(d) by {
                                    if dirs_was.contains(d) {
                                        assert(dirs_now[dirs_was.index_of(d)] == d);
                                    }
                                    if dirs_now.contains(d) && d != dir@ {
                                        assert(dirs_was[dirs_now.index_of(d)] == d);
                                    }
                                    assert(dirs_now[g as int] == dir@);
                                }
                            }
                        },
                    }
                },
                None => {},
            }
        }
        i = i + 1;
    }
    assert(views.take(i as int) =~= views);
    found
}

fn clone_entries(entries: &Vec<GitEntry>) -> (copy: Vec<GitEntry>)
    ensures
        git_views(copy@) == git_views(entries@),
{
    let mut copy: Vec<GitEntry> = Vec::new();
    let mut i: usize = 0;
    while i < entries.len()
        invariant
            i <= entries@.len(),
            copy@.len() == i,
            forall|j: int| 0 <= j < i ==> #[trigger] copy@[j]@ == entries@[j]@,
        decreases entries@.len() - i,
    {
        copy.push(entries[i].clone());
        i = i + 1;
    }
    assert(git_views(copy@) =~= git_views(entries@));
    copy
}

fn tests_path() -> (path: RelPath)
    ensures
        path@ == seq![tests_name()],
{
    proof {
        reveal_strlit("\0tests");
        assert("\0tests"@ =~= tests_name());
        assert(tests_name()[0] == '\0');
        lemma_parse_name(tests_name());
    }
    match RelPath::from_unix_str("\0tests") {
        Ok(path) => path,
        Err(_) => {
            assert(false);
            RelPath::empty()
        },
    }
}

/// Where the counts of all files of a directory can be held, so can those of its test files.
pub proof fn law_rows_that_fit_can_be_grouped(entries: Seq<GitEntryView>, accepted: Seq<bool>)
    requires
        summaries_fit(entries),
    ensures
        groups_fit(entries, accepted),
{
    assert forall|dir: Seq<Seq<char>>| counts_fit(
        #[trigger] total_counts(files_in(entries, accepted, dir)),
    ) by {
        lemma_dir_counts(entries, accepted, dir);
        assert(counts_fit(dir_counts(entries, dir)));
        assert forall|k: int| 0 <= k < 9 implies #[trigger] total_counts(
            files_in(entries, accepted, dir),
        )[k] <= usize::MAX by {
            assert(total_counts(files_in(entries, accepted, dir))[k] <= dir_counts(
                entries,
                dir,
            )[k]);
        }
    }
}

/// Whether the counts of these files together can be held.
fn files_fit(files: &Vec<GitEntry>) -> (yes: bool)
    ensures
        yes == counts_fit(total_counts(git_views(files@))),
{
    let ghost views = git_views(files@);
    let mut sum = GitSummary::default();
    let mut i: usize = 0;
    assert(views.take(0) =~= Seq::<GitEntryView>::empty());
    while i < files.len()
        invariant
            views == git_views(files@),
            i <= files@.len(),
            counts(sum) == total_counts(views.take(i as int)),
        decreases files@.len() - i,
    {
        let ghost next = total_counts(views.take(i + 1));
        proof {
            assert(views.take(i + 1).drop_last() =~= views.take(i as int));
            lemma_total_counts_prefix(views, i + 1);
        }
        if !sum.fits_with(&files[i].git_summary) {
            proof {
                assert(!counts_fit(next));
                let k = choose|k: int| 0 <= k < 9 && #[trigger] next[k] > usize::MAX;
                assert(next[k] <= total_counts(views)[k]);
            }
            return false;
        }
        sum.merge(&files[i].git_summary);
        i = i + 1;
    }
    assert(views.take(i as int) =~= views);
    assert forall|k: int| 0 <= k < 9 implies #[trigger] total_counts(views)[k] <= usize::MAX by {
        assert(counts(sum)[k] <= usize::MAX);
    }
    true
}

/// Whether the counts of the test files of each directory can be held.
pub fn counts_can_be_held(entries: &Vec<GitEntry>, accepted: &Vec<bool>) -> (yes: bool)
    requires
        accepted@.len() == entries@.len(),
    ensures
        yes == groups_fit(git_views(entries@), accepted@),
{
    let ghost views = git_views(entries@);
    let found = find_test_files(entries, accepted);
    let ghost dirs = path_views(found.dirs@);
    let mut g: usize = 0;
    while g < found.files.len()
        invariant
            views == git_views(entries@),
            dirs == path_views(found.dirs@),
            found.lists(views, accepted@),
            g <= found.files@.len(),
            forall|h: int|
                0 <= h < g ==> counts_fit(
                    total_counts(files_in(views, accepted@, #[trigger] dirs[h])),
                ),
        decreases found.files@.len() - g,
    {
        assert(git_views(found.files@[g as int]@) == files_in(views, accepted@, dirs[g as int]));
        if !files_fit(&found.files[g]) {
            return false;
        }
        g = g + 1;
    }
    proof {
        lemma_test_dirs(views, accepted@);
        assert forall|dir: Seq<Seq<char>>| counts_fit(
            #[trigger] total_counts(files_in(views, accepted@, dir)),
        ) by {
            if dirs.contains(dir) {
                let h = dirs.index_of(dir);
                assert(counts_fit(total_counts(files_in(views, accepted@, dirs[h]))));
            } else {
                assert(files_in(views, accepted@, dir).len() == 0);
            }
        }
    }
    true
}

/// The row of a group.
fn make_row(files: &Vec<GitEntry>, dir: &RelPath, id: usize) -> (row: GitEntry)
    requires
        files@.len() > 0,
        counts_fit(total_counts(git_views(files@))),
    ensures
        row@ == group_row(git_views(files@), dir@, id),
{
    let ghost views = git_views(files@);
    let mut git_summary = GitSummary::default();
    let mut i: usize = 0;
    assert(views.take(0) =~= Seq::<GitEntryView>::empty());
    while i < files.len()
        invariant
            views == git_views(files@),
            i <= files@.len(),
            counts_fit(total_counts(views)),
            counts(git_summary) == total_counts(views.take(i as int)),
        decreases files@.len() - i,
    {
        proof {
            assert(views.take(i + 1).drop_last() =~= views.take(i as int));
            lemma_total_counts_prefix(views, i + 1);
            assert forall|k: int| 0 <= k < 9 implies #[trigger] add_counts(
                counts(git_summary),
                counts(files@[i as int].git_summary),
            )[k] <= usize::MAX by {
                assert(total_counts(views.take(i + 1))[k] <= total_counts(views)[k]);
                assert(total_counts(views)[k] <= usize::MAX);
            }
        }
        git_summary.merge(&files[i].git_summary);
        i = i + 1;
    }
    assert(views.take(i as int) =~= views);
    let first = &files[0].entry;
    proof {
        lemma_summary_of(git_summary);
    }
    let name = tests_path();
    let row = GitEntry {
        entry: Entry {
            id,
            kind: EntryKind::Dir,
            path: dir.join(&name),
            inode: first.inode,
            mtime: first.mtime,
            size: first.size,
            is_fifo: first.is_fifo,
            is_ignored: first.is_ignored,
            canonical_path: None,
        },
        git_summary,
    };
    assert(dir@ + name@ =~= dir@.push(tests_name()));
    row
}

/// The position of the last row below each directory.
fn find_ends(entries: &Vec<GitEntry>, accepted: &Vec<bool>, found: &Found) -> (ends: Vec<usize>)
    requires
        found.lists(git_views(entries@), accepted@),
    ensures
        ends@.len() == found.dirs@.len(),
        forall|g: int, i: int|
            0 <= g < ends@.len() && 0 <= i < entries@.len() ==> (#[trigger] ends@[g] == i
                <==> #[trigger] last_within(git_views(entries@), path_views(found.dirs@)[g], i)),
{
    let ghost views = git_views(entries@);
    let ghost dirs = path_views(found.dirs@);
    let n: usize = entries.len();
    let mut ends: Vec<usize> = Vec::new();
    let mut g: usize = 0;
    while g < found.dirs.len()
        invariant
            g <= found.dirs@.len(),
            ends@.len() == g,
            forall|h: int| 0 <= h < g ==> #[trigger] ends@[h] == n,
        decreases found.dirs@.len() - g,
    {
        ends.push(n);
        g = g + 1;
    }
    let mut i: usize = 0;
    while i < n
        invariant
            n == entries@.len(),
            i <= n,
            views == git_views(entries@),
            dirs == path_views(found.dirs@),
            found.lists(views, accepted@),
            ends@.len() == dirs.len(),
            forall|h: int|
                0 <= h < dirs.len() ==> #[trigger] ends@[h] == n || (ends@[h] < i && within(
                    views[ends@[h] as int].entry.path,
                    dirs[h],
                )),
            forall|h: int, j: int|
                0 <= h < dirs.len() && 0 <= j < i && #[trigger] within(
                    views[j].entry.path,
                    dirs[h],
                ) ==> ends@[h] != n && j <= ends@[h],
        decreases n - i,
    {
        let paths = entries[i].entry.path.ancestors();
        let ghost ends_was = ends@;
        let ghost here = views[i as int].entry.path;
        let mut up: usize = 0;
        while up < paths.len()
            invariant
                n == entries@.len(),
                i < n,
                views == git_views(entries@),
                dirs == path_views(found.dirs@),
                found.lists(views, accepted@),
                here == views[i as int].entry.path,
                paths@.len() == here.len() + 1,
                forall|k: int|
                    0 <= k < paths@.len() ==> ancestor(here, k as nat) == Some(
                        (#[trigger] paths@[k])@,
                    ),
                up <= paths@.len(),
                ends@.len() == dirs.len() == ends_was.len(),
                forall|h: int|
                    0 <= h < dirs.len() ==> #[trigger] ends@[h] == ends_was[h] || (ends@[h] == i
                        && within(here, dirs[h])),
                forall|h: int|
                    0 <= h < dirs.len() && #[trigger] within(here, dirs[h]) && here.len()
                        - dirs[h].len() < up ==> ends@[h] == i,
            decreases paths@.len() - up,
        {
            let dir = &paths[up];
            assert(within(here, dir@)) by {
                assert(here.take(dir@.len() as int) =~= dir@);
            }
            match found.index.get(dir) {
                Some(at) => {
                    let at: usize = *at;
                    ends[at] = i;
                },
                None => {},
            }
            assert forall|h: int|
                0 <= h < dirs.len() && #[trigger] within(here, dirs[h]) && here.len()
                    - dirs[h].len() < up + 1 implies ends@[h] == i by {
                if here.len() - dirs[h].len() == up {
                    assert(dirs[h] == dir@);
                    assert(dirs.contains(dir@));
                    lemma_test_dirs(views, accepted@);
                    assert(found.index@[dir@] == h);
                }
            }
            up = up + 1;
        }
        assert forall|h: int, j: int|
            0 <= h < dirs.len() && 0 <= j < i + 1 && #[trigger] within(
                views[j].entry.path,
                dirs[h],
            ) implies ends@[h] != n && j <= ends@[h] by {
            assert(ends@[h] == ends_was[h] || ends@[h] == i);
            if j == i {
                assert(within(here, dirs[h]));
            }
        }
        i = i + 1;
    }
    ends
}

/// Different directories are different entries of a snapshot.
pub proof fn lemma_parents_differ(snapshot: SnapshotView, a: Seq<Seq<char>>, b: Seq<Seq<char>>)
    requires
        listing(snapshot.entries),
        dir_parent(snapshot, a) is Some,
        dir_parent(snapshot, a) == dir_parent(snapshot, b),
    ensures
        a == b,
{
    let entries = snapshot.entries;
    let i = choose|i: int| entry_at(entries, a, i);
    let j = choose|j: int| entry_at(entries, b, j);
    if i < j {
        assert(entries[i].id != entries[j].id);
    } else if j < i {
        assert(entries[j].id != entries[i].id);
    }
}

/// The rows of the groups, in the order of the directories.
spec fn has_rows(
    rows: Seq<Option<GitEntry>>,
    n: int,
    by_parent: Map<SelectedEntry, usize>,
    entries: Seq<GitEntryView>,
    snapshot: SnapshotView,
    accepted: Seq<bool>,
    dirs: Seq<Seq<Seq<char>>>,
) -> bool {
    &&& rows.len() == n
    &&& forall|g: int|
        0 <= g < n ==> match dir_parent(snapshot, dirs[g]) {
            None => (#[trigger] rows[g]) is None,
            Some(parent) => rows[g] matches Some(row) && row@ == group_row(
                files_in(entries, accepted, dirs[g]),
                dirs[g],
                by_parent[parent],
            ),
        }
}

/// The groups and the list come of the given ones, where the ids that `f` said to be real are, and
/// no others. No id is asked about twice, so these are all answers of `f`.
pub open spec fn grouped_as_said<F: Fn(usize) -> bool>(
    f: F,
    g: TestGroupsView,
    entries: Seq<GitEntryView>,
    snapshot: SnapshotView,
    accepted: Seq<bool>,
    reveal: Option<usize>,
    now: (TestGroupsView, Seq<GitEntryView>),
) -> bool {
    exists|reals: Set<usize>| #[trigger]
        said_real(f, reals) && grouped(g, entries, snapshot, accepted, reveal, among(reals)) == now
}

/// Each group that was not in `was` has an id of which `f` said that it is not real.
pub open spec fn new_ids_free<F: Fn(usize) -> bool>(
    f: F,
    was: Map<usize, TestGroupView>,
    now: Map<usize, TestGroupView>,
) -> bool {
    forall|id: usize| #[trigger]
        now.contains_key(id) && !was.contains_key(id) ==> call_ensures(f, (id,), false)
}

impl TestGroups {
    fn enter_group(
        &mut self,
        id: usize,
        parent: SelectedEntry,
        dir: &RelPath,
        files: &Vec<GitEntry>,
        reveal: Option<usize>,
    )
        ensures
            final(self)@ == with_group(
                old(self)@,
                old(self)@.ids,
                id,
                TestGroupView { parent, path: dir@, files: git_views(files@) },
                reveal,
            ),
    {
        let ghost was = self@;
        let ghost views = git_views(files@);
        let mut revealed: bool = false;
        let mut k: usize = 0;
        assert(views.take(0) =~= Seq::<GitEntryView>::empty());
        while k < files.len()
            invariant
                k <= files@.len(),
                views == git_views(files@),
                self@ == (TestGroupsView {
                    members: with_members(was.members, views.take(k as int), id),
                    ..was
                }),
                revealed <==> exists|j: int|
                    0 <= j < k && Some((#[trigger] views[j]).entry.id) == reveal,
            decreases files@.len() - k,
        {
            let file_id: usize = files[k].entry.id;
            assert(views[k as int].entry.id == file_id);
            assert(views.take(k + 1).drop_last() =~= views.take(k as int));
            match reveal {
                Some(wanted) => {
                    if wanted == file_id {
                        revealed = true;
                    }
                },
                None => {},
            }
            self.members.insert(file_id, id);
            k = k + 1;
        }
        assert(views.take(k as int) =~= views);
        if revealed {
            self.expanded.insert(parent, ());
            assert(self@.expanded =~= was.expanded.insert(parent));
        }
        let group = TestGroup { parent, path: dir.clone(), files: clone_entries(files) };
        self.groups.insert(id, group);
        assert(self@.groups =~= was.groups.insert(id, group@));
    }

    /// Makes the groups of all directories, unless the ids run out.
    fn make_groups<F: Fn(usize) -> bool>(
        &mut self,
        entries: &Vec<GitEntry>,
        snapshot: &Snapshot,
        accepted: &Vec<bool>,
        reveal: Option<usize>,
        id_is_real: &F,
        found: &Found,
    ) -> (rows: Option<Vec<Option<GitEntry>>>)
        requires
            found.lists(git_views(entries@), accepted@),
            groups_fit(git_views(entries@), accepted@),
            total(*id_is_real),
        ensures
            rows matches Some(r) ==> has_rows(
                r@,
                found.dirs@.len() as int,
                final(self)@.ids.by_parent,
                git_views(entries@),
                snapshot@,
                accepted@,
                path_views(found.dirs@),
            ),
            new_ids_free(*id_is_real, old(self)@.groups, final(self)@.groups),
            ids_apart(final(self)@.ids),
            by_id_alone(*id_is_real) ==> with_groups(
                old(self)@,
                git_views(entries@),
                snapshot@,
                accepted@,
                reveal,
                answered(*id_is_real),
                path_views(found.dirs@),
            ) == (final(self)@, rows is Some),
            exists|reals: Set<usize>| #[trigger]
                said_real(*id_is_real, reals) && with_groups(
                    old(self)@,
                    git_views(entries@),
                    snapshot@,
                    accepted@,
                    reveal,
                    among(reals),
                    path_views(found.dirs@),
                ) == (final(self)@, rows is Some),
    {
        let ghost was = self@;
        let ghost views = git_views(entries@);
            let ghost dirs = path_views(found.dirs@);
        let ghost taken = answered(*id_is_real);
        let mut rows: Vec<Option<GitEntry>> = Vec::new();
        let _ = snapshot.entries();
        proof {
            lemma_test_dirs(views, accepted@);
            use_type_invariant(&self.ids);
        }
        let ghost mut reals: Set<usize> = Set::empty();
        let mut g: usize = 0;
        assert(dirs.take(0) =~= Seq::<Seq<Seq<char>>>::empty());
        while g < found.dirs.len()
            invariant
                g <= found.dirs@.len(),
                was == old(self)@,
                ids_apart(was.ids),
                said_real(*id_is_real, reals),
                asked_of(reals, was.ids, snapshot@, dirs.take(g as int), self@.ids),
                with_groups(
                    was,
                    views,
                    snapshot@,
                    accepted@,
                    reveal,
                    among(reals),
                    dirs.take(g as int),
                ) == (self@, true),
                views == git_views(entries@),
                    dirs == path_views(found.dirs@),
                taken == answered(*id_is_real),
                found.lists(views, accepted@),
                dirs.no_duplicates(),
                forall|dir: Seq<Seq<char>>| #[trigger]
                    dirs.contains(dir) <==> files_in(views, accepted@, dir).len() > 0,
                listing(snapshot@.entries),
                groups_fit(views, accepted@),
                total(*id_is_real),
                has_rows(rows@, g as int, self@.ids.by_parent, views, snapshot@, accepted@, dirs),
                new_ids_free(*id_is_real, was.groups, self@.groups),
                ids_apart(self@.ids),
                by_id_alone(*id_is_real) ==> with_groups(
                    was,
                    views,
                    snapshot@,
                    accepted@,
                    reveal,
                    taken,
                    dirs.take(g as int),
                ) == (self@, true),
            decreases found.dirs@.len() - g,
        {
            let dir = &found.dirs[g];
            let ghost before = self@;
            let ghost rows_was = rows@;
            let ghost next = dirs.take(g + 1);
            assert(next.drop_last() =~= dirs.take(g as int));
            assert(next.last() == dir@);
            proof {
                assert forall|a: int, b: int| 0 <= a < b < next.len() implies #[trigger] next[a]
                    != #[trigger] next[b] by {
                    assert(dirs[a] != dirs[b]);
                }
            }
            match snapshot.entry_for_path(dir) {
                None => {
                    rows.push(None);
                    proof {
                        lemma_nothing_asked(reals, was.ids, snapshot@, next, self@.ids);
                    }
                },
                Some(parent_entry) => {
                    let parent = SelectedEntry {
                        worktree_id: snapshot.id(),
                        entry_id: parent_entry.id,
                    };
                    let given = self.ids.assign(parent, id_is_real);
                    proof {
                        let more = choose|more: Set<usize>|
                            assigns(
                                *id_is_real,
                                more,
                                before.ids,
                                parent,
                                self.ids@,
                                given,
                            );
                        assert(assigns(
                            *id_is_real,
                            more,
                            before.ids,
                            parent,
                            self.ids@,
                            given,
                        ));
                        lemma_answers_go_together(
                            was,
                            views,
                            snapshot@,
                            accepted@,
                            reveal,
                            reals,
                            more,
                            next,
                        );
                        reals = reals.union(more);
                        assert(said_real(*id_is_real, reals));
                    }
                    match given {
                        None => {
                            proof {
                                lemma_with_groups_stops(
                                    was,
                                    views,
                                    snapshot@,
                                    accepted@,
                                    reveal,
                                    among(reals),
                                    dirs,
                                    g + 1,
                                );
                                lemma_with_groups_stops(
                                    was,
                                    views,
                                    snapshot@,
                                    accepted@,
                                    reveal,
                                    taken,
                                    dirs,
                                    g + 1,
                                );
                            }
                            return None;
                        },
                        Some(id) => {
                            let files = &found.files[g];
                            proof {
                                assert(dirs[g as int] == dir@);
                                assert(dirs.contains(dir@));
                                assert(counts_fit(
                                    total_counts(files_in(views, accepted@, dir@)),
                                ));
                            }
                            assert(git_views(files@).len() > 0);
                            rows.push(Some(make_row(files, dir, id)));
                            self.enter_group(id, parent, dir, files, reveal);
                            proof {
                                assert forall|h: int| 0 <= h < g + 1 implies match dir_parent(
                                    snapshot@,
                                    dirs[h],
                                ) {
                                    None => (#[trigger] rows@[h]) is None,
                                    Some(p) => rows@[h] matches Some(row) && row@ == group_row(
                                        files_in(views, accepted@, dirs[h]),
                                        dirs[h],
                                        self@.ids.by_parent[p],
                                    ),
                                } by {
                                    if h < g {
                                        assert(rows@[h] == rows_was[h]);
                                        if dir_parent(snapshot@, dirs[h]) == Some(parent) {
                                            lemma_parents_differ(snapshot@, dirs[h], dir@);
                                        }
                                    }
                                }
                            }
                        },
                    }
                },
            }
            g = g + 1;
        }
        assert(dirs.take(g as int) =~= dirs);
        Some(rows)
    }
}

/// `id` is the one that one of the directories had.
spec fn held_by(
    ids: IdsView,
    snapshot: SnapshotView,
    dirs: Seq<Seq<Seq<char>>>,
    id: usize,
) -> bool {
    exists|k: int|
        0 <= k < dirs.len() && dir_parent(snapshot, #[trigger] dirs[k]) is Some
            && ids.by_parent.contains_key(dir_parent(snapshot, dirs[k])->0)
            && ids.by_parent[dir_parent(snapshot, dirs[k])->0] == id
}

/// Only ids that the directories had, and those between the last one given before and now, are
/// real.
spec fn asked_of(
    reals: Set<usize>,
    was: IdsView,
    snapshot: SnapshotView,
    dirs: Seq<Seq<Seq<char>>>,
    now: IdsView,
) -> bool {
    forall|id: usize| #[trigger]
        reals.contains(id) ==> held_by(was, snapshot, dirs, id) || floor(now.next) <= id < floor(
            was.next,
        )
}

/// One of the directories is this entry.
spec fn has_parent(
    snapshot: SnapshotView,
    dirs: Seq<Seq<Seq<char>>>,
    parent: SelectedEntry,
) -> bool {
    exists|k: int|
        0 <= k < dirs.len() && dir_parent(snapshot, #[trigger] dirs[k]) == Some(parent)
}

/// The directory has the id that it had, if any.
spec fn keeps_id(was: IdsView, now: IdsView, parent: SelectedEntry) -> bool {
    &&& now.by_parent.contains_key(parent) == was.by_parent.contains_key(parent)
    &&& now.by_parent[parent] == was.by_parent[parent]
}

/// Ids are given downwards, and directories that are not asked about keep theirs.
proof fn lemma_with_groups_ids(
    g: TestGroupsView,
    entries: Seq<GitEntryView>,
    snapshot: SnapshotView,
    accepted: Seq<bool>,
    reveal: Option<usize>,
    taken: spec_fn(usize) -> bool,
    dirs: Seq<Seq<Seq<char>>>,
)
    ensures
        ({
            let now = with_groups(g, entries, snapshot, accepted, reveal, taken, dirs).0;
            &&& floor(now.ids.next) <= floor(g.ids.next)
            &&& forall|p: SelectedEntry|
                !has_parent(snapshot, dirs, p) ==> #[trigger] keeps_id(g.ids, now.ids, p)
        }),
    decreases dirs.len(),
{
    if dirs.len() > 0 {
        let init = dirs.drop_last();
        lemma_with_groups_ids(g, entries, snapshot, accepted, reveal, taken, init);
        let (before, enough) = with_groups(g, entries, snapshot, accepted, reveal, taken, init);
        let now = with_groups(g, entries, snapshot, accepted, reveal, taken, dirs).0;
        lemma_next_free_below(taken, floor(before.ids.next));
        assert(floor(now.ids.next) <= floor(before.ids.next));
        assert forall|p: SelectedEntry| !has_parent(snapshot, dirs, p) implies #[trigger] keeps_id(
            g.ids,
            now.ids,
            p,
        ) by {
            if has_parent(snapshot, init, p) {
                let k = choose|k: int|
                    0 <= k < init.len() && dir_parent(snapshot, #[trigger] init[k]) == Some(p);
                assert(dir_parent(snapshot, dirs[k]) == Some(p));
            }
            assert(keeps_id(g.ids, before.ids, p));
            if dir_parent(snapshot, dirs.last()) == Some(p) {
                assert(dir_parent(snapshot, dirs[dirs.len() - 1]) == Some(p));
            }
        }
    }
}

proof fn lemma_next_free_below(taken: spec_fn(usize) -> bool, from: usize)
    ensures
        next_free(taken, from) matches Some(id) ==> id < from,
    decreases from,
{
    if from > 0 {
        lemma_next_free_below(taken, (from - 1) as usize);
    }
}

/// Which id is next depends only on the ids from there on.
proof fn lemma_next_free_same(a: Set<usize>, b: Set<usize>, from: usize)
    requires
        forall|i: usize|
            (match next_free(among(a), from) {
                Some(id) => id as int,
                None => 0,
            }) <= i < from ==> #[trigger] a.contains(i) == b.contains(i),
    ensures
        next_free(among(b), from) == next_free(among(a), from),
    decreases from,
{
    if from > 0 {
        let id = (from - 1) as usize;
        lemma_next_free_below(among(a), id);
        assert(a.contains(id) == b.contains(id));
        if a.contains(id) {
            lemma_next_free_same(a, b, id);
        }
    }
}

/// Which id a directory gets depends only on the ids that are asked about.
proof fn lemma_assigned_same(ids: IdsView, parent: SelectedEntry, a: Set<usize>, b: Set<usize>)
    requires
        ids.by_parent.contains_key(parent) ==> a.contains(ids.by_parent[parent]) == b.contains(
            ids.by_parent[parent],
        ),
        forall|i: usize|
            floor(after_assigned(ids, parent, among(a)).0.next) <= i < floor(ids.next)
                ==> #[trigger] a.contains(i) == b.contains(i),
    ensures
        assigned(ids, parent, among(b)) == assigned(ids, parent, among(a)),
{
    if !(ids.by_parent.contains_key(parent) && !a.contains(ids.by_parent[parent])) {
        lemma_next_free_same(a, b, floor(ids.next));
    }
}

/// Which groups are made depends only on the ids that are asked about.
proof fn lemma_with_groups_same(
    g: TestGroupsView,
    entries: Seq<GitEntryView>,
    snapshot: SnapshotView,
    accepted: Seq<bool>,
    reveal: Option<usize>,
    a: Set<usize>,
    b: Set<usize>,
    dirs: Seq<Seq<Seq<char>>>,
)
    requires
        listing(snapshot.entries),
        dirs.no_duplicates(),
        forall|i: usize|
            held_by(g.ids, snapshot, dirs, i) || floor(
                with_groups(
                    g,
                    entries,
                    snapshot,
                    accepted,
                    reveal,
                    among(a),
                    dirs,
                ).0.ids.next,
            ) <= i < floor(g.ids.next) ==> #[trigger] a.contains(i) == b.contains(i),
    ensures
        with_groups(g, entries, snapshot, accepted, reveal, among(b), dirs) == with_groups(
            g,
            entries,
            snapshot,
            accepted,
            reveal,
            among(a),
            dirs,
        ),
    decreases dirs.len(),
{
    if dirs.len() > 0 {
        let init = dirs.drop_last();
        let dir = dirs.last();
        let (before, enough) = with_groups(
            g,
            entries,
            snapshot,
            accepted,
            reveal,
            among(a),
            init,
        );
        let now = with_groups(g, entries, snapshot, accepted, reveal, among(a), dirs).0;
        lemma_next_free_below(among(a), floor(before.ids.next));
        assert(floor(now.ids.next) <= floor(before.ids.next));
        lemma_with_groups_ids(g, entries, snapshot, accepted, reveal, among(a), init);
        assert forall|i: usize|
            held_by(g.ids, snapshot, init, i) || floor(before.ids.next) <= i < floor(
                g.ids.next,
            ) implies #[trigger] a.contains(i) == b.contains(i) by {
            if held_by(g.ids, snapshot, init, i) {
                let k = choose|k: int|
                    0 <= k < init.len() && dir_parent(snapshot, #[trigger] init[k]) is Some
                        && g.ids.by_parent.contains_key(dir_parent(snapshot, init[k])->0)
                        && g.ids.by_parent[dir_parent(snapshot, init[k])->0] == i;
                assert(dirs[k] == init[k]);
            }
        }
        lemma_with_groups_same(g, entries, snapshot, accepted, reveal, a, b, init);
        if enough && dir_parent(snapshot, dir) is Some {
            let parent = dir_parent(snapshot, dir)->0;
            lemma_new_parent(snapshot, dirs);
            assert(keeps_id(g.ids, before.ids, parent));
            if before.ids.by_parent.contains_key(parent) {
                assert(dirs[dirs.len() - 1] == dir);
                assert(held_by(g.ids, snapshot, dirs, g.ids.by_parent[parent]));
            }
            lemma_assigned_same(before.ids, parent, a, b);
        }
    }
}

/// The last directory is another entry than those before it.
proof fn lemma_new_parent(snapshot: SnapshotView, dirs: Seq<Seq<Seq<char>>>)
    requires
        listing(snapshot.entries),
        dirs.no_duplicates(),
        dirs.len() > 0,
        dir_parent(snapshot, dirs.last()) is Some,
    ensures
        !has_parent(snapshot, dirs.drop_last(), dir_parent(snapshot, dirs.last())->0),
{
    let init = dirs.drop_last();
    let parent = dir_parent(snapshot, dirs.last())->0;
    if has_parent(snapshot, init, parent) {
        let k = choose|k: int|
            0 <= k < init.len() && dir_parent(snapshot, #[trigger] init[k]) == Some(parent);
        lemma_parents_differ(snapshot, init[k], dirs.last());
        assert(dirs[k] == dirs[dirs.len() - 1]);
    }
}

/// What one more directory asks about was not asked before, so that all answers go together.
proof fn lemma_answers_go_together(
    g: TestGroupsView,
    entries: Seq<GitEntryView>,
    snapshot: SnapshotView,
    accepted: Seq<bool>,
    reveal: Option<usize>,
    reals: Set<usize>,
    more: Set<usize>,
    dirs: Seq<Seq<Seq<char>>>,
)
    requires
        ids_apart(g.ids),
        listing(snapshot.entries),
        dirs.no_duplicates(),
        dirs.len() > 0,
        dir_parent(snapshot, dirs.last()) is Some,
        ({
            let before = with_groups(
                g,
                entries,
                snapshot,
                accepted,
                reveal,
                among(reals),
                dirs.drop_last(),
            ).0;
            let parent = dir_parent(snapshot, dirs.last())->0;
            &&& asked_of(reals, g.ids, snapshot, dirs.drop_last(), before.ids)
            &&& asked_only(
                more,
                before.ids,
                parent,
                after_assigned(before.ids, parent, among(more)).0,
            )
        }),
    ensures
        ({
            let (before, enough) = with_groups(
                g,
                entries,
                snapshot,
                accepted,
                reveal,
                among(reals),
                dirs.drop_last(),
            );
            let parent = dir_parent(snapshot, dirs.last())->0;
            let all = reals.union(more);
            &&& with_groups(
                g,
                entries,
                snapshot,
                accepted,
                reveal,
                among(all),
                dirs.drop_last(),
            ) == (before, enough)
            &&& assigned(before.ids, parent, among(all)) == assigned(
                before.ids,
                parent,
                among(more),
            )
            &&& asked_of(
                all,
                g.ids,
                snapshot,
                dirs,
                after_assigned(before.ids, parent, among(more)).0,
            )
        }),
{
    let init = dirs.drop_last();
    let all = reals.union(more);
    let before = with_groups(g, entries, snapshot, accepted, reveal, among(reals), init).0;
    let parent = dir_parent(snapshot, dirs.last())->0;
    let now = after_assigned(before.ids, parent, among(more)).0;
    lemma_with_groups_ids(g, entries, snapshot, accepted, reveal, among(reals), init);
    lemma_new_parent(snapshot, dirs);
    lemma_next_free_below(among(more), floor(before.ids.next));
    assert(keeps_id(g.ids, before.ids, parent));
    assert forall|i: usize| held_by(g.ids, snapshot, init, i) implies floor(g.ids.next) <= i && !(
    #[trigger] g.ids.by_parent.contains_key(parent) && i == g.ids.by_parent[parent]) && held_by(
        g.ids,
        snapshot,
        dirs,
        i,
    ) by {
        let k = choose|k: int|
            0 <= k < init.len() && dir_parent(snapshot, #[trigger] init[k]) is Some
                && g.ids.by_parent.contains_key(dir_parent(snapshot, init[k])->0)
                && g.ids.by_parent[dir_parent(snapshot, init[k])->0] == i;
        assert(dirs[k] == init[k]);
        let p = dir_parent(snapshot, init[k])->0;
        assert(has_parent(snapshot, init, p));
        assert(g.ids.by_parent.contains_key(p));
    }
    assert forall|i: usize|
        held_by(g.ids, snapshot, init, i) || floor(before.ids.next) <= i < floor(
            g.ids.next,
        ) implies #[trigger] reals.contains(i) == all.contains(i) by {}
    lemma_with_groups_same(g, entries, snapshot, accepted, reveal, reals, all, init);
    lemma_assigned_same(before.ids, parent, more, all);
    if g.ids.by_parent.contains_key(parent) {
        assert(dirs[dirs.len() - 1] == dirs.last());
        assert(held_by(g.ids, snapshot, dirs, g.ids.by_parent[parent]));
    }
    assert(asked_of(all, g.ids, snapshot, dirs, now));
}

/// A directory that the snapshot does not know asks about nothing.
proof fn lemma_nothing_asked(
    reals: Set<usize>,
    was: IdsView,
    snapshot: SnapshotView,
    dirs: Seq<Seq<Seq<char>>>,
    now: IdsView,
)
    requires
        dirs.len() > 0,
        asked_of(reals, was, snapshot, dirs.drop_last(), now),
    ensures
        asked_of(reals, was, snapshot, dirs, now),
{
    let init = dirs.drop_last();
    assert forall|i: usize| held_by(was, snapshot, init, i) implies #[trigger] held_by(
        was,
        snapshot,
        dirs,
        i,
    ) by {
        let k = choose|k: int|
            0 <= k < init.len() && dir_parent(snapshot, #[trigger] init[k]) is Some
                && was.by_parent.contains_key(dir_parent(snapshot, init[k])->0)
                && was.by_parent[dir_parent(snapshot, init[k])->0] == i;
        assert(dirs[k] == init[k]);
    }
}

/// Once the ids have run out, the directories that come after change nothing.
proof fn lemma_with_groups_stops(
    g: TestGroupsView,
    entries: Seq<GitEntryView>,
    snapshot: SnapshotView,
    accepted: Seq<bool>,
    reveal: Option<usize>,
    taken: spec_fn(usize) -> bool,
    dirs: Seq<Seq<Seq<char>>>,
    n: int,
)
    requires
        0 <= n <= dirs.len(),
    ensures
        !with_groups(g, entries, snapshot, accepted, reveal, taken, dirs.take(n)).1 ==> with_groups(
            g,
            entries,
            snapshot,
            accepted,
            reveal,
            taken,
            dirs,
        ) == with_groups(g, entries, snapshot, accepted, reveal, taken, dirs.take(n)),
    decreases dirs.len(),
{
    if n == dirs.len() {
        assert(dirs.take(n) =~= dirs);
    } else {
        lemma_with_groups_stops(
            g,
            entries,
            snapshot,
            accepted,
            reveal,
            taken,
            dirs.drop_last(),
            n,
        );
        assert(dirs.drop_last().take(n) =~= dirs.take(n));
    }
}

impl TestGroups {
    /// Appends the row of a group, and its files if it is expanded.
    fn show_group(
        &self,
        list: &mut Vec<GitEntry>,
        row: &GitEntry,
        parent: &SelectedEntry,
        files: &Vec<GitEntry>,
    )
        ensures
            git_views(final(list)@) == git_views(old(list)@) + (seq![row@]
                + if self@.expanded.contains(*parent) {
                git_views(files@)
            } else {
                Seq::empty()
            }),
    {
        let ghost was = git_views(list@);
        list.push(row.clone());
        assert(git_views(list@) =~= was.push(row@));
        if self.expanded.contains_key(parent) {
            let ghost with_row = git_views(list@);
            let ghost views = git_views(files@);
            let mut k: usize = 0;
            while k < files.len()
                invariant
                    k <= files@.len(),
                    views == git_views(files@),
                    git_views(list@) == with_row + views.take(k as int),
                decreases files@.len() - k,
            {
                let ghost list_was = git_views(list@);
                list.push(files[k].clone());
                assert(git_views(list@) =~= list_was.push(views[k as int]));
                assert(list_was.push(views[k as int]) =~= with_row + views.take(k + 1));
                k = k + 1;
            }
            assert(views.take(k as int) =~= views);
            assert(with_row + views =~= was + (seq![row@] + views));
        } else {
            assert(was.push(row@) =~= was + (seq![row@] + Seq::<GitEntryView>::empty()));
        }
    }

    /// The list with the groups in it.
    fn lay_out(
        &self,
        entries: &Vec<GitEntry>,
        snapshot: &Snapshot,
        accepted: &Vec<bool>,
        found: &Found,
        rows: &Vec<Option<GitEntry>>,
        ends: &Vec<usize>,
    ) -> (list: Vec<GitEntry>)
        requires
            found.lists(git_views(entries@), accepted@),
            has_rows(
                rows@,
                found.dirs@.len() as int,
                self@.ids.by_parent,
                git_views(entries@),
                snapshot@,
                accepted@,
                path_views(found.dirs@),
            ),
            ends@.len() == found.dirs@.len(),
            forall|g: int, i: int|
                0 <= g < ends@.len() && 0 <= i < entries@.len() ==> (#[trigger] ends@[g] == i
                    <==> #[trigger] last_within(git_views(entries@), path_views(found.dirs@)[g], i)),
        ensures
            git_views(list@) == shown(
                self@,
                git_views(entries@),
                snapshot@,
                accepted@,
                entries@.len(),
            ),
    {
        let ghost views = git_views(entries@);
            let ghost dirs = path_views(found.dirs@);
        let mut list: Vec<GitEntry> = Vec::new();
        let mut i: usize = 0;
        assert(git_views(list@) =~= Seq::<GitEntryView>::empty());
        while i < entries.len()
            invariant
                i <= entries@.len(),
                views == git_views(entries@),
                    dirs == path_views(found.dirs@),
                found.lists(views, accepted@),
                has_rows(
                    rows@,
                    dirs.len() as int,
                    self@.ids.by_parent,
                    views,
                    snapshot@,
                    accepted@,
                    dirs,
                ),
                ends@.len() == dirs.len(),
                forall|g: int, i: int|
                    0 <= g < ends@.len() && 0 <= i < entries@.len() ==> (#[trigger] ends@[g] == i
                        <==> #[trigger] last_within(views, dirs[g], i)),
                git_views(list@) == shown(self@, views, snapshot@, accepted@, i as nat),
            decreases entries@.len() - i,
        {
            let e = &entries[i];
            let ghost before = git_views(list@);
            let ghost own = if self@.members.contains_key(e.entry.id) {
                Seq::empty()
            } else {
                seq![e@]
            };
            if !self.members.contains_key(&e.entry.id) {
                list.push(e.clone());
                assert(git_views(list@) =~= before.push(e@));
            }
            assert(git_views(list@) =~= before + own);
            let paths = e.entry.path.ancestors();
            let mut up: usize = 0;
            assert(before + own =~= before + own + Seq::<GitEntryView>::empty());
            while up < paths.len()
                invariant
                    i < entries@.len(),
                    views == git_views(entries@),
                            dirs == path_views(found.dirs@),
                    found.lists(views, accepted@),
                    has_rows(
                        rows@,
                        dirs.len() as int,
                        self@.ids.by_parent,
                        views,
                        snapshot@,
                        accepted@,
                        dirs,
                    ),
                    ends@.len() == dirs.len(),
                    forall|g: int, i: int|
                        0 <= g < ends@.len() && 0 <= i < entries@.len() ==> (#[trigger] ends@[g]
                            == i <==> #[trigger] last_within(views, dirs[g], i)),
                    paths@.len() == views[i as int].entry.path.len() + 1,
                    forall|k: int|
                        0 <= k < paths@.len() ==> ancestor(views[i as int].entry.path, k as nat)
                            == Some((#[trigger] paths@[k])@),
                    up <= paths@.len(),
                    git_views(list@) == before + own + rows_after(
                        self@,
                        views,
                        snapshot@,
                        accepted@,
                        i as int,
                        up as nat,
                    ),
                decreases paths@.len() - up,
            {
                let ghost list_was = git_views(list@);
                let ghost deeper = rows_after(self@, views, snapshot@, accepted@, i as int, up as nat);
                let dir = &paths[up];
                let known: Option<usize> = match found.index.get(dir) {
                    Some(g) => Some(*g),
                    None => None,
                };
                let ghost here = group_rows(self@, views, snapshot@, accepted@, dir@);
                assert(ancestor(views[i as int].entry.path, up as nat) == Some(dir@));
                assert(list_was + Seq::empty() =~= list_was);
                assert(deeper + Seq::empty() =~= deeper);
                match known {
                    None => {},
                    Some(g) => {
                        assert(dirs.contains(dir@));
                        assert(dirs[g as int] == dir@);
                        assert(ends@[g as int] == i <==> last_within(views, dir@, i as int));
                        if ends[g] == i {
                            match snapshot.entry_for_path(dir) {
                                Some(parent_entry) => {
                                    let parent = SelectedEntry {
                                        worktree_id: snapshot.id(),
                                        entry_id: parent_entry.id,
                                    };
                                    match &rows[g] {
                                        Some(row) => {
                                            self.show_group(
                                                &mut list,
                                                row,
                                                &parent,
                                                &found.files[g],
                                            );
                                            assert(git_views(list@) =~= list_was + here);
                                        },
                                        None => {
                                            assert(false);
                                        },
                                    }
                                },
                                None => {},
                            }
                        }
                    },
                }
                assert(before + own + (deeper + here) =~= before + own + deeper + here);
                up = up + 1;
            }
            i = i + 1;
        }
        list
    }

    /// Puts the files that are accepted into a group for each directory. The group follows what is
    /// below the directory, and its files are left out elsewhere. Where no ids are left the list
    /// stays as it is.
    pub fn group_accepted<F: Fn(usize) -> bool>(
        &mut self,
        entries: &mut Vec<GitEntry>,
        snapshot: &Snapshot,
        accepted: &Vec<bool>,
        reveal: Option<usize>,
        id_is_real: F,
    )
        requires
            total(id_is_real),
            accepted@.len() == old(entries)@.len(),
            groups_fit(git_views(old(entries)@), accepted@),
        ensures
            new_ids_free(id_is_real, old(self)@.groups, final(self)@.groups),
            ids_apart(final(self)@.ids),
            grouped_as_said(
                id_is_real,
                old(self)@,
                git_views(old(entries)@),
                snapshot@,
                accepted@,
                reveal,
                (final(self)@, git_views(final(entries)@)),
            ),
            by_id_alone(id_is_real) ==> grouped(
                old(self)@,
                git_views(old(entries)@),
                snapshot@,
                accepted@,
                reveal,
                answered(id_is_real),
            ) == (final(self)@, git_views(final(entries)@)),
    {
        let found = find_test_files(entries, accepted);
        let ends = find_ends(entries, accepted, &found);
        match self.make_groups(entries, snapshot, accepted, reveal, &id_is_real, &found) {
            None => {},
            Some(rows) => {
                let list = self.lay_out(entries, snapshot, accepted, &found, &rows, &ends);
                *entries = list;
            },
        }
    }

    /// Puts the files whose names the globs accept into a group for each directory, as
    /// [`TestGroups::group_accepted`] does.
    pub fn group_entries<F: Fn(usize) -> bool>(
        &mut self,
        entries: &mut Vec<GitEntry>,
        snapshot: &Snapshot,
        patterns: &[NameGlob],
        reveal: Option<usize>,
        id_is_real: F,
    )
        requires
            total(id_is_real),
            groups_fit(
                git_views(old(entries)@),
                accepted_names(git_views(old(entries)@), glob_views(patterns@)),
            ),
        ensures
            new_ids_free(id_is_real, old(self)@.groups, final(self)@.groups),
            ids_apart(final(self)@.ids),
            grouped_as_said(
                id_is_real,
                old(self)@,
                git_views(old(entries)@),
                snapshot@,
                accepted_names(git_views(old(entries)@), glob_views(patterns@)),
                reveal,
                (final(self)@, git_views(final(entries)@)),
            ),
            by_id_alone(id_is_real) ==> grouped(
                old(self)@,
                git_views(old(entries)@),
                snapshot@,
                accepted_names(git_views(old(entries)@), glob_views(patterns@)),
                reveal,
                answered(id_is_real),
            ) == (final(self)@, git_views(final(entries)@)),
    {
        let accepted = accept_names(entries, patterns);
        self.group_accepted(entries, snapshot, &accepted, reveal, id_is_real)
    }

    /// Groups the entries as [`TestGroups::group_entries`] does, where the git counts of the test
    /// files of each directory can be held together. Elsewhere nothing changes.
    pub fn group_entries_if_held<F: Fn(usize) -> bool>(
        &mut self,
        entries: &mut Vec<GitEntry>,
        snapshot: &Snapshot,
        patterns: &[NameGlob],
        reveal: Option<usize>,
        id_is_real: F,
    ) -> (held: bool)
        requires
            total(id_is_real),
        ensures
            held == groups_fit(
                git_views(old(entries)@),
                accepted_names(git_views(old(entries)@), glob_views(patterns@)),
            ),
            !held ==> *final(self) == *old(self) && *final(entries) == *old(entries),
            held ==> {
                &&& new_ids_free(id_is_real, old(self)@.groups, final(self)@.groups)
                &&& ids_apart(final(self)@.ids)
                &&& grouped_as_said(
                    id_is_real,
                    old(self)@,
                    git_views(old(entries)@),
                    snapshot@,
                    accepted_names(git_views(old(entries)@), glob_views(patterns@)),
                    reveal,
                    (final(self)@, git_views(final(entries)@)),
                )
            },
            held && by_id_alone(id_is_real) ==> grouped(
                old(self)@,
                git_views(old(entries)@),
                snapshot@,
                accepted_names(git_views(old(entries)@), glob_views(patterns@)),
                reveal,
                answered(id_is_real),
            ) == (final(self)@, git_views(final(entries)@)),
    {
        let accepted = accept_names(entries, patterns);
        if !counts_can_be_held(entries, &accepted) {
            return false;
        }
        self.group_entries(entries, snapshot, patterns, reveal, id_is_real);
        true
    }
}

impl Clone for TestGroup {
    fn clone(&self) -> (copy: Self)
        ensures
            copy@ == self@,
    {
        TestGroup {
            parent: self.parent,
            path: self.path.clone(),
            files: clone_entries(&self.files),
        }
    }
}

fn clone_groups(groups: &HashMap<usize, TestGroup>) -> (copy: HashMap<usize, TestGroup>)
    ensures
        copy@.map_values(|g: TestGroup| g@) == groups@.map_values(|g: TestGroup| g@),
{
    let mut copy: HashMap<usize, TestGroup> = HashMap::new();
    for (id, group) in it: groups.iter()
        invariant
            forall|i: int|
                0 <= i < it.seq().len() ==> groups@.contains_key(*(#[trigger] it.seq()[i]).0)
                    && groups@[*it.seq()[i].0] == *it.seq()[i].1,
            forall|k: usize| #[trigger]
                groups@.contains_key(k) ==> it.seq().contains((&k, &groups@[k])),
            forall|k: usize| #[trigger]
                copy@.contains_key(k) ==> groups@.contains_key(k) && copy@[k]@ == groups@[k]@,
            forall|i: int|
                0 <= i < it.index() ==> copy@.contains_key(*(#[trigger] it.seq()[i]).0),
            forall|k: usize| #[trigger]
                groups@.contains_key(k) && it.index() == it.seq().len() ==> copy@.contains_key(k),
    {
        let ghost at = it.index() as int;
        assert((id, group) == it.seq()[at]);
        copy.insert(*id, group.clone());
        assert forall|k: usize| #[trigger]
            groups@.contains_key(k) && at + 1 == it.seq().len() implies copy@.contains_key(k) by {
            let i = it.seq().index_of((&k, &groups@[k]));
            assert(*it.seq()[i].0 == k);
        }
    }
    assert(copy@.map_values(|g: TestGroup| g@) =~= groups@.map_values(|g: TestGroup| g@));
    copy
}

impl Clone for VirtualIds {
    fn clone(&self) -> (copy: Self)
        ensures
            copy@ == self@,
    {
        proof {
            use_type_invariant(self);
        }
        VirtualIds { by_parent: self.by_parent.copied(), next: self.next }
    }
}

impl Clone for TestGroups {
    fn clone(&self) -> (copy: Self)
        ensures
            copy@ == self@,
    {
        TestGroups {
            groups: clone_groups(&self.groups),
            members: self.members.clone(),
            expanded: self.expanded.copied(),
            ids: self.ids.clone(),
        }
    }
}

} // verus!
