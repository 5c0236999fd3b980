//! The badges of a project as its panel shows them, and when they are computed anew.
use vstd::prelude::*;
use vstd::string::*;

use crate::badge::same_scopes;
use crate::badge::scope_views;
use crate::badge::Badge;
use crate::badge::BadgeView;
use crate::badge::RuleScope;
use crate::badge::ScopeView;
use crate::badges::badge_views;
use crate::badges::badges_at;
use crate::badges::badges_view;
use crate::badges::BadgeKey;
use crate::badges::Badges;
use crate::badges::BadgesView;
use crate::badges::PlaceView;
use crate::cache::change_views;
use crate::cache::ChangeView;
use crate::cache::TreeView;
use crate::cache::WorktreeInput;
use crate::rel_path::RelPath;
use crate::rules::texts;
use crate::sorted_map::SortedMap;
use crate::worker::has_tree;
use crate::worker::tree_views;
use crate::worker::Output;
use crate::worker::OutputView;
use crate::worker::Request;
use crate::worker::RequestView;
use crate::worktree::entry_views;
use crate::worktree::EntryKind;
use crate::worktree::EntryView;
use crate::worktree::Snapshot;
use crate::worktree::SnapshotView;

verus! {

/// How long a request waits for others to take its place, in milliseconds.
pub const DEBOUNCE_MILLIS: u64 = 150;

/// How a path changed.
#[derive(Clone, Copy, Debug, PartialEq, Eq, Structural)]
pub enum PathChange {
    Added,
    Removed,
    Updated,
    AddedOrUpdated,
    /// It was there before, and is known only now.
    Loaded,
}

/// A path of a worktree that changed.
#[derive(Debug, PartialEq, Eq)]
pub struct PathUpdate {
    pub path: RelPath,
    pub entry_id: usize,
    pub change: PathChange,
}

/// The model of a [`PathUpdate`].
pub ghost struct UpdateView {
    pub path: Seq<Seq<char>>,
    pub entry_id: usize,
    pub change: PathChange,
}

impl View for PathUpdate {
    type V = UpdateView;

    open spec fn view(&self) -> UpdateView {
        UpdateView { path: self.path@, entry_id: self.entry_id, change: self.change }
    }
}

/// The views of a list of changed paths.
pub open spec fn update_views(updates: Seq<PathUpdate>) -> Seq<UpdateView> {
    updates.map_values(|u: PathUpdate| u@)
}

/// A worktree of the panel.
pub struct VisibleTree {
    pub snapshot: Snapshot,
    /// Whether it is on this machine.
    pub is_local: bool,
    pub scan_id: usize,
    pub completed_scan_id: usize,
}

/// The model of a [`VisibleTree`].
pub ghost struct VisibleView {
    pub snapshot: SnapshotView,
    pub is_local: bool,
    pub scan_id: usize,
    pub completed_scan_id: usize,
}

impl View for VisibleTree {
    type V = VisibleView;

    open spec fn view(&self) -> VisibleView {
        VisibleView {
            snapshot: self.snapshot@,
            is_local: self.is_local,
            scan_id: self.scan_id,
            completed_scan_id: self.completed_scan_id,
        }
    }
}

/// The views of a list of worktrees.
pub open spec fn visible_views(trees: Seq<VisibleTree>) -> Seq<VisibleView> {
    trees.map_values(|t: VisibleTree| t@)
}

/// The local worktrees, as they are to be checked.
pub open spec fn local_trees(trees: Seq<VisibleView>) -> Seq<TreeView>
    decreases trees.len(),
{
    if trees.len() == 0 {
        Seq::empty()
    } else {
        let before = local_trees(trees.drop_last());
        let t = trees.last();
        if t.is_local {
            before.push(
                TreeView {
                    snapshot: t.snapshot,
                    scan_complete: t.scan_id == t.completed_scan_id,
                },
            )
        } else {
            before
        }
    }
}

/// The entry with this id is a file.
pub open spec fn is_file_id(entries: Seq<EntryView>, id: usize) -> bool {
    exists|i: int|
        0 <= i < entries.len() && (#[trigger] entries[i]).id == id && entries[i].kind
            == EntryKind::File
}

/// What was known of the path may no longer hold: a file changed, or something was removed.
pub open spec fn invalidates(snapshot: Option<SnapshotView>, update: UpdateView) -> bool {
    &&& update.change != PathChange::Loaded
    &&& update.change == PathChange::Removed || (snapshot matches Some(s) && is_file_id(
        s.entries,
        update.entry_id,
    ))
}

/// The paths of which what was known may no longer hold.
pub open spec fn changed_paths(
    worktree_id: usize,
    snapshot: Option<SnapshotView>,
    updates: Seq<UpdateView>,
) -> Seq<ChangeView>
    decreases updates.len(),
{
    if updates.len() == 0 {
        Seq::empty()
    } else {
        let before = changed_paths(worktree_id, snapshot, updates.drop_last());
        if invalidates(snapshot, updates.last()) {
            before.push((worktree_id, updates.last().path))
        } else {
            before
        }
    }
}

/// The scopes that are about everything or about one of the worktrees.
pub open spec fn scopes_within(scopes: Seq<ScopeView>, trees: Seq<TreeView>) -> Seq<ScopeView>
    decreases scopes.len(),
{
    if scopes.len() == 0 {
        Seq::empty()
    } else {
        let before = scopes_within(scopes.drop_last(), trees);
        let scope = scopes.last();
        if scope.worktree_id matches Some(id) ==> has_tree(trees, id) {
            before.push(scope)
        } else {
            before
        }
    }
}

/// No scope has a rule.
pub open spec fn no_rules(scopes: Seq<ScopeView>) -> bool {
    forall|i: int| 0 <= i < scopes.len() ==> (#[trigger] scopes[i]).rules.len() == 0
}

/// The badges of a project.
pub struct FileBadges {
    badges: Badges,
    scopes: Vec<RuleScope>,
    generation: usize,
    reported_errors: SortedMap<String, ()>,
}

/// The model of [`FileBadges`].
pub ghost struct FileBadgesView {
    pub badges: BadgesView,
    pub scopes: Seq<ScopeView>,
    /// The number of the last request.
    pub generation: usize,
    pub reported: Set<Seq<char>>,
}

impl View for FileBadges {
    type V = FileBadgesView;

    closed spec fn view(&self) -> FileBadgesView {
        FileBadgesView {
            badges: badges_view(self.badges),
            scopes: scope_views(self.scopes@),
            generation: self.generation,
            reported: self.reported_errors@.dom(),
        }
    }
}

/// The changes of a worktree: its id, its snapshot if it is known, and the paths that changed.
pub type ChangesView = Option<(usize, Option<SnapshotView>, Seq<UpdateView>)>;

/// The paths of which what was known may no longer hold.
pub open spec fn changes_of(changes: ChangesView) -> Seq<ChangeView> {
    match changes {
        Some((worktree_id, snapshot, updates)) => changed_paths(worktree_id, snapshot, updates),
        None => Seq::empty(),
    }
}

/// A refresh is needed once there are rules, and from then on.
pub open spec fn refreshes(view: FileBadgesView) -> bool {
    !(no_rules(view.scopes) && view.generation == 0)
}

/// What a refresh asks for.
pub open spec fn refresh_request(
    view: FileBadgesView,
    trees: Seq<VisibleView>,
    changes: ChangesView,
) -> RequestView {
    RequestView {
        generation: (view.generation + 1) as usize,
        trees: local_trees(trees),
        scopes: scopes_within(view.scopes, local_trees(trees)),
        changes: changes_of(changes),
    }
}

/// The view and the request after a refresh.
pub open spec fn refreshed(
    view: FileBadgesView,
    trees: Seq<VisibleView>,
    changes: ChangesView,
) -> (FileBadgesView, Option<RequestView>) {
    if refreshes(view) {
        (
            FileBadgesView { generation: (view.generation + 1) as usize, ..view },
            Some(refresh_request(view, trees, changes)),
        )
    } else {
        (view, None)
    }
}

/// The view of a snapshot that may be there.
pub open spec fn opt_snapshot(snapshot: Option<&Snapshot>) -> Option<SnapshotView> {
    match snapshot {
        Some(s) => Some(s@),
        None => None,
    }
}

/// The view of changes that may be there.
pub open spec fn opt_changes(
    changes: Option<(usize, Option<&Snapshot>, &Vec<PathUpdate>)>,
) -> ChangesView {
    match changes {
        Some((id, snapshot, updates)) => Some((id, opt_snapshot(snapshot), update_views(updates@))),
        None => None,
    }
}

/// The view of a request that may be there.
pub open spec fn opt_request(request: Option<Request>) -> Option<RequestView> {
    match request {
        Some(r) => Some(r@),
        None => None,
    }
}

fn scopes_without_rules(scopes: &Vec<RuleScope>) -> (yes: bool)
    ensures
        yes == no_rules(scope_views(scopes@)),
{
    let ghost views = scope_views(scopes@);
    let mut i: usize = 0;
    while i < scopes.len()
        invariant
            i <= scopes@.len(),
            views == scope_views(scopes@),
            forall|j: int| 0 <= j < i ==> (#[trigger] views[j]).rules.len() == 0,
        decreases scopes@.len() - i,
    {
        assert(views[i as int] == scopes@[i as int]@);
        assert(views[i as int].rules.len() == scopes@[i as int].rules@.len());
        if scopes[i].rules.len() > 0 {
            return false;
        }
        i = i + 1;
    }
    true
}

/// Picks the local worktrees.
fn pick_local(trees: Vec<VisibleTree>) -> (picked: Vec<WorktreeInput>)
    ensures
        tree_views(picked@) == local_trees(visible_views(trees@)),
{
    let ghost views = visible_views(trees@);
    let mut rest: Vec<VisibleTree> = Vec::new();
    let mut trees = trees;
    // `rest` holds the worktrees last to first, so that each is popped in order.
    while trees.len() > 0
        invariant
            trees@.len() + rest@.len() == views.len(),
            visible_views(trees@) == views.take(trees@.len() as int),
            forall|j: int| 0 <= j < rest@.len() ==> (#[trigger] rest@[j])@ == views[views.len() - 1 - j],
        decreases trees@.len(),
    {
        let ghost was = trees@;
        match trees.pop() {
            Some(tree) => {
                assert(visible_views(was)[was.len() - 1] == tree@);
                assert(visible_views(trees@) =~= views.take(trees@.len() as int));
                rest.push(tree);
            },
            None => {},
        }
    }
    let mut picked: Vec<WorktreeInput> = Vec::new();
    assert(tree_views(picked@) =~= local_trees(views.take(0)));
    while rest.len() > 0
        invariant
            rest@.len() <= views.len(),
            forall|j: int| 0 <= j < rest@.len() ==> (#[trigger] rest@[j])@ == views[views.len() - 1 - j],
            tree_views(picked@) == local_trees(views.take(views.len() - rest@.len())),
        decreases rest@.len(),
    {
        let ghost i = views.len() - rest@.len();
        assert(views.take(i + 1).drop_last() =~= views.take(i));
        match rest.pop() {
            Some(tree) => {
                assert(views.take(i + 1).last() == tree@);
                if tree.is_local {
                    let ghost was = tree_views(picked@);
                    let input = WorktreeInput {
                        scan_complete: tree.scan_id == tree.completed_scan_id,
                        snapshot: tree.snapshot,
                    };
                    picked.push(input);
                    assert(tree_views(picked@) =~= was.push(input@));
                }
            },
            None => {},
        }
    }
    assert(views.take(views.len() as int) =~= views);
    picked
}

fn names_file(snapshot: Option<&Snapshot>, id: usize) -> (yes: bool)
    ensures
        yes == (opt_snapshot(snapshot) matches Some(s) && is_file_id(s.entries, id)),
{
    match snapshot {
        None => false,
        Some(s) => {
            let entries = s.entries();
            let ghost views = entry_views(entries@);
            let mut i: usize = 0;
            while i < entries.len()
                invariant
                    i <= entries@.len(),
                    views == entry_views(entries@),
                    snapshot == Some(s),
                    views == s@.entries,
                    forall|j: int|
                        0 <= j < i ==> !((#[trigger] views[j]).id == id && views[j].kind
                            == EntryKind::File),
                decreases entries@.len() - i,
            {
                assert(views[i as int] == entries@[i as int]@);
                if entries[i].id == id && entries[i].is_file() {
                    return true;
                }
                i = i + 1;
            }
            false
        },
    }
}

/// Picks the paths of which what was known may no longer hold.
fn pick_changed(
    worktree_id: usize,
    snapshot: Option<&Snapshot>,
    updates: &Vec<PathUpdate>,
) -> (picked: Vec<(usize, RelPath)>)
    ensures
        change_views(picked@) == changed_paths(
            worktree_id,
            opt_snapshot(snapshot),
            update_views(updates@),
        ),
{
    let ghost views = update_views(updates@);
    let ghost tree = opt_snapshot(snapshot);
    let mut picked: Vec<(usize, RelPath)> = Vec::new();
    let mut i: usize = 0;
    assert(change_views(picked@) =~= changed_paths(worktree_id, tree, views.take(0)));
    while i < updates.len()
        invariant
            i <= updates@.len(),
            views == update_views(updates@),
            tree == opt_snapshot(snapshot),
            change_views(picked@) == changed_paths(worktree_id, tree, views.take(i as int)),
        decreases updates@.len() - i,
    {
        let update = &updates[i];
        assert(views.take(i + 1).drop_last() =~= views.take(i as int));
        assert(views.take(i + 1).last() == update@);
        if update.change != PathChange::Loaded && (update.change == PathChange::Removed
            || names_file(snapshot, update.entry_id)) {
            let ghost was = change_views(picked@);
            let path = update.path.clone();
            picked.push((worktree_id, path));
            assert(change_views(picked@) =~= was.push((worktree_id, path@)));
        }
        i = i + 1;
    }
    assert(views.take(i as int) =~= views);
    picked
}

fn lists_tree(trees: &Vec<WorktreeInput>, id: usize) -> (yes: bool)
    ensures
        yes == has_tree(tree_views(trees@), id),
{
    let ghost views = tree_views(trees@);
    let mut i: usize = 0;
    while i < trees.len()
        invariant
            i <= trees@.len(),
            views == tree_views(trees@),
            forall|j: int| 0 <= j < i ==> (#[trigger] views[j]).snapshot.id != id,
        decreases trees@.len() - i,
    {
        assert(views[i as int] == trees@[i as int]@);
        if trees[i].snapshot.id() == id {
            return true;
        }
        i = i + 1;
    }
    false
}

/// Picks the scopes that are about everything or about one of the worktrees.
fn pick_scopes(scopes: &Vec<RuleScope>, trees: &Vec<WorktreeInput>) -> (picked: Vec<RuleScope>)
    ensures
        scope_views(picked@) == scopes_within(scope_views(scopes@), tree_views(trees@)),
{
    let ghost views = scope_views(scopes@);
    let ghost present = tree_views(trees@);
    let mut picked: Vec<RuleScope> = Vec::new();
    let mut i: usize = 0;
    assert(scope_views(picked@) =~= scopes_within(views.take(0), present));
    while i < scopes.len()
        invariant
            i <= scopes@.len(),
            views == scope_views(scopes@),
            present == tree_views(trees@),
            scope_views(picked@) == scopes_within(views.take(i as int), present),
        decreases scopes@.len() - i,
    {
        let scope = &scopes[i];
        assert(views.take(i + 1).drop_last() =~= views.take(i as int));
        assert(views.take(i + 1).last() == scope@);
        let wanted: bool = match scope.worktree_id {
            Some(id) => lists_tree(trees, id),
            None => true,
        };
        if wanted {
            let ghost was = scope_views(picked@);
            let copy = scope.clone();
            picked.push(copy);
            assert(scope_views(picked@) =~= was.push(copy@));
        }
        i = i + 1;
    }
    assert(views.take(i as int) =~= views);
    picked
}

/// Something that happened to the project.
pub enum ProjectEvent {
    WorktreeUpdatedEntries(usize, Vec<PathUpdate>),
    WorktreeAdded(usize),
    WorktreeRemoved(usize),
    WorktreePathsChanged,
    /// What does not matter to the badges.
    Other,
}

/// The view and the request after an event, where `snapshot` is that of the worktree whose
/// entries were updated, if it is known.
pub open spec fn after_event(
    view: FileBadgesView,
    event: ProjectEvent,
    trees: Seq<VisibleView>,
    snapshot: Option<SnapshotView>,
) -> (FileBadgesView, Option<RequestView>) {
    match event {
        ProjectEvent::WorktreeUpdatedEntries(id, updates) => refreshed(
            view,
            trees,
            Some((id, snapshot, update_views(updates@))),
        ),
        ProjectEvent::Other => (view, None),
        _ => refreshed(view, trees, None),
    }
}

/// The errors that were not reported yet, each once.
pub open spec fn unreported(reported: Set<Seq<char>>, errors: Seq<Seq<char>>) -> Seq<Seq<char>>
    decreases errors.len(),
{
    if errors.len() == 0 {
        Seq::empty()
    } else {
        let before = unreported(reported, errors.drop_last());
        if reported.contains(errors.last()) || errors.drop_last().contains(errors.last()) {
            before
        } else {
            before.push(errors.last())
        }
    }
}

/// The view once these errors were reported.
pub open spec fn with_reported(view: FileBadgesView, errors: Seq<Seq<char>>) -> FileBadgesView {
    FileBadgesView { reported: view.reported.union(errors.to_set()), ..view }
}

/// What is shown anew.
pub struct Published {
    /// Whether the badges are others than before.
    pub changed: bool,
    /// What is to be reported.
    pub errors: Vec<String>,
}

/// The view of what is shown anew: whether the badges are others than before, and what is to be
/// reported.
pub type PublishedView = Option<(bool, Seq<Seq<char>>)>;

/// The view of what may be shown anew.
pub open spec fn opt_published(published: Option<Published>) -> PublishedView {
    match published {
        Some(p) => Some((p.changed, texts(p.errors@))),
        None => None,
    }
}

/// The view after a run that worked off the request with this number, and what is shown anew:
/// nothing, where a newer request was made since.
pub open spec fn after_publish(
    view: FileBadgesView,
    generation: usize,
    output: OutputView,
) -> (FileBadgesView, PublishedView) {
    if generation == view.generation {
        (
            with_reported(FileBadgesView { badges: output.badges, ..view }, output.errors),
            Some((output.badges != view.badges, unreported(view.reported, output.errors))),
        )
    } else {
        (view, None)
    }
}

fn same_badge_list(a: &Vec<Badge>, b: &Vec<Badge>) -> (yes: bool)
    ensures
        yes == (badge_views(a@) == badge_views(b@)),
{
    if a.len() != b.len() {
        assert(badge_views(a@).len() != badge_views(b@).len());
        return false;
    }
    let mut i: usize = 0;
    while i < a.len()
        invariant
            i <= a@.len() == b@.len(),
            forall|j: int| 0 <= j < i ==> #[trigger] a@[j]@ == b@[j]@,
        decreases a@.len() - i,
    {
        if !a[i].same(&b[i]) {
            assert(badge_views(a@)[i as int] != badge_views(b@)[i as int]);
            return false;
        }
        i = i + 1;
    }
    assert(badge_views(a@) =~= badge_views(b@));
    true
}

/// Whether two sets of badges are the same.
fn same_badges(a: &Badges, b: &Badges) -> (yes: bool)
    ensures
        yes == (badges_view(*a) == badges_view(*b)),
{
    let ghost of_a = badges_view(*a);
    let ghost of_b = badges_view(*b);
    let n: usize = a.len();
    let ghost keys = a.keys();
    let mut i: usize = 0;
    while i < n
        invariant
            i <= n == keys.len(),
            keys == a.keys(),
            of_a == badges_view(*a),
            of_b == badges_view(*b),
            forall|j: int|
                0 <= j < i ==> of_b.contains_key(#[trigger] keys[j]) && of_a[keys[j]]
                    == of_b[keys[j]],
        decreases n - i,
    {
        let (key, list) = a.at(i);
        assert(of_a.contains_key(key@));
        assert(of_a[key@] == badge_views(list@));
        match b.get(key) {
            None => {
                assert(!of_b.contains_key(key@));
                return false;
            },
            Some(other) => {
                assert(of_b[key@] == badge_views(other@));
                if !same_badge_list(list, other) {
                    return false;
                }
            },
        }
        i = i + 1;
    }
    let m: usize = b.len();
    let ghost others = b.keys();
    let mut k: usize = 0;
    while k < m
        invariant
            k <= m == others.len(),
            others == b.keys(),
            of_a == badges_view(*a),
            of_b == badges_view(*b),
            forall|j: int| 0 <= j < k ==> of_a.contains_key(#[trigger] others[j]),
        decreases m - k,
    {
        let (key, _) = b.at(k);
        assert(of_b.contains_key(key@));
        if !a.contains_key(key) {
            assert(!of_a.contains_key(key@));
            return false;
        }
        k = k + 1;
    }
    proof {
        assert forall|key: PlaceView| #[trigger]
            of_a.dom().contains(key) implies of_b.dom().contains(key) && of_a[key]
            == of_b[key] by {
            assert(a@.contains_key(key));
            assert(keys.contains(key));
            let j = keys.index_of(key);
            assert(keys[j] == key);
        }
        assert forall|key: PlaceView| #[trigger]
            of_b.dom().contains(key) implies of_a.dom().contains(key) by {
            assert(b@.contains_key(key));
            assert(others.contains(key));
            let j = others.index_of(key);
            assert(others[j] == key);
        }
        assert(of_a =~= of_b);
    }
    true
}

impl FileBadges {
    pub fn new(scopes: Vec<RuleScope>) -> (badges: FileBadges)
        ensures
            badges@ == (FileBadgesView {
                badges: Map::empty(),
                scopes: scope_views(scopes@),
                generation: 0,
                reported: Set::empty(),
            }),
    {
        let badges = FileBadges {
            badges: SortedMap::new(),
            scopes,
            generation: 0,
            reported_errors: SortedMap::new(),
        };
        assert(badges@.badges =~= Map::empty());
        assert(badges@.reported =~= Set::empty());
        badges
    }

    /// The number of the last request.
    pub fn generation(&self) -> (generation: usize)
        ensures
            generation == self@.generation,
    {
        self.generation
    }

    /// Asks for the badges to be computed anew.
    pub fn refresh(
        &mut self,
        trees: Vec<VisibleTree>,
        changes: Option<(usize, Option<&Snapshot>, &Vec<PathUpdate>)>,
    ) -> (request: Option<Request>)
        requires
            old(self)@.generation < usize::MAX,
        ensures
            (final(self)@, opt_request(request)) == refreshed(
                old(self)@,
                visible_views(trees@),
                opt_changes(changes),
            ),
    {
        if scopes_without_rules(&self.scopes) && self.generation == 0 {
            return None;
        }
        self.generation = self.generation + 1;
        let worktrees = pick_local(trees);
        let invalidated: Vec<(usize, RelPath)> = match changes {
            Some((worktree_id, snapshot, updates)) => pick_changed(worktree_id, snapshot, updates),
            None => {
                let none: Vec<(usize, RelPath)> = Vec::new();
                assert(change_views(none@) =~= Seq::<ChangeView>::empty());
                none
            },
        };
        let scopes = pick_scopes(&self.scopes, &worktrees);
        Some(Request { generation: self.generation, worktrees, scopes, invalidated })
    }

    /// Asks for the badges to be computed anew where an event calls for it.
    pub fn handle_event(
        &mut self,
        event: ProjectEvent,
        trees: Vec<VisibleTree>,
        snapshot: Option<&Snapshot>,
    ) -> (request: Option<Request>)
        requires
            event is Other || old(self)@.generation < usize::MAX,
        ensures
            (final(self)@, opt_request(request)) == after_event(
                old(self)@,
                event,
                visible_views(trees@),
                opt_snapshot(snapshot),
            ),
    {
        match event {
            ProjectEvent::WorktreeUpdatedEntries(id, updates) => self.refresh(
                trees,
                Some((id, snapshot, &updates)),
            ),
            ProjectEvent::Other => None,
            ProjectEvent::WorktreeAdded(_) => self.refresh(trees, None),
            ProjectEvent::WorktreeRemoved(_) => self.refresh(trees, None),
            ProjectEvent::WorktreePathsChanged => self.refresh(trees, None),
        }
    }

    /// Takes the rules of the settings. Where they are others than before, errors are reported
    /// again and a refresh is due.
    pub fn update_scopes(&mut self, scopes: Vec<RuleScope>) -> (changed: bool)
        ensures
            changed == (scope_views(scopes@) != old(self)@.scopes),
            final(self)@ == if changed {
                FileBadgesView {
                    scopes: scope_views(scopes@),
                    reported: Set::empty(),
                    ..old(self)@
                }
            } else {
                old(self)@
            },
    {
        if same_scopes(&scopes, &self.scopes) {
            return false;
        }
        self.scopes = scopes;
        self.reported_errors = SortedMap::new();
        assert(self@.reported =~= Set::empty());
        true
    }

    /// The badges of a path.
    pub fn for_path(&self, worktree_id: usize, path: &RelPath) -> (badges: &[Badge])
        ensures
            badge_views(badges@) == badges_at(
                self@.badges,
                PlaceView { worktree_id, path: path@ },
            ),
    {
        let key = BadgeKey { worktree_id, path: path.clone() };
        match self.badges.get(&key) {
            Some(list) => list.as_slice(),
            None => {
                let none: &[Badge] = &[];
                assert(badge_views(none@) =~= Seq::empty());
                none
            },
        }
    }

    pub fn is_empty(&self) -> (yes: bool)
        ensures
            yes == (self@.badges == Map::<PlaceView, Seq<BadgeView>>::empty()),
    {
        let n: usize = self.badges.len();
        proof {
            let keys = self.badges.keys();
            if n > 0 {
                assert(keys.contains(keys[0]));
                assert(self.badges@.contains_key(keys[0]));
                assert(self@.badges.contains_key(keys[0]));
            } else {
                assert forall|key: PlaceView| !self@.badges.contains_key(key) by {
                    if self.badges@.contains_key(key) {
                        assert(keys.contains(key));
                    }
                }
                assert(self@.badges =~= Map::empty());
            }
        }
        n == 0
    }

    /// Picks the errors that were not reported yet, and remembers them.
    pub fn report(&mut self, errors: Vec<String>) -> (fresh: Vec<String>)
        ensures
            final(self)@ == with_reported(old(self)@, texts(errors@)),
            texts(fresh@) == unreported(old(self)@.reported, texts(errors@)),
    {
        let ghost was = self@;
        let ghost views = texts(errors@);
        let mut fresh: Vec<String> = Vec::new();
        let mut i: usize = 0;
        assert(texts(fresh@) =~= unreported(was.reported, views.take(0)));
        assert(was.reported =~= was.reported.union(views.take(0).to_set()));
        while i < errors.len()
            invariant
                i <= errors@.len(),
                views == texts(errors@),
                texts(fresh@) == unreported(was.reported, views.take(i as int)),
                self@ == with_reported(was, views.take(i as int)),
            decreases errors@.len() - i,
        {
            let error = &errors[i];
            let ghost head = views.take(i as int);
            let ghost next = views.take(i + 1);
            proof {
                assert(next.drop_last() =~= head);
                assert(next.last() == error@);
                assert(head.to_set().contains(error@) <==> head.contains(error@));
                assert forall|t: Seq<char>| #[trigger] next.to_set().contains(t) <==> (head.to_set().contains(
                t) || t == error@) by {
                    if head.contains(t) {
                        assert(next[head.index_of(t)] == t);
                    }
                    if t == error@ {
                        assert(next[i as int] == t);
                    }
                    if next.contains(t) && t != error@ {
                        assert(head[next.index_of(t)] == t);
                    }
                }
            }
            if !self.reported_errors.contains_key(error) {
                let ghost fresh_was = texts(fresh@);
                self.reported_errors.insert(error.clone(), ());
                let copy = error.clone();
                fresh.push(copy);
                assert(texts(fresh@) =~= fresh_was.push(copy@));
            }
            assert(self@.reported =~= was.reported.union(next.to_set()));
            i = i + 1;
        }
        assert(views.take(i as int) =~= views);
        fresh
    }

    /// Takes what came of a run, unless a newer request was made since.
    pub fn publish(&mut self, generation: usize, output: Output) -> (published: Option<Published>)
        ensures
            (final(self)@, opt_published(published)) == after_publish(
                old(self)@,
                generation,
                output@,
            ),
    {
        if self.generation != generation {
            return None;
        }
        let Output { badges, errors } = output;
        let changed: bool = !same_badges(&self.badges, &badges);
        if changed {
            self.badges = badges;
        }
        let fresh = self.report(errors);
        Some(Published { changed, errors: fresh })
    }
}

/// Whether the caches are to be saved after a run: where what came of it was published, or nobody
/// is left to publish it to.
pub fn saves_caches(published: bool, view_is_gone: bool) -> (yes: bool)
    ensures
        yes == (published || view_is_gone),
{
    published || view_is_gone
}

} // verus!
