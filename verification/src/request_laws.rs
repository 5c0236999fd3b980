//! What is asked for when badges are to be computed anew, and what becomes of what comes of it.
use vstd::prelude::*;

use crate::badge::Badge;
use crate::badge::BadgeView;
use crate::badge::RuleScope;
use crate::badge::ScopeView;
use crate::badge_laws::law_errors_are_reported_once;
use crate::badges::badge_views;
use crate::badges::badges_view;
use crate::badges::PlaceView;
use crate::cache::change_views;
use crate::cache::TreeView;
use crate::cache::WorktreeInput;
use crate::file_badges::after_event;
use crate::file_badges::changed_paths;
use crate::file_badges::local_trees;
use crate::file_badges::opt_changes;
use crate::file_badges::opt_published;
use crate::file_badges::opt_request;
use crate::file_badges::opt_snapshot;
use crate::file_badges::refresh_request;
use crate::file_badges::refreshed;
use crate::file_badges::refreshes;
use crate::file_badges::saves_caches;
use crate::file_badges::scopes_within;
use crate::file_badges::unreported;
use crate::file_badges::update_views;
use crate::file_badges::visible_views;
use crate::file_badges::FileBadges;
use crate::file_badges::PathChange;
use crate::file_badges::PathUpdate;
use crate::file_badges::ProjectEvent;
use crate::file_badges::Published;
use crate::file_badges::UpdateView;
use crate::file_badges::VisibleTree;
use crate::file_badges::VisibleView;
use crate::rel_path::RelPath;
use crate::rules::texts;
use crate::worker::has_tree;
use crate::worker::Output;
use crate::worker::Request;
use crate::worktree::EntryKind;
use crate::worktree::Snapshot;
use crate::worktree::SnapshotView;

verus! {

proof fn lemma_local_trees(trees: Seq<VisibleView>)
    ensures
        local_trees(trees) == trees.filter(|t: VisibleView| t.is_local).map_values(
            |t: VisibleView|
                TreeView {
                    snapshot: t.snapshot,
                    scan_complete: t.scan_id == t.completed_scan_id,
                },
        ),
    decreases trees.len(),
{
    reveal(Seq::filter);
    let local = |t: VisibleView| t.is_local;
    let input = |t: VisibleView|
        TreeView { snapshot: t.snapshot, scan_complete: t.scan_id == t.completed_scan_id };
    if trees.len() > 0 {
        lemma_local_trees(trees.drop_last());
    }
    assert(local_trees(trees) =~= trees.filter(local).map_values(input));
}

proof fn lemma_local_tree_ids(trees: Seq<VisibleView>, id: usize)
    ensures
        has_tree(local_trees(trees), id) <==> exists|t: int|
            0 <= t < trees.len() && (#[trigger] trees[t]).is_local && trees[t].snapshot.id == id,
    decreases trees.len(),
{
    if trees.len() > 0 {
        let init = trees.drop_last();
        lemma_local_tree_ids(init, id);
        let before = local_trees(init);
        let now = local_trees(trees);
        let last = trees.len() - 1;
        if has_tree(before, id) {
            let k = choose|k: int| 0 <= k < before.len() && (#[trigger] before[k]).snapshot.id == id;
            assert(now[k].snapshot.id == id);
            let t = choose|t: int|
                0 <= t < init.len() && (#[trigger] init[t]).is_local && init[t].snapshot.id == id;
            assert(trees[t] == init[t]);
        }
        if trees[last].is_local && trees[last].snapshot.id == id {
            assert(now[before.len() as int].snapshot.id == id);
        }
        if has_tree(now, id) && !has_tree(before, id) {
            let k = choose|k: int| 0 <= k < now.len() && (#[trigger] now[k]).snapshot.id == id;
            if k < before.len() {
                assert(before[k].snapshot.id == id);
            }
            assert(trees[last].is_local);
        }
        if exists|t: int|
            0 <= t < trees.len() && (#[trigger] trees[t]).is_local && trees[t].snapshot.id == id {
            let t = choose|t: int|
                0 <= t < trees.len() && (#[trigger] trees[t]).is_local && trees[t].snapshot.id == id;
            if t < last {
                assert(init[t] == trees[t]);
            }
        }
    }
}

proof fn lemma_scopes_within(scopes: Seq<ScopeView>, trees: Seq<VisibleView>)
    ensures
        scopes_within(scopes, local_trees(trees)) == scopes.filter(
            |s: ScopeView|
                s.worktree_id is None || exists|t: int|
                    0 <= t < trees.len() && (#[trigger] trees[t]).is_local && Some(
                        trees[t].snapshot.id,
                    ) == s.worktree_id,
        ),
    decreases scopes.len(),
{
    reveal(Seq::filter);
    if scopes.len() > 0 {
        lemma_scopes_within(scopes.drop_last(), trees);
        let scope = scopes.last();
        if scope.worktree_id is Some {
            lemma_local_tree_ids(trees, scope.worktree_id->0);
        }
    }
}

proof fn lemma_changed_paths(
    worktree_id: usize,
    snapshot: Option<SnapshotView>,
    updates: Seq<UpdateView>,
)
    ensures
        changed_paths(worktree_id, snapshot, updates) == updates.filter(
            |u: UpdateView|
                u.change == PathChange::Removed || (u.change != PathChange::Loaded
                    && snapshot is Some && exists|e: int|
                    0 <= e < snapshot->0.entries.len() && (
                    #[trigger] snapshot->0.entries[e]).id == u.entry_id
                        && snapshot->0.entries[e].kind == EntryKind::File),
        ).map_values(|u: UpdateView| (worktree_id, u.path)),
    decreases updates.len(),
{
    reveal(Seq::filter);
    let wanted = |u: UpdateView|
        u.change == PathChange::Removed || (u.change != PathChange::Loaded && snapshot is Some
            && exists|e: int|
            0 <= e < snapshot->0.entries.len() && (#[trigger] snapshot->0.entries[e]).id
                == u.entry_id && snapshot->0.entries[e].kind == EntryKind::File);
    let named = |u: UpdateView| (worktree_id, u.path);
    if updates.len() > 0 {
        lemma_changed_paths(worktree_id, snapshot, updates.drop_last());
    }
    assert(changed_paths(worktree_id, snapshot, updates) =~= updates.filter(wanted).map_values(
        named,
    ));
}

/// A refresh asks for something unless there are no rules and nothing was asked for before. What
/// it asks for has the next number, and nothing else of the badges changes by it.
pub proof fn law_refresh_asks_once_there_are_rules(
    badges: &mut FileBadges,
    trees: Vec<VisibleTree>,
    changes: Option<(usize, Option<&Snapshot>, &Vec<PathUpdate>)>,
    request: Option<Request>,
)
    requires
        old(badges)@.generation < usize::MAX,
        call_ensures(FileBadges::refresh, (badges, trees, changes), request),
    ensures
        request is Some <==> old(badges)@.generation > 0 || exists|s: int|
            0 <= s < old(badges)@.scopes.len() && (
            #[trigger] old(badges)@.scopes[s]).rules.len() > 0,
        request is None ==> final(badges)@ == old(badges)@,
        request matches Some(r) ==> {
            &&& r.generation == old(badges)@.generation + 1
            &&& final(badges)@.generation == r.generation
            &&& final(badges)@.badges == old(badges)@.badges
            &&& final(badges)@.scopes == old(badges)@.scopes
            &&& final(badges)@.reported == old(badges)@.reported
        },
{
    let view = old(badges)@;
    if refreshes(view) && view.generation == 0 {
        let s = choose|s: int| 0 <= s < view.scopes.len() && view.scopes[s].rules.len() != 0;
        assert(view.scopes[s].rules.len() > 0);
    }
    assert(request is Some ==> request->0@ == refresh_request(
        view,
        visible_views(trees@),
        opt_changes(changes),
    ));
}

/// A refresh asks for all visible worktrees that are local and for no others, each with its own
/// snapshot, in their order; a scan is complete where the last one that was begun is completed.
pub proof fn law_refresh_asks_for_local_worktrees(
    badges: &mut FileBadges,
    trees: Vec<VisibleTree>,
    changes: Option<(usize, Option<&Snapshot>, &Vec<PathUpdate>)>,
    request: Request,
)
    requires
        old(badges)@.generation < usize::MAX,
        call_ensures(FileBadges::refresh, (badges, trees, changes), Some(request)),
    ensures
        request.worktrees@.map_values(|w: WorktreeInput| w@) == trees@.map_values(
            |t: VisibleTree| t@,
        ).filter(|t: VisibleView| t.is_local).map_values(
            |t: VisibleView|
                TreeView {
                    snapshot: t.snapshot,
                    scan_complete: t.scan_id == t.completed_scan_id,
                },
        ),
        forall|i: int|
            0 <= i < trees@.len() && (#[trigger] trees@[i]).is_local ==> exists|k: int|
                0 <= k < request.worktrees@.len() && (#[trigger] request.worktrees@[k]).snapshot@
                    == trees@[i].snapshot@ && request.worktrees@[k].scan_complete == (
                trees@[i].scan_id == trees@[i].completed_scan_id),
{
    let views = visible_views(trees@);
    let local = |t: VisibleView| t.is_local;
    let input = |t: VisibleView|
        TreeView { snapshot: t.snapshot, scan_complete: t.scan_id == t.completed_scan_id };
    lemma_local_trees(views);
    assert(request@.trees == local_trees(views));
    assert forall|i: int| 0 <= i < trees@.len() && (#[trigger] trees@[i]).is_local implies exists|
        k: int,
    |
        0 <= k < request.worktrees@.len() && (#[trigger] request.worktrees@[k]).snapshot@
            == trees@[i].snapshot@ && request.worktrees@[k].scan_complete == (trees@[i].scan_id
            == trees@[i].completed_scan_id) by {
        assert(views[i] == trees@[i]@);
        views.lemma_filter_contains(local, i);
        let k = views.filter(local).index_of(views[i]);
        assert(views.filter(local).map_values(input)[k] == input(views[i]));
        assert(request@.trees[k] == request.worktrees@[k]@);
        assert(request.worktrees@[k].snapshot@ == trees@[i].snapshot@);
    }
}

/// A refresh hands on the settings that hold everywhere and those of the worktrees that it asks
/// for, in their order.
pub proof fn law_refresh_hands_on_settings(
    badges: &mut FileBadges,
    trees: Vec<VisibleTree>,
    changes: Option<(usize, Option<&Snapshot>, &Vec<PathUpdate>)>,
    request: Request,
)
    requires
        old(badges)@.generation < usize::MAX,
        call_ensures(FileBadges::refresh, (badges, trees, changes), Some(request)),
    ensures
        request.scopes@.map_values(|s: RuleScope| s@) == old(badges)@.scopes.filter(
            |s: ScopeView|
                s.worktree_id is None || exists|t: int|
                    0 <= t < trees@.len() && (#[trigger] trees@[t]).is_local && Some(
                        trees@[t].snapshot@.id,
                    ) == s.worktree_id,
        ),
{
    let views = visible_views(trees@);
    lemma_scopes_within(old(badges)@.scopes, views);
    let wanted = |s: ScopeView|
        s.worktree_id is None || exists|t: int|
            0 <= t < views.len() && (#[trigger] views[t]).is_local && Some(views[t].snapshot.id)
                == s.worktree_id;
    let stated = |s: ScopeView|
        s.worktree_id is None || exists|t: int|
            0 <= t < trees@.len() && (#[trigger] trees@[t]).is_local && Some(
                trees@[t].snapshot@.id,
            ) == s.worktree_id;
    assert forall|s: ScopeView| #[trigger] wanted(s) == stated(s) by {
        if exists|t: int|
            0 <= t < views.len() && (#[trigger] views[t]).is_local && Some(views[t].snapshot.id)
                == s.worktree_id {
            let t = choose|t: int|
                0 <= t < views.len() && (#[trigger] views[t]).is_local && Some(
                    views[t].snapshot.id,
                ) == s.worktree_id;
            assert(trees@[t].is_local);
        }
        if exists|t: int|
            0 <= t < trees@.len() && (#[trigger] trees@[t]).is_local && Some(
                trees@[t].snapshot@.id,
            ) == s.worktree_id {
            let t = choose|t: int|
                0 <= t < trees@.len() && (#[trigger] trees@[t]).is_local && Some(
                    trees@[t].snapshot@.id,
                ) == s.worktree_id;
            assert(views[t].is_local);
        }
    }
    assert(wanted =~= stated);
    assert(request@.scopes == scopes_within(old(badges)@.scopes, local_trees(views)));
}

/// A refresh tells which paths changed: those that were removed, and those of files of the
/// worktree that were not just loaded, in their order. Without changes, none did.
pub proof fn law_refresh_tells_what_changed(
    badges: &mut FileBadges,
    trees: Vec<VisibleTree>,
    worktree_id: usize,
    snapshot: Option<&Snapshot>,
    updates: &Vec<PathUpdate>,
    changes: Option<(usize, Option<&Snapshot>, &Vec<PathUpdate>)>,
    request: Request,
)
    requires
        old(badges)@.generation < usize::MAX,
        changes is Some ==> changes->0 == (worktree_id, snapshot, updates),
        call_ensures(FileBadges::refresh, (badges, trees, changes), Some(request)),
    ensures
        changes is None ==> request.invalidated@.len() == 0,
        changes is Some ==> request.invalidated@.map_values(|c: (usize, RelPath)| (c.0, c.1@))
            == updates@.map_values(|u: PathUpdate| u@).filter(
            |u: UpdateView|
                u.change == PathChange::Removed || (u.change != PathChange::Loaded
                    && snapshot is Some && exists|e: int|
                    0 <= e < snapshot->0@.entries.len() && (
                    #[trigger] snapshot->0@.entries[e]).id == u.entry_id
                        && snapshot->0@.entries[e].kind == EntryKind::File),
        ).map_values(|u: UpdateView| (worktree_id, u.path)),
{
    assert(request@.changes.len() == request.invalidated@.len());
    if changes is Some {
        let known = opt_snapshot(snapshot);
        let views = update_views(updates@);
        lemma_changed_paths(worktree_id, known, views);
        let a = |u: UpdateView|
            u.change == PathChange::Removed || (u.change != PathChange::Loaded && known is Some
                && exists|e: int|
                0 <= e < known->0.entries.len() && (#[trigger] known->0.entries[e]).id
                    == u.entry_id && known->0.entries[e].kind == EntryKind::File);
        let b = |u: UpdateView|
            u.change == PathChange::Removed || (u.change != PathChange::Loaded && snapshot is Some
                && exists|e: int|
                0 <= e < snapshot->0@.entries.len() && (#[trigger] snapshot->0@.entries[e]).id
                    == u.entry_id && snapshot->0@.entries[e].kind == EntryKind::File);
        assert(a =~= b);
    }
}

/// A change of a worktree's entries, a new or lost worktree, and new paths of worktrees call for a
/// refresh, the first one with the changes; nothing else does.
pub proof fn law_events_call_for_a_refresh(
    badges: &mut FileBadges,
    event: ProjectEvent,
    trees: Vec<VisibleTree>,
    snapshot: Option<&Snapshot>,
    request: Option<Request>,
    like: &mut FileBadges,
    id: usize,
    updates: &Vec<PathUpdate>,
    changes: Option<(usize, Option<&Snapshot>, &Vec<PathUpdate>)>,
    asked: Option<Request>,
)
    requires
        old(badges)@.generation < usize::MAX,
        call_ensures(FileBadges::handle_event, (badges, event, trees, snapshot), request),
        old(like)@ == old(badges)@,
        event matches ProjectEvent::WorktreeUpdatedEntries(i, u) ==> changes == Some(
            (id, snapshot, updates),
        ) && i == id && u == *updates,
        event !is WorktreeUpdatedEntries ==> changes is None,
        call_ensures(FileBadges::refresh, (like, trees, changes), asked),
    ensures
        event is Other ==> request is None && final(badges)@ == old(badges)@,
        event !is Other ==> final(badges)@ == final(like)@ && request is Some == asked is Some,
        event !is Other && request is Some ==> {
            &&& request->0.generation == asked->0.generation
            &&& request->0.worktrees@.map_values(|w: WorktreeInput| w@)
                == asked->0.worktrees@.map_values(|w: WorktreeInput| w@)
            &&& request->0.scopes@.map_values(|s: RuleScope| s@) == asked->0.scopes@.map_values(
                |s: RuleScope| s@,
            )
            &&& request->0.invalidated@.map_values(|c: (usize, RelPath)| (c.0, c.1@))
                == asked->0.invalidated@.map_values(|c: (usize, RelPath)| (c.0, c.1@))
        },
{
    assert(opt_request(request) == after_event(
        old(badges)@,
        event,
        visible_views(trees@),
        opt_snapshot(snapshot),
    ).1);
    assert(opt_request(asked) == refreshed(
        old(like)@,
        visible_views(trees@),
        opt_changes(changes),
    ).1);
    if event !is Other && request is Some {
        assert(request->0@ == asked->0@);
    }
}

/// A newer request takes the place of an older one, except that what the older one knows to have
/// changed is kept, before what the newer one does.
pub proof fn law_newer_requests_take_over(request: &mut Request, next: Request)
    requires
        call_ensures(Request::supersede, (request, next), ()),
    ensures
        final(request).generation == next.generation,
        final(request).worktrees@.map_values(|w: WorktreeInput| w@) == next.worktrees@.map_values(
            |w: WorktreeInput| w@,
        ),
        final(request).scopes@.map_values(|s: RuleScope| s@) == next.scopes@.map_values(
            |s: RuleScope| s@,
        ),
        final(request).invalidated@.len() == old(request).invalidated@.len()
            + next.invalidated@.len(),
        forall|i: int|
            0 <= i < old(request).invalidated@.len() ==> {
                &&& final(request).invalidated@[i].0 == (
                #[trigger] old(request).invalidated@[i]).0
                &&& final(request).invalidated@[i].1@ == old(request).invalidated@[i].1@
            },
        forall|i: int|
            0 <= i < next.invalidated@.len() ==> {
                let k = old(request).invalidated@.len() + i;
                &&& final(request).invalidated@[k].0 == (#[trigger] next.invalidated@[i]).0
                &&& final(request).invalidated@[k].1@ == next.invalidated@[i].1@
            },
{
    let now = final(request)@;
    let was = change_views(old(request).invalidated@);
    let more = change_views(next.invalidated@);
    assert(now.changes == was + more);
    assert(now.changes.len() == final(request).invalidated@.len());
    assert forall|i: int| 0 <= i < old(request).invalidated@.len() implies {
        &&& final(request).invalidated@[i].0 == (#[trigger] old(request).invalidated@[i]).0
        &&& final(request).invalidated@[i].1@ == old(request).invalidated@[i].1@
    } by {
        assert(now.changes[i] == was[i]);
    }
    assert forall|i: int| 0 <= i < next.invalidated@.len() implies {
        let k = old(request).invalidated@.len() + i;
        &&& final(request).invalidated@[k].0 == (#[trigger] next.invalidated@[i]).0
        &&& final(request).invalidated@[k].1@ == next.invalidated@[i].1@
    } by {
        assert(now.changes[was.len() + i] == more[i]);
    }
}

proof fn lemma_unreported_order(reported: Set<Seq<char>>, errors: Seq<Seq<char>>)
    ensures
        forall|a: int, b: int|
            0 <= a < b < unreported(reported, errors).len() ==> told_before(
                errors,
                #[trigger] unreported(reported, errors)[a],
                #[trigger] unreported(reported, errors)[b],
            ),
        forall|a: int|
            0 <= a < unreported(reported, errors).len() ==> errors.contains(
                #[trigger] unreported(reported, errors)[a],
            ),
    decreases errors.len(),
{
    if errors.len() > 0 {
        let init = errors.drop_last();
        lemma_unreported_order(reported, init);
        let before = unreported(reported, init);
        let now = unreported(reported, errors);
        let last = errors.len() - 1;
        assert forall|a: int| 0 <= a < now.len() implies errors.contains(#[trigger] now[a]) by {
            if a < before.len() {
                assert(now[a] == before[a]);
                assert(init.contains(before[a]));
                assert(errors[init.index_of(before[a])] == now[a]);
            } else {
                assert(errors[last] == now[a]);
            }
        }
        assert forall|a: int, b: int| 0 <= a < b < now.len() implies told_before(
            errors,
            #[trigger] now[a],
            #[trigger] now[b],
        ) by {
            assert(now[a] == before[a]);
            if b < before.len() {
                assert(now[b] == before[b]);
                assert(told_before(init, before[a], before[b]));
                let i = choose|i: int|
                    0 <= i < init.len() && #[trigger] init[i] == before[a] && forall|j: int|
                        0 <= j <= i ==> #[trigger] init[j] != before[b];
                assert(errors[i] == now[a]);
                assert forall|j: int| 0 <= j <= i implies #[trigger] errors[j] != now[b] by {
                    assert(init[j] == errors[j]);
                }
            } else {
                assert(init.contains(before[a]));
                let i = init.index_of(before[a]);
                assert(errors[i] == now[a]);
                assert forall|j: int| 0 <= j <= i implies #[trigger] errors[j] != now[b] by {
                    assert(init[j] == errors[j]);
                    assert(init.contains(init[j]));
                }
            }
        }
    }
}

/// The first of two texts comes in the list before the second one does.
pub open spec fn told_before(list: Seq<Seq<char>>, first: Seq<char>, second: Seq<char>) -> bool {
    exists|i: int|
        0 <= i < list.len() && #[trigger] list[i] == first && forall|j: int|
            0 <= j <= i ==> #[trigger] list[j] != second
}

/// What came of a run is shown where nothing newer was asked for, and otherwise dropped. The
/// badges are then those of the run, and it is said whether they are others than before. Of its
/// errors, those that were not reported yet are to be reported, each once and in their order; all
/// of them count as reported from then on.
pub proof fn law_newest_results_are_shown(
    badges: &mut FileBadges,
    generation: usize,
    output: Output,
    published: Option<Published>,
)
    requires
        call_ensures(FileBadges::publish, (badges, generation, output), published),
    ensures
        published is Some <==> generation == old(badges)@.generation,
        published is None ==> final(badges)@ == old(badges)@,
        published matches Some(p) ==> {
            let was = old(badges)@;
            let now = final(badges)@;
            &&& now.badges == output.badges@.map_values(
                |list: Vec<Badge>| list@.map_values(|b: Badge| b@),
            )
            &&& now.scopes == was.scopes
            &&& now.generation == was.generation
            &&& p.changed == (now.badges != was.badges)
            &&& forall|error: Seq<char>| #[trigger]
                now.reported.contains(error) <==> was.reported.contains(error) || exists|i: int|
                    0 <= i < output.errors@.len() && (#[trigger] output.errors@[i])@ == error
        },
        published matches Some(p) ==> newly_told(
            old(badges)@.reported,
            output.errors@.map_values(|e: String| e@),
            p.errors@.map_values(|e: String| e@),
        ),
{
    if published is Some {
        let list = texts(output.errors@);
        assert(opt_published(published) == Some(
            (
                badges_view(output.badges) != old(badges)@.badges,
                unreported(old(badges)@.reported, list),
            ),
        ));
        lemma_newly_told(old(badges)@.reported, list);
        assert forall|error: Seq<char>| #[trigger]
            final(badges)@.reported.contains(error) <==> old(badges)@.reported.contains(error)
                || exists|i: int|
                0 <= i < output.errors@.len() && (#[trigger] output.errors@[i])@ == error by {
            if list.contains(error) {
                let i = list.index_of(error);
                assert(output.errors@[i]@ == error);
            }
            if exists|i: int|
                0 <= i < output.errors@.len() && (#[trigger] output.errors@[i])@ == error {
                let i = choose|i: int|
                    0 <= i < output.errors@.len() && (#[trigger] output.errors@[i])@ == error;
                assert(list[i] == error);
            }
        }
    }
}

/// `fresh` holds those of the errors that were not told before, each once and in their order.
pub open spec fn newly_told(
    told: Set<Seq<char>>,
    errors: Seq<Seq<char>>,
    fresh: Seq<Seq<char>>,
) -> bool {
    &&& fresh.no_duplicates()
    &&& forall|error: Seq<char>| #[trigger]
        fresh.contains(error) <==> errors.contains(error) && !told.contains(error)
    &&& forall|a: int, b: int|
        0 <= a < b < fresh.len() ==> told_before(errors, #[trigger] fresh[a], #[trigger] fresh[b])
}

proof fn lemma_newly_told(told: Set<Seq<char>>, errors: Seq<Seq<char>>)
    ensures
        newly_told(told, errors, unreported(told, errors)),
{
    law_errors_are_reported_once(told, errors);
    lemma_unreported_order(told, errors);
}

/// Errors of saving are reported as those of a run are: once each, and nothing else changes.
pub proof fn law_errors_are_remembered(
    badges: &mut FileBadges,
    errors: Vec<String>,
    fresh: Vec<String>,
)
    requires
        call_ensures(FileBadges::report, (badges, errors), fresh),
    ensures
        newly_told(
            old(badges)@.reported,
            errors@.map_values(|e: String| e@),
            fresh@.map_values(|e: String| e@),
        ),
        forall|error: Seq<char>| #[trigger]
            final(badges)@.reported.contains(error) <==> old(badges)@.reported.contains(error)
                || errors@.map_values(|e: String| e@).contains(error),
        final(badges)@.badges == old(badges)@.badges,
        final(badges)@.scopes == old(badges)@.scopes,
        final(badges)@.generation == old(badges)@.generation,
{
    lemma_newly_told(old(badges)@.reported, texts(errors@));
}

/// Other settings take the place of the ones before, and all errors can be reported again; the
/// same settings change nothing.
pub proof fn law_new_settings_take_over(
    badges: &mut FileBadges,
    scopes: Vec<RuleScope>,
    changed: bool,
)
    requires
        call_ensures(FileBadges::update_scopes, (badges, scopes), changed),
    ensures
        final(badges)@.scopes == scopes@.map_values(|s: RuleScope| s@),
        changed == (final(badges)@.scopes != old(badges)@.scopes),
        changed ==> forall|error: Seq<char>| !#[trigger] final(badges)@.reported.contains(error),
        !changed ==> final(badges)@.reported == old(badges)@.reported,
        final(badges)@.badges == old(badges)@.badges,
        final(badges)@.generation == old(badges)@.generation,
{
}

/// At first there are no badges, nothing was asked for, and nothing reported.
pub proof fn law_at_first_nothing_is_shown(scopes: Vec<RuleScope>, badges: FileBadges)
    requires
        call_ensures(FileBadges::new, (scopes,), badges),
    ensures
        badges@.scopes == scopes@.map_values(|s: RuleScope| s@),
        badges@.generation == 0,
        forall|key: PlaceView| !#[trigger] badges@.badges.contains_key(key),
        forall|error: Seq<char>| !#[trigger] badges@.reported.contains(error),
{
}

/// What is shown at a path is what the badges hold for it: nothing where they hold nothing. There
/// are no badges exactly where nothing is held for any path.
pub proof fn law_badges_are_shown_at_their_path(
    badges: &FileBadges,
    worktree_id: usize,
    path: &RelPath,
    list: &[Badge],
    none: bool,
    number: usize,
)
    requires
        call_ensures(FileBadges::for_path, (badges, worktree_id, path), list),
        call_ensures(FileBadges::is_empty, (badges,), none),
        call_ensures(FileBadges::generation, (badges,), number),
    ensures
        ({
            let key = PlaceView { worktree_id, path: path@ };
            &&& badges@.badges.contains_key(key) ==> list@.map_values(|b: Badge| b@)
                == badges@.badges[key]
            &&& !badges@.badges.contains_key(key) ==> list@.len() == 0
        }),
        none <==> forall|key: PlaceView| !#[trigger] badges@.badges.contains_key(key),
        number == badges@.generation,
{
    assert(badge_views(list@).len() == list@.len());
    if forall|key: PlaceView| !#[trigger] badges@.badges.contains_key(key) {
        assert(badges@.badges =~= Map::<PlaceView, Seq<BadgeView>>::empty());
    }
}

/// Caches are saved once their results are shown, and when nobody is left to show them to.
pub proof fn law_when_caches_are_saved(published: bool, view_is_gone: bool, yes: bool)
    requires
        call_ensures(saves_caches, (published, view_is_gone), yes),
    ensures
        published ==> yes,
        view_is_gone ==> yes,
        !published && !view_is_gone ==> !yes,
{
}

} // verus!
