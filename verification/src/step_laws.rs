//! What each step of a run does, and what it hands on.
use vstd::prelude::*;

use crate::badge::BadgeView;
use crate::badge::IconSet;
use crate::badge_laws::gives;
use crate::badge_laws::law_badges_are_shown_once_and_in_order;
use crate::badge_laws::law_contributed_where_a_rule_gives;
use crate::badge_laws::some_rule_gives;
use crate::badges::all_contributions;
use crate::badges::badges_at;
use crate::badges::badges_view;
use crate::badges::collect;
use crate::badges::with_contributions;
use crate::badges::Badges;
use crate::badges::BadgesView;
use crate::badges::ContributionView;
use crate::badges::PlaceView;
use crate::cache::cache_read_error;
use crate::cache::matches_view;
use crate::cache::pruned;
use crate::cache::usable_cache;
use crate::cache::CacheRead;
use crate::cache::CacheView;
use crate::cache::FilesView;
use crate::cache::PersistedCache;
use crate::cache::WorktreeCache;
use crate::cache::WorktreeInput;
use crate::plan::candidate_views;
use crate::plan::candidates;
use crate::plan::pending;
use crate::plan::pending_views;
use crate::plan::Candidate;
use crate::plan::CandidateView;
use crate::plan::PendingRead;
use crate::rel_path::unix_text;
use crate::rel_path::RelPath;
use crate::root::join;
use crate::root::same_root;
use crate::rules::compile_scopes;
use crate::rules::concerns;
use crate::rules::has_rules;
use crate::rules::texts;
use crate::rules::CompiledScope;
use crate::rules::CompiledScopeView;
use crate::rules::CompiledView;
use crate::rules::Matchers;
use crate::sorted_map::SortedMap;
use crate::worker::after_record;
use crate::worker::has_tree;
use crate::worker::next_step;
use crate::worker::reading;
use crate::worker::started;
use crate::worker::CachesView;
use crate::worker::OpenTree;
use crate::worker::OutputView;
use crate::worker::ReadTree;
use crate::worker::Request;
use crate::worker::RunView;
use crate::worker::Step;
use crate::worker::StepView;
use crate::worker::Worker;
use crate::worktree::opt_text;

verus! {

/// Some rule may hold in the worktree: the global settings or some of its own have one.
pub open spec fn is_concerned(scopes: Seq<CompiledScopeView>, worktree_id: usize) -> bool {
    exists|i: int|
        0 <= i < scopes.len() && (#[trigger] scopes[i]).rules.len() > 0 && (
        scopes[i].worktree_id is None || scopes[i].worktree_id == Some(worktree_id))
}

proof fn lemma_is_concerned(scopes: Seq<CompiledScopeView>, worktree_id: usize)
    ensures
        is_concerned(scopes, worktree_id) == has_rules(scopes, worktree_id),
{
    if is_concerned(scopes, worktree_id) {
        let i = choose|i: int|
            0 <= i < scopes.len() && (#[trigger] scopes[i]).rules.len() > 0 && (
            scopes[i].worktree_id is None || scopes[i].worktree_id == Some(worktree_id));
        assert(concerns(scopes[i], worktree_id));
    }
    if has_rules(scopes, worktree_id) {
        let i = choose|i: int|
            0 <= i < scopes.len() && concerns(#[trigger] scopes[i], worktree_id)
                && scopes[i].rules.len() > 0;
        assert(scopes[i].rules.len() > 0);
    }
}

/// The run is at one of the worktrees from `from` on, the first of these that rules concern.
pub open spec fn at_first_concerned(run: RunView, from: int) -> bool {
    &&& from <= run.at < run.trees.len()
    &&& is_concerned(run.scopes, run.trees[run.at].snapshot.id)
    &&& forall|m: int|
        from <= m < run.at ==> !is_concerned(
            run.scopes,
            (#[trigger] run.trees[m]).snapshot.id,
        )
}

/// Both runs have the same settings, worktrees, changes and badges.
pub open spec fn same_task(a: RunView, b: RunView) -> bool {
    a.scopes == b.scopes && a.trees == b.trees && a.changes == b.changes && a.output.badges
        == b.output.badges
}

/// What comes next: the first worktree that rules concern is opened where its cache is missing or
/// is for another root, and else read. Where there is none, the run is done. Nothing else changes,
/// except that the cache of a worktree that is read loses what no longer holds.
pub proof fn law_next_step_is_the_next_worktree(run: RunView)
    requires
        0 <= run.at,
    ensures
        match next_step(run) {
            StepView::Open(next) => {
                &&& same_task(run, next)
                &&& at_first_concerned(next, run.at)
                &&& next.output.errors == run.output.errors
                &&& next.caches == run.caches
                &&& !run.caches.contains_key(next.id()) || !same_root(
                    run.caches[next.id()].root,
                    next.trees[next.at].snapshot.abs_path,
                )
            },
            StepView::Read(next, reads) => {
                let id = next.trees[next.at].snapshot.id;
                &&& same_task(run, next)
                &&& at_first_concerned(next, run.at)
                &&& next.output.errors == run.output.errors
                &&& run.caches.contains_key(id)
                &&& same_root(run.caches[id].root, next.trees[next.at].snapshot.abs_path)
                &&& next.caches == run.caches.insert(
                    id,
                    pruned(run.caches[id], next.trees[next.at], run.changes),
                )
                &&& reads == pending(
                    next.caches[id].data.files,
                    candidates(run.scopes, id, next.trees[next.at].snapshot.entries),
                )
            },
            StepView::Done(caches, output) => {
                &&& caches == run.caches
                &&& output == run.output
                &&& forall|m: int|
                    run.at <= m < run.trees.len() ==> !is_concerned(
                        run.scopes,
                        (#[trigger] run.trees[m]).snapshot.id,
                    )
            },
        },
    decreases run.trees.len() - run.at,
{
    if run.at < run.trees.len() {
        lemma_is_concerned(run.scopes, run.id());
        if !has_rules(run.scopes, run.id()) {
            law_next_step_is_the_next_worktree(run.advanced());
        }
    }
}

/// A run begins with the rules that can be used, with the worktrees and changes that were asked
/// for, without badges, with what is reported of the other rules, and with those caches whose
/// worktrees are there.
pub proof fn law_runs_begin_with_what_was_asked_for(
    worker: Worker,
    request: Request,
    icons: &IconSet,
    step: Step,
    matchers: &mut Matchers,
    errors: &mut Vec<String>,
    compiled: Vec<CompiledScope>,
    caches: CachesView,
)
    requires
        call_ensures(Worker::begin, (worker, request, icons), step),
        old(errors)@.len() == 0,
        call_ensures(compile_scopes, (&request.scopes, icons, matchers, errors), compiled),
        forall|id: usize| #[trigger]
            caches.contains_key(id) <==> worker@.contains_key(id) && exists|i: int|
                0 <= i < request.worktrees@.len() && (#[trigger] request.worktrees@[i]).snapshot@.id
                    == id,
        forall|id: usize| #[trigger] caches.contains_key(id) ==> caches[id] == worker@[id],
    ensures
        step@ == next_step(
            RunView {
                caches,
                scopes: compiled@.map_values(|s: CompiledScope| s@),
                trees: request.worktrees@.map_values(|w: WorktreeInput| w@),
                changes: request.invalidated@.map_values(|c: (usize, RelPath)| (c.0, c.1@)),
                at: 0,
                output: OutputView {
                    badges: Map::empty(),
                    errors: final(errors)@.map_values(|e: String| e@),
                },
            },
        ),
{
    let run = started(worker@, request@, icons@);
    let trees = request@.trees;
    assert forall|id: usize| has_tree(trees, id) <==> exists|i: int|
        0 <= i < request.worktrees@.len() && (#[trigger] request.worktrees@[i]).snapshot@.id
            == id by {
        if has_tree(trees, id) {
            let i = choose|i: int| 0 <= i < trees.len() && (#[trigger] trees[i]).snapshot.id == id;
            assert(request.worktrees@[i].snapshot@.id == id);
        }
        if exists|i: int|
            0 <= i < request.worktrees@.len() && (#[trigger] request.worktrees@[i]).snapshot@.id
                == id {
            let i = choose|i: int|
                0 <= i < request.worktrees@.len() && (
                #[trigger] request.worktrees@[i]).snapshot@.id == id;
            assert(trees[i].snapshot.id == id);
        }
    }
    assert(caches =~= run.caches);
    assert(texts(old(errors)@) =~= Seq::<Seq<char>>::empty());
    assert(texts(final(errors)@) =~= run.output.errors);
}

/// Once the cache of a worktree is open, the files of that worktree are read: with the cache as it
/// is opened, without what no longer holds, and with what is reported of the cache.
pub proof fn law_opened_worktrees_are_read(
    tree: OpenTree,
    root: &String,
    key: String,
    read: CacheRead,
    cache: WorktreeCache,
    report: Option<String>,
    step: Step,
)
    requires
        call_ensures(OpenTree::opened, (tree, Ok((key, read))), step),
        call_ensures(OpenTree::root, (&tree,), root),
        call_ensures(WorktreeCache::open, (root, key, read), (cache, report)),
    ensures
        step is Read,
        step matches Step::Read(next) ==> {
            let was = tree@;
            let now = next.so_far();
            let id = was.trees[was.at].snapshot.id;
            &&& root@ == was.trees[was.at].snapshot.abs_path
            &&& same_task(was, now)
            &&& now.at == was.at
            &&& report is None ==> now.output.errors == was.output.errors
            &&& report matches Some(text) ==> now.output.errors == was.output.errors.push(text@)
            &&& now.caches == was.caches.insert(
                id,
                pruned(cache@, was.trees[was.at], was.changes),
            )
            &&& next.to_read() == pending(
                now.caches[id].data.files,
                candidates(was.scopes, id, was.trees[was.at].snapshot.entries),
            )
        },
{
    let was = tree@;
    let id = was.id();
    let made = CacheView { root: root@, key: key@, data: usable_cache(read@), dirty: false };
    let open = was.with_cache(made).with_error(cache_read_error(root@, read@));
    assert(step@ == reading(open));
    assert(cache@ == made);
    assert(opt_text(report) == cache_read_error(root@, read@));
    let now = pruned(made, was.tree(), was.changes);
    assert(open.cache() == made);
    assert(was.caches.insert(id, made).insert(id, now) =~= was.caches.insert(id, now));
}

/// A worktree whose root cannot be resolved is left out: that is reported with the root, and the
/// run goes on behind it.
pub proof fn law_unresolved_worktrees_are_reported(
    tree: OpenTree,
    root: &String,
    error: String,
    step: Step,
)
    requires
        call_ensures(OpenTree::opened, (tree, Err(error)), step),
        call_ensures(OpenTree::root, (&tree,), root),
    ensures
        ({
            let was = tree@;
            let next = RunView {
                at: was.at + 1,
                output: OutputView {
                    badges: was.output.badges,
                    errors: was.output.errors.push(root@ + ": "@ + error@),
                },
                ..was
            };
            step@ == next_step(next)
        }),
{
}

/// What came of reading a file is recorded in the cache of its worktree. A read that failed is
/// reported with where the file is. What is to be read stays as it is, and all else.
pub proof fn law_reads_are_recorded(
    tree: ReadTree,
    i: usize,
    result: Result<SortedMap<String, bool>, String>,
    next: ReadTree,
    location: String,
    cache: &mut WorktreeCache,
    path: &RelPath,
)
    requires
        i < tree.to_read().len(),
        call_ensures(ReadTree::record, (tree, i, result), next),
        call_ensures(ReadTree::location, (&tree, i), location),
        old(cache)@ == tree.so_far().cache(),
        path@ == tree.to_read()[i as int].path,
        call_ensures(
            WorktreeCache::record,
            (cache, path, tree.to_read()[i as int].version, &result),
            (),
        ),
    ensures
        next.to_read() == tree.to_read(),
        same_task(tree.so_far(), next.so_far()),
        next.so_far().at == tree.so_far().at,
        next.so_far().caches == tree.so_far().caches.insert(
            tree.so_far().trees[tree.so_far().at].snapshot.id,
            final(cache)@,
        ),
        result is Ok ==> next.so_far().output.errors == tree.so_far().output.errors,
        result matches Err(error) ==> next.so_far().output.errors
            == tree.so_far().output.errors.push(location@ + ": "@ + error@),
{
    let was = tree.so_far();
    let read = tree.to_read()[i as int];
    assert(next.so_far() == after_record(was, read, matches_view(result)));
}

/// Where a file is to be read is its path below the root of the worktree.
pub proof fn law_files_are_read_below_their_root(
    tree: &ReadTree,
    i: usize,
    location: String,
    root: &String,
    path: &RelPath,
    below: String,
    reads: &Vec<PendingRead>,
)
    requires
        i < reads@.len(),
        call_ensures(ReadTree::pending, (tree,), reads),
        call_ensures(ReadTree::location, (tree, i), location),
        call_ensures(ReadTree::root, (tree,), root),
        path@ == reads@[i as int].path@,
        call_ensures(join, (root, path), below),
    ensures
        location@ == below@,
        root@ == tree.so_far().trees[tree.so_far().at].snapshot.abs_path,
        reads@.map_values(|r: PendingRead| r@) == tree.to_read(),
{
    assert(pending_views(reads@)[i as int] == reads@[i as int]@);
}

/// Once the files of a worktree were read, its badges are added, and the run goes on behind it.
pub proof fn law_read_worktrees_get_their_badges(
    tree: ReadTree,
    step: Step,
    badges: &mut Badges,
    cache: &PersistedCache,
    list: &Vec<Candidate>,
)
    requires
        call_ensures(ReadTree::finish, (tree,), step),
        badges_view(*old(badges)) == tree.so_far().output.badges,
        cache@ == tree.so_far().cache().data,
        list@.map_values(|c: Candidate| c@) == candidates(
            tree.so_far().scopes,
            tree.so_far().trees[tree.so_far().at].snapshot.id,
            tree.so_far().trees[tree.so_far().at].snapshot.entries,
        ),
        call_ensures(
            collect,
            (badges, tree.so_far().trees[tree.so_far().at].snapshot.id, cache, list),
            (),
        ),
    ensures
        ({
            let was = tree.so_far();
            let next = RunView {
                at: was.at + 1,
                output: OutputView {
                    badges: badges_view(*final(badges)),
                    errors: was.output.errors,
                },
                ..was
            };
            step@ == next_step(next)
        }),
{
}

/// The rule's badge belongs at the path for the file: what it looks for is known to be in the file,
/// and the path is as many levels above the file as the rule says.
pub open spec fn belongs_at(
    files: FilesView,
    c: CandidateView,
    rule: CompiledView,
    target: Seq<Seq<char>>,
) -> bool {
    let text = unix_text(c.path);
    &&& files.contains_key(text)
    &&& files[text].matches.contains_key(rule.matcher.fingerprint)
    &&& files[text].matches[rule.matcher.fingerprint]
    &&& target.len() + rule.level == c.path.len()
    &&& target.is_prefix_of(c.path)
}

proof fn lemma_belongs_at(
    files: FilesView,
    c: CandidateView,
    rule: CompiledView,
    target: Seq<Seq<char>>,
)
    ensures
        belongs_at(files, c, rule, target) == gives(files, c, rule, target),
{
    if belongs_at(files, c, rule, target) {
        assert(c.path.take(target.len() as int) =~= target);
    }
    if gives(files, c, rule, target) {
        assert(target =~= c.path.subrange(0, target.len() as int));
    }
}

/// A path gets the badges that belong there, each once, and no others. What other worktrees have
/// stays as it is.
pub proof fn law_paths_get_the_badges_that_belong_there(
    badges: &mut Badges,
    worktree_id: usize,
    cache: &PersistedCache,
    list: &Vec<Candidate>,
    target: Seq<Seq<char>>,
    badge: BadgeView,
    other: PlaceView,
)
    requires
        call_ensures(collect, (badges, worktree_id, cache, list), ()),
        !badges_view(*old(badges)).contains_key(PlaceView { worktree_id, path: target }),
        other.worktree_id != worktree_id,
    ensures
        ({
            let now = badges_view(*final(badges));
            let key = PlaceView { worktree_id, path: target };
            &&& now.contains_key(key) ==> now[key].len() > 0 && now[key].no_duplicates()
            &&& (now.contains_key(key) && now[key].contains(badge)) <==> some_rule_puts(
                cache@.files,
                list@.map_values(|c: Candidate| c@),
                target,
                badge,
            )
        }),
        badges_at(badges_view(*final(badges)), other) == badges_at(
            badges_view(*old(badges)),
            other,
        ),
{
    let was = badges_view(*old(badges));
    let now = badges_view(*final(badges));
    let key = PlaceView { worktree_id, path: target };
    let views = candidate_views(list@);
    let found = all_contributions(cache@.files, views);
    law_badges_are_shown_once_and_in_order(was, worktree_id, found, target);
    lemma_places(was, worktree_id, found, key, other);
    law_contributed_where_a_rule_gives(cache@.files, views, (target, badge));
    lemma_some_rule_puts(cache@.files, views, target, badge);
    assert(now == with_contributions(was, worktree_id, found));
    assert(badges_at(now, key).contains(badge) <==> found.contains((target, badge)));
}

/// Some rule that holds for some of the files puts the badge at the path.
pub open spec fn some_rule_puts(
    files: FilesView,
    list: Seq<CandidateView>,
    target: Seq<Seq<char>>,
    badge: BadgeView,
) -> bool {
    exists|i: int, j: int|
        0 <= i < list.len() && 0 <= j < list[i].rules.len() && belongs_at(
            files,
            list[i],
            #[trigger] list[i].rules[j],
            target,
        ) && list[i].rules[j].badge == badge
}

proof fn lemma_some_rule_puts(
    files: FilesView,
    list: Seq<CandidateView>,
    target: Seq<Seq<char>>,
    badge: BadgeView,
)
    ensures
        some_rule_puts(files, list, target, badge) == some_rule_gives(files, list, (target, badge)),
{
    if some_rule_puts(files, list, target, badge) {
        let (i, j) = choose|i: int, j: int|
            0 <= i < list.len() && 0 <= j < list[i].rules.len() && belongs_at(
                files,
                list[i],
                #[trigger] list[i].rules[j],
                target,
            ) && list[i].rules[j].badge == badge;
        lemma_belongs_at(files, list[i], list[i].rules[j], target);
    }
    if some_rule_gives(files, list, (target, badge)) {
        let (i, j) = choose|i: int, j: int|
            0 <= i < list.len() && 0 <= j < list[i].rules.len() && gives(
                files,
                list[i],
                #[trigger] list[i].rules[j],
                target,
            ) && list[i].rules[j].badge == badge;
        lemma_belongs_at(files, list[i], list[i].rules[j], target);
    }
}

proof fn lemma_places(
    badges: BadgesView,
    worktree_id: usize,
    found: Seq<ContributionView>,
    key: PlaceView,
    other: PlaceView,
)
    requires
        !badges.contains_key(key),
        other.worktree_id != worktree_id,
    ensures
        ({
            let now = with_contributions(badges, worktree_id, found);
            &&& now.contains_key(key) ==> now[key].len() > 0
            &&& badges_at(now, other) == badges_at(badges, other)
        }),
    decreases found.len(),
{
    if found.len() > 0 {
        lemma_places(badges, worktree_id, found.drop_last(), key, other);
        let before = with_contributions(badges, worktree_id, found.drop_last());
        let list = badges_at(before, key);
        if list.contains(found.last().1) {
            assert(list.len() > 0);
        }
    }
}

/// The caches that the database lacks are to be saved, each once. One that was saved is not to be
/// saved again; one that could not be saved is, and that is reported.
pub proof fn law_caches_are_saved_until_they_are(
    worker: &mut Worker,
    before: &Worker,
    unsaved: Vec<usize>,
    id: usize,
    cache: Option<&WorktreeCache>,
    result: Result<(), String>,
    report: Option<String>,
    other: usize,
)
    requires
        before@ == old(worker)@,
        call_ensures(Worker::unsaved, (before,), unsaved),
        call_ensures(Worker::cache, (before, id), cache),
        call_ensures(Worker::saved, (worker, id, result), report),
        other != id,
    ensures
        unsaved@.no_duplicates(),
        cache is Some <==> before@.contains_key(id),
        cache matches Some(c) ==> c@ == before@[id],
        final(worker)@.contains_key(id) == old(worker)@.contains_key(id),
        final(worker)@.contains_key(other) == old(worker)@.contains_key(other),
        final(worker)@.contains_key(other) ==> final(worker)@[other] == old(worker)@[other],
        result is Err ==> final(worker)@ == old(worker)@,
        result is Ok && old(worker)@.contains_key(id) ==> {
            let was = old(worker)@[id];
            let now = final(worker)@[id];
            !now.dirty && now.root == was.root && now.key == was.key && now.data == was.data
        },
        report is Some <==> result is Err,
        result matches Err(error) ==> report->0@ == "Could not save file badge cache: "@ + error@,
{
}

/// A cache is among those to be saved exactly where it is there and holds what the database does
/// not.
pub proof fn law_unsaved_caches_are_listed(worker: &Worker, unsaved: Vec<usize>, id: usize)
    requires
        call_ensures(Worker::unsaved, (worker,), unsaved),
    ensures
        unsaved@.contains(id) <==> worker@.contains_key(id) && worker@[id].dirty,
{
}

/// A worker begins without caches.
pub proof fn law_workers_begin_without_caches(worker: Worker)
    requires
        call_ensures(<Worker as Default>::default, (), worker),
    ensures
        forall|id: usize| !#[trigger] worker@.contains_key(id),
{
}

} // verus!
