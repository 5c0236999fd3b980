//! What holds of the output of a whole run, and of the caches that it leaves.
use vstd::prelude::*;

use crate::badge::BadgeView;
use crate::badge::ScopeView;
use crate::badge_laws::contributed_before;
use crate::badge_laws::gives;
use crate::badge_laws::law_badges_are_shown_once_and_in_order;
use crate::badge_laws::law_candidates_come_in_path_order;
use crate::badge_laws::law_contributed_where_a_rule_gives;
use crate::badge_laws::law_read_where_unknown;
use crate::badge_laws::law_usable_rules_keep_their_order;
use crate::badge_laws::lemma_candidates_bounded;
use crate::badge_laws::lemma_contributions;
use crate::badge_laws::lemma_from_candidates;
use crate::badge_laws::lemma_from_rules;
use crate::badge_laws::rule_at_gives;
use crate::badge_laws::some_rule_gives;
use crate::badge_laws::stands_for_entry;
use crate::badges::all_contributions;
use crate::badges::badges_at;
use crate::badges::contributions;
use crate::badges::from_candidate;
use crate::badges::from_candidates;
use crate::badges::lemma_all_contributions;
use crate::badges::with_contributions;
use crate::badges::BadgesView;
use crate::badges::ContributionView;
use crate::badges::PlaceView;
use crate::cache::ChangeView;
use crate::cache::FilesView;
use crate::cache::TreeView;
use crate::file_badges::after_publish;
use crate::file_badges::no_rules;
use crate::file_badges::refreshed;
use crate::file_badges::scopes_within;
use crate::file_badges::ChangesView;
use crate::file_badges::FileBadgesView;
use crate::file_badges::VisibleView;
use crate::plan::candidate_of;
use crate::plan::candidates;
use crate::plan::is_candidate;
use crate::plan::pending_of;
use crate::plan::CandidateView;
use crate::plan::PendingView;
use crate::rel_path::law_unix_text_round_trip;
use crate::rel_path::parse_unix;
use crate::rel_path::path_before;
use crate::rel_path::valid_path;
use crate::rules::governs;
use crate::rules::has_rules;
use crate::rules::marked_rules;
use crate::rules::name_marks;
use crate::rules::rules_at;
use crate::rules::scope_reports;
use crate::rules::CompiledScopeView;
use crate::rules::CompiledView;
use crate::run::all_read;
use crate::run::begun;
use crate::run::distinct_trees;
use crate::run::lemma_all_read_frame;
use crate::run::lemma_run_apart;
use crate::run::lemma_run_frame;
use crate::run::read;
use crate::run::run_upto;
use crate::run::to_read;
use crate::run::tree_done;
use crate::run::whole_run;
use crate::run::works;
use crate::run::ReadAnswer;
use crate::run::TreeAnswers;
use crate::worker::has_tree;
use crate::worker::next_step;
use crate::worker::started;
use crate::worker::CachesView;
use crate::worker::OutputView;
use crate::worker::RequestView;
use crate::worker::RunView;
use crate::worker::StepView;
use crate::worktree::entry_at;
use crate::worktree::entry_for_path;
use crate::worktree::listing;

verus! {

/// The entries of the worktree are in path order, and their paths valid.
pub open spec fn valid_tree(tree: TreeView) -> bool {
    &&& listing(tree.snapshot.entries)
    &&& forall|k: int|
        0 <= k < tree.snapshot.entries.len() ==> valid_path(
            (#[trigger] tree.snapshot.entries[k]).path,
        )
}

/// Each answer is about one of the files that were to be read.
pub open spec fn in_range(answers: Seq<ReadAnswer>, reads: Seq<PendingView>) -> bool {
    forall|i: int| 0 <= i < answers.len() ==> 0 <= (#[trigger] answers[i]).index < reads.len()
}

/// Each path of the cache is that of an entry of the worktree.
pub open spec fn are_entries(files: FilesView, tree: TreeView) -> bool {
    forall|text: Seq<char>| #[trigger]
        files.contains_key(text) ==> (parse_unix(text) matches Some(path) && entry_for_path(
            tree.snapshot.entries,
            path,
        ) is Some)
}

proof fn lemma_all_read_entries(
    run: RunView,
    reads: Seq<PendingView>,
    answers: Seq<ReadAnswer>,
)
    requires
        are_entries(run.cache().data.files, run.tree()),
        in_range(answers, reads),
        forall|k: int|
            0 <= k < reads.len() ==> valid_path((#[trigger] reads[k]).path) && entry_for_path(
                run.tree().snapshot.entries,
                reads[k].path,
            ) is Some,
    ensures
        are_entries(all_read(run, reads, answers).cache().data.files, run.tree()),
    decreases answers.len(),
{
    if answers.len() > 0 {
        let init = answers.drop_last();
        assert forall|i: int| 0 <= i < init.len() implies 0 <= (#[trigger] init[i]).index
            < reads.len() by {
            assert(init[i] == answers[i]);
        }
        lemma_all_read_entries(run, reads, init);
        lemma_all_read_frame(run, reads, init);
        assert(answers[answers.len() - 1] == answers.last());
        let p = reads[answers.last().index];
        law_unix_text_round_trip(p.path, Seq::empty());
    }
}

/// After a run over a worktree that was scanned completely, each path of its cache is that of an
/// entry: what was known of deleted files is gone.
pub proof fn law_cache_holds_entries_only(start: RunView, answers: Seq<TreeAnswers>, n: int)
    requires
        start.at == 0,
        distinct_trees(start.trees),
        0 <= n < start.trees.len(),
        valid_tree(start.trees[n]),
        start.trees[n].scan_complete,
        works(run_upto(start, answers, n as nat), answers[n]),
        in_range(answers[n].reads, to_read(run_upto(start, answers, n as nat), answers[n])),
    ensures
        ({
            let id = start.trees[n].snapshot.id;
            let caches = whole_run(start, answers).caches;
            &&& caches.contains_key(id)
            &&& are_entries(caches[id].data.files, start.trees[n])
        }),
{
    let run = run_upto(start, answers, n as nat);
    let tree = start.trees[n];
    let id = tree.snapshot.id;
    let reads = to_read(run, answers[n]);
    lemma_run_frame(start, answers, n as nat);
    let first = begun(run, answers[n]);
    assert(are_entries(first.cache().data.files, tree));
    let list = run.candidates();
    law_candidates_come_in_path_order(run.scopes, id, tree.snapshot.entries);
    law_read_where_unknown(first.cache().data.files, list);
    assert forall|k: int| 0 <= k < reads.len() implies valid_path((#[trigger] reads[k]).path)
        && entry_for_path(tree.snapshot.entries, reads[k].path) is Some by {
        assert(reads.contains(reads[k]));
        let i = choose|i: int|
            0 <= i < list.len() && reads[k] == pending_of(
                first.cache().data.files,
                #[trigger] list[i],
            );
        assert(stands_for_entry(run.scopes, id, tree.snapshot.entries, list[i]));
        let e = choose|e: int|
            0 <= e < tree.snapshot.entries.len() && is_candidate(
                run.scopes,
                id,
                #[trigger] tree.snapshot.entries[e],
            ) && list[i] == candidate_of(run.scopes, id, tree.snapshot.entries[e]);
        assert(entry_at(tree.snapshot.entries, reads[k].path, e));
    }
    lemma_all_read_entries(first, reads, answers[n].reads);
    lemma_all_read_frame(first, reads, answers[n].reads);
    let now = run_upto(start, answers, (n + 1) as nat);
    assert(now == tree_done(run, answers[n]));
    assert forall|k: int| n + 1 <= k < start.trees.len() implies (
    #[trigger] start.trees[start.at + k]).snapshot.id != id by {
        assert(start.trees[n].snapshot.id != start.trees[k].snapshot.id);
    }
    lemma_run_apart(start, answers, (n + 1) as nat, start.trees.len(), id);
}

/// After a run there is no cache of a worktree that is not there.
pub proof fn law_absent_worktrees_have_no_cache(
    caches: CachesView,
    request: RequestView,
    icons: Map<Seq<char>, Seq<char>>,
    answers: Seq<TreeAnswers>,
    id: usize,
)
    requires
        !has_tree(request.trees, id),
    ensures
        !whole_run(started(caches, request, icons), answers).caches.contains_key(id),
{
    let start = started(caches, request, icons);
    assert forall|k: int| 0 <= k < request.trees.len() implies (
    #[trigger] start.trees[start.at + k]).snapshot.id != id by {
        assert(request.trees[k].snapshot.id != id || has_tree(request.trees, id));
    }
    lemma_run_apart(start, answers, 0, request.trees.len(), id);
}

proof fn lemma_contributions_prefix(
    files: FilesView,
    list: Seq<CandidateView>,
    few: nat,
    many: nat,
)
    requires
        few <= many,
    ensures
        contributions(files, list, few).len() <= contributions(files, list, many).len(),
        contributions(files, list, many).take(contributions(files, list, few).len() as int)
            == contributions(files, list, few),
    decreases many,
{
    let a = contributions(files, list, few);
    let b = contributions(files, list, many);
    if few == many {
        assert(b.take(a.len() as int) =~= a);
    } else {
        lemma_contributions_prefix(files, list, few, (many - 1) as nat);
        let c = contributions(files, list, (many - 1) as nat);
        assert(b.take(a.len() as int) =~= c.take(a.len() as int));
    }
}

proof fn lemma_candidates_prefix(
    files: FilesView,
    list: Seq<CandidateView>,
    position: nat,
    few: int,
    many: int,
)
    requires
        0 <= few <= many <= list.len(),
    ensures
        from_candidates(files, list.take(few), position).len() <= from_candidates(
            files,
            list.take(many),
            position,
        ).len(),
        from_candidates(files, list.take(many), position).take(
            from_candidates(files, list.take(few), position).len() as int,
        ) == from_candidates(files, list.take(few), position),
    decreases many,
{
    let a = from_candidates(files, list.take(few), position);
    let b = from_candidates(files, list.take(many), position);
    if few == many {
        assert(b.take(a.len() as int) =~= a);
    } else {
        lemma_candidates_prefix(files, list, position, few, many - 1);
        let c = from_candidates(files, list.take(many - 1), position);
        assert(list.take(many).drop_last() =~= list.take(many - 1));
        assert(b.take(a.len() as int) =~= c.take(a.len() as int));
    }
}

/// The position of the rule that made the contribution at `x`.
proof fn lemma_locate_position(
    files: FilesView,
    list: Seq<CandidateView>,
    positions: nat,
    x: int,
) -> (p: nat)
    requires
        0 <= x < contributions(files, list, positions).len(),
    ensures
        p < positions,
        contributions(files, list, p).len() <= x < contributions(files, list, p + 1).len(),
    decreases positions,
{
    let last = (positions - 1) as nat;
    if x < contributions(files, list, last).len() {
        lemma_locate_position(files, list, last, x)
    } else {
        last
    }
}

/// The file for which the contribution at `y` was made.
proof fn lemma_locate_candidate(
    files: FilesView,
    list: Seq<CandidateView>,
    position: nat,
    n: int,
    y: int,
) -> (i: int)
    requires
        0 <= n <= list.len(),
        0 <= y < from_candidates(files, list.take(n), position).len(),
    ensures
        0 <= i < n,
        from_candidates(files, list.take(i), position).len() <= y < from_candidates(
            files,
            list.take(i + 1),
            position,
        ).len(),
    decreases n,
{
    if y < from_candidates(files, list.take(n - 1), position).len() {
        lemma_locate_candidate(files, list, position, n - 1, y)
    } else {
        n - 1
    }
}

/// No two rules of one file have one position.
pub open spec fn positions_apart(list: Seq<CandidateView>) -> bool {
    forall|i: int, j: int, k: int|
        #![trigger list[i].rules[j], list[i].rules[k]]
        0 <= i < list.len() && 0 <= j < k < list[i].rules.len() ==> list[i].rules[j].position
            != list[i].rules[k].position
}

/// Some rule gives `badge` for some file before any rule gives `other`: it comes earlier among the
/// rules, or it is the same rule and the file comes earlier in path order.
pub open spec fn given_before(
    files: FilesView,
    list: Seq<CandidateView>,
    target: Seq<Seq<char>>,
    badge: BadgeView,
    other: BadgeView,
) -> bool {
    exists|p: nat, i: int, j: int|
        #![trigger rule_at_gives(files, list, p, (target, badge), i, j)]
        {
            &&& rule_at_gives(files, list, p, (target, badge), i, j)
            &&& forall|q: nat, k: int, l: int| #[trigger]
                rule_at_gives(files, list, q, (target, other), k, l) ==> p < q || (p == q
                    && path_before(list[i].path, list[k].path))
        }
}

proof fn lemma_given_before(
    files: FilesView,
    list: Seq<CandidateView>,
    target: Seq<Seq<char>>,
    badge: BadgeView,
    other: BadgeView,
)
    requires
        positions_apart(list),
        forall|i: int, j: int|
            0 <= i < j < list.len() ==> path_before(
                #[trigger] list[i].path,
                #[trigger] list[j].path,
            ),
        contributed_before(all_contributions(files, list), target, badge, other),
        badge != other,
    ensures
        given_before(files, list, target, badge, other),
{
    let n = lemma_candidates_bounded(list);
    lemma_all_contributions(files, list, n);
    let all = contributions(files, list, n);
    let a = (target, badge);
    let b = (target, other);
    let x = choose|x: int|
        0 <= x < all.len() && #[trigger] all[x] == (target, badge) && forall|y: int|
            0 <= y <= x ==> #[trigger] all[y] != (target, other);
    let p = lemma_locate_position(files, list, n, x);
    let before = contributions(files, list, p);
    let upto = contributions(files, list, p + 1);
    lemma_contributions_prefix(files, list, p + 1, n);
    lemma_contributions_prefix(files, list, p, n);
    assert(all.take(upto.len() as int)[x] == all[x]);
    let own = from_candidates(files, list, p);
    let y = x - before.len();
    assert(own[y] == a);
    assert(list.take(list.len() as int) =~= list);
    let i = lemma_locate_candidate(files, list, p, list.len() as int, y);
    let few = from_candidates(files, list.take(i), p);
    let more = from_candidates(files, list.take(i + 1), p);
    assert(list.take(i + 1).drop_last() =~= list.take(i));
    assert(list.take(i + 1).last() == list[i]);
    lemma_candidates_prefix(files, list, p, i + 1, list.len() as int);
    lemma_candidates_prefix(files, list, p, i, list.len() as int);
    assert(own.take(more.len() as int)[y] == own[y]);
    let here = from_candidate(files, list[i], p);
    assert(here[y - few.len()] == a);
    assert(here.contains(a));
    lemma_from_rules(files, list[i], list[i].rules, p, a);
    let j = choose|j: int|
        0 <= j < list[i].rules.len() && (#[trigger] list[i].rules[j]).position == p && gives(
            files,
            list[i],
            list[i].rules[j],
            a.0,
        ) && list[i].rules[j].badge == a.1;
    assert(rule_at_gives(files, list, p, a, i, j));
    assert forall|q: nat, k: int, l: int| #[trigger]
        rule_at_gives(files, list, q, b, k, l) implies p < q || (p == q && path_before(
        list[i].path,
        list[k].path,
    )) by {
        if q < p {
            lemma_contributions(files, list, p, b);
            assert(before.contains(b));
            let z = before.index_of(b);
            assert(all.take(before.len() as int)[z] == all[z]);
            assert(all[z] == b);
        } else if q == p && k < i {
            let part = list.take(i);
            assert(part[k] == list[k]);
            lemma_from_candidates(files, part, p, b);
            assert(rule_at_gives(files, part, p, b, k, l));
            assert(few.contains(b));
            let z = few.index_of(b);
            assert(own.take(few.len() as int)[z] == own[z]);
            assert(upto[before.len() + z] == own[z]);
            assert(all.take(upto.len() as int)[before.len() + z] == all[before.len() + z]);
            assert(all[before.len() + z] == b);
        } else if q == p && k == i {
            if j < l {
                assert(list[i].rules[j].position != list[i].rules[l].position);
            } else if l < j {
                assert(list[i].rules[l].position != list[i].rules[j].position);
            }
        }
    }
}

/// Rules whose positions increase.
spec fn increasing_positions(rules: Seq<CompiledView>) -> bool {
    forall|j: int, k: int|
        0 <= j < k < rules.len() ==> (#[trigger] rules[j]).position < (
        #[trigger] rules[k]).position
}

proof fn lemma_marked_increasing(rules: Seq<CompiledView>, marks: Seq<bool>)
    requires
        increasing_positions(rules),
    ensures
        increasing_positions(marked_rules(rules, marks)),
        forall|j: int|
            0 <= j < marked_rules(rules, marks).len() ==> rules.len() > 0 && (
            #[trigger] marked_rules(rules, marks)[j]).position <= rules.last().position,
    decreases rules.len(),
{
    if rules.len() > 0 {
        let init = rules.drop_last();
        assert(increasing_positions(init)) by {
            assert forall|j: int, k: int| 0 <= j < k < init.len() implies (
            #[trigger] init[j]).position < (#[trigger] init[k]).position by {
                assert(rules[j].position < rules[k].position);
            }
        }
        lemma_marked_increasing(init, marks);
        let before = marked_rules(init, marks);
        let now = marked_rules(rules, marks);
        if init.len() > 0 {
            assert(rules[init.len() - 1].position < rules[rules.len() - 1].position);
        }
        assert forall|j: int, k: int| 0 <= j < k < now.len() implies (#[trigger] now[j]).position
            < (#[trigger] now[k]).position by {
            assert(now[j] == before[j]);
            if k < before.len() {
                assert(before[j].position < before[k].position);
            }
        }
        assert forall|j: int| 0 <= j < now.len() implies (#[trigger] now[j]).position
            <= rules.last().position by {
            if j < before.len() {
                assert(before[j].position <= init.last().position);
            }
        }
    }
}

proof fn lemma_positions_apart(
    scopes: Seq<CompiledScopeView>,
    tree: TreeView,
)
    requires
        listing(tree.snapshot.entries),
        forall|i: int| 0 <= i < scopes.len() ==> increasing_positions((#[trigger] scopes[i]).rules),
    ensures
        positions_apart(candidates(scopes, tree.snapshot.id, tree.snapshot.entries)),
{
    let id = tree.snapshot.id;
    let entries = tree.snapshot.entries;
    let list = candidates(scopes, id, entries);
    law_candidates_come_in_path_order(scopes, id, entries);
    assert forall|i: int, j: int, k: int|
        #![trigger list[i].rules[j], list[i].rules[k]]
        0 <= i < list.len() && 0 <= j < k < list[i].rules.len() implies list[i].rules[j].position
        != list[i].rules[k].position by {
        assert(stands_for_entry(scopes, id, entries, list[i]));
        let e = choose|e: int|
            0 <= e < entries.len() && is_candidate(scopes, id, #[trigger] entries[e]) && list[i]
                == candidate_of(scopes, id, entries[e]);
        let rules = rules_at(scopes, id, entries[e].path);
        if exists|s: int| governs(scopes, id, entries[e].path, s) {
            let s = choose|s: int| governs(scopes, id, entries[e].path, s);
            assert(increasing_positions(scopes[s].rules));
        }
        lemma_marked_increasing(rules, name_marks(rules, entries[e].path.last()));
        assert(list[i].rules[j].position < list[i].rules[k].position);
    }
}

/// No list of badges is empty.
pub open spec fn no_empty_lists(badges: BadgesView) -> bool {
    forall|key: PlaceView| #[trigger] badges.contains_key(key) ==> badges[key].len() > 0
}

proof fn lemma_no_empty_lists(
    badges: BadgesView,
    worktree_id: usize,
    list: Seq<ContributionView>,
)
    requires
        no_empty_lists(badges),
    ensures
        no_empty_lists(with_contributions(badges, worktree_id, list)),
    decreases list.len(),
{
    if list.len() > 0 {
        lemma_no_empty_lists(badges, worktree_id, list.drop_last());
    }
}

pub proof fn lemma_run_no_empty_lists(start: RunView, answers: Seq<TreeAnswers>, n: nat)
    requires
        no_empty_lists(start.output.badges),
    ensures
        no_empty_lists(run_upto(start, answers, n).output.badges),
    decreases n,
{
    if n > 0 {
        let last = (n - 1) as nat;
        lemma_run_no_empty_lists(start, answers, last);
        let run = run_upto(start, answers, last);
        if works(run, answers[n - 1]) {
            let after = read(run, answers[n - 1]);
            lemma_all_read_frame(
                begun(run, answers[n - 1]),
                to_read(run, answers[n - 1]),
                answers[n - 1].reads,
            );
            lemma_no_empty_lists(
                after.output.badges,
                after.id(),
                all_contributions(after.cache().data.files, after.candidates()),
            );
        }
    }
}

/// `shown` is the list of a path, for what is known of the files for which rules hold: it is not
/// empty, holds each badge that some rule gives there and each once, and is ordered by the rules
/// that give them first, and for one rule by the paths of the files.
pub open spec fn well_ordered(
    files: FilesView,
    list: Seq<CandidateView>,
    target: Seq<Seq<char>>,
    shown: Seq<BadgeView>,
) -> bool {
    &&& shown.len() > 0
    &&& shown.no_duplicates()
    &&& forall|badge: BadgeView| #[trigger]
        shown.contains(badge) <==> some_rule_gives(files, list, (target, badge))
    &&& forall|a: int, b: int|
        0 <= a < b < shown.len() ==> given_before(
            files,
            list,
            target,
            #[trigger] shown[a],
            #[trigger] shown[b],
        )
}

proof fn lemma_shown_well_ordered(
    badges: BadgesView,
    worktree_id: usize,
    files: FilesView,
    list: Seq<CandidateView>,
    target: Seq<Seq<char>>,
)
    requires
        positions_apart(list),
        forall|i: int, j: int|
            0 <= i < j < list.len() ==> path_before(
                #[trigger] list[i].path,
                #[trigger] list[j].path,
            ),
        !badges.contains_key(PlaceView { worktree_id, path: target }),
        badges_at(
            with_contributions(badges, worktree_id, all_contributions(files, list)),
            PlaceView { worktree_id, path: target },
        ).len() > 0,
    ensures
        well_ordered(
            files,
            list,
            target,
            badges_at(
                with_contributions(badges, worktree_id, all_contributions(files, list)),
                PlaceView { worktree_id, path: target },
            ),
        ),
{
    let all = all_contributions(files, list);
    let shown = badges_at(
        with_contributions(badges, worktree_id, all),
        PlaceView { worktree_id, path: target },
    );
    law_badges_are_shown_once_and_in_order(badges, worktree_id, all, target);
    assert forall|badge: BadgeView| #[trigger] shown.contains(badge) <==> some_rule_gives(
        files,
        list,
        (target, badge),
    ) by {
        law_contributed_where_a_rule_gives(files, list, (target, badge));
    }
    assert forall|a: int, b: int| 0 <= a < b < shown.len() implies given_before(
        files,
        list,
        target,
        #[trigger] shown[a],
        #[trigger] shown[b],
    ) by {
        assert(contributed_before(all, target, shown[a], shown[b]));
        assert(shown[a] != shown[b]);
        lemma_given_before(files, list, target, shown[a], shown[b]);
    }
}

/// The list of each path in the output of a run is well ordered, for what the caches know after
/// the run, whatever order the reads came in.
pub proof fn law_output_is_well_ordered(
    caches: CachesView,
    request: RequestView,
    icons: Map<Seq<char>, Seq<char>>,
    answers: Seq<TreeAnswers>,
    key: PlaceView,
) -> (n: int)
    requires
        distinct_trees(request.trees),
        forall|i: int|
            0 <= i < request.trees.len() ==> listing(
                (#[trigger] request.trees[i]).snapshot.entries,
            ),
        forall|i: int|
            0 <= i < request.scopes.len() ==> (#[trigger] request.scopes[i]).rules.len()
                <= usize::MAX,
        whole_run(started(caches, request, icons), answers).output.badges.contains_key(key),
    ensures
        0 <= n < request.trees.len(),
        request.trees[n].snapshot.id == key.worktree_id,
        ({
            let start = started(caches, request, icons);
            let done = whole_run(start, answers);
            well_ordered(
                done.caches[key.worktree_id].data.files,
                candidates(start.scopes, key.worktree_id, request.trees[n].snapshot.entries),
                key.path,
                done.output.badges[key],
            )
        }),
{
    let start = started(caches, request, icons);
    let id = key.worktree_id;
    let all = request.trees.len();
    let done = whole_run(start, answers);
    lemma_run_no_empty_lists(start, answers, all);
    assert(badges_at(done.output.badges, key).len() > 0);
    if !has_tree(request.trees, id) {
        assert forall|k: int| 0 <= k < all implies (#[trigger] start.trees[start.at
            + k]).snapshot.id != id by {
            assert(request.trees[k].snapshot.id != id || has_tree(request.trees, id));
        }
        lemma_run_apart(start, answers, 0, all, id);
        assert(badges_at(start.output.badges, key).len() == 0);
        assert(false);
    }
    let n = choose|n: int| 0 <= n < all && (#[trigger] request.trees[n]).snapshot.id == id;
    assert forall|k: int| 0 <= k < n implies (#[trigger] start.trees[start.at + k]).snapshot.id
        != id by {
        assert(request.trees[k].snapshot.id != request.trees[n].snapshot.id);
    }
    assert forall|k: int| n + 1 <= k < all implies (#[trigger] start.trees[start.at
        + k]).snapshot.id != id by {
        assert(request.trees[n].snapshot.id != request.trees[k].snapshot.id);
    }
    lemma_run_apart(start, answers, 0, n as nat, id);
    lemma_run_apart(start, answers, (n + 1) as nat, all, id);
    lemma_run_frame(start, answers, n as nat);
    lemma_run_no_empty_lists(start, answers, n as nat);
    let run = run_upto(start, answers, n as nat);
    let now = run_upto(start, answers, (n + 1) as nat);
    assert(badges_at(start.output.badges, key).len() == 0);
    assert(badges_at(run.output.badges, key).len() == 0);
    assert(badges_at(now.output.badges, key).len() > 0);
    assert(works(run, answers[n]));
    let after = read(run, answers[n]);
    lemma_all_read_frame(begun(run, answers[n]), to_read(run, answers[n]), answers[n].reads);
    let list = run.candidates();
    let files = after.cache().data.files;
    assert(after.output.badges == run.output.badges);
    assert(after.candidates() == list);
    assert forall|i: int| 0 <= i < start.scopes.len() implies increasing_positions(
        (#[trigger] start.scopes[i]).rules,
    ) by {
        assert(request.scopes[i].rules.len() <= usize::MAX);
        law_usable_rules_keep_their_order(request.scopes[i].rules, icons);
    }
    assert(listing(request.trees[n].snapshot.entries));
    lemma_positions_apart(start.scopes, request.trees[n]);
    law_candidates_come_in_path_order(start.scopes, id, request.trees[n].snapshot.entries);
    assert(!run.output.badges.contains_key(key));
    assert(key == PlaceView { worktree_id: id, path: key.path });
    lemma_shown_well_ordered(run.output.badges, id, files, list, key.path);
    n
}

proof fn lemma_scopes_without_rules(scopes: Seq<ScopeView>, trees: Seq<TreeView>)
    requires
        no_rules(scopes),
    ensures
        no_rules(scopes_within(scopes, trees)),
    decreases scopes.len(),
{
    if scopes.len() > 0 {
        let init = scopes.drop_last();
        assert forall|i: int| 0 <= i < init.len() implies (#[trigger] init[i]).rules.len()
            == 0 by {
            assert(scopes[i].rules.len() == 0);
        }
        lemma_scopes_without_rules(init, trees);
        assert(scopes[scopes.len() - 1].rules.len() == 0);
    }
}

proof fn lemma_no_reports(scopes: Seq<ScopeView>, icons: Map<Seq<char>, Seq<char>>)
    requires
        no_rules(scopes),
    ensures
        scope_reports(scopes, icons) == Seq::<Seq<char>>::empty(),
    decreases scopes.len(),
{
    if scopes.len() > 0 {
        let init = scopes.drop_last();
        assert forall|i: int| 0 <= i < init.len() implies (#[trigger] init[i]).rules.len()
            == 0 by {
            assert(scopes[i].rules.len() == 0);
        }
        lemma_no_reports(init, icons);
        assert(scopes[scopes.len() - 1].rules.len() == 0);
        assert(scope_reports(scopes, icons) =~= Seq::<Seq<char>>::empty());
    }
}

proof fn lemma_run_without_rules(start: RunView, answers: Seq<TreeAnswers>, n: nat)
    requires
        forall|id: usize| !#[trigger] has_rules(start.scopes, id),
    ensures
        run_upto(start, answers, n) == (RunView { at: start.at + n, ..start }),
        next_step(run_upto(start, answers, n)) == next_step(start),
    decreases n,
{
    if n > 0 {
        lemma_run_without_rules(start, answers, (n - 1) as nat);
        let run = run_upto(start, answers, (n - 1) as nat);
        assert(!has_rules(run.scopes, run.id()));
        if run.at >= run.trees.len() {
            assert(next_step(run.advanced()) == next_step(run));
        }
    }
}

/// Once there were requests, one is also made when no rules are left. A run over it, also where it
/// takes the place of `earlier` ones, asks nothing of the file system or the database and gives
/// nothing; published with no newer request in between, it leaves no badges.
pub proof fn law_removing_all_rules_clears_badges(
    view: FileBadgesView,
    trees: Seq<VisibleView>,
    changes: ChangesView,
    earlier: Seq<ChangeView>,
    caches: CachesView,
    icons: Map<Seq<char>, Seq<char>>,
    answers: Seq<TreeAnswers>,
    later: FileBadgesView,
)
    requires
        no_rules(view.scopes),
        0 < view.generation < usize::MAX,
        later.generation == refreshed(view, trees, changes).0.generation,
    ensures
        refreshed(view, trees, changes).1 is Some,
        ({
            let asked = refreshed(view, trees, changes).1->0;
            let request = RequestView { changes: earlier + asked.changes, ..asked };
            let start = started(caches, request, icons);
            let nothing = OutputView { badges: Map::empty(), errors: Seq::empty() };
            &&& next_step(start) == StepView::Done(start.caches, nothing)
            &&& whole_run(start, answers).output == nothing
            &&& after_publish(later, request.generation, nothing).0.badges == Map::<
                PlaceView,
                Seq<BadgeView>,
            >::empty()
        }),
{
    let asked = refreshed(view, trees, changes).1->0;
    let request = RequestView { changes: earlier + asked.changes, ..asked };
    let start = started(caches, request, icons);
    lemma_scopes_without_rules(view.scopes, request.trees);
    lemma_no_reports(request.scopes, icons);
    assert forall|id: usize| !#[trigger] has_rules(start.scopes, id) by {
        assert forall|i: int| 0 <= i < start.scopes.len() implies (
        #[trigger] start.scopes[i]).rules.len() == 0 by {
            assert(request.scopes[i].rules.len() == 0);
        }
    }
    lemma_run_without_rules(start, answers, request.trees.len());
}

} // verus!
