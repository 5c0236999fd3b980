//! In which order the badges of a path are shown, told from the settings alone.
use vstd::prelude::*;

use crate::badge::BadgeView;
use crate::badge::ScopeView;
use crate::badge_laws::law_candidates_come_in_path_order;
use crate::badge_laws::rule_at_gives;
use crate::badge_laws::stands_for_entry;
use crate::badges::PlaceView;
use crate::cache::FilesView;
use crate::cache::TreeView;
use crate::earning_laws::earns_by;
use crate::earning_laws::law_badges_are_shown_where_they_are_earned;
use crate::earning_laws::lemma_asked_for;
use crate::earning_laws::lemma_can_be_used;
use crate::earning_laws::lemma_in_force;
use crate::earning_laws::lemma_names_badge;
use crate::earning_laws::lemma_rules_in_force;
use crate::earning_laws::lemma_usable;
use crate::output_laws::given_before;
use crate::output_laws::law_output_is_well_ordered;
use crate::output_laws::valid_tree;
use crate::plan::candidate_of;
use crate::plan::candidates;
use crate::plan::is_candidate;
use crate::rel_path::path_before;
use crate::rules::compiled_rule;
use crate::rules::governs;
use crate::rules::texts;
use crate::rules::usable_scopes;
use crate::rules::CompiledView;
use crate::run::distinct_trees;
use crate::run::lemma_run_frame;
use crate::run::run_upto;
use crate::run::to_read;
use crate::run::whole_run;
use crate::run::with_open_cache;
use crate::run::works;
use crate::run::TreeAnswers;
use crate::run_laws::settled;
use crate::truth_laws::digests_apart;
use crate::truth_laws::law_badges_are_true;
use crate::truth_laws::lemma_candidate_listed;
use crate::truth_laws::lemma_gives_where_it_matches;
use crate::truth_laws::lemma_rules_for;
use crate::truth_laws::true_of;
use crate::truth_laws::truly_read;
use crate::truth_laws::TextsView;
use crate::worker::needs_cache;
use crate::worker::started;
use crate::worker::CachesView;
use crate::worker::RequestView;

verus! {

/// Some file earns `badge` for the path by an earlier rule than any by which some file earns
/// `other` there, or by the same rule and with a path before that of any such file.
pub open spec fn earned_before(
    scopes: Seq<ScopeView>,
    icons: Map<Seq<char>, Seq<char>>,
    tree: TreeView,
    texts: TextsView,
    target: Seq<Seq<char>>,
    badge: BadgeView,
    other: BadgeView,
) -> bool {
    exists|k: int, s: int, r: int|
        #![trigger earns_here(scopes, icons, tree, texts, target, badge, k, s, r)]
        earns_here(scopes, icons, tree, texts, target, badge, k, s, r) && (forall|
            l: int,
            t: int,
            q: int,
        | #[trigger]
            earns_here(scopes, icons, tree, texts, target, other, l, t, q) ==> r < q || (r == q
                && path_before(
                tree.snapshot.entries[k].path,
                tree.snapshot.entries[l].path,
            )))
}

/// The file at `k` of the worktree earns the badge for the path by the rule at `r` of the settings
/// at `s`.
pub open spec fn earns_here(
    scopes: Seq<ScopeView>,
    icons: Map<Seq<char>, Seq<char>>,
    tree: TreeView,
    texts: TextsView,
    target: Seq<Seq<char>>,
    badge: BadgeView,
    k: int,
    s: int,
    r: int,
) -> bool {
    0 <= k < tree.snapshot.entries.len() && earns_by(
        scopes,
        icons,
        tree.snapshot.id,
        tree.snapshot.entries[k],
        texts(tree.snapshot.entries[k].path),
        target,
        badge,
        s,
        r,
    )
}

/// A rule that gives a badge for a file is one by which the file earns it.
proof fn lemma_given_is_earned(
    scopes: Seq<ScopeView>,
    icons: Map<Seq<char>, Seq<char>>,
    tree: TreeView,
    texts: TextsView,
    files: FilesView,
    target: Seq<Seq<char>>,
    badge: BadgeView,
    p: nat,
    i: int,
    j: int,
) -> (at: (int, int))
    requires
        valid_tree(tree),
        settled(
            files,
            candidates(usable_scopes(scopes, icons), tree.snapshot.id, tree.snapshot.entries),
        ),
        true_of(
            files,
            candidates(usable_scopes(scopes, icons), tree.snapshot.id, tree.snapshot.entries),
            texts,
        ),
        forall|s: int|
            0 <= s < scopes.len() ==> (#[trigger] scopes[s]).rules.len() <= usize::MAX,
        rule_at_gives(
            files,
            candidates(usable_scopes(scopes, icons), tree.snapshot.id, tree.snapshot.entries),
            p,
            (target, badge),
            i,
            j,
        ),
    ensures
        earns_here(scopes, icons, tree, texts, target, badge, at.0, at.1, p as int),
        tree.snapshot.entries[at.0].path == candidates(
            usable_scopes(scopes, icons),
            tree.snapshot.id,
            tree.snapshot.entries,
        )[i].path,
{
    let id = tree.snapshot.id;
    let entries = tree.snapshot.entries;
    let views = usable_scopes(scopes, icons);
    let list = candidates(views, id, entries);
    let c = list[i].rules[j];
    law_candidates_come_in_path_order(views, id, entries);
    lemma_gives_where_it_matches(files, list, texts, target, i, j);
    assert(stands_for_entry(views, id, entries, list[i]));
    let k = choose|k: int|
        0 <= k < entries.len() && is_candidate(views, id, #[trigger] entries[k]) && list[i]
            == candidate_of(views, id, entries[k]);
    let path = entries[k].path;
    assert(list[i].rules.contains(c));
    lemma_rules_for(views, id, path, c);
    let s = choose|s: int| governs(views, id, path, s);
    assert(governs(views, id, path, s));
    lemma_in_force(scopes, icons, id, path, s);
    lemma_usable(scopes[s].rules, icons, c);
    let r = choose|r: int|
        0 <= r < scopes[s].rules.len() && compiled_rule(
            #[trigger] scopes[s].rules[r],
            icons,
            r as usize,
        ) == Ok::<CompiledView, Seq<char>>(c);
    let rule = scopes[s].rules[r];
    lemma_can_be_used(rule, icons, r as usize);
    lemma_names_badge(rule, icons, badge);
    assert(path.take(path.len() - rule.icon_level) =~= path.subrange(
        0,
        path.len() - rule.icon_level,
    ));
    assert(c.position == r as usize);
    assert(p == r);
    (k, s)
}

/// A rule by which a file earns a badge gives it for that file.
proof fn lemma_earned_is_given(
    scopes: Seq<ScopeView>,
    icons: Map<Seq<char>, Seq<char>>,
    tree: TreeView,
    texts: TextsView,
    files: FilesView,
    target: Seq<Seq<char>>,
    badge: BadgeView,
    k: int,
    s: int,
    r: int,
) -> (at: (int, int))
    requires
        settled(
            files,
            candidates(usable_scopes(scopes, icons), tree.snapshot.id, tree.snapshot.entries),
        ),
        true_of(
            files,
            candidates(usable_scopes(scopes, icons), tree.snapshot.id, tree.snapshot.entries),
            texts,
        ),
        forall|s: int|
            0 <= s < scopes.len() ==> (#[trigger] scopes[s]).rules.len() <= usize::MAX,
        earns_here(scopes, icons, tree, texts, target, badge, k, s, r),
    ensures
        rule_at_gives(
            files,
            candidates(usable_scopes(scopes, icons), tree.snapshot.id, tree.snapshot.entries),
            r as nat,
            (target, badge),
            at.0,
            at.1,
        ),
        candidates(
            usable_scopes(scopes, icons),
            tree.snapshot.id,
            tree.snapshot.entries,
        )[at.0].path == tree.snapshot.entries[k].path,
{
    let id = tree.snapshot.id;
    let entries = tree.snapshot.entries;
    let views = usable_scopes(scopes, icons);
    let list = candidates(views, id, entries);
    let path = entries[k].path;
    let rule = scopes[s].rules[r];
    lemma_rules_in_force(scopes, icons, id, path, s);
    lemma_can_be_used(rule, icons, r as usize);
    lemma_names_badge(rule, icons, badge);
    let c = compiled_rule(rule, icons, r as usize)->Ok_0;
    lemma_usable(scopes[s].rules, icons, c);
    lemma_rules_for(views, id, path, c);
    let own = candidate_of(views, id, entries[k]);
    assert(own.rules.contains(c));
    lemma_candidate_listed(views, id, entries, k);
    let i = list.index_of(own);
    let j = own.rules.index_of(c);
    lemma_gives_where_it_matches(files, list, texts, target, i, j);
    assert(path.take(target.len() as int) =~= target);
    (i, j)
}

/// The badges of a path come in the order of the rules by which they are earned, and those that one
/// rule gives in the order of the paths of the files, as far as the run is true of the files: of
/// two badges, the one that is shown first is earned before the other.
pub proof fn law_badges_come_in_the_order_of_their_rules(
    caches: CachesView,
    request: RequestView,
    icons: Map<Seq<char>, Seq<char>>,
    answers: Seq<TreeAnswers>,
    n: int,
    texts: TextsView,
    target: Seq<Seq<char>>,
    a: int,
    b: int,
)
    requires
        distinct_trees(request.trees),
        0 <= n < request.trees.len(),
        forall|i: int|
            0 <= i < request.trees.len() ==> valid_tree(#[trigger] request.trees[i]),
        forall|s: int|
            0 <= s < request.scopes.len() ==> digests_apart((#[trigger] request.scopes[s]).rules),
        forall|s: int|
            0 <= s < request.scopes.len() ==> (#[trigger] request.scopes[s]).rules.len()
                <= usize::MAX,
        ({
            let run = run_upto(started(caches, request, icons), answers, n as nat);
            &&& needs_cache(run.caches, run.tree()) ==> answers[n].opened is Ok
            &&& true_of(
                with_open_cache(run, answers[n].opened).cache().data.files,
                run.candidates(),
                texts,
            )
            &&& truly_read(answers[n].reads, to_read(run, answers[n]), texts)
        }),
        ({
            let shown = whole_run(started(caches, request, icons), answers).output.badges;
            let key = PlaceView { worktree_id: request.trees[n].snapshot.id, path: target };
            shown.contains_key(key) && 0 <= a < b < shown[key].len()
        }),
    ensures
        ({
            let shown = whole_run(started(caches, request, icons), answers).output.badges;
            let key = PlaceView { worktree_id: request.trees[n].snapshot.id, path: target };
            earned_before(
                request.scopes,
                icons,
                request.trees[n],
                texts,
                target,
                shown[key][a],
                shown[key][b],
            )
        }),
{
    let start = started(caches, request, icons);
    let tree = request.trees[n];
    let id = tree.snapshot.id;
    let run = run_upto(start, answers, n as nat);
    let done = whole_run(start, answers);
    let key = PlaceView { worktree_id: id, path: target };
    let list = done.output.badges[key];
    lemma_run_frame(start, answers, n as nat);
    assert(list.contains(list[a]));
    law_badges_are_shown_where_they_are_earned(
        caches,
        request,
        icons,
        answers,
        n,
        texts,
        target,
        list[a],
    );
    let (k0, s0, r0) = choose|k: int, s: int, r: int|
        0 <= k < tree.snapshot.entries.len() && #[trigger] earns_by(
            request.scopes,
            icons,
            id,
            tree.snapshot.entries[k],
            texts(tree.snapshot.entries[k].path),
            target,
            list[a],
            s,
            r,
        );
    lemma_asked_for(request.scopes, icons, id, tree.snapshot.entries[k0], s0, r0);
    assert(works(run, answers[n]));
    law_badges_are_true(caches, request, icons, answers, n, texts);
    let m = law_output_is_well_ordered(caches, request, icons, answers, key);
    assert(m == n) by {
        if m < n {
            assert(request.trees[m].snapshot.id != request.trees[n].snapshot.id);
        }
        if n < m {
            assert(request.trees[n].snapshot.id != request.trees[m].snapshot.id);
        }
    }
    let files = done.caches[id].data.files;
    let found = candidates(start.scopes, id, tree.snapshot.entries);
    assert(given_before(files, found, target, list[a], list[b]));
    let (p, i, j) = choose|p: nat, i: int, j: int|
        #![trigger rule_at_gives(files, found, p, (target, list[a]), i, j)]
        {
            &&& rule_at_gives(files, found, p, (target, list[a]), i, j)
            &&& forall|q: nat, k: int, l: int| #[trigger]
                rule_at_gives(files, found, q, (target, list[b]), k, l) ==> p < q || (p == q
                    && path_before(found[i].path, found[k].path))
        };
    let (k, s) = lemma_given_is_earned(
        request.scopes,
        icons,
        tree,
        texts,
        files,
        target,
        list[a],
        p,
        i,
        j,
    );
    assert forall|l: int, t: int, q: int| #[trigger]
        earns_here(request.scopes, icons, tree, texts, target, list[b], l, t, q) implies p < q || (p
        == q && path_before(tree.snapshot.entries[k].path, tree.snapshot.entries[l].path)) by {
        let (i2, j2) = lemma_earned_is_given(
            request.scopes,
            icons,
            tree,
            texts,
            files,
            target,
            list[b],
            l,
            t,
            q,
        );
        assert(rule_at_gives(files, found, q as nat, (target, list[b]), i2, j2));
    }
    assert(earns_here(request.scopes, icons, tree, texts, target, list[a], k, s, p as int));
}

} // verus!
