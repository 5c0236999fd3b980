//! Which files earn which badges, told from the settings alone, and that a run shows just these.
use vstd::prelude::*;

use crate::badge::badge_of_rule;
use crate::badge::BadgeView;
use crate::badge::IconSet;
use crate::badge::RuleError;
use crate::badge::RuleScope;
use crate::badge::RuleView;
use crate::badge::ScopeView;
use crate::badges::badges_at;
use crate::badges::PlaceView;
use crate::cache::CacheRead;
use crate::cache::CacheReadView;
use crate::cache::CacheView;
use crate::cache::CachedFileView;
use crate::cache::TreeView;
use crate::group_state_laws::why_refused;
use crate::output_laws::valid_tree;
use crate::patterns::glob_matches;
use crate::patterns::regex_error;
use crate::patterns::regex_matches;
use crate::plan::is_candidate;
use crate::plan::known;
use crate::rules::compiled_rule;
use crate::rules::governs;
use crate::rules::has_rules;
use crate::rules::holds_at;
use crate::rules::no_nearer;
use crate::rules::rules_at;
use crate::rules::rules_for;
use crate::rules::texts;
use crate::rules::usable_rules;
use crate::rules::usable_scope;
use crate::rules::usable_scopes;
use crate::rules::CompiledView;
use crate::run::distinct_trees;
use crate::run::lemma_run_apart;
use crate::run::lemma_run_frame;
use crate::run::run_upto;
use crate::run::to_read;
use crate::run::whole_run;
use crate::run::with_open_cache;
use crate::run::works;
use crate::run::TreeAnswers;
use crate::settings_laws::lemma_has_rules;
use crate::text::blank;
use crate::text::white_space;
use crate::truth_laws::digests_apart;
use crate::truth_laws::earned;
use crate::truth_laws::earns;
use crate::truth_laws::law_badges_are_true;
use crate::truth_laws::lemma_rules_for;
use crate::truth_laws::true_for;
use crate::truth_laws::true_of;
use crate::truth_laws::truly_read;
use crate::truth_laws::TextsView;
use crate::worker::collected;
use crate::worker::needs_cache;
use crate::worker::next_step;
use crate::worker::opened_view;
use crate::worker::started;
use crate::worker::CachesView;
use crate::worker::OpenTree;
use crate::worker::ReadTree;
use crate::worker::Request;
use crate::worker::RequestView;
use crate::worker::RunView;
use crate::worker::Step;
use crate::worker::StepView;
use crate::worker::Worker;
use crate::worktree::EntryKind;
use crate::worktree::EntryView;

verus! {

/// The settings reach the path: the global ones reach all, and those of a worktree's directory
/// what is at or below that directory.
pub open spec fn reaches(scope: ScopeView, worktree_id: usize, path: Seq<Seq<char>>) -> bool {
    scope.worktree_id is None || (scope.worktree_id == Some(worktree_id)
        && scope.path.is_prefix_of(path))
}

/// The settings at `s` are in force at the path: of those that reach it, local ones come before
/// global ones, then deeper ones before those further up, then later ones before earlier ones.
pub open spec fn in_force(
    scopes: Seq<ScopeView>,
    worktree_id: usize,
    path: Seq<Seq<char>>,
    s: int,
) -> bool {
    &&& 0 <= s < scopes.len()
    &&& reaches(scopes[s], worktree_id, path)
    &&& forall|t: int|
        0 <= t < scopes.len() && reaches(#[trigger] scopes[t], worktree_id, path) && t != s ==> {
            ||| scopes[s].worktree_id is Some && scopes[t].worktree_id is None
            ||| (scopes[s].worktree_id is Some == scopes[t].worktree_id is Some
                && scopes[t].path.len() < scopes[s].path.len())
            ||| (scopes[s].worktree_id is Some == scopes[t].worktree_id is Some
                && scopes[t].path.len() == scopes[s].path.len() && t < s)
        }
}

/// White space in the sense of Unicode.
pub open spec fn is_space(c: char) -> bool {
    let u = c as u32;
    0x9 <= u <= 0xd || u == 0x20 || u == 0x85 || u == 0xa0 || u == 0x1680 || 0x2000 <= u <= 0x200a
        || u == 0x2028 || u == 0x2029 || u == 0x202f || u == 0x205f || u == 0x3000
}

/// The rule names this badge: an emoji that is not blank, or a built-in icon, and not both.
pub open spec fn names_badge(
    rule: RuleView,
    icons: Map<Seq<char>, Seq<char>>,
    badge: BadgeView,
) -> bool {
    match badge {
        BadgeView::Emoji(emoji) => {
            &&& rule.emoji == Some(emoji)
            &&& rule.icon is None
            &&& exists|i: int| 0 <= i < emoji.len() && !is_space(#[trigger] emoji[i])
        },
        BadgeView::Icon(name) => {
            &&& rule.emoji is None
            &&& rule.icon is Some
            &&& icons.contains_key(rule.icon->0)
            &&& icons[rule.icon->0] == name
        },
    }
}

/// The rule can be used: its glob and its expression can be compiled, and it names a badge.
pub open spec fn can_be_used(rule: RuleView, icons: Map<Seq<char>, Seq<char>>) -> bool {
    &&& why_refused(rule.filename) is None
    &&& regex_error(rule.content_regex) is None
    &&& exists|badge: BadgeView| #[trigger] names_badge(rule, icons, badge)
}

/// A file that is not ignored, no pipe and at most 2 MiB large.
pub open spec fn can_be_read(e: EntryView) -> bool {
    &&& e.kind == EntryKind::File
    &&& !e.is_ignored
    &&& !e.is_fifo
    &&& e.size <= 2097152
    &&& e.path.len() > 0
}

/// The rule at `r` of the settings at `s`, which are in force at the file, asks for its text.
pub open spec fn asks_for(
    scopes: Seq<ScopeView>,
    icons: Map<Seq<char>, Seq<char>>,
    worktree_id: usize,
    e: EntryView,
    s: int,
    r: int,
) -> bool {
    &&& can_be_read(e)
    &&& in_force(scopes, worktree_id, e.path, s)
    &&& 0 <= r < scopes[s].rules.len()
    &&& can_be_used(scopes[s].rules[r], icons)
    &&& glob_matches(scopes[s].rules[r].filename, e.path.last())
}

/// The file earns the badge for the path `target` by the rule at `r` of the settings at `s`: they
/// are in force, the rule names the badge, its glob matches the name and its expression the text
/// of the file, and `target` is as many levels above the file as the rule says.
pub open spec fn earns_by(
    scopes: Seq<ScopeView>,
    icons: Map<Seq<char>, Seq<char>>,
    worktree_id: usize,
    e: EntryView,
    text: Option<Seq<char>>,
    target: Seq<Seq<char>>,
    badge: BadgeView,
    s: int,
    r: int,
) -> bool {
    let rule = scopes[s].rules[r];
    &&& asks_for(scopes, icons, worktree_id, e, s, r)
    &&& names_badge(rule, icons, badge)
    &&& text is Some
    &&& regex_matches(rule.content_regex, text->0)
    &&& target.len() + rule.icon_level == e.path.len()
    &&& target.is_prefix_of(e.path)
}

/// Some file of the worktree earns the badge for the path `target`.
pub open spec fn is_earned(
    scopes: Seq<ScopeView>,
    icons: Map<Seq<char>, Seq<char>>,
    tree: TreeView,
    texts: TextsView,
    target: Seq<Seq<char>>,
    badge: BadgeView,
) -> bool {
    exists|k: int, s: int, r: int|
        0 <= k < tree.snapshot.entries.len() && #[trigger] earns_by(
            scopes,
            icons,
            tree.snapshot.id,
            tree.snapshot.entries[k],
            texts(tree.snapshot.entries[k].path),
            target,
            badge,
            s,
            r,
        )
}

proof fn lemma_reaches(
    scope: ScopeView,
    icons: Map<Seq<char>, Seq<char>>,
    worktree_id: usize,
    path: Seq<Seq<char>>,
)
    ensures
        reaches(scope, worktree_id, path) == holds_at(
            usable_scope(scope, icons),
            worktree_id,
            path,
        ),
{
    if scope.path.len() <= path.len() {
        assert(path.take(scope.path.len() as int) == path.subrange(0, scope.path.len() as int));
    }
}

pub proof fn lemma_in_force(
    scopes: Seq<ScopeView>,
    icons: Map<Seq<char>, Seq<char>>,
    worktree_id: usize,
    path: Seq<Seq<char>>,
    s: int,
)
    ensures
        in_force(scopes, worktree_id, path, s) == governs(
            usable_scopes(scopes, icons),
            worktree_id,
            path,
            s,
        ),
{
    let views = usable_scopes(scopes, icons);
    assert forall|t: int| 0 <= t < scopes.len() implies reaches(
        #[trigger] scopes[t],
        worktree_id,
        path,
    ) == holds_at(views[t], worktree_id, path) by {
        lemma_reaches(scopes[t], icons, worktree_id, path);
    }
    if in_force(scopes, worktree_id, path, s) {
        assert forall|j: int|
            0 <= j < views.len() && holds_at(#[trigger] views[j], worktree_id, path) implies
            no_nearer(views[j], views[s]) && (j > s ==> !no_nearer(views[s], views[j])) by {
            assert(reaches(scopes[j], worktree_id, path));
        }
    }
    if governs(views, worktree_id, path, s) {
        assert forall|t: int|
            0 <= t < scopes.len() && reaches(#[trigger] scopes[t], worktree_id, path) && t
                != s implies {
            ||| scopes[s].worktree_id is Some && scopes[t].worktree_id is None
            ||| (scopes[s].worktree_id is Some == scopes[t].worktree_id is Some
                && scopes[t].path.len() < scopes[s].path.len())
            ||| (scopes[s].worktree_id is Some == scopes[t].worktree_id is Some
                && scopes[t].path.len() == scopes[s].path.len() && t < s)
        } by {
            assert(holds_at(views[t], worktree_id, path));
            assert(no_nearer(views[t], views[s]));
        }
    }
}

pub proof fn lemma_names_badge(
    rule: RuleView,
    icons: Map<Seq<char>, Seq<char>>,
    badge: BadgeView,
)
    ensures
        names_badge(rule, icons, badge) <==> badge_of_rule(rule, icons) == Ok::<
            BadgeView,
            RuleError,
        >(badge),
{
    assert forall|c: char| is_space(c) == #[trigger] white_space(c) by {}
    if rule.emoji is Some {
        let emoji = rule.emoji->0;
        if !blank(emoji) {
            let i = choose|i: int| 0 <= i < emoji.len() && !white_space(#[trigger] emoji[i]);
            assert(!is_space(emoji[i]));
        }
        if exists|i: int| 0 <= i < emoji.len() && !is_space(#[trigger] emoji[i]) {
            let i = choose|i: int| 0 <= i < emoji.len() && !is_space(#[trigger] emoji[i]);
            assert(!white_space(emoji[i]));
        }
    }
}

pub proof fn lemma_can_be_used(
    rule: RuleView,
    icons: Map<Seq<char>, Seq<char>>,
    position: usize,
)
    ensures
        can_be_used(rule, icons) <==> compiled_rule(rule, icons, position) is Ok,
{
    if can_be_used(rule, icons) {
        let badge = choose|badge: BadgeView| #[trigger] names_badge(rule, icons, badge);
        lemma_names_badge(rule, icons, badge);
    }
    if compiled_rule(rule, icons, position) is Ok {
        let badge = badge_of_rule(rule, icons)->Ok_0;
        lemma_names_badge(rule, icons, badge);
        assert(names_badge(rule, icons, badge));
    }
}

/// The rules that can be used are those of the settings.
pub proof fn lemma_usable(rules: Seq<RuleView>, icons: Map<Seq<char>, Seq<char>>, c: CompiledView)
    ensures
        usable_rules(rules, icons).contains(c) <==> exists|r: int|
            0 <= r < rules.len() && compiled_rule(#[trigger] rules[r], icons, r as usize) == Ok::<
                CompiledView,
                Seq<char>,
            >(c),
    decreases rules.len(),
{
    if rules.len() > 0 {
        let init = rules.drop_last();
        let last = rules.len() - 1;
        lemma_usable(init, icons, c);
        let before = usable_rules(init, icons);
        let now = usable_rules(rules, icons);
        if now.contains(c) {
            let k = now.index_of(c);
            if k < before.len() {
                assert(before[k] == c);
                let r = choose|r: int|
                    0 <= r < init.len() && compiled_rule(#[trigger] init[r], icons, r as usize)
                        == Ok::<CompiledView, Seq<char>>(c);
                assert(rules[r] == init[r]);
            } else {
                assert(compiled_rule(rules[last], icons, last as usize) == Ok::<
                    CompiledView,
                    Seq<char>,
                >(c));
            }
        }
        if exists|r: int|
            0 <= r < rules.len() && compiled_rule(#[trigger] rules[r], icons, r as usize) == Ok::<
                CompiledView,
                Seq<char>,
            >(c) {
            let r = choose|r: int|
                0 <= r < rules.len() && compiled_rule(#[trigger] rules[r], icons, r as usize)
                    == Ok::<CompiledView, Seq<char>>(c);
            if r < last {
                assert(init[r] == rules[r]);
                assert(now[before.index_of(c)] == c);
            } else {
                assert(now[before.len() as int] == c);
            }
        }
    }
}

pub proof fn lemma_rules_in_force(
    scopes: Seq<ScopeView>,
    icons: Map<Seq<char>, Seq<char>>,
    worktree_id: usize,
    path: Seq<Seq<char>>,
    s: int,
)
    requires
        in_force(scopes, worktree_id, path, s),
    ensures
        rules_at(usable_scopes(scopes, icons), worktree_id, path) == usable_rules(
            scopes[s].rules,
            icons,
        ),
{
    let views = usable_scopes(scopes, icons);
    lemma_in_force(scopes, icons, worktree_id, path, s);
    assert(governs(views, worktree_id, path, s));
    let i = choose|i: int| governs(views, worktree_id, path, i);
    assert(governs(views, worktree_id, path, i));
    assert(no_nearer(views[i], views[s]) && no_nearer(views[s], views[i]));
    assert(i == s);
}

proof fn lemma_earned(
    scopes: Seq<ScopeView>,
    icons: Map<Seq<char>, Seq<char>>,
    tree: TreeView,
    texts: TextsView,
    target: Seq<Seq<char>>,
    badge: BadgeView,
)
    ensures
        is_earned(scopes, icons, tree, texts, target, badge) <==> earned(
            usable_scopes(scopes, icons),
            tree,
            texts,
            target,
            badge,
        ),
{
    let id = tree.snapshot.id;
    let entries = tree.snapshot.entries;
    let views = usable_scopes(scopes, icons);
    if is_earned(scopes, icons, tree, texts, target, badge) {
        let (k, s, r) = choose|k: int, s: int, r: int|
            0 <= k < entries.len() && #[trigger] earns_by(
                scopes,
                icons,
                id,
                entries[k],
                texts(entries[k].path),
                target,
                badge,
                s,
                r,
            );
        let path = entries[k].path;
        let rule = scopes[s].rules[r];
        lemma_rules_in_force(scopes, icons, id, path, s);
        lemma_can_be_used(rule, icons, r as usize);
        lemma_names_badge(rule, icons, badge);
        let c = compiled_rule(rule, icons, r as usize)->Ok_0;
        lemma_usable(scopes[s].rules, icons, c);
        assert(path.take(target.len() as int) =~= target);
        assert(earns(views, id, entries[k], c, texts(path), target, badge));
    }
    if earned(views, tree, texts, target, badge) {
        let (k, c) = choose|k: int, c: CompiledView|
            0 <= k < entries.len() && #[trigger] earns(
                views,
                id,
                entries[k],
                c,
                texts(entries[k].path),
                target,
                badge,
            );
        let path = entries[k].path;
        let s = choose|s: int| governs(views, id, path, s);
        assert(governs(views, id, path, s));
        lemma_in_force(scopes, icons, id, path, s);
        lemma_usable(scopes[s].rules, icons, c);
        let r = choose|r: int|
            0 <= r < scopes[s].rules.len() && compiled_rule(
                #[trigger] scopes[s].rules[r],
                icons,
                r as usize,
            ) == Ok::<CompiledView, Seq<char>>(c);
        let rule = scopes[s].rules[r];
        lemma_can_be_used(rule, icons, r as usize);
        lemma_names_badge(rule, icons, badge);
        assert(path.take(path.len() - rule.icon_level) =~= path.subrange(
            0,
            path.len() - rule.icon_level,
        ));
        assert(earns_by(scopes, icons, id, entries[k], texts(path), target, badge, s, r));
    }
}

/// A rule that asks for the text of a file of a worktree is in force for it, so that there are
/// rules for the worktree.
pub proof fn lemma_asked_for(
    scopes: Seq<ScopeView>,
    icons: Map<Seq<char>, Seq<char>>,
    worktree_id: usize,
    e: EntryView,
    s: int,
    r: int,
)
    requires
        asks_for(scopes, icons, worktree_id, e, s, r),
    ensures
        has_rules(usable_scopes(scopes, icons), worktree_id),
        is_candidate(usable_scopes(scopes, icons), worktree_id, e),
{
    let views = usable_scopes(scopes, icons);
    let rule = scopes[s].rules[r];
    lemma_rules_in_force(scopes, icons, worktree_id, e.path, s);
    lemma_can_be_used(rule, icons, r as usize);
    let c = compiled_rule(rule, icons, r as usize)->Ok_0;
    lemma_usable(scopes[s].rules, icons, c);
    lemma_rules_for(views, worktree_id, e.path, c);
    assert(rules_for(views, worktree_id, e.path).contains(c));
    lemma_has_rules(views, worktree_id, e.path);
}

/// A worktree with a file whose text some rule asks for is worked on: whatever comes before it,
/// the next step is to open the cache of this worktree or of an earlier one, or to read files
/// there. It is not passed over.
pub proof fn law_no_worktree_is_passed_over(
    run: RunView,
    scopes: Seq<ScopeView>,
    icons: Map<Seq<char>, Seq<char>>,
    n: int,
    k: int,
    s: int,
    r: int,
)
    requires
        run.scopes == usable_scopes(scopes, icons),
        0 <= run.at <= n < run.trees.len(),
        0 <= k < run.trees[n].snapshot.entries.len(),
        asks_for(
            scopes,
            icons,
            run.trees[n].snapshot.id,
            run.trees[n].snapshot.entries[k],
            s,
            r,
        ),
    ensures
        match next_step(run) {
            StepView::Open(at) => run.at <= at.at <= n,
            StepView::Read(at, _) => run.at <= at.at <= n,
            StepView::Done(_, _) => false,
        },
    decreases n - run.at,
{
    lemma_asked_for(
        scopes,
        icons,
        run.trees[n].snapshot.id,
        run.trees[n].snapshot.entries[k],
        s,
        r,
    );
    if run.at < n && !has_rules(run.scopes, run.id()) {
        law_no_worktree_is_passed_over(run.advanced(), scopes, icons, n, k, s, r);
    }
}

/// A run that is begun with a file whose text some rule asks for does not end at once: its first
/// step is at the worktree of that file or at an earlier one.
pub proof fn law_begun_runs_look_at_files(
    worker: Worker,
    request: Request,
    icons: &IconSet,
    step: Step,
    n: int,
    k: int,
    s: int,
    r: int,
)
    requires
        call_ensures(Worker::begin, (worker, request, icons), step),
        0 <= n < request.worktrees@.len(),
        0 <= k < request.worktrees@[n].snapshot@.entries.len(),
        asks_for(
            request.scopes@.map_values(|s: RuleScope| s@),
            icons@,
            request.worktrees@[n].snapshot@.id,
            request.worktrees@[n].snapshot@.entries[k],
            s,
            r,
        ),
    ensures
        match step {
            Step::Open(tree) => 0 <= tree@.at <= n,
            Step::Read(tree) => 0 <= tree.so_far().at <= n,
            Step::Done(_, _) => false,
        },
{
    let run = started(worker@, request@, icons@);
    assert(run.trees[n] == request.worktrees@[n]@);
    law_no_worktree_is_passed_over(run, request@.scopes, icons@, n, k, s, r);
}

/// Neither does it end, or go on to a worktree behind that one, when it is through with an earlier
/// worktree or could not open the cache of one.
pub proof fn law_going_on_looks_at_files(
    tree: ReadTree,
    step: Step,
    closed: OpenTree,
    opened: Result<(String, CacheRead), String>,
    after: Step,
    scopes: Seq<ScopeView>,
    icons: Map<Seq<char>, Seq<char>>,
    n: int,
    k: int,
    s: int,
    r: int,
)
    requires
        call_ensures(ReadTree::finish, (tree,), step),
        call_ensures(OpenTree::opened, (closed, opened), after),
        closed@ == tree.so_far(),
        tree.so_far().scopes == usable_scopes(scopes, icons),
        0 <= tree.so_far().at < n < tree.so_far().trees.len(),
        0 <= k < tree.so_far().trees[n].snapshot.entries.len(),
        asks_for(
            scopes,
            icons,
            tree.so_far().trees[n].snapshot.id,
            tree.so_far().trees[n].snapshot.entries[k],
            s,
            r,
        ),
    ensures
        match step {
            Step::Open(next) => tree.so_far().at < next@.at <= n,
            Step::Read(next) => tree.so_far().at < next.so_far().at <= n,
            Step::Done(_, _) => false,
        },
        match after {
            Step::Open(next) => opened is Err && tree.so_far().at < next@.at <= n,
            Step::Read(next) => if opened is Ok {
                next.so_far().at == tree.so_far().at
            } else {
                tree.so_far().at < next.so_far().at <= n
            },
            Step::Done(_, _) => false,
        },
{
    let run = collected(tree.so_far()).advanced();
    law_no_worktree_is_passed_over(run, scopes, icons, n, k, s, r);
    match opened_view(opened) {
        Err(error) => {
            let root = closed@.tree().snapshot.abs_path;
            let passed = closed@.with_error(Some(root + ": "@ + error)).advanced();
            law_no_worktree_is_passed_over(passed, scopes, icons, n, k, s, r);
        },
        Ok(_) => {},
    }
}

/// A run shows a badge at a path of a worktree exactly where some file of that worktree earns it
/// there, told from the settings, the names and the texts of the files. It takes that the root of
/// the worktree could be resolved where its cache was not open yet, that the cache knows nothing
/// wrong of the files as they are now, that SHA-256 tells the patterns of the rules apart, and that
/// the files that were to be read were read truly.
pub proof fn law_badges_are_shown_where_they_are_earned(
    caches: CachesView,
    request: RequestView,
    icons: Map<Seq<char>, Seq<char>>,
    answers: Seq<TreeAnswers>,
    n: int,
    texts: TextsView,
    target: Seq<Seq<char>>,
    badge: BadgeView,
)
    requires
        distinct_trees(request.trees),
        0 <= n < request.trees.len(),
        valid_tree(request.trees[n]),
        forall|s: int|
            0 <= s < request.scopes.len() ==> digests_apart((#[trigger] request.scopes[s]).rules),
        ({
            let run = run_upto(started(caches, request, icons), answers, n as nat);
            &&& needs_cache(run.caches, run.tree()) ==> answers[n].opened is Ok
            &&& true_of(
                with_open_cache(run, answers[n].opened).cache().data.files,
                run.candidates(),
                texts,
            )
            &&& truly_read(answers[n].reads, to_read(run, answers[n]), texts)
        }),
    ensures
        ({
            let shown = whole_run(started(caches, request, icons), answers).output.badges;
            let key = PlaceView { worktree_id: request.trees[n].snapshot.id, path: target };
            (shown.contains_key(key) && shown[key].contains(badge)) <==> is_earned(
                request.scopes,
                icons,
                request.trees[n],
                texts,
                target,
                badge,
            )
        }),
{
    let start = started(caches, request, icons);
    let tree = request.trees[n];
    let id = tree.snapshot.id;
    let all = request.trees.len();
    let run = run_upto(start, answers, n as nat);
    let done = whole_run(start, answers);
    let key = PlaceView { worktree_id: id, path: target };
    lemma_run_frame(start, answers, n as nat);
    lemma_earned(request.scopes, icons, tree, texts, target, badge);
    if works(run, answers[n]) {
        law_badges_are_true(caches, request, icons, answers, n, texts);
        assert(badges_at(done.output.badges, key).contains(badge) <==> earned(
            start.scopes,
            tree,
            texts,
            target,
            badge,
        ));
    } else {
        assert(!has_rules(start.scopes, id));
        assert forall|k: int| 0 <= k < n implies (#[trigger] start.trees[start.at + k]).snapshot.id
            != id by {
            assert(request.trees[k].snapshot.id != request.trees[n].snapshot.id);
        }
        assert forall|k: int| n + 1 <= k < all implies (#[trigger] start.trees[start.at
            + k]).snapshot.id != id by {
            assert(request.trees[n].snapshot.id != request.trees[k].snapshot.id);
        }
        lemma_run_apart(start, answers, 0, n as nat, id);
        lemma_run_apart(start, answers, (n + 1) as nat, all, id);
        let now = run_upto(start, answers, (n + 1) as nat);
        assert(now == run.advanced());
        assert(badges_at(done.output.badges, key) == badges_at(now.output.badges, key));
        assert(badges_at(run.output.badges, key) == badges_at(start.output.badges, key));
        assert(badges_at(start.output.badges, key).len() == 0);
        if is_earned(request.scopes, icons, tree, texts, target, badge) {
            let (k, s, r) = choose|k: int, s: int, r: int|
                0 <= k < tree.snapshot.entries.len() && #[trigger] earns_by(
                    request.scopes,
                    icons,
                    id,
                    tree.snapshot.entries[k],
                    texts(tree.snapshot.entries[k].path),
                    target,
                    badge,
                    s,
                    r,
                );
            lemma_asked_for(request.scopes, icons, id, tree.snapshot.entries[k], s, r);
        }
    }
}

/// The first run shows a badge at a path of a worktree exactly where some file of that worktree
/// earns it there: it begins without caches, and the database has none for the worktree.
pub proof fn law_first_run_shows_what_is_earned(
    request: RequestView,
    icons: Map<Seq<char>, Seq<char>>,
    answers: Seq<TreeAnswers>,
    n: int,
    cache_key: Seq<char>,
    texts: TextsView,
    target: Seq<Seq<char>>,
    badge: BadgeView,
)
    requires
        distinct_trees(request.trees),
        0 <= n < request.trees.len(),
        valid_tree(request.trees[n]),
        forall|s: int|
            0 <= s < request.scopes.len() ==> digests_apart((#[trigger] request.scopes[s]).rules),
        answers[n].opened == Ok::<(Seq<char>, CacheReadView), Seq<char>>(
            (cache_key, CacheReadView::Missing),
        ),
        truly_read(
            answers[n].reads,
            to_read(
                run_upto(started(Map::empty(), request, icons), answers, n as nat),
                answers[n],
            ),
            texts,
        ),
    ensures
        ({
            let shown = whole_run(started(Map::empty(), request, icons), answers).output.badges;
            let key = PlaceView { worktree_id: request.trees[n].snapshot.id, path: target };
            (shown.contains_key(key) && shown[key].contains(badge)) <==> is_earned(
                request.scopes,
                icons,
                request.trees[n],
                texts,
                target,
                badge,
            )
        }),
{
    let caches = Map::<usize, CacheView>::empty();
    let start = started(caches, request, icons);
    let run = run_upto(start, answers, n as nat);
    let id = request.trees[n].snapshot.id;
    lemma_run_frame(start, answers, n as nat);
    assert forall|k: int| 0 <= k < n implies (#[trigger] start.trees[start.at + k]).snapshot.id
        != id by {
        assert(request.trees[k].snapshot.id != request.trees[n].snapshot.id);
    }
    lemma_run_apart(start, answers, 0, n as nat, id);
    assert(needs_cache(run.caches, run.tree()));
    let files = with_open_cache(run, answers[n].opened).cache().data.files;
    assert(files == Map::<Seq<char>, CachedFileView>::empty());
    let list = run.candidates();
    assert forall|i: int| 0 <= i < list.len() implies true_for(
        files,
        #[trigger] list[i],
        texts(list[i].path),
    ) by {
        assert(known(files, list[i]) is None);
    }
    law_badges_are_shown_where_they_are_earned(
        caches,
        request,
        icons,
        answers,
        n,
        texts,
        target,
        badge,
    );
}

} // verus!
