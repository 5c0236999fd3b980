//! What the badges say of the files: as long as what is read is true, so is what is shown.
use vstd::prelude::*;

use crate::badge::BadgeView;
use crate::badge::RuleView;
use crate::badge_laws::gives;
use crate::badge_laws::law_badges_are_shown_once_and_in_order;
use crate::badge_laws::law_candidates_come_in_path_order;
use crate::badge_laws::law_contributed_where_a_rule_gives;
use crate::badge_laws::law_no_text_matches_nothing;
use crate::badge_laws::law_only_what_is_unknown_is_looked_for;
use crate::badge_laws::law_read_where_unknown;
use crate::badge_laws::some_rule_gives;
use crate::badge_laws::stands_for_entry;
use crate::badges::all_contributions;
use crate::badges::badges_at;
use crate::badges::PlaceView;
use crate::cache::CacheView;
use crate::cache::FilesView;
use crate::cache::TreeView;
use crate::cache_laws::all_recorded;
use crate::cache_laws::distinct_files;
use crate::cache_laws::fingerprints_tell_apart;
use crate::cache_laws::lemma_candidates_distinct;
use crate::cache_laws::lemma_missing_from_rules;
use crate::cache_laws::lemma_tabulated_at;
use crate::json::law_json_tells_pairs_apart;
use crate::json::pair_json;
use crate::matcher::matcher_of;
use crate::matcher::sha256_hex;
use crate::output_laws::in_range;
use crate::output_laws::lemma_run_no_empty_lists;
use crate::output_laws::valid_tree;
use crate::patterns::glob_matches;
use crate::patterns::regex_matches;
use crate::plan::candidate_of;
use crate::plan::candidates;
use crate::plan::considered;
use crate::plan::has_fingerprint;
use crate::plan::is_candidate;
use crate::plan::known;
use crate::plan::missing;
use crate::plan::pending;
use crate::plan::pending_of;
use crate::plan::unknown;
use crate::plan::CandidateView;
use crate::plan::PendingView;
use crate::read::answers_of;
use crate::read::match_results;
use crate::rel_path::ancestor;
use crate::rel_path::lemma_unix_text_injective;
use crate::rel_path::unix_text;
use crate::rules::governs;
use crate::rules::marked_rules;
use crate::rules::name_marks;
use crate::rules::patterns_of;
use crate::rules::rules_at;
use crate::rules::rules_for;
use crate::rules::usable_rules;
use crate::rules::CompiledScopeView;
use crate::rules::CompiledView;
use crate::run::begun;
use crate::run::distinct_trees;
use crate::run::lemma_all_read_frame;
use crate::run::lemma_run_apart;
use crate::run::lemma_run_frame;
use crate::run::read;
use crate::run::run_upto;
use crate::run::to_read;
use crate::run::tree_done;
use crate::run::whole_run;
use crate::run::with_open_cache;
use crate::run::works;
use crate::run::ReadAnswer;
use crate::run::TreeAnswers;
use crate::run_laws::answered;
use crate::run_laws::complete;
use crate::run_laws::findings_of;
use crate::run_laws::law_evaluated_reads_tell_all;
use crate::run_laws::lemma_all_read;
use crate::run_laws::lemma_settled;
use crate::run_laws::settled;
use crate::run_laws::tells_all;
use crate::worker::started;
use crate::worker::CachesView;
use crate::worker::RequestView;
use crate::worker::RunView;
use crate::worktree::EntryView;

verus! {

/// The text of each file of a worktree, where it is one.
pub type TextsView = spec_fn(Seq<Seq<char>>) -> Option<Seq<char>>;

/// The rule's expression matches the text. What is no text matches nothing.
pub open spec fn matches_text(rule: CompiledView, text: Option<Seq<char>>) -> bool {
    text matches Some(t) && regex_matches(rule.matcher.content, t)
}

/// What is known of the file as it is now about the rule is true of its text.
pub open spec fn true_at(
    files: FilesView,
    c: CandidateView,
    rule: CompiledView,
    text: Option<Seq<char>>,
) -> bool {
    let name = rule.matcher.fingerprint;
    known(files, c) matches Some(m) ==> (m.contains_key(name) ==> m[name] == matches_text(
        rule,
        text,
    ))
}

/// What is known of the file as it is now about its rules is true of its text.
pub open spec fn true_for(files: FilesView, c: CandidateView, text: Option<Seq<char>>) -> bool {
    forall|j: int| 0 <= j < c.rules.len() ==> true_at(files, c, #[trigger] c.rules[j], text)
}

/// What is known of the files for which rules hold is true of their texts.
pub open spec fn true_of(files: FilesView, list: Seq<CandidateView>, texts: TextsView) -> bool {
    forall|i: int|
        0 <= i < list.len() ==> true_for(files, #[trigger] list[i], texts(list[i].path))
}

/// The read tells which of the matchers that were asked about match the file's text.
pub open spec fn tells_truth(
    answer: ReadAnswer,
    reads: Seq<PendingView>,
    texts: TextsView,
) -> bool {
    let asked = reads[answer.index];
    answer.result == Ok::<Map<Seq<char>, bool>, Seq<char>>(
        match_results(asked.matchers, texts(asked.path)),
    )
}

/// Every file that was to be read was read, and nothing else, and each read tells the truth.
pub open spec fn truly_read(
    answers: Seq<ReadAnswer>,
    reads: Seq<PendingView>,
    texts: TextsView,
) -> bool {
    &&& in_range(answers, reads)
    &&& forall|k: int| 0 <= k < reads.len() ==> #[trigger] answered(answers, k)
    &&& forall|i: int| 0 <= i < answers.len() ==> tells_truth(#[trigger] answers[i], reads, texts)
}

/// No two rules that look for different things have one SHA-256 digest.
pub open spec fn digests_apart(rules: Seq<RuleView>) -> bool {
    forall|i: int, j: int|
        #![trigger rules[i], rules[j]]
        0 <= i < rules.len() && 0 <= j < rules.len() ==> {
            let a = pair_json(rules[i].filename, rules[i].content_regex);
            let b = pair_json(rules[j].filename, rules[j].content_regex);
            sha256_hex(a) == sha256_hex(b) ==> a == b
        }
}

proof fn lemma_usable_rule(
    rules: Seq<RuleView>,
    icons: Map<Seq<char>, Seq<char>>,
    k: int,
) -> (i: int)
    requires
        0 <= k < usable_rules(rules, icons).len(),
    ensures
        0 <= i < rules.len(),
        usable_rules(rules, icons)[k].matcher == matcher_of(patterns_of(rules[i])),
    decreases rules.len(),
{
    let init = rules.drop_last();
    if k < usable_rules(init, icons).len() {
        lemma_usable_rule(init, icons, k)
    } else {
        rules.len() - 1
    }
}

/// Rules whose fingerprints are the same look for the same, as long as SHA-256 tells their
/// patterns apart: the fingerprint is taken over both patterns, each as a string of its own.
pub proof fn law_fingerprints_tell_rules_apart(
    rules: Seq<RuleView>,
    icons: Map<Seq<char>, Seq<char>>,
)
    requires
        digests_apart(rules),
    ensures
        fingerprints_tell_apart(usable_rules(rules, icons)),
{
    let usable = usable_rules(rules, icons);
    assert forall|k: int, l: int|
        0 <= k < usable.len() && 0 <= l < usable.len() && (#[trigger] usable[k]).matcher.fingerprint
            == (#[trigger] usable[l]).matcher.fingerprint implies usable[k].matcher
        == usable[l].matcher by {
        let i = lemma_usable_rule(rules, icons, k);
        let j = lemma_usable_rule(rules, icons, l);
        let a = rules[i];
        let b = rules[j];
        law_json_tells_pairs_apart(a.filename, a.content_regex, b.filename, b.content_regex);
    }
}

pub proof fn lemma_marked(rules: Seq<CompiledView>, marks: Seq<bool>, r: CompiledView)
    ensures
        marked_rules(rules, marks).contains(r) <==> exists|i: int|
            0 <= i < rules.len() && marks[i] && #[trigger] rules[i] == r,
    decreases rules.len(),
{
    if rules.len() > 0 {
        let init = rules.drop_last();
        lemma_marked(init, marks, r);
        let before = marked_rules(init, marks);
        let now = marked_rules(rules, marks);
        let last = rules.len() - 1;
        if now.contains(r) {
            let k = now.index_of(r);
            if k < before.len() {
                assert(before[k] == r);
                let i = choose|i: int| 0 <= i < init.len() && marks[i] && #[trigger] init[i] == r;
                assert(rules[i] == r);
            } else {
                assert(rules[last] == r);
            }
        }
        if exists|i: int| 0 <= i < rules.len() && marks[i] && #[trigger] rules[i] == r {
            let i = choose|i: int| 0 <= i < rules.len() && marks[i] && #[trigger] rules[i] == r;
            if i < last {
                assert(init[i] == r);
                assert(now[before.index_of(r)] == r);
            } else {
                assert(now[before.len() as int] == r);
            }
        }
    }
}

/// The rules that hold for a file are those of the governing scope whose globs accept its name.
pub proof fn lemma_rules_for(
    scopes: Seq<CompiledScopeView>,
    worktree_id: usize,
    path: Seq<Seq<char>>,
    r: CompiledView,
)
    ensures
        rules_for(scopes, worktree_id, path).contains(r) <==> rules_at(
            scopes,
            worktree_id,
            path,
        ).contains(r) && glob_matches(r.matcher.filename, path.last()),
{
    let rules = rules_at(scopes, worktree_id, path);
    let marks = name_marks(rules, path.last());
    lemma_marked(rules, marks, r);
    if rules.contains(r) {
        let i = rules.index_of(r);
        assert(marks[i] == glob_matches(r.matcher.filename, path.last()));
        assert(rules[i] == r);
    }
}

/// Rules that share a fingerprint look for the same, in each scope.
spec fn scopes_tell_apart(scopes: Seq<CompiledScopeView>) -> bool {
    forall|s: int|
        0 <= s < scopes.len() ==> fingerprints_tell_apart((#[trigger] scopes[s]).rules)
}

proof fn lemma_rules_tell_apart(
    scopes: Seq<CompiledScopeView>,
    worktree_id: usize,
    path: Seq<Seq<char>>,
)
    requires
        scopes_tell_apart(scopes),
    ensures
        fingerprints_tell_apart(rules_for(scopes, worktree_id, path)),
{
    let rules = rules_at(scopes, worktree_id, path);
    let own = rules_for(scopes, worktree_id, path);
    assert(fingerprints_tell_apart(rules)) by {
        if exists|s: int| governs(scopes, worktree_id, path, s) {
            let s = choose|s: int| governs(scopes, worktree_id, path, s);
            assert(fingerprints_tell_apart(scopes[s].rules));
        }
    }
    assert forall|i: int, j: int|
        0 <= i < own.len() && 0 <= j < own.len() && (#[trigger] own[i]).matcher.fingerprint == (
        #[trigger] own[j]).matcher.fingerprint implies own[i].matcher == own[j].matcher by {
        lemma_rules_for(scopes, worktree_id, path, own[i]);
        lemma_rules_for(scopes, worktree_id, path, own[j]);
        assert(own.contains(own[i]) && own.contains(own[j]));
        let a = rules.index_of(own[i]);
        let b = rules.index_of(own[j]);
        assert(rules[a].matcher.fingerprint == rules[b].matcher.fingerprint);
    }
}

/// What is found in a text for a rule is whether the rule matches it.
proof fn lemma_found(
    rules: Seq<CompiledView>,
    was: Option<Map<Seq<char>, bool>>,
    text: Option<Seq<char>>,
    j: int,
)
    requires
        fingerprints_tell_apart(rules),
        0 <= j < rules.len(),
        match_results(missing(rules, was), text).contains_key(rules[j].matcher.fingerprint),
    ensures
        match_results(missing(rules, was), text)[rules[j].matcher.fingerprint] == matches_text(
            rules[j],
            text,
        ),
{
    let matchers = missing(rules, was);
    let name = rules[j].matcher.fingerprint;
    law_no_text_matches_nothing(matchers, text);
    law_only_what_is_unknown_is_looked_for(rules, was);
    assert(has_fingerprint(matchers, name));
    let k = choose|k: int| 0 <= k < matchers.len() && (#[trigger] matchers[k]).fingerprint == name;
    lemma_tabulated_at(matchers, answers_of(matchers, text), k);
    lemma_missing_from_rules(rules, was, k);
    let i = choose|i: int| 0 <= i < rules.len() && (#[trigger] rules[i]).matcher == matchers[k];
    assert(rules[i].matcher == rules[j].matcher);
}

proof fn lemma_true_after_reads(
    cache: CacheView,
    list: Seq<CandidateView>,
    reads: Seq<PendingView>,
    answers: Seq<ReadAnswer>,
    texts: TextsView,
    i: int,
)
    requires
        distinct_files(list),
        0 <= i < list.len(),
        fingerprints_tell_apart(list[i].rules),
        reads == pending(cache.data.files, list),
        in_range(answers, reads),
        forall|k: int|
            0 <= k < answers.len() ==> tells_truth(#[trigger] answers[k], reads, texts),
        true_for(cache.data.files, list[i], texts(list[i].path)),
    ensures
        true_for(
            all_recorded(cache, findings_of(reads, answers)).data.files,
            list[i],
            texts(list[i].path),
        ),
    decreases answers.len(),
{
    if answers.len() > 0 {
        let init = answers.drop_last();
        assert forall|k: int| 0 <= k < init.len() implies 0 <= (#[trigger] init[k]).index
            < reads.len() && tells_truth(init[k], reads, texts) by {
            assert(init[k] == answers[k]);
        }
        lemma_true_after_reads(cache, list, reads, init, texts, i);
        let findings = findings_of(reads, answers);
        assert(findings.drop_last() =~= findings_of(reads, init));
        let answer = answers[answers.len() - 1];
        assert(tells_truth(answer, reads, texts));
        let p = reads[answer.index];
        assert(reads.contains(p));
        law_read_where_unknown(cache.data.files, list);
        let j = choose|j: int|
            0 <= j < list.len() && p == pending_of(cache.data.files, #[trigger] list[j]);
        let c = list[i];
        let text = texts(c.path);
        let before = all_recorded(cache, findings_of(reads, init)).data.files;
        let now = all_recorded(cache, findings).data.files;
        if i == j {
            let found = match_results(p.matchers, text);
            assert forall|k: int| 0 <= k < c.rules.len() implies true_at(
                now,
                c,
                #[trigger] c.rules[k],
                text,
            ) by {
                assert(true_at(before, c, c.rules[k], text));
                if found.contains_key(c.rules[k].matcher.fingerprint) {
                    lemma_found(c.rules, known(cache.data.files, c), text, k);
                }
            }
        } else {
            if unix_text(p.path) == unix_text(c.path) {
                assert(list[j].path == p.path);
                lemma_unix_text_injective(p.path, c.path);
                if i < j {
                    assert(list[i].path != list[j].path);
                } else {
                    assert(list[j].path != list[i].path);
                }
            }
            assert(known(now, c) == known(before, c));
            assert forall|k: int| 0 <= k < c.rules.len() implies true_at(
                now,
                c,
                #[trigger] c.rules[k],
                text,
            ) by {
                assert(true_at(before, c, c.rules[k], text));
            }
        }
    }
}

/// A worktree whose cache is true, and whose files are read truly, has a true cache afterwards, in
/// which all is known.
proof fn lemma_tree_true(run: RunView, answers: TreeAnswers, texts: TextsView)
    requires
        valid_tree(run.tree()),
        works(run, answers),
        scopes_tell_apart(run.scopes),
        true_of(
            with_open_cache(run, answers.opened).cache().data.files,
            run.candidates(),
            texts,
        ),
        truly_read(answers.reads, to_read(run, answers), texts),
    ensures
        true_of(read(run, answers).cache().data.files, run.candidates(), texts),
        settled(read(run, answers).cache().data.files, run.candidates()),
{
    let open = with_open_cache(run, answers.opened);
    let first = begun(run, answers);
    let reads = to_read(run, answers);
    let list = run.candidates();
    let entries = run.tree().snapshot.entries;
    lemma_candidates_distinct(run.scopes, run.id(), entries);
    law_candidates_come_in_path_order(run.scopes, run.id(), entries);
    assert forall|i: int| 0 <= i < answers.reads.len() implies tells_all(
        #[trigger] answers.reads[i],
        reads,
    ) && answers.reads[i].result is Ok by {
        let answer = answers.reads[i];
        assert(tells_truth(answer, reads, texts));
        assert(0 <= answer.index < reads.len());
        law_evaluated_reads_tell_all(reads, answer.index, texts(reads[answer.index].path));
    }
    assert(complete(answers.reads, reads));
    lemma_settled(run, answers);
    lemma_all_read(first, reads, answers.reads);
    assert forall|i: int| 0 <= i < list.len() implies true_for(
        read(run, answers).cache().data.files,
        #[trigger] list[i],
        texts(list[i].path),
    ) by {
        let c = list[i];
        assert(stands_for_entry(run.scopes, run.id(), entries, c));
        lemma_rules_tell_apart(run.scopes, run.id(), c.path);
        assert(true_for(open.cache().data.files, c, texts(c.path)));
        assert forall|j: int| 0 <= j < c.rules.len() implies true_at(
            first.cache().data.files,
            c,
            #[trigger] c.rules[j],
            texts(c.path),
        ) by {
            assert(true_at(open.cache().data.files, c, c.rules[j], texts(c.path)));
        }
        lemma_true_after_reads(first.cache(), list, reads, answers.reads, texts, i);
    }
}

/// The file earns the badge at `target`, by a rule in force for it: it can have a badge, its name
/// and its text match, and `target` is as many levels above it as the rule says.
pub open spec fn earns(
    scopes: Seq<CompiledScopeView>,
    worktree_id: usize,
    e: EntryView,
    rule: CompiledView,
    text: Option<Seq<char>>,
    target: Seq<Seq<char>>,
    badge: BadgeView,
) -> bool {
    &&& considered(e)
    &&& rules_at(scopes, worktree_id, e.path).contains(rule)
    &&& glob_matches(rule.matcher.filename, e.path.last())
    &&& matches_text(rule, text)
    &&& ancestor(e.path, rule.level as nat) == Some(target)
    &&& rule.badge == badge
}

/// Some file of the worktree earns the badge at `target`.
pub open spec fn earned(
    scopes: Seq<CompiledScopeView>,
    tree: TreeView,
    texts: TextsView,
    target: Seq<Seq<char>>,
    badge: BadgeView,
) -> bool {
    exists|k: int, rule: CompiledView|
        0 <= k < tree.snapshot.entries.len() && #[trigger] earns(
            scopes,
            tree.snapshot.id,
            tree.snapshot.entries[k],
            rule,
            texts(tree.snapshot.entries[k].path),
            target,
            badge,
        )
}

pub proof fn lemma_candidate_listed(
    scopes: Seq<CompiledScopeView>,
    worktree_id: usize,
    entries: Seq<EntryView>,
    k: int,
)
    requires
        0 <= k < entries.len(),
        is_candidate(scopes, worktree_id, entries[k]),
    ensures
        candidates(scopes, worktree_id, entries).contains(
            candidate_of(scopes, worktree_id, entries[k]),
        ),
    decreases entries.len(),
{
    let init = entries.drop_last();
    let before = candidates(scopes, worktree_id, init);
    let now = candidates(scopes, worktree_id, entries);
    let c = candidate_of(scopes, worktree_id, entries[k]);
    if k < init.len() {
        assert(init[k] == entries[k]);
        lemma_candidate_listed(scopes, worktree_id, init, k);
        assert(now[before.index_of(c)] == c);
    } else {
        assert(now[before.len() as int] == c);
    }
}

/// Where all is known and true, a rule gives its badge exactly where it matches the text.
pub proof fn lemma_gives_where_it_matches(
    files: FilesView,
    list: Seq<CandidateView>,
    texts: TextsView,
    target: Seq<Seq<char>>,
    i: int,
    j: int,
)
    requires
        settled(files, list),
        true_of(files, list, texts),
        0 <= i < list.len(),
        0 <= j < list[i].rules.len(),
    ensures
        gives(files, list[i], list[i].rules[j], target) == (matches_text(
            list[i].rules[j],
            texts(list[i].path),
        ) && ancestor(list[i].path, list[i].rules[j].level as nat) == Some(target)),
{
    let c = list[i];
    let name = c.rules[j].matcher.fingerprint;
    assert(unknown(files, c).len() == 0);
    law_only_what_is_unknown_is_looked_for(c.rules, known(files, c));
    assert(!has_fingerprint(missing(c.rules, known(files, c)), name));
    assert(true_for(files, c, texts(c.path)));
    assert(true_at(files, c, c.rules[j], texts(c.path)));
}

/// Where all is known and true, a rule gives a badge exactly where a file earns it.
proof fn lemma_given_where_earned(
    files: FilesView,
    scopes: Seq<CompiledScopeView>,
    tree: TreeView,
    texts: TextsView,
    target: Seq<Seq<char>>,
    badge: BadgeView,
)
    requires
        valid_tree(tree),
        settled(files, candidates(scopes, tree.snapshot.id, tree.snapshot.entries)),
        true_of(files, candidates(scopes, tree.snapshot.id, tree.snapshot.entries), texts),
    ensures
        some_rule_gives(
            files,
            candidates(scopes, tree.snapshot.id, tree.snapshot.entries),
            (target, badge),
        ) <==> earned(scopes, tree, texts, target, badge),
{
    let id = tree.snapshot.id;
    let entries = tree.snapshot.entries;
    let list = candidates(scopes, id, entries);
    law_candidates_come_in_path_order(scopes, id, entries);
    assert forall|i: int, j: int|
        #![trigger list[i].rules[j]]
        0 <= i < list.len() && 0 <= j < list[i].rules.len() implies gives(
        files,
        list[i],
        list[i].rules[j],
        target,
    ) == (matches_text(list[i].rules[j], texts(list[i].path)) && ancestor(
        list[i].path,
        list[i].rules[j].level as nat,
    ) == Some(target)) by {
        lemma_gives_where_it_matches(files, list, texts, target, i, j);
    }
    if some_rule_gives(files, list, (target, badge)) {
        let (i, j) = choose|i: int, j: int|
            0 <= i < list.len() && 0 <= j < list[i].rules.len() && gives(
                files,
                list[i],
                #[trigger] list[i].rules[j],
                target,
            ) && list[i].rules[j].badge == badge;
        let rule = list[i].rules[j];
        assert(stands_for_entry(scopes, id, entries, list[i]));
        let k = choose|k: int|
            0 <= k < entries.len() && is_candidate(scopes, id, #[trigger] entries[k]) && list[i]
                == candidate_of(scopes, id, entries[k]);
        assert(list[i].rules.contains(rule));
        lemma_rules_for(scopes, id, entries[k].path, rule);
        assert(earns(
            scopes,
            id,
            entries[k],
            rule,
            texts(entries[k].path),
            target,
            badge,
        ));
    }
    if earned(scopes, tree, texts, target, badge) {
        let (k, rule) = choose|k: int, rule: CompiledView|
            0 <= k < entries.len() && #[trigger] earns(
                scopes,
                id,
                entries[k],
                rule,
                texts(entries[k].path),
                target,
                badge,
            );
        lemma_rules_for(scopes, id, entries[k].path, rule);
        let c = candidate_of(scopes, id, entries[k]);
        assert(c.rules.contains(rule));
        lemma_candidate_listed(scopes, id, entries, k);
        let i = list.index_of(c);
        let j = c.rules.index_of(rule);
        assert(list[i].rules[j] == rule);
    }
}

/// Where what the cache of a worktree knows is true of its files, and what is read of them is
/// true, the cache stays true, and a run shows a badge at a path exactly where some file earns it
/// there. What is known of a file as it was before it changed does not count.
pub proof fn law_badges_are_true(
    caches: CachesView,
    request: RequestView,
    icons: Map<Seq<char>, Seq<char>>,
    answers: Seq<TreeAnswers>,
    n: int,
    texts: TextsView,
)
    requires
        distinct_trees(request.trees),
        0 <= n < request.trees.len(),
        valid_tree(request.trees[n]),
        forall|s: int|
            0 <= s < request.scopes.len() ==> digests_apart((#[trigger] request.scopes[s]).rules),
        ({
            let run = run_upto(started(caches, request, icons), answers, n as nat);
            &&& works(run, answers[n])
            &&& true_of(
                with_open_cache(run, answers[n].opened).cache().data.files,
                run.candidates(),
                texts,
            )
            &&& truly_read(answers[n].reads, to_read(run, answers[n]), texts)
        }),
    ensures
        ({
            let start = started(caches, request, icons);
            let done = whole_run(start, answers);
            let tree = request.trees[n];
            let id = tree.snapshot.id;
            &&& done.caches.contains_key(id)
            &&& true_of(
                done.caches[id].data.files,
                candidates(start.scopes, id, tree.snapshot.entries),
                texts,
            )
            &&& settled(
                done.caches[id].data.files,
                candidates(start.scopes, id, tree.snapshot.entries),
            )
            &&& forall|target: Seq<Seq<char>>, badge: BadgeView| #[trigger]
                badges_at(
                    done.output.badges,
                    PlaceView { worktree_id: id, path: target },
                ).contains(badge) <==> earned(start.scopes, tree, texts, target, badge)
        }),
{
    let start = started(caches, request, icons);
    let all = request.trees.len();
    let tree = request.trees[n];
    let id = tree.snapshot.id;
    let run = run_upto(start, answers, n as nat);
    let now = run_upto(start, answers, (n + 1) as nat);
    let done = whole_run(start, answers);
    lemma_run_frame(start, answers, n as nat);
    assert forall|k: int| 0 <= k < n implies (#[trigger] start.trees[start.at + k]).snapshot.id
        != id by {
        assert(request.trees[k].snapshot.id != request.trees[n].snapshot.id);
    }
    assert forall|k: int| n + 1 <= k < all implies (#[trigger] start.trees[start.at
        + k]).snapshot.id != id by {
        assert(request.trees[n].snapshot.id != request.trees[k].snapshot.id);
    }
    lemma_run_apart(start, answers, 0, n as nat, id);
    lemma_run_apart(start, answers, (n + 1) as nat, all, id);
    lemma_run_no_empty_lists(start, answers, n as nat);
    assert(scopes_tell_apart(start.scopes)) by {
        assert forall|s: int| 0 <= s < start.scopes.len() implies fingerprints_tell_apart(
            (#[trigger] start.scopes[s]).rules,
        ) by {
            assert(digests_apart(request.scopes[s].rules));
            law_fingerprints_tell_rules_apart(request.scopes[s].rules, icons);
        }
    }
    lemma_tree_true(run, answers[n], texts);
    lemma_all_read_frame(begun(run, answers[n]), to_read(run, answers[n]), answers[n].reads);
    let after = read(run, answers[n]);
    let files = after.cache().data.files;
    let list = run.candidates();
    assert(now == tree_done(run, answers[n]));
    assert forall|target: Seq<Seq<char>>, badge: BadgeView| #[trigger]
        badges_at(done.output.badges, PlaceView { worktree_id: id, path: target }).contains(
            badge,
        ) <==> earned(start.scopes, tree, texts, target, badge) by {
        let key = PlaceView { worktree_id: id, path: target };
        assert(badges_at(done.output.badges, key) == badges_at(now.output.badges, key));
        assert(badges_at(start.output.badges, key).len() == 0);
        assert(badges_at(run.output.badges, key).len() == 0);
        assert(!run.output.badges.contains_key(key));
        law_badges_are_shown_once_and_in_order(
            run.output.badges,
            id,
            all_contributions(files, list),
            target,
        );
        law_contributed_where_a_rule_gives(files, list, (target, badge));
        lemma_given_where_earned(files, start.scopes, tree, texts, target, badge);
    }
}

} // verus!
