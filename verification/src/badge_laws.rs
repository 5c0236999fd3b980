//! What holds of the rules, of what is read, and of the badges that come of it.
use vstd::prelude::*;

use crate::badge::BadgeView;
use crate::badge::RuleView;
use crate::badges::all_contributions;
use crate::badges::badges_at;
use crate::badges::contributions;
use crate::badges::from_candidate;
use crate::badges::from_candidates;
use crate::badges::from_rules;
use crate::badges::lemma_all_contributions;
use crate::badges::positions_below;
use crate::badges::with_contributions;
use crate::badges::BadgesView;
use crate::badges::ContributionView;
use crate::badges::PlaceView;
use crate::cache::FilesView;
use crate::file_badges::after_publish;
use crate::file_badges::refreshed;
use crate::file_badges::unreported;
use crate::file_badges::ChangesView;
use crate::file_badges::FileBadgesView;
use crate::file_badges::VisibleView;
use crate::matcher::MatcherView;
use crate::plan::candidate_of;
use crate::plan::candidates;
use crate::plan::has_fingerprint;
use crate::plan::is_candidate;
use crate::plan::known;
use crate::plan::missing;
use crate::plan::pending;
use crate::plan::pending_of;
use crate::plan::unknown;
use crate::plan::CandidateView;
use crate::plan::PendingView;
use crate::plan::MAX_FILE_SIZE;
use crate::read::answers_of;
use crate::read::match_results;
use crate::read::tabulated;
use crate::rel_path::ancestor;
use crate::rel_path::path_before;
use crate::rel_path::unix_text;
use crate::rules::compiled_rule;
use crate::rules::governs;
use crate::rules::holds_at;
use crate::rules::lemma_governs_once;
use crate::rules::marked_rules;
use crate::rules::name_marks;
use crate::rules::no_nearer;
use crate::rules::rule_report;
use crate::rules::rule_reports;
use crate::rules::rules_at;
use crate::rules::rules_for;
use crate::rules::usable_rules;
use crate::rules::CompiledScopeView;
use crate::rules::CompiledView;
use crate::worker::OutputView;
use crate::worktree::listing;
use crate::worktree::EntryKind;
use crate::worktree::EntryView;

verus! {

/// A rule that cannot be used is reported, and does not keep the others from being used.
pub proof fn law_broken_rule_blocks_no_other(
    rules: Seq<RuleView>,
    icons: Map<Seq<char>, Seq<char>>,
    k: int,
)
    requires
        0 <= k < rules.len() <= usize::MAX,
    ensures
        match compiled_rule(rules[k], icons, k as usize) {
            Ok(rule) => usable_rules(rules, icons).contains(rule),
            Err(error) => rule_reports(rules, icons).contains(
                rule_report(rules[k], k as usize, error),
            ),
        },
    decreases rules.len(),
{
    let init = rules.drop_last();
    let before = usable_rules(init, icons);
    let reports = rule_reports(init, icons);
    let last = (rules.len() - 1) as usize;
    if k == last {
        match compiled_rule(rules[k], icons, last) {
            Ok(rule) => {
                assert(usable_rules(rules, icons)[before.len() as int] == rule);
            },
            Err(error) => {
                assert(rule_reports(rules, icons)[reports.len() as int] == rule_report(
                    rules[k],
                    last,
                    error,
                ));
            },
        }
    } else {
        law_broken_rule_blocks_no_other(init, icons, k);
        match compiled_rule(rules[k], icons, k as usize) {
            Ok(rule) => {
                let j = before.index_of(rule);
                assert(usable_rules(rules, icons)[j] == rule);
            },
            Err(error) => {
                let j = reports.index_of(rule_report(rules[k], k as usize, error));
                assert(rule_reports(rules, icons)[j] == reports[j]);
            },
        }
    }
}

/// The rules that can be used keep their order.
pub proof fn law_usable_rules_keep_their_order(
    rules: Seq<RuleView>,
    icons: Map<Seq<char>, Seq<char>>,
)
    requires
        rules.len() <= usize::MAX,
    ensures
        forall|i: int, j: int|
            0 <= i < j < usable_rules(rules, icons).len() ==> (#[trigger] usable_rules(
                rules,
                icons,
            )[i]).position < (#[trigger] usable_rules(rules, icons)[j]).position,
        forall|i: int|
            0 <= i < usable_rules(rules, icons).len() ==> (#[trigger] usable_rules(
                rules,
                icons,
            )[i]).position < rules.len(),
    decreases rules.len(),
{
    if rules.len() > 0 {
        law_usable_rules_keep_their_order(rules.drop_last(), icons);
    }
}

/// Some scope governs each path at which one holds.
pub proof fn law_some_scope_governs(
    scopes: Seq<CompiledScopeView>,
    worktree_id: usize,
    path: Seq<Seq<char>>,
    k: int,
)
    requires
        0 <= k < scopes.len(),
        holds_at(scopes[k], worktree_id, path),
    ensures
        exists|i: int| governs(scopes, worktree_id, path, i),
    decreases scopes.len(),
{
    let init = scopes.drop_last();
    let last = scopes.len() - 1;
    if exists|i: int| 0 <= i < last && holds_at(#[trigger] scopes[i], worktree_id, path) {
        let h = choose|i: int| 0 <= i < last && holds_at(#[trigger] scopes[i], worktree_id, path);
        assert(init[h] == scopes[h]);
        law_some_scope_governs(init, worktree_id, path, h);
        let i = choose|i: int| governs(init, worktree_id, path, i);
        let best = if holds_at(scopes[last], worktree_id, path) && no_nearer(
            scopes[i],
            scopes[last],
        ) {
            last
        } else {
            i
        };
        assert forall|j: int|
            0 <= j < scopes.len() && holds_at(#[trigger] scopes[j], worktree_id, path) implies no_nearer(
        scopes[j], scopes[best]) by {
            if j < last {
                assert(init[j] == scopes[j]);
                assert(no_nearer(init[j], init[i]));
            }
        }
        assert forall|j: int|
            best < j < scopes.len() && holds_at(#[trigger] scopes[j], worktree_id, path) implies !no_nearer(
        scopes[best], scopes[j]) by {
            if j < last {
                assert(init[j] == scopes[j]);
            }
        }
        assert(governs(scopes, worktree_id, path, best));
    } else {
        assert(governs(scopes, worktree_id, path, last));
    }
}

/// The nearest settings win: where local ones hold, the global ones do not govern; and of two
/// local ones, those of the directory above do not.
pub proof fn law_nearest_settings_win(
    scopes: Seq<CompiledScopeView>,
    worktree_id: usize,
    path: Seq<Seq<char>>,
    near: int,
    far: int,
)
    requires
        0 <= near < scopes.len(),
        holds_at(scopes[near], worktree_id, path),
        scopes[near].worktree_id is Some,
        0 <= far < scopes.len(),
        scopes[far].worktree_id is None || scopes[far].path.len() < scopes[near].path.len(),
    ensures
        !governs(scopes, worktree_id, path, far),
{
}

/// Where the settings that govern a path have no rules, there is nothing to be done for it, even
/// if others have some.
pub proof fn law_settings_without_rules_suppress(
    scopes: Seq<CompiledScopeView>,
    worktree_id: usize,
    e: EntryView,
    i: int,
)
    requires
        governs(scopes, worktree_id, e.path, i),
        scopes[i].rules.len() == 0,
    ensures
        !is_candidate(scopes, worktree_id, e),
{
    lemma_governs_once(scopes, worktree_id, e.path, i);
}

/// What is looked for in a file is what the rules need and what is not known yet, each once.
pub proof fn law_only_what_is_unknown_is_looked_for(
    rules: Seq<CompiledView>,
    matches: Option<Map<Seq<char>, bool>>,
)
    ensures
        forall|name: Seq<char>| #[trigger]
            has_fingerprint(missing(rules, matches), name) <==> (exists|i: int|
                0 <= i < rules.len() && (#[trigger] rules[i]).matcher.fingerprint == name) && !(
            matches matches Some(m) && m.contains_key(name)),
        forall|i: int, j: int|
            0 <= i < j < missing(rules, matches).len() ==> (#[trigger] missing(
                rules,
                matches,
            )[i]).fingerprint != (#[trigger] missing(rules, matches)[j]).fingerprint,
    decreases rules.len(),
{
    if rules.len() > 0 {
        let init = rules.drop_last();
        law_only_what_is_unknown_is_looked_for(init, matches);
        let before = missing(init, matches);
        let now = missing(rules, matches);
        let matcher = rules.last().matcher;
        assert forall|name: Seq<char>| #[trigger] has_fingerprint(now, name) <==> (exists|i: int|
            0 <= i < rules.len() && (#[trigger] rules[i]).matcher.fingerprint == name) && !(
        matches matches Some(m) && m.contains_key(name)) by {
            assert(has_fingerprint(before, name) <==> (exists|i: int|
                0 <= i < init.len() && (#[trigger] init[i]).matcher.fingerprint == name) && !(
            matches matches Some(m) && m.contains_key(name)));
            if exists|i: int|
                0 <= i < init.len() && (#[trigger] init[i]).matcher.fingerprint == name {
                let i = choose|i: int|
                    0 <= i < init.len() && (#[trigger] init[i]).matcher.fingerprint == name;
                assert(rules[i].matcher.fingerprint == name);
            }
            if exists|i: int|
                0 <= i < rules.len() && (#[trigger] rules[i]).matcher.fingerprint == name {
                let i = choose|i: int|
                    0 <= i < rules.len() && (#[trigger] rules[i]).matcher.fingerprint == name;
                if i < init.len() {
                    assert(init[i].matcher.fingerprint == name);
                }
            }
            if has_fingerprint(before, name) {
                let i = choose|i: int|
                    0 <= i < before.len() && (#[trigger] before[i]).fingerprint == name;
                assert(now[i].fingerprint == name);
            }
            if has_fingerprint(now, name) {
                let i = choose|i: int|
                    0 <= i < now.len() && (#[trigger] now[i]).fingerprint == name;
                if i < before.len() {
                    assert(before[i].fingerprint == name);
                } else {
                    assert(rules[rules.len() - 1].matcher.fingerprint == name);
                }
            }
            if matcher.fingerprint == name {
                assert(rules[rules.len() - 1].matcher.fingerprint == name);
                if now.len() > before.len() {
                    assert(now[before.len() as int].fingerprint == name);
                }
            }
        }
        assert forall|i: int, j: int| 0 <= i < j < now.len() implies (
        #[trigger] now[i]).fingerprint != (#[trigger] now[j]).fingerprint by {
            if j < before.len() {
                assert(before[i].fingerprint != before[j].fingerprint);
            } else {
                assert(before[i] == now[i]);
                assert(!has_fingerprint(before, matcher.fingerprint));
            }
        }
    }
}

/// A file for which rules hold is read exactly where it is not known of all of them whether they
/// match.
pub proof fn law_read_where_unknown(files: FilesView, list: Seq<CandidateView>)
    ensures
        forall|i: int|
            0 <= i < list.len() && unknown(files, #[trigger] list[i]).len() > 0 ==> pending(
                files,
                list,
            ).contains(pending_of(files, list[i])),
        forall|p: PendingView| #[trigger]
            pending(files, list).contains(p) ==> p.matchers.len() > 0 && exists|i: int|
                0 <= i < list.len() && p == pending_of(files, #[trigger] list[i]),
    decreases list.len(),
{
    if list.len() > 0 {
        let init = list.drop_last();
        law_read_where_unknown(files, init);
        let before = pending(files, init);
        let now = pending(files, list);
        assert forall|i: int|
            0 <= i < list.len() && unknown(files, #[trigger] list[i]).len() > 0 implies now.contains(
        pending_of(files, list[i])) by {
            let p = pending_of(files, list[i]);
            if i < init.len() {
                assert(init[i] == list[i]);
                assert(before.contains(p));
                assert(now[before.index_of(p)] == p);
            } else {
                assert(now[before.len() as int] == p);
            }
        }
        assert forall|p: PendingView| #[trigger] now.contains(p) implies p.matchers.len() > 0
            && exists|i: int| 0 <= i < list.len() && p == pending_of(files, #[trigger] list[i]) by {
            let k = now.index_of(p);
            if k < before.len() {
                assert(before[k] == p);
                assert(before.contains(p));
                let i = choose|i: int|
                    0 <= i < init.len() && p == pending_of(files, #[trigger] init[i]);
                assert(list[i] == init[i]);
            } else {
                assert(p == pending_of(files, list[list.len() - 1]));
            }
        }
    }
}

/// What is read is never ignored, a pipe, or too large.
pub proof fn law_large_files_and_pipes_are_not_read(
    files: FilesView,
    scopes: Seq<CompiledScopeView>,
    worktree_id: usize,
    entries: Seq<EntryView>,
    p: PendingView,
)
    requires
        listing(entries),
        pending(files, candidates(scopes, worktree_id, entries)).contains(p),
    ensures
        exists|k: int|
            {
                &&& 0 <= k < entries.len()
                &&& (#[trigger] entries[k]).path == p.path
                &&& entries[k].kind == EntryKind::File
                &&& entries[k].size <= MAX_FILE_SIZE
                &&& !entries[k].is_fifo
                &&& !entries[k].is_ignored
            },
{
    let list = candidates(scopes, worktree_id, entries);
    law_read_where_unknown(files, list);
    let i = choose|i: int| 0 <= i < list.len() && p == pending_of(files, #[trigger] list[i]);
    law_candidates_come_in_path_order(scopes, worktree_id, entries);
    assert(stands_for_entry(scopes, worktree_id, entries, list[i]));
    let k = choose|k: int|
        0 <= k < entries.len() && is_candidate(scopes, worktree_id, #[trigger] entries[k])
            && list[i] == candidate_of(scopes, worktree_id, entries[k]);
    assert(entries[k].path == p.path);
}

/// Two rules look for the same.
pub open spec fn looks_for_same(a: CompiledView, b: CompiledView) -> bool {
    a.matcher == b.matcher
}

/// The same scopes, whose rules look for the same and may differ in the badges that they give and
/// the levels at which they give them.
pub open spec fn same_patterns(
    a: Seq<CompiledScopeView>,
    b: Seq<CompiledScopeView>,
) -> bool {
    &&& a.len() == b.len()
    &&& forall|i: int|
        0 <= i < a.len() ==> {
            &&& (#[trigger] a[i]).worktree_id == b[i].worktree_id
            &&& a[i].path == b[i].path
            &&& same_rule_patterns(a[i].rules, b[i].rules)
        }
}

/// Rule by rule, the same is looked for.
pub open spec fn same_rule_patterns(a: Seq<CompiledView>, b: Seq<CompiledView>) -> bool {
    &&& a.len() == b.len()
    &&& forall|j: int| 0 <= j < a.len() ==> looks_for_same(#[trigger] a[j], b[j])
}

proof fn lemma_same_missing(
    a: Seq<CompiledView>,
    b: Seq<CompiledView>,
    matches: Option<Map<Seq<char>, bool>>,
)
    requires
        same_rule_patterns(a, b),
    ensures
        missing(a, matches) == missing(b, matches),
    decreases a.len(),
{
    if a.len() > 0 {
        assert(looks_for_same(a[a.len() - 1], b[b.len() - 1]));
        assert forall|j: int| 0 <= j < a.drop_last().len() implies looks_for_same(
            #[trigger] a.drop_last()[j],
            b.drop_last()[j],
        ) by {
            assert(looks_for_same(a[j], b[j]));
        }
        lemma_same_missing(a.drop_last(), b.drop_last(), matches);
    }
}

proof fn lemma_same_marked(a: Seq<CompiledView>, b: Seq<CompiledView>, marks: Seq<bool>)
    requires
        same_rule_patterns(a, b),
    ensures
        same_rule_patterns(marked_rules(a, marks), marked_rules(b, marks)),
    decreases a.len(),
{
    if a.len() > 0 {
        assert(looks_for_same(a[a.len() - 1], b[b.len() - 1]));
        assert forall|j: int| 0 <= j < a.drop_last().len() implies looks_for_same(
            #[trigger] a.drop_last()[j],
            b.drop_last()[j],
        ) by {
            assert(looks_for_same(a[j], b[j]));
        }
        lemma_same_marked(a.drop_last(), b.drop_last(), marks);
    }
}

proof fn lemma_same_named(a: Seq<CompiledView>, b: Seq<CompiledView>, name: Seq<char>)
    requires
        same_rule_patterns(a, b),
    ensures
        same_rule_patterns(
            marked_rules(a, name_marks(a, name)),
            marked_rules(b, name_marks(b, name)),
        ),
{
    assert forall|j: int| 0 <= j < a.len() implies name_marks(a, name)[j] == name_marks(
        b,
        name,
    )[j] by {
        assert(looks_for_same(a[j], b[j]));
    }
    assert(name_marks(a, name) =~= name_marks(b, name));
    lemma_same_marked(a, b, name_marks(a, name));
}

proof fn lemma_same_rules_for(
    a: Seq<CompiledScopeView>,
    b: Seq<CompiledScopeView>,
    worktree_id: usize,
    path: Seq<Seq<char>>,
)
    requires
        same_patterns(a, b),
    ensures
        same_rule_patterns(rules_for(a, worktree_id, path), rules_for(b, worktree_id, path)),
{
    assert forall|i: int| governs(a, worktree_id, path, i) implies governs(
        b,
        worktree_id,
        path,
        i,
    ) by {
        assert(a[i].worktree_id == b[i].worktree_id);
        assert forall|j: int|
            0 <= j < b.len() && holds_at(#[trigger] b[j], worktree_id, path) implies no_nearer(
        b[j], b[i]) by {
            assert(holds_at(a[j], worktree_id, path));
            assert(no_nearer(a[j], a[i]));
        }
        assert forall|j: int|
            i < j < b.len() && holds_at(#[trigger] b[j], worktree_id, path) implies !no_nearer(
        b[i], b[j]) by {
            assert(holds_at(a[j], worktree_id, path));
            assert(!no_nearer(a[i], a[j]));
        }
    }
    assert forall|i: int| governs(b, worktree_id, path, i) implies governs(
        a,
        worktree_id,
        path,
        i,
    ) by {
        assert(a[i].worktree_id == b[i].worktree_id);
        assert forall|j: int|
            0 <= j < a.len() && holds_at(#[trigger] a[j], worktree_id, path) implies no_nearer(
        a[j], a[i]) by {
            assert(holds_at(b[j], worktree_id, path));
            assert(no_nearer(b[j], b[i]));
        }
        assert forall|j: int|
            i < j < a.len() && holds_at(#[trigger] a[j], worktree_id, path) implies !no_nearer(
        a[i], a[j]) by {
            assert(holds_at(b[j], worktree_id, path));
            assert(!no_nearer(b[i], b[j]));
        }
    }
    if exists|i: int| governs(a, worktree_id, path, i) {
        let i = choose|i: int| governs(a, worktree_id, path, i);
        lemma_governs_once(a, worktree_id, path, i);
        lemma_governs_once(b, worktree_id, path, i);
        lemma_same_named(a[i].rules, b[i].rules, path.last());
    } else {
        lemma_same_named(
            rules_at(a, worktree_id, path),
            rules_at(b, worktree_id, path),
            path.last(),
        );
    }
}

/// Rules that change only in their badges, levels or positions need no file to be read again.
pub proof fn law_badges_and_levels_need_no_read(
    files: FilesView,
    a: Seq<CompiledScopeView>,
    b: Seq<CompiledScopeView>,
    worktree_id: usize,
    entries: Seq<EntryView>,
)
    requires
        same_patterns(a, b),
    ensures
        pending(files, candidates(a, worktree_id, entries)) == pending(
            files,
            candidates(b, worktree_id, entries),
        ),
    decreases entries.len(),
{
    if entries.len() > 0 {
        let init = entries.drop_last();
        law_badges_and_levels_need_no_read(files, a, b, worktree_id, init);
        let e = entries.last();
        lemma_same_rules_for(a, b, worktree_id, e.path);
        let of_a = candidate_of(a, worktree_id, e);
        let of_b = candidate_of(b, worktree_id, e);
        lemma_same_missing(of_a.rules, of_b.rules, known(files, of_a));
        assert(known(files, of_a) == known(files, of_b));
        if is_candidate(a, worktree_id, e) {
            assert(candidates(a, worktree_id, entries).drop_last() =~= candidates(
                a,
                worktree_id,
                init,
            ));
            assert(candidates(b, worktree_id, entries).drop_last() =~= candidates(
                b,
                worktree_id,
                init,
            ));
        }
    }
}

/// `c` stands for one of the entries, with the rules that hold for it.
pub open spec fn stands_for_entry(
    scopes: Seq<CompiledScopeView>,
    worktree_id: usize,
    entries: Seq<EntryView>,
    c: CandidateView,
) -> bool {
    exists|k: int|
        0 <= k < entries.len() && is_candidate(scopes, worktree_id, #[trigger] entries[k]) && c
            == candidate_of(scopes, worktree_id, entries[k])
}

/// The files for which rules hold come in the order of their paths.
pub proof fn law_candidates_come_in_path_order(
    scopes: Seq<CompiledScopeView>,
    worktree_id: usize,
    entries: Seq<EntryView>,
)
    requires
        listing(entries),
    ensures
        forall|i: int, j: int|
            0 <= i < j < candidates(scopes, worktree_id, entries).len() ==> path_before(
                #[trigger] candidates(scopes, worktree_id, entries)[i].path,
                #[trigger] candidates(scopes, worktree_id, entries)[j].path,
            ),
        forall|i: int|
            0 <= i < candidates(scopes, worktree_id, entries).len() ==> stands_for_entry(
                scopes,
                worktree_id,
                entries,
                #[trigger] candidates(scopes, worktree_id, entries)[i],
            ),
    decreases entries.len(),
{
    if entries.len() > 0 {
        let init = entries.drop_last();
        assert(listing(init)) by {
            assert forall|i: int, j: int| 0 <= i < j < init.len() implies path_before(
                #[trigger] init[i].path,
                #[trigger] init[j].path,
            ) && init[i].id != init[j].id by {
                assert(path_before(entries[i].path, entries[j].path));
                assert(entries[i].id != entries[j].id);
            }
        }
        law_candidates_come_in_path_order(scopes, worktree_id, init);
        let before = candidates(scopes, worktree_id, init);
        let now = candidates(scopes, worktree_id, entries);
        assert forall|i: int| 0 <= i < now.len() implies stands_for_entry(
            scopes,
            worktree_id,
            entries,
            #[trigger] now[i],
        ) by {
            if i < before.len() {
                assert(stands_for_entry(scopes, worktree_id, init, before[i]));
                let k = choose|k: int|
                    0 <= k < init.len() && is_candidate(scopes, worktree_id, #[trigger] init[k])
                        && before[i] == candidate_of(scopes, worktree_id, init[k]);
                assert(entries[k] == init[k]);
            } else {
                assert(is_candidate(scopes, worktree_id, entries[entries.len() - 1]));
            }
        }
        assert forall|i: int, j: int| 0 <= i < j < now.len() implies path_before(
            #[trigger] now[i].path,
            #[trigger] now[j].path,
        ) by {
            if j < before.len() {
                assert(path_before(before[i].path, before[j].path));
            } else {
                assert(stands_for_entry(scopes, worktree_id, init, before[i]));
                let k = choose|k: int|
                    0 <= k < init.len() && is_candidate(scopes, worktree_id, #[trigger] init[k])
                        && before[i] == candidate_of(scopes, worktree_id, init[k]);
                assert(path_before(entries[k].path, entries[entries.len() - 1].path));
            }
        }
    }
}

proof fn lemma_tabulated(matchers: Seq<MatcherView>, answers: Seq<bool>)
    ensures
        forall|name: Seq<char>| #[trigger]
            tabulated(matchers, answers).contains_key(name) <==> has_fingerprint(matchers, name),
        (forall|j: int| 0 <= j < matchers.len() ==> !#[trigger] answers[j]) ==> forall|
            name: Seq<char>,
        | #[trigger]
            tabulated(matchers, answers).contains_key(name) ==> !tabulated(
                matchers,
                answers,
            )[name],
    decreases matchers.len(),
{
    if matchers.len() > 0 {
        let init = matchers.drop_last();
        lemma_tabulated(init, answers);
        assert forall|name: Seq<char>| #[trigger]
            tabulated(matchers, answers).contains_key(name) <==> has_fingerprint(
            matchers,
            name,
        ) by {
            assert(tabulated(init, answers).contains_key(name) <==> has_fingerprint(init, name));
            if has_fingerprint(init, name) {
                let i = choose|i: int|
                    0 <= i < init.len() && (#[trigger] init[i]).fingerprint == name;
                assert(matchers[i].fingerprint == name);
            }
            if has_fingerprint(matchers, name) {
                let i = choose|i: int|
                    0 <= i < matchers.len() && (#[trigger] matchers[i]).fingerprint == name;
                if i < init.len() {
                    assert(init[i].fingerprint == name);
                }
            }
            assert(matchers[matchers.len() - 1] == matchers.last());
        }
        if forall|j: int| 0 <= j < matchers.len() ==> !#[trigger] answers[j] {
            assert forall|name: Seq<char>| #[trigger]
                tabulated(matchers, answers).contains_key(name) implies !tabulated(
                matchers,
                answers,
            )[name] by {
                assert(!answers[matchers.len() - 1]);
                if name != matchers.last().fingerprint {
                    assert(tabulated(init, answers).contains_key(name));
                }
            }
        }
    }
}

/// Each matcher gets a result, and what is no text matches nothing.
pub proof fn law_no_text_matches_nothing(matchers: Seq<MatcherView>, text: Option<Seq<char>>)
    ensures
        forall|name: Seq<char>| #[trigger]
            match_results(matchers, text).contains_key(name) <==> has_fingerprint(matchers, name),
        text is None ==> forall|name: Seq<char>| #[trigger]
            match_results(matchers, text).contains_key(name) ==> !match_results(
                matchers,
                text,
            )[name],
{
    lemma_tabulated(matchers, answers_of(matchers, text));
}

/// The rule gives its badge at `target` for the file: what it looks for was found there, and
/// `target` is as many levels above the file as the rule says.
pub open spec fn gives(
    files: FilesView,
    candidate: CandidateView,
    rule: CompiledView,
    target: Seq<Seq<char>>,
) -> bool {
    let text = unix_text(candidate.path);
    let name = rule.matcher.fingerprint;
    &&& files.contains_key(text)
    &&& files[text].matches.contains_key(name)
    &&& files[text].matches[name]
    &&& ancestor(candidate.path, rule.level as nat) == Some(target)
}

pub proof fn lemma_from_rules(
    files: FilesView,
    candidate: CandidateView,
    rules: Seq<CompiledView>,
    position: nat,
    c: ContributionView,
)
    requires
        files.contains_key(unix_text(candidate.path)),
    ensures
        from_rules(
            files[unix_text(candidate.path)].matches,
            candidate.path,
            rules,
            position,
        ).contains(c) <==> exists|j: int|
            0 <= j < rules.len() && (#[trigger] rules[j]).position == position && gives(
                files,
                candidate,
                rules[j],
                c.0,
            ) && rules[j].badge == c.1,
    decreases rules.len(),
{
    if rules.len() > 0 {
        let init = rules.drop_last();
        let last = rules.len() - 1;
        let matches = files[unix_text(candidate.path)].matches;
        lemma_from_rules(files, candidate, init, position, c);
        let before = from_rules(matches, candidate.path, init, position);
        let now = from_rules(matches, candidate.path, rules, position);
        if before.contains(c) {
            assert(now[before.index_of(c)] == c);
            let j = choose|j: int|
                0 <= j < init.len() && (#[trigger] init[j]).position == position && gives(
                    files,
                    candidate,
                    init[j],
                    c.0,
                ) && init[j].badge == c.1;
            assert(rules[j] == init[j]);
        } else if now.contains(c) {
            let k = now.index_of(c);
            if k < before.len() {
                assert(before[k] == c);
            }
            assert(rules[last].position == position && gives(
                files,
                candidate,
                rules[last],
                c.0,
            ) && rules[last].badge == c.1);
        }
        if exists|j: int|
            0 <= j < rules.len() && (#[trigger] rules[j]).position == position && gives(
                files,
                candidate,
                rules[j],
                c.0,
            ) && rules[j].badge == c.1 {
            let j = choose|j: int|
                0 <= j < rules.len() && (#[trigger] rules[j]).position == position && gives(
                    files,
                    candidate,
                    rules[j],
                    c.0,
                ) && rules[j].badge == c.1;
            if j < last {
                assert(init[j] == rules[j]);
            } else {
                assert(now[before.len() as int] == c);
            }
        }
    }
}

/// Some rule gives the badge at the target.
pub open spec fn some_rule_gives(
    files: FilesView,
    candidates: Seq<CandidateView>,
    c: ContributionView,
) -> bool {
    exists|i: int, j: int|
        0 <= i < candidates.len() && 0 <= j < candidates[i].rules.len() && gives(
            files,
            candidates[i],
            #[trigger] candidates[i].rules[j],
            c.0,
        ) && candidates[i].rules[j].badge == c.1
}

/// The rule at place `j` of the file at `i` gives the badge at the target, and has this position.
pub open spec fn rule_at_gives(
    files: FilesView,
    candidates: Seq<CandidateView>,
    position: nat,
    c: ContributionView,
    i: int,
    j: int,
) -> bool {
    &&& 0 <= i < candidates.len()
    &&& 0 <= j < candidates[i].rules.len()
    &&& candidates[i].rules[j].position == position
    &&& gives(files, candidates[i], candidates[i].rules[j], c.0)
    &&& candidates[i].rules[j].badge == c.1
}

pub proof fn lemma_from_candidates(
    files: FilesView,
    candidates: Seq<CandidateView>,
    position: nat,
    c: ContributionView,
)
    ensures
        from_candidates(files, candidates, position).contains(c) <==> exists|i: int, j: int|
            rule_at_gives(files, candidates, position, c, i, j),
    decreases candidates.len(),
{
    if candidates.len() > 0 {
        let init = candidates.drop_last();
        let last = candidates.len() - 1;
        let cand = candidates.last();
        lemma_from_candidates(files, init, position, c);
        if files.contains_key(unix_text(cand.path)) {
            lemma_from_rules(files, cand, cand.rules, position, c);
        }
        let before = from_candidates(files, init, position);
        let own = from_candidate(files, cand, position);
        let now = from_candidates(files, candidates, position);
        if now.contains(c) {
            let k = now.index_of(c);
            if k < before.len() {
                assert(before[k] == c);
                let (i, j) = choose|i: int, j: int|
                    rule_at_gives(files, init, position, c, i, j);
                assert(rule_at_gives(files, candidates, position, c, i, j));
            } else {
                assert(own[k - before.len()] == c);
                let j = choose|j: int|
                    0 <= j < cand.rules.len() && (#[trigger] cand.rules[j]).position == position
                        && gives(files, cand, cand.rules[j], c.0) && cand.rules[j].badge == c.1;
                assert(rule_at_gives(files, candidates, position, c, last, j));
            }
        }
        if exists|i: int, j: int| rule_at_gives(files, candidates, position, c, i, j) {
            let (i, j) = choose|i: int, j: int|
                rule_at_gives(files, candidates, position, c, i, j);
            if i < last {
                assert(rule_at_gives(files, init, position, c, i, j));
                assert(now[before.index_of(c)] == c);
            } else {
                assert(cand.rules[j].position == position);
                assert(own.contains(c));
                assert(now[before.len() + own.index_of(c)] == c);
            }
        }
    }
}

pub proof fn lemma_contributions(
    files: FilesView,
    candidates: Seq<CandidateView>,
    positions: nat,
    c: ContributionView,
)
    ensures
        contributions(files, candidates, positions).contains(c) <==> exists|p: nat, i: int, j: int|
            p < positions && #[trigger] rule_at_gives(files, candidates, p, c, i, j),
    decreases positions,
{
    if positions > 0 {
        let last = (positions - 1) as nat;
        lemma_contributions(files, candidates, last, c);
        lemma_from_candidates(files, candidates, last, c);
        let before = contributions(files, candidates, last);
        let own = from_candidates(files, candidates, last);
        let now = contributions(files, candidates, positions);
        if now.contains(c) {
            let k = now.index_of(c);
            if k < before.len() {
                assert(before[k] == c);
                let (p, i, j) = choose|p: nat, i: int, j: int|
                    p < last && #[trigger] rule_at_gives(files, candidates, p, c, i, j);
                assert(rule_at_gives(files, candidates, p, c, i, j));
            } else {
                assert(own[k - before.len()] == c);
                let (i, j) = choose|i: int, j: int|
                    rule_at_gives(files, candidates, last, c, i, j);
                assert(rule_at_gives(files, candidates, last, c, i, j));
            }
        }
        if exists|p: nat, i: int, j: int|
            p < positions && #[trigger] rule_at_gives(files, candidates, p, c, i, j) {
            let (p, i, j) = choose|p: nat, i: int, j: int|
                p < positions && #[trigger] rule_at_gives(files, candidates, p, c, i, j);
            if p < last {
                assert(rule_at_gives(files, candidates, p, c, i, j));
                assert(before.contains(c));
                assert(now[before.index_of(c)] == c);
            } else {
                assert(rule_at_gives(files, candidates, last, c, i, j));
                assert(own.contains(c));
                assert(now[before.len() + own.index_of(c)] == c);
            }
        }
    }
}

proof fn lemma_rules_bounded(rules: Seq<CompiledView>) -> (n: nat)
    ensures
        forall|j: int| 0 <= j < rules.len() ==> (#[trigger] rules[j]).position < n,
    decreases rules.len(),
{
    if rules.len() == 0 {
        0
    } else {
        let before = lemma_rules_bounded(rules.drop_last());
        let p = rules.last().position as nat + 1;
        let n = if before < p { p } else { before };
        assert forall|j: int| 0 <= j < rules.len() implies (#[trigger] rules[j]).position < n by {
            if j < rules.len() - 1 {
                assert(rules.drop_last()[j].position < before);
            }
        }
        n
    }
}

pub proof fn lemma_candidates_bounded(candidates: Seq<CandidateView>) -> (n: nat)
    ensures
        positions_below(candidates, n),
    decreases candidates.len(),
{
    if candidates.len() == 0 {
        0
    } else {
        let init = candidates.drop_last();
        let before = lemma_candidates_bounded(init);
        let own = lemma_rules_bounded(candidates.last().rules);
        let n = if before < own { own } else { before };
        assert forall|i: int, j: int|
            0 <= i < candidates.len() && 0 <= j < candidates[i].rules.len() implies (
        #[trigger] candidates[i].rules[j]).position < n by {
            if i < candidates.len() - 1 {
                assert(init[i].rules[j].position < before);
            } else {
                assert(candidates.last().rules[j].position < own);
            }
        }
        n
    }
}

/// A badge is contributed at a path exactly where some rule gives it there. A rule whose level is
/// above the root gives none.
pub proof fn law_contributed_where_a_rule_gives(
    files: FilesView,
    candidates: Seq<CandidateView>,
    c: ContributionView,
)
    ensures
        all_contributions(files, candidates).contains(c) <==> some_rule_gives(
            files,
            candidates,
            c,
        ),
{
    let n = lemma_candidates_bounded(candidates);
    lemma_all_contributions(files, candidates, n);
    lemma_contributions(files, candidates, n, c);
    if all_contributions(files, candidates).contains(c) {
        let (p, i, j) = choose|p: nat, i: int, j: int|
            p < n && #[trigger] rule_at_gives(files, candidates, p, c, i, j);
        assert(gives(files, candidates[i], candidates[i].rules[j], c.0));
    }
    if some_rule_gives(files, candidates, c) {
        let (i, j) = choose|i: int, j: int|
            0 <= i < candidates.len() && 0 <= j < candidates[i].rules.len() && gives(
                files,
                candidates[i],
                #[trigger] candidates[i].rules[j],
                c.0,
            ) && candidates[i].rules[j].badge == c.1;
        let p = candidates[i].rules[j].position as nat;
        assert(rule_at_gives(files, candidates, p, c, i, j));
    }
}

/// `badge` is contributed at `target`, and before `other` is.
pub open spec fn contributed_before(
    list: Seq<ContributionView>,
    target: Seq<Seq<char>>,
    badge: BadgeView,
    other: BadgeView,
) -> bool {
    exists|i: int|
        0 <= i < list.len() && #[trigger] list[i] == (target, badge) && forall|j: int|
            0 <= j <= i ==> #[trigger] list[j] != (target, other)
}

/// Each path shows the badges that are contributed there, each once, in the order in which they
/// are first contributed.
pub proof fn law_badges_are_shown_once_and_in_order(
    badges: BadgesView,
    worktree_id: usize,
    list: Seq<ContributionView>,
    target: Seq<Seq<char>>,
)
    requires
        !badges.contains_key(PlaceView { worktree_id, path: target }),
    ensures
        ({
            let shown = badges_at(
                with_contributions(badges, worktree_id, list),
                PlaceView { worktree_id, path: target },
            );
            &&& shown.no_duplicates()
            &&& forall|badge: BadgeView| #[trigger]
                shown.contains(badge) <==> list.contains((target, badge))
            &&& forall|a: int, b: int|
                0 <= a < b < shown.len() ==> contributed_before(
                    list,
                    target,
                    #[trigger] shown[a],
                    #[trigger] shown[b],
                )
        }),
    decreases list.len(),
{
    if list.len() > 0 {
        let init = list.drop_last();
        let last = list.len() - 1;
        law_badges_are_shown_once_and_in_order(badges, worktree_id, init, target);
        let key = PlaceView { worktree_id, path: target };
        let before = badges_at(with_contributions(badges, worktree_id, init), key);
        let shown = badges_at(with_contributions(badges, worktree_id, list), key);
        let c = list.last();
        assert forall|badge: BadgeView| #[trigger] shown.contains(badge) <==> list.contains(
            (target, badge),
        ) by {
            assert(before.contains(badge) <==> init.contains((target, badge)));
            if init.contains((target, badge)) {
                assert(list[init.index_of((target, badge))] == (target, badge));
            }
            if list.contains((target, badge)) {
                let k = list.index_of((target, badge));
                if k < last {
                    assert(init[k] == (target, badge));
                }
            }
            if before.contains(badge) {
                assert(shown[before.index_of(badge)] == badge);
            }
            if shown.contains(badge) && !before.contains(badge) {
                let k = shown.index_of(badge);
                if k < before.len() {
                    assert(before[k] == badge);
                }
                assert(list[last] == (target, badge));
            }
            if c == (target, badge) {
                assert(list[last] == c);
                if !before.contains(badge) {
                    assert(shown[before.len() as int] == badge);
                }
            }
        }
        assert forall|a: int, b: int| 0 <= a < b < shown.len() implies contributed_before(
            list,
            target,
            #[trigger] shown[a],
            #[trigger] shown[b],
        ) by {
            if b < before.len() {
                assert(contributed_before(init, target, before[a], before[b]));
                let i = choose|i: int|
                    0 <= i < init.len() && #[trigger] init[i] == (target, before[a]) && forall|
                        j: int,
                    |
                        0 <= j <= i ==> #[trigger] init[j] != (target, before[b]);
                assert(list[i] == (target, shown[a]));
                assert forall|j: int| 0 <= j <= i implies #[trigger] list[j] != (
                    target,
                    shown[b],
                ) by {
                    assert(init[j] != (target, before[b]));
                }
            } else {
                assert(before.contains(before[a]));
                assert(init.contains((target, before[a])));
                let i = init.index_of((target, before[a]));
                assert(list[i] == (target, shown[a]));
                assert(!before.contains(shown[b]));
                assert(!init.contains((target, shown[b])));
                assert forall|j: int| 0 <= j <= i implies #[trigger] list[j] != (
                    target,
                    shown[b],
                ) by {
                    assert(init[j] == list[j]);
                }
            }
        }
    }
}

/// The badges of one worktree do not touch those of another.
pub proof fn law_worktrees_are_apart(
    badges: BadgesView,
    worktree_id: usize,
    list: Seq<ContributionView>,
    key: PlaceView,
)
    requires
        key.worktree_id != worktree_id,
    ensures
        badges_at(with_contributions(badges, worktree_id, list), key) == badges_at(badges, key),
    decreases list.len(),
{
    if list.len() > 0 {
        law_worktrees_are_apart(badges, worktree_id, list.drop_last(), key);
    }
}

/// Once a refresh asked for something newer, what came of an older request is not published: it
/// changes nothing.
pub proof fn law_outdated_results_are_not_published(
    view: FileBadgesView,
    trees: Seq<VisibleView>,
    changes: ChangesView,
    generation: usize,
    output: OutputView,
)
    requires
        view.generation < usize::MAX,
        generation <= view.generation,
    ensures
        refreshed(view, trees, changes).1 matches Some(request) ==> {
            let now = refreshed(view, trees, changes).0;
            &&& request.generation == now.generation
            &&& after_publish(now, generation, output) == (now, None::<(bool, Seq<Seq<char>>)>)
        },
{
}

/// An error is reported once: what is reported was not before, comes once, and is not reported
/// again.
pub proof fn law_errors_are_reported_once(reported: Set<Seq<char>>, errors: Seq<Seq<char>>)
    ensures
        unreported(reported, errors).no_duplicates(),
        forall|error: Seq<char>| #[trigger]
            unreported(reported, errors).contains(error) <==> errors.contains(error)
                && !reported.contains(error),
        unreported(reported.union(errors.to_set()), errors) == Seq::<Seq<char>>::empty(),
    decreases errors.len(),
{
    lemma_unreported(reported, errors);
    lemma_all_reported(reported.union(errors.to_set()), errors);
}

proof fn lemma_unreported(reported: Set<Seq<char>>, errors: Seq<Seq<char>>)
    ensures
        unreported(reported, errors).no_duplicates(),
        forall|error: Seq<char>| #[trigger]
            unreported(reported, errors).contains(error) <==> errors.contains(error)
                && !reported.contains(error),
    decreases errors.len(),
{
    if errors.len() > 0 {
        let init = errors.drop_last();
        let last = errors.last();
        lemma_unreported(reported, init);
        let before = unreported(reported, init);
        let now = unreported(reported, errors);
        assert forall|error: Seq<char>| #[trigger] now.contains(error) <==> errors.contains(error)
            && !reported.contains(error) by {
            assert(before.contains(error) <==> init.contains(error) && !reported.contains(error));
            if init.contains(error) {
                assert(errors[init.index_of(error)] == error);
            }
            if errors.contains(error) && error != last {
                assert(init[errors.index_of(error)] == error);
            }
            assert(errors[errors.len() - 1] == last);
            if before.contains(error) {
                assert(now[before.index_of(error)] == error);
            }
            if now.contains(error) && !before.contains(error) {
                let k = now.index_of(error);
                if k < before.len() {
                    assert(before[k] == error);
                }
            }
            if error == last && now.len() > before.len() {
                assert(now[before.len() as int] == error);
            }
        }
        assert(now.no_duplicates()) by {
            if now.len() > before.len() {
                assert(!before.contains(last));
            }
        }
    }
}

proof fn lemma_all_reported(reported: Set<Seq<char>>, errors: Seq<Seq<char>>)
    requires
        forall|i: int| 0 <= i < errors.len() ==> reported.contains(#[trigger] errors[i]),
    ensures
        unreported(reported, errors) == Seq::<Seq<char>>::empty(),
    decreases errors.len(),
{
    if errors.len() > 0 {
        assert forall|i: int| 0 <= i < errors.drop_last().len() implies reported.contains(
            #[trigger] errors.drop_last()[i],
        ) by {
            assert(reported.contains(errors[i]));
        }
        lemma_all_reported(reported, errors.drop_last());
        assert(reported.contains(errors[errors.len() - 1]));
    }
}

} // verus!
