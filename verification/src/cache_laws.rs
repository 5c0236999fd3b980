//! What holds of the cache: nothing is read twice without need, and nothing outdated is believed.
use vstd::prelude::*;

use crate::badge_laws::gives;
use crate::badge_laws::law_candidates_come_in_path_order;
use crate::badge_laws::law_only_what_is_unknown_is_looked_for;
use crate::badge_laws::law_read_where_unknown;
use crate::badge_laws::stands_for_entry;
use crate::badges::all_contributions;
use crate::badges::contributions;
use crate::badges::from_candidates;
use crate::badges::positions_below;
use crate::cache::invalidated;
use crate::cache::kept;
use crate::cache::loses_files;
use crate::cache::pruned;
use crate::cache::recorded;
use crate::cache::usable_cache;
use crate::cache::CacheReadView;
use crate::cache::CacheView;
use crate::cache::ChangeView;
use crate::cache::FileVersion;
use crate::cache::FilesView;
use crate::cache::MatchesView;
use crate::cache::TreeView;
use crate::cache::CACHE_VERSION;
use crate::matcher::MatcherView;
use crate::patterns::regex_matches;
use crate::plan::candidate_of;
use crate::plan::candidates;
use crate::plan::has_fingerprint;
use crate::plan::is_candidate;
use crate::plan::known;
use crate::plan::missing;
use crate::plan::pending;
use crate::plan::pending_of;
use crate::plan::unknown;
use crate::plan::CandidateView;
use crate::plan::PendingView;
use crate::read::answers_of;
use crate::read::match_results;
use crate::read::tabulated;
use crate::rel_path::ancestor;
use crate::rel_path::law_unix_text_round_trip;
use crate::rel_path::lemma_path_strict_total;
use crate::rel_path::lemma_unix_text_injective;
use crate::rel_path::path_before;
use crate::rel_path::unix_text;
use crate::rel_path::valid_path;
use crate::rules::CompiledScopeView;
use crate::rules::CompiledView;
use crate::worker::after_open;
use crate::worker::after_reads;
use crate::worker::after_record;
use crate::worker::collected;
use crate::worker::next_step;
use crate::worker::CachesView;
use crate::worker::OpenedView;
use crate::worker::RunView;
use crate::worker::StepView;
use crate::worktree::entry_at;
use crate::worktree::listing;
use crate::worktree::EntryView;

verus! {

/// A cache whose files change is to be saved, and stays to be saved.
pub proof fn law_changed_cache_is_saved(
    cache: CacheView,
    tree: TreeView,
    changes: Seq<ChangeView>,
    path: Seq<Seq<char>>,
    version: FileVersion,
    result: MatchesView,
)
    ensures
        ({
            let now = pruned(cache, tree, changes);
            &&& cache.dirty ==> now.dirty
            &&& now.data.files != cache.data.files ==> now.dirty
        }),
        ({
            let now = recorded(cache, path, version, result);
            &&& cache.dirty ==> now.dirty
            &&& now.data.files != cache.data.files ==> now.dirty
        }),
{
    let now = pruned(cache, tree, changes);
    if !loses_files(cache.data.files, tree, changes) {
        assert forall|text: Seq<char>| #[trigger] cache.data.files.contains_key(text) implies kept(
            text,
            tree,
            changes,
        ) by {}
        assert(now.data.files =~= cache.data.files);
    }
    let text = unix_text(path);
    if !cache.data.files.contains_key(text) {
        assert(cache.data.files.remove(text) =~= cache.data.files);
    }
}

pub proof fn lemma_nothing_known(rules: Seq<CompiledView>)
    requires
        rules.len() > 0,
    ensures
        missing(rules, None).len() > 0,
{
    law_only_what_is_unknown_is_looked_for(rules, None);
    assert(has_fingerprint(missing(rules, None), rules[0].matcher.fingerprint));
}

/// A file whose read failed is not taken to match nothing: it is read again.
pub proof fn law_failed_read_is_repeated(
    cache: CacheView,
    version: FileVersion,
    error: Seq<char>,
    c: CandidateView,
)
    requires
        c.rules.len() > 0,
    ensures
        ({
            let files = recorded(cache, c.path, version, Err(error)).data.files;
            &&& !files.contains_key(unix_text(c.path))
            &&& unknown(files, c).len() > 0
        }),
{
    lemma_nothing_known(c.rules);
}

/// A file that changed, or below a directory that did, is read again, even if its metadata are as
/// they were.
pub proof fn law_changed_paths_are_read_again(
    cache: CacheView,
    tree: TreeView,
    changes: Seq<ChangeView>,
    c: CandidateView,
)
    requires
        valid_path(c.path),
        c.rules.len() > 0,
        invalidated(changes, tree.snapshot.id, c.path),
    ensures
        ({
            let files = pruned(cache, tree, changes).data.files;
            &&& !files.contains_key(unix_text(c.path))
            &&& unknown(files, c).len() > 0
        }),
{
    law_unix_text_round_trip(c.path, Seq::empty());
    lemma_nothing_known(c.rules);
}

/// A file whose metadata changed is read again: what is known of another version is not used.
pub proof fn law_other_versions_are_read_again(files: FilesView, c: CandidateView)
    requires
        c.rules.len() > 0,
        files.contains_key(unix_text(c.path)) ==> files[unix_text(c.path)].version != c.version,
    ensures
        unknown(files, c).len() > 0,
{
    lemma_nothing_known(c.rules);
}

/// What is known of the files of a worktree is kept as long as nothing changes.
pub proof fn law_unchanged_files_stay_known(cache: CacheView, tree: TreeView, i: int)
    requires
        0 <= i < tree.snapshot.entries.len(),
        valid_path(tree.snapshot.entries[i].path),
    ensures
        ({
            let text = unix_text(tree.snapshot.entries[i].path);
            let files = pruned(cache, tree, Seq::empty()).data.files;
            &&& files.contains_key(text) <==> cache.data.files.contains_key(text)
            &&& files.contains_key(text) ==> files[text] == cache.data.files[text]
        }),
{
    let entries = tree.snapshot.entries;
    let path = entries[i].path;
    law_unix_text_round_trip(path, Seq::empty());
    assert(entry_at(entries, path, i));
    assert(kept(unix_text(path), tree, Seq::empty()));
}

/// A file that was read, and what was found in it.
pub ghost struct Finding {
    pub read: PendingView,
    pub matches: Map<Seq<char>, bool>,
}

/// All that was looked for has a result.
pub open spec fn tells(finding: Finding) -> bool {
    forall|name: Seq<char>| #[trigger]
        has_fingerprint(finding.read.matchers, name) ==> finding.matches.contains_key(name)
}

/// The cache after all of these reads, in whichever order they came.
pub open spec fn all_recorded(cache: CacheView, findings: Seq<Finding>) -> CacheView
    decreases findings.len(),
{
    if findings.len() == 0 {
        cache
    } else {
        let last = findings.last();
        recorded(
            all_recorded(cache, findings.drop_last()),
            last.read.path,
            last.read.version,
            Ok(last.matches),
        )
    }
}

/// One of the findings is about this path.
pub open spec fn found_at(findings: Seq<Finding>, path: Seq<Seq<char>>) -> bool {
    exists|i: int| 0 <= i < findings.len() && (#[trigger] findings[i]).read.path == path
}

/// Each finding is about a file that was to be read, and answers what was asked of it.
pub open spec fn findings_answer(findings: Seq<Finding>, reads: Seq<PendingView>) -> bool {
    forall|i: int|
        0 <= i < findings.len() ==> reads.contains((#[trigger] findings[i]).read) && tells(
            findings[i],
        )
}

/// It is known whether the matcher with this fingerprint matches.
spec fn is_known(matches: Option<Map<Seq<char>, bool>>, name: Seq<char>) -> bool {
    matches matches Some(m) && m.contains_key(name)
}

/// All that was known is known, and all that was looked for.
spec fn knows_more(
    was: Option<Map<Seq<char>, bool>>,
    want: Seq<MatcherView>,
    now: Option<Map<Seq<char>, bool>>,
) -> bool {
    forall|name: Seq<char>|
        is_known(was, name) || has_fingerprint(want, name) ==> #[trigger] is_known(now, name)
}

/// No two of the files have one path, and the paths are valid.
pub open spec fn distinct_files(list: Seq<CandidateView>) -> bool {
    &&& forall|i: int, j: int|
        0 <= i < j < list.len() ==> (#[trigger] list[i]).path != (#[trigger] list[j]).path
    &&& forall|i: int| 0 <= i < list.len() ==> valid_path((#[trigger] list[i]).path)
}

proof fn lemma_all_recorded(
    cache: CacheView,
    list: Seq<CandidateView>,
    findings: Seq<Finding>,
    i: int,
)
    requires
        distinct_files(list),
        0 <= i < list.len(),
        findings_answer(findings, pending(cache.data.files, list)),
    ensures
        ({
            let c = list[i];
            let was = known(cache.data.files, c);
            let now = known(all_recorded(cache, findings).data.files, c);
            if found_at(findings, c.path) {
                knows_more(was, unknown(cache.data.files, c), now)
            } else {
                now == was
            }
        }),
    decreases findings.len(),
{
    if findings.len() > 0 {
        let init = findings.drop_last();
        let last = findings.last();
        let reads = pending(cache.data.files, list);
        let c = list[i];
        let want = unknown(cache.data.files, c);
        assert(findings_answer(init, reads)) by {
            assert forall|k: int| 0 <= k < init.len() implies reads.contains(
                (#[trigger] init[k]).read,
            ) && tells(init[k]) by {
                assert(init[k] == findings[k]);
            }
        }
        lemma_all_recorded(cache, list, init, i);
        let before = all_recorded(cache, init).data.files;
        let after = all_recorded(cache, findings).data.files;
        let was = known(cache.data.files, c);
        assert(reads.contains(findings[findings.len() - 1].read));
        assert(tells(findings[findings.len() - 1]));
        law_read_where_unknown(cache.data.files, list);
        let j = choose|j: int|
            0 <= j < list.len() && last.read == pending_of(cache.data.files, #[trigger] list[j]);
        if last.read.path == c.path {
            assert(i == j);
            assert(found_at(findings, c.path)) by {
                assert(findings[findings.len() - 1].read.path == c.path);
            }
            assert forall|name: Seq<char>|
                is_known(was, name) || has_fingerprint(want, name) implies #[trigger] is_known(
                known(after, c),
                name,
            ) by {
                if has_fingerprint(want, name) {
                    assert(last.matches.contains_key(name));
                } else if found_at(init, c.path) {
                    assert(is_known(known(before, c), name));
                }
            }
        } else {
            if unix_text(last.read.path) == unix_text(c.path) {
                assert(valid_path(list[j].path));
                assert(valid_path(list[i].path));
                lemma_unix_text_injective(last.read.path, c.path);
            }
            assert(known(after, c) == known(before, c));
            if found_at(init, c.path) {
                let k = choose|k: int|
                    0 <= k < init.len() && (#[trigger] init[k]).read.path == c.path;
                assert(findings[k].read.path == c.path);
            }
            if found_at(findings, c.path) {
                let k = choose|k: int|
                    0 <= k < findings.len() && (#[trigger] findings[k]).read.path == c.path;
                assert(init[k].read.path == c.path);
            }
        }
    }
}

proof fn lemma_nothing_missing(rules: Seq<CompiledView>, matches: Option<Map<Seq<char>, bool>>)
    requires
        forall|i: int|
            0 <= i < rules.len() ==> is_known(matches, (#[trigger] rules[i]).matcher.fingerprint),
    ensures
        missing(rules, matches).len() == 0,
{
    law_only_what_is_unknown_is_looked_for(rules, matches);
    if missing(rules, matches).len() > 0 {
        let name = missing(rules, matches)[0].fingerprint;
        assert(has_fingerprint(missing(rules, matches), name));
    }
}

proof fn lemma_nothing_pending(files: FilesView, list: Seq<CandidateView>)
    requires
        forall|i: int| 0 <= i < list.len() ==> unknown(files, #[trigger] list[i]).len() == 0,
    ensures
        pending(files, list).len() == 0,
    decreases list.len(),
{
    if list.len() > 0 {
        let init = list.drop_last();
        assert forall|i: int| 0 <= i < init.len() implies unknown(
            files,
            #[trigger] init[i],
        ).len() == 0 by {
            assert(init[i] == list[i]);
        }
        lemma_nothing_pending(files, init);
        assert(list[list.len() - 1] == list.last());
    }
}

/// Once every file that was to be read gave what was looked for, all is known.
pub proof fn lemma_all_known(
    cache: CacheView,
    list: Seq<CandidateView>,
    findings: Seq<Finding>,
    i: int,
)
    requires
        distinct_files(list),
        0 <= i < list.len(),
        findings_answer(findings, pending(cache.data.files, list)),
        forall|p: PendingView| #[trigger]
            pending(cache.data.files, list).contains(p) ==> found_at(findings, p.path),
    ensures
        unknown(all_recorded(cache, findings).data.files, list[i]).len() == 0,
{
    let c = list[i];
    let was = known(cache.data.files, c);
    let want = unknown(cache.data.files, c);
    let now = known(all_recorded(cache, findings).data.files, c);
    law_read_where_unknown(cache.data.files, list);
    lemma_all_recorded(cache, list, findings, i);
    law_only_what_is_unknown_is_looked_for(c.rules, was);
    if want.len() > 0 {
        assert(pending(cache.data.files, list).contains(pending_of(cache.data.files, c)));
        assert(found_at(findings, c.path));
    }
    assert forall|k: int| 0 <= k < c.rules.len() implies is_known(
        now,
        (#[trigger] c.rules[k]).matcher.fingerprint,
    ) by {
        let name = c.rules[k].matcher.fingerprint;
        assert(has_fingerprint(want, name) || is_known(was, name));
        if found_at(findings, c.path) {
            assert(knows_more(was, want, now));
        }
    }
    lemma_nothing_missing(c.rules, now);
}

/// Once every file that was to be read gave what was looked for, a second run over the same
/// worktree with the same rules reads nothing and gives the same badges.
pub proof fn law_second_run_reads_nothing(
    cache: CacheView,
    tree: TreeView,
    scopes: Seq<CompiledScopeView>,
    findings: Seq<Finding>,
)
    requires
        listing(tree.snapshot.entries),
        forall|k: int|
            0 <= k < tree.snapshot.entries.len() ==> valid_path(
                (#[trigger] tree.snapshot.entries[k]).path,
            ),
        ({
            let list = candidates(scopes, tree.snapshot.id, tree.snapshot.entries);
            let reads = pending(cache.data.files, list);
            &&& findings_answer(findings, reads)
            &&& forall|p: PendingView| #[trigger] reads.contains(p) ==> found_at(findings, p.path)
        }),
    ensures
        ({
            let list = candidates(scopes, tree.snapshot.id, tree.snapshot.entries);
            let first = all_recorded(cache, findings).data.files;
            let second = pruned(all_recorded(cache, findings), tree, Seq::empty()).data.files;
            &&& pending(second, list).len() == 0
            &&& all_contributions(second, list) == all_contributions(first, list)
        }),
{
    let id = tree.snapshot.id;
    let entries = tree.snapshot.entries;
    let list = candidates(scopes, id, entries);
    let done = all_recorded(cache, findings);
    let first = done.data.files;
    let second = pruned(done, tree, Seq::empty()).data.files;
    lemma_candidates_distinct(scopes, id, entries);
    assert forall|i: int| 0 <= i < list.len() implies same_at(first, second, #[trigger] list[i])
        && unknown(second, list[i]).len() == 0 by {
        law_candidates_come_in_path_order(scopes, id, entries);
        assert(stands_for_entry(scopes, id, entries, list[i]));
        let k = choose|k: int|
            0 <= k < entries.len() && is_candidate(scopes, id, #[trigger] entries[k]) && list[i]
                == candidate_of(scopes, id, entries[k]);
        law_unchanged_files_stay_known(done, tree, k);
        lemma_all_known(cache, list, findings, i);
        assert(known(second, list[i]) == known(first, list[i]));
    }
    lemma_nothing_pending(second, list);
    lemma_same_contributions(
        first,
        second,
        list,
        choose|positions: nat| positions_below(list, positions),
    );
}

pub proof fn lemma_candidates_distinct(
    scopes: Seq<CompiledScopeView>,
    worktree_id: usize,
    entries: Seq<EntryView>,
)
    requires
        listing(entries),
        forall|k: int| 0 <= k < entries.len() ==> valid_path((#[trigger] entries[k]).path),
    ensures
        distinct_files(candidates(scopes, worktree_id, entries)),
{
    let list = candidates(scopes, worktree_id, entries);
    law_candidates_come_in_path_order(scopes, worktree_id, entries);
    lemma_path_strict_total();
    let before = |a: Seq<Seq<char>>, b: Seq<Seq<char>>| path_before(a, b);
    assert forall|i: int, j: int| 0 <= i < j < list.len() implies (#[trigger] list[i]).path != (
    #[trigger] list[j]).path by {
        assert(path_before(list[i].path, list[j].path));
        assert(!before(list[i].path, list[i].path));
    }
    assert forall|i: int| 0 <= i < list.len() implies valid_path((#[trigger] list[i]).path) by {
        assert(stands_for_entry(scopes, worktree_id, entries, list[i]));
    }
}

spec fn same_at(a: FilesView, b: FilesView, candidate: CandidateView) -> bool {
    let text = unix_text(candidate.path);
    &&& a.contains_key(text) <==> b.contains_key(text)
    &&& a.contains_key(text) ==> a[text] == b[text]
}

proof fn lemma_same_from_candidates(
    a: FilesView,
    b: FilesView,
    list: Seq<CandidateView>,
    position: nat,
)
    requires
        forall|k: int| 0 <= k < list.len() ==> same_at(a, b, #[trigger] list[k]),
    ensures
        from_candidates(a, list, position) == from_candidates(b, list, position),
    decreases list.len(),
{
    if list.len() > 0 {
        assert(same_at(a, b, list[list.len() - 1]));
        assert forall|k: int| 0 <= k < list.drop_last().len() implies same_at(
            a,
            b,
            #[trigger] list.drop_last()[k],
        ) by {
            assert(same_at(a, b, list[k]));
        }
        lemma_same_from_candidates(a, b, list.drop_last(), position);
    }
}

proof fn lemma_same_contributions(
    a: FilesView,
    b: FilesView,
    list: Seq<CandidateView>,
    positions: nat,
)
    requires
        forall|k: int| 0 <= k < list.len() ==> same_at(a, b, #[trigger] list[k]),
    ensures
        contributions(a, list, positions) == contributions(b, list, positions),
    decreases positions,
{
    if positions > 0 {
        lemma_same_contributions(a, b, list, (positions - 1) as nat);
        lemma_same_from_candidates(a, b, list, (positions - 1) as nat);
    }
}

/// Rules that share a fingerprint look for the same.
pub open spec fn fingerprints_tell_apart(rules: Seq<CompiledView>) -> bool {
    forall|i: int, j: int|
        0 <= i < rules.len() && 0 <= j < rules.len() && (#[trigger] rules[i]).matcher.fingerprint
            == (#[trigger] rules[j]).matcher.fingerprint ==> rules[i].matcher == rules[j].matcher
}

pub proof fn lemma_missing_from_rules(
    rules: Seq<CompiledView>,
    matches: Option<Map<Seq<char>, bool>>,
    k: int,
)
    requires
        0 <= k < missing(rules, matches).len(),
    ensures
        exists|i: int|
            0 <= i < rules.len() && (#[trigger] rules[i]).matcher == missing(rules, matches)[k],
    decreases rules.len(),
{
    let init = rules.drop_last();
    let before = missing(init, matches);
    if k < before.len() {
        lemma_missing_from_rules(init, matches, k);
        let i = choose|i: int| 0 <= i < init.len() && (#[trigger] init[i]).matcher == before[k];
        assert(rules[i] == init[i]);
    } else {
        assert(rules[rules.len() - 1].matcher == missing(rules, matches)[k]);
    }
}

pub proof fn lemma_tabulated_at(matchers: Seq<MatcherView>, answers: Seq<bool>, k: int)
    requires
        0 <= k < matchers.len(),
        forall|i: int, j: int|
            0 <= i < j < matchers.len() ==> (#[trigger] matchers[i]).fingerprint != (
            #[trigger] matchers[j]).fingerprint,
    ensures
        tabulated(matchers, answers).contains_key(matchers[k].fingerprint),
        tabulated(matchers, answers)[matchers[k].fingerprint] == answers[k],
    decreases matchers.len(),
{
    if k < matchers.len() - 1 {
        let init = matchers.drop_last();
        assert forall|i: int, j: int| 0 <= i < j < init.len() implies (
        #[trigger] init[i]).fingerprint != (#[trigger] init[j]).fingerprint by {
            assert(matchers[i].fingerprint != matchers[j].fingerprint);
        }
        lemma_tabulated_at(init, answers, k);
        assert(matchers[k].fingerprint != matchers[matchers.len() - 1].fingerprint);
    }
}

/// A file that is read gives the badge of a rule exactly where it is a text in which the rule's
/// expression matches, at the path as many levels above it as the rule says; as long as rules that
/// look for different things have different fingerprints.
pub proof fn law_badge_follows_content(
    cache: CacheView,
    c: CandidateView,
    text: Option<Seq<char>>,
    k: int,
    target: Seq<Seq<char>>,
)
    requires
        0 <= k < c.rules.len(),
        known(cache.data.files, c) is None,
        fingerprints_tell_apart(c.rules),
    ensures
        ({
            let found = match_results(unknown(cache.data.files, c), text);
            let now = recorded(cache, c.path, c.version, Ok(found));
            gives(now.data.files, c, c.rules[k], target) <==> {
                &&& text matches Some(t) && regex_matches(c.rules[k].matcher.content, t)
                &&& ancestor(c.path, c.rules[k].level as nat) == Some(target)
            }
        }),
{
    let matchers = missing(c.rules, None);
    let answers = answers_of(matchers, text);
    let name = c.rules[k].matcher.fingerprint;
    law_only_what_is_unknown_is_looked_for(c.rules, None);
    assert(has_fingerprint(matchers, name));
    let j = choose|j: int| 0 <= j < matchers.len() && (#[trigger] matchers[j]).fingerprint == name;
    lemma_tabulated_at(matchers, answers, j);
    lemma_missing_from_rules(c.rules, None, j);
    let i = choose|i: int| 0 <= i < c.rules.len() && (#[trigger] c.rules[i]).matcher == matchers[j];
    assert(c.rules[i].matcher == c.rules[k].matcher);
}

/// Each cache has the form that is kept now.
pub open spec fn current_form(caches: CachesView) -> bool {
    forall|id: usize| #[trigger]
        caches.contains_key(id) ==> caches[id].data.version == CACHE_VERSION
}

/// The caches of a step.
pub open spec fn step_caches(step: StepView) -> CachesView {
    match step {
        StepView::Open(run) => run.caches,
        StepView::Read(run, _) => run.caches,
        StepView::Done(caches, _) => caches,
    }
}

proof fn lemma_next_step_form(run: RunView)
    requires
        current_form(run.caches),
    ensures
        current_form(step_caches(next_step(run))),
    decreases run.trees.len() - run.at,
{
    if run.at < run.trees.len() {
        lemma_next_step_form(run.advanced());
    }
}

/// What a run saves is found again: each step keeps the caches in the form that is kept now, and
/// a saved cache of that form is taken as it is.
pub proof fn law_saved_caches_are_used_again(
    run: RunView,
    opened: OpenedView,
    read: PendingView,
    result: MatchesView,
    cache: CacheView,
)
    requires
        current_form(run.caches),
        run.caches.contains_key(run.id()),
        cache.data.version == CACHE_VERSION,
    ensures
        current_form(step_caches(next_step(run))),
        current_form(step_caches(after_open(run, opened))),
        current_form(after_record(run, read, result).caches),
        current_form(step_caches(after_reads(run))),
        usable_cache(CacheReadView::Found(cache.data)) == cache.data,
{
    lemma_next_step_form(run);
    match opened {
        Err(error) => {
            let root = run.tree().snapshot.abs_path;
            lemma_next_step_form(run.with_error(Some(root + ": "@ + error)).advanced());
        },
        Ok((key, read)) => {},
    }
    lemma_next_step_form(collected(run).advanced());
}

} // verus!
