//! What holds of two runs, one after the other: nothing is read twice without need, also when the
//! caches were saved and opened again in between.
use vstd::prelude::*;

use crate::badge_laws::law_candidates_come_in_path_order;
use crate::badge_laws::law_no_text_matches_nothing;
use crate::badge_laws::law_only_what_is_unknown_is_looked_for;
use crate::badge_laws::law_read_where_unknown;
use crate::badge_laws::lemma_candidates_bounded;
use crate::badge_laws::stands_for_entry;
use crate::badges::all_contributions;
use crate::badges::contributions;
use crate::badges::from_candidates;
use crate::badges::from_rules;
use crate::badges::lemma_all_contributions;
use crate::cache::cache_read_error;
use crate::cache::invalidated;
use crate::cache::kept;
use crate::cache::kept_files;
use crate::cache::usable_cache;
use crate::cache::CacheReadView;
use crate::cache::CacheView;
use crate::cache::ChangeView;
use crate::cache::FileVersion;
use crate::cache::FilesView;
use crate::cache::PersistedView;
use crate::cache::TreeView;
use crate::cache::CACHE_VERSION;
use crate::cache_laws::all_recorded;
use crate::cache_laws::current_form;
use crate::cache_laws::distinct_files;
use crate::cache_laws::findings_answer;
use crate::cache_laws::found_at;
use crate::cache_laws::law_changed_cache_is_saved;
use crate::cache_laws::lemma_all_known;
use crate::cache_laws::lemma_candidates_distinct;
use crate::cache_laws::lemma_nothing_known;
use crate::cache_laws::tells;
use crate::cache_laws::Finding;
use crate::output_laws::in_range;
use crate::output_laws::valid_tree;
use crate::plan::candidate_of;
use crate::plan::candidates;
use crate::plan::has_fingerprint;
use crate::plan::is_candidate;
use crate::plan::known;
use crate::plan::missing;
use crate::plan::pending;
use crate::plan::pending_of;
use crate::plan::unknown;
use crate::plan::CandidateView;
use crate::plan::PendingView;
use crate::read::match_results;
use crate::rel_path::law_unix_text_round_trip;
use crate::rel_path::lemma_unix_text_injective;
use crate::rel_path::unix_text;
use crate::rel_path::within;
use crate::rules::has_rules;
use crate::rules::CompiledView;
use crate::run::all_read;
use crate::run::begun;
use crate::run::distinct_trees;
use crate::run::lemma_all_read_frame;
use crate::run::lemma_run_apart;
use crate::run::lemma_run_frame;
use crate::run::lemma_tree_done_frame;
use crate::run::read;
use crate::run::run_upto;
use crate::run::to_read;
use crate::run::tree_done;
use crate::run::whole_run;
use crate::run::with_open_cache;
use crate::run::works;
use crate::run::ReadAnswer;
use crate::run::TreeAnswers;
use crate::worker::has_tree;
use crate::worker::needs_cache;
use crate::worker::started;
use crate::worker::CachesView;
use crate::worker::RequestView;
use crate::worker::RunView;
use crate::worktree::entry_at;

verus! {

/// One of the answers is about the file at `index`.
pub open spec fn answered(answers: Seq<ReadAnswer>, index: int) -> bool {
    exists|i: int| 0 <= i < answers.len() && (#[trigger] answers[i]).index == index
}

/// A read that did not fail tells of all that was looked for, and of nothing else.
pub open spec fn tells_all(answer: ReadAnswer, reads: Seq<PendingView>) -> bool {
    answer.result matches Ok(found) ==> forall|name: Seq<char>| #[trigger]
        found.contains_key(name) <==> has_fingerprint(reads[answer.index].matchers, name)
}

/// Evaluating what is to be looked for in a file tells of all of it, and of nothing else.
pub proof fn law_evaluated_reads_tell_all(
    reads: Seq<PendingView>,
    index: int,
    text: Option<Seq<char>>,
)
    requires
        0 <= index < reads.len(),
    ensures
        tells_all(
            ReadAnswer { index, result: Ok(match_results(reads[index].matchers, text)) },
            reads,
        ),
{
    law_no_text_matches_nothing(reads[index].matchers, text);
}

/// Every file that was to be read was read, and nothing else.
pub open spec fn complete(answers: Seq<ReadAnswer>, reads: Seq<PendingView>) -> bool {
    &&& in_range(answers, reads)
    &&& forall|k: int| 0 <= k < reads.len() ==> #[trigger] answered(answers, k)
    &&& forall|i: int| 0 <= i < answers.len() ==> tells_all(#[trigger] answers[i], reads)
}

/// Every file that was to be read in a run was read.
pub open spec fn fully_answered(start: RunView, answers: Seq<TreeAnswers>) -> bool {
    forall|n: int|
        0 <= n < start.trees.len() ==> complete(
            (#[trigger] answers[n]).reads,
            to_read(run_upto(start, answers, n as nat), answers[n]),
        )
}

/// No two worktrees have one id, and each is as a scan gives it.
pub open spec fn valid_trees(trees: Seq<TreeView>) -> bool {
    &&& distinct_trees(trees)
    &&& forall|n: int| 0 <= n < trees.len() ==> valid_tree(#[trigger] trees[n])
}

/// The run came to no error of its own: what it reports is what is wrong with the rules.
pub open spec fn without_errors(start: RunView, answers: Seq<TreeAnswers>) -> bool {
    whole_run(start, answers).output.errors.len() == start.output.errors.len()
}

/// It is known of each file whether its rules match.
pub open spec fn settled(files: FilesView, list: Seq<CandidateView>) -> bool {
    forall|i: int| 0 <= i < list.len() ==> unknown(files, #[trigger] list[i]).len() == 0
}

proof fn lemma_errors_grow(start: RunView, answers: Seq<TreeAnswers>, m: nat, n: nat)
    requires
        m <= n,
    ensures
        run_upto(start, answers, m).output.errors.len() <= run_upto(
            start,
            answers,
            n,
        ).output.errors.len(),
    decreases n,
{
    if m < n {
        lemma_errors_grow(start, answers, m, (n - 1) as nat);
        lemma_tree_done_frame(run_upto(start, answers, (n - 1) as nat), answers[n - 1]);
    }
}

/// What was found in the files that were read.
pub open spec fn findings_of(reads: Seq<PendingView>, answers: Seq<ReadAnswer>) -> Seq<Finding> {
    answers.map_values(
        |a: ReadAnswer| Finding { read: reads[a.index], matches: a.result->Ok_0 },
    )
}

pub proof fn lemma_all_read(run: RunView, reads: Seq<PendingView>, answers: Seq<ReadAnswer>)
    requires
        forall|i: int| 0 <= i < answers.len() ==> (#[trigger] answers[i]).result is Ok,
    ensures
        all_read(run, reads, answers).output == run.output,
        all_read(run, reads, answers).cache() == all_recorded(
            run.cache(),
            findings_of(reads, answers),
        ),
    decreases answers.len(),
{
    if answers.len() > 0 {
        let init = answers.drop_last();
        assert forall|i: int| 0 <= i < init.len() implies (#[trigger] init[i]).result is Ok by {
            assert(answers[i].result is Ok);
        }
        lemma_all_read(run, reads, init);
        lemma_all_read_frame(run, reads, init);
        assert(answers[answers.len() - 1].result is Ok);
        let findings = findings_of(reads, answers);
        assert(findings.drop_last() =~= findings_of(reads, init));
    }
}

/// Once all of a worktree's files were read without an error, all is known of them.
pub proof fn lemma_settled(run: RunView, answers: TreeAnswers)
    requires
        valid_tree(run.tree()),
        works(run, answers),
        complete(answers.reads, to_read(run, answers)),
        forall|i: int| 0 <= i < answers.reads.len() ==> (#[trigger] answers.reads[i]).result is Ok,
    ensures
        settled(read(run, answers).cache().data.files, run.candidates()),
{
    let first = begun(run, answers);
    let reads = to_read(run, answers);
    let list = run.candidates();
    let findings = findings_of(reads, answers.reads);
    lemma_all_read(first, reads, answers.reads);
    lemma_candidates_distinct(run.scopes, run.id(), run.tree().snapshot.entries);
    assert(findings_answer(findings, reads)) by {
        assert forall|i: int| 0 <= i < findings.len() implies reads.contains(
            (#[trigger] findings[i]).read,
        ) && tells(findings[i]) by {
            let answer = answers.reads[i];
            assert(0 <= answer.index < reads.len());
            assert(reads[answer.index] == findings[i].read);
            assert(tells_all(answer, reads));
        }
    }
    assert forall|p: PendingView| #[trigger] reads.contains(p) implies found_at(
        findings,
        p.path,
    ) by {
        let k = reads.index_of(p);
        assert(answered(answers.reads, k));
        let i = choose|i: int|
            0 <= i < answers.reads.len() && (#[trigger] answers.reads[i]).index == k;
        assert(findings[i].read == p);
    }
    assert forall|i: int| 0 <= i < list.len() implies unknown(
        read(run, answers).cache().data.files,
        #[trigger] list[i],
    ).len() == 0 by {
        lemma_all_known(first.cache(), list, findings, i);
    }
}

/// What a run without errors leaves of the worktree at `n`.
proof fn lemma_tree_of_quiet_run(start: RunView, answers: Seq<TreeAnswers>, n: int)
    requires
        start.at == 0,
        valid_trees(start.trees),
        fully_answered(start, answers),
        without_errors(start, answers),
        0 <= n < start.trees.len(),
    ensures
        ({
            let run = run_upto(start, answers, n as nat);
            let done = whole_run(start, answers);
            let id = start.trees[n].snapshot.id;
            &&& run.tree() == start.trees[n]
            &&& run.scopes == start.scopes
            &&& run_upto(start, answers, (n + 1) as nat).output.errors == run.output.errors
            &&& has_rules(start.scopes, id) ==> {
                &&& works(run, answers[n])
                &&& read(run, answers[n]).output == run.output
                &&& read(run, answers[n]).candidates() == run.candidates()
                &&& read(run, answers[n]).id() == id
                &&& done.caches.contains_key(id)
                &&& done.caches[id] == read(run, answers[n]).cache()
                &&& settled(done.caches[id].data.files, run.candidates())
                &&& !needs_cache(done.caches, start.trees[n])
            }
        }),
{
    let run = run_upto(start, answers, n as nat);
    let now = run_upto(start, answers, (n + 1) as nat);
    let id = start.trees[n].snapshot.id;
    lemma_run_frame(start, answers, n as nat);
    lemma_errors_grow(start, answers, 0, n as nat);
    lemma_errors_grow(start, answers, n as nat, (n + 1) as nat);
    lemma_errors_grow(start, answers, (n + 1) as nat, start.trees.len());
    assert(now == tree_done(run, answers[n]));
    assert(now.output.errors.len() == run.output.errors.len());
    if has_rules(start.scopes, id) {
        assert(works(run, answers[n]));
        let first = begun(run, answers[n]);
        let reads = to_read(run, answers[n]);
        lemma_all_read_frame(first, reads, answers[n].reads);
        assert(first.output.errors.len() >= run.output.errors.len());
        assert(first.output == run.output);
        assert(complete(answers[n].reads, reads));
        assert(valid_tree(start.trees[n]));
        lemma_settled(run, answers[n]);
        assert forall|k: int| n + 1 <= k < start.trees.len() implies (
        #[trigger] start.trees[start.at + k]).snapshot.id != id by {
            assert(start.trees[n].snapshot.id != start.trees[k].snapshot.id);
        }
        lemma_run_apart(start, answers, (n + 1) as nat, start.trees.len(), id);
    }
}

/// What is known of the file at `text` about the matcher with this fingerprint.
pub open spec fn told(files: FilesView, text: Seq<char>, name: Seq<char>) -> Option<bool> {
    if files.contains_key(text) && files[text].matches.contains_key(name) {
        Some(files[text].matches[name])
    } else {
        None
    }
}

/// The same is known of the file about all of its rules.
spec fn agree_at(a: FilesView, b: FilesView, c: CandidateView) -> bool {
    let text = unix_text(c.path);
    &&& a.contains_key(text)
    &&& b.contains_key(text)
    &&& forall|j: int|
        0 <= j < c.rules.len() ==> told(a, text, (#[trigger] c.rules[j]).matcher.fingerprint)
            == told(b, text, c.rules[j].matcher.fingerprint)
}

proof fn lemma_agree_rules(
    a: FilesView,
    b: FilesView,
    path: Seq<Seq<char>>,
    rules: Seq<CompiledView>,
    position: nat,
)
    requires
        a.contains_key(unix_text(path)),
        b.contains_key(unix_text(path)),
        forall|j: int|
            0 <= j < rules.len() ==> told(
                a,
                unix_text(path),
                (#[trigger] rules[j]).matcher.fingerprint,
            ) == told(b, unix_text(path), rules[j].matcher.fingerprint),
    ensures
        from_rules(a[unix_text(path)].matches, path, rules, position) == from_rules(
            b[unix_text(path)].matches,
            path,
            rules,
            position,
        ),
    decreases rules.len(),
{
    if rules.len() > 0 {
        let init = rules.drop_last();
        assert forall|j: int| 0 <= j < init.len() implies told(
            a,
            unix_text(path),
            (#[trigger] init[j]).matcher.fingerprint,
        ) == told(b, unix_text(path), init[j].matcher.fingerprint) by {
            assert(rules[j] == init[j]);
        }
        lemma_agree_rules(a, b, path, init, position);
        assert(rules[rules.len() - 1] == rules.last());
    }
}

proof fn lemma_agree_candidates(
    a: FilesView,
    b: FilesView,
    list: Seq<CandidateView>,
    position: nat,
)
    requires
        forall|i: int| 0 <= i < list.len() ==> agree_at(a, b, #[trigger] list[i]),
    ensures
        from_candidates(a, list, position) == from_candidates(b, list, position),
    decreases list.len(),
{
    if list.len() > 0 {
        let init = list.drop_last();
        assert forall|i: int| 0 <= i < init.len() implies agree_at(a, b, #[trigger] init[i]) by {
            assert(agree_at(a, b, list[i]));
        }
        lemma_agree_candidates(a, b, init, position);
        assert(agree_at(a, b, list[list.len() - 1]));
        lemma_agree_rules(a, b, list.last().path, list.last().rules, position);
    }
}

proof fn lemma_agree_contributions(
    a: FilesView,
    b: FilesView,
    list: Seq<CandidateView>,
    positions: nat,
)
    requires
        forall|i: int| 0 <= i < list.len() ==> agree_at(a, b, #[trigger] list[i]),
    ensures
        contributions(a, list, positions) == contributions(b, list, positions),
    decreases positions,
{
    if positions > 0 {
        lemma_agree_contributions(a, b, list, (positions - 1) as nat);
        lemma_agree_candidates(a, b, list, (positions - 1) as nat);
    }
}

/// The read gave what is known of the file already.
pub open spec fn finds_again(
    answer: ReadAnswer,
    reads: Seq<PendingView>,
    files: FilesView,
) -> bool {
    answer.result matches Ok(found) && forall|name: Seq<char>| #[trigger]
        found.contains_key(name) ==> told(files, unix_text(reads[answer.index].path), name)
            == Some(found[name])
}

/// What is known of the file is among what is known of it in `truth`.
spec fn believes(files: FilesView, truth: FilesView, c: CandidateView) -> bool {
    let text = unix_text(c.path);
    files.contains_key(text) ==> files[text].version == c.version && forall|name: Seq<char>|
        #[trigger]
        files[text].matches.contains_key(name) ==> told(truth, text, name) == Some(
            files[text].matches[name],
        )
}

proof fn lemma_believes(
    cache: CacheView,
    truth: FilesView,
    list: Seq<CandidateView>,
    reads: Seq<PendingView>,
    answers: Seq<ReadAnswer>,
    i: int,
)
    requires
        distinct_files(list),
        0 <= i < list.len(),
        reads == pending(cache.data.files, list),
        in_range(answers, reads),
        forall|k: int|
            0 <= k < answers.len() ==> finds_again(#[trigger] answers[k], reads, truth),
        believes(cache.data.files, truth, list[i]),
    ensures
        believes(
            all_recorded(cache, findings_of(reads, answers)).data.files,
            truth,
            list[i],
        ),
    decreases answers.len(),
{
    if answers.len() > 0 {
        let init = answers.drop_last();
        assert forall|k: int| 0 <= k < init.len() implies 0 <= (#[trigger] init[k]).index
            < reads.len() && finds_again(init[k], reads, truth) by {
            assert(init[k] == answers[k]);
        }
        lemma_believes(cache, truth, list, reads, init, i);
        let findings = findings_of(reads, answers);
        assert(findings.drop_last() =~= findings_of(reads, init));
        let answer = answers[answers.len() - 1];
        assert(finds_again(answer, reads, truth));
        let p = reads[answer.index];
        assert(reads.contains(p));
        law_read_where_unknown(cache.data.files, list);
        let j = choose|j: int|
            0 <= j < list.len() && p == pending_of(cache.data.files, #[trigger] list[j]);
        let c = list[i];
        if i != j {
            if unix_text(p.path) == unix_text(c.path) {
                assert(list[j].path == p.path);
                lemma_unix_text_injective(p.path, c.path);
                if i < j {
                    assert(list[i].path != list[j].path);
                } else {
                    assert(list[j].path != list[i].path);
                }
            }
        }
    }
}

/// What is read again of a worktree of which all was known: the files that changed.
pub open spec fn read_again(
    reads: Seq<PendingView>,
    list: Seq<CandidateView>,
    changes: Seq<ChangeView>,
    worktree_id: usize,
) -> bool {
    forall|p: PendingView| #[trigger]
        reads.contains(p) <==> exists|i: int|
            0 <= i < list.len() && invalidated(changes, worktree_id, (#[trigger] list[i]).path) && p
                == (PendingView {
                path: list[i].path,
                version: list[i].version,
                matchers: missing(list[i].rules, None),
            })
}

proof fn lemma_known_after_pruning(
    run: RunView,
    answers: TreeAnswers,
    truth: FilesView,
    i: int,
)
    requires
        valid_tree(run.tree()),
        0 <= i < run.candidates().len(),
        settled(truth, run.candidates()),
        begun(run, answers).cache().data.files == kept_files(truth, run.tree(), run.changes),
    ensures
        ({
            let files = begun(run, answers).cache().data.files;
            let c = run.candidates()[i];
            &&& c.rules.len() > 0
            &&& invalidated(run.changes, run.id(), c.path) ==> known(files, c) is None
            &&& !invalidated(run.changes, run.id(), c.path) ==> unknown(files, c).len() == 0
            &&& believes(files, truth, c)
        }),
{
    let tree = run.tree();
    let entries = tree.snapshot.entries;
    let list = run.candidates();
    let c = list[i];
    let files = begun(run, answers).cache().data.files;
    let text = unix_text(c.path);
    law_candidates_come_in_path_order(run.scopes, run.id(), entries);
    assert(stands_for_entry(run.scopes, run.id(), entries, c));
    let k = choose|k: int|
        0 <= k < entries.len() && is_candidate(run.scopes, run.id(), #[trigger] entries[k]) && c
            == candidate_of(run.scopes, run.id(), entries[k]);
    law_unix_text_round_trip(c.path, Seq::empty());
    assert(entry_at(entries, c.path, k));
    assert(unknown(truth, c).len() == 0);
    if known(truth, c) is None {
        lemma_nothing_known(c.rules);
    }
    if !invalidated(run.changes, run.id(), c.path) {
        assert(kept(text, tree, run.changes));
        assert(known(files, c) == known(truth, c));
    } else {
        assert(!kept(text, tree, run.changes));
    }
}

/// Of a worktree of which all was known, what changed is read again.
proof fn lemma_read_again(run: RunView, answers: TreeAnswers, truth: FilesView)
    requires
        valid_tree(run.tree()),
        works(run, answers),
        settled(truth, run.candidates()),
        begun(run, answers).cache().data.files == kept_files(truth, run.tree(), run.changes),
    ensures
        read_again(to_read(run, answers), run.candidates(), run.changes, run.id()),
{
    let files = begun(run, answers).cache().data.files;
    let reads = to_read(run, answers);
    let list = run.candidates();
    let id = run.id();
    law_read_where_unknown(files, list);
    assert forall|p: PendingView| #[trigger] reads.contains(p) <==> exists|i: int|
        0 <= i < list.len() && invalidated(run.changes, id, (#[trigger] list[i]).path) && p == (
        PendingView {
            path: list[i].path,
            version: list[i].version,
            matchers: missing(list[i].rules, None),
        }) by {
        if reads.contains(p) {
            let i = choose|i: int|
                0 <= i < list.len() && p == pending_of(files, #[trigger] list[i]);
            lemma_known_after_pruning(run, answers, truth, i);
            assert(invalidated(run.changes, id, list[i].path));
        }
        if exists|i: int|
            0 <= i < list.len() && invalidated(run.changes, id, (#[trigger] list[i]).path) && p == (
            PendingView {
                path: list[i].path,
                version: list[i].version,
                matchers: missing(list[i].rules, None),
            }) {
            let i = choose|i: int|
                0 <= i < list.len() && invalidated(run.changes, id, (#[trigger] list[i]).path) && p
                    == (PendingView {
                    path: list[i].path,
                    version: list[i].version,
                    matchers: missing(list[i].rules, None),
                });
            lemma_known_after_pruning(run, answers, truth, i);
            lemma_nothing_known(list[i].rules);
            assert(p == pending_of(files, list[i]));
        }
    }
}

/// If what is read again of a worktree is as it was, the same is known as before.
proof fn lemma_known_again(run: RunView, answers: TreeAnswers, truth: FilesView)
    requires
        valid_tree(run.tree()),
        works(run, answers),
        settled(truth, run.candidates()),
        begun(run, answers).cache().data.files == kept_files(truth, run.tree(), run.changes),
        complete(answers.reads, to_read(run, answers)),
        forall|i: int|
            0 <= i < answers.reads.len() ==> finds_again(
                #[trigger] answers.reads[i],
                to_read(run, answers),
                truth,
            ),
    ensures
        read(run, answers).output == begun(run, answers).output,
        all_contributions(read(run, answers).cache().data.files, run.candidates())
            == all_contributions(truth, run.candidates()),
{
    let first = begun(run, answers);
    let reads = to_read(run, answers);
    let list = run.candidates();
    let id = run.id();
    assert forall|i: int| 0 <= i < answers.reads.len() implies (
    #[trigger] answers.reads[i]).result is Ok by {
        assert(finds_again(answers.reads[i], reads, truth));
    }
    lemma_all_read(first, reads, answers.reads);
    lemma_settled(run, answers);
    lemma_candidates_distinct(run.scopes, id, run.tree().snapshot.entries);
    let now = read(run, answers).cache().data.files;
    assert forall|i: int| 0 <= i < list.len() implies agree_at(now, truth, #[trigger] list[i]) by {
        let c = list[i];
        let text = unix_text(c.path);
        lemma_known_after_pruning(run, answers, truth, i);
        lemma_believes(first.cache(), truth, list, reads, answers.reads, i);
        assert(unknown(now, c).len() == 0);
        law_only_what_is_unknown_is_looked_for(c.rules, known(now, c));
        if known(now, c) is None {
            lemma_nothing_known(c.rules);
        }
        assert forall|j: int| 0 <= j < c.rules.len() implies told(
            now,
            text,
            (#[trigger] c.rules[j]).matcher.fingerprint,
        ) == told(truth, text, c.rules[j].matcher.fingerprint) by {
            let name = c.rules[j].matcher.fingerprint;
            assert(!has_fingerprint(missing(c.rules, known(now, c)), name));
            assert(now[text].matches.contains_key(name));
        }
        let name = c.rules[0].matcher.fingerprint;
        assert(told(now, text, name) == told(truth, text, name));
        assert(!has_fingerprint(missing(c.rules, known(now, c)), name));
    }
    let n = lemma_candidates_bounded(list);
    lemma_all_contributions(now, list, n);
    lemma_all_contributions(truth, list, n);
    lemma_agree_contributions(now, truth, list, n);
}

/// A run starts from what these caches know: they are there, or what is opened holds the same.
pub open spec fn starts_from(
    start: RunView,
    answers: Seq<TreeAnswers>,
    caches: CachesView,
) -> bool {
    forall|n: int|
        0 <= n < start.trees.len() && has_rules(
            start.scopes,
            (#[trigger] start.trees[n]).snapshot.id,
        ) ==> {
            let id = start.trees[n].snapshot.id;
            if needs_cache(start.caches, start.trees[n]) {
                &&& answers[n].opened is Ok
                &&& cache_read_error(
                    start.trees[n].snapshot.abs_path,
                    answers[n].opened->Ok_0.1,
                ) is None
                &&& usable_cache(answers[n].opened->Ok_0.1) == caches[id].data
            } else {
                start.caches[id].data == caches[id].data
            }
        }
}

/// What is read in a run is as these caches know it.
pub open spec fn finds_all_again(
    start: RunView,
    answers: Seq<TreeAnswers>,
    caches: CachesView,
) -> bool {
    forall|n: int, i: int|
        0 <= n < start.trees.len() && 0 <= i < answers[n].reads.len() ==> finds_again(
            #[trigger] answers[n].reads[i],
            to_read(run_upto(start, answers, n as nat), answers[n]),
            caches[start.trees[n].snapshot.id].data.files,
        )
}

/// Two runs over the same worktrees with the same rules, of which the second one starts from what
/// the first one left.
pub open spec fn follows(
    first: RunView,
    answers: Seq<TreeAnswers>,
    second: RunView,
    again: Seq<TreeAnswers>,
) -> bool {
    &&& first.at == 0
    &&& second.at == 0
    &&& second.trees == first.trees
    &&& second.scopes == first.scopes
    &&& second.output == first.output
    &&& valid_trees(first.trees)
    &&& fully_answered(first, answers)
    &&& without_errors(first, answers)
    &&& fully_answered(second, again)
    &&& starts_from(second, again, whole_run(first, answers).caches)
}

/// What is read of the worktree at `n` in a second run.
pub open spec fn read_again_at(start: RunView, answers: Seq<TreeAnswers>, n: int) -> bool {
    let tree = start.trees[n];
    let id = tree.snapshot.id;
    let reads = to_read(run_upto(start, answers, n as nat), answers[n]);
    if has_rules(start.scopes, id) {
        read_again(
            reads,
            candidates(start.scopes, id, tree.snapshot.entries),
            start.changes,
            id,
        )
    } else {
        reads.len() == 0
    }
}

proof fn lemma_read_again_at(
    first: RunView,
    answers: Seq<TreeAnswers>,
    second: RunView,
    again: Seq<TreeAnswers>,
    n: int,
)
    requires
        follows(first, answers, second, again),
        0 <= n < first.trees.len(),
    ensures
        ({
            let run = run_upto(second, again, n as nat);
            let id = second.trees[n].snapshot.id;
            let left = whole_run(first, answers).caches[id];
            &&& run.tree() == second.trees[n]
            &&& run.scopes == second.scopes
            &&& run.changes == second.changes
            &&& needs_cache(run.caches, run.tree()) == needs_cache(second.caches, run.tree())
            &&& has_rules(second.scopes, id) ==> {
                &&& works(run, again[n])
                &&& begun(run, again[n]).output == run.output
                &&& begun(run, again[n]).cache().data.files == kept_files(
                    left.data.files,
                    run.tree(),
                    run.changes,
                )
            }
        }),
        read_again_at(second, again, n),
{
    lemma_tree_of_quiet_run(first, answers, n);
    lemma_run_frame(second, again, n as nat);
    let done = whole_run(first, answers);
    let run = run_upto(second, again, n as nat);
    let id = second.trees[n].snapshot.id;
    assert forall|j: int| 0 <= j < n implies (#[trigger] second.trees[second.at
        + j]).snapshot.id != id by {
        assert(first.trees[j].snapshot.id != first.trees[n].snapshot.id);
    }
    lemma_run_apart(second, again, 0, n as nat, id);
    if has_rules(second.scopes, id) {
        assert(works(run, again[n]));
        assert(with_open_cache(run, again[n].opened).cache().data == done.caches[id].data);
        assert(valid_tree(first.trees[n]));
        lemma_read_again(run, again[n], done.caches[id].data.files);
    }
}

proof fn lemma_second_run(
    first: RunView,
    answers: Seq<TreeAnswers>,
    second: RunView,
    again: Seq<TreeAnswers>,
    n: nat,
)
    requires
        follows(first, answers, second, again),
        finds_all_again(second, again, whole_run(first, answers).caches),
        n <= first.trees.len(),
    ensures
        run_upto(second, again, n).output == run_upto(first, answers, n).output,
    decreases n,
{
    if n > 0 {
        let k = n - 1;
        lemma_second_run(first, answers, second, again, k as nat);
        lemma_tree_of_quiet_run(first, answers, k);
        lemma_read_again_at(first, answers, second, again, k);
        let done = whole_run(first, answers);
        let run = run_upto(second, again, k as nat);
        let id = second.trees[k].snapshot.id;
        if has_rules(second.scopes, id) {
            let truth = done.caches[id].data.files;
            assert(valid_tree(first.trees[k]));
            assert(complete(again[k].reads, to_read(run, again[k])));
            assert forall|i: int| 0 <= i < again[k].reads.len() implies finds_again(
                #[trigger] again[k].reads[i],
                to_read(run, again[k]),
                truth,
            ) by {}
            lemma_known_again(run, again[k], truth);
            lemma_all_read_frame(begun(run, again[k]), to_read(run, again[k]), again[k].reads);
        }
    }
}

/// After a run without errors, a second one over the same worktrees with the same rules reads the
/// files that changed in between, and no others. If they are found as they were, its output is the
/// same.
pub proof fn law_second_run_reads_what_changed(
    first: RunView,
    answers: Seq<TreeAnswers>,
    second: RunView,
    again: Seq<TreeAnswers>,
)
    requires
        follows(first, answers, second, again),
    ensures
        forall|n: int|
            0 <= n < second.trees.len() ==> #[trigger] read_again_at(second, again, n),
        finds_all_again(second, again, whole_run(first, answers).caches) ==> whole_run(
            second,
            again,
        ).output == whole_run(first, answers).output,
{
    assert forall|n: int| 0 <= n < second.trees.len() implies #[trigger] read_again_at(
        second,
        again,
        n,
    ) by {
        lemma_read_again_at(first, answers, second, again, n);
    }
    if finds_all_again(second, again, whole_run(first, answers).caches) {
        lemma_second_run(first, answers, second, again, first.trees.len());
    }
}

/// Nothing is read of any worktree in the run.
pub open spec fn reads_nothing(start: RunView, answers: Seq<TreeAnswers>) -> bool {
    forall|n: int|
        0 <= n < start.trees.len() ==> to_read(
            run_upto(start, answers, n as nat),
            #[trigger] answers[n],
        ).len() == 0
}

proof fn lemma_nothing_changed(
    first: RunView,
    answers: Seq<TreeAnswers>,
    second: RunView,
    again: Seq<TreeAnswers>,
)
    requires
        follows(first, answers, second, again),
        second.changes.len() == 0,
    ensures
        reads_nothing(second, again),
        whole_run(second, again).output == whole_run(first, answers).output,
{
    assert forall|n: int| 0 <= n < second.trees.len() implies to_read(
        run_upto(second, again, n as nat),
        #[trigger] again[n],
    ).len() == 0 && again[n].reads.len() == 0 by {
        let reads = to_read(run_upto(second, again, n as nat), again[n]);
        lemma_read_again_at(first, answers, second, again, n);
        if reads.len() > 0 {
            assert(reads.contains(reads[0]));
        }
        assert(complete(again[n].reads, reads));
        if again[n].reads.len() > 0 {
            assert(0 <= again[n].reads[0].index < reads.len());
        }
    }
    law_second_run_reads_what_changed(first, answers, second, again);
}

/// A later request over the same worktrees with the same rules.
pub open spec fn later_request(
    request: RequestView,
    generation: usize,
    changes: Seq<ChangeView>,
) -> RequestView {
    RequestView { generation, changes, ..request }
}

proof fn lemma_caches_in_memory(
    caches: CachesView,
    request: RequestView,
    icons: Map<Seq<char>, Seq<char>>,
    answers: Seq<TreeAnswers>,
    later: RequestView,
    again: Seq<TreeAnswers>,
)
    requires
        valid_trees(request.trees),
        fully_answered(started(caches, request, icons), answers),
        without_errors(started(caches, request, icons), answers),
        later == later_request(request, later.generation, later.changes),
        fully_answered(
            started(
                whole_run(started(caches, request, icons), answers).caches,
                later,
                icons,
            ),
            again,
        ),
    ensures
        ({
            let first = started(caches, request, icons);
            let second = started(whole_run(first, answers).caches, later, icons);
            &&& follows(first, answers, second, again)
            &&& forall|n: int|
                0 <= n < request.trees.len() && has_rules(
                    second.scopes,
                    (#[trigger] request.trees[n]).snapshot.id,
                ) ==> !needs_cache(second.caches, request.trees[n])
        }),
{
    let first = started(caches, request, icons);
    let left = whole_run(first, answers).caches;
    let second = started(left, later, icons);
    assert forall|n: int|
        0 <= n < request.trees.len() && has_rules(
            second.scopes,
            (#[trigger] request.trees[n]).snapshot.id,
        ) implies !needs_cache(second.caches, request.trees[n]) && second.caches[
        request.trees[n].snapshot.id] == left[request.trees[n].snapshot.id] by {
        lemma_tree_of_quiet_run(first, answers, n);
        assert(has_tree(request.trees, request.trees[n].snapshot.id));
    }
}

/// After a run without errors, a second one over the same worktrees with the same rules opens no
/// cache and reads nothing, and its output is the same.
pub proof fn law_repeated_run_reads_nothing(
    caches: CachesView,
    request: RequestView,
    icons: Map<Seq<char>, Seq<char>>,
    answers: Seq<TreeAnswers>,
    generation: usize,
    again: Seq<TreeAnswers>,
)
    requires
        valid_trees(request.trees),
        fully_answered(started(caches, request, icons), answers),
        without_errors(started(caches, request, icons), answers),
        fully_answered(
            started(
                whole_run(started(caches, request, icons), answers).caches,
                later_request(request, generation, Seq::empty()),
                icons,
            ),
            again,
        ),
    ensures
        ({
            let first = started(caches, request, icons);
            let done = whole_run(first, answers);
            let second = started(
                done.caches,
                later_request(request, generation, Seq::empty()),
                icons,
            );
            &&& reads_nothing(second, again)
            &&& whole_run(second, again).output == done.output
            &&& forall|n: int|
                0 <= n < request.trees.len() && has_rules(
                    second.scopes,
                    (#[trigger] request.trees[n]).snapshot.id,
                ) ==> !needs_cache(
                    run_upto(second, again, n as nat).caches,
                    request.trees[n],
                )
        }),
{
    let later = later_request(request, generation, Seq::empty());
    let first = started(caches, request, icons);
    let second = started(whole_run(first, answers).caches, later, icons);
    lemma_caches_in_memory(caches, request, icons, answers, later, again);
    lemma_nothing_changed(first, answers, second, again);
    assert forall|n: int|
        0 <= n < request.trees.len() && has_rules(
            second.scopes,
            (#[trigger] request.trees[n]).snapshot.id,
        ) implies !needs_cache(run_upto(second, again, n as nat).caches, request.trees[n]) by {
        lemma_read_again_at(first, answers, second, again, n);
    }
}

/// The files for which rules hold at or below a path of a worktree are what is read, each for all
/// of its rules.
pub open spec fn reads_below(
    reads: Seq<PendingView>,
    list: Seq<CandidateView>,
    path: Seq<Seq<char>>,
) -> bool {
    forall|p: PendingView| #[trigger]
        reads.contains(p) <==> exists|i: int|
            0 <= i < list.len() && within((#[trigger] list[i]).path, path) && p == (PendingView {
                path: list[i].path,
                version: list[i].version,
                matchers: missing(list[i].rules, None),
            })
}

/// After a run without errors, a second one with one changed path reads the files for which rules
/// hold at or below that path, and no others. If they are found as they were, its output is the
/// same.
pub proof fn law_changed_path_is_read_again(
    caches: CachesView,
    request: RequestView,
    icons: Map<Seq<char>, Seq<char>>,
    answers: Seq<TreeAnswers>,
    generation: usize,
    change: ChangeView,
    again: Seq<TreeAnswers>,
)
    requires
        valid_trees(request.trees),
        fully_answered(started(caches, request, icons), answers),
        without_errors(started(caches, request, icons), answers),
        fully_answered(
            started(
                whole_run(started(caches, request, icons), answers).caches,
                later_request(request, generation, seq![change]),
                icons,
            ),
            again,
        ),
    ensures
        ({
            let first = started(caches, request, icons);
            let done = whole_run(first, answers);
            let second = started(
                done.caches,
                later_request(request, generation, seq![change]),
                icons,
            );
            &&& forall|n: int|
                0 <= n < request.trees.len() ==> {
                    let tree = request.trees[n];
                    let reads = to_read(
                        run_upto(second, again, n as nat),
                        #[trigger] again[n],
                    );
                    if tree.snapshot.id == change.0 && has_rules(
                        second.scopes,
                        tree.snapshot.id,
                    ) {
                        reads_below(
                            reads,
                            candidates(second.scopes, tree.snapshot.id, tree.snapshot.entries),
                            change.1,
                        )
                    } else {
                        reads.len() == 0
                    }
                }
            &&& finds_all_again(second, again, done.caches) ==> whole_run(second, again).output
                == done.output
        }),
{
    let changes = seq![change];
    let later = later_request(request, generation, changes);
    let first = started(caches, request, icons);
    let second = started(whole_run(first, answers).caches, later, icons);
    lemma_caches_in_memory(caches, request, icons, answers, later, again);
    law_second_run_reads_what_changed(first, answers, second, again);
    assert forall|n: int| 0 <= n < request.trees.len() implies {
        let tree = request.trees[n];
        let reads = to_read(run_upto(second, again, n as nat), #[trigger] again[n]);
        if tree.snapshot.id == change.0 && has_rules(second.scopes, tree.snapshot.id) {
            reads_below(
                reads,
                candidates(second.scopes, tree.snapshot.id, tree.snapshot.entries),
                change.1,
            )
        } else {
            reads.len() == 0
        }
    } by {
        let tree = request.trees[n];
        let id = tree.snapshot.id;
        let list = candidates(second.scopes, id, tree.snapshot.entries);
        let reads = to_read(run_upto(second, again, n as nat), again[n]);
        assert(read_again_at(second, again, n));
        assert(changes[0] == change);
        assert forall|path: Seq<Seq<char>>| #[trigger] invalidated(changes, id, path) <==> id
            == change.0 && within(path, change.1) by {}
        if has_rules(second.scopes, id) && id == change.0 {
            assert forall|p: PendingView| #[trigger] reads.contains(p) <==> exists|i: int|
                0 <= i < list.len() && within((#[trigger] list[i]).path, change.1) && p == (
                PendingView {
                    path: list[i].path,
                    version: list[i].version,
                    matchers: missing(list[i].rules, None),
                }) by {
                assert forall|i: int| 0 <= i < list.len() implies within(
                    (#[trigger] list[i]).path,
                    change.1,
                ) == invalidated(changes, id, list[i].path) by {}
            }
        } else if reads.len() > 0 {
            assert(reads.contains(reads[0]));
        }
    }
}

/// The caches that a database keeps, by their keys.
pub type DatabaseView = Map<Seq<char>, PersistedView>;

/// What is read from the database under a key.
pub open spec fn kept_under(database: DatabaseView, key: Seq<char>) -> CacheReadView {
    if database.contains_key(key) {
        CacheReadView::Found(database[key])
    } else {
        CacheReadView::Missing
    }
}

/// A cache that is not to be saved holds what the database does.
pub open spec fn in_step(database: DatabaseView, cache: CacheView) -> bool {
    !cache.dirty ==> usable_cache(kept_under(database, cache.key)) == cache.data
}

/// Each cache that is not to be saved holds what the database does.
pub open spec fn all_in_step(database: DatabaseView, caches: CachesView) -> bool {
    forall|id: usize| #[trigger] caches.contains_key(id) ==> in_step(database, caches[id])
}

/// The caches that are opened in the run come from the database.
pub open spec fn opens_from(
    database: DatabaseView,
    start: RunView,
    answers: Seq<TreeAnswers>,
) -> bool {
    forall|n: int|
        0 <= n < start.trees.len() && (#[trigger] answers[n]).opened is Ok
            ==> answers[n].opened->Ok_0.1 == kept_under(database, answers[n].opened->Ok_0.0)
}

/// The cache of the worktree `id` is to be saved under this key.
pub open spec fn saves_under(caches: CachesView, id: usize, key: Seq<char>) -> bool {
    caches.contains_key(id) && caches[id].dirty && caches[id].key == key
}

/// The database once all caches that are to be saved were written to it.
pub open spec fn all_saved(database: DatabaseView, caches: CachesView) -> DatabaseView {
    Map::new(
        |key: Seq<char>|
            database.contains_key(key) || exists|id: usize| saves_under(caches, id, key),
        |key: Seq<char>|
            if exists|id: usize| saves_under(caches, id, key) {
                caches[choose|id: usize| saves_under(caches, id, key)].data
            } else {
                database[key]
            },
    )
}

/// No two caches are kept under one key.
pub open spec fn distinct_keys(caches: CachesView) -> bool {
    forall|a: usize, b: usize|
        a != b && #[trigger] caches.contains_key(a) && #[trigger] caches.contains_key(b)
            ==> caches[a].key != caches[b].key
}

proof fn lemma_all_read_in_step(
    database: DatabaseView,
    run: RunView,
    reads: Seq<PendingView>,
    answers: Seq<ReadAnswer>,
)
    requires
        in_step(database, run.cache()),
    ensures
        in_step(database, all_read(run, reads, answers).cache()),
    decreases answers.len(),
{
    if answers.len() > 0 {
        let init = answers.drop_last();
        lemma_all_read_in_step(database, run, reads, init);
        lemma_all_read_frame(run, reads, init);
        let before = all_read(run, reads, init);
        let p = reads[answers.last().index];
        law_changed_cache_is_saved(
            before.cache(),
            before.tree(),
            before.changes,
            p.path,
            p.version,
            answers.last().result,
        );
    }
}

proof fn lemma_run_in_step(
    database: DatabaseView,
    start: RunView,
    answers: Seq<TreeAnswers>,
    n: nat,
)
    requires
        start.at == 0,
        n <= start.trees.len(),
        all_in_step(database, start.caches),
        current_form(start.caches),
        opens_from(database, start, answers),
    ensures
        all_in_step(database, run_upto(start, answers, n).caches),
        current_form(run_upto(start, answers, n).caches),
    decreases n,
{
    if n > 0 {
        let k = n - 1;
        lemma_run_in_step(database, start, answers, k as nat);
        lemma_run_frame(start, answers, k as nat);
        let run = run_upto(start, answers, k as nat);
        let now = run_upto(start, answers, n);
        if works(run, answers[k]) {
            let open = with_open_cache(run, answers[k].opened);
            let first = begun(run, answers[k]);
            let reads = to_read(run, answers[k]);
            assert(in_step(database, open.cache()));
            assert(open.cache().data.version == CACHE_VERSION);
            law_changed_cache_is_saved(
                open.cache(),
                open.tree(),
                open.changes,
                Seq::empty(),
                FileVersion { inode: 0, mtime: None, size: 0 },
                Err(Seq::empty()),
            );
            assert(in_step(database, first.cache()));
            lemma_all_read_in_step(database, first, reads, answers[k].reads);
            lemma_all_read_frame(first, reads, answers[k].reads);
            assert forall|id: usize| #[trigger] now.caches.contains_key(id) implies in_step(
                database,
                now.caches[id],
            ) && now.caches[id].data.version == CACHE_VERSION by {
                if id != run.id() {
                    assert(now.caches.contains_key(id) == first.caches.contains_key(id));
                    assert(run.caches.contains_key(id));
                }
            }
        }
    }
}

/// Once all caches were saved, each one is found again in the database.
pub proof fn law_saved_caches_are_found_again(
    database: DatabaseView,
    caches: CachesView,
    id: usize,
)
    requires
        all_in_step(database, caches),
        current_form(caches),
        distinct_keys(caches),
        caches.contains_key(id),
    ensures
        usable_cache(kept_under(all_saved(database, caches), caches[id].key)) == caches[id].data,
{
    let key = caches[id].key;
    assert(in_step(database, caches[id]));
    if caches[id].dirty {
        assert(saves_under(caches, id, key));
        let other = choose|id: usize| saves_under(caches, id, key);
        assert(saves_under(caches, other, key));
        assert(other == id);
    } else {
        assert forall|other: usize| !saves_under(caches, other, key) by {
            if saves_under(caches, other, key) {
                assert(other == id);
            }
        }
    }
}

/// The caches of the worktrees with rules are opened from the database in the run, under the keys
/// that they have.
pub open spec fn reopens(
    database: DatabaseView,
    start: RunView,
    answers: Seq<TreeAnswers>,
    caches: CachesView,
) -> bool {
    forall|n: int|
        0 <= n < start.trees.len() && has_rules(
            start.scopes,
            (#[trigger] start.trees[n]).snapshot.id,
        ) ==> {
            let key = caches[start.trees[n].snapshot.id].key;
            answers[n].opened == Ok::<(Seq<char>, CacheReadView), Seq<char>>(
                (key, kept_under(database, key)),
            )
        }
}

/// After a run without errors whose caches were saved, a run that knows nothing yet and opens them
/// again reads nothing, and its output is the same.
pub proof fn law_reopened_run_reads_nothing(
    database: DatabaseView,
    caches: CachesView,
    request: RequestView,
    icons: Map<Seq<char>, Seq<char>>,
    answers: Seq<TreeAnswers>,
    generation: usize,
    again: Seq<TreeAnswers>,
)
    requires
        valid_trees(request.trees),
        all_in_step(database, caches),
        current_form(caches),
        opens_from(database, started(caches, request, icons), answers),
        fully_answered(started(caches, request, icons), answers),
        without_errors(started(caches, request, icons), answers),
        distinct_keys(whole_run(started(caches, request, icons), answers).caches),
        fully_answered(
            started(Map::empty(), later_request(request, generation, Seq::empty()), icons),
            again,
        ),
        reopens(
            all_saved(database, whole_run(started(caches, request, icons), answers).caches),
            started(Map::empty(), later_request(request, generation, Seq::empty()), icons),
            again,
            whole_run(started(caches, request, icons), answers).caches,
        ),
    ensures
        ({
            let first = started(caches, request, icons);
            let second = started(
                Map::empty(),
                later_request(request, generation, Seq::empty()),
                icons,
            );
            &&& reads_nothing(second, again)
            &&& whole_run(second, again).output == whole_run(first, answers).output
        }),
{
    let first = started(caches, request, icons);
    let left = whole_run(first, answers).caches;
    let second = started(Map::empty(), later_request(request, generation, Seq::empty()), icons);
    lemma_run_in_step(database, first, answers, request.trees.len());
    assert forall|n: int|
        0 <= n < second.trees.len() && has_rules(
            second.scopes,
            (#[trigger] second.trees[n]).snapshot.id,
        ) implies needs_cache(second.caches, second.trees[n]) && usable_cache(
        again[n].opened->Ok_0.1,
    ) == left[second.trees[n].snapshot.id].data by {
        lemma_tree_of_quiet_run(first, answers, n);
        law_saved_caches_are_found_again(database, left, second.trees[n].snapshot.id);
    }
    lemma_nothing_changed(first, answers, second, again);
}

} // verus!
