//! A whole run of the worker, as what the outside answers makes of it.
use vstd::prelude::*;
use vstd::string::*;

use crate::badge_laws::law_worktrees_are_apart;
use crate::badges::all_contributions;
use crate::badges::badges_at;
use crate::badges::PlaceView;
use crate::cache::cache_read_error;
use crate::cache::pruned;
use crate::cache::usable_cache;
use crate::cache::CacheView;
use crate::cache::MatchesView;
use crate::cache::TreeView;
use crate::plan::pending;
use crate::plan::PendingView;
use crate::rules::has_rules;
use crate::worker::after_open;
use crate::worker::after_reads;
use crate::worker::after_record;
use crate::worker::collected;
use crate::worker::needs_cache;
use crate::worker::next_step;
use crate::worker::OpenedView;
use crate::worker::RunView;
use crate::worker::StepView;

verus! {

/// What came of reading one of the files that were to be read.
pub ghost struct ReadAnswer {
    /// Which of the files it was.
    pub index: int,
    pub result: MatchesView,
}

/// What the file system and the database answered for one worktree. The reads are in the order in
/// which they came.
pub ghost struct TreeAnswers {
    pub opened: OpenedView,
    pub reads: Seq<ReadAnswer>,
}

/// The run after the given reads.
pub open spec fn all_read(
    run: RunView,
    reads: Seq<PendingView>,
    answers: Seq<ReadAnswer>,
) -> RunView
    decreases answers.len(),
{
    if answers.len() == 0 {
        run
    } else {
        let last = answers.last();
        after_record(
            all_read(run, reads, answers.drop_last()),
            reads[last.index],
            last.result,
        )
    }
}

/// The worktree at hand is worked on: there are rules for it, and its cache is there or could be
/// opened.
pub open spec fn works(run: RunView, answers: TreeAnswers) -> bool {
    has_rules(run.scopes, run.id()) && (needs_cache(run.caches, run.tree()) ==> answers.opened is Ok)
}

/// The run with the cache of the worktree at hand open.
pub open spec fn with_open_cache(run: RunView, opened: OpenedView) -> RunView {
    if needs_cache(run.caches, run.tree()) {
        let root = run.tree().snapshot.abs_path;
        match opened {
            Ok((key, read)) => run.with_cache(
                CacheView { root, key, data: usable_cache(read), dirty: false },
            ).with_error(cache_read_error(root, read)),
            Err(_) => run,
        }
    } else {
        run
    }
}

/// The run with the cache of the worktree at hand open, and without what no longer holds in it.
pub open spec fn begun(run: RunView, answers: TreeAnswers) -> RunView {
    let open = with_open_cache(run, answers.opened);
    open.with_cache(pruned(open.cache(), open.tree(), open.changes))
}

/// What is read of the worktree at hand.
pub open spec fn to_read(run: RunView, answers: TreeAnswers) -> Seq<PendingView> {
    if works(run, answers) {
        pending(begun(run, answers).cache().data.files, run.candidates())
    } else {
        Seq::empty()
    }
}

/// The run when the files of the worktree at hand were read.
pub open spec fn read(run: RunView, answers: TreeAnswers) -> RunView {
    all_read(begun(run, answers), to_read(run, answers), answers.reads)
}

/// The run when it is through with the worktree at hand.
pub open spec fn tree_done(run: RunView, answers: TreeAnswers) -> RunView {
    if works(run, answers) {
        collected(read(run, answers)).advanced()
    } else if has_rules(run.scopes, run.id()) {
        let root = run.tree().snapshot.abs_path;
        run.with_error(Some(root + ": "@ + answers.opened->Err_0)).advanced()
    } else {
        run.advanced()
    }
}

/// The run when it is through with the first `n` worktrees.
pub open spec fn run_upto(start: RunView, answers: Seq<TreeAnswers>, n: nat) -> RunView
    decreases n,
{
    if n == 0 {
        start
    } else {
        tree_done(run_upto(start, answers, (n - 1) as nat), answers[n - 1])
    }
}

/// The run when it is through with all worktrees.
pub open spec fn whole_run(start: RunView, answers: Seq<TreeAnswers>) -> RunView {
    run_upto(start, answers, start.trees.len())
}

/// The steps of the worker make the run: whatever is answered, they lead from one worktree to the
/// next, and after the last one they hand out the caches and the output of the run.
pub proof fn law_steps_make_the_run(run: RunView, answers: TreeAnswers)
    ensures
        run.at >= run.trees.len() ==> next_step(run) == StepView::Done(run.caches, run.output),
        run.at < run.trees.len() ==> {
            let there = StepView::Read(begun(run, answers), to_read(run, answers));
            let next = next_step(tree_done(run, answers));
            if works(run, answers) {
                &&& if needs_cache(run.caches, run.tree()) {
                    next_step(run) == StepView::Open(run) && after_open(run, answers.opened)
                        == there
                } else {
                    next_step(run) == there
                }
                &&& after_reads(read(run, answers)) == next
            } else if has_rules(run.scopes, run.id()) {
                next_step(run) == StepView::Open(run) && after_open(run, answers.opened) == next
            } else {
                next_step(run) == next
            }
        },
{
}

/// The worktree at hand, and what all worktrees share, stay as they are while files are read.
pub proof fn lemma_all_read_frame(
    run: RunView,
    reads: Seq<PendingView>,
    answers: Seq<ReadAnswer>,
)
    ensures
        ({
            let now = all_read(run, reads, answers);
            &&& now.scopes == run.scopes
            &&& now.trees == run.trees
            &&& now.changes == run.changes
            &&& now.at == run.at
            &&& now.output.badges == run.output.badges
            &&& now.output.errors.len() >= run.output.errors.len()
            &&& now.output.errors.len() == run.output.errors.len() ==> {
                &&& now.output == run.output
                &&& forall|i: int| 0 <= i < answers.len() ==> (#[trigger] answers[i]).result is Ok
            }
            &&& forall|id: usize| id != run.id() ==> {
                &&& #[trigger] now.caches.contains_key(id) == run.caches.contains_key(id)
                &&& now.caches[id] == run.caches[id]
            }
            &&& run.caches.contains_key(run.id()) ==> now.caches.contains_key(run.id())
            &&& now.cache().root == run.cache().root
            &&& now.cache().key == run.cache().key
            &&& now.cache().data.version == run.cache().data.version
        }),
    decreases answers.len(),
{
    if answers.len() > 0 {
        let init = answers.drop_last();
        lemma_all_read_frame(run, reads, init);
        let before = all_read(run, reads, init);
        let now = all_read(run, reads, answers);
        if now.output.errors.len() == run.output.errors.len() {
            assert forall|i: int| 0 <= i < answers.len() implies (
            #[trigger] answers[i]).result is Ok by {
                if i < init.len() {
                    assert(init[i].result is Ok);
                }
            }
        }
    }
}

/// What all worktrees share stays as it is from one worktree to the next, and what belongs to
/// another one.
pub proof fn lemma_tree_done_frame(run: RunView, answers: TreeAnswers)
    ensures
        ({
            let now = tree_done(run, answers);
            &&& now.scopes == run.scopes
            &&& now.trees == run.trees
            &&& now.changes == run.changes
            &&& now.at == run.at + 1
            &&& now.output.errors.len() >= run.output.errors.len()
            &&& forall|id: usize| id != run.id() ==> {
                &&& #[trigger] now.caches.contains_key(id) == run.caches.contains_key(id)
                &&& now.caches[id] == run.caches[id]
            }
            &&& forall|key: PlaceView| key.worktree_id != run.id() ==> #[trigger] badges_at(
                now.output.badges,
                key,
            ) == badges_at(run.output.badges, key)
        }),
{
    if works(run, answers) {
        lemma_all_read_frame(begun(run, answers), to_read(run, answers), answers.reads);
        let after = read(run, answers);
        let found = all_contributions(after.cache().data.files, after.candidates());
        assert forall|key: PlaceView| key.worktree_id != run.id() implies #[trigger] badges_at(
            tree_done(run, answers).output.badges,
            key,
        ) == badges_at(run.output.badges, key) by {
            law_worktrees_are_apart(after.output.badges, run.id(), found, key);
        }
    }
}

/// No two worktrees have one id.
pub open spec fn distinct_trees(trees: Seq<TreeView>) -> bool {
    forall|i: int, j: int|
        0 <= i < j < trees.len() ==> (#[trigger] trees[i]).snapshot.id != (
        #[trigger] trees[j]).snapshot.id
}

pub proof fn lemma_run_frame(start: RunView, answers: Seq<TreeAnswers>, n: nat)
    ensures
        ({
            let now = run_upto(start, answers, n);
            &&& now.scopes == start.scopes
            &&& now.trees == start.trees
            &&& now.changes == start.changes
            &&& now.at == start.at + n
            &&& now.output.errors.len() >= start.output.errors.len()
        }),
    decreases n,
{
    if n > 0 {
        lemma_run_frame(start, answers, (n - 1) as nat);
        lemma_tree_done_frame(run_upto(start, answers, (n - 1) as nat), answers[n - 1]);
    }
}

/// What belongs to a worktree stays as it is while others are worked on.
pub proof fn lemma_run_apart(
    start: RunView,
    answers: Seq<TreeAnswers>,
    m: nat,
    n: nat,
    id: usize,
)
    requires
        m <= n,
        forall|k: int|
            m <= k < n ==> (#[trigger] start.trees[start.at + k]).snapshot.id != id,
    ensures
        ({
            let before = run_upto(start, answers, m);
            let now = run_upto(start, answers, n);
            &&& now.output.errors.len() >= before.output.errors.len()
            &&& now.caches.contains_key(id) == before.caches.contains_key(id)
            &&& now.caches[id] == before.caches[id]
            &&& forall|key: PlaceView| key.worktree_id == id ==> #[trigger] badges_at(
                now.output.badges,
                key,
            ) == badges_at(before.output.badges, key)
        }),
    decreases n,
{
    if m < n {
        let last = (n - 1) as nat;
        lemma_run_apart(start, answers, m, last, id);
        lemma_run_frame(start, answers, last);
        lemma_tree_done_frame(run_upto(start, answers, last), answers[n - 1]);
        assert(start.trees[start.at + last].snapshot.id != id);
        let middle = run_upto(start, answers, last);
        let now = run_upto(start, answers, n);
        assert(now.caches.contains_key(id) == middle.caches.contains_key(id));
        assert forall|key: PlaceView| key.worktree_id == id implies #[trigger] badges_at(
            now.output.badges,
            key,
        ) == badges_at(run_upto(start, answers, m).output.badges, key) by {
            assert(badges_at(now.output.badges, key) == badges_at(middle.output.badges, key));
        }
    }
}

} // verus!
