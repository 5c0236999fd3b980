//! The work behind the badges: one run over all worktrees, step by step.
//!
//! A run is a sequence of [`Step`]s. Each one says what has to be asked of the file system or of
//! the database, and takes the answer.
use std::collections::HashMap;
use vstd::prelude::*;
use vstd::string::*;

use crate::badge::scope_views;
use crate::badge::IconSet;
use crate::badge::RuleScope;
use crate::badge::ScopeView;
use crate::badges::all_contributions;
use crate::badges::badges_view;
use crate::badges::collect;
use crate::badges::with_contributions;
use crate::badges::Badges;
use crate::badges::BadgesView;
use crate::cache::cache_read_error;
use crate::cache::change_views;
use crate::cache::matches_view;
use crate::cache::pruned;
use crate::cache::recorded;
use crate::cache::usable_cache;
use crate::cache::CacheRead;
use crate::cache::CacheReadView;
use crate::cache::CacheView;
use crate::cache::ChangeView;
use crate::cache::MatchesView;
use crate::cache::TreeView;
use crate::cache::WorktreeCache;
use crate::cache::WorktreeInput;
use crate::plan::candidate_views;
use crate::plan::candidates;
use crate::plan::find_candidates;
use crate::plan::find_pending;
use crate::plan::pending;
use crate::plan::pending_views;
use crate::plan::Candidate;
use crate::plan::CandidateView;
use crate::plan::PendingRead;
use crate::plan::PendingView;
use crate::rel_path::RelPath;
use crate::root::is_same_root;
use crate::root::join;
use crate::root::joined;
use crate::root::same_root;
use crate::rules::any_rules;
use crate::rules::compile_scopes;
use crate::rules::compiled_scope_views;
use crate::rules::has_rules;
use crate::rules::scope_reports;
use crate::rules::texts;
use crate::rules::usable_scopes;
use crate::rules::CompiledScope;
use crate::rules::CompiledScopeView;
use crate::rules::Matchers;
use crate::sorted_map::SortedMap;
use crate::worktree::opt_text;

verus! {

/// What is to be checked.
pub struct Request {
    pub generation: usize,
    pub worktrees: Vec<WorktreeInput>,
    pub scopes: Vec<RuleScope>,
    /// The paths that changed.
    pub invalidated: Vec<(usize, RelPath)>,
}

/// The model of a [`Request`].
pub ghost struct RequestView {
    pub generation: usize,
    pub trees: Seq<TreeView>,
    pub scopes: Seq<ScopeView>,
    pub changes: Seq<ChangeView>,
}

/// The views of a list of worktrees.
pub open spec fn tree_views(trees: Seq<WorktreeInput>) -> Seq<TreeView> {
    trees.map_values(|t: WorktreeInput| t@)
}

impl View for Request {
    type V = RequestView;

    open spec fn view(&self) -> RequestView {
        RequestView {
            generation: self.generation,
            trees: tree_views(self.worktrees@),
            scopes: scope_views(self.scopes@),
            changes: change_views(self.invalidated@),
        }
    }
}

impl Request {
    /// Takes the place of this request by a newer one. What this one knows to have changed is not
    /// lost: it comes before what the newer one adds.
    pub fn supersede(&mut self, next: Request)
        ensures
            final(self)@ == (RequestView { changes: old(self)@.changes + next@.changes, ..next@ }),
    {
        let ghost earlier = self.invalidated@;
        let ghost later = next.invalidated@;
        let mut invalidated: Vec<(usize, RelPath)> = Vec::new();
        std::mem::swap(&mut invalidated, &mut self.invalidated);
        let mut i: usize = 0;
        while i < next.invalidated.len()
            invariant
                i <= next.invalidated@.len(),
                later == next.invalidated@,
                change_views(invalidated@) == change_views(earlier) + change_views(later).take(
                    i as int,
                ),
            decreases next.invalidated@.len() - i,
        {
            let change = (next.invalidated[i].0, next.invalidated[i].1.clone());
            let ghost was = change_views(invalidated@);
            invalidated.push(change);
            assert(change_views(invalidated@) =~= was.push(change_views(later)[i as int]));
            assert(was.push(change_views(later)[i as int]) =~= change_views(earlier)
                + change_views(later).take(i + 1));
            i = i + 1;
        }
        assert(change_views(later).take(i as int) =~= change_views(later));
        self.generation = next.generation;
        self.worktrees = next.worktrees;
        self.scopes = next.scopes;
        self.invalidated = invalidated;
    }
}

/// What came of a run.
pub struct Output {
    pub badges: Badges,
    pub errors: Vec<String>,
}

/// The model of an [`Output`].
pub ghost struct OutputView {
    pub badges: BadgesView,
    pub errors: Seq<Seq<char>>,
}

impl View for Output {
    type V = OutputView;

    open spec fn view(&self) -> OutputView {
        OutputView { badges: badges_view(self.badges), errors: texts(self.errors@) }
    }
}

/// The caches of the worktrees, by their ids.
pub type CachesView = Map<usize, CacheView>;

spec fn caches_view(caches: HashMap<usize, WorktreeCache>) -> CachesView {
    caches@.map_values(|c: WorktreeCache| c@)
}

/// What is remembered from one run to the next.
pub struct Worker {
    caches: HashMap<usize, WorktreeCache>,
    matchers: Matchers,
}

impl View for Worker {
    type V = CachesView;

    closed spec fn view(&self) -> CachesView {
        caches_view(self.caches)
    }
}

impl Default for Worker {
    fn default() -> (worker: Worker)
        ensures
            worker@ == Map::<usize, CacheView>::empty(),
    {
        let worker = Worker { caches: HashMap::new(), matchers: Matchers::new() };
        assert(worker@ =~= Map::<usize, CacheView>::empty());
        worker
    }
}

/// One of the worktrees has this id.
pub open spec fn has_tree(trees: Seq<TreeView>, id: usize) -> bool {
    exists|i: int| 0 <= i < trees.len() && (#[trigger] trees[i]).snapshot.id == id
}

/// The caches of the worktrees that are there.
pub open spec fn retained(caches: CachesView, trees: Seq<TreeView>) -> CachesView {
    caches.restrict(Set::new(|id: usize| has_tree(trees, id)))
}

/// The cache of the worktree is missing, or is for another root.
pub open spec fn needs_cache(caches: CachesView, tree: TreeView) -> bool {
    let id = tree.snapshot.id;
    !caches.contains_key(id) || !same_root(caches[id].root, tree.snapshot.abs_path)
}

/// A run that has come to the worktree at position `at`.
pub ghost struct RunView {
    pub caches: CachesView,
    pub scopes: Seq<CompiledScopeView>,
    pub trees: Seq<TreeView>,
    pub changes: Seq<ChangeView>,
    pub at: int,
    pub output: OutputView,
}

impl RunView {
    pub open spec fn tree(self) -> TreeView {
        self.trees[self.at]
    }

    /// The id of the worktree at hand.
    pub open spec fn id(self) -> usize {
        self.tree().snapshot.id
    }

    /// The cache of the worktree at hand.
    pub open spec fn cache(self) -> CacheView {
        self.caches[self.id()]
    }

    /// The files of the worktree at hand for which rules hold.
    pub open spec fn candidates(self) -> Seq<CandidateView> {
        candidates(self.scopes, self.id(), self.tree().snapshot.entries)
    }

    pub open spec fn with_cache(self, cache: CacheView) -> RunView {
        RunView { caches: self.caches.insert(self.id(), cache), ..self }
    }

    pub open spec fn with_error(self, error: Option<Seq<char>>) -> RunView {
        match error {
            Some(text) => RunView {
                output: OutputView { errors: self.output.errors.push(text), ..self.output },
                ..self
            },
            None => self,
        }
    }

    /// The run at the next worktree.
    pub open spec fn advanced(self) -> RunView {
        RunView { at: self.at + 1, ..self }
    }
}

/// The model of a [`Step`].
pub ghost enum StepView {
    /// The cache of the worktree at hand is to be opened.
    Open(RunView),
    /// Files of the worktree at hand are to be read.
    Read(RunView, Seq<PendingView>),
    Done(CachesView, OutputView),
}

/// The run as it begins: the rules are ready for use, and caches of other worktrees are gone.
pub open spec fn started(
    caches: CachesView,
    request: RequestView,
    icons: Map<Seq<char>, Seq<char>>,
) -> RunView {
    RunView {
        caches: retained(caches, request.trees),
        scopes: usable_scopes(request.scopes, icons),
        trees: request.trees,
        changes: request.changes,
        at: 0,
        output: OutputView {
            badges: Map::empty(),
            errors: scope_reports(request.scopes, icons),
        },
    }
}

/// The cache of the worktree at hand is open: what no longer holds is forgotten, and what is not
/// known has to be read.
pub open spec fn reading(run: RunView) -> StepView {
    let cache = pruned(run.cache(), run.tree(), run.changes);
    StepView::Read(run.with_cache(cache), pending(cache.data.files, run.candidates()))
}

/// What comes next: worktrees for which there are no rules are passed over.
pub open spec fn next_step(run: RunView) -> StepView
    decreases run.trees.len() - run.at,
{
    if run.at >= run.trees.len() {
        StepView::Done(run.caches, run.output)
    } else if !has_rules(run.scopes, run.id()) {
        next_step(run.advanced())
    } else if needs_cache(run.caches, run.tree()) {
        StepView::Open(run)
    } else {
        reading(run)
    }
}

/// What came of opening a cache: the key under which the database keeps it and what was read
/// there, or why the worktree's root could not be resolved.
pub type OpenedView = Result<(Seq<char>, CacheReadView), Seq<char>>;

/// What follows the opening of a cache. A worktree whose root cannot be resolved is passed over.
pub open spec fn after_open(run: RunView, opened: OpenedView) -> StepView {
    let root = run.tree().snapshot.abs_path;
    match opened {
        Err(error) => next_step(run.with_error(Some(root + ": "@ + error)).advanced()),
        Ok((key, read)) => reading(
            run.with_cache(
                CacheView { root, key, data: usable_cache(read), dirty: false },
            ).with_error(cache_read_error(root, read)),
        ),
    }
}

/// The run after one of the files was read.
pub open spec fn after_record(
    run: RunView,
    read: PendingView,
    result: MatchesView,
) -> RunView {
    let location = joined(run.tree().snapshot.abs_path, read.path);
    run.with_cache(recorded(run.cache(), read.path, read.version, result)).with_error(
        match result {
            Ok(_) => None,
            Err(error) => Some(location + ": "@ + error),
        },
    )
}

/// The badges of the worktree at hand added to those of the ones before.
pub open spec fn collected(run: RunView) -> RunView {
    let found = all_contributions(run.cache().data.files, run.candidates());
    RunView {
        output: OutputView {
            badges: with_contributions(run.output.badges, run.id(), found),
            ..run.output
        },
        ..run
    }
}

/// What follows when the files of a worktree were read.
pub open spec fn after_reads(run: RunView) -> StepView {
    next_step(collected(run).advanced())
}

struct Run {
    worker: Worker,
    scopes: Vec<CompiledScope>,
    trees: Vec<WorktreeInput>,
    changes: Vec<(usize, RelPath)>,
    at: usize,
    output: Output,
}

impl View for Run {
    type V = RunView;

    closed spec fn view(&self) -> RunView {
        RunView {
            caches: self.worker@,
            scopes: compiled_scope_views(self.scopes@),
            trees: tree_views(self.trees@),
            changes: change_views(self.changes@),
            at: self.at as int,
            output: self.output@,
        }
    }
}

/// A worktree whose cache is to be opened.
pub struct OpenTree {
    run: Run,
}

impl View for OpenTree {
    type V = RunView;

    closed spec fn view(&self) -> RunView {
        self.run@
    }
}

impl OpenTree {
    #[verifier::type_invariant]
    spec fn at_tree(self) -> bool {
        self.run@.at < self.run@.trees.len()
    }
}

/// A worktree whose files are to be read.
pub struct ReadTree {
    run: Run,
    pending: Vec<PendingRead>,
    candidates: Vec<Candidate>,
}

impl ReadTree {
    #[verifier::type_invariant]
    spec fn planned(self) -> bool {
        let run = self.run@;
        &&& run.at < run.trees.len()
        &&& run.caches.contains_key(run.id())
        &&& candidate_views(self.candidates@) == run.candidates()
    }

    /// The run, with what was recorded so far.
    pub closed spec fn so_far(self) -> RunView {
        self.run@
    }

    /// What is to be read.
    pub closed spec fn to_read(self) -> Seq<PendingView> {
        pending_views(self.pending@)
    }
}

/// What is to be done next.
pub enum Step {
    /// Resolve the root of the worktree and read its cache from the database, then go on with
    /// [`OpenTree::opened`].
    Open(OpenTree),
    /// Read the files, hand what came of each to [`ReadTree::record`], then go on with
    /// [`ReadTree::finish`].
    Read(ReadTree),
    Done(Worker, Output),
}

impl View for Step {
    type V = StepView;

    open spec fn view(&self) -> StepView {
        match self {
            Step::Open(tree) => StepView::Open(tree@),
            Step::Read(tree) => StepView::Read(tree.so_far(), tree.to_read()),
            Step::Done(worker, output) => StepView::Done(worker@, output@),
        }
    }
}

/// Keeps the caches of the worktrees that are there.
fn retain_caches(
    caches: HashMap<usize, WorktreeCache>,
    trees: &Vec<WorktreeInput>,
) -> (kept: HashMap<usize, WorktreeCache>)
    ensures
        caches_view(kept) == retained(caches_view(caches), tree_views(trees@)),
{
    let ghost was = caches@;
    let ghost views = tree_views(trees@);
    let ghost all = caches_view(caches);
    let mut rest = caches;
    let mut kept: HashMap<usize, WorktreeCache> = HashMap::new();
    let mut i: usize = 0;
    while i < trees.len()
        invariant
            i <= trees@.len(),
            views == tree_views(trees@),
            forall|id: usize| #[trigger]
                kept@.contains_key(id) ==> was.contains_key(id) && kept@[id] == was[id]
                    && has_tree(views, id),
            forall|id: usize| #[trigger]
                was.contains_key(id) ==> kept@.contains_key(id) || rest@.contains_key(id),
            forall|id: usize| #[trigger]
                rest@.contains_key(id) ==> was.contains_key(id) && rest@[id] == was[id],
            forall|j: int|
                0 <= j < i && was.contains_key((#[trigger] views[j]).snapshot.id)
                    ==> kept@.contains_key(views[j].snapshot.id),
        decreases trees@.len() - i,
    {
        let id: usize = trees[i].snapshot.id();
        assert(views[i as int].snapshot.id == id);
        match rest.remove(&id) {
            Some(cache) => {
                kept.insert(id, cache);
            },
            None => {},
        }
        i = i + 1;
    }
    assert(caches_view(kept) =~= retained(all, views)) by {
        assert forall|id: usize| was.contains_key(id) && has_tree(views, id) implies
        #[trigger] kept@.contains_key(id) by {
            let j = choose|j: int| 0 <= j < views.len() && (#[trigger] views[j]).snapshot.id == id;
        }
    }
    kept
}

impl Run {
    /// Goes on to what comes next.
    fn next(self) -> (step: Step)
        requires
            self@.at <= self@.trees.len(),
        ensures
            step@ == next_step(self@),
    {
        let ghost was = self@;
        let mut run = self;
        while run.at < run.trees.len()
            invariant
                run@.at <= run@.trees.len(),
                was == self@,
                next_step(run@) == next_step(was),
            decreases run.trees@.len() - run.at,
        {
            let tree = &run.trees[run.at];
            let id: usize = tree.snapshot.id();
            assert(run@.tree() == tree@);
            if any_rules(&run.scopes, id) {
                let missing: bool = match run.worker.caches.get(&id) {
                    None => true,
                    Some(cache) => !is_same_root(
                        cache.root.as_str(),
                        tree.snapshot.abs_path().as_str(),
                    ),
                };
                if missing {
                    return Step::Open(OpenTree { run });
                }
                return run.read();
            }
            run.at = run.at + 1;
        }
        Step::Done(run.worker, run.output)
    }

    /// Prunes the cache of the worktree at hand, and finds what has to be read.
    fn read(self) -> (step: Step)
        requires
            self@.at < self@.trees.len(),
            self@.caches.contains_key(self@.id()),
        ensures
            step@ == reading(self@),
    {
        let ghost was = self@;
        let mut run = self;
        let id: usize = run.trees[run.at].snapshot.id();
        assert(run@.tree() == run.trees@[run.at as int]@);
        match run.worker.caches.remove(&id) {
            None => {
                assert(false);
                Step::Done(run.worker, run.output)
            },
            Some(cache) => {
                let mut cache = cache;
                let ghost cache_was = cache@;
                cache.prune(&run.trees[run.at], &run.changes);
                let found = find_candidates(&run.scopes, &run.trees[run.at].snapshot);
                let pending = find_pending(&cache.data, &found);
                let ghost pruned_cache = cache@;
                run.worker.caches.insert(id, cache);
                assert(run@.caches =~= was.caches.insert(id, pruned_cache));
                assert(run@ == was.with_cache(pruned_cache));
                Step::Read(ReadTree { run, pending, candidates: found })
            },
        }
    }
}

impl Worker {
    /// Begins a run.
    pub fn begin(self, request: Request, icons: &IconSet) -> (step: Step)
        ensures
            step@ == next_step(started(self@, request@, icons@)),
    {
        let ghost was = self@;
        let mut worker = self;
        let mut errors: Vec<String> = Vec::new();
        assert(texts(errors@) =~= Seq::<Seq<char>>::empty());
        let scopes = compile_scopes(&request.scopes, icons, &mut worker.matchers, &mut errors);
        assert(texts(errors@) =~= scope_reports(request@.scopes, icons@));
        worker.caches = retain_caches(worker.caches, &request.worktrees);
        let output = Output { badges: SortedMap::new(), errors };
        assert(output@.badges =~= Map::empty());
        let run = Run {
            worker,
            scopes,
            trees: request.worktrees,
            changes: request.invalidated,
            at: 0,
            output,
        };
        assert(run@ == started(was, request@, icons@));
        run.next()
    }
}

/// What came of opening a cache.
pub open spec fn opened_view(opened: Result<(String, CacheRead), String>) -> OpenedView {
    match opened {
        Ok((key, read)) => Ok((key@, read@)),
        Err(error) => Err(error@),
    }
}

fn located(location: &String, error: &String) -> (text: String)
    ensures
        text@ == location@ + ": "@ + error@,
{
    let mut text: String = location.clone();
    text.append(": ");
    text.append(error.as_str());
    text
}

impl OpenTree {
    /// The root of the worktree.
    pub fn root(&self) -> (root: &String)
        ensures
            root@ == self@.tree().snapshot.abs_path,
    {
        proof {
            use_type_invariant(self);
        }
        self.run.trees[self.run.at].snapshot.abs_path()
    }

    /// Takes what came of opening the cache.
    pub fn opened(self, opened: Result<(String, CacheRead), String>) -> (step: Step)
        ensures
            step@ == after_open(self@, opened_view(opened)),
    {
        proof {
            use_type_invariant(&self);
        }
        let ghost was = self@;
        let mut run = self.run;
        let root: String = run.trees[run.at].snapshot.abs_path().clone();
        let id: usize = run.trees[run.at].snapshot.id();
        assert(run@.tree() == run.trees@[run.at as int]@);
        let ghost reported = run@.output.errors;
        match opened {
            Err(error) => {
                let text = located(&root, &error);
                run.output.errors.push(text);
                assert(texts(run.output.errors@) =~= reported.push(text@));
                let count: usize = run.trees.len();
                assert(run.at < count);
                run.at = run.at + 1;
                assert(run@ == was.with_error(Some(text@)).advanced());
                run.next()
            },
            Ok((key, read)) => {
                let (cache, error) = WorktreeCache::open(&root, key, read);
                let ghost cache_view = cache@;
                run.worker.caches.insert(id, cache);
                assert(run@.caches =~= was.caches.insert(id, cache_view));
                match error {
                    Some(text) => {
                        run.output.errors.push(text);
                        assert(texts(run.output.errors@) =~= reported.push(text@));
                    },
                    None => {},
                }
                run.read()
            },
        }
    }
}

impl ReadTree {
    /// The root of the worktree.
    pub fn root(&self) -> (root: &String)
        ensures
            root@ == self.so_far().tree().snapshot.abs_path,
    {
        proof {
            use_type_invariant(self);
        }
        self.run.trees[self.run.at].snapshot.abs_path()
    }

    /// The files to be read.
    pub fn pending(&self) -> (pending: &Vec<PendingRead>)
        ensures
            pending_views(pending@) == self.to_read(),
    {
        &self.pending
    }

    /// Where the file system has the file at position `i`.
    pub fn location(&self, i: usize) -> (location: String)
        requires
            i < self.to_read().len(),
        ensures
            location@ == joined(
                self.so_far().tree().snapshot.abs_path,
                self.to_read()[i as int].path,
            ),
    {
        assert(self.to_read()[i as int] == self.pending@[i as int]@);
        join(self.root(), &self.pending[i].path)
    }

    /// Takes what came of reading the file at position `i`. What went wrong is reported with where
    /// the file is.
    pub fn record(
        self,
        i: usize,
        result: Result<SortedMap<String, bool>, String>,
    ) -> (tree: ReadTree)
        requires
            i < self.to_read().len(),
        ensures
            tree.to_read() == self.to_read(),
            tree.so_far() == after_record(
                self.so_far(),
                self.to_read()[i as int],
                matches_view(result),
            ),
    {
        proof {
            use_type_invariant(&self);
        }
        let ghost was = self.so_far();
        let ghost reads = self.to_read();
        let ReadTree { run, pending, candidates } = self;
        let mut run = run;
        let read = &pending[i];
        assert(reads[i as int] == read@);
        let id: usize = run.trees[run.at].snapshot.id();
        assert(run@.tree() == run.trees@[run.at as int]@);
        let ghost reported = run@.output.errors;
        match run.worker.caches.remove(&id) {
            None => {
                assert(false);
            },
            Some(cache) => {
                let mut cache = cache;
                cache.record(&read.path, read.version, &result);
                let ghost cache_view = cache@;
                run.worker.caches.insert(id, cache);
                assert(run@.caches =~= was.caches.insert(id, cache_view));
            },
        }
        match &result {
            Ok(_) => {},
            Err(error) => {
                let location = join(run.trees[run.at].snapshot.abs_path(), &read.path);
                let text = located(&location, error);
                run.output.errors.push(text);
                assert(texts(run.output.errors@) =~= reported.push(text@));
            },
        }
        ReadTree { run, pending, candidates }
    }

    /// Adds the badges of the worktree, and goes on to what comes next.
    pub fn finish(self) -> (step: Step)
        ensures
            step@ == after_reads(self.so_far()),
    {
        proof {
            use_type_invariant(&self);
        }
        let ghost was = self.so_far();
        let mut run = self.run;
        let id: usize = run.trees[run.at].snapshot.id();
        assert(run@.tree() == run.trees@[run.at as int]@);
        match run.worker.caches.get(&id) {
            None => {
                assert(false);
            },
            Some(cache) => {
                collect(&mut run.output.badges, id, &cache.data, &self.candidates);
            },
        }
        assert(run@ == collected(was));
        let count: usize = run.trees.len();
        assert(run.at < count);
        run.at = run.at + 1;
        run.next()
    }
}

/// What is reported of a cache that could not be saved.
pub open spec fn save_error(error: Seq<char>) -> Seq<char> {
    "Could not save file badge cache: "@ + error
}

impl Worker {
    /// The worktrees whose caches hold what the database does not.
    pub fn unsaved(&self) -> (ids: Vec<usize>)
        ensures
            forall|id: usize| #[trigger]
                ids@.contains(id) <==> self@.contains_key(id) && self@[id].dirty,
            ids@.no_duplicates(),
    {
        let mut ids: Vec<usize> = Vec::new();
        for (id, cache) in it: self.caches.iter()
            invariant
                it.seq().no_duplicates(),
                forall|i: int|
                    0 <= i < it.seq().len() ==> self.caches@.contains_key(
                        *(#[trigger] it.seq()[i]).0,
                    ) && self.caches@[*it.seq()[i].0] == *it.seq()[i].1,
                forall|k: usize| #[trigger]
                    self.caches@.contains_key(k) ==> it.seq().contains((&k, &self.caches@[k])),
                ids@.no_duplicates(),
                forall|k: usize| #[trigger]
                    ids@.contains(k) ==> self@.contains_key(k) && self@[k].dirty && exists|i: int|
                        0 <= i < it.index() && *(#[trigger] it.seq()[i]).0 == k,
                forall|i: int|
                    0 <= i < it.index() && (#[trigger] it.seq()[i]).1.dirty ==> ids@.contains(
                        *it.seq()[i].0,
                    ),
                forall|k: usize|
                    self@.contains_key(k) && self@[k].dirty && it.index() == it.seq().len()
                        ==> #[trigger] ids@.contains(k),
        {
            let ghost at = it.index() as int;
            let ghost was = ids@;
            assert((id, cache) == it.seq()[at]);
            proof {
                if ids@.contains(*id) {
                    let i = choose|i: int| 0 <= i < at && *(#[trigger] it.seq()[i]).0 == *id;
                    assert(it.seq()[i] == it.seq()[at]);
                }
            }
            if cache.dirty {
                ids.push(*id);
                assert(ids@[was.len() as int] == *id);
            }
            proof {
                assert forall|k: usize| was.contains(k) implies #[trigger] ids@.contains(k) by {
                    assert(ids@[was.index_of(k)] == k);
                }
                assert forall|k: usize| #[trigger] ids@.contains(k) implies was.contains(k) || (k
                    == *id && cache.dirty) by {
                    let j = ids@.index_of(k);
                    if j < was.len() {
                        assert(was[j] == k);
                    }
                }
                assert(self@[*id] == cache@);
                assert forall|i: int|
                    0 <= i < at + 1 && (#[trigger] it.seq()[i]).1.dirty implies ids@.contains(
                    *it.seq()[i].0,
                ) by {
                    if i < at {
                        assert(was.contains(*it.seq()[i].0));
                    }
                }
                assert forall|k: usize|
                    self@.contains_key(k) && self@[k].dirty && at + 1
                        == it.seq().len() implies #[trigger] ids@.contains(k) by {
                    assert(self.caches@.contains_key(k));
                    let i = it.seq().index_of((&k, &self.caches@[k]));
                    assert(it.seq()[i].1.dirty);
                }
            }
        }
        ids
    }

    /// The cache of a worktree.
    pub fn cache(&self, id: usize) -> (cache: Option<&WorktreeCache>)
        ensures
            match cache {
                Some(c) => self@.contains_key(id) && self@[id] == c@,
                None => !self@.contains_key(id),
            },
    {
        self.caches.get(&id)
    }

    /// Takes what came of writing the cache of a worktree to the database, and says what is to be
    /// reported of that. A cache that could not be saved is to be saved again.
    pub fn saved(&mut self, id: usize, result: Result<(), String>) -> (report: Option<String>)
        ensures
            match result {
                Ok(_) => report is None && final(self)@ == if old(self)@.contains_key(id) {
                    old(self)@.insert(id, CacheView { dirty: false, ..old(self)@[id] })
                } else {
                    old(self)@
                },
                Err(error) => final(self)@ == old(self)@ && opt_text(report) == Some(
                    save_error(error@),
                ),
            },
    {
        let ghost was = self@;
        match result {
            Ok(_) => {
                match self.caches.remove(&id) {
                    Some(cache) => {
                        let mut cache = cache;
                        cache.dirty = false;
                        let ghost now = cache@;
                        self.caches.insert(id, cache);
                        assert(self@ =~= was.insert(id, now));
                    },
                    None => {
                        assert(self@ =~= was);
                    },
                }
                None
            },
            Err(error) => {
                let mut text: String = "Could not save file badge cache: ".to_owned();
                text.append(error.as_str());
                Some(text)
            },
        }
    }
}

} // verus!
