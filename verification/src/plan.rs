//! Which files of a worktree the rules hold for, and which of those have to be read.
use vstd::prelude::*;
use vstd::string::*;

use crate::cache::version_of;
use crate::cache::FileVersion;
use crate::cache::FilesView;
use crate::cache::PersistedCache;
use crate::matcher::Matcher;
use crate::matcher::MatcherView;
use crate::rel_path::unix_text;
use crate::rel_path::RelPath;
use crate::rules::applicable;
use crate::rules::compiled_scope_views;
use crate::rules::compiled_views;
use crate::rules::rules_for;
use crate::rules::CompiledRule;
use crate::rules::CompiledScope;
use crate::rules::CompiledScopeView;
use crate::rules::CompiledView;
use crate::sorted_map::SortedMap;
use crate::worktree::entry_views;
use crate::worktree::Entry;
use crate::worktree::EntryKind;
use crate::worktree::EntryView;
use crate::worktree::Snapshot;

verus! {

/// Larger files get no badge, and are not read. 2 MiB.
pub const MAX_FILE_SIZE: u64 = 2097152;

/// A file that can get a badge: it is not ignored, no pipe and not too large.
pub open spec fn considered(e: EntryView) -> bool {
    &&& e.kind == EntryKind::File
    &&& !e.is_ignored
    &&& !e.is_fifo
    &&& e.size <= MAX_FILE_SIZE
    &&& e.path.len() > 0
}

/// A file for which rules hold.
pub struct Candidate {
    pub path: RelPath,
    pub version: FileVersion,
    pub rules: Vec<CompiledRule>,
}

/// The model of a [`Candidate`].
pub ghost struct CandidateView {
    pub path: Seq<Seq<char>>,
    pub version: FileVersion,
    pub rules: Seq<CompiledView>,
}

impl View for Candidate {
    type V = CandidateView;

    open spec fn view(&self) -> CandidateView {
        CandidateView {
            path: self.path@,
            version: self.version,
            rules: compiled_views(self.rules@),
        }
    }
}

/// The views of a list of files for which rules hold.
pub open spec fn candidate_views(candidates: Seq<Candidate>) -> Seq<CandidateView> {
    candidates.map_values(|c: Candidate| c@)
}

/// Rules hold for the entry.
pub open spec fn is_candidate(
    scopes: Seq<CompiledScopeView>,
    worktree_id: usize,
    e: EntryView,
) -> bool {
    considered(e) && rules_for(scopes, worktree_id, e.path).len() > 0
}

/// The entry with the rules that hold for it.
pub open spec fn candidate_of(
    scopes: Seq<CompiledScopeView>,
    worktree_id: usize,
    e: EntryView,
) -> CandidateView {
    CandidateView {
        path: e.path,
        version: version_of(e),
        rules: rules_for(scopes, worktree_id, e.path),
    }
}

/// The files for which rules hold, in the order of the entries.
pub open spec fn candidates(
    scopes: Seq<CompiledScopeView>,
    worktree_id: usize,
    entries: Seq<EntryView>,
) -> Seq<CandidateView>
    decreases entries.len(),
{
    if entries.len() == 0 {
        Seq::empty()
    } else {
        let before = candidates(scopes, worktree_id, entries.drop_last());
        if is_candidate(scopes, worktree_id, entries.last()) {
            before.push(candidate_of(scopes, worktree_id, entries.last()))
        } else {
            before
        }
    }
}

/// What is known of the file as it is now, by fingerprint.
pub open spec fn known(files: FilesView, c: CandidateView) -> Option<Map<Seq<char>, bool>> {
    let text = unix_text(c.path);
    if files.contains_key(text) && files[text].version == c.version {
        Some(files[text].matches)
    } else {
        None
    }
}

/// One of the matchers has this fingerprint.
pub open spec fn has_fingerprint(list: Seq<MatcherView>, name: Seq<char>) -> bool {
    exists|i: int| 0 <= i < list.len() && (#[trigger] list[i]).fingerprint == name
}

/// The matchers of the rules for which it is not known whether they match, each once.
pub open spec fn missing(
    rules: Seq<CompiledView>,
    matches: Option<Map<Seq<char>, bool>>,
) -> Seq<MatcherView>
    decreases rules.len(),
{
    if rules.len() == 0 {
        Seq::empty()
    } else {
        let before = missing(rules.drop_last(), matches);
        let matcher = rules.last().matcher;
        if (matches matches Some(m) ==> !m.contains_key(matcher.fingerprint)) && !has_fingerprint(
            before,
            matcher.fingerprint,
        ) {
            before.push(matcher)
        } else {
            before
        }
    }
}

/// What is to be looked for in the file.
pub open spec fn unknown(files: FilesView, c: CandidateView) -> Seq<MatcherView> {
    missing(c.rules, known(files, c))
}

/// A file that has to be read, and what is to be looked for in it.
pub struct PendingRead {
    pub path: RelPath,
    pub version: FileVersion,
    pub matchers: Vec<Matcher>,
}

/// The model of a [`PendingRead`].
pub ghost struct PendingView {
    pub path: Seq<Seq<char>>,
    pub version: FileVersion,
    pub matchers: Seq<MatcherView>,
}

/// The views of a list of matchers.
pub open spec fn matcher_views(matchers: Seq<Matcher>) -> Seq<MatcherView> {
    matchers.map_values(|m: Matcher| m@)
}

impl View for PendingRead {
    type V = PendingView;

    open spec fn view(&self) -> PendingView {
        PendingView {
            path: self.path@,
            version: self.version,
            matchers: matcher_views(self.matchers@),
        }
    }
}

/// The views of a list of files to be read.
pub open spec fn pending_views(pending: Seq<PendingRead>) -> Seq<PendingView> {
    pending.map_values(|p: PendingRead| p@)
}

/// The file, with what is to be looked for in it.
pub open spec fn pending_of(files: FilesView, c: CandidateView) -> PendingView {
    PendingView { path: c.path, version: c.version, matchers: unknown(files, c) }
}

/// The files that have to be read, in their order.
pub open spec fn pending(files: FilesView, list: Seq<CandidateView>) -> Seq<PendingView>
    decreases list.len(),
{
    if list.len() == 0 {
        Seq::empty()
    } else {
        let before = pending(files, list.drop_last());
        if unknown(files, list.last()).len() > 0 {
            before.push(pending_of(files, list.last()))
        } else {
            before
        }
    }
}

fn can_have_badge(e: &Entry) -> (yes: bool)
    ensures
        yes == considered(e@),
{
    e.is_file() && !e.is_ignored && !e.is_fifo && e.size <= MAX_FILE_SIZE && !e.path.is_empty()
}

/// Finds the files of a worktree for which rules hold.
pub fn find_candidates(scopes: &Vec<CompiledScope>, snapshot: &Snapshot) -> (found: Vec<Candidate>)
    ensures
        candidate_views(found@) == candidates(
            compiled_scope_views(scopes@),
            snapshot@.id,
            snapshot@.entries,
        ),
{
    let worktree_id: usize = snapshot.id();
    let entries = snapshot.entries();
    let ghost views = entry_views(entries@);
    let ghost scoped = compiled_scope_views(scopes@);
    let mut found: Vec<Candidate> = Vec::new();
    let mut i: usize = 0;
    assert(candidate_views(found@) =~= candidates(scoped, worktree_id, views.take(0)));
    while i < entries.len()
        invariant
            i <= entries@.len(),
            views == entry_views(entries@),
            scoped == compiled_scope_views(scopes@),
            candidate_views(found@) == candidates(scoped, worktree_id, views.take(i as int)),
        decreases entries@.len() - i,
    {
        let e = &entries[i];
        let ghost next = views.take(i + 1);
        assert(next.drop_last() =~= views.take(i as int));
        assert(next.last() == e@);
        if can_have_badge(e) {
            match e.path.file_name() {
                Some(name) => {
                    let rules = applicable(scopes, worktree_id, &e.path, name.as_str());
                    assert(compiled_views(rules@).len() == rules@.len());
                    if rules.len() > 0 {
                        let ghost was = candidate_views(found@);
                        let candidate = Candidate {
                            path: e.path.clone(),
                            version: FileVersion::for_entry(e),
                            rules,
                        };
                        found.push(candidate);
                        assert(candidate_views(found@) =~= was.push(candidate@));
                    }
                },
                None => {},
            }
        }
        i = i + 1;
    }
    assert(views.take(i as int) =~= views);
    found
}

fn lists_fingerprint(matchers: &Vec<Matcher>, name: &String) -> (yes: bool)
    ensures
        yes == has_fingerprint(matcher_views(matchers@), name@),
{
    let ghost views = matcher_views(matchers@);
    let mut i: usize = 0;
    while i < matchers.len()
        invariant
            i <= matchers@.len(),
            views == matcher_views(matchers@),
            forall|j: int| 0 <= j < i ==> (#[trigger] views[j]).fingerprint != name@,
        decreases matchers@.len() - i,
    {
        assert(views[i as int] == matchers@[i as int]@);
        if *matchers[i].fingerprint() == *name {
            return true;
        }
        i = i + 1;
    }
    false
}

/// Picks the matchers of which nothing is known.
fn find_missing(rules: &Vec<CompiledRule>, matches: Option<&SortedMap<String, bool>>) -> (
matchers: Vec<Matcher>)
    ensures
        matcher_views(matchers@) == missing(
            compiled_views(rules@),
            match matches {
                Some(m) => Some(m@),
                None => None,
            },
        ),
{
    let ghost views = compiled_views(rules@);
    let ghost found: Option<Map<Seq<char>, bool>> = match matches {
        Some(m) => Some(m@),
        None => None,
    };
    let mut matchers: Vec<Matcher> = Vec::new();
    let mut i: usize = 0;
    assert(matcher_views(matchers@) =~= missing(views.take(0), found));
    while i < rules.len()
        invariant
            i <= rules@.len(),
            views == compiled_views(rules@),
            found == (match matches {
                Some(m) => Some(m@),
                None => None,
            }),
            matcher_views(matchers@) == missing(views.take(i as int), found),
        decreases rules@.len() - i,
    {
        let matcher = &rules[i].matcher;
        let ghost was = matcher_views(matchers@);
        assert(views.take(i + 1).drop_last() =~= views.take(i as int));
        assert(views.take(i + 1).last().matcher == matcher@);
        let name = matcher.fingerprint();
        let is_known: bool = match matches {
            Some(m) => m.contains_key(name),
            None => false,
        };
        if !is_known && !lists_fingerprint(&matchers, name) {
            let copy = matcher.clone();
            matchers.push(copy);
            assert(matcher_views(matchers@) =~= was.push(copy@));
        }
        i = i + 1;
    }
    assert(views.take(i as int) =~= views);
    matchers
}

/// Finds the files that have to be read.
pub fn find_pending(cache: &PersistedCache, list: &Vec<Candidate>) -> (reads: Vec<PendingRead>)
    ensures
        pending_views(reads@) == pending(cache@.files, candidate_views(list@)),
{
    let ghost views = candidate_views(list@);
    let ghost files = cache@.files;
    let mut reads: Vec<PendingRead> = Vec::new();
    let mut i: usize = 0;
    assert(pending_views(reads@) =~= pending(files, views.take(0)));
    while i < list.len()
        invariant
            i <= list@.len(),
            views == candidate_views(list@),
            files == cache@.files,
            pending_views(reads@) == pending(files, views.take(i as int)),
        decreases list@.len() - i,
    {
        let candidate = &list[i];
        assert(views.take(i + 1).drop_last() =~= views.take(i as int));
        assert(views.take(i + 1).last() == candidate@);
        let text = candidate.path.as_unix_str();
        let matches: Option<&SortedMap<String, bool>> = match cache.files.get(&text) {
            Some(file) => if file.version == candidate.version {
                Some(&file.matches)
            } else {
                None
            },
            None => None,
        };
        let matchers = find_missing(&candidate.rules, matches);
        assert(matcher_views(matchers@).len() == matchers@.len());
        if matchers.len() > 0 {
            let ghost was = pending_views(reads@);
            let read = PendingRead {
                path: candidate.path.clone(),
                version: candidate.version,
                matchers,
            };
            reads.push(read);
            assert(pending_views(reads@) =~= was.push(read@));
        }
        i = i + 1;
    }
    assert(views.take(i as int) =~= views);
    reads
}

} // verus!
