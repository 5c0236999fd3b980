//! What is kept of the files that were read, and which files are read at all.
use vstd::prelude::*;

use crate::badge_laws::law_only_what_is_unknown_is_looked_for;
use crate::cache::cache_read_error;
use crate::cache::change_views;
use crate::cache::invalidated;
use crate::cache::kept;
use crate::cache::loses_files;
use crate::cache::matches_view;
use crate::cache::pruned;
use crate::cache::recorded;
use crate::cache::usable_cache;
use crate::cache::CacheRead;
use crate::cache::FileVersion;
use crate::cache::FilesView;
use crate::cache::PersistedCache;
use crate::cache::WorktreeCache;
use crate::cache::WorktreeInput;
use crate::cache_laws::lemma_missing_from_rules;
use crate::earning_laws::can_be_read;
use crate::plan::candidate_views;
use crate::plan::candidates;
use crate::plan::find_candidates;
use crate::plan::find_pending;
use crate::plan::has_fingerprint;
use crate::plan::known;
use crate::plan::missing;
use crate::plan::pending;
use crate::plan::pending_of;
use crate::plan::pending_views;
use crate::plan::unknown;
use crate::plan::Candidate;
use crate::plan::CandidateView;
use crate::plan::PendingRead;
use crate::plan::PendingView;
use crate::rel_path::parse_unix;
use crate::rel_path::unix_text;
use crate::rel_path::within;
use crate::rel_path::RelPath;
use crate::rules::compiled_scope_views;
use crate::rules::rules_for;
use crate::rules::CompiledScope;
use crate::rules::CompiledScopeView;
use crate::sorted_map::SortedMap;
use crate::worktree::entry_at;
use crate::worktree::entry_for_path;
use crate::worktree::opt_text;
use crate::worktree::Entry;
use crate::worktree::EntryView;
use crate::worktree::Snapshot;

verus! {

/// A cache that was kept is taken over where it has the form of today. Otherwise one begins in
/// which nothing is known; that it could not be read is reported, and why.
pub proof fn law_kept_caches_are_taken_over(
    root: &String,
    key: String,
    read: CacheRead,
    opened: (WorktreeCache, Option<String>),
)
    requires
        call_ensures(WorktreeCache::open, (root, key, read), opened),
    ensures
        opened.0.root@ == root@,
        opened.0.key@ == key@,
        !opened.0.dirty,
        opened.0.data.version == 1,
        read matches CacheRead::Found(cache) ==> (cache.version == 1 ==> opened.0.data@.files
            == cache@.files),
        read matches CacheRead::Found(cache) ==> (cache.version != 1 ==> forall|text: Seq<char>|
            !#[trigger] opened.0.data@.files.contains_key(text)),
        read !is Found ==> forall|text: Seq<char>|
            !#[trigger] opened.0.data@.files.contains_key(text),
        opened.1 is Some <==> read is Corrupt || read is Failed,
        read matches CacheRead::Corrupt(error) ==> opened.1->0@
            == "Rebuilding file badge cache for "@ + root@ + ": "@ + error@,
        read matches CacheRead::Failed(error) ==> opened.1->0@
            == "Could not read file badge cache: "@ + error@,
{
    let cache = opened.0@;
    assert(cache.data == usable_cache(read@));
    assert(opt_text(opened.1) == cache_read_error(root@, read@));
}

/// A cache in which nothing is known has the form of today.
pub proof fn law_new_caches_are_blank(cache: PersistedCache)
    requires
        call_ensures(<PersistedCache as Default>::default, (), cache),
    ensures
        cache.version == 1,
        forall|text: Seq<char>| !#[trigger] cache@.files.contains_key(text),
{
}

/// What is known of a file is kept exactly where neither its path nor one above it changed in the
/// worktree, and it is still there or may be. The cache has to be saved where something was lost.
pub proof fn law_caches_keep_what_holds(
    cache: &mut WorktreeCache,
    tree: &WorktreeInput,
    changes: &Vec<(usize, RelPath)>,
    text: Seq<char>,
)
    requires
        call_ensures(WorktreeCache::prune, (cache, tree, changes), ()),
    ensures
        final(cache)@.data.files.contains_key(text) <==> old(cache)@.data.files.contains_key(text)
            && still_holds(text, tree, changes),
        final(cache)@.data.files.contains_key(text) ==> final(cache)@.data.files[text] == old(
            cache,
        )@.data.files[text],
        final(cache)@.dirty <==> old(cache)@.dirty || exists|lost: Seq<char>| #[trigger]
            old(cache)@.data.files.contains_key(lost) && !still_holds(lost, tree, changes),
        final(cache)@.root == old(cache)@.root,
        final(cache)@.key == old(cache)@.key,
        final(cache)@.data.version == old(cache)@.data.version,
{
    let was = old(cache)@;
    let now = final(cache)@;
    let list = change_views(changes@);
    assert(now == pruned(was, tree@, list));
    assert forall|t: Seq<char>| #[trigger] still_holds(t, tree, changes) == kept(
        t,
        tree@,
        list,
    ) by {
        lemma_still_holds(t, tree, changes);
    }
    if exists|lost: Seq<char>| #[trigger]
        was.data.files.contains_key(lost) && !still_holds(lost, tree, changes) {
        let lost = choose|lost: Seq<char>| #[trigger]
            was.data.files.contains_key(lost) && !still_holds(lost, tree, changes);
        assert(was.data.files.contains_key(lost) && !kept(lost, tree@, list));
    }
    if loses_files(was.data.files, tree@, list) {
        let lost = choose|lost: Seq<char>| #[trigger]
            was.data.files.contains_key(lost) && !kept(lost, tree@, list);
        assert(!still_holds(lost, tree, changes));
    }
}

/// The text names a path of the worktree; neither it nor one above it changed; and there is an
/// entry, or the scan is not through.
pub open spec fn still_holds(
    text: Seq<char>,
    tree: &WorktreeInput,
    changes: &Vec<(usize, RelPath)>,
) -> bool {
    exists|path: Seq<Seq<char>>| #[trigger]
        parse_unix(text) == Some(path) && (forall|i: int|
            0 <= i < changes@.len() && (#[trigger] changes@[i]).0 == tree.snapshot@.id
                ==> !changes@[i].1@.is_prefix_of(path)) && (tree.scan_complete ==> exists|k: int|
            0 <= k < tree.snapshot@.entries.len() && (#[trigger] tree.snapshot@.entries[k]).path
                == path)
}

proof fn lemma_still_holds(
    text: Seq<char>,
    tree: &WorktreeInput,
    changes: &Vec<(usize, RelPath)>,
)
    ensures
        still_holds(text, tree, changes) == kept(text, tree@, change_views(changes@)),
{
    let list = change_views(changes@);
    let id = tree.snapshot@.id;
    let entries = tree.snapshot@.entries;
    match parse_unix(text) {
        None => {},
        Some(path) => {
            assert(invalidated(list, id, path) <==> exists|i: int|
                0 <= i < changes@.len() && (#[trigger] changes@[i]).0 == id
                    && changes@[i].1@.is_prefix_of(path)) by {
                if invalidated(list, id, path) {
                    let i = choose|i: int|
                        0 <= i < list.len() && (#[trigger] list[i]).0 == id && within(
                            path,
                            list[i].1,
                        );
                    assert(changes@[i].1@ =~= path.subrange(0, changes@[i].1@.len() as int));
                    assert(changes@[i].0 == id);
                }
                if exists|i: int|
                    0 <= i < changes@.len() && (#[trigger] changes@[i]).0 == id
                        && changes@[i].1@.is_prefix_of(path) {
                    let i = choose|i: int|
                        0 <= i < changes@.len() && (#[trigger] changes@[i]).0 == id
                            && changes@[i].1@.is_prefix_of(path);
                    assert(path.take(list[i].1.len() as int) =~= list[i].1);
                    assert(list[i].0 == id);
                }
            }
            assert(entry_for_path(entries, path) is Some <==> exists|k: int|
                0 <= k < entries.len() && (#[trigger] entries[k]).path == path) by {
                if exists|k: int| 0 <= k < entries.len() && (#[trigger] entries[k]).path == path {
                    let k = choose|k: int|
                        0 <= k < entries.len() && (#[trigger] entries[k]).path == path;
                    assert(entry_at(entries, path, k));
                }
                if entry_for_path(entries, path) is Some {
                    let k = choose|k: int| entry_at(entries, path, k);
                    assert(entries[k].path == path);
                }
            }
        },
    }
}

/// What was found in a file is known of it from then on, beside what was known of the same version
/// before. A file that could not be read is forgotten. Other files stay as they are.
pub proof fn law_caches_record_what_was_found(
    cache: &mut WorktreeCache,
    path: &RelPath,
    version: FileVersion,
    result: &Result<SortedMap<String, bool>, String>,
    other: Seq<char>,
    name: Seq<char>,
)
    requires
        call_ensures(WorktreeCache::record, (cache, path, version, result), ()),
        other != unix_text(path@),
    ensures
        ({
            let was = old(cache)@.data.files;
            let now = final(cache)@.data.files;
            let text = unix_text(path@);
            &&& now.contains_key(other) == was.contains_key(other)
            &&& now.contains_key(other) ==> now[other] == was[other]
            &&& result is Err ==> !now.contains_key(text)
            &&& result matches Ok(found) ==> {
                let before = was.contains_key(text) && was[text].version == version
                    && was[text].matches.contains_key(name);
                &&& now.contains_key(text)
                &&& now[text].version == version
                &&& now[text].matches.contains_key(name) <==> found@.contains_key(name) || before
                &&& found@.contains_key(name) ==> now[text].matches[name] == found@[name]
                &&& !found@.contains_key(name) && before ==> now[text].matches[name]
                    == was[text].matches[name]
            }
        }),
        final(cache)@.dirty <==> old(cache)@.dirty || result is Ok || old(
            cache,
        )@.data.files.contains_key(unix_text(path@)),
        final(cache)@.root == old(cache)@.root,
        final(cache)@.key == old(cache)@.key,
        final(cache)@.data.version == old(cache)@.data.version,
{
    assert(final(cache)@ == recorded(old(cache)@, path@, version, matches_view(*result)));
}

/// The version of a file is told by its inode, its modification time and its size.
pub proof fn law_versions_are_told_by_metadata(entry: &Entry, version: FileVersion)
    requires
        call_ensures(FileVersion::for_entry, (entry,), version),
    ensures
        version.inode == entry.inode,
        version.mtime == entry.mtime,
        version.size == entry.size,
{
}

proof fn lemma_candidates_filter(
    scopes: Seq<CompiledScopeView>,
    worktree_id: usize,
    entries: Seq<EntryView>,
)
    ensures
        candidates(scopes, worktree_id, entries) == entries.filter(
            |e: EntryView| can_be_read(e) && rules_for(scopes, worktree_id, e.path).len() > 0,
        ).map_values(
            |e: EntryView|
                CandidateView {
                    path: e.path,
                    version: FileVersion { inode: e.inode, mtime: e.mtime, size: e.size },
                    rules: rules_for(scopes, worktree_id, e.path),
                },
        ),
    decreases entries.len(),
{
    reveal(Seq::filter);
    let wanted = |e: EntryView|
        can_be_read(e) && rules_for(scopes, worktree_id, e.path).len() > 0;
    let made = |e: EntryView|
        CandidateView {
            path: e.path,
            version: FileVersion { inode: e.inode, mtime: e.mtime, size: e.size },
            rules: rules_for(scopes, worktree_id, e.path),
        };
    if entries.len() > 0 {
        lemma_candidates_filter(scopes, worktree_id, entries.drop_last());
    }
    assert(candidates(scopes, worktree_id, entries) =~= entries.filter(wanted).map_values(made));
}

/// The files that come into question are those that can be read and for which some rule holds, all
/// of them, in the order of the entries, with the rules that hold.
pub proof fn law_files_in_question(
    scopes: &Vec<CompiledScope>,
    snapshot: &Snapshot,
    found: Vec<Candidate>,
)
    requires
        call_ensures(find_candidates, (scopes, snapshot), found),
    ensures
        found@.map_values(|c: Candidate| c@) == snapshot@.entries.filter(
            |e: EntryView|
                can_be_read(e) && rules_for(
                    scopes@.map_values(|s: CompiledScope| s@),
                    snapshot@.id,
                    e.path,
                ).len() > 0,
        ).map_values(
            |e: EntryView|
                CandidateView {
                    path: e.path,
                    version: FileVersion { inode: e.inode, mtime: e.mtime, size: e.size },
                    rules: rules_for(
                        scopes@.map_values(|s: CompiledScope| s@),
                        snapshot@.id,
                        e.path,
                    ),
                },
        ),
{
    lemma_candidates_filter(compiled_scope_views(scopes@), snapshot@.id, snapshot@.entries);
}

/// It is known of this version of the file whether what has this fingerprint matches.
pub open spec fn is_told(files: FilesView, c: CandidateView, name: Seq<char>) -> bool {
    let text = unix_text(c.path);
    files.contains_key(text) && files[text].version == c.version
        && files[text].matches.contains_key(name)
}

/// Some rule that holds for the file asks what is not known.
pub open spec fn has_open_question(files: FilesView, c: CandidateView) -> bool {
    exists|j: int|
        0 <= j < c.rules.len() && !is_told(
            files,
            c,
            (#[trigger] c.rules[j]).matcher.fingerprint,
        )
}

proof fn lemma_open_question(files: FilesView, c: CandidateView)
    ensures
        has_open_question(files, c) <==> unknown(files, c).len() > 0,
{
    let was = known(files, c);
    law_only_what_is_unknown_is_looked_for(c.rules, was);
    if has_open_question(files, c) {
        let j = choose|j: int|
            0 <= j < c.rules.len() && !is_told(
                files,
                c,
                (#[trigger] c.rules[j]).matcher.fingerprint,
            );
        assert(has_fingerprint(missing(c.rules, was), c.rules[j].matcher.fingerprint));
    }
    if unknown(files, c).len() > 0 {
        let m = missing(c.rules, was)[0];
        lemma_missing_from_rules(c.rules, was, 0);
        let i = choose|i: int| 0 <= i < c.rules.len() && (#[trigger] c.rules[i]).matcher == m;
        assert(has_fingerprint(missing(c.rules, was), m.fingerprint));
        assert(!is_told(files, c, c.rules[i].matcher.fingerprint));
    }
}

proof fn lemma_pending_filter(files: FilesView, list: Seq<CandidateView>)
    ensures
        pending(files, list) == list.filter(
            |c: CandidateView| has_open_question(files, c),
        ).map_values(|c: CandidateView| pending_of(files, c)),
    decreases list.len(),
{
    reveal(Seq::filter);
    if list.len() > 0 {
        lemma_pending_filter(files, list.drop_last());
        lemma_open_question(files, list.last());
    }
    assert(pending(files, list) =~= list.filter(
        |c: CandidateView| has_open_question(files, c),
    ).map_values(|c: CandidateView| pending_of(files, c)));
}

/// Those of the files in question are read for which some rule asks what is not known of this
/// version of the file, in their order; and it is looked just for that, each thing once.
pub proof fn law_open_questions_are_read_for(
    cache: &PersistedCache,
    list: &Vec<Candidate>,
    reads: Vec<PendingRead>,
)
    requires
        call_ensures(find_pending, (cache, list), reads),
    ensures
        reads@.map_values(|r: PendingRead| (r.path@, r.version)) == list@.map_values(
            |c: Candidate| c@,
        ).filter(|c: CandidateView| has_open_question(cache@.files, c)).map_values(
            |c: CandidateView| (c.path, c.version),
        ),
        forall|i: int|
            0 <= i < reads@.len() ==> is_read_of(
                cache@.files,
                list@.map_values(|c: Candidate| c@),
                (#[trigger] reads@[i])@,
            ),
{
    let files = cache@.files;
    let views = candidate_views(list@);
    let wanted = |c: CandidateView| has_open_question(files, c);
    let made = |c: CandidateView| pending_of(files, c);
    let few = views.filter(wanted);
    lemma_pending_filter(files, views);
    let plan = pending_views(reads@);
    assert(plan == few.map_values(made));
    assert(plan.len() == reads@.len());
    let read_paths = reads@.map_values(|r: PendingRead| (r.path@, r.version));
    let few_paths = few.map_values(|c: CandidateView| (c.path, c.version));
    assert forall|i: int| 0 <= i < reads@.len() implies #[trigger] read_paths[i]
        == few_paths[i] by {
        assert(plan[i] == pending_of(files, few[i]));
    }
    assert(read_paths =~= few_paths);
    assert forall|i: int| 0 <= i < reads@.len() implies is_read_of(
        files,
        views,
        (#[trigger] reads@[i])@,
    ) by {
        assert(plan[i] == pending_of(files, few[i]));
        views.lemma_filter_contains_rev(wanted, few[i]);
        let c = views.index_of(few[i]);
        lemma_looks_for(files, views[c]);
        assert(looks_for_open_questions(files, views[c], reads@[i]@));
    }
}

/// The read is one of the given files, for its open questions.
pub open spec fn is_read_of(
    files: FilesView,
    list: Seq<CandidateView>,
    read: PendingView,
) -> bool {
    exists|c: int|
        0 <= c < list.len() && looks_for_open_questions(files, #[trigger] list[c], read)
}

/// The read is one of the file, for just those matchers of its rules whose answer is not known,
/// each fingerprint once.
pub open spec fn looks_for_open_questions(
    files: FilesView,
    c: CandidateView,
    read: PendingView,
) -> bool {
    &&& read.path == c.path
    &&& read.version == c.version
    &&& forall|a: int, b: int|
        0 <= a < b < read.matchers.len() ==> (#[trigger] read.matchers[a]).fingerprint != (
        #[trigger] read.matchers[b]).fingerprint
    &&& forall|a: int|
        0 <= a < read.matchers.len() ==> !is_told(
            files,
            c,
            (#[trigger] read.matchers[a]).fingerprint,
        ) && exists|j: int|
            0 <= j < c.rules.len() && (#[trigger] c.rules[j]).matcher == read.matchers[a]
    &&& forall|j: int|
        0 <= j < c.rules.len() && !is_told(
            files,
            c,
            (#[trigger] c.rules[j]).matcher.fingerprint,
        ) ==> exists|a: int|
            0 <= a < read.matchers.len() && (#[trigger] read.matchers[a]).fingerprint
                == c.rules[j].matcher.fingerprint
}

proof fn lemma_looks_for(files: FilesView, c: CandidateView)
    ensures
        looks_for_open_questions(files, c, pending_of(files, c)),
{
    let was = known(files, c);
    let matchers = pending_of(files, c).matchers;
    assert(matchers == missing(c.rules, was));
    law_only_what_is_unknown_is_looked_for(c.rules, was);
    assert forall|a: int, b: int| 0 <= a < b < matchers.len() implies (
    #[trigger] matchers[a]).fingerprint != (#[trigger] matchers[b]).fingerprint by {
        assert(missing(c.rules, was)[a].fingerprint != missing(c.rules, was)[b].fingerprint);
    }
    assert forall|a: int| 0 <= a < matchers.len() implies !is_told(
        files,
        c,
        (#[trigger] matchers[a]).fingerprint,
    ) && exists|j: int|
        0 <= j < c.rules.len() && (#[trigger] c.rules[j]).matcher == matchers[a] by {
        lemma_missing_from_rules(c.rules, was, a);
        assert(has_fingerprint(matchers, matchers[a].fingerprint));
    }
    assert forall|j: int|
        0 <= j < c.rules.len() && !is_told(
            files,
            c,
            (#[trigger] c.rules[j]).matcher.fingerprint,
        ) implies exists|a: int|
        0 <= a < matchers.len() && (#[trigger] matchers[a]).fingerprint
            == c.rules[j].matcher.fingerprint by {
        assert(has_fingerprint(matchers, c.rules[j].matcher.fingerprint));
    }
}

} // verus!
