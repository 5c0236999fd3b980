//! What is kept of the groups of test files from one update to the next, and what tells them.
use vstd::prelude::*;

use crate::group_content_laws::lemma_tests_of;
use crate::group_content_laws::lemma_total_counts;
use crate::group_content_laws::sums_fit;
use crate::group_content_laws::tests_of;
use crate::order::OrderedKey;
use crate::order::Rank;
use crate::patterns::byte_regex_error;
use crate::patterns::glob_error;
use crate::patterns::glob_expression;
use crate::patterns::glob_matches;
use crate::patterns::regex_error;
use crate::patterns::regex_matches;
use crate::patterns::ContentRegex;
use crate::patterns::NameGlob;
use crate::patterns::PatternError;
use crate::test_group_laws::law_next_id_is_largest;
use crate::test_groups::accepted_names;
use crate::test_groups::assigned;
use crate::test_groups::by_id_alone;
use crate::test_groups::files_in;
use crate::test_groups::floor;
use crate::test_groups::git_views;
use crate::test_groups::glob_views;
use crate::test_groups::groups_fit;
use crate::test_groups::kept_by;
use crate::test_groups::refused_globs;
use crate::test_groups::test_dirs;
use crate::test_groups::total_counts;
use crate::test_groups::usable_globs;
use crate::test_groups::IdsView;
use crate::test_groups::RefusedGlob;
use crate::test_groups::SelectedEntry;
use crate::test_groups::TestGroup;
use crate::test_groups::TestGroups;
use crate::worktree::counts_fit;
use crate::worktree::EntryKind;
use crate::worktree::GitEntry;
use crate::worktree::GitEntryView;
use crate::worktree::Snapshot;

verus! {

/// An update begins without groups and members. Of what is kept for directories, it drops that of
/// the directories of which it is said that they are gone, and nothing else.
pub proof fn law_update_drops_what_is_gone<F: Fn(&SelectedEntry) -> bool>(
    groups: &mut TestGroups,
    parent_exists: F,
    p: SelectedEntry,
)
    requires
        call_ensures(TestGroups::begin_update::<F>, (groups, parent_exists), ()),
    ensures
        forall|id: usize| !#[trigger] final(groups)@.groups.contains_key(id),
        forall|file: usize| !#[trigger] final(groups)@.members.contains_key(file),
        final(groups)@.expanded.contains(p) ==> old(groups)@.expanded.contains(p) && call_ensures(
            parent_exists,
            (&p,),
            true,
        ),
        old(groups)@.expanded.contains(p) && !final(groups)@.expanded.contains(p) ==> call_ensures(
            parent_exists,
            (&p,),
            false,
        ),
        final(groups)@.ids.by_parent.contains_key(p) ==> old(groups)@.ids.by_parent.contains_key(p)
            && final(groups)@.ids.by_parent[p] == old(groups)@.ids.by_parent[p] && call_ensures(
            parent_exists,
            (&p,),
            true,
        ),
        old(groups)@.ids.by_parent.contains_key(p) && !final(groups)@.ids.by_parent.contains_key(p)
            ==> call_ensures(parent_exists, (&p,), false),
        final(groups)@.ids.next == old(groups)@.ids.next,
{
    assert(kept_by(parent_exists, old(groups)@.expanded, final(groups)@.expanded));
    assert(kept_by(
        parent_exists,
        old(groups)@.ids.by_parent.dom(),
        final(groups)@.ids.by_parent.dom(),
    ));
    assert(old(groups)@.ids.by_parent.dom().contains(p) == old(groups)@.ids.by_parent.contains_key(
        p,
    ));
    assert(final(groups)@.ids.by_parent.dom().contains(p)
        == final(groups)@.ids.by_parent.contains_key(p));
}

/// At first there is no group, no member, nothing expanded, and no id was given.
pub proof fn law_at_first_nothing_is_grouped(groups: TestGroups)
    requires
        call_ensures(<TestGroups as Default>::default, (), groups),
    ensures
        forall|id: usize| !#[trigger] groups@.groups.contains_key(id),
        forall|file: usize| !#[trigger] groups@.members.contains_key(file),
        forall|p: SelectedEntry| !#[trigger] groups@.expanded.contains(p),
        forall|p: SelectedEntry| !#[trigger] groups@.ids.by_parent.contains_key(p),
        groups@.ids.next is None,
{
}

/// What is asked of the groups is answered by what they hold.
pub proof fn law_groups_are_found(
    groups: &TestGroups,
    id: usize,
    group: Option<&TestGroup>,
    own: Option<usize>,
    p: SelectedEntry,
    yes: bool,
)
    requires
        call_ensures(TestGroups::group, (groups, id), group),
        call_ensures(TestGroups::group_of, (groups, id), own),
        call_ensures(TestGroups::is_expanded, (groups, &p), yes),
    ensures
        group is Some <==> groups@.groups.contains_key(id),
        group matches Some(g) ==> g.parent == groups@.groups[id].parent && g.path@
            == groups@.groups[id].path && g.files@.map_values(|e: GitEntry| e@)
            == groups@.groups[id].files,
        own is Some <==> groups@.members.contains_key(id),
        own matches Some(o) ==> o == groups@.members[id],
        yes == groups@.expanded.contains(p),
{
}

/// The first id that is given is the largest one that is free, below that of the new-entry row.
/// Each further one is the largest free one below the one before. A directory that has an id keeps
/// it, unless an entry took it.
pub proof fn law_ids_are_given_downwards(
    ids: IdsView,
    parent: SelectedEntry,
    taken: spec_fn(usize) -> bool,
    id: usize,
    now: IdsView,
)
    requires
        assigned(ids, parent, taken) == Some((now, id)),
    ensures
        !taken(id),
        ids.by_parent.contains_key(parent) && !taken(ids.by_parent[parent]) ==> now == ids && id
            == ids.by_parent[parent],
        !(ids.by_parent.contains_key(parent) && !taken(ids.by_parent[parent])) ==> {
            let from = if ids.next is Some {
                ids.next->0
            } else {
                usize::MAX
            };
            &&& id < from
            &&& forall|i: usize| id < i < from ==> #[trigger] taken(i)
            &&& now.next == Some(id)
            &&& now.by_parent == ids.by_parent.insert(parent, id)
        },
{
    law_next_id_is_largest(taken, floor(ids.next));
}

/// There is no id for a directory only where every id below the last one is taken, and its own, if
/// it has one, too.
pub proof fn law_ids_run_out_when_all_are_taken(
    ids: IdsView,
    parent: SelectedEntry,
    taken: spec_fn(usize) -> bool,
)
    ensures
        assigned(ids, parent, taken) is None <==> (ids.by_parent.contains_key(parent) ==> taken(
            ids.by_parent[parent],
        )) && forall|i: usize|
            i < (if ids.next is Some {
                ids.next->0
            } else {
                usize::MAX
            }) ==> #[trigger] taken(i),
{
    law_next_id_is_largest(taken, floor(ids.next));
}

/// Directories get their groups in the order in which their first test files come: a row of a test
/// file of the one comes before all those of the other.
pub proof fn law_directories_come_in_the_order_of_their_tests(
    rows: Seq<GitEntryView>,
    accepted: Seq<bool>,
    a: int,
    b: int,
)
    requires
        0 <= a < b < test_dirs(rows, accepted).len(),
    ensures
        has_earlier_test(
            rows,
            accepted,
            test_dirs(rows, accepted)[a],
            test_dirs(rows, accepted)[b],
        ),
    decreases rows.len(),
{
    let init = rows.drop_last();
    let last = rows.len() - 1;
    let before = test_dirs(init, accepted);
    let now = test_dirs(rows, accepted);
    if b < before.len() {
        law_directories_come_in_the_order_of_their_tests(init, accepted, a, b);
        let i = choose|i: int|
            0 <= i < init.len() && #[trigger] is_test_in(init, accepted, before[a], i) && forall|
                j: int,
            |
                0 <= j <= i ==> !#[trigger] is_test_in(init, accepted, before[b], j);
        assert(is_test_in(rows, accepted, now[a], i));
        assert forall|j: int| 0 <= j <= i implies !#[trigger] is_test_in(
            rows,
            accepted,
            now[b],
            j,
        ) by {
            assert(!is_test_in(init, accepted, before[b], j));
        }
    } else {
        lemma_listed_dir(init, accepted, before[a]);
        let i = choose|i: int|
            0 <= i < init.len() && #[trigger] is_test_in(init, accepted, before[a], i);
        assert(is_test_in(rows, accepted, now[a], i));
        assert forall|j: int| 0 <= j <= i implies !#[trigger] is_test_in(
            rows,
            accepted,
            now[b],
            j,
        ) by {
            if is_test_in(rows, accepted, now[b], j) {
                assert(is_test_in(init, accepted, now[b], j));
                lemma_listed_dir(init, accepted, now[b]);
            }
        }
    }
}

/// The row at `i` is that of an accepted file directly in the directory.
pub open spec fn is_test_in(
    rows: Seq<GitEntryView>,
    accepted: Seq<bool>,
    dir: Seq<Seq<char>>,
    i: int,
) -> bool {
    &&& rows[i].entry.id != usize::MAX
    &&& rows[i].entry.kind == EntryKind::File
    &&& rows[i].entry.path.len() > 0
    &&& accepted[i]
    &&& rows[i].entry.path.drop_last() == dir
}

/// A row of a test file of the directory comes before all those of the other one.
pub open spec fn has_earlier_test(
    rows: Seq<GitEntryView>,
    accepted: Seq<bool>,
    dir: Seq<Seq<char>>,
    other: Seq<Seq<char>>,
) -> bool {
    exists|i: int|
        0 <= i < rows.len() && #[trigger] is_test_in(rows, accepted, dir, i) && forall|j: int|
            0 <= j <= i ==> !#[trigger] is_test_in(rows, accepted, other, j)
}

proof fn lemma_listed_dir(rows: Seq<GitEntryView>, accepted: Seq<bool>, dir: Seq<Seq<char>>)
    ensures
        test_dirs(rows, accepted).contains(dir) <==> exists|i: int|
            0 <= i < rows.len() && #[trigger] is_test_in(rows, accepted, dir, i),
    decreases rows.len(),
{
    if rows.len() > 0 {
        let init = rows.drop_last();
        let last = rows.len() - 1;
        let before = test_dirs(init, accepted);
        let now = test_dirs(rows, accepted);
        lemma_listed_dir(init, accepted, dir);
        if now.contains(dir) {
            let k = now.index_of(dir);
            if k < before.len() {
                assert(before[k] == dir);
                let i = choose|i: int|
                    0 <= i < init.len() && #[trigger] is_test_in(init, accepted, dir, i);
                assert(is_test_in(rows, accepted, dir, i));
            } else {
                assert(is_test_in(rows, accepted, dir, last));
            }
        }
        if exists|i: int| 0 <= i < rows.len() && #[trigger] is_test_in(rows, accepted, dir, i) {
            let i = choose|i: int|
                0 <= i < rows.len() && #[trigger] is_test_in(rows, accepted, dir, i);
            if i < last {
                assert(is_test_in(init, accepted, dir, i));
                assert(now[before.index_of(dir)] == dir);
            } else if before.contains(dir) {
                assert(now[before.index_of(dir)] == dir);
            } else {
                assert(now[before.len() as int] == dir);
            }
        }
    }
}

proof fn lemma_globs(patterns: Seq<String>)
    ensures
        usable_globs(patterns) == patterns.map_values(|p: String| p@).filter(
            |p: Seq<char>| glob_error(p) is None,
        ),
        refused_globs(patterns) == patterns.map_values(|p: String| p@).filter(
            |p: Seq<char>| glob_error(p) is Some,
        ).map_values(|p: Seq<char>| (p, glob_error(p)->0)),
    decreases patterns.len(),
{
    reveal(Seq::filter);
    let text = |p: String| p@;
    let told = |p: Seq<char>| (p, glob_error(p)->0);
    if patterns.len() > 0 {
        let init = patterns.drop_last();
        lemma_globs(init);
        assert(patterns.map_values(text).drop_last() =~= init.map_values(text));
    }
    assert(refused_globs(patterns) =~= patterns.map_values(text).filter(
        |p: Seq<char>| glob_error(p) is Some,
    ).map_values(told));
}

/// Of the globs of the settings those are used that `globset` takes, and whose expressions can be
/// compiled, in their order. The others are told with the reason.
pub proof fn law_globs_are_used_or_told(
    patterns: &[String],
    globs: (Vec<NameGlob>, Vec<RefusedGlob>),
    used: Vec<NameGlob>,
)
    requires
        call_ensures(TestGroups::compile_patterns, (patterns,), globs),
        call_ensures(TestGroups::patterns, (patterns,), used),
    ensures
        globs.0@.map_values(|g: NameGlob| g@) == patterns@.map_values(|p: String| p@).filter(
            |p: Seq<char>| why_refused(p) is None,
        ),
        globs.1@.map_values(|r: RefusedGlob| (r.pattern@, r.error.message@))
            == patterns@.map_values(|p: String| p@).filter(
            |p: Seq<char>| why_refused(p) is Some,
        ).map_values(|p: Seq<char>| (p, why_refused(p)->0)),
        used@.map_values(|g: NameGlob| g@) == globs.0@.map_values(|g: NameGlob| g@),
{
    lemma_globs(patterns@);
    assert((|p: Seq<char>| why_refused(p) is None) =~= (|p: Seq<char>| glob_error(p) is None));
    assert((|p: Seq<char>| why_refused(p) is Some) =~= (|p: Seq<char>| glob_error(p) is Some));
    assert((|p: Seq<char>| (p, why_refused(p)->0)) =~= (|p: Seq<char>| (p, glob_error(p)->0)));
}

/// The error with which a glob, or else its expression, is refused.
pub open spec fn why_refused(glob: Seq<char>) -> Option<Seq<char>> {
    match glob_expression(glob) {
        Ok(expression) => byte_regex_error(expression),
        Err(error) => Some(error),
    }
}

/// A glob that can be used matches the names that `globset` says it does; one that cannot be used
/// is refused with the reason. So it is with regular expressions and texts.
pub proof fn law_patterns_match_as_their_crates_do(
    pattern: &str,
    glob: Result<NameGlob, PatternError>,
    regex: Result<ContentRegex, PatternError>,
    text: &str,
    named: bool,
    found: bool,
)
    requires
        call_ensures(NameGlob::new, (pattern,), glob),
        call_ensures(ContentRegex::new, (pattern,), regex),
        glob is Ok ==> call_ensures(NameGlob::is_match, (&glob->Ok_0, text), named),
        regex is Ok ==> call_ensures(ContentRegex::is_match, (&regex->Ok_0, text), found),
    ensures
        glob is Ok <==> why_refused(pattern@) is None,
        glob matches Err(e) ==> Some(e.message@) == why_refused(pattern@),
        glob is Ok ==> named == glob_matches(pattern@, text@),
        regex is Ok <==> regex_error(pattern@) is None,
        regex matches Err(e) ==> Some(e.message@) == regex_error(pattern@),
        regex is Ok ==> found == regex_matches(pattern@, text@),
{
}

/// Rows are grouped where the counts of the test files of each directory can be held together, and
/// then as they are without that question. Elsewhere nothing changes.
pub proof fn law_rows_are_grouped_where_counts_are_held<F: Fn(usize) -> bool>(
    groups: &mut TestGroups,
    rows: &mut Vec<GitEntry>,
    snapshot: &Snapshot,
    globs: &[NameGlob],
    reveal: Option<usize>,
    id_is_real: F,
    held: bool,
    like: &mut TestGroups,
    like_rows: &mut Vec<GitEntry>,
)
    requires
        call_ensures(
            TestGroups::group_entries_if_held::<F>,
            (groups, rows, snapshot, globs, reveal, id_is_real),
            held,
        ),
        by_id_alone(id_is_real),
        old(like)@ == old(groups)@,
        git_views(old(like_rows)@) == git_views(old(rows)@),
        call_ensures(
            TestGroups::group_entries::<F>,
            (like, like_rows, snapshot, globs, reveal, id_is_real),
            (),
        ),
    ensures
        held <==> forall|dir: Seq<Seq<char>>|
            sums_fit(#[trigger] tests_of(git_views(old(rows)@), globs@, dir)),
        !held ==> *final(groups) == *old(groups) && *final(rows) == *old(rows),
        held ==> final(groups)@ == final(like)@ && git_views(final(rows)@) == git_views(
            final(like_rows)@,
        ),
{
    let before = git_views(old(rows)@);
    let accepted = accepted_names(before, glob_views(globs@));
    assert(held == groups_fit(before, accepted));
    lemma_groups_fit(before, globs@);
}

pub proof fn lemma_groups_fit(rows: Seq<GitEntryView>, globs: Seq<NameGlob>)
    ensures
        groups_fit(rows, accepted_names(rows, glob_views(globs))) <==> forall|dir: Seq<Seq<char>>|
            sums_fit(#[trigger] tests_of(rows, globs, dir)),
{
    let accepted = accepted_names(rows, glob_views(globs));
    assert forall|dir: Seq<Seq<char>>| counts_fit(
        #[trigger] total_counts(files_in(rows, accepted, dir)),
    ) == sums_fit(tests_of(rows, globs, dir)) by {
        lemma_tests_of(rows, globs, dir);
        let files = tests_of(rows, globs, dir);
        lemma_total_counts(files);
        let c = total_counts(files);
        if counts_fit(c) {
            assert(c[0] <= usize::MAX && c[1] <= usize::MAX && c[2] <= usize::MAX);
            assert(c[3] <= usize::MAX && c[4] <= usize::MAX && c[5] <= usize::MAX);
            assert(c[6] <= usize::MAX && c[7] <= usize::MAX && c[8] <= usize::MAX);
        }
    }
    if groups_fit(rows, accepted) {
        assert forall|dir: Seq<Seq<char>>| sums_fit(#[trigger] tests_of(rows, globs, dir)) by {
            assert(counts_fit(total_counts(files_in(rows, accepted, dir))));
        }
    } else {
        let dir = choose|dir: Seq<Seq<char>>|
            !counts_fit(#[trigger] total_counts(files_in(rows, accepted, dir)));
        assert(!sums_fit(tests_of(rows, globs, dir)));
    }
}

/// Entries are ordered by their worktree, and within one by their id.
pub proof fn law_entries_are_ordered_by_worktree(a: &SelectedEntry, b: &SelectedEntry, r: Rank)
    requires
        call_ensures(<SelectedEntry as OrderedKey>::rank, (a, b), r),
    ensures
        r is Before <==> a.worktree_id < b.worktree_id || (a.worktree_id == b.worktree_id
            && a.entry_id < b.entry_id),
        r is Same <==> a.worktree_id == b.worktree_id && a.entry_id == b.entry_id,
{
}

} // verus!
