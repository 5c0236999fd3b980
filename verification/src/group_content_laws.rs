//! What the groups of test files hold, what their rows say, and where those stand.
use vstd::prelude::*;

use crate::group_update_laws::coherent;
use crate::group_update_laws::distinct_rows;
use crate::group_update_laws::group_in_place;
use crate::group_update_laws::lemma_with_groups_coherent;
use crate::group_update_laws::made_of;
use crate::group_update_laws::not_grouped;
use crate::patterns::glob_matches;
use crate::patterns::NameGlob;
use crate::rel_path::lemma_path_strict_total;
use crate::rel_path::path_before;
use crate::test_group_laws::has_own_group;
use crate::test_group_laws::law_each_directory_has_its_group;
use crate::test_group_laws::law_every_test_file_is_grouped;
use crate::test_groups::accepted_names;
use crate::test_groups::among;
use crate::test_groups::dir_parent;
use crate::test_groups::files_in;
use crate::test_groups::git_views;
use crate::test_groups::glob_views;
use crate::test_groups::group_row;
use crate::test_groups::grouped;
use crate::test_groups::grouped_as_said;
use crate::test_groups::is_test_file;
use crate::test_groups::lemma_test_dirs;
use crate::test_groups::name_matches;
use crate::test_groups::reveals;
use crate::test_groups::said_real;
use crate::test_groups::test_dirs;
use crate::test_groups::total_counts;
use crate::test_groups::with_groups;
use crate::test_groups::SelectedEntry;
use crate::test_groups::TestGroups;
use crate::test_groups::TestGroupsView;
use crate::worktree::add_counts;
use crate::worktree::counts;
use crate::worktree::counts_fit;
use crate::worktree::entry_at;
use crate::worktree::listing;
use crate::worktree::no_counts;
use crate::worktree::EntryKind;
use crate::worktree::GitEntry;
use crate::worktree::GitEntryView;
use crate::worktree::GitSummary;
use crate::worktree::Snapshot;
use crate::worktree::SnapshotView;

verus! {

/// A row of a file whose name one of the globs matches. The row of a new entry is none.
pub open spec fn is_test_row(e: GitEntryView, globs: Seq<NameGlob>) -> bool {
    &&& e.entry.id != usize::MAX
    &&& e.entry.kind == EntryKind::File
    &&& e.entry.path.len() > 0
    &&& exists|p: int|
        0 <= p < globs.len() && glob_matches((#[trigger] globs[p])@, e.entry.path.last())
}

/// The snapshot has this entry at the directory.
pub open spec fn stands_for(
    snapshot: SnapshotView,
    dir: Seq<Seq<char>>,
    parent: SelectedEntry,
) -> bool {
    &&& parent.worktree_id == snapshot.id
    &&& exists|i: int|
        0 <= i < snapshot.entries.len() && (#[trigger] snapshot.entries[i]).path == dir
            && snapshot.entries[i].id == parent.entry_id
}

/// The rows of test files directly in a directory.
pub open spec fn tests_in(
    globs: Seq<NameGlob>,
    dir: Seq<Seq<char>>,
) -> spec_fn(GitEntryView) -> bool {
    |e: GitEntryView| is_test_row(e, globs) && e.entry.path.drop_last() == dir
}

/// The test files of a directory, in the order of the rows.
pub open spec fn tests_of(
    rows: Seq<GitEntryView>,
    globs: Seq<NameGlob>,
    dir: Seq<Seq<char>>,
) -> Seq<GitEntryView> {
    rows.filter(tests_in(globs, dir))
}

/// What one count of the given files adds up to.
pub open spec fn sum_of(files: Seq<GitEntryView>, count: spec_fn(GitSummary) -> usize) -> nat {
    files.map_values(|f: GitEntryView| count(f.git_summary) as nat).fold_left(
        0nat,
        |sum: nat, n: nat| sum + n,
    )
}

/// A summary whose counts are each the sum of that count over the files.
pub open spec fn sums_up(s: GitSummary, files: Seq<GitEntryView>) -> bool {
    &&& s.index.added == sum_of(files, |f: GitSummary| f.index.added)
    &&& s.index.modified == sum_of(files, |f: GitSummary| f.index.modified)
    &&& s.index.deleted == sum_of(files, |f: GitSummary| f.index.deleted)
    &&& s.worktree.added == sum_of(files, |f: GitSummary| f.worktree.added)
    &&& s.worktree.modified == sum_of(files, |f: GitSummary| f.worktree.modified)
    &&& s.worktree.deleted == sum_of(files, |f: GitSummary| f.worktree.deleted)
    &&& s.conflict == sum_of(files, |f: GitSummary| f.conflict)
    &&& s.untracked == sum_of(files, |f: GitSummary| f.untracked)
    &&& s.count == sum_of(files, |f: GitSummary| f.count)
}

/// The sums of the counts of the files can be held.
pub open spec fn sums_fit(files: Seq<GitEntryView>) -> bool {
    &&& sum_of(files, |f: GitSummary| f.index.added) <= usize::MAX
    &&& sum_of(files, |f: GitSummary| f.index.modified) <= usize::MAX
    &&& sum_of(files, |f: GitSummary| f.index.deleted) <= usize::MAX
    &&& sum_of(files, |f: GitSummary| f.worktree.added) <= usize::MAX
    &&& sum_of(files, |f: GitSummary| f.worktree.modified) <= usize::MAX
    &&& sum_of(files, |f: GitSummary| f.worktree.deleted) <= usize::MAX
    &&& sum_of(files, |f: GitSummary| f.conflict) <= usize::MAX
    &&& sum_of(files, |f: GitSummary| f.untracked) <= usize::MAX
    &&& sum_of(files, |f: GitSummary| f.count) <= usize::MAX
}

proof fn lemma_sum_of(files: Seq<GitEntryView>, count: spec_fn(GitSummary) -> usize)
    ensures
        files.len() == 0 ==> sum_of(files, count) == 0,
        files.len() > 0 ==> sum_of(files, count) == sum_of(files.drop_last(), count) + count(
            files.last().git_summary,
        ),
{
    let each = |f: GitEntryView| count(f.git_summary) as nat;
    if files.len() > 0 {
        assert(files.map_values(each).drop_last() =~= files.drop_last().map_values(each));
    }
}

pub proof fn lemma_total_counts(files: Seq<GitEntryView>)
    ensures
        total_counts(files).len() == 9,
        total_counts(files)[0] == sum_of(files, |f: GitSummary| f.index.added),
        total_counts(files)[1] == sum_of(files, |f: GitSummary| f.index.modified),
        total_counts(files)[2] == sum_of(files, |f: GitSummary| f.index.deleted),
        total_counts(files)[3] == sum_of(files, |f: GitSummary| f.worktree.added),
        total_counts(files)[4] == sum_of(files, |f: GitSummary| f.worktree.modified),
        total_counts(files)[5] == sum_of(files, |f: GitSummary| f.worktree.deleted),
        total_counts(files)[6] == sum_of(files, |f: GitSummary| f.conflict),
        total_counts(files)[7] == sum_of(files, |f: GitSummary| f.untracked),
        total_counts(files)[8] == sum_of(files, |f: GitSummary| f.count),
    decreases files.len(),
{
    lemma_sum_of(files, |f: GitSummary| f.index.added);
    lemma_sum_of(files, |f: GitSummary| f.index.modified);
    lemma_sum_of(files, |f: GitSummary| f.index.deleted);
    lemma_sum_of(files, |f: GitSummary| f.worktree.added);
    lemma_sum_of(files, |f: GitSummary| f.worktree.modified);
    lemma_sum_of(files, |f: GitSummary| f.worktree.deleted);
    lemma_sum_of(files, |f: GitSummary| f.conflict);
    lemma_sum_of(files, |f: GitSummary| f.untracked);
    lemma_sum_of(files, |f: GitSummary| f.count);
    if files.len() > 0 {
        lemma_total_counts(files.drop_last());
    }
}

/// Each count of the git summary of a group's row is the sum of that count over the files of the
/// group. Otherwise the row is a directory of its own below theirs, and looks like the first file.
pub proof fn law_group_row_sums_up(files: Seq<GitEntryView>, dir: Seq<Seq<char>>, id: usize)
    requires
        files.len() > 0,
        sums_fit(files),
    ensures
        sums_up(group_row(files, dir, id).git_summary, files),
        looks_like(group_row(files, dir, id), files[0], dir, id),
{
    lemma_total_counts(files);
    assert(group_row(files, dir, id).entry.path.drop_last() =~= dir);
}

/// A row with this id for a directory, named as no file is, and else like the given file.
pub open spec fn looks_like(
    row: GitEntryView,
    file: GitEntryView,
    dir: Seq<Seq<char>>,
    id: usize,
) -> bool {
    &&& row.entry.id == id
    &&& row.entry.kind == EntryKind::Dir
    &&& row.entry.path.len() == dir.len() + 1
    &&& row.entry.path.drop_last() == dir
    &&& row.entry.path.last() == seq!['\0', 't', 'e', 's', 't', 's']
    &&& row.entry.inode == file.entry.inode
    &&& row.entry.mtime == file.entry.mtime
    &&& row.entry.size == file.entry.size
    &&& row.entry.is_fifo == file.entry.is_fifo
    &&& row.entry.is_ignored == file.entry.is_ignored
    &&& row.entry.canonical_path is None
}

/// The row of a group of one file has the git summary of that file.
pub proof fn law_group_of_one_file_has_its_summary(
    file: GitEntryView,
    dir: Seq<Seq<char>>,
    id: usize,
)
    ensures
        group_row(seq![file], dir, id).git_summary == file.git_summary,
{
    let files = seq![file];
    assert(files.drop_last() =~= Seq::<GitEntryView>::empty());
    assert(total_counts(files.drop_last()) == no_counts());
    assert(total_counts(files) =~= counts(file.git_summary));
}

/// The summary of all files of two groups is the merged one of both.
pub proof fn law_merged_summaries_sum_up(
    summary: &mut GitSummary,
    other: &GitSummary,
    a: Seq<GitEntryView>,
    b: Seq<GitEntryView>,
)
    requires
        sums_up(*old(summary), a),
        sums_up(*other, b),
        sums_fit(a + b),
        call_ensures(GitSummary::merge, (summary, other), ()),
    ensures
        sums_up(*final(summary), a + b),
        final(summary).index.added == old(summary).index.added + other.index.added,
        final(summary).index.modified == old(summary).index.modified + other.index.modified,
        final(summary).index.deleted == old(summary).index.deleted + other.index.deleted,
        final(summary).worktree.added == old(summary).worktree.added + other.worktree.added,
        final(summary).worktree.modified == old(summary).worktree.modified
            + other.worktree.modified,
        final(summary).worktree.deleted == old(summary).worktree.deleted + other.worktree.deleted,
        final(summary).conflict == old(summary).conflict + other.conflict,
        final(summary).untracked == old(summary).untracked + other.untracked,
        final(summary).count == old(summary).count + other.count,
{
    let now = counts(*final(summary));
    let was = counts(*old(summary));
    let more = counts(*other);
    assert(now == add_counts(was, more));
    assert forall|k: int| 0 <= k < 9 implies #[trigger] now[k] == was[k] + more[k] by {}
    assert(now[0] == was[0] + more[0] && now[1] == was[1] + more[1] && now[2] == was[2] + more[2]);
    assert(now[3] == was[3] + more[3] && now[4] == was[4] + more[4] && now[5] == was[5] + more[5]);
    assert(now[6] == was[6] + more[6] && now[7] == was[7] + more[7] && now[8] == was[8] + more[8]);
    lemma_sum_of_both(a, b, |f: GitSummary| f.index.added);
    lemma_sum_of_both(a, b, |f: GitSummary| f.index.modified);
    lemma_sum_of_both(a, b, |f: GitSummary| f.index.deleted);
    lemma_sum_of_both(a, b, |f: GitSummary| f.worktree.added);
    lemma_sum_of_both(a, b, |f: GitSummary| f.worktree.modified);
    lemma_sum_of_both(a, b, |f: GitSummary| f.worktree.deleted);
    lemma_sum_of_both(a, b, |f: GitSummary| f.conflict);
    lemma_sum_of_both(a, b, |f: GitSummary| f.untracked);
    lemma_sum_of_both(a, b, |f: GitSummary| f.count);
}

proof fn lemma_sum_of_both(
    a: Seq<GitEntryView>,
    b: Seq<GitEntryView>,
    count: spec_fn(GitSummary) -> usize,
)
    ensures
        sum_of(a + b, count) == sum_of(a, count) + sum_of(b, count),
    decreases b.len(),
{
    lemma_sum_of(b, count);
    lemma_sum_of(a + b, count);
    if b.len() == 0 {
        assert(a + b =~= a);
    } else {
        lemma_sum_of_both(a, b.drop_last(), count);
        assert((a + b).drop_last() =~= a + b.drop_last());
    }
}

/// Two summaries fit together where each sum of their counts can be held. At first all counts are
/// zero.
pub proof fn law_summaries_that_fit(
    a: &GitSummary,
    b: &GitSummary,
    yes: bool,
    none: GitSummary,
)
    requires
        call_ensures(GitSummary::fits_with, (a, b), yes),
        call_ensures(<GitSummary as Default>::default, (), none),
    ensures
        yes <==> {
            &&& a.index.added + b.index.added <= usize::MAX
            &&& a.index.modified + b.index.modified <= usize::MAX
            &&& a.index.deleted + b.index.deleted <= usize::MAX
            &&& a.worktree.added + b.worktree.added <= usize::MAX
            &&& a.worktree.modified + b.worktree.modified <= usize::MAX
            &&& a.worktree.deleted + b.worktree.deleted <= usize::MAX
            &&& a.conflict + b.conflict <= usize::MAX
            &&& a.untracked + b.untracked <= usize::MAX
            &&& a.count + b.count <= usize::MAX
        },
        sums_up(none, Seq::empty()),
{
    let both = add_counts(counts(*a), counts(*b));
    assert(counts_fit(both) == yes);
    if yes {
        assert(both[0] <= usize::MAX && both[1] <= usize::MAX && both[2] <= usize::MAX);
        assert(both[3] <= usize::MAX && both[4] <= usize::MAX && both[5] <= usize::MAX);
        assert(both[6] <= usize::MAX && both[7] <= usize::MAX && both[8] <= usize::MAX);
    }
    let zero = counts(none);
    assert(zero == no_counts());
    assert(zero[0] == 0 && zero[1] == 0 && zero[2] == 0 && zero[3] == 0 && zero[4] == 0);
    assert(zero[5] == 0 && zero[6] == 0 && zero[7] == 0 && zero[8] == 0);
    let empty = Seq::<GitEntryView>::empty();
    lemma_total_counts(empty);
}

proof fn lemma_is_test_row(rows: Seq<GitEntryView>, globs: Seq<NameGlob>, i: int)
    requires
        0 <= i < rows.len(),
    ensures
        is_test_row(rows[i], globs) == is_test_file(
            rows[i],
            accepted_names(rows, glob_views(globs))[i],
        ),
{
    let views = glob_views(globs);
    let name = rows[i].entry.path.last();
    if name_matches(views, name) {
        let p = choose|p: int| 0 <= p < views.len() && glob_matches(#[trigger] views[p], name);
        assert(glob_matches(globs[p]@, name));
    }
    if exists|p: int| 0 <= p < globs.len() && glob_matches((#[trigger] globs[p])@, name) {
        let p = choose|p: int| 0 <= p < globs.len() && glob_matches((#[trigger] globs[p])@, name);
        assert(glob_matches(views[p], name));
    }
}

proof fn lemma_files_of_rows(
    rows: Seq<GitEntryView>,
    globs: Seq<NameGlob>,
    dir: Seq<Seq<char>>,
    n: int,
)
    requires
        0 <= n <= rows.len(),
    ensures
        files_in(rows.take(n), accepted_names(rows, glob_views(globs)), dir) == tests_of(
            rows.take(n),
            globs,
            dir,
        ),
    decreases n,
{
    reveal(Seq::filter);
    if n > 0 {
        lemma_files_of_rows(rows, globs, dir, n - 1);
        lemma_is_test_row(rows, globs, n - 1);
        assert(rows.take(n).drop_last() =~= rows.take(n - 1));
    }
}

/// The test files of a directory are those rows of it whose names a glob matches.
pub proof fn lemma_tests_of(rows: Seq<GitEntryView>, globs: Seq<NameGlob>, dir: Seq<Seq<char>>)
    ensures
        files_in(rows, accepted_names(rows, glob_views(globs)), dir) == tests_of(rows, globs, dir),
{
    lemma_files_of_rows(rows, globs, dir, rows.len() as int);
    assert(rows.take(rows.len() as int) =~= rows);
}

pub proof fn lemma_stands_for(snapshot: SnapshotView, dir: Seq<Seq<char>>, parent: SelectedEntry)
    requires
        listing(snapshot.entries),
    ensures
        stands_for(snapshot, dir, parent) <==> dir_parent(snapshot, dir) == Some(parent),
{
    let entries = snapshot.entries;
    if stands_for(snapshot, dir, parent) {
        let i = choose|i: int|
            0 <= i < entries.len() && (#[trigger] entries[i]).path == dir && entries[i].id
                == parent.entry_id;
        assert(entry_at(entries, dir, i));
        let j = choose|j: int| entry_at(entries, dir, j);
        lemma_path_strict_total();
        if i < j {
            assert(path_before(entries[i].path, entries[j].path));
        } else if j < i {
            assert(path_before(entries[j].path, entries[i].path));
        }
    }
    if dir_parent(snapshot, dir) == Some(parent) {
        let j = choose|j: int| entry_at(entries, dir, j);
        assert(entries[j].path == dir);
    }
}

/// The groups, and the rows as they were, before the rows of a worktree are grouped: no id stands
/// for two rows, and none of these is grouped yet.
pub open spec fn can_be_grouped(
    g: TestGroupsView,
    rows: Seq<GitEntryView>,
    snapshot: SnapshotView,
) -> bool {
    &&& coherent(g)
    &&& listing(snapshot.entries)
    &&& distinct_rows(rows)
    &&& not_grouped(g, rows, snapshot.id)
}

/// What grouping the rows of a worktree comes to, as `with_groups` gives it.
pub proof fn lemma_grouped<F: Fn(usize) -> bool>(
    id_is_real: F,
    g: TestGroupsView,
    rows: Seq<GitEntryView>,
    snapshot: SnapshotView,
    accepted: Seq<bool>,
    reveal: Option<usize>,
    now: (TestGroupsView, Seq<GitEntryView>),
) -> (taken: spec_fn(usize) -> bool)
    requires
        grouped_as_said(id_is_real, g, rows, snapshot, accepted, reveal, now),
    ensures
        grouped(g, rows, snapshot, accepted, reveal, taken) == now,
        with_groups(g, rows, snapshot, accepted, reveal, taken, test_dirs(rows, accepted)).0
            == now.0,
{
    let reals = choose|reals: Set<usize>| #[trigger]
        said_real(id_is_real, reals) && grouped(
            g,
            rows,
            snapshot,
            accepted,
            reveal,
            among(reals),
        ) == now;
    among(reals)
}

/// Ids are left as long as the last one that was given is not zero.
pub proof fn lemma_enough(
    g: TestGroupsView,
    rows: Seq<GitEntryView>,
    snapshot: SnapshotView,
    accepted: Seq<bool>,
    reveal: Option<usize>,
    taken: spec_fn(usize) -> bool,
    dirs: Seq<Seq<Seq<char>>>,
)
    ensures
        ({
            let (now, enough) = with_groups(g, rows, snapshot, accepted, reveal, taken, dirs);
            now.ids.next != Some(0usize) ==> enough
        }),
    decreases dirs.len(),
{
    if dirs.len() > 0 {
        lemma_enough(g, rows, snapshot, accepted, reveal, taken, dirs.drop_last());
    }
}

/// A group that is made holds exactly the test files of one directory, in the order of the rows,
/// and belongs to the entry of that directory. Its id is no real one, and each of its files is a
/// member of it.
pub proof fn law_group_holds_the_tests_of_a_directory<F: Fn(usize) -> bool>(
    groups: &mut TestGroups,
    rows: &mut Vec<GitEntry>,
    snapshot: &Snapshot,
    globs: &[NameGlob],
    reveal: Option<usize>,
    id_is_real: F,
    id: usize,
)
    requires
        can_be_grouped(old(groups)@, git_views(old(rows)@), snapshot@),
        call_ensures(
            TestGroups::group_entries::<F>,
            (groups, rows, snapshot, globs, reveal, id_is_real),
            (),
        ),
        final(groups)@.groups.contains_key(id),
        !old(groups)@.groups.contains_key(id),
    ensures
        ({
            let group = final(groups)@.groups[id];
            let before = old(rows)@.map_values(|e: GitEntry| e@);
            &&& group.files.len() > 0
            &&& group.files == before.filter(tests_in(globs@, group.path))
            &&& stands_for(snapshot@, group.path, group.parent)
            &&& call_ensures(id_is_real, (id,), false)
            &&& id != usize::MAX
            &&& forall|i: int|
                0 <= i < group.files.len() ==> final(groups)@.members.contains_key(
                    (#[trigger] group.files[i]).entry.id,
                ) && final(groups)@.members[group.files[i].entry.id] == id
        }),
{
    let g = old(groups)@;
    let before = git_views(old(rows)@);
    let accepted = accepted_names(before, glob_views(globs@));
    let now = (final(groups)@, git_views(final(rows)@));
    let taken = lemma_grouped(id_is_real, g, before, snapshot@, accepted, reveal, now);
    let dirs = test_dirs(before, accepted);
    let group = now.0.groups[id];
    lemma_test_dirs(before, accepted);
    lemma_with_groups_coherent(g, before, snapshot@, accepted, reveal, taken, dirs);
    assert(made_of(group, before, snapshot@, accepted, dirs));
    assert(group_in_place(now.0, id));
    lemma_tests_of(before, globs@, group.path);
    lemma_stands_for(snapshot@, group.path, group.parent);
}

/// As long as there are ids, each directory with test files that the worktree has gets a group,
/// the test files of such directories are the new members, and the groups that hold the file to
/// be revealed are the ones that are newly expanded.
pub proof fn law_every_directory_of_tests_has_a_group<F: Fn(usize) -> bool>(
    groups: &mut TestGroups,
    rows: &mut Vec<GitEntry>,
    snapshot: &Snapshot,
    globs: &[NameGlob],
    reveal: Option<usize>,
    id_is_real: F,
)
    requires
        can_be_grouped(old(groups)@, git_views(old(rows)@), snapshot@),
        call_ensures(
            TestGroups::group_entries::<F>,
            (groups, rows, snapshot, globs, reveal, id_is_real),
            (),
        ),
        final(groups)@.ids.next != Some(0usize),
    ensures
        forall|i: int, parent: SelectedEntry|
            0 <= i < old(rows)@.len() && is_test_row(old(rows)@[i]@, globs@)
                && #[trigger] stands_for(
                snapshot@,
                old(rows)@[i]@.entry.path.drop_last(),
                parent,
            ) ==> exists|id: usize| #[trigger]
                final(groups)@.groups.contains_key(id) && !old(groups)@.groups.contains_key(id)
                    && final(groups)@.groups[id].parent == parent
                    && final(groups)@.groups[id].path == old(rows)@[i]@.entry.path.drop_last(),
        forall|file: usize| #[trigger]
            final(groups)@.members.contains_key(file) <==> old(groups)@.members.contains_key(file)
                || is_grouped_file(git_views(old(rows)@), snapshot@, globs@, file),
        forall|p: SelectedEntry| #[trigger]
            final(groups)@.expanded.contains(p) <==> old(groups)@.expanded.contains(p)
                || is_revealed(git_views(old(rows)@), snapshot@, globs@, reveal, p),
{
    let g = old(groups)@;
    let before = git_views(old(rows)@);
    let accepted = accepted_names(before, glob_views(globs@));
    let now = (final(groups)@, git_views(final(rows)@));
    let taken = lemma_grouped(id_is_real, g, before, snapshot@, accepted, reveal, now);
    let dirs = test_dirs(before, accepted);
    lemma_enough(g, before, snapshot@, accepted, reveal, taken, dirs);
    lemma_test_dirs(before, accepted);
    lemma_with_groups_coherent(g, before, snapshot@, accepted, reveal, taken, dirs);
    law_each_directory_has_its_group(g, before, snapshot@, accepted, reveal, taken, dirs);
    law_every_test_file_is_grouped(g, before, snapshot@, accepted, reveal, taken, dirs);
    assert forall|i: int, parent: SelectedEntry|
        0 <= i < old(rows)@.len() && is_test_row(old(rows)@[i]@, globs@) && #[trigger] stands_for(
            snapshot@,
            old(rows)@[i]@.entry.path.drop_last(),
            parent,
        ) implies exists|id: usize| #[trigger]
        final(groups)@.groups.contains_key(id) && !old(groups)@.groups.contains_key(id)
            && final(groups)@.groups[id].parent == parent && final(groups)@.groups[id].path
            == old(rows)@[i]@.entry.path.drop_last() by {
        let dir = before[i].entry.path.drop_last();
        lemma_stands_for(snapshot@, dir, parent);
        lemma_dir_of_test(before, globs@, i);
        assert(dirs.contains(dir));
        assert(has_own_group(now.0, before, snapshot@, accepted, dir));
        let id = now.0.ids.by_parent[parent];
        assert(now.0.groups.contains_key(id));
        if g.groups.contains_key(id) {
            assert(now.0.groups[id] == g.groups[id]);
        }
    }
    assert forall|file: usize| #[trigger] final(groups)@.members.contains_key(file) <==> old(
        groups,
    )@.members.contains_key(file) || is_grouped_file(
        git_views(old(rows)@),
        snapshot@,
        globs@,
        file,
    ) by {
        if now.0.members.contains_key(file) && !g.members.contains_key(file) {
            let id = now.0.members[file];
            let group = now.0.groups[id];
            if g.groups.contains_key(id) {
                assert(group_in_place(g, id));
                let k = choose|k: int|
                    0 <= k < group.files.len() && (#[trigger] group.files[k]).entry.id == file;
                assert(g.groups[id].files[k].entry.id == file);
                assert(false);
            }
            assert(made_of(group, before, snapshot@, accepted, dirs));
            let k = choose|k: int|
                0 <= k < group.files.len() && (#[trigger] group.files[k]).entry.id == file;
            let i = lemma_row_of_test(before, globs@, group.path, k);
            lemma_stands_for(snapshot@, group.path, group.parent);
            assert(stands_for(snapshot@, before[i].entry.path.drop_last(), group.parent));
        }
        if is_grouped_file(before, snapshot@, globs@, file) {
            let (i, parent) = choose|i: int, parent: SelectedEntry|
                0 <= i < before.len() && (#[trigger] before[i]).entry.id == file && is_test_row(
                    before[i],
                    globs@,
                ) && #[trigger] stands_for(
                    snapshot@,
                    before[i].entry.path.drop_last(),
                    parent,
                );
            let dir = before[i].entry.path.drop_last();
            lemma_stands_for(snapshot@, dir, parent);
            lemma_dir_of_test(before, globs@, i);
            let k = lemma_test_of_row(before, globs@, i);
            assert(dirs.contains(dir));
            assert(now.0.members.contains_key(files_in(before, accepted, dir)[k].entry.id));
        }
    }
    assert forall|p: SelectedEntry| #[trigger] final(groups)@.expanded.contains(p) <==> old(
        groups,
    )@.expanded.contains(p) || is_revealed(
        git_views(old(rows)@),
        snapshot@,
        globs@,
        reveal,
        p,
    ) by {
        lemma_expanded(g, before, snapshot@, accepted, reveal, taken, dirs, p);
        if exists|dir: Seq<Seq<char>>| #[trigger]
            dirs.contains(dir) && dir_parent(snapshot@, dir) == Some(p) && reveals(
                files_in(before, accepted, dir),
                reveal,
            ) {
            let dir = choose|dir: Seq<Seq<char>>| #[trigger]
                dirs.contains(dir) && dir_parent(snapshot@, dir) == Some(p) && reveals(
                    files_in(before, accepted, dir),
                    reveal,
                );
            let files = files_in(before, accepted, dir);
            let k = choose|k: int|
                0 <= k < files.len() && Some((#[trigger] files[k]).entry.id) == reveal;
            let i = lemma_row_of_test(before, globs@, dir, k);
            lemma_stands_for(snapshot@, dir, p);
            assert(stands_for(snapshot@, before[i].entry.path.drop_last(), p));
        }
        if is_revealed(before, snapshot@, globs@, reveal, p) {
            let i = choose|i: int|
                0 <= i < before.len() && Some((#[trigger] before[i]).entry.id) == reveal
                    && is_test_row(before[i], globs@) && stands_for(
                    snapshot@,
                    before[i].entry.path.drop_last(),
                    p,
                );
            let dir = before[i].entry.path.drop_last();
            lemma_stands_for(snapshot@, dir, p);
            lemma_dir_of_test(before, globs@, i);
            let k = lemma_test_of_row(before, globs@, i);
            assert(Some(files_in(before, accepted, dir)[k].entry.id) == reveal);
            assert(dirs.contains(dir));
        }
    }
}

/// The id is that of a test file whose directory the worktree has.
pub open spec fn is_grouped_file(
    rows: Seq<GitEntryView>,
    snapshot: SnapshotView,
    globs: Seq<NameGlob>,
    file: usize,
) -> bool {
    exists|i: int, parent: SelectedEntry|
        0 <= i < rows.len() && (#[trigger] rows[i]).entry.id == file && is_test_row(
            rows[i],
            globs,
        ) && #[trigger] stands_for(snapshot, rows[i].entry.path.drop_last(), parent)
}

/// The entry is that of a directory with a test file that is to be revealed.
pub open spec fn is_revealed(
    rows: Seq<GitEntryView>,
    snapshot: SnapshotView,
    globs: Seq<NameGlob>,
    reveal: Option<usize>,
    parent: SelectedEntry,
) -> bool {
    exists|i: int|
        0 <= i < rows.len() && Some((#[trigger] rows[i]).entry.id) == reveal && is_test_row(
            rows[i],
            globs,
        ) && stands_for(snapshot, rows[i].entry.path.drop_last(), parent)
}

proof fn lemma_test_of_row(rows: Seq<GitEntryView>, globs: Seq<NameGlob>, i: int) -> (k: int)
    requires
        0 <= i < rows.len(),
        is_test_row(rows[i], globs),
    ensures
        ({
            let files = files_in(
                rows,
                accepted_names(rows, glob_views(globs)),
                rows[i].entry.path.drop_last(),
            );
            0 <= k < files.len() && files[k] == rows[i]
        }),
{
    let dir = rows[i].entry.path.drop_last();
    let in_dir = tests_in(globs, dir);
    lemma_tests_of(rows, globs, dir);
    rows.lemma_filter_contains(in_dir, i);
    rows.filter(in_dir).index_of(rows[i])
}

pub proof fn lemma_dir_of_test(rows: Seq<GitEntryView>, globs: Seq<NameGlob>, i: int)
    requires
        0 <= i < rows.len(),
        is_test_row(rows[i], globs),
    ensures
        test_dirs(rows, accepted_names(rows, glob_views(globs))).contains(
            rows[i].entry.path.drop_last(),
        ),
{
    let k = lemma_test_of_row(rows, globs, i);
    lemma_test_dirs(rows, accepted_names(rows, glob_views(globs)));
}

proof fn lemma_row_of_test(
    rows: Seq<GitEntryView>,
    globs: Seq<NameGlob>,
    dir: Seq<Seq<char>>,
    k: int,
) -> (i: int)
    requires
        0 <= k < files_in(rows, accepted_names(rows, glob_views(globs)), dir).len(),
    ensures
        0 <= i < rows.len(),
        rows[i] == files_in(rows, accepted_names(rows, glob_views(globs)), dir)[k],
        is_test_row(rows[i], globs),
        rows[i].entry.path.drop_last() == dir,
{
    let in_dir = tests_in(globs, dir);
    lemma_tests_of(rows, globs, dir);
    let file = rows.filter(in_dir)[k];
    rows.lemma_filter_pred(in_dir, k);
    rows.lemma_filter_contains_rev(in_dir, file);
    rows.index_of(file)
}

proof fn lemma_expanded(
    g: TestGroupsView,
    rows: Seq<GitEntryView>,
    snapshot: SnapshotView,
    accepted: Seq<bool>,
    reveal: Option<usize>,
    taken: spec_fn(usize) -> bool,
    dirs: Seq<Seq<Seq<char>>>,
    p: SelectedEntry,
)
    requires
        with_groups(g, rows, snapshot, accepted, reveal, taken, dirs).1,
    ensures
        with_groups(g, rows, snapshot, accepted, reveal, taken, dirs).0.expanded.contains(p)
            <==> g.expanded.contains(p) || exists|dir: Seq<Seq<char>>| #[trigger]
            dirs.contains(dir) && dir_parent(snapshot, dir) == Some(p) && reveals(
                files_in(rows, accepted, dir),
                reveal,
            ),
    decreases dirs.len(),
{
    if dirs.len() > 0 {
        let init = dirs.drop_last();
        let last = dirs.last();
        lemma_expanded(g, rows, snapshot, accepted, reveal, taken, init, p);
        assert(dirs[dirs.len() - 1] == last);
        assert forall|dir: Seq<Seq<char>>| #[trigger] dirs.contains(dir) <==> dir == last
            || init.contains(dir) by {
            if dirs.contains(dir) && dir != last {
                assert(init[dirs.index_of(dir)] == dir);
            }
            if init.contains(dir) {
                assert(dirs[init.index_of(dir)] == dir);
            }
        }
        let now = with_groups(g, rows, snapshot, accepted, reveal, taken, dirs).0;
        let before = with_groups(g, rows, snapshot, accepted, reveal, taken, init).0;
        let files = files_in(rows, accepted, last);
        assert(dirs.contains(last));
        assert(now.expanded.contains(p) <==> before.expanded.contains(p) || (dir_parent(
            snapshot,
            last,
        ) == Some(p) && reveals(files, reveal)));
        if exists|dir: Seq<Seq<char>>| #[trigger]
            init.contains(dir) && dir_parent(snapshot, dir) == Some(p) && reveals(
                files_in(rows, accepted, dir),
                reveal,
            ) {
            let dir = choose|dir: Seq<Seq<char>>| #[trigger]
                init.contains(dir) && dir_parent(snapshot, dir) == Some(p) && reveals(
                    files_in(rows, accepted, dir),
                    reveal,
                );
            assert(dirs.contains(dir));
        }
        if exists|dir: Seq<Seq<char>>| #[trigger]
            dirs.contains(dir) && dir_parent(snapshot, dir) == Some(p) && reveals(
                files_in(rows, accepted, dir),
                reveal,
            ) {
            let dir = choose|dir: Seq<Seq<char>>| #[trigger]
                dirs.contains(dir) && dir_parent(snapshot, dir) == Some(p) && reveals(
                    files_in(rows, accepted, dir),
                    reveal,
                );
            if dir != last {
                assert(init.contains(dir));
            }
        }
    }
}

} // verus!
