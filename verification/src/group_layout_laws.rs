//! Where the rows of the groups stand among the others.
use vstd::prelude::*;

use crate::group_content_laws::can_be_grouped;
use crate::group_content_laws::is_test_row;
use crate::group_content_laws::law_group_row_sums_up;
use crate::group_content_laws::lemma_dir_of_test;
use crate::group_content_laws::lemma_enough;
use crate::group_content_laws::lemma_grouped;
use crate::group_content_laws::lemma_stands_for;
use crate::group_content_laws::looks_like;
use crate::group_content_laws::stands_for;
use crate::group_content_laws::sums_fit;
use crate::group_content_laws::sums_up;
use crate::group_update_laws::group_in_place;
use crate::group_update_laws::lemma_keeps_order;
use crate::group_update_laws::lemma_with_groups_coherent;
use crate::group_update_laws::made_of;
use crate::patterns::NameGlob;
use crate::rel_path::ancestor;
use crate::rel_path::within;
use crate::test_group_laws::has_own_group;
use crate::test_group_laws::law_each_directory_has_its_group;
use crate::test_group_laws::law_other_rows_keep_their_order;
use crate::test_group_laws::lemma_last_within;
use crate::test_group_laws::lemma_shown_prefix;
use crate::test_group_laws::place;
use crate::test_groups::accepted_names;
use crate::test_groups::git_views;
use crate::test_groups::glob_views;
use crate::test_groups::group_row;
use crate::test_groups::group_rows;
use crate::test_groups::grouped;
use crate::test_groups::last_within;
use crate::test_groups::lemma_test_dirs;
use crate::test_groups::rows_after;
use crate::test_groups::shown;
use crate::test_groups::test_dirs;
use crate::test_groups::with_groups;
use crate::test_groups::SelectedEntry;
use crate::test_groups::TestGroups;
use crate::test_groups::TestGroupsView;
use crate::worktree::GitEntry;
use crate::worktree::GitEntryView;
use crate::worktree::Snapshot;
use crate::worktree::SnapshotView;

verus! {

proof fn lemma_rows_after_grow(
    g: TestGroupsView,
    rows: Seq<GitEntryView>,
    snapshot: SnapshotView,
    accepted: Seq<bool>,
    i: int,
    m: nat,
    n: nat,
)
    requires
        m <= n,
    ensures
        ({
            let few = rows_after(g, rows, snapshot, accepted, i, m);
            let more = rows_after(g, rows, snapshot, accepted, i, n);
            few.len() <= more.len() && more.take(few.len() as int) == few
        }),
    decreases n,
{
    let few = rows_after(g, rows, snapshot, accepted, i, m);
    let more = rows_after(g, rows, snapshot, accepted, i, n);
    if m < n {
        let deeper = rows_after(g, rows, snapshot, accepted, i, (n - 1) as nat);
        lemma_rows_after_grow(g, rows, snapshot, accepted, i, m, (n - 1) as nat);
        assert(more.take(deeper.len() as int) =~= deeper);
        assert(more.take(few.len() as int) =~= deeper.take(few.len() as int));
    } else {
        assert(more.take(few.len() as int) =~= few);
    }
}

/// Where the rows of the group of `dir` begin, if `i` is the last row below it.
spec fn group_place(
    g: TestGroupsView,
    rows: Seq<GitEntryView>,
    snapshot: SnapshotView,
    accepted: Seq<bool>,
    dir: Seq<Seq<char>>,
    i: int,
) -> int {
    place(g, rows, snapshot, accepted, i) + (if g.members.contains_key(rows[i].entry.id) {
        0int
    } else {
        1
    }) + rows_after(
        g,
        rows,
        snapshot,
        accepted,
        i,
        (rows[i].entry.path.len() - dir.len()) as nat,
    ).len()
}

proof fn lemma_group_place(
    g: TestGroupsView,
    rows: Seq<GitEntryView>,
    snapshot: SnapshotView,
    accepted: Seq<bool>,
    dir: Seq<Seq<char>>,
    i: int,
)
    requires
        last_within(rows, dir, i),
    ensures
        ({
            let list = shown(g, rows, snapshot, accepted, rows.len());
            let own = group_rows(g, rows, snapshot, accepted, dir);
            let from = group_place(g, rows, snapshot, accepted, dir, i);
            &&& place(g, rows, snapshot, accepted, i) <= from
            &&& !g.members.contains_key(rows[i].entry.id) ==> place(
                g,
                rows,
                snapshot,
                accepted,
                i,
            ) < from
            &&& from + own.len() <= place(g, rows, snapshot, accepted, i + 1) <= list.len()
            &&& list.subrange(from, from + own.len()) == own
        }),
{
    let list = shown(g, rows, snapshot, accepted, rows.len());
    let own = group_rows(g, rows, snapshot, accepted, dir);
    let from = group_place(g, rows, snapshot, accepted, dir, i);
    let path = rows[i].entry.path;
    let up = (path.len() - dir.len()) as nat;
    let deeper = rows_after(g, rows, snapshot, accepted, i, up);
    let with_own = rows_after(g, rows, snapshot, accepted, i, up + 1);
    let all = rows_after(g, rows, snapshot, accepted, i, path.len() + 1);
    assert(ancestor(path, up) == Some(dir)) by {
        assert(path.take(dir.len() as int) =~= dir);
    }
    assert(with_own == deeper + own);
    lemma_rows_after_grow(g, rows, snapshot, accepted, i, up + 1, path.len() + 1);
    let upto = shown(g, rows, snapshot, accepted, (i + 1) as nat);
    lemma_shown_prefix(g, rows, snapshot, accepted, (i + 1) as nat, rows.len());
    let start = upto.len() - all.len();
    let part = list.subrange(from, from + own.len());
    assert forall|k: int| 0 <= k < own.len() implies #[trigger] part[k] == own[k] by {
        assert(list.take(upto.len() as int)[from + k] == list[from + k]);
        assert(upto[from + k] == all[deeper.len() + k]);
        assert(all.take(with_own.len() as int)[deeper.len() + k] == with_own[deeper.len() + k]);
    }
    assert(part =~= own);
}

/// The directory, or a directory above it, of which `i` is the last row.
pub open spec fn ends_at(rows: Seq<GitEntryView>, dir: Seq<Seq<char>>, i: int) -> bool {
    &&& 0 <= i < rows.len()
    &&& dir.is_prefix_of(rows[i].entry.path)
    &&& forall|j: int|
        i < j < rows.len() ==> !(#[trigger] dir.is_prefix_of(rows[j].entry.path))
}

proof fn lemma_ends_at(rows: Seq<GitEntryView>, dir: Seq<Seq<char>>, i: int)
    ensures
        ends_at(rows, dir, i) == last_within(rows, dir, i),
{
    assert forall|path: Seq<Seq<char>>| #[trigger] dir.is_prefix_of(path) == within(path, dir) by {
        if within(path, dir) {
            assert(dir =~= path.subrange(0, dir.len() as int));
        }
        if dir.is_prefix_of(path) {
            assert(path.take(dir.len() as int) =~= dir);
        }
    }
    if 0 <= i < rows.len() {
        assert(dir.is_prefix_of(rows[i].entry.path) == within(rows[i].entry.path, dir));
        if ends_at(rows, dir, i) {
            assert forall|j: int| i < j < rows.len() implies !within(
                #[trigger] rows[j].entry.path,
                dir,
            ) by {
                assert(!dir.is_prefix_of(rows[j].entry.path));
            }
        }
        if last_within(rows, dir, i) {
            assert forall|j: int| i < j < rows.len() implies !(#[trigger] dir.is_prefix_of(
                rows[j].entry.path,
            )) by {
                assert(!within(rows[j].entry.path, dir));
            }
        }
    }
}

/// Rows that belong to no group stay in the list, in their order.
pub proof fn law_other_rows_stay_in_order<F: Fn(usize) -> bool>(
    groups: &mut TestGroups,
    rows: &mut Vec<GitEntry>,
    snapshot: &Snapshot,
    globs: &[NameGlob],
    reveal: Option<usize>,
    id_is_real: F,
    i: int,
    j: int,
)
    requires
        call_ensures(
            TestGroups::group_entries::<F>,
            (groups, rows, snapshot, globs, reveal, id_is_real),
            (),
        ),
        0 <= i < j < old(rows)@.len(),
        !final(groups)@.members.contains_key(old(rows)@[i].entry.id),
        !final(groups)@.members.contains_key(old(rows)@[j].entry.id),
    ensures
        exists|a: int, b: int|
            0 <= a < b < final(rows)@.len() && (#[trigger] final(rows)@[a])@ == old(rows)@[i]@ && (
            #[trigger] final(rows)@[b])@ == old(rows)@[j]@,
{
    let g = old(groups)@;
    let before = git_views(old(rows)@);
    let accepted = accepted_names(before, glob_views(globs@));
    let now = (final(groups)@, git_views(final(rows)@));
    let taken = lemma_grouped(id_is_real, g, before, snapshot@, accepted, reveal, now);
    let dirs = test_dirs(before, accepted);
    assert(before[i] == old(rows)@[i]@ && before[j] == old(rows)@[j]@);
    if with_groups(g, before, snapshot@, accepted, reveal, taken, dirs).1 {
        law_other_rows_keep_their_order(now.0, before, snapshot@, accepted, i, j);
        law_other_rows_keep_their_order(now.0, before, snapshot@, accepted, j, i);
        let at = (
            place(now.0, before, snapshot@, accepted, i),
            place(now.0, before, snapshot@, accepted, j),
        );
        assert(now.1[at.0] == final(rows)@[at.0]@ && now.1[at.1] == final(rows)@[at.1]@);
    } else {
        assert(now.1[i] == final(rows)@[i]@ && now.1[j] == final(rows)@[j]@);
    }
}

/// The row of a group says what the files of the group add up to, and its files follow it where it
/// is expanded. It stands behind all other rows of its directory, and before those that follow the
/// directory.
pub proof fn law_group_stands_behind_its_directory<F: Fn(usize) -> bool>(
    groups: &mut TestGroups,
    rows: &mut Vec<GitEntry>,
    snapshot: &Snapshot,
    globs: &[NameGlob],
    reveal: Option<usize>,
    id_is_real: F,
    id: usize,
)
    requires
        can_be_grouped(old(groups)@, git_views(old(rows)@), snapshot@),
        call_ensures(
            TestGroups::group_entries::<F>,
            (groups, rows, snapshot, globs, reveal, id_is_real),
            (),
        ),
        final(groups)@.ids.next != Some(0usize),
        final(groups)@.groups.contains_key(id),
        !old(groups)@.groups.contains_key(id),
        sums_fit(final(groups)@.groups[id].files),
    ensures
        exists|k: int| #[trigger]
            group_stands_at(
                git_views(old(rows)@),
                final(groups)@,
                git_views(final(rows)@),
                id,
                k,
            ),
{
    let g = old(groups)@;
    let before = git_views(old(rows)@);
    let accepted = accepted_names(before, glob_views(globs@));
    let now = (final(groups)@, git_views(final(rows)@));
    let taken = lemma_grouped(id_is_real, g, before, snapshot@, accepted, reveal, now);
    lemma_enough(g, before, snapshot@, accepted, reveal, taken, test_dirs(before, accepted));
    lemma_group_stands(g, before, snapshot@, accepted, reveal, taken, id);
}

proof fn lemma_group_stands(
    g: TestGroupsView,
    rows: Seq<GitEntryView>,
    snapshot: SnapshotView,
    accepted: Seq<bool>,
    reveal: Option<usize>,
    taken: spec_fn(usize) -> bool,
    id: usize,
)
    requires
        can_be_grouped(g, rows, snapshot),
        with_groups(g, rows, snapshot, accepted, reveal, taken, test_dirs(rows, accepted)).1,
        grouped(g, rows, snapshot, accepted, reveal, taken).0.groups.contains_key(id),
        !g.groups.contains_key(id),
        sums_fit(grouped(g, rows, snapshot, accepted, reveal, taken).0.groups[id].files),
    ensures
        exists|k: int| #[trigger]
            group_stands_at(
                rows,
                grouped(g, rows, snapshot, accepted, reveal, taken).0,
                grouped(g, rows, snapshot, accepted, reveal, taken).1,
                id,
                k,
            ),
{
    let (now, list) = grouped(g, rows, snapshot, accepted, reveal, taken);
    let (dir, last) = lemma_place_of_group(g, rows, snapshot, accepted, reveal, taken, id);
    let group = now.groups[id];
    let own = group_rows(now, rows, snapshot, accepted, dir);
    let k = group_place(now, rows, snapshot, accepted, dir, last);
    let expanded = now.expanded.contains(group.parent);
    lemma_group_place(now, rows, snapshot, accepted, dir, last);
    law_group_row_sums_up(group.files, dir, id);
    let part = list.subrange(k, k + own.len());
    assert(part[0] == own[0]);
    if expanded {
        let behind = list.subrange(k + 1, k + 1 + group.files.len());
        assert forall|f: int| 0 <= f < group.files.len() implies #[trigger] behind[f]
            == group.files[f] by {
            assert(part[f + 1] == own[f + 1]);
            assert(behind[f] == list[k + (f + 1)]);
        }
        assert(behind =~= group.files);
    }
    assert forall|i: int|
        0 <= i < rows.len() && !now.members.contains_key(
            (#[trigger] rows[i]).entry.id,
        ) implies stands_on_its_side(rows, dir, expanded, group.files.len(), list, k, i) by {
        lemma_side(now, rows, snapshot, accepted, dir, last, i);
        let at = place(now, rows, snapshot, accepted, i);
        assert(list[at] == rows[i]);
    }
    assert(group_stands_at(rows, now, list, id, k));
}

proof fn lemma_side(
    g: TestGroupsView,
    rows: Seq<GitEntryView>,
    snapshot: SnapshotView,
    accepted: Seq<bool>,
    dir: Seq<Seq<char>>,
    last: int,
    i: int,
)
    requires
        last_within(rows, dir, last),
        0 <= i < rows.len(),
        !g.members.contains_key(rows[i].entry.id),
    ensures
        ({
            let list = shown(g, rows, snapshot, accepted, rows.len());
            let at = place(g, rows, snapshot, accepted, i);
            let from = group_place(g, rows, snapshot, accepted, dir, last);
            let own = group_rows(g, rows, snapshot, accepted, dir);
            &&& 0 <= at < list.len()
            &&& list[at] == rows[i]
            &&& (exists|j: int|
                i <= j < rows.len() && #[trigger] dir.is_prefix_of(rows[j].entry.path)) ==> at
                < from
            &&& !(exists|j: int|
                i <= j < rows.len() && #[trigger] dir.is_prefix_of(rows[j].entry.path)) ==> at
                >= from + own.len()
        }),
{
    let from = group_place(g, rows, snapshot, accepted, dir, last);
    let at = place(g, rows, snapshot, accepted, i);
    lemma_group_place(g, rows, snapshot, accepted, dir, last);
    law_other_rows_keep_their_order(g, rows, snapshot, accepted, i, last);
    lemma_ends_at(rows, dir, last);
    if i <= last {
        assert(dir.is_prefix_of(rows[last].entry.path));
        assert(at < from);
    } else {
        lemma_shown_prefix(g, rows, snapshot, accepted, (last + 1) as nat, i as nat);
        assert forall|j: int| i <= j < rows.len() implies !(#[trigger] dir.is_prefix_of(
            rows[j].entry.path,
        )) by {}
    }
}

/// The row of the group is at `k`, with its files behind it where it is expanded, and the rows
/// that belong to no group stand on its two sides.
pub open spec fn group_stands_at(
    rows: Seq<GitEntryView>,
    g: TestGroupsView,
    list: Seq<GitEntryView>,
    id: usize,
    k: int,
) -> bool {
    let group = g.groups[id];
    let expanded = g.expanded.contains(group.parent);
    &&& 0 <= k < list.len()
    &&& sums_up(list[k].git_summary, group.files)
    &&& looks_like(list[k], group.files[0], group.path, id)
    &&& expanded ==> k + group.files.len() < list.len() && list.subrange(
        k + 1,
        k + 1 + group.files.len(),
    ) == group.files
    &&& forall|i: int|
        0 <= i < rows.len() && !g.members.contains_key((#[trigger] rows[i]).entry.id)
            ==> stands_on_its_side(rows, group.path, expanded, group.files.len(), list, k, i)
}

/// The row at `i` is in the list, before `k` where it or one after it is in the directory, and
/// else behind `k` and the files that follow it.
pub open spec fn stands_on_its_side(
    rows: Seq<GitEntryView>,
    dir: Seq<Seq<char>>,
    expanded: bool,
    files: nat,
    list: Seq<GitEntryView>,
    k: int,
    i: int,
) -> bool {
    exists|at: int|
        0 <= at < list.len() && #[trigger] list[at] == rows[i] && if exists|j: int|
            i <= j < rows.len() && #[trigger] dir.is_prefix_of(rows[j].entry.path) {
            at < k
        } else {
            at > if expanded {
                k + files
            } else {
                k
            }
        }
}

proof fn lemma_place_of_group(
    g: TestGroupsView,
    rows: Seq<GitEntryView>,
    snapshot: SnapshotView,
    accepted: Seq<bool>,
    reveal: Option<usize>,
    taken: spec_fn(usize) -> bool,
    id: usize,
) -> (found: (Seq<Seq<char>>, int))
    requires
        can_be_grouped(g, rows, snapshot),
        with_groups(g, rows, snapshot, accepted, reveal, taken, test_dirs(rows, accepted)).1,
        grouped(g, rows, snapshot, accepted, reveal, taken).0.groups.contains_key(id),
        !g.groups.contains_key(id),
    ensures
        ({
            let now = grouped(g, rows, snapshot, accepted, reveal, taken).0;
            let group = now.groups[id];
            &&& found.0 == group.path
            &&& last_within(rows, group.path, found.1)
            &&& group.files.len() > 0
            &&& group_rows(now, rows, snapshot, accepted, group.path) == seq![
                group_row(group.files, group.path, id),
            ] + if now.expanded.contains(group.parent) {
                group.files
            } else {
                Seq::empty()
            }
        }),
{
    let now = grouped(g, rows, snapshot, accepted, reveal, taken).0;
    let dirs = test_dirs(rows, accepted);
    let group = now.groups[id];
    let dir = group.path;
    lemma_test_dirs(rows, accepted);
    lemma_with_groups_coherent(g, rows, snapshot, accepted, reveal, taken, dirs);
    assert(made_of(group, rows, snapshot, accepted, dirs));
    assert(group_in_place(now, id));
    lemma_keeps_order(rows, accepted, dir);
    let file = group.files[0];
    assert(rows.contains(file));
    let i = rows.index_of(file);
    assert(file.entry.path.drop_last() == dir);
    assert(within(rows[i].entry.path, dir)) by {
        assert(rows[i].entry.path.take(dir.len() as int) =~= dir);
    }
    (dir, lemma_last_within(rows, dir, i))
}

/// The rows of a group come before those of the group of a directory further up.
pub proof fn law_deeper_groups_come_first<F: Fn(usize) -> bool>(
    groups: &mut TestGroups,
    rows: &mut Vec<GitEntry>,
    snapshot: &Snapshot,
    globs: &[NameGlob],
    reveal: Option<usize>,
    id_is_real: F,
    deeper: usize,
    upper: usize,
)
    requires
        can_be_grouped(old(groups)@, git_views(old(rows)@), snapshot@),
        call_ensures(
            TestGroups::group_entries::<F>,
            (groups, rows, snapshot, globs, reveal, id_is_real),
            (),
        ),
        final(groups)@.ids.next != Some(0usize),
        final(groups)@.groups.contains_key(deeper),
        !old(groups)@.groups.contains_key(deeper),
        final(groups)@.groups.contains_key(upper),
        !old(groups)@.groups.contains_key(upper),
        final(groups)@.groups[upper].path.is_prefix_of(final(groups)@.groups[deeper].path),
        final(groups)@.groups[upper].path.len() < final(groups)@.groups[deeper].path.len(),
    ensures
        exists|a: int, b: int|
            0 <= a < b < final(rows)@.len() && (#[trigger] final(rows)@[a]).entry.id == deeper && (
            #[trigger] final(rows)@[b]).entry.id == upper && (final(groups)@.expanded.contains(
                final(groups)@.groups[deeper].parent,
            ) ==> a + final(groups)@.groups[deeper].files.len() < b),
{
    let g = old(groups)@;
    let before = git_views(old(rows)@);
    let accepted = accepted_names(before, glob_views(globs@));
    let now = (final(groups)@, git_views(final(rows)@));
    let taken = lemma_grouped(id_is_real, g, before, snapshot@, accepted, reveal, now);
    let dirs = test_dirs(before, accepted);
    lemma_enough(g, before, snapshot@, accepted, reveal, taken, dirs);
    let (a, i) = lemma_place_of_group(g, before, snapshot@, accepted, reveal, taken, deeper);
    let (b, j) = lemma_place_of_group(g, before, snapshot@, accepted, reveal, taken, upper);
    lemma_group_place(now.0, before, snapshot@, accepted, a, i);
    lemma_group_place(now.0, before, snapshot@, accepted, b, j);
    let own = group_rows(now.0, before, snapshot@, accepted, a);
    let other = group_rows(now.0, before, snapshot@, accepted, b);
    let at = (
        group_place(now.0, before, snapshot@, accepted, a, i),
        group_place(now.0, before, snapshot@, accepted, b, j),
    );
    assert(now.1.subrange(at.0, at.0 + own.len())[0] == own[0]);
    assert(now.1.subrange(at.1, at.1 + other.len())[0] == other[0]);
    let path = before[i].entry.path;
    assert(within(path, b)) by {
        assert(path.take(b.len() as int) =~= a.take(b.len() as int));
        assert(a.take(b.len() as int) =~= b);
    }
    assert(i <= j);
    if i < j {
        lemma_shown_prefix(now.0, before, snapshot@, accepted, (i + 1) as nat, j as nat);
    } else {
        let up = (path.len() - a.len()) as nat;
        assert(ancestor(path, up) == Some(a)) by {
            assert(path.take(a.len() as int) =~= a);
        }
        lemma_rows_after_grow(
            now.0,
            before,
            snapshot@,
            accepted,
            i,
            up + 1,
            (path.len() - b.len()) as nat,
        );
    }
    assert(at.0 + own.len() <= at.1);
    assert(now.1[at.0] == final(rows)@[at.0]@ && now.1[at.1] == final(rows)@[at.1]@);
}

/// Either the test files of all directories that the worktree has are grouped, or there were not
/// enough ids and the rows stay as they are.
pub proof fn law_all_tests_are_grouped_or_rows_stay<F: Fn(usize) -> bool>(
    groups: &mut TestGroups,
    rows: &mut Vec<GitEntry>,
    snapshot: &Snapshot,
    globs: &[NameGlob],
    reveal: Option<usize>,
    id_is_real: F,
    i: int,
    parent: SelectedEntry,
)
    requires
        can_be_grouped(old(groups)@, git_views(old(rows)@), snapshot@),
        call_ensures(
            TestGroups::group_entries::<F>,
            (groups, rows, snapshot, globs, reveal, id_is_real),
            (),
        ),
        0 <= i < old(rows)@.len(),
        is_test_row(old(rows)@[i]@, globs@),
        stands_for(snapshot@, old(rows)@[i]@.entry.path.drop_last(), parent),
        forall|id: usize|
            final(groups)@.groups.contains_key(id) ==> (
            #[trigger] final(groups)@.groups[id]).parent != parent,
    ensures
        final(rows)@.map_values(|e: GitEntry| e@) == old(rows)@.map_values(|e: GitEntry| e@),
        final(groups)@.ids.next == Some(0usize),
{
    let g = old(groups)@;
    let before = git_views(old(rows)@);
    let accepted = accepted_names(before, glob_views(globs@));
    let now = (final(groups)@, git_views(final(rows)@));
    let taken = lemma_grouped(id_is_real, g, before, snapshot@, accepted, reveal, now);
    let dirs = test_dirs(before, accepted);
    let dir = before[i].entry.path.drop_last();
    lemma_enough(g, before, snapshot@, accepted, reveal, taken, dirs);
    lemma_stands_for(snapshot@, dir, parent);
    lemma_dir_of_test(before, globs@, i);
    lemma_test_dirs(before, accepted);
    if with_groups(g, before, snapshot@, accepted, reveal, taken, dirs).1 {
        law_each_directory_has_its_group(g, before, snapshot@, accepted, reveal, taken, dirs);
        assert(has_own_group(now.0, before, snapshot@, accepted, dir));
        assert(now.0.groups[now.0.ids.by_parent[parent]].parent == parent);
    }
}

} // verus!
